//! The palette: the rules a configuration keeps, and the cyclic ramp that
//! turns escape counts into colours.

use vstd::prelude::*;
use crate::error::Error;

verus! {

/// The highest iteration limit that a configuration may ask for.
pub const MAX_LIMIT: u32 = 10000;

/// The number of components of a colour: red, green, blue.
pub const COLOR_COMPONENTS: u8 = 3;

/// Whether every entry of `palette` has exactly `components` components.
pub open spec fn uniform<C>(palette: Seq<Vec<C>>, components: int) -> bool {
    forall|i: int| 0 <= i < palette.len() ==> (#[trigger] palette[i]).len() == components
}

/// Whether colours can be read from `palette`: it holds a colour, and every
/// entry has at least its red, green and blue component.
pub open spec fn readable<C>(palette: Seq<Vec<C>>) -> bool {
    &&& palette.len() > 0
    &&& forall|i: int| 0 <= i < palette.len() ==> (#[trigger] palette[i]).len() >= 3
}

/// Whether a configuration keeps the rules: the limit is at most
/// [`MAX_LIMIT`], colours have [`COLOR_COMPONENTS`] components, the palette
/// holds a colour, and each of its entries has that many components.
pub open spec fn valid_config<C>(limit: u32, components: u8, palette: Seq<Vec<C>>) -> bool {
    &&& limit <= MAX_LIMIT
    &&& components == COLOR_COMPONENTS
    &&& palette.len() > 0
    &&& uniform(palette, components as int)
}

/// Holds a configuration against the rules and names the first rule that
/// it breaks, in this order: the limit, the number of components, the
/// entries of the palette from the first to the last, and that the palette
/// holds a colour at all.
pub fn validate_config<C>(
    limit: u32,
    color_components: u8,
    color_palette: &Vec<Vec<C>>,
) -> (r: Result<(), Error>)
    ensures
        r.is_ok() <==> valid_config(limit, color_components, color_palette@),
        r.is_ok() ==> readable(color_palette@),
        match r {
            Ok(_) => true,
            Err(Error::LimitTooLarge) => limit > MAX_LIMIT,
            Err(Error::UnsupportedComponents) => limit <= MAX_LIMIT && color_components
                != COLOR_COMPONENTS,
            Err(Error::ComponentMismatch(at)) => {
                &&& limit <= MAX_LIMIT
                &&& color_components == COLOR_COMPONENTS
                &&& at < color_palette.len()
                &&& color_palette[at as int].len() != color_components
                &&& uniform(color_palette@.take(at as int), color_components as int)
            },
            Err(Error::EmptyPalette) => {
                &&& limit <= MAX_LIMIT
                &&& color_components == COLOR_COMPONENTS
                &&& color_palette.len() == 0
            },
            Err(_) => false,
        },
{
    if limit > MAX_LIMIT {
        return Err(Error::LimitTooLarge);
    }
    if color_components != COLOR_COMPONENTS {
        return Err(Error::UnsupportedComponents);
    }
    let mut i: usize = 0;
    while i < color_palette.len()
        invariant
            limit <= MAX_LIMIT,
            color_components == COLOR_COMPONENTS,
            i <= color_palette.len(),
            uniform(color_palette@.take(i as int), color_components as int),
        decreases color_palette.len() - i,
    {
        if color_palette[i].len() != color_components as usize {
            return Err(Error::ComponentMismatch(i));
        }
        proof {
            assert forall|k: int| 0 <= k < i + 1 implies (#[trigger] color_palette@.take(
                i + 1,
            )[k]).len() == color_components by {
                if k < i {
                    assert(color_palette@.take(i as int)[k] == color_palette@.take(i + 1)[k]);
                }
            }
        }
        i = i + 1;
    }
    proof {
        assert(color_palette@.take(color_palette.len() as int) =~= color_palette@);
    }
    if color_palette.len() == 0 {
        return Err(Error::EmptyPalette);
    }
    Ok(())
}

/// The red, green and blue component of the palette entry at `idx`.
pub fn rbg_from_palette<C: Copy>(palette: &Vec<Vec<C>>, idx: usize) -> (rgb: (C, C, C))
    requires
        idx < palette.len(),
        palette[idx as int].len() >= 3,
    ensures
        rgb == (palette[idx as int][0], palette[idx as int][1], palette[idx as int][2]),
{
    let color: &Vec<C> = &palette[idx];
    (color[0], color[1], color[2])
}

/// The palette entry that a ramp position in cell `cell` starts from: the
/// palette is walked in a circle.
pub open spec fn left_of(cell: int, len: int) -> int
    recommends
        0 <= cell,
        0 < len,
{
    cell % len
}

/// The palette entry that a ramp position in cell `cell` leads to: the one
/// after [`left_of`], and the first entry after the last.
pub open spec fn right_of(cell: int, len: int) -> int
    recommends
        0 <= cell,
        0 < len,
{
    (left_of(cell, len) + 1) % len
}

/// Whether `rgb` is a colour of the ramp for the count `val`: `position`
/// places the count in a cell of the palette and a fraction of the way
/// through it, and `blend` mixes, channel by channel, the cell's entry and
/// the next by that fraction.
pub open spec fn ramp_color<C, P: Fn(u32) -> (usize, C), B: Fn(C, C, C) -> u8>(
    val: u32,
    palette: Seq<Vec<C>>,
    position: P,
    blend: B,
    rgb: (u8, u8, u8),
) -> bool {
    exists|at: (usize, C)|
        {
            let left = palette[left_of(at.0 as int, palette.len() as int)];
            let right = palette[right_of(at.0 as int, palette.len() as int)];
            &&& #[trigger] call_ensures(position, (val,), at)
            &&& call_ensures(blend, (left[0], right[0], at.1), rgb.0)
            &&& call_ensures(blend, (left[1], right[1], at.1), rgb.1)
            &&& call_ensures(blend, (left[2], right[2], at.1), rgb.2)
        }
}

/// The colour of a pixel whose escape count is `val`.
///
/// A count equal to `limit` marks a point that never escaped: it is black,
/// whatever the palette holds. Every other count lies on a ramp that runs
/// through the palette in a circle: `position(val)` gives the cell
/// `floor(t)` and the fraction `t - floor(t)` of the ramp position
/// `t = (val mod steps) * length / steps`, and each channel is
/// `blend(left, right, fraction)`, that is `left + (right - left) *
/// fraction` cut down to a whole number, between the entry of that cell and
/// the next. The ramp position and the mixing are the caller's, in the
/// number type `C` of the palette.
pub fn color_for_val_with_config<C: Copy, P: Fn(u32) -> (usize, C), B: Fn(C, C, C) -> u8>(
    val: u32,
    limit: u32,
    palette: &Vec<Vec<C>>,
    position: &P,
    blend: &B,
) -> (rgb: (u8, u8, u8))
    requires
        paintable(val, limit, palette@, *position, *blend),
    ensures
        val == limit ==> rgb == (0u8, 0u8, 0u8),
        val != limit ==> ramp_color(val, palette@, *position, *blend, rgb),
        pixel_color(val, limit, palette@, *position, *blend, rgb),
{
    if val == limit {
        return (0, 0, 0);
    }
    let at: (usize, C) = position(val);
    let len: usize = palette.len();
    let left: usize = at.0 % len;
    let right: usize = (left + 1) % len;
    let (r1, g1, b1) = rbg_from_palette(palette, left);
    let (r2, g2, b2) = rbg_from_palette(palette, right);
    let r: u8 = blend(r1, r2, at.1);
    let g: u8 = blend(g1, g2, at.1);
    let b: u8 = blend(b1, b2, at.1);
    proof {
        assert(call_ensures(*position, (val,), at));
    }
    (r, g, b)
}

/// Whether `rgb` is the colour of a pixel whose escape count is `val`: black
/// for a count equal to `limit`, a colour of the ramp for every other.
pub open spec fn pixel_color<C, P: Fn(u32) -> (usize, C), B: Fn(C, C, C) -> u8>(
    val: u32,
    limit: u32,
    palette: Seq<Vec<C>>,
    position: P,
    blend: B,
    rgb: (u8, u8, u8),
) -> bool {
    if val == limit {
        rgb == (0u8, 0u8, 0u8)
    } else {
        ramp_color(val, palette, position, blend, rgb)
    }
}

/// Whether the colour of the count `val` may be computed: nothing is asked
/// where the count is `limit`; for every other count colours can be read
/// from the palette, and `position` and `blend` may be called.
pub open spec fn paintable<C, P: Fn(u32) -> (usize, C), B: Fn(C, C, C) -> u8>(
    val: u32,
    limit: u32,
    palette: Seq<Vec<C>>,
    position: P,
    blend: B,
) -> bool {
    val != limit ==> {
        &&& readable(palette)
        &&& call_requires(position, (val,))
        &&& forall|left: C, right: C, fraction: C| call_requires(blend, (left, right, fraction))
    }
}

/// The colours of a whole field as raster bytes: red, green and blue of
/// pixel 0, then of pixel 1, and so on in field order, three bytes a pixel.
pub fn colorize<C: Copy, P: Fn(u32) -> (usize, C), B: Fn(C, C, C) -> u8>(
    field: &Vec<u32>,
    limit: u32,
    palette: &Vec<Vec<C>>,
    position: &P,
    blend: &B,
) -> (bytes: Vec<u8>)
    requires
        forall|i: int|
            0 <= i < field.len() ==> paintable(
                #[trigger] field[i],
                limit,
                palette@,
                *position,
                *blend,
            ),
    ensures
        bytes.len() == 3 * field.len(),
        forall|i: int|
            0 <= i < field.len() ==> pixel_color(
                #[trigger] field[i],
                limit,
                palette@,
                *position,
                *blend,
                (bytes[3 * i], bytes[3 * i + 1], bytes[3 * i + 2]),
            ),
{
    let mut bytes: Vec<u8> = Vec::new();
    let mut i: usize = 0;
    while i < field.len()
        invariant
            i <= field.len(),
            bytes.len() == 3 * i,
            forall|k: int|
                0 <= k < field.len() ==> paintable(
                    #[trigger] field[k],
                    limit,
                    palette@,
                    *position,
                    *blend,
                ),
            forall|k: int|
                0 <= k < i ==> pixel_color(
                    #[trigger] field[k],
                    limit,
                    palette@,
                    *position,
                    *blend,
                    (bytes[3 * k], bytes[3 * k + 1], bytes[3 * k + 2]),
                ),
        decreases field.len() - i,
    {
        let val: u32 = field[i];
        assert(paintable(field[i as int], limit, palette@, *position, *blend));
        let rgb: (u8, u8, u8) = color_for_val_with_config(val, limit, palette, position, blend);
        bytes.push(rgb.0);
        bytes.push(rgb.1);
        bytes.push(rgb.2);
        i = i + 1;
    }
    bytes
}

/// The colour of a count other than the limit depends on the count through
/// its ramp position alone: two counts that `position` places alike have
/// the same colours, whatever the limit. So the ramp repeats wherever the
/// ramp position does.
pub proof fn lemma_color_follows_position<C, P: Fn(u32) -> (usize, C), B: Fn(C, C, C) -> u8>(
    v1: u32,
    v2: u32,
    palette: Seq<Vec<C>>,
    position: P,
    blend: B,
    rgb: (u8, u8, u8),
)
    requires
        forall|at: (usize, C)|
            call_ensures(position, (v1,), at) <==> call_ensures(position, (v2,), at),
    ensures
        ramp_color(v1, palette, position, blend, rgb) <==> ramp_color(
            v2,
            palette,
            position,
            blend,
            rgb,
        ),
{
    if ramp_color(v1, palette, position, blend, rgb) {
        let at = choose|at: (usize, C)|
            {
                let left = palette[left_of(at.0 as int, palette.len() as int)];
                let right = palette[right_of(at.0 as int, palette.len() as int)];
                &&& #[trigger] call_ensures(position, (v1,), at)
                &&& call_ensures(blend, (left[0], right[0], at.1), rgb.0)
                &&& call_ensures(blend, (left[1], right[1], at.1), rgb.1)
                &&& call_ensures(blend, (left[2], right[2], at.1), rgb.2)
            };
        assert(call_ensures(position, (v2,), at));
    }
    if ramp_color(v2, palette, position, blend, rgb) {
        let at = choose|at: (usize, C)|
            {
                let left = palette[left_of(at.0 as int, palette.len() as int)];
                let right = palette[right_of(at.0 as int, palette.len() as int)];
                &&& #[trigger] call_ensures(position, (v2,), at)
                &&& call_ensures(blend, (left[0], right[0], at.1), rgb.0)
                &&& call_ensures(blend, (left[1], right[1], at.1), rgb.1)
                &&& call_ensures(blend, (left[2], right[2], at.1), rgb.2)
            };
        assert(call_ensures(position, (v1,), at));
    }
}

/// The two entries that a ramp position is mixed from are entries of the
/// palette, and they are neighbours on the circle: the second is the one
/// after the first, or the first entry where the first is the last.
pub proof fn lemma_ramp_neighbours(cell: int, len: int)
    requires
        0 <= cell,
        0 < len,
    ensures
        0 <= left_of(cell, len) < len,
        0 <= right_of(cell, len) < len,
        left_of(cell, len) < len - 1 ==> right_of(cell, len) == left_of(cell, len) + 1,
        left_of(cell, len) == len - 1 ==> right_of(cell, len) == 0,
        left_of(cell + len, len) == left_of(cell, len),
        right_of(cell + len, len) == right_of(cell, len),
{
    let l = left_of(cell, len);
    assert(0 <= l < len);
    if l < len - 1 {
        vstd::arithmetic::div_mod::lemma_small_mod((l + 1) as nat, len as nat);
    } else {
        vstd::arithmetic::div_mod::lemma_mod_self_0(len);
    }
    vstd::arithmetic::div_mod::lemma_mod_add_multiples_vanish(cell, len);
}

} // verus!
