//! The field: one escape count per pixel, computed chunk by chunk and
//! joined in worker order.

use vstd::prelude::*;
use crate::coords::{idx2point, point_at, Point, Size};
use crate::error::Error;
use crate::escape::{deterministic, escape_count, lemma_escape_count_unique, mandelbrot};
use crate::partition::{
    chunk_at, chunk_start, lemma_chunks_contiguous, partition, plan_of, Chunk,
};
use crate::workers::worker_count;

verus! {

/// Whether `count` is an escape count of the pixel `p`: `to_window` maps the
/// pixel to a seed of which `count` is an escape count.
pub open spec fn pixel_count<
    N,
    W: Fn(Point) -> (N, N),
    E: Fn(N, N) -> bool,
    A: Fn(N, N, N, N) -> (N, N),
>(p: Point, limit: u32, to_window: W, escaped: E, advance: A, count: u32) -> bool {
    exists|c: (N, N)|
        #[trigger] call_ensures(to_window, (p,), c) && escape_count(
            c.0,
            c.1,
            limit,
            escaped,
            advance,
            count,
        )
}

/// Whether `out` holds the escape counts of the pixels of `chunk`, in index
/// order, on a grid `width` pixels wide.
pub open spec fn chunk_sampled<
    N,
    W: Fn(Point) -> (N, N),
    E: Fn(N, N) -> bool,
    A: Fn(N, N, N, N) -> (N, N),
>(
    out: Seq<u32>,
    chunk: Chunk,
    width: u32,
    limit: u32,
    to_window: W,
    escaped: E,
    advance: A,
) -> bool {
    &&& out.len() == chunk.len()
    &&& forall|k: int|
        0 <= k < out.len() ==> pixel_count(
            point_at(chunk.start + k, width as int),
            limit,
            to_window,
            escaped,
            advance,
            #[trigger] out[k],
        )
}

/// Whether `field` is the field of a grid of extent `size`: one escape count
/// per pixel, in row-major order, the count of pixel `(x, y)` at index
/// `y * width + x`.
pub open spec fn is_field<
    N,
    W: Fn(Point) -> (N, N),
    E: Fn(N, N) -> bool,
    A: Fn(N, N, N, N) -> (N, N),
>(field: Seq<u32>, size: Size, limit: u32, to_window: W, escaped: E, advance: A) -> bool {
    &&& field.len() == size.area()
    &&& forall|i: int|
        0 <= i < field.len() ==> pixel_count(
            point_at(i, size.width as int),
            limit,
            to_window,
            escaped,
            advance,
            #[trigger] field[i],
        )
}

/// Whether the three function values may be called as the generator calls
/// them: `to_window` on the pixels with the indices `lo .. hi` of a grid
/// `width` pixels wide, the other two on every input.
pub open spec fn callable<
    N,
    W: Fn(Point) -> (N, N),
    E: Fn(N, N) -> bool,
    A: Fn(N, N, N, N) -> (N, N),
>(lo: int, hi: int, width: u32, to_window: W, escaped: E, advance: A) -> bool {
    &&& forall|i: int|
        lo <= i < hi ==> call_requires(to_window, (#[trigger] point_at(i, width as int),))
    &&& forall|x: N, y: N| call_requires(escaped, (x, y))
    &&& forall|x: N, y: N, cx: N, cy: N| call_requires(advance, (x, y, cx, cy))
}

/// The contents of `parts`, each as a sequence.
pub open spec fn views(parts: Seq<Vec<u32>>) -> Seq<Seq<u32>> {
    parts.map_values(|part: Vec<u32>| part@)
}

/// What the workers delivered, each delivery as a sequence, and the empty
/// sequence for a worker that delivered nothing.
pub open spec fn deliveries(results: Seq<Option<Vec<u32>>>) -> Seq<Seq<u32>> {
    results.map_values(
        |result: Option<Vec<u32>>|
            match result {
                Some(part) => part@,
                None => Seq::empty(),
            },
    )
}

/// The work of one worker: the escape counts of the pixels of `chunk`, in
/// index order. Each pixel index is mapped to its pixel, the pixel to its
/// seed by `to_window`, and the seed to its count by [`mandelbrot`].
///
/// A non-empty chunk on a grid of width zero cannot be mapped and is the one
/// failure; an empty chunk gives an empty result on any grid.
pub fn sample_chunk<
    N: Copy,
    W: Fn(Point) -> (N, N),
    E: Fn(N, N) -> bool,
    A: Fn(N, N, N, N) -> (N, N),
>(
    chunk: Chunk,
    width: u32,
    limit: u32,
    to_window: &W,
    escaped: &E,
    advance: &A,
) -> (r: Result<Vec<u32>, Error>)
    requires
        callable(chunk.start as int, chunk.end as int, width, *to_window, *escaped, *advance),
    ensures
        (width == 0 && chunk.len() > 0) <==> r.is_err(),
        r matches Err(e) ==> e == Error::InvalidGeometry,
        r matches Ok(out) ==> chunk_sampled(
            out@,
            chunk,
            width,
            limit,
            *to_window,
            *escaped,
            *advance,
        ),
        r matches Ok(out) ==> forall|k: int| 0 <= k < out.len() ==> out[k] <= limit,
{
    let mut out: Vec<u32> = Vec::new();
    let mut i: u32 = chunk.start;
    while i < chunk.end
        invariant
            callable(chunk.start as int, chunk.end as int, width, *to_window, *escaped, *advance),
            chunk.start <= i,
            i <= chunk.end || i == chunk.start,
            width != 0 || i == chunk.start,
            out.len() == i - chunk.start,
            forall|k: int|
                0 <= k < out.len() ==> pixel_count(
                    point_at(chunk.start + k, width as int),
                    limit,
                    *to_window,
                    *escaped,
                    *advance,
                    #[trigger] out[k],
                ),
            forall|k: int| 0 <= k < out.len() ==> out[k] <= limit,
        decreases chunk.end - i,
    {
        let p: Point = match idx2point(i, width) {
            Ok(p) => p,
            Err(e) => {
                return Err(e);
            },
        };
        assert(p == point_at(i as int, width as int));
        let c: (N, N) = to_window(p);
        let count: u32 = mandelbrot(c.0, c.1, limit, escaped, advance);
        assert(pixel_count(p, limit, *to_window, *escaped, *advance, count)) by {
            assert(call_ensures(*to_window, (p,), c));
        }
        out.push(count);
        i = i + 1;
    }
    Ok(out)
}

/// Appends the counts of `part` to `field`, in order.
fn append(field: &mut Vec<u32>, part: &Vec<u32>)
    ensures
        final(field)@ == old(field)@ + part@,
{
    let ghost before: Seq<u32> = field@;
    let mut j: usize = 0;
    while j < part.len()
        invariant
            j <= part.len(),
            field@ == before + part@.take(j as int),
        decreases part.len() - j,
    {
        field.push(part[j]);
        proof {
            assert(part@.take(j + 1) =~= part@.take(j as int).push(part@[j as int]));
        }
        j = j + 1;
    }
    proof {
        assert(part@.take(part.len() as int) =~= part@);
    }
}

/// Joins the workers' results into one field: the parts one after the
/// other, in worker order, nothing sorted and nothing dropped.
pub fn gather(parts: &Vec<Vec<u32>>) -> (field: Vec<u32>)
    ensures
        field@ == views(parts@).flatten(),
{
    let mut field: Vec<u32> = Vec::new();
    let mut i: usize = 0;
    proof {
        assert(views(parts@.take(0)) =~= Seq::<Seq<u32>>::empty());
    }
    while i < parts.len()
        invariant
            i <= parts.len(),
            field@ == views(parts@.take(i as int)).flatten(),
        decreases parts.len() - i,
    {
        append(&mut field, &parts[i]);
        proof {
            assert(views(parts@.take(i + 1)) =~= views(parts@.take(i as int)).push(parts[i as int]@));
            views(parts@.take(i as int)).lemma_flatten_push(parts[i as int]@);
        }
        i = i + 1;
    }
    proof {
        assert(parts@.take(parts.len() as int) =~= parts@);
    }
    field
}

/// Joins what the workers delivered into one field, or refuses: where any
/// worker delivered nothing, no field is handed out, and the error names
/// the first such worker.
pub fn assemble(results: &Vec<Option<Vec<u32>>>) -> (r: Result<Vec<u32>, Error>)
    ensures
        (forall|i: int| 0 <= i < results.len() ==> results[i] is Some) <==> r.is_ok(),
        r matches Ok(field) ==> field@ == deliveries(results@).flatten(),
        r matches Err(e) ==> exists|i: int|
            0 <= i < results.len() && e == Error::WorkerFailed(i as usize)
                && #[trigger] results[i] is None && forall|j: int|
                0 <= j < i ==> results[j] is Some,
{
    let mut field: Vec<u32> = Vec::new();
    let mut i: usize = 0;
    proof {
        assert(deliveries(results@.take(0)) =~= Seq::<Seq<u32>>::empty());
    }
    while i < results.len()
        invariant
            i <= results.len(),
            forall|j: int| 0 <= j < i ==> results[j] is Some,
            field@ == deliveries(results@.take(i as int)).flatten(),
        decreases results.len() - i,
    {
        match &results[i] {
            None => {
                assert(results[i as int] is None);
                return Err(Error::WorkerFailed(i));
            },
            Some(part) => {
                append(&mut field, part);
                proof {
                    assert(deliveries(results@.take(i + 1)) =~= deliveries(
                        results@.take(i as int),
                    ).push(part@));
                    deliveries(results@.take(i as int)).lemma_flatten_push(part@);
                }
            },
        }
        i = i + 1;
    }
    proof {
        assert(results@.take(results.len() as int) =~= results@);
    }
    Ok(field)
}

/// The chunks of the first `n` workers, each sampled by its worker, make the
/// field up to where the last of them ends.
proof fn lemma_parts_make_prefix<
    N,
    W: Fn(Point) -> (N, N),
    E: Fn(N, N) -> bool,
    A: Fn(N, N, N, N) -> (N, N),
>(
    parts: Seq<Seq<u32>>,
    n: int,
    size: Size,
    limit: u32,
    workers: u32,
    to_window: W,
    escaped: E,
    advance: A,
)
    requires
        size.area() <= u32::MAX,
        workers >= 1,
        0 <= n <= workers,
        parts.len() == workers,
        forall|i: int|
            0 <= i < workers ==> chunk_sampled(
                #[trigger] parts[i],
                chunk_at(i, size.area(), workers as int),
                size.width,
                limit,
                to_window,
                escaped,
                advance,
            ),
    ensures
        parts.take(n).flatten().len() == chunk_start(n, size.area(), workers as int),
        forall|i: int|
            0 <= i < parts.take(n).flatten().len() ==> pixel_count(
                point_at(i, size.width as int),
                limit,
                to_window,
                escaped,
                advance,
                #[trigger] parts.take(n).flatten()[i],
            ),
    decreases n,
{
    let total = size.area();
    assert(0 <= total) by (nonlinear_arith)
        requires
            total == size.width * size.height,
    ;
    if n == 0 {
        assert(parts.take(0) =~= Seq::<Seq<u32>>::empty());
        assert(0 * crate::partition::chunk_len(total, workers as int) == 0);
    } else {
        lemma_parts_make_prefix(parts, n - 1, size, limit, workers, to_window, escaped, advance);
        lemma_chunks_contiguous(n - 1, total, workers as int);
        let before = parts.take(n - 1);
        let part = parts[n - 1];
        assert(parts.take(n) =~= before.push(part));
        before.lemma_flatten_push(part);
        let chunk = chunk_at(n - 1, total, workers as int);
        assert(chunk_sampled(part, chunk, size.width, limit, to_window, escaped, advance));
        let flat = parts.take(n).flatten();
        assert forall|i: int| 0 <= i < flat.len() implies pixel_count(
            point_at(i, size.width as int),
            limit,
            to_window,
            escaped,
            advance,
            #[trigger] flat[i],
        ) by {
            if i >= before.flatten().len() {
                let k = i - before.flatten().len();
                assert(flat[i] == part[k]);
                assert(chunk.start + k == i);
            } else {
                assert(flat[i] == before.flatten()[i]);
            }
        }
    }
}

/// Where each worker has sampled its own chunk of the split, the parts laid
/// end to end in worker order are the field: the same field for every
/// number of workers.
pub proof fn lemma_chunks_make_field<
    N,
    W: Fn(Point) -> (N, N),
    E: Fn(N, N) -> bool,
    A: Fn(N, N, N, N) -> (N, N),
>(
    parts: Seq<Seq<u32>>,
    size: Size,
    limit: u32,
    workers: u32,
    to_window: W,
    escaped: E,
    advance: A,
)
    requires
        size.area() <= u32::MAX,
        workers >= 1,
        parts.len() == workers,
        forall|i: int|
            0 <= i < workers ==> chunk_sampled(
                #[trigger] parts[i],
                chunk_at(i, size.area(), workers as int),
                size.width,
                limit,
                to_window,
                escaped,
                advance,
            ),
    ensures
        is_field(parts.flatten(), size, limit, to_window, escaped, advance),
{
    let total = size.area();
    assert(0 <= total) by (nonlinear_arith)
        requires
            total == size.width * size.height,
    ;
    lemma_parts_make_prefix(
        parts,
        workers as int,
        size,
        limit,
        workers,
        to_window,
        escaped,
        advance,
    );
    lemma_chunks_contiguous(workers - 1, total, workers as int);
    assert(parts.take(workers as int) =~= parts);
}

/// A grid has one field, where the three function values give one answer per
/// input: whoever computes it, with however many workers, gets the same
/// counts in the same places.
pub proof fn lemma_field_determined<
    N,
    W: Fn(Point) -> (N, N),
    E: Fn(N, N) -> bool,
    A: Fn(N, N, N, N) -> (N, N),
>(f1: Seq<u32>, f2: Seq<u32>, size: Size, limit: u32, to_window: W, escaped: E, advance: A)
    requires
        is_field(f1, size, limit, to_window, escaped, advance),
        is_field(f2, size, limit, to_window, escaped, advance),
        deterministic(escaped, advance),
        forall|p: Point, a: (N, N), b: (N, N)|
            call_ensures(to_window, (p,), a) && call_ensures(to_window, (p,), b) ==> a == b,
    ensures
        f1 == f2,
{
    assert forall|i: int| 0 <= i < f1.len() implies f1[i] == f2[i] by {
        let p = point_at(i, size.width as int);
        assert(pixel_count(p, limit, to_window, escaped, advance, f1[i]));
        assert(pixel_count(p, limit, to_window, escaped, advance, f2[i]));
        let c1 = choose|c: (N, N)|
            #[trigger] call_ensures(to_window, (p,), c) && escape_count(
                c.0,
                c.1,
                limit,
                escaped,
                advance,
                f1[i],
            );
        let c2 = choose|c: (N, N)|
            #[trigger] call_ensures(to_window, (p,), c) && escape_count(
                c.0,
                c.1,
                limit,
                escaped,
                advance,
                f2[i],
            );
        assert(c1 == c2);
        lemma_escape_count_unique(c1.0, c1.1, limit, escaped, advance, f1[i], f2[i]);
    }
    assert(f1 =~= f2);
}

/// Computes the field of a grid of extent `size` with the work split among
/// `workers` workers: the split of [`partition`], each chunk sampled by
/// [`sample_chunk`], the parts joined by [`gather`]. The chunks are sampled
/// one after the other; a caller with threads samples them side by side and
/// gets, by [`lemma_chunks_make_field`], the same field.
///
/// A grid without pixels has the empty field. The one failure is a split
/// among no workers.
pub fn generate_field<
    N: Copy,
    W: Fn(Point) -> (N, N),
    E: Fn(N, N) -> bool,
    A: Fn(N, N, N, N) -> (N, N),
>(
    size: Size,
    limit: u32,
    workers: u32,
    to_window: &W,
    escaped: &E,
    advance: &A,
) -> (r: Result<Vec<u32>, Error>)
    requires
        size.area() <= u32::MAX,
        callable(0, size.area(), size.width, *to_window, *escaped, *advance),
    ensures
        workers == 0 <==> r.is_err(),
        r matches Err(e) ==> e == Error::NoWorkers,
        r matches Ok(field) ==> is_field(field@, size, limit, *to_window, *escaped, *advance),
        r matches Ok(field) ==> forall|i: int| 0 <= i < field.len() ==> field[i] <= limit,
{
    proof {
        assert(0 <= size.area()) by (nonlinear_arith)
            requires
                size.area() == size.width * size.height,
        ;
    }
    let total: u32 = size.width * size.height;
    let plan: Vec<Chunk> = match partition(total, workers) {
        Ok(plan) => plan,
        Err(e) => {
            return Err(e);
        },
    };
    let mut parts: Vec<Vec<u32>> = Vec::new();
    let mut i: usize = 0;
    while i < plan.len()
        invariant
            workers >= 1,
            total == size.area(),
            plan@ == plan_of(total as int, workers as int),
            callable(0, size.area(), size.width, *to_window, *escaped, *advance),
            i <= plan.len(),
            parts.len() == i,
            forall|k: int|
                0 <= k < i ==> chunk_sampled(
                    (#[trigger] parts[k])@,
                    chunk_at(k, total as int, workers as int),
                    size.width,
                    limit,
                    *to_window,
                    *escaped,
                    *advance,
                ),
            forall|k: int, j: int|
                0 <= k < i && 0 <= j < parts[k].len() ==> #[trigger] parts[k][j] <= limit,
        decreases plan.len() - i,
    {
        let chunk: Chunk = plan[i];
        proof {
            lemma_chunks_contiguous(i as int, total as int, workers as int);
            assert(chunk == chunk_at(i as int, total as int, workers as int));
            if size.width == 0 {
                assert(total == 0) by (nonlinear_arith)
                    requires
                        total == size.width * size.height,
                        size.width == 0,
                ;
            }
        }
        let part: Vec<u32> = match sample_chunk(chunk, size.width, limit, to_window, escaped, advance) {
            Ok(part) => part,
            Err(e) => {
                proof {
                    assert(false);
                }
                return Err(e);
            },
        };
        parts.push(part);
        i = i + 1;
    }
    let field: Vec<u32> = gather(&parts);
    proof {
        assert(views(parts@).len() == workers);
        assert forall|k: int| 0 <= k < workers implies chunk_sampled(
            #[trigger] views(parts@)[k],
            chunk_at(k, size.area(), workers as int),
            size.width,
            limit,
            *to_window,
            *escaped,
            *advance,
        ) by {
            assert(views(parts@)[k] == parts[k]@);
        }
        lemma_chunks_make_field(
            views(parts@),
            size,
            limit,
            workers,
            *to_window,
            *escaped,
            *advance,
        );
        lemma_flatten_bounded(views(parts@), limit);
    }
    Ok(field)
}

/// Parts whose entries stay within a bound join into a sequence whose
/// entries do.
proof fn lemma_flatten_bounded(parts: Seq<Seq<u32>>, bound: u32)
    requires
        forall|k: int, j: int|
            0 <= k < parts.len() && 0 <= j < parts[k].len() ==> #[trigger] parts[k][j] <= bound,
    ensures
        forall|i: int| 0 <= i < parts.flatten().len() ==> #[trigger] parts.flatten()[i] <= bound,
    decreases parts.len(),
{
    if parts.len() > 0 {
        let before = parts.drop_last();
        let part = parts.last();
        assert(parts =~= before.push(part));
        before.lemma_flatten_push(part);
        assert forall|k: int, j: int| 0 <= k < before.len() && 0 <= j < before[k].len() implies #[trigger] before[k][j] <= bound by {
            assert(before[k] == parts[k]);
        }
        lemma_flatten_bounded(before, bound);
        assert forall|i: int| 0 <= i < parts.flatten().len() implies #[trigger] parts.flatten()[i]
            <= bound by {
            if i >= before.flatten().len() {
                assert(parts.flatten()[i] == part[i - before.flatten().len()]);
            } else {
                assert(parts.flatten()[i] == before.flatten()[i]);
            }
        }
    }
}

/// Computes the field of a grid of extent `size` with the work split among
/// as many workers as [`worker_count`] finds processors.
pub fn gen_mandelbrot<
    N: Copy,
    W: Fn(Point) -> (N, N),
    E: Fn(N, N) -> bool,
    A: Fn(N, N, N, N) -> (N, N),
>(size: &Size, limit: u32, to_window: &W, escaped: &E, advance: &A) -> (field: Vec<u32>)
    requires
        size.area() <= u32::MAX,
        callable(0, size.area(), size.width, *to_window, *escaped, *advance),
    ensures
        is_field(field@, *size, limit, *to_window, *escaped, *advance),
        forall|i: int| 0 <= i < field.len() ==> field[i] <= limit,
{
    let workers: u32 = worker_count();
    match generate_field(*size, limit, workers, to_window, escaped, advance) {
        Ok(field) => field,
        Err(_) => {
            proof {
                assert(false);
            }
            Vec::new()
        },
    }
}

} // verus!
