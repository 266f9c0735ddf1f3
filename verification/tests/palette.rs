use mandelbrot::error::Error;
use mandelbrot::palette::{
    color_for_val_with_config, colorize, rbg_from_palette, validate_config, COLOR_COMPONENTS,
    MAX_LIMIT,
};

fn position(steps: f32, len: usize) -> impl Fn(u32) -> (usize, f32) {
    move |count: u32| {
        let t = (count as f32 % steps) * (len as f32) / steps;
        (t as usize, t - t.floor())
    }
}

fn blend(left: f32, right: f32, fraction: f32) -> u8 {
    (left + (right - left) * fraction) as u8
}

fn color_for(count: u32, limit: u32, steps: f32, palette: &Vec<Vec<f32>>) -> (u8, u8, u8) {
    color_for_val_with_config(count, limit, palette, &position(steps, palette.len()), &blend)
}

fn black_and_white() -> Vec<Vec<f32>> {
    vec![vec![0.0, 0.0, 0.0], vec![255.0, 255.0, 255.0]]
}

fn primaries() -> Vec<Vec<f32>> {
    vec![vec![255.0, 0.0, 0.0], vec![0.0, 255.0, 0.0], vec![0.0, 0.0, 255.0]]
}

#[test]
fn two_colors_two_steps() {
    let palette = black_and_white();
    assert_eq!(color_for(0, 10, 2.0, &palette), (0, 0, 0));
    assert_eq!(color_for(1, 10, 2.0, &palette), (255, 255, 255));
    assert_eq!(color_for(10, 10, 2.0, &palette), (0, 0, 0));
}

#[test]
fn limit_is_black_whatever_the_palette() {
    assert_eq!(color_for(10, 10, 2.0, &primaries()), (0, 0, 0));
    assert_eq!(color_for(0, 0, 7.0, &primaries()), (0, 0, 0));
    assert_eq!(color_for(77, 77, 3.0, &vec![vec![9.0, 8.0, 7.0]]), (0, 0, 0));
    assert_eq!(color_for(5, 5, 2.0, &vec![]), (0, 0, 0));
    assert_eq!(color_for(5, 5, 2.0, &vec![vec![]]), (0, 0, 0));
    let white = vec![vec![255.0, 255.0, 255.0]];
    assert_eq!(color_for(4, 4, 1.0, &white), (0, 0, 0));
    assert_eq!(color_for(3, 4, 1.0, &white), (255, 255, 255));
}

#[test]
fn channels_are_cut_not_rounded() {
    let palette = black_and_white();
    assert_eq!(color_for(1, 100, 4.0, &palette), (127, 127, 127));
    assert_eq!(color_for(2, 100, 4.0, &palette), (255, 255, 255));
    assert_eq!(color_for(3, 100, 4.0, &palette), (127, 127, 127));
    let palette = primaries();
    assert_eq!(color_for(1, 1000, 7.0, &palette), (145, 109, 0));
    assert_eq!(color_for(2, 1000, 7.0, &palette), (36, 218, 0));
    assert_eq!(color_for(3, 1000, 7.0, &palette), (0, 182, 72));
    assert_eq!(color_for(6, 1000, 7.0, &palette), (145, 0, 109));
}

#[test]
fn last_entry_leads_back_to_the_first() {
    let palette = primaries();
    assert_eq!(color_for(5, 1000, 7.0, &palette), (36, 0, 218));
    assert_eq!(color_for(6, 1000, 7.0, &palette), (145, 0, 109));
    assert_eq!(color_for(3, 100, 4.0, &black_and_white()), (127, 127, 127));
}

#[test]
fn fractional_steps() {
    let palette = primaries();
    assert_eq!(color_for(0, 1000, 2.5, &palette), (255, 0, 0));
    assert_eq!(color_for(1, 1000, 2.5, &palette), (0, 203, 51));
    assert_eq!(color_for(2, 1000, 2.5, &palette), (102, 0, 152));
    assert_eq!(color_for(3, 1000, 2.5, &palette), (102, 153, 0));
    assert_eq!(color_for(4, 1000, 2.5, &palette), (0, 51, 203));
    assert_eq!(color_for(5, 1000, 2.5, &palette), (255, 0, 0));
}

#[test]
fn ramp_repeats_every_steps_counts() {
    let palette = primaries();
    for count in 0..200u32 {
        assert_eq!(
            color_for(count, 1000, 7.0, &palette),
            color_for(count + 7, 1000, 7.0, &palette)
        );
    }
    let palette = black_and_white();
    for count in 0..50u32 {
        assert_eq!(
            color_for(count, 100, 4.0, &palette),
            color_for(count + 4, 100, 4.0, &palette)
        );
    }
}

#[test]
fn ramp_does_not_depend_on_the_limit() {
    let palette = primaries();
    for count in 0..20u32 {
        assert_eq!(color_for(count, 1000, 7.0, &palette), color_for(count, 50, 7.0, &palette));
    }
}

#[test]
fn cell_beyond_the_palette_wraps() {
    let palette: Vec<Vec<u8>> = vec![vec![10, 20, 30], vec![40, 50, 60], vec![70, 80, 90]];
    let pick_left = |left: u8, _right: u8, _fraction: u8| left;
    let pick_right = |_left: u8, right: u8, _fraction: u8| right;
    let cell = |count: u32| (count as usize, 0u8);
    assert_eq!(color_for_val_with_config(0, 99, &palette, &cell, &pick_left), (10, 20, 30));
    assert_eq!(color_for_val_with_config(0, 99, &palette, &cell, &pick_right), (40, 50, 60));
    assert_eq!(color_for_val_with_config(2, 99, &palette, &cell, &pick_left), (70, 80, 90));
    assert_eq!(color_for_val_with_config(2, 99, &palette, &cell, &pick_right), (10, 20, 30));
    assert_eq!(color_for_val_with_config(3, 99, &palette, &cell, &pick_left), (10, 20, 30));
    assert_eq!(color_for_val_with_config(7, 99, &palette, &cell, &pick_left), (40, 50, 60));
    assert_eq!(color_for_val_with_config(7, 99, &palette, &cell, &pick_right), (70, 80, 90));
}

#[test]
fn field_to_raster_bytes() {
    let palette = black_and_white();
    let field: Vec<u32> = vec![0, 1, 10, 2, 3];
    let bytes = colorize(&field, 10, &palette, &position(4.0, 2), &blend);
    assert_eq!(bytes, vec![0, 0, 0, 127, 127, 127, 0, 0, 0, 255, 255, 255, 127, 127, 127]);
    let bytes = colorize(&Vec::new(), 10, &palette, &position(4.0, 2), &blend);
    assert_eq!(bytes, Vec::<u8>::new());
    let unescaped: Vec<u32> = vec![10, 10];
    let bytes = colorize(&unescaped, 10, &Vec::new(), &position(4.0, 0), &blend);
    assert_eq!(bytes, vec![0, 0, 0, 0, 0, 0]);
}

#[test]
fn palette_entry_components() {
    let palette = primaries();
    assert_eq!(rbg_from_palette(&palette, 0), (255.0, 0.0, 0.0));
    assert_eq!(rbg_from_palette(&palette, 2), (0.0, 0.0, 255.0));
    let wide: Vec<Vec<u8>> = vec![vec![1, 2, 3, 4]];
    assert_eq!(rbg_from_palette(&wide, 0), (1, 2, 3));
}

#[test]
fn valid_configuration() {
    assert_eq!(MAX_LIMIT, 10000);
    assert_eq!(COLOR_COMPONENTS, 3);
    assert_eq!(validate_config(50, 3, &black_and_white()), Ok(()));
    assert_eq!(validate_config(10000, 3, &primaries()), Ok(()));
    assert_eq!(validate_config(0, 3, &vec![vec![1.0f32, 2.0, 3.0]]), Ok(()));
}

#[test]
fn limit_over_ten_thousand() {
    assert_eq!(validate_config(10001, 3, &black_and_white()), Err(Error::LimitTooLarge));
    assert_eq!(validate_config(u32::MAX, 4, &Vec::<Vec<f32>>::new()), Err(Error::LimitTooLarge));
}

#[test]
fn unsupported_component_count() {
    assert_eq!(validate_config(50, 4, &black_and_white()), Err(Error::UnsupportedComponents));
    assert_eq!(validate_config(50, 0, &black_and_white()), Err(Error::UnsupportedComponents));
    let four: Vec<Vec<f32>> = vec![vec![0.0, 0.0, 0.0, 0.0]];
    assert_eq!(validate_config(50, 4, &four), Err(Error::UnsupportedComponents));
}

#[test]
fn color_with_wrong_component_count() {
    let palette: Vec<Vec<f32>> = vec![
        vec![0.0, 0.0, 0.0],
        vec![1.0, 2.0],
        vec![0.0, 0.0, 0.0],
        vec![1.0, 2.0, 3.0, 4.0],
    ];
    assert_eq!(validate_config(50, 3, &palette), Err(Error::ComponentMismatch(1)));
    let palette: Vec<Vec<f32>> = vec![vec![]];
    assert_eq!(validate_config(50, 3, &palette), Err(Error::ComponentMismatch(0)));
    let palette: Vec<Vec<f32>> = vec![vec![0.0, 0.0, 0.0], vec![1.0, 2.0, 3.0, 4.0]];
    assert_eq!(validate_config(50, 3, &palette), Err(Error::ComponentMismatch(1)));
}

#[test]
fn empty_palette() {
    assert_eq!(validate_config(50, 3, &Vec::<Vec<f32>>::new()), Err(Error::EmptyPalette));
}
