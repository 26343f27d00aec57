use julia_mandelbrot::color::to_color;
use julia_mandelbrot::escape::Escape;
use julia_mandelbrot::frame::paint;
use julia_mandelbrot::frame::pixel_count;
use julia_mandelbrot::frame::pixel_position;

#[test]
fn paint_writes_each_quad_at_four_times_its_index() {
    let escapes = vec![
        Escape::new(0, 50).unwrap(),
        Escape::new(1, 50).unwrap(),
        Escape::new(13, 50).unwrap(),
        Escape::new(50, 50).unwrap(),
    ];
    let mut frame = vec![0xaau8; 16];
    paint(&mut frame, &escapes);
    assert_eq!(frame, vec![0, 0, 0, 0, 207, 6, 19, 255, 0, 94, 220, 255, 157, 0, 245, 255]);
    for (i, e) in escapes.iter().enumerate() {
        assert_eq!(frame[4 * i..4 * i + 4], to_color(*e));
    }
}

#[test]
fn pixel_that_left_is_opaque_and_one_that_stayed_is_transparent() {
    // a frame of three by three, in which only the bottom left pixel left,
    // on one of the first ten steps
    for count in 1..=10u32 {
        let mut escapes = vec![Escape::bounded(); 9];
        escapes[6] = Escape::new(count, 50).unwrap();
        let mut frame = vec![0x33u8; 36];
        paint(&mut frame, &escapes);
        assert_eq!(frame[24..28], to_color(escapes[6]));
        assert_eq!(frame[27], 255);
        assert_ne!(frame[24..28], [0, 0, 0, 0]);
        assert_eq!(frame[..24], [0u8; 24]);
        assert_eq!(frame[28..], [0u8; 8]);
    }
}

#[test]
fn paint_leaves_nothing_of_the_old_frame() {
    let mut frame = vec![1u8, 2, 3, 4, 5, 6, 7, 8];
    let escapes = vec![Escape::bounded(), Escape::bounded()];
    paint(&mut frame, &escapes);
    assert_eq!(frame, vec![0u8; 8]);
}

#[test]
fn paint_of_nothing_is_nothing() {
    let mut frame: Vec<u8> = Vec::new();
    paint(&mut frame, &[]);
    assert!(frame.is_empty());
}

#[test]
fn pixel_count_wants_whole_quads() {
    assert_eq!(pixel_count(0), Some(0));
    assert_eq!(pixel_count(4), Some(1));
    assert_eq!(pixel_count(36), Some(9));
    assert_eq!(pixel_count(1200 * 800 * 4), Some(960_000));
    assert_eq!(pixel_count(3), None);
    assert_eq!(pixel_count(5), None);
    assert_eq!(pixel_count(38), None);
}

#[test]
fn pixel_position_walks_row_by_row() {
    assert_eq!(pixel_position(0, 3), (0, 0));
    assert_eq!(pixel_position(2, 3), (2, 0));
    assert_eq!(pixel_position(3, 3), (0, 1));
    assert_eq!(pixel_position(4, 3), (1, 1));
    assert_eq!(pixel_position(8, 3), (2, 2));
    assert_eq!(pixel_position(959_999, 1200), (1199, 799));
    assert_eq!(pixel_position(u32::MAX, 1), (0, u32::MAX));
    for i in 0..100u32 {
        let (x, y) = pixel_position(i, 7);
        assert!(x < 7);
        assert_eq!(y * 7 + x, i);
    }
}
