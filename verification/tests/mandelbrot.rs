use julia_mandelbrot::escape::Escape;
use julia_mandelbrot::mandelbrot::draw_mandelbrot;
use julia_mandelbrot::mandelbrot::hue;
use julia_mandelbrot::mandelbrot::hue_to_rgb;
use julia_mandelbrot::mandelbrot::Hue;

fn degrees(whole: i64) -> Hue {
    Hue { num: whole, den: 1 }
}

#[test]
fn hue_lags_six_steps_behind_the_count() {
    // 360 * (1 - (count - 6) / 50), as a multiple of a fiftieth of a degree
    assert_eq!(hue(Escape::new(1, 50).unwrap()), Hue { num: 360 * 55, den: 50 });
    assert_eq!(hue(Escape::new(6, 50).unwrap()), Hue { num: 360 * 50, den: 50 });
    assert_eq!(hue(Escape::new(50, 50).unwrap()), Hue { num: 360 * 6, den: 50 });
    assert_eq!(hue(Escape::new(0, 50).unwrap()), Hue { num: 0, den: 50 });
    assert_eq!(hue(Escape::new(u32::MAX, u32::MAX).unwrap()), Hue { num: 2160, den: u32::MAX });
}

#[test]
fn first_step_has_a_hue_of_396_degrees() {
    let h = hue(Escape::new(1, 50).unwrap());
    assert_eq!(h.num, 396 * i64::from(h.den));
    // a full turn on step six, and less from there on
    let h = hue(Escape::new(6, 50).unwrap());
    assert_eq!(h.num, 360 * i64::from(h.den));
    assert_eq!(hue_to_rgb(h), (255, 0, 0));
    assert_eq!(hue_to_rgb(hue(Escape::new(7, 50).unwrap())), (255, 0, 31));
}

/// The same hue and colour, computed in single precision.
fn in_single_precision(count: u32) -> (u8, u8, u8) {
    let mut h = 360.0f32 * (1.0 - (count as f32 - 6.0) / 50.0);
    if h >= 360.0 {
        h -= 360.0;
    } else if h < 0.0 {
        h += 360.0;
    }
    let hh = h / 60.0;
    let i = hh as u32;
    let ff = hh - i as f32;
    let t = (ff * 255.0) as u8;
    let q = 255 - t;
    match i {
        0 => (255, t, 0),
        1 => (q, 255, 0),
        2 => (0, 255, t),
        3 => (0, q, 255),
        4 => (t, 0, 255),
        5 => (255, 0, q),
        _ => panic!("invalid i {} {}", i, h),
    }
}

#[test]
fn single_precision_hue_differs_by_rounding_alone() {
    let mut differing = Vec::new();
    for count in 1..=50u32 {
        let exact = hue_to_rgb(hue(Escape::new(count, 50).unwrap()));
        let single = in_single_precision(count);
        assert!(exact.0.abs_diff(single.0) <= 1);
        assert!(exact.1.abs_diff(single.1) <= 1);
        assert!(exact.2.abs_diff(single.2) <= 1);
        if exact != single {
            differing.push(count);
        }
    }
    assert_eq!(differing, vec![21, 36, 46]);
}

#[test]
fn wheel_has_six_sectors() {
    assert_eq!(hue_to_rgb(degrees(0)), (255, 0, 0));
    assert_eq!(hue_to_rgb(degrees(30)), (255, 127, 0));
    assert_eq!(hue_to_rgb(degrees(60)), (255, 255, 0));
    assert_eq!(hue_to_rgb(degrees(90)), (128, 255, 0));
    assert_eq!(hue_to_rgb(degrees(120)), (0, 255, 0));
    assert_eq!(hue_to_rgb(degrees(150)), (0, 255, 127));
    assert_eq!(hue_to_rgb(degrees(180)), (0, 255, 255));
    assert_eq!(hue_to_rgb(degrees(210)), (0, 128, 255));
    assert_eq!(hue_to_rgb(degrees(240)), (0, 0, 255));
    assert_eq!(hue_to_rgb(degrees(270)), (127, 0, 255));
    assert_eq!(hue_to_rgb(degrees(300)), (255, 0, 255));
    assert_eq!(hue_to_rgb(degrees(330)), (255, 0, 128));
    assert_eq!(hue_to_rgb(degrees(359)), (255, 0, 5));
}

#[test]
fn angle_is_brought_into_one_turn() {
    assert_eq!(hue_to_rgb(degrees(360)), (255, 0, 0));
    assert_eq!(hue_to_rgb(degrees(390)), hue_to_rgb(degrees(30)));
    assert_eq!(hue_to_rgb(degrees(719)), hue_to_rgb(degrees(359)));
    assert_eq!(hue_to_rgb(degrees(-1)), hue_to_rgb(degrees(359)));
    assert_eq!(hue_to_rgb(degrees(-360)), (255, 0, 0));
    assert_eq!(hue_to_rgb(Hue { num: 4032, den: 10 }), hue_to_rgb(Hue { num: 432, den: 10 }));
}

#[test]
fn angles_beyond_a_turn_on_either_side_have_no_colour() {
    assert!(degrees(0).is_on_wheel());
    assert!(degrees(719).is_on_wheel());
    assert!(degrees(-360).is_on_wheel());
    assert!(!degrees(720).is_on_wheel());
    assert!(!degrees(-361).is_on_wheel());
    assert!(!Hue { num: 0, den: 0 }.is_on_wheel());
    assert!(Hue { num: 7199, den: 10 }.is_on_wheel());
    assert!(!Hue { num: 7200, den: 10 }.is_on_wheel());
    assert!(!Hue { num: i64::MAX, den: u32::MAX }.is_on_wheel());
    assert!(!Hue { num: i64::MIN, den: u32::MAX }.is_on_wheel());
    // the hue of an escape value is on the wheel unless count and budget
    // together stay under seven
    for budget in 1..=60u32 {
        for count in 1..=budget {
            let h = hue(Escape::new(count, budget).unwrap());
            assert_eq!(h.is_on_wheel(), count + budget > 6);
        }
    }
}

#[test]
fn hue_of_an_escape_value_has_a_colour() {
    // 396 degrees, taken back to 36: sector 0, 0.6 of the way
    assert_eq!(hue_to_rgb(hue(Escape::new(1, 50).unwrap())), (255, 153, 0));
    // 252 degrees: sector 4, a fifth of the way
    assert_eq!(hue_to_rgb(hue(Escape::new(21, 50).unwrap())), (51, 0, 255));
    // 244.8 degrees
    assert_eq!(hue_to_rgb(hue(Escape::new(22, 50).unwrap())), (20, 0, 255));
    // 43.2 degrees: sector 0, 0.72 of the way
    assert_eq!(hue_to_rgb(hue(Escape::new(50, 50).unwrap())), (255, 183, 0));
}

#[test]
fn draw_mandelbrot_writes_hues_and_leaves_the_tail() {
    let kernel = |x: u32, y: u32| Escape::new(if x == y { 0 } else { 1 + 20 * x }, 50).unwrap();
    let mut frame = vec![0x99u8; 2 * 2 * 4 + 3];
    draw_mandelbrot(&mut frame, 2, kernel);
    assert_eq!(frame[0..4], [0, 0, 0, 0]);
    assert_eq!(frame[4..8], [51, 0, 255, 255]);
    assert_eq!(frame[8..12], [255, 153, 0, 255]);
    assert_eq!(frame[12..16], [0, 0, 0, 0]);
    assert_eq!(frame[16..], [0x99, 0x99, 0x99]);
}

#[test]
fn draw_mandelbrot_asks_once_for_each_pixel() {
    let asked = std::cell::RefCell::new(Vec::new());
    let mut frame = vec![0u8; 3 * 2 * 4];
    draw_mandelbrot(&mut frame, 3, |x, y| {
        asked.borrow_mut().push((x, y));
        Escape::bounded()
    });
    assert_eq!(*asked.borrow(), vec![(0, 0), (1, 0), (2, 0), (0, 1), (1, 1), (2, 1)]);
    assert_eq!(frame, vec![0u8; 24]);
}
