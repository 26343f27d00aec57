use julia_mandelbrot::coordinator::Action;
use julia_mandelbrot::coordinator::Coordinator;
use julia_mandelbrot::coordinator::Signal;
use julia_mandelbrot::window::JLMbValues;
use julia_mandelbrot::window::JlMbMode;
use julia_mandelbrot::window::JlMbWindow;
use num::Complex;

const MB: u64 = 11;
const JL: u64 = 22;

fn mandelbrot_window(id: u64) -> JlMbWindow<f32> {
    let vals = JLMbValues::new(-2.2, 0.8, -1.125, 1.125, JlMbMode::new_mb());
    JlMbWindow::new(id, 1200, 800, "Mandelbrot", vals)
}

fn julia_window(id: u64) -> JlMbWindow<f32> {
    let vals = JLMbValues::new(-2.0, 2.0, -2.0, 2.0, JlMbMode::new_jl());
    JlMbWindow::new(id, 800, 800, "Julia", vals)
}

fn coupled() -> Coordinator<f32> {
    let mut c = Coordinator::new();
    assert!(c.add(mandelbrot_window(MB)));
    assert!(c.add(julia_window(JL)));
    assert!(c.link(MB, JL));
    c
}

#[test]
fn new_coordinator_is_empty() {
    let c: Coordinator<f32> = Coordinator::new();
    assert_eq!(c.len(), 0);
    assert_eq!(c.coupling(), None);
    assert!(c.window(MB).is_none());
}

#[test]
fn window_has_one_instance() {
    let mut c = Coordinator::new();
    assert!(c.add(mandelbrot_window(MB)));
    assert!(!c.add(julia_window(MB)));
    assert_eq!(c.len(), 1);
    assert_eq!(c.window(MB), Some(&mandelbrot_window(MB)));
    assert!(c.add(julia_window(JL)));
    assert_eq!(c.len(), 2);
    assert_eq!(c.window(JL), Some(&julia_window(JL)));
    assert!(c.window(33).is_none());
}

#[test]
fn coupling_joins_two_live_windows() {
    let mut c = Coordinator::new();
    assert!(!c.link(MB, JL));
    c.add(mandelbrot_window(MB));
    assert!(!c.link(MB, JL));
    assert!(!c.link(MB, MB));
    c.add(julia_window(JL));
    assert!(!c.link(JL, JL));
    // the dependent window must show a Julia set
    assert!(!c.link(JL, MB));
    assert_eq!(c.coupling(), None);
    assert!(c.link(MB, JL));
    assert_eq!(c.coupling(), Some((MB, JL)));
}

#[test]
fn pointer_over_driving_window_moves_the_dependent_one() {
    let mut c = coupled();
    let position = Complex::new(-0.75f32, 0.1);
    let action = c.dispatch(Signal::CursorMoved { window_id: MB, position });
    assert_eq!(action, Action::Render { window_id: JL });
    assert_eq!(c.window(JL).unwrap().vals.mode, JlMbMode::Julia(position));
    assert_eq!(c.window(MB), Some(&mandelbrot_window(MB)));
    assert_eq!(c.coupling(), Some((MB, JL)));
    assert_eq!(c.len(), 2);

    let next = Complex::new(0.3f32, -0.4);
    assert_eq!(c.cursor_moved(MB, next), Action::Render { window_id: JL });
    assert_eq!(c.window(JL).unwrap().vals.mode, JlMbMode::Julia(next));
    assert_eq!(c.window(JL).unwrap().vals.min, Complex::new(-2.0, -2.0));
}

#[test]
fn pointer_over_dependent_window_does_nothing() {
    let mut c = coupled();
    let position = Complex::new(-0.75f32, 0.1);
    assert_eq!(c.dispatch(Signal::CursorMoved { window_id: JL, position }), Action::Ignore);
    assert_eq!(c.dispatch(Signal::CursorMoved { window_id: 33, position }), Action::Ignore);
    assert_eq!(c.window(JL), Some(&julia_window(JL)));
    assert_eq!(c.window(MB), Some(&mandelbrot_window(MB)));
}

#[test]
fn pointer_without_coupling_does_nothing() {
    let mut c = Coordinator::new();
    c.add(mandelbrot_window(MB));
    c.add(julia_window(JL));
    let position = Complex::new(-0.75f32, 0.1);
    assert_eq!(c.dispatch(Signal::CursorMoved { window_id: MB, position }), Action::Ignore);
    assert_eq!(c.window(JL), Some(&julia_window(JL)));
}

#[test]
fn proper_size_resizes_and_redraws() {
    let mut c = coupled();
    let action = c.dispatch(Signal::Resized { window_id: JL, width: 640, height: 480 });
    assert_eq!(action, Action::Resize { window_id: JL, width: 640, height: 480 });
    let jl = c.window(JL).unwrap();
    assert_eq!((jl.width, jl.height), (640, 480));
    assert_eq!(c.window(MB), Some(&mandelbrot_window(MB)));
    assert_eq!(c.resized(33, 640, 480), Action::Ignore);
}

#[test]
fn size_with_a_zero_asks_for_nothing() {
    for (width, height) in [(0u32, 480u32), (640, 0), (0, 0)] {
        let mut c = coupled();
        let action = c.dispatch(Signal::Resized { window_id: MB, width, height });
        assert_eq!(action, Action::Ignore);
        let mb = c.window(MB).unwrap();
        assert_eq!((mb.width, mb.height), (1200, 800));
        assert!(!mb.renderable());
        assert_eq!(c.window(JL), Some(&julia_window(JL)));
        // a later proper size brings the window back
        let action = c.dispatch(Signal::Resized { window_id: MB, width: 300, height: 200 });
        assert_eq!(action, Action::Resize { window_id: MB, width: 300, height: 200 });
        assert!(c.window(MB).unwrap().renderable());
    }
}

#[test]
fn redraw_renders_a_known_window() {
    let mut c = coupled();
    let action = c.dispatch(Signal::RedrawRequested { window_id: MB });
    assert_eq!(action, Action::Render { window_id: MB });
    let action = c.dispatch(Signal::RedrawRequested { window_id: JL });
    assert_eq!(action, Action::Render { window_id: JL });
    assert_eq!(c.dispatch(Signal::RedrawRequested { window_id: 33 }), Action::Ignore);
    assert_eq!(c.redraw_requested(MB), Action::Render { window_id: MB });
    assert_eq!(c.window(MB), Some(&mandelbrot_window(MB)));
    assert_eq!(c.window(JL), Some(&julia_window(JL)));
}

#[test]
fn last_window_to_close_shuts_down() {
    let mut c = coupled();
    assert_eq!(c.dispatch(Signal::CloseRequested { window_id: 33 }), Action::Ignore);
    assert_eq!(c.len(), 2);
    let action = c.dispatch(Signal::CloseRequested { window_id: MB });
    assert_eq!(action, Action::Close { window_id: MB });
    assert_eq!(c.len(), 1);
    assert!(c.window(MB).is_none());
    assert_eq!(c.window(JL), Some(&julia_window(JL)));
    assert_eq!(c.dispatch(Signal::CloseRequested { window_id: MB }), Action::Ignore);
    assert_eq!(c.dispatch(Signal::CloseRequested { window_id: JL }), Action::Shutdown);
    assert_eq!(c.len(), 0);
}

#[test]
fn closing_a_coupled_window_ends_the_coupling() {
    let mut c = coupled();
    assert_eq!(c.close_requested(JL), Action::Close { window_id: JL });
    assert_eq!(c.coupling(), None);
    let position = Complex::new(-0.75f32, 0.1);
    assert_eq!(c.dispatch(Signal::CursorMoved { window_id: MB, position }), Action::Ignore);

    let mut c = coupled();
    assert_eq!(c.close_requested(MB), Action::Close { window_id: MB });
    assert_eq!(c.coupling(), None);

    // a window outside the coupling leaves it alone
    let mut c = coupled();
    c.add(julia_window(33));
    assert_eq!(c.close_requested(33), Action::Close { window_id: 33 });
    assert_eq!(c.coupling(), Some((MB, JL)));
    assert_eq!(c.cursor_moved(MB, position), Action::Render { window_id: JL });
}
