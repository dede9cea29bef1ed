use fractal_tiles::coord::TileCoord;
use fractal_tiles::window::{quad_corners, Button, Corner, Pointer, Reaction, WindowInput, Zoom};
use fractal_tiles::worker::{
    worker_step, SeriesCounter, SeriesReport, WorkerInput, WorkerState, WorkerStep,
};

#[test]
fn idle_workers_are_woken() {
    let mut state = WorkerState::Work;
    state.go_idle();
    assert_eq!(state, WorkerState::Idle);
    state.go_idle();
    assert_eq!(state, WorkerState::Idle);
    state.signal_check();
    assert_eq!(state, WorkerState::Work);
    state.signal_check();
    assert_eq!(state, WorkerState::Work);
}

#[test]
fn finish_is_final() {
    let mut state = WorkerState::Idle;
    state.signal_exit();
    state.signal_check();
    state.go_idle();
    assert_eq!(state, WorkerState::Finish);
}

#[test]
fn worker_goes_through_its_steps() {
    let c = TileCoord { level: 1, x: 0, y: 1 };
    assert!(matches!(worker_step(WorkerInput::State(WorkerState::Idle)), WorkerStep::Wait));
    assert!(matches!(worker_step(WorkerInput::State(WorkerState::Finish)), WorkerStep::Stop));
    assert!(matches!(worker_step(WorkerInput::State(WorkerState::Work)), WorkerStep::ReadSize));
    assert!(matches!(worker_step(WorkerInput::Size { width: 0, height: 5 }), WorkerStep::GoIdle));
    assert!(matches!(worker_step(WorkerInput::Size { width: 5, height: 0 }), WorkerStep::GoIdle));
    assert!(matches!(
        worker_step(WorkerInput::Size { width: 4, height: 3 }),
        WorkerStep::Search { width: 4, height: 3 }
    ));
    assert!(matches!(worker_step(WorkerInput::Found(None)), WorkerStep::GoIdle));
    match worker_step(WorkerInput::Found(Some(c))) {
        WorkerStep::Compute(coord) => assert_eq!(coord, c),
        _ => panic!("a tile that was found is computed"),
    }
    assert!(matches!(
        worker_step(WorkerInput::Computed { inserted: true }),
        WorkerStep::Announce { lost: false }
    ));
    assert!(matches!(
        worker_step(WorkerInput::Computed { inserted: false }),
        WorkerStep::Announce { lost: true }
    ));
}

#[test]
fn counter_reports_and_starts_anew() {
    let mut counter = SeriesCounter::new(3);
    assert_eq!(counter.report(), None);
    counter.count_tile([true, false, true, true]);
    counter.count_tile([false; 4]);
    assert_eq!(counter, SeriesCounter { worker_id: 3, tile_count: 2, cull_count: 3 });
    assert_eq!(counter.report(), Some(SeriesReport { worker_id: 3, tile_count: 2, cull_count: 3 }));
    assert_eq!(counter, SeriesCounter::new(3));
    assert_eq!(counter.report(), None);
}

const NOTHING: Reaction = Reaction {
    close: false,
    recreate_swapchain: false,
    signal_check: false,
    reset_timer: false,
    move_cursor: false,
    request_redraw: false,
    redraw: false,
};

#[test]
fn buttons_start_and_stop_zooming() {
    let mut pointer = Pointer::new();
    assert_eq!(pointer.zoom(), None);
    let press = pointer.window_event(WindowInput::MouseInput { button: Button::Right, pressed: true });
    assert_eq!(press, Reaction { reset_timer: true, request_redraw: true, ..NOTHING });
    assert_eq!(pointer.zoom(), Some(Zoom::Out));
    pointer.window_event(WindowInput::MouseInput { button: Button::Left, pressed: true });
    assert_eq!(pointer.zoom(), Some(Zoom::In));
    let release = pointer.window_event(WindowInput::MouseInput { button: Button::Left, pressed: false });
    assert_eq!(release, NOTHING);
    assert_eq!(pointer.zoom(), Some(Zoom::Out));
    pointer.window_event(WindowInput::MouseInput { button: Button::Right, pressed: false });
    assert_eq!(pointer.zoom(), None);
    let other = pointer.window_event(WindowInput::MouseInput { button: Button::Other, pressed: true });
    assert_eq!(other, NOTHING);
    assert_eq!(pointer, Pointer::new());
}

#[test]
fn window_events() {
    let mut pointer = Pointer::new();
    assert_eq!(
        pointer.window_event(WindowInput::Resized),
        Reaction { recreate_swapchain: true, signal_check: true, request_redraw: true, ..NOTHING }
    );
    assert_eq!(pointer.window_event(WindowInput::CursorMoved), Reaction { move_cursor: true, ..NOTHING });
    assert_eq!(pointer.window_event(WindowInput::RedrawRequested), Reaction { redraw: true, ..NOTHING });
    assert_eq!(pointer.window_event(WindowInput::CloseRequested), Reaction { close: true, ..NOTHING });
    assert_eq!(pointer.window_event(WindowInput::Other), NOTHING);
}

#[test]
fn quad_is_two_triangles() {
    let c = quad_corners();
    assert_eq!(c[0], Corner { right: false, top: false });
    assert_eq!(c[4], Corner { right: true, top: true });
    assert_eq!((c[1], c[2]), (c[3], c[5]));
    assert_eq!(c[1], Corner { right: true, top: false });
    assert_eq!(c[2], Corner { right: false, top: true });
}

#[test]
fn frames_follow_while_zooming_or_waiting_for_tiles() {
    let mut pointer = Pointer::new();
    assert!(!pointer.redraw_again(false));
    assert!(pointer.redraw_again(true));
    pointer.window_event(WindowInput::MouseInput { button: Button::Right, pressed: true });
    assert!(pointer.redraw_again(false));
    pointer.window_event(WindowInput::MouseInput { button: Button::Right, pressed: false });
    pointer.window_event(WindowInput::MouseInput { button: Button::Left, pressed: true });
    assert!(pointer.redraw_again(false));
}
