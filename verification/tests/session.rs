use mandelbrot::session::{
    Action, Event, Region, Selection, Session, SELECTION_HEIGHT, SELECTION_WIDTH,
};

fn zoom_at(left: i64, top: i64, max_iter: u32) -> Action {
    Action::Render {
        region: Region::Within(Selection { left, top, width: 90, height: 60 }),
        max_iter,
    }
}

#[test]
fn selection_is_90_by_60() {
    assert_eq!(SELECTION_WIDTH, 90);
    assert_eq!(SELECTION_HEIGHT, 60);
}

#[test]
fn session_needs_a_positive_cap() {
    assert!(Session::new(0).is_none());
    assert!(Session::new(1).is_some());
}

#[test]
fn session_starts_at_the_default() {
    let session = Session::new(100).unwrap();
    assert_eq!(session.zoom_level(), 0);
    assert_eq!(session.base_cap(), 100);
    assert_eq!(session.iteration_cap(), 100);
    assert!(session.is_default());
    assert_eq!(session.start(), Action::Render { region: Region::Default, max_iter: 100 });
}

#[test]
fn left_click_zooms_around_the_pointer() {
    let mut session = Session::new(100).unwrap();
    assert_eq!(session.step(Event::LeftClick { x: 450, y: 300 }), zoom_at(405, 270, 200));
    assert_eq!(session.zoom_level(), 1);
    assert_eq!(session.iteration_cap(), 200);
    assert!(!session.is_default());
    assert_eq!(session.step(Event::LeftClick { x: 100, y: 40 }), zoom_at(55, 10, 300));
    assert_eq!(session.zoom_level(), 2);
    assert_eq!(session.iteration_cap(), 300);
}

#[test]
fn selection_may_leave_the_window() {
    let mut session = Session::new(7).unwrap();
    assert_eq!(session.zoom_in(0, 0), zoom_at(-45, -30, 14));
    assert_eq!(session.zoom_in(44, 29), zoom_at(-1, -1, 21));
    assert_eq!(
        session.zoom_in(i32::MIN, i32::MAX),
        zoom_at(i32::MIN as i64 - 45, i32::MAX as i64 - 30, 28)
    );
}

#[test]
fn right_click_resets() {
    let mut session = Session::new(100).unwrap();
    session.step(Event::LeftClick { x: 10, y: 10 });
    session.step(Event::LeftClick { x: 20, y: 20 });
    session.step(Event::LeftClick { x: 30, y: 30 });
    assert_eq!(session.zoom_level(), 3);
    let first = Session::new(100).unwrap().start();
    assert_eq!(session.step(Event::RightClick { x: 5, y: 5 }), first);
    assert_eq!(session.zoom_level(), 0);
    assert_eq!(session.iteration_cap(), 100);
    assert!(session.is_default());
    // and the session goes on as a fresh one does
    assert_eq!(session.step(Event::LeftClick { x: 450, y: 300 }), zoom_at(405, 270, 200));
}

#[test]
fn reset_of_a_fresh_session_changes_nothing() {
    let mut session = Session::new(60).unwrap();
    assert_eq!(session.reset(), Action::Render { region: Region::Default, max_iter: 60 });
    assert_eq!(session.zoom_level(), 0);
}

#[test]
fn pointer_move_only_moves_the_cursor() {
    let mut session = Session::new(100).unwrap();
    session.step(Event::LeftClick { x: 10, y: 10 });
    assert_eq!(session.step(Event::PointerMove { x: 7, y: -3 }), Action::MoveCursor { x: 7, y: -3 });
    assert_eq!(session.zoom_level(), 1);
    assert_eq!(session.iteration_cap(), 200);
}

#[test]
fn close_quits_and_keeps_the_state() {
    let mut session = Session::new(100).unwrap();
    session.step(Event::LeftClick { x: 10, y: 10 });
    assert_eq!(session.step(Event::Close), Action::Quit);
    assert_eq!(session.zoom_level(), 1);
}

#[test]
fn zoom_stops_where_the_cap_would_not_fit() {
    let mut session = Session::new(u32::MAX / 2).unwrap();
    assert_eq!(session.zoom_in(1, 1), zoom_at(-44, -29, u32::MAX - 1));
    assert_eq!(session.zoom_level(), 1);
    assert_eq!(session.zoom_in(1, 1), Action::Ignore);
    assert_eq!(session.zoom_level(), 1);
    assert_eq!(session.iteration_cap(), u32::MAX - 1);
    assert_eq!(session.step(Event::LeftClick { x: 9, y: 9 }), Action::Ignore);
    assert_eq!(session.reset(), Action::Render { region: Region::Default, max_iter: u32::MAX / 2 });
    assert_eq!(session.zoom_in(1, 1), zoom_at(-44, -29, u32::MAX - 1));
}

#[test]
fn largest_cap_cannot_zoom() {
    let mut session = Session::new(u32::MAX).unwrap();
    assert_eq!(session.iteration_cap(), u32::MAX);
    assert_eq!(session.zoom_in(0, 0), Action::Ignore);
    assert_eq!(session.zoom_level(), 0);
}

#[test]
fn cap_grows_by_the_base_cap_each_level() {
    let mut session = Session::new(3).unwrap();
    let mut level: u32 = 0;
    while level < 1000 {
        assert_eq!(session.zoom_level(), level);
        assert_eq!(session.iteration_cap(), 3 * (level + 1));
        session.zoom_in(0, 0);
        level += 1;
    }
}
