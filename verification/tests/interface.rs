//! Tests for the modeled interface state: distributions, input decisions,
//! the spinner, the color picker, the trip table and the tutorial.

use sim_core::ctx::{Canvas, EventCtx, InputEvent, ScreenPt, UserInput};
use sim_core::histogram::Histogram;
use sim_core::picker::{get_color, get_screen_offset, ColorPicker};
use sim_core::trip_table::{ModeFilter, Options, SortBy, TripSource, TripTable};
use sim_core::tutorial::{Task, Tutorial, TutorialState};
use sim_core::types::{Time, TripID, TripMode};
use sim_core::widgets::{Spinner, SpinnerAction};

#[test]
fn histogram_statistics() {
    let mut h = Histogram::new();
    for x in [30u64, 10, 20, 40, 50] {
        h.add(x);
    }
    assert_eq!(h.count(), 5);
    assert_eq!(h.max(), Some(50));
    assert_eq!(h.median(), Some(30));
    assert_eq!(h.percentile(0), Some(10));
    assert_eq!(h.percentile(100), Some(50));
    assert_eq!(h.percentile(50), Some(30));
    // Mean truncates toward zero: 150 / 5 = 30; with one more sample the
    // mean of 151 / 6 truncates to 25.
    assert_eq!(h.mean(), Some(30));
    h.add(1);
    assert_eq!(h.mean(), Some(25));
    let empty = Histogram::new();
    assert_eq!(empty.max(), None);
    assert_eq!(empty.median(), None);
    assert_eq!(empty.mean(), None);
}

fn ctx_with(event: InputEvent) -> EventCtx {
    EventCtx {
        fake_mouseover: false,
        input: UserInput { event, event_consumed: false },
        canvas: Canvas {
            window_width: 1024,
            window_height: 768,
            drag_canvas_from: None,
            drag_just_ended: false,
        },
    }
}

#[test]
fn redo_mouseover_on_movement_and_scroll() {
    assert!(!ctx_with(InputEvent::NoOp).redo_mouseover());
    assert!(ctx_with(InputEvent::WindowLostCursor).redo_mouseover());
    assert!(ctx_with(InputEvent::MouseMovedTo(ScreenPt { x: 3, y: 4 })).redo_mouseover());
    assert!(ctx_with(InputEvent::MouseWheelScroll(0, -2)).redo_mouseover());
    assert!(!ctx_with(InputEvent::MouseWheelScroll(5, 0)).redo_mouseover());

    // A mouse move during a drag does not retrigger mouseover.
    let mut dragging = ctx_with(InputEvent::MouseMovedTo(ScreenPt { x: 3, y: 4 }));
    dragging.canvas.drag_canvas_from = Some(ScreenPt { x: 0, y: 0 });
    assert!(!dragging.redo_mouseover());

    let mut forced = ctx_with(InputEvent::NoOp);
    forced.fake_mouseover = true;
    assert!(forced.redo_mouseover());
}

#[test]
fn normal_left_click_consumes_the_event() {
    let mut ctx = ctx_with(InputEvent::LeftMouseButtonReleased);
    assert!(ctx.normal_left_click());
    assert!(ctx.input.event_consumed);
    // A second handler in the same frame no longer sees the click.
    assert!(!ctx.normal_left_click());

    // A click that ends a drag is not a normal click.
    let mut ctx = ctx_with(InputEvent::LeftMouseButtonReleased);
    ctx.canvas.drag_just_ended = true;
    assert!(!ctx.normal_left_click());
    assert!(!ctx.input.event_consumed);
}

#[test]
fn spinner_clamps_to_its_range() {
    let mut s = Spinner::new(2, 5, 4);
    s.event(SpinnerAction::Up);
    assert_eq!(s.current, 5);
    s.event(SpinnerAction::Up);
    assert_eq!(s.current, 5);
    s.event(SpinnerAction::Down);
    assert_eq!(s.current, 4);
    s.event(SpinnerAction::Min);
    assert_eq!(s.current, 2);
    s.event(SpinnerAction::Down);
    assert_eq!(s.current, 2);
    s.event(SpinnerAction::Max);
    assert_eq!(s.current, 5);
}

#[test]
fn picker_starts_inactive_and_grid_math_matches() {
    let picker = ColorPicker::new();
    assert!(matches!(picker, ColorPicker::Inactive));

    let canvas = Canvas {
        window_width: 1024,
        window_height: 768,
        drag_canvas_from: None,
        drag_just_ended: false,
    };
    // The 510-pixel grid is centered: (1024 - 510) / 2 and (768 - 510) / 2.
    assert_eq!(get_screen_offset(&canvas), (257, 129));

    let c = get_color(255, 0);
    assert_eq!((c.red, c.green, c.blue), (255, 0, 127));
    let c = get_color(10, 20);
    assert_eq!((c.red, c.green, c.blue), (10, 20, 15));
}

#[test]
fn sort_options_toggle_direction() {
    let mut opts = Options {
        sort_by: SortBy::PercentWaiting,
        descending: true,
        modes: ModeFilter { walk: true, bike: true, transit: true, drive: true },
        off_map_starts: true,
        off_map_ends: true,
        skip: 40,
    };
    opts.change(SortBy::Departure);
    assert_eq!(opts.sort_by, SortBy::Departure);
    assert!(opts.descending);
    assert_eq!(opts.skip, 0);
    opts.change(SortBy::Departure);
    assert!(!opts.descending);
    opts.change(SortBy::Departure);
    assert!(opts.descending);
}

fn trip_src(n: usize, mode: Option<TripMode>, departure: Time, dur: u64, waiting: u64) -> TripSource {
    TripSource {
        trip: TripID(n),
        mode,
        departure,
        duration_after: dur,
        waiting,
        prebaked_duration: None,
        starts_off_map: false,
        ends_off_map: false,
    }
}

#[test]
fn trip_table_sorts_by_percent_waiting() {
    let trips = vec![
        trip_src(1, Some(TripMode::Drive), 100, 200, 50),   // 25%
        trip_src(2, Some(TripMode::Walk), 50, 100, 75),     // 75%
        trip_src(3, None, 60, 0, 0),                        // aborted
        trip_src(4, Some(TripMode::Bike), 70, 400, 200),    // 50%
    ];
    let table = TripTable::new(&trips, false);
    assert_eq!(table.aborted, 1);
    assert_eq!(table.entries.len(), 3);
    // Default order: percent waiting, descending.
    assert_eq!(table.entries[0].trip, TripID(2));
    assert_eq!(table.entries[0].percent_waiting, 75);
    assert_eq!(table.entries[1].trip, TripID(4));
    assert_eq!(table.entries[2].trip, TripID(1));
}

#[test]
fn trip_table_filters_modes_and_resorts() {
    let trips = vec![
        trip_src(1, Some(TripMode::Drive), 300, 200, 50),
        trip_src(2, Some(TripMode::Walk), 50, 100, 75),
        trip_src(4, Some(TripMode::Bike), 70, 400, 200),
    ];
    let mut table = TripTable::new(&trips, false);
    table.opts.modes = ModeFilter { walk: false, bike: true, transit: false, drive: true };
    table.opts.change(SortBy::Departure);
    table.opts.descending = false;
    table.recalc(&trips, false);
    assert_eq!(table.entries.len(), 2);
    assert_eq!(table.entries[0].trip, TripID(4));
    assert_eq!(table.entries[1].trip, TripID(1));
}

#[test]
fn trip_table_counts_prebaked_aborts() {
    // With a baseline run present, a trip the baseline aborted (no
    // prebaked duration) is dropped and counted as aborted.
    let mut with_prebaked = trip_src(1, Some(TripMode::Drive), 100, 200, 50);
    with_prebaked.prebaked_duration = Some(150);
    let without = trip_src(2, Some(TripMode::Drive), 100, 300, 50);
    let trips = vec![with_prebaked, without];
    let table = TripTable::new(&trips, true);
    assert_eq!(table.aborted, 1);
    assert_eq!(table.entries.len(), 1);
    assert_eq!(table.entries[0].duration_before, 150);
}

#[test]
fn tutorial_counts_three_pauses_then_advances() {
    // Scenario: the pause-teaching stage counts distinct pauses; on the
    // third the tutorial advances one stage.
    let mut tut = TutorialState {
        current: 4,
        latest: 4,
        num_pauses: 0,
        was_paused: false,
        task: Task::PauseResume,
    };
    let mut screen = Tutorial::new(&mut tut, 4);
    // Pause once.
    assert_eq!(screen.event_with_speed(&mut tut, Some(true)), (false, false));
    assert_eq!(tut.num_pauses, 1);
    // Still paused: nothing new counted.
    assert_eq!(screen.event_with_speed(&mut tut, Some(true)), (false, false));
    assert_eq!(tut.num_pauses, 1);
    // Resume, pause, resume, pause: two more pauses, then advance.
    assert_eq!(screen.event_with_speed(&mut tut, Some(false)), (false, false));
    assert_eq!(screen.event_with_speed(&mut tut, Some(true)), (false, false));
    assert_eq!(tut.num_pauses, 2);
    assert_eq!(screen.event_with_speed(&mut tut, Some(false)), (false, false));
    assert_eq!(screen.event_with_speed(&mut tut, Some(true)), (true, false));
    assert_eq!(tut.num_pauses, 3);
    assert_eq!(tut.current, 5);
}

#[test]
fn tutorial_new_never_loses_progress() {
    let mut tut = TutorialState {
        current: 6,
        latest: 6,
        num_pauses: 0,
        was_paused: false,
        task: Task::Camera,
    };
    // Jumping back to an earlier stage keeps the furthest stage reached.
    let _screen = Tutorial::new(&mut tut, 2);
    assert_eq!(tut.current, 2);
    assert_eq!(tut.latest, 6);
    let _screen = Tutorial::new(&mut tut, 8);
    assert_eq!(tut.latest, 8);
}

#[test]
fn tutorial_exit_flag_is_reported_once() {
    let mut tut = TutorialState {
        current: 1,
        latest: 1,
        num_pauses: 0,
        was_paused: false,
        task: Task::Camera,
    };
    let mut screen = Tutorial::new(&mut tut, 1);
    screen.exit = true;
    assert_eq!(screen.event_with_speed(&mut tut, None), (false, true));
    assert_eq!(screen.event_with_speed(&mut tut, None), (false, false));
}
