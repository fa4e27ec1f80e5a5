use hegemon::model::{Application, Event, Key, MouseButton, ScrollAnchor, Screen};
use hegemon::stream::{RateCalculator, Stream};

fn test_stream(name: &str) -> Stream {
    Stream::new(
        name.to_string(),
        format!("{} description", name),
        Some(0),
        Some(100000),
        "%".to_string(),
        Some(3),
        1,
        false,
    )
}

fn test_app(width: usize, height: usize, count: usize) -> Application {
    let mut streams = Vec::new();
    for i in 0..count {
        streams.push(test_stream(&format!("S{}", i)));
    }
    Application::new(width, height, streams)
}

#[test]
fn test_new_defaults() {
    let app = test_app(80, 10, 3);
    assert!(app.running);
    assert_eq!(app.width, 80);
    assert_eq!(app.height, 10);
    assert_eq!(app.screen, Screen::Main);
    assert_eq!(app.selection_index, 0);
    assert_eq!(app.scroll_index, 0);
    assert_eq!(app.scroll_anchor, ScrollAnchor::Top);
    assert_eq!(app.interval_index, 2);
    assert_eq!(app.interval().duration, 3000);
    assert_eq!(app.interval().tick_spacing, 10);
    assert_eq!(app.intervals.len(), 8);
    assert_eq!(app.streams.len(), 3);
    assert!(app.streams.iter().all(|s| s.active && !s.expanded && s.values.is_empty()));
}

#[test]
fn test_down_twice_then_expand_all_fit() {
    // 3 active streams, terminal 80x10, interval 3s / spacing 10.
    let mut app = test_app(80, 10, 3);
    assert!(app.handle(&Event::Key(Key::Down)));
    assert!(app.handle(&Event::Key(Key::Down)));
    assert_eq!(app.selection_index, 2);
    // All three collapsed rows fit: no scroll change.
    assert_eq!(app.scroll_index, 0);
    assert_eq!(app.scroll_anchor, ScrollAnchor::Top);
    // Expand the selected stream: its height grows from 1 to 6 rows,
    // 1 + 1 + 6 = 8 rows still fit the 8-row body exactly.
    assert!(app.handle(&Event::Key(Key::Char(' '))));
    assert!(app.streams[2].expanded);
    assert_eq!(app.scroll_index, 0);
    assert_eq!(app.scroll_anchor, ScrollAnchor::Top);
}

#[test]
fn test_expand_reflows_to_bottom_anchor() {
    // A 5-row terminal leaves a 3-row body: the expanded selection no
    // longer fits below the top anchor, so the scroll re-anchors at the
    // bottom on the selected stream.
    let mut app = test_app(80, 5, 3);
    assert!(app.handle(&Event::Key(Key::Down)));
    assert!(app.handle(&Event::Key(Key::Down)));
    assert!(app.handle(&Event::Key(Key::Char(' '))));
    assert!(app.streams[2].expanded);
    assert_eq!(app.scroll_index, 2);
    assert_eq!(app.scroll_anchor, ScrollAnchor::Bottom);
}

#[test]
fn test_up_at_top_reports_no_change() {
    let mut app = test_app(80, 10, 3);
    assert!(!app.handle(&Event::Key(Key::Up)));
    assert_eq!(app.selection_index, 0);
}

#[test]
fn test_down_at_bottom_reports_no_change() {
    let mut app = test_app(80, 10, 1);
    assert!(!app.handle(&Event::Key(Key::Down)));
}

#[test]
fn test_wheel_is_inverted() {
    let mut app = test_app(80, 10, 3);
    // Wheel up behaves as Down, wheel down as Up.
    assert!(app.handle(&Event::Mouse(MouseButton::WheelUp)));
    assert_eq!(app.selection_index, 1);
    assert!(app.handle(&Event::Mouse(MouseButton::WheelDown)));
    assert_eq!(app.selection_index, 0);
}

#[test]
fn test_screen_switching() {
    let mut app = test_app(80, 10, 2);
    assert!(app.handle(&Event::Key(Key::Char('s'))));
    assert_eq!(app.screen, Screen::Streams);
    // On the stream manager only escape does anything.
    assert!(!app.handle(&Event::Key(Key::Down)));
    assert!(!app.handle(&Event::Key(Key::Char(' '))));
    assert!(app.handle(&Event::Key(Key::Esc)));
    assert_eq!(app.screen, Screen::Main);
}

#[test]
fn test_quit() {
    let mut app = test_app(80, 10, 2);
    assert!(app.handle(&Event::Key(Key::Char('q'))));
    assert!(!app.running);
}

#[test]
fn test_interval_change_bounds() {
    let mut app = test_app(80, 10, 2);
    assert_eq!(app.interval_index, 2);
    assert!(app.handle(&Event::Key(Key::Char('+'))));
    assert_eq!(app.interval_index, 3);
    assert!(app.handle(&Event::Key(Key::Char('-'))));
    assert!(app.handle(&Event::Key(Key::Char('-'))));
    assert!(app.handle(&Event::Key(Key::Char('-'))));
    assert_eq!(app.interval_index, 0);
    assert!(!app.handle(&Event::Key(Key::Char('-'))));
    assert_eq!(app.interval_index, 0);
}

#[test]
fn test_unknown_key_reports_no_change() {
    let mut app = test_app(80, 10, 2);
    assert!(!app.handle(&Event::Key(Key::Char('x'))));
    assert!(!app.handle(&Event::Other));
}

#[test]
fn test_interval_change_clears_history_then_one_fresh_sample() {
    // Changing the interval invalidates all history: a reset clears every
    // stream, the immediate resample leaves exactly one sample each.
    let mut app = test_app(80, 10, 2);
    let samples = vec![Some(10000), Some(20000)];
    app.update_streams(&samples);
    app.update_streams(&samples);
    assert_eq!(app.streams[0].values.len(), 2);
    assert!(app.handle(&Event::Key(Key::Char('+'))));
    app.reset_streams();
    assert!(app.streams.iter().all(|s| s.values.is_empty()));
    app.update_streams(&samples);
    assert!(app.streams.iter().all(|s| s.values.len() == 1));
    assert_eq!(app.streams[0].values[0], Some(10000));
    assert_eq!(app.streams[1].values[0], Some(20000));
}

#[test]
fn test_update_streams_skips_inactive() {
    let mut app = test_app(80, 10, 2);
    app.streams[1].active = false;
    let samples = vec![Some(1000), Some(2000)];
    app.update_streams(&samples);
    assert_eq!(app.streams[0].values.len(), 1);
    assert_eq!(app.streams[1].values.len(), 0);
}

#[test]
fn test_resize_keeps_history() {
    let mut app = test_app(80, 10, 2);
    let samples = vec![Some(1000), Some(2000)];
    app.update_streams(&samples);
    app.resize(100, 40);
    assert_eq!(app.width, 100);
    assert_eq!(app.height, 40);
    assert_eq!(app.streams[0].values.len(), 1);
}

#[test]
fn test_rate_calculator_fixture() {
    // Cumulative counter 100, 150, 140, 200 at one-second spacing yields
    // rates none, 50, 0 (the decrease clamps to zero), 60.
    let mut rc = RateCalculator::new();
    assert_eq!(rc.update(Some(100000), 1000), None);
    assert_eq!(rc.update(Some(150000), 1000), Some(50000));
    assert_eq!(rc.update(Some(140000), 1000), Some(0));
    assert_eq!(rc.update(Some(200000), 1000), Some(60000));
}

#[test]
fn test_rate_calculator_resets_on_missing_sample() {
    let mut rc = RateCalculator::new();
    assert_eq!(rc.update(Some(100000), 1000), None);
    assert_eq!(rc.update(None, 1000), None);
    // After a gap the rate resumes only with the second valid sample.
    assert_eq!(rc.update(Some(300000), 1000), None);
    assert_eq!(rc.update(Some(400000), 500), Some(200000));
}

#[test]
fn test_menu_contents() {
    let app = test_app(80, 10, 2);
    let (left, right) = app.menu();
    assert_eq!(left.len(), 4);
    assert_eq!(left[0].label, "Select");
    assert_eq!(left[1].keys, "Space");
    assert_eq!(right.len(), 1);
    assert_eq!(right[0].keys, "Q");
    assert_eq!(right[0].label, "Quit");
}

#[test]
fn test_active_streams_filters() {
    let mut app = test_app(80, 10, 3);
    app.streams[1].active = false;
    let active = app.active_streams();
    assert_eq!(active.len(), 2);
    assert_eq!(active[0].stream.name, "S0");
    assert_eq!(active[1].stream.name, "S2");
}
