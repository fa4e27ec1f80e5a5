use hegemon::model::{Application, Event, Key};
use hegemon::render::{bar_index, fit_left, fit_right};
use hegemon::stream::Stream;
use hegemon::text::printed_width;
use hegemon::theme::{Color, Theme};
use termion::color::{AnsiValue, Bg, Fg};

fn color(v: u8) -> Color {
    let c = AnsiValue(v);
    Color { fg: format!("{}", Fg(c)), bg: format!("{}", Bg(c)) }
}

fn test_theme() -> Theme {
    Theme {
        top_bar_color: color(1),
        top_bar_number_color: color(2),
        top_bar_unit_color: color(3),
        tick_color: color(4),
        stream_even_background_color: color(5),
        stream_odd_background_color: color(6),
        stream_selected_background_color: color(7),
        stream_name_color: color(8),
        stream_name_selected_text_color: color(9),
        stream_name_selected_background_color: color(10),
        stream_description_color: color(11),
        stream_number_color: color(12),
        stream_unit_color: color(13),
        stream_graph_colors: vec![(color(14), color(15)), (color(16), color(17))],
        bottom_bar_color: color(18),
        bottom_bar_key_text_color: color(19),
        bottom_bar_key_background_color: color(20),
        bottom_bar_label_color: color(21),
        bottom_bar_number_color: color(22),
        bottom_bar_unit_color: color(23),
    }
}

fn test_app(width: usize, height: usize, count: usize) -> Application {
    let mut streams = Vec::new();
    for i in 0..count {
        streams.push(Stream::new(
            format!("S{}", i),
            format!("stream {}", i),
            Some(0),
            Some(100000),
            "%".to_string(),
            Some(3),
            1,
            false,
        ));
    }
    Application::new(width, height, streams)
}

#[test]
fn test_bar_index_extremes() {
    // The exact lower bound yields the lowest nonempty glyph, the exact
    // upper bound the highest; a degenerate range always the lowest.
    assert_eq!(bar_index(0, 0, 100), 0);
    assert_eq!(bar_index(100, 0, 100), 7);
    assert_eq!(bar_index(50, 50, 50), 0);
    assert_eq!(bar_index(1, 0, 100), 0);
    assert_eq!(bar_index(13, 0, 100), 1);
    assert_eq!(bar_index(99, 0, 100), 7);
}

#[test]
fn test_fit_pads_and_truncates() {
    let theme = test_theme();
    assert!(theme.check());
    assert_eq!(printed_width(&fit_right("abc", 5)), 5);
    assert_eq!(printed_width(&fit_left("abcdefg", 3)), 3);
    let styled = format!("{}abc", Fg(AnsiValue(1)));
    assert_eq!(printed_width(&fit_right(&styled, 2)), 2);
}

#[test]
fn test_frame_geometry() {
    let theme = test_theme();
    assert!(theme.check());
    let mut app = test_app(80, 10, 3);
    let samples = vec![Some(10000), Some(55000), Some(100000)];
    app.update_streams(&samples);
    let lines = app.render_lines(&theme);
    assert_eq!(lines.len(), 10);
    for line in lines.iter().take(lines.len() - 1) {
        assert_eq!(printed_width(line), 80);
    }
    assert!(printed_width(&lines[lines.len() - 1]) >= 80);
    let frame = app.render(&theme);
    assert!(frame.starts_with("\u{1B}[1;1H\u{1B}[m"));
    assert_eq!(frame.matches("\n\r").count(), 9);
}

#[test]
fn test_frame_geometry_expanded_and_narrow() {
    let theme = test_theme();
    let mut app = test_app(30, 6, 2);
    let samples = vec![Some(25000), None];
    app.update_streams(&samples);
    assert!(app.handle(&Event::Key(Key::Char(' '))));
    let lines = app.render_lines(&theme);
    assert_eq!(lines.len(), 6);
    for line in lines.iter().take(lines.len() - 1) {
        assert_eq!(printed_width(line), 30);
    }
}

#[test]
fn test_stream_manager_screen_frame() {
    let theme = test_theme();
    let mut app = test_app(25, 8, 2);
    assert!(app.handle(&Event::Key(Key::Char('s'))));
    let lines = app.render_lines(&theme);
    assert_eq!(lines.len(), 8);
    for line in lines.iter().take(lines.len() - 1) {
        assert_eq!(printed_width(line), 25);
    }
}

#[test]
fn test_frame_geometry_empty_history() {
    // Before any sample is taken every column shows the no-data marker,
    // and the frame geometry already holds.
    let theme = test_theme();
    let app = test_app(40, 8, 2);
    let lines = app.render_lines(&theme);
    assert_eq!(lines.len(), 8);
    for line in lines.iter().take(lines.len() - 1) {
        assert_eq!(printed_width(line), 40);
    }
    assert!(lines[1].contains('\u{2022}'));
}
