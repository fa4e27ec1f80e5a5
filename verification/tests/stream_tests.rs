use hegemon::providers::{
    BandwidthStreamProvider, CPUStreamProvider, FanStreamProvider, MemoryStreamProvider,
    TemperatureStreamProvider,
};
use hegemon::stream::Stream;
use hegemon::theme::{Color, Theme};

fn plain_color() -> Color {
    Color { fg: String::new(), bg: String::new() }
}

fn plain_theme() -> Theme {
    Theme {
        top_bar_color: plain_color(),
        top_bar_number_color: plain_color(),
        top_bar_unit_color: plain_color(),
        tick_color: plain_color(),
        stream_even_background_color: plain_color(),
        stream_odd_background_color: plain_color(),
        stream_selected_background_color: plain_color(),
        stream_name_color: plain_color(),
        stream_name_selected_text_color: plain_color(),
        stream_name_selected_background_color: plain_color(),
        stream_description_color: plain_color(),
        stream_number_color: plain_color(),
        stream_unit_color: plain_color(),
        stream_graph_colors: vec![(plain_color(), plain_color())],
        bottom_bar_color: plain_color(),
        bottom_bar_key_text_color: plain_color(),
        bottom_bar_key_background_color: plain_color(),
        bottom_bar_label_color: plain_color(),
        bottom_bar_number_color: plain_color(),
        bottom_bar_unit_color: plain_color(),
    }
}

#[test]
fn test_plain_theme_checks() {
    assert!(plain_theme().check());
}

#[test]
fn test_theme_with_visible_marker_fails_check() {
    let mut theme = plain_theme();
    theme.tick_color = Color { fg: "x".to_string(), bg: String::new() };
    assert!(!theme.check());
}

#[test]
fn test_stream_format_width() {
    // sign slot + integer digits + decimal part + prefix slot + unit width
    let s = Stream::new(
        "CPU".to_string(),
        "d".to_string(),
        Some(0),
        Some(100000),
        "%".to_string(),
        Some(3),
        1,
        false,
    );
    assert_eq!(s.format_width(), 3 + 2 + 1);
    let p = Stream::new(
        "Mem".to_string(),
        "d".to_string(),
        Some(0),
        None,
        "B".to_string(),
        None,
        1,
        false,
    );
    assert_eq!(p.format_width(), 3 + 2 + 1 + 1);
    let t = Stream::new(
        "T".to_string(),
        "d".to_string(),
        None,
        None,
        "\u{B0}C".to_string(),
        Some(3),
        1,
        true,
    );
    assert_eq!(t.format_width(), 1 + 3 + 2 + 2);
}

#[test]
fn test_stream_format_values() {
    let theme = plain_theme();
    let s = Stream::new(
        "CPU".to_string(),
        "d".to_string(),
        Some(0),
        Some(100000),
        "%".to_string(),
        Some(3),
        1,
        false,
    );
    // Values are carried in thousandths of the unit.
    assert_eq!(s.format(37500, &theme), "37.5%");
    assert_eq!(s.format(0, &theme), "0%");
    assert_eq!(s.format(100000, &theme), "100%");
    let m = Stream::new(
        "Mem".to_string(),
        "d".to_string(),
        Some(0),
        None,
        "B".to_string(),
        None,
        1,
        false,
    );
    assert_eq!(m.format(8200000000000, &theme), "8.2GB");
    // The largest representable magnitude still formats.
    assert_eq!(m.format(1000000000000000000, &theme), "1PB");
    let t = Stream::new(
        "T".to_string(),
        "d".to_string(),
        None,
        None,
        "\u{B0}C".to_string(),
        Some(3),
        1,
        true,
    );
    assert_eq!(t.format(-12500, &theme), "-12.5\u{B0}C");
}

#[test]
fn test_cpu_stream_provider() {
    let streams = CPUStreamProvider {}.streams(4);
    assert!(!streams.is_empty());
    assert_eq!(streams.len(), 5);
    assert_eq!(streams[0].name, "CPU");
    assert_eq!(streams[1].name, "Core1");
    assert_eq!(streams[4].name, "Core4");
    assert_eq!(
        streams[2].description,
        "Utilization of CPU core 2 during the past interval"
    );
}

#[test]
fn test_memory_stream_provider() {
    let streams = MemoryStreamProvider {}.streams(16000000000000, Some(8000000000000));
    assert!(!streams.is_empty());
    assert_eq!(streams.len(), 2);
    assert_eq!(streams[0].name, "Mem");
    assert_eq!(streams[0].max, Some(16000000000000));
    assert_eq!(streams[1].name, "Swap");
    assert_eq!(streams[1].max, Some(8000000000000));
    let no_swap = MemoryStreamProvider {}.streams(16000000000000, None);
    assert_eq!(no_swap.len(), 1);
}

#[test]
fn test_bandwidth_stream_provider() {
    let streams =
        BandwidthStreamProvider {}.streams(&vec!["eth0".to_string(), "lo".to_string()]);
    assert!(!streams.is_empty());
    assert_eq!(streams.len(), 4);
    assert_eq!(streams[0].name, "eth0Rx");
    assert_eq!(streams[1].name, "eth0Tx");
    assert_eq!(streams[2].name, "loRx");
    assert_eq!(
        streams[0].description,
        "Ingress bandwidth on eth0 during the past interval"
    );
}

#[test]
fn test_fan_stream_provider() {
    let streams = FanStreamProvider {}.streams(&vec![(
        "CPU Fan".to_string(),
        "chip0".to_string(),
    )]);
    assert_eq!(streams.len(), 1);
    // The redundant word and the spaces leave the label, then `Fan` returns.
    assert_eq!(streams[0].name, "CPUFan");
    assert_eq!(streams[0].description, "Fan speed (feature CPU Fan on chip chip0)");
    assert_eq!(streams[0].unit, "RPM");
}

#[test]
fn test_temperature_stream_provider() {
    let inputs = vec![
        ("CPU".to_string(), "chip0".to_string()),
        ("CORE 0".to_string(), "chip0".to_string()),
        ("Core 1".to_string(), "chip0".to_string()),
        ("Package id 0".to_string(), "chip0".to_string()),
        ("Ambient".to_string(), "chip0".to_string()),
    ];
    let streams = TemperatureStreamProvider {}.streams(&inputs);
    assert_eq!(streams.len(), 4);
    // The match runs on the lowercase form: `CPU` and `CORE 0` both match.
    assert_eq!(streams[0].name, "CPUTemp");
    assert_eq!(streams[1].name, "Core1Temp");
    assert_eq!(streams[2].name, "Core2Temp");
    assert_eq!(streams[3].name, "Package 1Temp");
    assert_eq!(
        streams[0].description,
        "Temperature of CPU (feature CPU on chip chip0)"
    );
    assert_eq!(
        streams[3].description,
        "Temperature of CPU package 1 (feature Package id 0 on chip chip0)"
    );
}
