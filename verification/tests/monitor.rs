use whisper_gtk::monitor::{
    active_window_atom_name, active_window_for_display, focused_monitor_geometry,
    monitor_for_window, overlay_has_place, overlay_position_for_monitor, primary_monitor_for_root,
    window_bounds, window_is_locatable, MonitorGeometry, MonitorInfo, SearchStep, WindowBounds, WindowProperty, WindowSearch,
};

fn monitor(x: i32, y: i32, width: i32, height: i32, primary: bool) -> MonitorInfo {
    MonitorInfo { geometry: MonitorGeometry { x, y, width, height }, primary }
}

fn window(x: i32, y: i32, width: i32, height: i32) -> Option<WindowBounds> {
    Some(WindowBounds { x, y, width, height })
}

#[test]
fn overlay_position_targets_monitor_centerline() {
    let monitor = MonitorGeometry { x: 100, y: 200, width: 1000, height: 800 };
    assert_eq!(overlay_position_for_monitor(monitor, 200, 40), (500, 860));
}

#[test]
fn overlay_position_follows_floating_point() {
    for height in (0..5000).chain([65_537, 1 << 20, 16_777_217, 33_554_435, 700_000_001]) {
        for sign in [1, -1] {
            let monitor = MonitorGeometry { x: 0, y: 0, width: 0, height: sign * height };
            let margin = ((monitor.height as f32) * 0.15).round() as i32;
            let expected = (monitor.height - margin - 20).max(0);
            assert_eq!(overlay_position_for_monitor(monitor, 0, 40).1, expected);
        }
    }
}

#[test]
fn overlay_starts_on_its_monitor() {
    let small = MonitorGeometry { x: -7, y: 3, width: 100, height: 10 };
    assert_eq!(overlay_position_for_monitor(small, 201, 40), (-7, 3));
    let odd = MonitorGeometry { x: 0, y: 0, width: 201, height: 0 };
    assert_eq!(overlay_position_for_monitor(odd, 200, -3), (0, 2));
}

#[test]
fn window_lies_on_the_monitor_of_its_middle() {
    let monitors = vec![monitor(0, 0, 100, 100, false), monitor(100, 0, 100, 100, true)];
    let first = monitors[0].geometry;
    let second = monitors[1].geometry;
    assert_eq!(monitor_for_window(window(40, 10, 119, 10), &monitors, (9, 9)), Some(first));
    assert_eq!(monitor_for_window(window(40, 10, 120, 10), &monitors, (9, 9)), Some(second));
    assert_eq!(monitor_for_window(window(500, 10, 10, 10), &monitors, (9, 9)), Some(first));
    assert_eq!(monitor_for_window(None, &monitors, (9, 9)), None);
    assert_eq!(
        monitor_for_window(window(500, 10, 10, 10), &vec![], (9, 8)),
        Some(MonitorGeometry { x: 0, y: 0, width: 9, height: 8 })
    );
}

#[test]
fn halves_are_rounded_towards_the_start() {
    let monitors = vec![monitor(-10, -10, 9, 20, false), monitor(-1, -10, 20, 20, false)];
    assert_eq!(
        monitor_for_window(window(0, 0, -3, 1), &monitors, (9, 9)),
        Some(monitors[1].geometry)
    );
    assert_eq!(
        monitor_for_window(window(0, 0, -4, 1), &monitors, (9, 9)),
        Some(monitors[0].geometry)
    );
}

#[test]
fn primary_monitor_is_found() {
    let monitors = vec![
        monitor(0, 0, 1, 1, false),
        monitor(1, 0, 1, 1, true),
        monitor(2, 0, 1, 1, true),
    ];
    assert_eq!(primary_monitor_for_root(&monitors, (9, 9)), monitors[1].geometry);
    assert_eq!(
        primary_monitor_for_root(&vec![monitors[0]], (9, 9)),
        monitors[0].geometry
    );
    assert_eq!(
        primary_monitor_for_root(&vec![], (9, 8)),
        MonitorGeometry { x: 0, y: 0, width: 9, height: 8 }
    );
}

#[test]
fn unknown_window_means_the_primary_monitor() {
    let monitors = vec![monitor(0, 0, 10, 10, false), monitor(10, 0, 10, 10, true)];
    assert_eq!(focused_monitor_geometry(None, &monitors, (9, 9)), monitors[1].geometry);
    assert_eq!(
        focused_monitor_geometry(window(1, 1, 2, 2), &monitors, (9, 9)),
        monitors[0].geometry
    );
}

#[test]
fn window_bounds_need_size_and_place() {
    assert_eq!(window_bounds(Some((3, 4)), Some((1, 2))), window(1, 2, 3, 4));
    assert_eq!(window_bounds(Some((u32::MAX, 4)), Some((1, 2))), window(1, 2, -1, 4));
    assert_eq!(window_bounds(None, Some((1, 2))), None);
    assert_eq!(window_bounds(Some((3, 4)), None), None);
}

#[test]
fn active_window_comes_from_the_property_or_the_focus() {
    let good = WindowProperty { status: 0, format: 32, items: 1, window: Some(77) };
    assert_eq!(active_window_for_display(Some(good), 1, 5), Some(77));
    for bad in [
        WindowProperty { status: 1, ..good },
        WindowProperty { format: 8, ..good },
        WindowProperty { items: 0, ..good },
        WindowProperty { window: None, ..good },
        WindowProperty { window: Some(0), ..good },
    ] {
        assert_eq!(active_window_for_display(Some(bad), 1, 5), Some(5));
    }
    assert_eq!(active_window_for_display(None, 1, 5), Some(5));
    assert_eq!(active_window_for_display(None, 1, 0), None);
    assert_eq!(active_window_for_display(None, 0, 5), None);
    assert_eq!(active_window_atom_name().as_bytes(), b"_NET_ACTIVE_WINDOW\0");
}

fn title(text: &str) -> Option<String> {
    Some(text.to_string())
}

#[test]
fn search_goes_down_before_it_goes_on() {
    let mut search = WindowSearch::new(1, "wanted");
    assert_eq!(search.find_window_by_title(title("root"), Some(vec![2, 3])), SearchStep::Look(2));
    assert_eq!(search.find_window_by_title(None, Some(vec![4, 5])), SearchStep::Look(4));
    assert_eq!(search.find_window_by_title(title("x"), None), SearchStep::Look(5));
    assert_eq!(search.find_window_by_title(title("y"), Some(vec![])), SearchStep::Look(3));
    assert_eq!(search.find_window_by_title(title("wanted"), Some(vec![6])), SearchStep::Found(3));
}

#[test]
fn search_ends_without_a_window() {
    let mut search = WindowSearch::new(1, "wanted");
    assert_eq!(search.find_window_by_title(None, Some(vec![2])), SearchStep::Look(2));
    assert_eq!(search.find_window_by_title(title("other"), None), SearchStep::Missing);
}

#[test]
fn places_that_do_not_fit_are_told() {
    let far = MonitorGeometry { x: i32::MAX, y: 0, width: 1000, height: 800 };
    assert!(!overlay_has_place(far, 200, 40));
    assert!(overlay_has_place(MonitorGeometry { x: i32::MAX, ..far }, 1000, 40));
    assert!(!overlay_has_place(MonitorGeometry { x: 0, y: i32::MAX, ..far }, 200, 40));
    assert!(!overlay_has_place(MonitorGeometry { x: 0, width: i32::MIN, ..far }, 200, 40));
    assert!(overlay_has_place(MonitorGeometry { x: 0, ..far }, 200, 40));
    let tall = MonitorGeometry { x: 0, y: 0, width: 0, height: i32::MIN };
    assert!(overlay_has_place(tall, 0, 0));
    assert!(!overlay_has_place(MonitorGeometry { y: -1, ..tall }, 0, 0));
}

#[test]
fn windows_that_cannot_be_located_are_told() {
    let bounds = WindowBounds { x: 10, y: 10, width: 10, height: 10 };
    let good = monitor(0, 0, 100, 100, false);
    let wide = monitor(5, 0, i32::MAX, 100, false);
    let beyond = monitor(50, 0, i32::MAX, 100, false);
    assert!(window_is_locatable(bounds, &vec![good]));
    assert!(window_is_locatable(bounds, &vec![good, wide]));
    assert!(!window_is_locatable(bounds, &vec![wide, good]));
    assert!(window_is_locatable(bounds, &vec![beyond, good]));
    assert!(!window_is_locatable(WindowBounds { x: i32::MAX, ..bounds }, &vec![]));
}
