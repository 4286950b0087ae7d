use whisper_gtk::tray::{
    answer_menu_call, dbus_menu_property, handle_menu_event, icon_name, item_method_opens_settings,
    menu_method, menu_property, recording_signals, status_notifier_property, status_text,
    tray_bus_name, tray_icon_argb, MenuCall, MenuCommand, MenuEvent, MenuItem, MenuMethod,
    MenuReply, Property, TraySignal, QUIT_MENU_ID, SETTINGS_MENU_ID,
};

fn text(property: Property) -> &'static str {
    match property {
        Property::Text(text) => text,
        other => panic!("not a text: {:?}", other),
    }
}

#[test]
fn tray_item_tells_of_a_recording() {
    assert_eq!(status_text(true), "NeedsAttention");
    assert_eq!(status_text(false), "Active");
    assert_eq!(icon_name(true), "media-record");
    assert_eq!(icon_name(false), "audio-input-microphone");
}

#[test]
fn tray_item_has_its_properties() {
    for (name, value) in [
        ("Category", "ApplicationStatus"),
        ("Id", "whisper-gtk"),
        ("Title", "Whisper GTK"),
        ("Status", "NeedsAttention"),
        ("IconName", "media-record"),
        ("AttentionIconName", "media-record"),
        ("OverlayIconName", ""),
        ("IconThemePath", ""),
        ("Menu", "/StatusNotifierMenu"),
    ] {
        assert_eq!(text(status_notifier_property(name, true)), value);
    }
    assert_eq!(text(status_notifier_property("Status", false)), "Active");
    assert!(matches!(status_notifier_property("ItemIsMenu", true), Property::Flag(false)));
    assert!(matches!(status_notifier_property("WindowId", true), Property::Number(0)));
    assert!(matches!(
        status_notifier_property("ToolTip", true),
        Property::ToolTip { title: "Whisper GTK", body: "Click to open settings" }
    ));
    assert!(matches!(status_notifier_property("Nonsense", true), Property::Nothing));
    for name in ["IconPixmap", "AttentionIconPixmap"] {
        match status_notifier_property(name, true) {
            Property::Icon { size, pixels } => {
                assert_eq!(size, 22);
                assert_eq!(pixels, tray_icon_argb(true));
            }
            other => panic!("not an icon: {:?}", other),
        }
    }
}

#[test]
fn tray_icon_is_a_microphone_on_a_badge() {
    let recording = tray_icon_argb(true);
    let idle = tray_icon_argb(false);
    assert_eq!(recording.len(), 22 * 22 * 4);
    let pixel = |pixels: &Vec<u8>, x: usize, y: usize| {
        let start = (y * 22 + x) * 4;
        pixels[start..start + 4].to_vec()
    };
    assert_eq!(pixel(&recording, 0, 0), vec![0, 0, 0, 0]);
    assert_eq!(pixel(&recording, 11, 1), vec![0xff, 0xd5, 0x3f, 0x3f]);
    assert_eq!(pixel(&idle, 11, 1), vec![0xff, 0x2f, 0x6f, 0xed]);
    assert_eq!(pixel(&recording, 11, 0), vec![0, 0, 0, 0]);
    for (x, y) in [(8, 5), (13, 13), (9, 14), (10, 17), (7, 18), (14, 19), (6, 12), (16, 16)] {
        assert_eq!(pixel(&recording, x, y), vec![0xff, 0xff, 0xff, 0xff]);
        assert_eq!(pixel(&idle, x, y), vec![0xff, 0xff, 0xff, 0xff]);
    }
    let mut transparent = 0;
    let mut white = 0;
    for y in 0..22 {
        for x in 0..22 {
            let colour = pixel(&idle, x, y);
            if colour == vec![0, 0, 0, 0] {
                transparent += 1;
            }
            if colour == vec![0xff, 0xff, 0xff, 0xff] {
                white += 1;
            }
        }
    }
    let mut expected_transparent = 0;
    let mut expected_white = 0;
    for y in 0..22i32 {
        for x in 0..22i32 {
            let head = (8..=13).contains(&x) && (5..=13).contains(&y);
            let body = (9..=12).contains(&x) && (10..=14).contains(&y);
            let stem = (10..=11).contains(&x) && (16..=18).contains(&y);
            let base = (7..=14).contains(&x) && (18..=19).contains(&y);
            let arc = (6..=16).contains(&x)
                && (12..=16).contains(&y)
                && (x == 6 || x == 16 || y == 16);
            if head || body || stem || base || arc {
                expected_white += 1;
            } else if (x - 11) * (x - 11) + (y - 11) * (y - 11) > 100 {
                expected_transparent += 1;
            }
        }
    }
    assert_eq!((transparent, white), (expected_transparent, expected_white));
}

#[test]
fn menu_has_its_own_properties() {
    assert!(matches!(dbus_menu_property("Version"), Property::Number(3)));
    assert_eq!(text(dbus_menu_property("TextDirection")), "ltr");
    assert_eq!(text(dbus_menu_property("Status")), "normal");
    assert!(matches!(dbus_menu_property("IconThemePath"), Property::NoTexts));
    assert!(matches!(dbus_menu_property("Nonsense"), Property::Nothing));
}

#[test]
fn menu_entries_have_their_properties() {
    assert_eq!(text(menu_property(SETTINGS_MENU_ID, "label")), "Settings");
    assert_eq!(text(menu_property(QUIT_MENU_ID, "label")), "Quit");
    assert!(matches!(menu_property(QUIT_MENU_ID, "enabled"), Property::Flag(true)));
    assert!(matches!(menu_property(QUIT_MENU_ID, "visible"), Property::Flag(true)));
    assert_eq!(text(menu_property(QUIT_MENU_ID, "type")), "standard");
    assert!(matches!(menu_property(QUIT_MENU_ID, "nonsense"), Property::Nothing));
    assert!(matches!(menu_property(3, "label"), Property::Nothing));
}

fn described(items: &Vec<MenuItem>) -> Vec<(i32, Vec<&'static str>)> {
    items
        .iter()
        .map(|item| (item.id, item.properties.iter().map(|property| property.name).collect()))
        .collect()
}

#[test]
fn menu_tells_all_entries_at_once() {
    let names = vec!["label", "enabled", "visible", "type"];
    let expected = vec![(1, names.clone()), (2, names)];
    match answer_menu_call(true, MenuCall::GetLayout).0 {
        MenuReply::Layout(layout) => {
            assert_eq!(layout.revision, 1);
            assert_eq!(layout.root, 0);
            assert_eq!(layout.children_display, "submenu");
            assert_eq!(described(&layout.items), expected);
        }
        other => panic!("not a layout: {:?}", other),
    }
    match answer_menu_call(true, MenuCall::GetGroupProperties).0 {
        MenuReply::GroupProperties(items) => assert_eq!(described(&items), expected),
        other => panic!("not the entries: {:?}", other),
    }
}

#[test]
fn clicks_are_taken() {
    assert_eq!(handle_menu_event(true, 1, "clicked"), (true, Some(MenuCommand::ShowSettings)));
    assert_eq!(handle_menu_event(true, 2, "clicked"), (true, Some(MenuCommand::Quit)));
    assert_eq!(handle_menu_event(true, 3, "clicked"), (false, None));
    assert_eq!(handle_menu_event(true, 1, "hovered"), (false, None));
    assert_eq!(handle_menu_event(false, 3, "clicked"), (true, None));
}

fn event(id: i32, event_id: &str) -> MenuEvent {
    MenuEvent { id, event_id: event_id.to_string() }
}

#[test]
fn events_come_alone_or_in_groups() {
    let (reply, commands) = answer_menu_call(
        true,
        MenuCall::EventGroup(Some(vec![
            event(9, "clicked"),
            event(1, "clicked"),
            event(1, "opened"),
            event(2, "clicked"),
        ])),
    );
    assert!(matches!(reply, MenuReply::Errors(errors) if errors == vec![9, 1]));
    assert_eq!(commands, vec![MenuCommand::ShowSettings, MenuCommand::Quit]);
    let (reply, commands) = answer_menu_call(true, MenuCall::EventGroup(None));
    assert!(matches!(reply, MenuReply::Errors(errors) if errors.is_empty()));
    assert!(commands.is_empty());
    let (reply, commands) = answer_menu_call(true, MenuCall::Event(Some(event(2, "clicked"))));
    assert!(matches!(reply, MenuReply::Nothing));
    assert_eq!(commands, vec![MenuCommand::Quit]);
    assert!(answer_menu_call(true, MenuCall::Event(None)).1.is_empty());
}

#[test]
fn other_calls_are_answered() {
    let property = Some((1, "label".to_string()));
    match answer_menu_call(true, MenuCall::GetProperty(property)).0 {
        MenuReply::Property(value) => assert_eq!(text(value), "Settings"),
        other => panic!("not a property: {:?}", other),
    }
    assert!(matches!(
        answer_menu_call(true, MenuCall::GetProperty(None)).0,
        MenuReply::Property(Property::Nothing)
    ));
    assert!(matches!(
        answer_menu_call(true, MenuCall::AboutToShow).0,
        MenuReply::NeedUpdate(false)
    ));
    assert!(matches!(
        answer_menu_call(true, MenuCall::AboutToShowGroup).0,
        MenuReply::NoUpdates
    ));
    assert!(matches!(answer_menu_call(true, MenuCall::Other).0, MenuReply::Nothing));
}

#[test]
fn methods_have_their_names() {
    for (name, method) in [
        ("GetLayout", MenuMethod::GetLayout),
        ("GetGroupProperties", MenuMethod::GetGroupProperties),
        ("GetProperty", MenuMethod::GetProperty),
        ("AboutToShow", MenuMethod::AboutToShow),
        ("AboutToShowGroup", MenuMethod::AboutToShowGroup),
        ("EventGroup", MenuMethod::EventGroup),
        ("Event", MenuMethod::Event),
        ("Nonsense", MenuMethod::Other),
    ] {
        assert_eq!(menu_method(name), method);
    }
    assert!(item_method_opens_settings("Activate"));
    assert!(item_method_opens_settings("SecondaryActivate"));
    assert!(!item_method_opens_settings("ContextMenu"));
}

#[test]
fn bus_is_told_of_a_recording() {
    assert!(recording_signals(false, true).is_empty());
    let signals = recording_signals(true, true);
    assert_eq!(signals.len(), 3);
    assert!(matches!(signals[0], TraySignal::NewStatus { status: "NeedsAttention" }));
    assert!(matches!(signals[1], TraySignal::NewIcon));
    assert!(matches!(
        signals[2],
        TraySignal::PropertiesChanged { status: "NeedsAttention", icon: "media-record" }
    ));
}

#[test]
fn bus_name_ends_with_the_process() {
    assert_eq!(tray_bus_name(4711), "org.kde.StatusNotifierItem.whisper_gtk_4711");
    assert_ne!(tray_bus_name(47), tray_bus_name(471));
}
