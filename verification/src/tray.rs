//! The tray item: what it shows, its menu, and what it answers on the message
//! bus.

use vstd::prelude::*;

use crate::text;

verus! {

/// The object that is the tray item.
pub const ITEM_PATH: &'static str = "/StatusNotifierItem";

/// The object that is the menu of the tray item.
pub const MENU_PATH: &'static str = "/StatusNotifierMenu";

/// The interface of the tray item.
pub const ITEM_INTERFACE: &'static str = "org.kde.StatusNotifierItem";

/// The interface of the menu.
pub const MENU_INTERFACE: &'static str = "com.canonical.dbusmenu";

/// The menu's entry that opens the settings.
pub const SETTINGS_MENU_ID: i32 = 1;

/// The menu's entry that ends the program.
pub const QUIT_MENU_ID: i32 = 2;

/// The width and the height of the tray item's icon.
pub const ICON_SIZE: i32 = 22;

/// A property of the tray item or of its menu.
#[derive(Debug)]
pub enum Property {
    /// There is no such property.
    Nothing,
    Text(&'static str),
    Flag(bool),
    Number(u32),
    /// A list of texts that is empty.
    NoTexts,
    /// A square image of four bytes per pixel: opacity, red, green, blue.
    Icon { size: i32, pixels: Vec<u8> },
    /// A tooltip without an image.
    ToolTip { title: &'static str, body: &'static str },
}

/// What a property says.
pub enum PropertyView {
    Nothing,
    Text(Seq<char>),
    Flag(bool),
    Number(u32),
    NoTexts,
    Icon { size: i32, pixels: Seq<u8> },
    ToolTip { title: Seq<char>, body: Seq<char> },
}

impl View for Property {
    type V = PropertyView;

    open spec fn view(&self) -> PropertyView {
        match self {
            Property::Nothing => PropertyView::Nothing,
            Property::Text(s) => PropertyView::Text(s@),
            Property::Flag(b) => PropertyView::Flag(*b),
            Property::Number(n) => PropertyView::Number(*n),
            Property::NoTexts => PropertyView::NoTexts,
            Property::Icon { size, pixels } => PropertyView::Icon { size: *size, pixels: pixels@ },
            Property::ToolTip { title, body } => PropertyView::ToolTip {
                title: title@,
                body: body@,
            },
        }
    }
}

/// What the tray item says of itself while a recording runs, or none does.
pub open spec fn status_words(recording: bool) -> Seq<char> {
    if recording {
        "NeedsAttention"@
    } else {
        "Active"@
    }
}

/// What the tray item says of itself.
pub fn status_text(recording: bool) -> (status: &'static str)
    ensures
        status@ == status_words(recording),
{
    if recording {
        "NeedsAttention"
    } else {
        "Active"
    }
}

/// The name of the tray item's icon while a recording runs, or none does.
pub open spec fn icon_words(recording: bool) -> Seq<char> {
    if recording {
        "media-record"@
    } else {
        "audio-input-microphone"@
    }
}

/// The name of the tray item's icon.
pub fn icon_name(recording: bool) -> (icon: &'static str)
    ensures
        icon@ == icon_words(recording),
{
    if recording {
        "media-record"
    } else {
        "audio-input-microphone"
    }
}

/// Whether a pixel of the icon belongs to the round badge.
pub open spec fn in_badge(x: int, y: int) -> bool {
    (x - 11) * (x - 11) + (y - 11) * (y - 11) <= 100
}

/// Whether a pixel of the icon belongs to the microphone.
pub open spec fn in_microphone(x: int, y: int) -> bool {
    ||| 8 <= x <= 13 && 5 <= y <= 13
    ||| 9 <= x <= 12 && 10 <= y <= 14
    ||| 10 <= x <= 11 && 16 <= y <= 18
    ||| 7 <= x <= 14 && 18 <= y <= 19
    ||| 6 <= x <= 16 && 12 <= y <= 16 && (x == 6 || x == 16 || y == 16)
}

/// The colour of a pixel of the icon: opacity, red, green, blue.
pub open spec fn icon_colour(recording: bool, x: int, y: int) -> Seq<u8> {
    if in_microphone(x, y) {
        seq![0xffu8, 0xff, 0xff, 0xff]
    } else if in_badge(x, y) {
        if recording {
            seq![0xffu8, 0xd5, 0x3f, 0x3f]
        } else {
            seq![0xffu8, 0x2f, 0x6f, 0xed]
        }
    } else {
        seq![0u8, 0, 0, 0]
    }
}

/// The first `count` pixels of the icon, row by row from the top.
pub open spec fn icon_pixels(recording: bool, count: nat) -> Seq<u8> {
    Seq::new(
        4 * count,
        |i: int|
            icon_colour(recording, (i / 4) % ICON_SIZE as int, (i / 4) / ICON_SIZE as int)[i % 4],
    )
}

fn pixel_colour(recording: bool, x: i32, y: i32) -> (colour: [u8; 4])
    requires
        0 <= x < ICON_SIZE,
        0 <= y < ICON_SIZE,
    ensures
        colour@ == icon_colour(recording, x as int, y as int),
{
    let dx: i32 = x - 11;
    let dy: i32 = y - 11;
    assert(-11 <= dx <= 10 && -11 <= dy <= 10);
    assert(0 <= dx * dx <= 121 && 0 <= dy * dy <= 121) by (nonlinear_arith)
        requires
            -11 <= dx <= 10,
            -11 <= dy <= 10,
    ;
    let in_badge: bool = dx * dx + dy * dy <= 100;
    let mic_head: bool = 8 <= x && x <= 13 && 5 <= y && y <= 13;
    let mic_body: bool = 9 <= x && x <= 12 && 10 <= y && y <= 14;
    let mic_stem: bool = 10 <= x && x <= 11 && 16 <= y && y <= 18;
    let mic_base: bool = 7 <= x && x <= 14 && 18 <= y && y <= 19;
    let mic_arc: bool = 6 <= x && x <= 16 && 12 <= y && y <= 16 && (x == 6 || x == 16 || y == 16);
    let colour: [u8; 4] = if mic_head || mic_body || mic_stem || mic_base || mic_arc {
        [0xff, 0xff, 0xff, 0xff]
    } else if in_badge {
        if recording {
            [0xff, 0xd5, 0x3f, 0x3f]
        } else {
            [0xff, 0x2f, 0x6f, 0xed]
        }
    } else {
        [0, 0, 0, 0]
    };
    assert(colour@ =~= icon_colour(recording, x as int, y as int));
    colour
}

/// The pixels of the tray item's icon: a microphone on a round badge.
pub fn tray_icon_argb(recording: bool) -> (pixels: Vec<u8>)
    ensures
        pixels@ == icon_pixels(recording, (ICON_SIZE * ICON_SIZE) as nat),
        pixels@.len() == 1936,
{
    let mut pixels: Vec<u8> = Vec::new();
    for y in 0..ICON_SIZE
        invariant
            pixels@ == icon_pixels(recording, (y * ICON_SIZE) as nat),
    {
        for x in 0..ICON_SIZE
            invariant
                0 <= y < ICON_SIZE,
                pixels@ == icon_pixels(recording, (y * ICON_SIZE + x) as nat),
        {
            let colour = pixel_colour(recording, x, y);
            let ghost before = pixels@;
            pixels.push(colour[0]);
            pixels.push(colour[1]);
            pixels.push(colour[2]);
            pixels.push(colour[3]);
            proof {
                let n = y * ICON_SIZE + x;
                let after = icon_pixels(recording, (n + 1) as nat);
                assert forall|i: int| 0 <= i < after.len() implies pixels@[i] == #[trigger] after[i] by {
                    if i < 4 * n {
                        assert(pixels@[i] == before[i]);
                    } else {
                        let k = i - 4 * n;
                        assert(i / 4 == n && i % 4 == k);
                        assert(n % ICON_SIZE as int == x && n / ICON_SIZE as int == y);
                        assert(pixels@[i] == colour@[k]);
                    }
                }
                assert(pixels@ =~= after);
            }
        }
    }
    pixels
}

/// What the tray item answers when it is asked for a property.
pub open spec fn item_property(name: Seq<char>, recording: bool) -> PropertyView {
    if name == "Category"@ {
        PropertyView::Text("ApplicationStatus"@)
    } else if name == "Id"@ {
        PropertyView::Text("whisper-gtk"@)
    } else if name == "Title"@ {
        PropertyView::Text("Whisper GTK"@)
    } else if name == "Status"@ {
        PropertyView::Text(status_words(recording))
    } else if name == "IconName"@ {
        PropertyView::Text(icon_words(recording))
    } else if name == "AttentionIconName"@ {
        PropertyView::Text("media-record"@)
    } else if name == "OverlayIconName"@ || name == "IconThemePath"@ {
        PropertyView::Text(""@)
    } else if name == "Menu"@ {
        PropertyView::Text(MENU_PATH@)
    } else if name == "ItemIsMenu"@ {
        PropertyView::Flag(false)
    } else if name == "WindowId"@ {
        PropertyView::Number(0)
    } else if name == "IconPixmap"@ || name == "AttentionIconPixmap"@ {
        PropertyView::Icon {
            size: ICON_SIZE,
            pixels: icon_pixels(recording, (ICON_SIZE * ICON_SIZE) as nat),
        }
    } else if name == "ToolTip"@ {
        PropertyView::ToolTip { title: "Whisper GTK"@, body: "Click to open settings"@ }
    } else {
        PropertyView::Nothing
    }
}

/// What the tray item answers when it is asked for a property.
pub fn status_notifier_property(property: &str, recording: bool) -> (value: Property)
    ensures
        value@ == item_property(property@, recording),
{
    if text::same_text(property, "Category") {
        Property::Text("ApplicationStatus")
    } else if text::same_text(property, "Id") {
        Property::Text("whisper-gtk")
    } else if text::same_text(property, "Title") {
        Property::Text("Whisper GTK")
    } else if text::same_text(property, "Status") {
        Property::Text(status_text(recording))
    } else if text::same_text(property, "IconName") {
        Property::Text(icon_name(recording))
    } else if text::same_text(property, "AttentionIconName") {
        Property::Text("media-record")
    } else if text::same_text(property, "OverlayIconName") || text::same_text(
        property,
        "IconThemePath",
    ) {
        Property::Text("")
    } else if text::same_text(property, "Menu") {
        Property::Text(MENU_PATH)
    } else if text::same_text(property, "ItemIsMenu") {
        Property::Flag(false)
    } else if text::same_text(property, "WindowId") {
        Property::Number(0)
    } else if text::same_text(property, "IconPixmap") || text::same_text(
        property,
        "AttentionIconPixmap",
    ) {
        icon_pixmap(recording)
    } else if text::same_text(property, "ToolTip") {
        Property::ToolTip { title: "Whisper GTK", body: "Click to open settings" }
    } else {
        Property::Nothing
    }
}

fn icon_pixmap(recording: bool) -> (value: Property)
    ensures
        value@ == (PropertyView::Icon {
            size: ICON_SIZE,
            pixels: icon_pixels(recording, (ICON_SIZE * ICON_SIZE) as nat),
        }),
{
    Property::Icon { size: ICON_SIZE, pixels: tray_icon_argb(recording) }
}

/// What the menu answers when it is asked for a property of its own.
pub open spec fn menu_wide_property(name: Seq<char>) -> PropertyView {
    if name == "Version"@ {
        PropertyView::Number(3)
    } else if name == "TextDirection"@ {
        PropertyView::Text("ltr"@)
    } else if name == "Status"@ {
        PropertyView::Text("normal"@)
    } else if name == "IconThemePath"@ {
        PropertyView::NoTexts
    } else {
        PropertyView::Nothing
    }
}

/// What the menu answers when it is asked for a property of its own.
pub fn dbus_menu_property(property: &str) -> (value: Property)
    ensures
        value@ == menu_wide_property(property@),
{
    if text::same_text(property, "Version") {
        Property::Number(3)
    } else if text::same_text(property, "TextDirection") {
        Property::Text("ltr")
    } else if text::same_text(property, "Status") {
        Property::Text("normal")
    } else if text::same_text(property, "IconThemePath") {
        Property::NoTexts
    } else {
        Property::Nothing
    }
}

/// A property of a menu's entry, with its name.
#[derive(Debug)]
pub struct NamedProperty {
    pub name: &'static str,
    pub value: Property,
}

/// A property of a menu's entry, with its name, as it reads.
pub open spec fn named(property: NamedProperty) -> (Seq<char>, PropertyView) {
    (property.name@, property.value@)
}

/// The properties of the menu's entry with a label.
pub open spec fn entry_properties(label: Seq<char>) -> Seq<(Seq<char>, PropertyView)> {
    seq![
        ("label"@, PropertyView::Text(label)),
        ("enabled"@, PropertyView::Flag(true)),
        ("visible"@, PropertyView::Flag(true)),
        ("type"@, PropertyView::Text("standard"@)),
    ]
}

/// Whether properties are those of the menu's entry with a label.
pub open spec fn are_entry_properties(properties: Seq<NamedProperty>, label: Seq<char>) -> bool {
    properties.map_values(|p: NamedProperty| named(p)) == entry_properties(label)
}

/// The properties of the menu's entry with a label.
fn menu_item_properties(label: &'static str) -> (properties: Vec<NamedProperty>)
    ensures
        are_entry_properties(properties@, label@),
{
    let mut properties: Vec<NamedProperty> = Vec::new();
    properties.push(NamedProperty { name: "label", value: Property::Text(label) });
    properties.push(NamedProperty { name: "enabled", value: Property::Flag(true) });
    properties.push(NamedProperty { name: "visible", value: Property::Flag(true) });
    properties.push(NamedProperty { name: "type", value: Property::Text("standard") });
    assert(properties@.map_values(|p: NamedProperty| named(p)) =~= entry_properties(label@));
    properties
}

fn settings_menu_properties() -> (properties: Vec<NamedProperty>)
    ensures
        are_entry_properties(properties@, "Settings"@),
{
    menu_item_properties("Settings")
}

fn quit_menu_properties() -> (properties: Vec<NamedProperty>)
    ensures
        are_entry_properties(properties@, "Quit"@),
{
    menu_item_properties("Quit")
}

/// The label of a menu's entry, where there is one.
pub open spec fn entry_label(id: i32) -> Option<Seq<char>> {
    if id == SETTINGS_MENU_ID {
        Some("Settings"@)
    } else if id == QUIT_MENU_ID {
        Some("Quit"@)
    } else {
        None
    }
}

/// The value of the first property with a name.
pub open spec fn value_of(properties: Seq<(Seq<char>, PropertyView)>, name: Seq<char>) -> PropertyView
    decreases properties.len(),
{
    if properties.len() == 0 {
        PropertyView::Nothing
    } else if properties[0].0 == name {
        properties[0].1
    } else {
        value_of(properties.skip(1), name)
    }
}

/// What is answered when a property of a menu's entry is asked for.
pub open spec fn entry_property(id: i32, name: Seq<char>) -> PropertyView {
    match entry_label(id) {
        Some(label) => value_of(entry_properties(label), name),
        None => PropertyView::Nothing,
    }
}

/// What is answered when a property of a menu's entry is asked for.
pub fn menu_property(id: i32, property: &str) -> (value: Property)
    ensures
        value@ == entry_property(id, property@),
{
    let mut properties: Vec<NamedProperty> = if id == SETTINGS_MENU_ID {
        settings_menu_properties()
    } else if id == QUIT_MENU_ID {
        quit_menu_properties()
    } else {
        return Property::Nothing;
    };
    let ghost all = entry_properties(entry_label(id)->0);
    let mut i: usize = 0;
    assert(all.skip(0) == all);
    assert(properties@.map_values(|p: NamedProperty| named(p)) == all);
    while i < properties.len()
        invariant
            i <= properties@.len(),
            properties@.map_values(|p: NamedProperty| named(p)) == all,
            entry_property(id, property@) == value_of(all, property@),
            value_of(all, property@) == value_of(all.skip(i as int), property@),
        decreases properties@.len() - i,
    {
        proof {
            assert(all.len() == properties@.len());
            assert(all[i as int] == named(properties@[i as int]));
            assert(all.skip(i as int)[0] == all[i as int]);
            assert(all.skip(i as int).skip(1) == all.skip(i + 1));
        }
        if text::same_text(properties[i].name, property) {
            return properties.remove(i).value;
        }
        i = i + 1;
    }
    assert(all.len() == properties@.len());
    Property::Nothing
}

/// A menu's entry with its properties.
#[derive(Debug)]
pub struct MenuItem {
    pub id: i32,
    pub properties: Vec<NamedProperty>,
}

/// Whether these are the menu's entries with their properties.
pub open spec fn are_menu_items(items: Seq<MenuItem>) -> bool {
    &&& items.len() == 2
    &&& items[0].id == SETTINGS_MENU_ID
    &&& are_entry_properties(items[0].properties@, "Settings"@)
    &&& items[1].id == QUIT_MENU_ID
    &&& are_entry_properties(items[1].properties@, "Quit"@)
}

/// The menu as a whole: its revision, and its root with the entries below it.
#[derive(Debug)]
pub struct MenuLayout {
    pub revision: u32,
    pub root: i32,
    pub children_display: &'static str,
    pub items: Vec<MenuItem>,
}

/// The menu as a whole.
pub fn menu_layout_response() -> (layout: MenuLayout)
    ensures
        layout.revision == 1,
        layout.root == 0,
        layout.children_display@ == "submenu"@,
        are_menu_items(layout.items@),
{
    MenuLayout {
        revision: 1,
        root: 0,
        children_display: "submenu",
        items: menu_group_properties_response(),
    }
}

/// The menu's entries with their properties.
pub fn menu_group_properties_response() -> (items: Vec<MenuItem>)
    ensures
        are_menu_items(items@),
{
    let mut items: Vec<MenuItem> = Vec::new();
    items.push(MenuItem { id: SETTINGS_MENU_ID, properties: settings_menu_properties() });
    items.push(MenuItem { id: QUIT_MENU_ID, properties: quit_menu_properties() });
    items
}

/// What the menu asks the program to do.
#[derive(Debug, Clone, Copy, PartialEq, Eq, Structural)]
pub enum MenuCommand {
    ShowSettings,
    Quit,
}

/// What happened to a menu's entry.
#[derive(Debug)]
pub struct MenuEvent {
    pub id: i32,
    pub event_id: String,
}

/// What the menu asks for when an entry is clicked.
pub open spec fn command_of(id: i32) -> Option<MenuCommand> {
    if id == SETTINGS_MENU_ID {
        Some(MenuCommand::ShowSettings)
    } else if id == QUIT_MENU_ID {
        Some(MenuCommand::Quit)
    } else {
        None
    }
}

/// Whether an event of a menu's entry is taken, and what it asks for. Once the
/// program is gone every click is taken and asks for nothing.
pub open spec fn event_outcome(alive: bool, id: i32, event_id: Seq<char>) -> (
    bool,
    Option<MenuCommand>,
) {
    if event_id != "clicked"@ {
        (false, None)
    } else if !alive {
        (true, None)
    } else {
        (command_of(id) is Some, command_of(id))
    }
}

/// Decides on an event of a menu's entry: whether it is taken, and what it asks
/// for.
pub fn handle_menu_event(alive: bool, id: i32, event_id: &str) -> (outcome: (
    bool,
    Option<MenuCommand>,
))
    ensures
        outcome == event_outcome(alive, id, event_id@),
{
    if !text::same_text(event_id, "clicked") {
        return (false, None);
    }
    if !alive {
        return (true, None);
    }
    if id == SETTINGS_MENU_ID {
        (true, Some(MenuCommand::ShowSettings))
    } else if id == QUIT_MENU_ID {
        (true, Some(MenuCommand::Quit))
    } else {
        (false, None)
    }
}

/// A call of one of the menu's methods. What cannot be read of its parameters is
/// absent.
#[derive(Debug)]
pub enum MenuCall {
    GetLayout,
    GetGroupProperties,
    GetProperty(Option<(i32, String)>),
    AboutToShow,
    AboutToShowGroup,
    EventGroup(Option<Vec<MenuEvent>>),
    Event(Option<MenuEvent>),
    Other,
}

/// Which method of the menu has a name.
#[derive(Debug, Clone, Copy, PartialEq, Eq, Structural)]
pub enum MenuMethod {
    GetLayout,
    GetGroupProperties,
    GetProperty,
    AboutToShow,
    AboutToShowGroup,
    EventGroup,
    Event,
    Other,
}

/// Which method of the menu has a name.
pub open spec fn method_named(name: Seq<char>) -> MenuMethod {
    if name == "GetLayout"@ {
        MenuMethod::GetLayout
    } else if name == "GetGroupProperties"@ {
        MenuMethod::GetGroupProperties
    } else if name == "GetProperty"@ {
        MenuMethod::GetProperty
    } else if name == "AboutToShow"@ {
        MenuMethod::AboutToShow
    } else if name == "AboutToShowGroup"@ {
        MenuMethod::AboutToShowGroup
    } else if name == "EventGroup"@ {
        MenuMethod::EventGroup
    } else if name == "Event"@ {
        MenuMethod::Event
    } else {
        MenuMethod::Other
    }
}

/// Which method of the menu has a name.
pub fn menu_method(name: &str) -> (method: MenuMethod)
    ensures
        method == method_named(name@),
{
    if text::same_text(name, "GetLayout") {
        MenuMethod::GetLayout
    } else if text::same_text(name, "GetGroupProperties") {
        MenuMethod::GetGroupProperties
    } else if text::same_text(name, "GetProperty") {
        MenuMethod::GetProperty
    } else if text::same_text(name, "AboutToShow") {
        MenuMethod::AboutToShow
    } else if text::same_text(name, "AboutToShowGroup") {
        MenuMethod::AboutToShowGroup
    } else if text::same_text(name, "EventGroup") {
        MenuMethod::EventGroup
    } else if text::same_text(name, "Event") {
        MenuMethod::Event
    } else {
        MenuMethod::Other
    }
}

/// What a call of one of the menu's methods gives back.
#[derive(Debug)]
pub enum MenuReply {
    Nothing,
    Layout(MenuLayout),
    GroupProperties(Vec<MenuItem>),
    Property(Property),
    /// Whether the menu must be read anew.
    NeedUpdate(bool),
    /// No entry must be read anew, and none was wrong.
    NoUpdates,
    /// The entries whose events were not taken.
    Errors(Vec<i32>),
}

/// The entries whose events are not taken, in the order of the events.
pub open spec fn refused(alive: bool, events: Seq<MenuEvent>) -> Seq<i32>
    decreases events.len(),
{
    if events.len() == 0 {
        Seq::empty()
    } else {
        let before = refused(alive, events.drop_last());
        let event = events.last();
        if event_outcome(alive, event.id, event.event_id@).0 {
            before
        } else {
            before.push(event.id)
        }
    }
}

/// What events ask for, in their order.
pub open spec fn asked_for(alive: bool, events: Seq<MenuEvent>) -> Seq<MenuCommand>
    decreases events.len(),
{
    if events.len() == 0 {
        Seq::empty()
    } else {
        let before = asked_for(alive, events.drop_last());
        let event = events.last();
        match event_outcome(alive, event.id, event.event_id@).1 {
            Some(command) => before.push(command),
            None => before,
        }
    }
}

fn handle_menu_events(alive: bool, events: &Vec<MenuEvent>) -> (outcome: (
    Vec<i32>,
    Vec<MenuCommand>,
))
    ensures
        outcome.0@ == refused(alive, events@),
        outcome.1@ == asked_for(alive, events@),
{
    let mut errors: Vec<i32> = Vec::new();
    let mut commands: Vec<MenuCommand> = Vec::new();
    assert(events@.take(0) == Seq::<MenuEvent>::empty());
    for i in 0..events.len()
        invariant
            errors@ == refused(alive, events@.take(i as int)),
            commands@ == asked_for(alive, events@.take(i as int)),
    {
        proof {
            assert(events@.take(i + 1).drop_last() == events@.take(i as int));
            assert(events@.take(i + 1).last() == events@[i as int]);
        }
        let (taken, command) = handle_menu_event(
            alive,
            events[i].id,
            events[i].event_id.as_str(),
        );
        if !taken {
            errors.push(events[i].id);
        }
        if let Some(command) = command {
            commands.push(command);
        }
    }
    assert(events@.take(events@.len() as int) == events@);
    (errors, commands)
}

/// Answers a call of one of the menu's methods, and gives what it asks the
/// program to do, in order.
pub fn answer_menu_call(alive: bool, call: MenuCall) -> (answer: (MenuReply, Vec<MenuCommand>))
    ensures
        match call {
            MenuCall::GetLayout => answer.0 matches MenuReply::Layout(layout) && layout.revision
                == 1 && layout.root == 0 && layout.children_display@ == "submenu"@
                && are_menu_items(layout.items@),
            MenuCall::GetGroupProperties => answer.0 matches MenuReply::GroupProperties(items)
                && are_menu_items(items@),
            MenuCall::GetProperty(request) => answer.0 matches MenuReply::Property(value) && value@
                == (match request {
                Some((id, name)) => entry_property(id, name@),
                None => PropertyView::Nothing,
            }),
            MenuCall::AboutToShow => answer.0 == MenuReply::NeedUpdate(false),
            MenuCall::AboutToShowGroup => answer.0 is NoUpdates,
            MenuCall::EventGroup(events) => answer.0 matches MenuReply::Errors(errors) && errors@
                == (match events {
                Some(events) => refused(alive, events@),
                None => Seq::empty(),
            }),
            MenuCall::Event(_) => answer.0 is Nothing,
            MenuCall::Other => answer.0 is Nothing,
        },
        answer.1@ == (match call {
            MenuCall::EventGroup(Some(events)) => asked_for(alive, events@),
            MenuCall::Event(Some(event)) => asked_for(alive, seq![event]),
            _ => Seq::empty(),
        }),
{
    match call {
        MenuCall::GetLayout => (MenuReply::Layout(menu_layout_response()), Vec::new()),
        MenuCall::GetGroupProperties => (
            MenuReply::GroupProperties(menu_group_properties_response()),
            Vec::new(),
        ),
        MenuCall::GetProperty(request) => {
            let value = match request {
                Some((id, name)) => menu_property(id, name.as_str()),
                None => Property::Nothing,
            };
            (MenuReply::Property(value), Vec::new())
        },
        MenuCall::AboutToShow => (MenuReply::NeedUpdate(false), Vec::new()),
        MenuCall::AboutToShowGroup => (MenuReply::NoUpdates, Vec::new()),
        MenuCall::EventGroup(events) => match events {
            Some(events) => {
                let (errors, commands) = handle_menu_events(alive, &events);
                (MenuReply::Errors(errors), commands)
            },
            None => (MenuReply::Errors(Vec::new()), Vec::new()),
        },
        MenuCall::Event(event) => match event {
            Some(event) => {
                let mut commands: Vec<MenuCommand> = Vec::new();
                proof {
                    assert(seq![event].drop_last() == Seq::<MenuEvent>::empty());
                    assert(asked_for(alive, Seq::<MenuEvent>::empty()).len() == 0);
                }
                if let Some(command) = handle_menu_event(alive, event.id, event.event_id.as_str()).1 {
                    commands.push(command);
                }
                assert(commands@ == asked_for(alive, seq![event]));
                (MenuReply::Nothing, commands)
            },
            None => (MenuReply::Nothing, Vec::new()),
        },
        MenuCall::Other => (MenuReply::Nothing, Vec::new()),
    }
}

/// Whether a call of one of the tray item's methods opens the settings.
pub fn item_method_opens_settings(method: &str) -> (opens: bool)
    ensures
        opens == (method@ == "Activate"@ || method@ == "SecondaryActivate"@),
{
    text::same_text(method, "Activate") || text::same_text(method, "SecondaryActivate")
}

/// What the tray item tells the bus.
#[derive(Debug)]
pub enum TraySignal {
    NewStatus { status: &'static str },
    NewIcon,
    PropertiesChanged { status: &'static str, icon: &'static str },
}

/// What the tray item tells the bus, if it is on it, when a recording starts or
/// ends.
pub fn recording_signals(connected: bool, recording: bool) -> (signals: Vec<TraySignal>)
    ensures
        !connected ==> signals@.len() == 0,
        connected ==> signals@.len() == 3 && (signals@[0] matches TraySignal::NewStatus { status }
            && status@ == status_words(recording)) && signals@[1] is NewIcon && (
        signals@[2] matches TraySignal::PropertiesChanged { status, icon } && status@
            == status_words(recording) && icon@ == icon_words(recording)),
{
    let mut signals: Vec<TraySignal> = Vec::new();
    if connected {
        let status = status_text(recording);
        let icon = icon_name(recording);
        signals.push(TraySignal::NewStatus { status });
        signals.push(TraySignal::NewIcon);
        signals.push(TraySignal::PropertiesChanged { status, icon });
    }
    signals
}

/// The name on the bus of the tray item of a process.
pub fn tray_bus_name(process: u32) -> (name: String)
    ensures
        name@ == "org.kde.StatusNotifierItem.whisper_gtk_"@ + text::signed_decimal(process as int),
{
    let number = text::signed_text(process as i64);
    text::joined_text("org.kde.StatusNotifierItem.whisper_gtk_", number.as_str())
}

/// A recording changes the icon only in the badge around the microphone.
pub proof fn recording_recolours_the_badge(i: int)
    requires
        0 <= i < 4 * ICON_SIZE * ICON_SIZE,
    ensures
        ({
            let count = (ICON_SIZE * ICON_SIZE) as nat;
            let x = (i / 4) % ICON_SIZE as int;
            let y = (i / 4) / ICON_SIZE as int;
            icon_pixels(true, count)[i] != icon_pixels(false, count)[i] ==> in_badge(x, y)
                && !in_microphone(x, y)
        }),
{
}

/// Two processes have different names on the bus.
pub proof fn bus_names_differ(a: u32, b: u32)
    requires
        "org.kde.StatusNotifierItem.whisper_gtk_"@ + text::signed_decimal(a as int)
            == "org.kde.StatusNotifierItem.whisper_gtk_"@ + text::signed_decimal(b as int),
    ensures
        a == b,
{
    let head = "org.kde.StatusNotifierItem.whisper_gtk_"@;
    let first = text::signed_decimal(a as int);
    let second = text::signed_decimal(b as int);
    assert((head + first).skip(head.len() as int) =~= first);
    assert((head + second).skip(head.len() as int) =~= second);
    text::written_number_reads_back(a);
    text::written_number_reads_back(b);
}

/// Asked one by one, the menu's entries give the same properties as together.
pub proof fn properties_agree(items: Seq<MenuItem>, i: int, j: int)
    requires
        are_menu_items(items),
        0 <= i < items.len(),
        0 <= j < items[i].properties@.len(),
    ensures
        entry_property(items[i].id, items[i].properties@[j].name@)
            == items[i].properties@[j].value@,
{
    let label = entry_label(items[i].id)->0;
    let all = entry_properties(label);
    assert(items[i].properties@.map_values(|p: NamedProperty| named(p)) == all);
    assert(all[j] == named(items[i].properties@[j]));
    assert(all.skip(1)[0] == all[1]);
    assert(all.skip(1).skip(1)[0] == all[2]);
    assert(all.skip(1).skip(1).skip(1)[0] == all[3]);
    reveal_with_fuel(value_of, 5);
    reveal_strlit("label");
    reveal_strlit("enabled");
    reveal_strlit("visible");
    reveal_strlit("type");
    assert("enabled"@[0] != "visible"@[0]);
    assert("label"@.len() != "enabled"@.len() && "label"@.len() != "visible"@.len() && "label"@.len()
        != "type"@.len() && "enabled"@.len() != "type"@.len() && "visible"@.len() != "type"@.len());
}

/// Every entry of the menu does something when it is clicked, and nothing else
/// does.
pub proof fn entries_are_what_can_be_clicked(items: Seq<MenuItem>, id: i32)
    requires
        are_menu_items(items),
    ensures
        (exists|i: int| 0 <= i < items.len() && (#[trigger] items[i]).id == id) <==> event_outcome(
            true,
            id,
            "clicked"@,
        ).1 is Some,
{
    assert(items[0].id == SETTINGS_MENU_ID);
    assert(items[1].id == QUIT_MENU_ID);
}

proof fn item_names()
    ensures
        "Category"@.len() == 8 && "Category"@[0] == 'C',
        "Id"@.len() == 2,
        "Title"@.len() == 5,
        "Status"@.len() == 6,
        "IconName"@.len() == 8 && "IconName"@[0] == 'I',
        "AttentionIconName"@.len() == 17,
        "OverlayIconName"@.len() == 15,
        "IconThemePath"@.len() == 13 && "IconThemePath"@[0] == 'I',
        "Menu"@.len() == 4,
        "ItemIsMenu"@.len() == 10 && "ItemIsMenu"@[1] == 't',
        "WindowId"@.len() == 8 && "WindowId"@[0] == 'W',
        "IconPixmap"@.len() == 10 && "IconPixmap"@[1] == 'c',
        "AttentionIconPixmap"@.len() == 19,
        "ToolTip"@.len() == 7,
        "Version"@.len() == 7,
        "TextDirection"@.len() == 13 && "TextDirection"@[0] == 'T',
{
    reveal_strlit("Category");
    reveal_strlit("Id");
    reveal_strlit("Title");
    reveal_strlit("Status");
    reveal_strlit("IconName");
    reveal_strlit("AttentionIconName");
    reveal_strlit("OverlayIconName");
    reveal_strlit("IconThemePath");
    reveal_strlit("Menu");
    reveal_strlit("ItemIsMenu");
    reveal_strlit("WindowId");
    reveal_strlit("IconPixmap");
    reveal_strlit("AttentionIconPixmap");
    reveal_strlit("ToolTip");
    reveal_strlit("Version");
    reveal_strlit("TextDirection");
}

/// The tray item has these properties and no others. Only the status, the icon's
/// name and its picture depend on whether a recording runs.
pub proof fn tray_item_tells_of_itself(recording: bool, name: Seq<char>)
    ensures
        item_property("Category"@, recording) == PropertyView::Text("ApplicationStatus"@),
        item_property("Id"@, recording) == PropertyView::Text("whisper-gtk"@),
        item_property("Title"@, recording) == PropertyView::Text("Whisper GTK"@),
        item_property("Status"@, true) == PropertyView::Text("NeedsAttention"@),
        item_property("Status"@, false) == PropertyView::Text("Active"@),
        item_property("IconName"@, true) == PropertyView::Text("media-record"@),
        item_property("IconName"@, false) == PropertyView::Text("audio-input-microphone"@),
        item_property("AttentionIconName"@, recording) == PropertyView::Text("media-record"@),
        item_property("OverlayIconName"@, recording) == PropertyView::Text(""@),
        item_property("IconThemePath"@, recording) == PropertyView::Text(""@),
        item_property("Menu"@, recording) == PropertyView::Text("/StatusNotifierMenu"@),
        item_property("ItemIsMenu"@, recording) == PropertyView::Flag(false),
        item_property("WindowId"@, recording) == PropertyView::Number(0),
        item_property("IconPixmap"@, recording) == (PropertyView::Icon {
            size: 22,
            pixels: icon_pixels(recording, 484),
        }),
        item_property("AttentionIconPixmap"@, recording) == (PropertyView::Icon {
            size: 22,
            pixels: icon_pixels(recording, 484),
        }),
        item_property("ToolTip"@, recording) == (PropertyView::ToolTip {
            title: "Whisper GTK"@,
            body: "Click to open settings"@,
        }),
        !seq![
            "Category"@,
            "Id"@,
            "Title"@,
            "Status"@,
            "IconName"@,
            "AttentionIconName"@,
            "OverlayIconName"@,
            "IconThemePath"@,
            "Menu"@,
            "ItemIsMenu"@,
            "WindowId"@,
            "IconPixmap"@,
            "AttentionIconPixmap"@,
            "ToolTip"@,
        ].contains(name) ==> item_property(name, recording) is Nothing,
        status_words(true) == "NeedsAttention"@,
        status_words(false) == "Active"@,
        icon_words(true) == "media-record"@,
        icon_words(false) == "audio-input-microphone"@,
{
    item_names();
    let names = seq![
        "Category"@,
        "Id"@,
        "Title"@,
        "Status"@,
        "IconName"@,
        "AttentionIconName"@,
        "OverlayIconName"@,
        "IconThemePath"@,
        "Menu"@,
        "ItemIsMenu"@,
        "WindowId"@,
        "IconPixmap"@,
        "AttentionIconPixmap"@,
        "ToolTip"@,
    ];
    if !names.contains(name) {
        assert(names[0] != name && names[1] != name && names[2] != name && names[3] != name);
        assert(names[4] != name && names[5] != name && names[6] != name && names[7] != name);
        assert(names[8] != name && names[9] != name && names[10] != name && names[11] != name);
        assert(names[12] != name && names[13] != name);
    }
}

/// The menu as a whole has these properties and no others.
pub proof fn menu_tells_of_itself(name: Seq<char>)
    ensures
        menu_wide_property("Version"@) == PropertyView::Number(3),
        menu_wide_property("TextDirection"@) == PropertyView::Text("ltr"@),
        menu_wide_property("Status"@) == PropertyView::Text("normal"@),
        menu_wide_property("IconThemePath"@) is NoTexts,
        name != "Version"@ && name != "TextDirection"@ && name != "Status"@ && name
            != "IconThemePath"@ ==> menu_wide_property(name) is Nothing,
{
    item_names();
}

/// Each pixel of the icon is four bytes, row by row from the top and from left to
/// right: a white microphone on a round badge, which is red while a recording runs
/// and blue otherwise, and nothing around it.
pub proof fn icon_is_a_microphone_on_a_badge(recording: bool, x: int, y: int)
    requires
        0 <= x < 22,
        0 <= y < 22,
    ensures
        ({
            let pixels = icon_pixels(recording, 484);
            let at = 4 * (22 * y + x);
            let head = 8 <= x <= 13 && 5 <= y <= 13;
            let body = 9 <= x <= 12 && 10 <= y <= 14;
            let stem = 10 <= x <= 11 && 16 <= y <= 18;
            let base = 7 <= x <= 14 && 18 <= y <= 19;
            let arc = 6 <= x <= 16 && 12 <= y <= 16 && (x == 6 || x == 16 || y == 16);
            let badge = (x - 11) * (x - 11) + (y - 11) * (y - 11) <= 100;
            let pixel = pixels.subrange(at, at + 4);
            &&& pixels.len() == 1936
            &&& head || body || stem || base || arc ==> pixel == seq![0xffu8, 0xff, 0xff, 0xff]
            &&& !(head || body || stem || base || arc) && badge && recording ==> pixel == seq![
                0xffu8,
                0xd5,
                0x3f,
                0x3f,
            ]
            &&& !(head || body || stem || base || arc) && badge && !recording ==> pixel == seq![
                0xffu8,
                0x2f,
                0x6f,
                0xed,
            ]
            &&& !(head || body || stem || base || arc) && !badge ==> pixel == seq![0u8, 0, 0, 0]
        }),
{
    let pixels = icon_pixels(recording, 484);
    let n = 22 * y + x;
    let at = 4 * n;
    assert(n % 22 == x && n / 22 == y);
    let pixel = pixels.subrange(at, at + 4);
    let colour = icon_colour(recording, x, y);
    assert forall|k: int| 0 <= k < 4 implies #[trigger] pixel[k] == colour[k] by {
        assert((at + k) / 4 == n && (at + k) % 4 == k);
        assert(pixels[at + k] == icon_colour(recording, n % 22, n / 22)[k]);
    }
    assert(pixel =~= colour);
}

proof fn entry_names()
    ensures
        "label"@.len() == 5,
        "enabled"@.len() == 7 && "enabled"@[0] == 'e',
        "visible"@.len() == 7 && "visible"@[0] == 'v',
        "type"@.len() == 4,
{
    reveal_strlit("label");
    reveal_strlit("enabled");
    reveal_strlit("visible");
    reveal_strlit("type");
}

/// The menu's first entry opens the settings and its second ends the program. Each
/// has a label, is enabled and visible, and is of the standard kind; there is no
/// other property and no other entry.
pub proof fn entries_tell_of_themselves(id: i32, name: Seq<char>)
    ensures
        entry_property(1, "label"@) == PropertyView::Text("Settings"@),
        entry_property(2, "label"@) == PropertyView::Text("Quit"@),
        id == 1 || id == 2 ==> entry_property(id, "enabled"@) == PropertyView::Flag(true),
        id == 1 || id == 2 ==> entry_property(id, "visible"@) == PropertyView::Flag(true),
        id == 1 || id == 2 ==> entry_property(id, "type"@) == PropertyView::Text("standard"@),
        name != "label"@ && name != "enabled"@ && name != "visible"@ && name != "type"@
            ==> entry_property(id, name) is Nothing,
        id != 1 && id != 2 ==> entry_property(id, name) is Nothing,
{
    entry_names();
    reveal_with_fuel(value_of, 5);
    if let Some(label) = entry_label(id) {
        let all = entry_properties(label);
        assert(all.skip(1)[0] == all[1]);
        assert(all.skip(1).skip(1)[0] == all[2]);
        assert(all.skip(1).skip(1).skip(1)[0] == all[3]);
    }
    let first = entry_properties("Settings"@);
    assert(first[0].0 == "label"@);
    let second = entry_properties("Quit"@);
    assert(second[0].0 == "label"@);
}

/// The menu's entries together are the two entries with all of their properties.
pub proof fn menu_has_two_entries(items: Seq<MenuItem>)
    requires
        are_menu_items(items),
    ensures
        items.len() == 2,
        items[0].id == 1 && items[0].properties@.len() == 4,
        items[1].id == 2 && items[1].properties@.len() == 4,
        items[0].properties@[0].name@ == "label"@ && items[0].properties@[0].value@
            == PropertyView::Text("Settings"@),
        items[1].properties@[0].name@ == "label"@ && items[1].properties@[0].value@
            == PropertyView::Text("Quit"@),
        forall|i: int|
            0 <= i < 2 ==> (#[trigger] items[i]).properties@[1].name@ == "enabled"@
                && items[i].properties@[1].value@ == PropertyView::Flag(true)
                && items[i].properties@[2].name@ == "visible"@ && items[i].properties@[2].value@
                == PropertyView::Flag(true) && items[i].properties@[3].name@ == "type"@
                && items[i].properties@[3].value@ == PropertyView::Text("standard"@),
{
    assert forall|i: int| 0 <= i < 2 implies (#[trigger] items[i]).properties@.len() == 4
        && items[i].properties@[0].name@ == "label"@ && items[i].properties@[0].value@
        == PropertyView::Text(
        if i == 0 {
            "Settings"@
        } else {
            "Quit"@
        },
    ) && items[i].properties@[1].name@ == "enabled"@ && items[i].properties@[1].value@
        == PropertyView::Flag(true) && items[i].properties@[2].name@ == "visible"@
        && items[i].properties@[2].value@ == PropertyView::Flag(true)
        && items[i].properties@[3].name@ == "type"@ && items[i].properties@[3].value@
        == PropertyView::Text("standard"@) by {
        let read = items[i].properties@.map_values(|p: NamedProperty| named(p));
        let all = entry_properties(
            if i == 0 {
                "Settings"@
            } else {
                "Quit"@
            },
        );
        assert(read == all);
        assert(read.len() == items[i].properties@.len());
        assert(all[0] == named(items[i].properties@[0]));
        assert(all[1] == named(items[i].properties@[1]));
        assert(all[2] == named(items[i].properties@[2]));
        assert(all[3] == named(items[i].properties@[3]));
    }
    assert(items[0].properties@.len() == 4);
    assert(items[1].properties@.len() == 4);
}

/// A click on the first entry asks for the settings and one on the second for the
/// end of the program, as long as the program is alive. What is no click is never
/// taken, and of clicks only those on other entries of a living program are not.
pub proof fn clicks_are_taken(alive: bool, id: i32, event_id: Seq<char>)
    ensures
        ({
            let (taken, command) = event_outcome(alive, id, event_id);
            &&& taken <==> event_id == "clicked"@ && (!alive || id == 1 || id == 2)
            &&& command == Some(MenuCommand::ShowSettings) <==> event_id == "clicked"@ && alive && id
                == 1
            &&& command == Some(MenuCommand::Quit) <==> event_id == "clicked"@ && alive && id == 2
        }),
{
}

/// Of a group of events those that are not taken are reported by their entries, in
/// their order.
pub proof fn refused_events_are_reported(alive: bool, events: Seq<MenuEvent>)
    ensures
        refused(alive, events) == events.filter(
            |event: MenuEvent|
                event.event_id@ != "clicked"@ || (alive && event.id != 1 && event.id != 2),
        ).map_values(|event: MenuEvent| event.id),
    decreases events.len(),
{
    let bad = |event: MenuEvent|
        event.event_id@ != "clicked"@ || (alive && event.id != 1 && event.id != 2);
    let id = |event: MenuEvent| event.id;
    reveal(Seq::filter);
    if events.len() == 0 {
        assert(events.filter(bad).map_values(id) =~= Seq::<i32>::empty());
    } else {
        refused_events_are_reported(alive, events.drop_last());
        clicks_are_taken(alive, events.last().id, events.last().event_id@);
        let before = events.drop_last().filter(bad);
        if bad(events.last()) {
            assert(before.push(events.last()).map_values(id) =~= before.map_values(id).push(
                id(events.last()),
            ));
        }
    }
}

/// Events ask for what the clicks among them ask for, each once and in their
/// order; once the program is gone they ask for nothing.
pub proof fn every_click_is_answered(alive: bool, events: Seq<MenuEvent>)
    ensures
        asked_for(alive, events) == events.filter(
            |event: MenuEvent|
                alive && event.event_id@ == "clicked"@ && (event.id == 1 || event.id == 2),
        ).map_values(
            |event: MenuEvent|
                if event.id == 1 {
                    MenuCommand::ShowSettings
                } else {
                    MenuCommand::Quit
                },
        ),
    decreases events.len(),
{
    let good = |event: MenuEvent|
        alive && event.event_id@ == "clicked"@ && (event.id == 1 || event.id == 2);
    let command = |event: MenuEvent|
        if event.id == 1 {
            MenuCommand::ShowSettings
        } else {
            MenuCommand::Quit
        };
    reveal(Seq::filter);
    if events.len() == 0 {
        assert(events.filter(good).map_values(command) =~= Seq::<MenuCommand>::empty());
    } else {
        every_click_is_answered(alive, events.drop_last());
        clicks_are_taken(alive, events.last().id, events.last().event_id@);
        let before = events.drop_last().filter(good);
        if good(events.last()) {
            assert(before.push(events.last()).map_values(command) =~= before.map_values(
                command,
            ).push(command(events.last())));
        }
    }
}

/// The menu's methods have these names, and every other name is none of theirs.
pub proof fn methods_have_names(name: Seq<char>)
    ensures
        method_named(name) == MenuMethod::GetLayout <==> name == "GetLayout"@,
        method_named(name) == MenuMethod::GetGroupProperties <==> name == "GetGroupProperties"@,
        method_named(name) == MenuMethod::GetProperty <==> name == "GetProperty"@,
        method_named(name) == MenuMethod::AboutToShow <==> name == "AboutToShow"@,
        method_named(name) == MenuMethod::AboutToShowGroup <==> name == "AboutToShowGroup"@,
        method_named(name) == MenuMethod::EventGroup <==> name == "EventGroup"@,
        method_named(name) == MenuMethod::Event <==> name == "Event"@,
{
    reveal_strlit("GetLayout");
    reveal_strlit("GetGroupProperties");
    reveal_strlit("GetProperty");
    reveal_strlit("AboutToShow");
    reveal_strlit("AboutToShowGroup");
    reveal_strlit("EventGroup");
    reveal_strlit("Event");
    assert("GetLayout"@.len() == 9 && "GetGroupProperties"@.len() == 18);
    assert("GetProperty"@.len() == 11 && "GetProperty"@[0] == 'G');
    assert("AboutToShow"@.len() == 11 && "AboutToShow"@[0] == 'A');
    assert("AboutToShowGroup"@.len() == 16 && "EventGroup"@.len() == 10 && "Event"@.len() == 5);
}

/// A property says what it holds.
pub proof fn properties_say_what_they_hold(
    words: &'static str,
    body: &'static str,
    flag: bool,
    number: u32,
    size: i32,
    pixels: Vec<u8>,
)
    ensures
        Property::Nothing@ is Nothing,
        Property::NoTexts@ is NoTexts,
        Property::Text(words)@ == PropertyView::Text(words@),
        Property::Flag(flag)@ == PropertyView::Flag(flag),
        Property::Number(number)@ == PropertyView::Number(number),
        (Property::Icon { size, pixels })@ == (PropertyView::Icon { size, pixels: pixels@ }),
        (Property::ToolTip { title: words, body })@ == (PropertyView::ToolTip {
            title: words@,
            body: body@,
        }),
{
}

} // verus!
