//! Monitors and windows: where the overlay goes, which window is the active one
//! and on which monitor it lies, and the search for a window by its title.

use vstd::arithmetic::power2::*;
use vstd::prelude::*;

use crate::float;
use crate::float::rounded;
use crate::text;

verus! {

/// Where a monitor lies, and how large it is.
#[derive(Debug, Clone, Copy, PartialEq, Eq, Structural)]
pub struct MonitorGeometry {
    pub x: i32,
    pub y: i32,
    pub width: i32,
    pub height: i32,
}

/// A monitor, and whether it is the primary one.
#[derive(Debug, Clone, Copy, PartialEq, Eq, Structural)]
pub struct MonitorInfo {
    pub geometry: MonitorGeometry,
    pub primary: bool,
}

/// The single-precision number nearest to 0.15, in units of 2^-26.
pub const MARGIN: u64 = 10_066_330;

/// Fifteen hundredths of a length, taken in single precision and rounded to the
/// nearest whole number, halves upwards.
pub open spec fn margin_of(length: nat) -> nat {
    (rounded(rounded(length, 1, 24) * MARGIN as nat, 1, 24) + pow2(25)) / pow2(26)
}

/// The distance of the overlay's centre from the lower edge of a monitor of some
/// height. A negative height mirrors the positive one.
pub open spec fn margin(height: int) -> int {
    if height < 0 {
        -margin_of((-height) as nat)
    } else {
        margin_of(height as nat) as int
    }
}

/// Whether a number fits in 32 bits with a sign.
pub open spec fn fits(n: int) -> bool {
    i32::MIN <= n <= i32::MAX
}

/// The larger of two numbers.
pub open spec fn larger(a: int, b: int) -> int {
    if a < b {
        b
    } else {
        a
    }
}

/// Where the overlay goes before it is kept on the monitor: in the middle of the
/// width, and at the margin above the lower edge.
pub open spec fn overlay_target(monitor: MonitorGeometry, width: int, height: int) -> (int, int) {
    (
        monitor.x + (monitor.width - width) / 2,
        monitor.y + monitor.height - margin(monitor.height as int) - height / 2,
    )
}

/// Whether every number on the way to the overlay's place fits in 32 bits with a
/// sign.
pub open spec fn overlay_fits(monitor: MonitorGeometry, width: int, height: int) -> bool {
    let edge = monitor.y + monitor.height;
    let center = edge - margin(monitor.height as int);
    &&& fits(monitor.width - width)
    &&& fits(monitor.x + (monitor.width - width) / 2)
    &&& fits(edge)
    &&& fits(center)
    &&& fits(center - height / 2)
}

/// Whether the overlay's place on a monitor can be told.
pub fn overlay_has_place(
    monitor: MonitorGeometry,
    overlay_width: i32,
    overlay_height: i32,
) -> (answer: bool)
    ensures
        answer == overlay_fits(monitor, overlay_width as int, overlay_height as int),
{
    let slack: i64 = monitor.width as i64 - overlay_width as i64;
    if !is_i32(slack) {
        return false;
    }
    let edge: i64 = monitor.y as i64 + monitor.height as i64;
    let center: i64 = if monitor.height < 0 {
        edge + compute_margin((-(monitor.height as i64)) as u32) as i64
    } else {
        edge - compute_margin(monitor.height as u32) as i64
    };
    is_i32(monitor.x as i64 + half(slack as i32) as i64) && is_i32(edge) && is_i32(center)
        && is_i32(center - half(overlay_height) as i64)
}

fn is_i32(n: i64) -> (answer: bool)
    ensures
        answer == fits(n as int),
{
    i32::MIN as i64 <= n && n <= i32::MAX as i64
}

fn compute_margin(length: u32) -> (margin: u32)
    requires
        length <= 0x8000_0000,
    ensures
        margin == margin_of(length as nat),
        margin <= 0x4000_0000,
{
    proof {
        lemma2_to64();
        lemma2_to64_rest();
        assert(length as nat / 1 == length);
        float::rounded_bound(length as nat, 1, 24, 32);
    }
    let single: u128 = float::round_ratio(length as u128, 1, 24);
    proof {
        let n = (single * MARGIN) as nat;
        assert(single as nat * MARGIN as nat == n) by (nonlinear_arith)
            requires
                n == single * MARGIN,
        ;
        assert(n / 1 == n);
        float::rounded_bound(n, 1, 24, 56);
    }
    let product: u128 = float::round_ratio(single * MARGIN as u128, 1, 24);
    ((product + 0x200_0000) / 0x400_0000) as u32
}

/// Where the overlay goes on a monitor.
pub fn overlay_position_for_monitor(
    monitor: MonitorGeometry,
    overlay_width: i32,
    overlay_height: i32,
) -> (position: (i32, i32))
    requires
        overlay_fits(monitor, overlay_width as int, overlay_height as int),
    ensures
        ({
            let target = overlay_target(monitor, overlay_width as int, overlay_height as int);
            &&& position.0 == larger(target.0, monitor.x as int)
            &&& position.1 == larger(target.1, monitor.y as int)
        }),
{
    let slack: i32 = monitor.width - overlay_width;
    let x: i32 = monitor.x + half(slack);
    let edge: i32 = monitor.y + monitor.height;
    let center_y: i32 = if monitor.height < 0 {
        edge + compute_margin((-(monitor.height as i64)) as u32) as i32
    } else {
        edge - compute_margin(monitor.height as u32) as i32
    };
    let y: i32 = center_y - half(overlay_height);
    (if x < monitor.x {
        monitor.x
    } else {
        x
    }, if y < monitor.y {
        monitor.y
    } else {
        y
    })
}

/// Half of a number, rounded down.
fn half(n: i32) -> (h: i32)
    ensures
        h == n as int / 2,
{
    if n >= 0 {
        n / 2
    } else {
        let low: i64 = n as i64;
        // Adding an even number keeps the half in step.
        ((low + 0x1_0000_0000) / 2 - 0x8000_0000) as i32
    }
}

/// The overlay never starts left of its monitor or above it; one that is no
/// wider than the monitor lies on it from side to side, as far from one side as
/// from the other, give or take a pixel.
pub proof fn overlay_is_centred(monitor: MonitorGeometry, width: int, height: int)
    requires
        0 <= width <= monitor.width,
    ensures
        ({
            let x = larger(overlay_target(monitor, width, height).0, monitor.x as int);
            let left = x - monitor.x;
            let right = monitor.x + monitor.width - (x + width);
            &&& 0 <= left <= right <= left + 1
        }),
{
}

/// On a monitor of up to a million pixels the margin is fifteen hundredths of the
/// height to the nearest pixel.
pub proof fn margin_is_fifteen_percent(height: nat)
    requires
        height <= 0x10_0000,
    ensures
        -10 <= 20 * margin_of(height) - 3 * height <= 10,
{
    lemma2_to64();
    lemma2_to64_rest();
    assert(height / 1 == height);
    if height == 0 {
        float::zero_rounds_to_zero(1, 24);
        assert(rounded(0, 1, 24) * MARGIN as nat == 0);
        assert(pow2(25) / pow2(26) == 0);
    } else {
        float::bit_length_bounds(height);
        short_is_exact(height);
        let n = height * MARGIN as nat;
        assert(n > 0) by (nonlinear_arith)
            requires
                n == height * MARGIN,
                height > 0,
        ;
        let p = rounded(n, 1, 24);
        single_error(n);
        assert(n <= 0x10_0000 * 10_066_330) by (nonlinear_arith)
            requires
                n == height * MARGIN,
                height <= 0x10_0000,
        ;
        assert(n == 10_066_330 * height) by (nonlinear_arith)
            requires
                n == height * MARGIN,
        ;
        let r = margin_of(height);
        assert(r == (p + 0x200_0000) / 0x400_0000);
    }
}

proof fn short_is_exact(n: nat)
    requires
        0 < n <= 0x10_0000,
    ensures
        rounded(n, 1, 24) == n,
{
    lemma2_to64();
    lemma2_to64_rest();
    assert(n / 1 == n);
    float::bit_length_bounds(n);
    if float::bit_length(n) > 24 {
        lemma_pow2_strictly_increases(23, (float::bit_length(n) - 1) as nat);
    }
    assert(float::excess(n, 24) == 0);
    assert(1 * pow2(0) == 1);
    assert(n % 1 == 0);
    assert(float::nearest(n, 1) == n);
}

/// Keeping 24 digits moves a number by no more than one part in 2^24.
proof fn single_error(n: nat)
    requires
        n > 0,
    ensures
        -(n as int) <= 0x100_0000 * (rounded(n, 1, 24) - n) <= n,
{
    lemma2_to64();
    lemma2_to64_rest();
    assert(n / 1 == n);
    let e = float::excess(n, 24);
    let unit = pow2(e);
    lemma_pow2_pos(e);
    assert(1 * unit == unit);
    float::bit_length_bounds(n);
    float::nearest_error(n, unit);
    if e == 0 {
        assert(unit == 1);
        assert(float::nearest(n, 1) == n) by {
            assert(n % 1 == 0);
        }
    } else {
        lemma_pow2_adds(23, e);
        assert(0x80_0000 * unit <= n);
        let p = float::nearest(n, unit) * unit;
        assert(p == rounded(n, 1, 24));
    }
}

/// The middle of a span, its half rounded towards its start.
pub open spec fn middle(start: int, length: int) -> int {
    if length < 0 {
        start - (-length) / 2
    } else {
        start + length / 2
    }
}

/// Whether a point lies on a monitor.
pub open spec fn covers(monitor: MonitorGeometry, x: int, y: int) -> bool {
    &&& monitor.x <= x < monitor.x + monitor.width
    &&& monitor.y <= y < monitor.y + monitor.height
}

/// Whether a point can be compared with the edges of a monitor, one after the
/// other until it is found to lie beyond one.
pub open spec fn comparable(monitor: MonitorGeometry, x: int, y: int) -> bool {
    &&& monitor.x <= x ==> fits(monitor.x + monitor.width)
    &&& monitor.x <= x < monitor.x + monitor.width && monitor.y <= y ==> fits(
        monitor.y + monitor.height,
    )
}

/// What stands for the only monitor where none is known.
pub open spec fn whole_display(size: (i32, i32)) -> MonitorGeometry {
    MonitorGeometry { x: 0, y: 0, width: size.0, height: size.1 }
}

/// The first of some monitors on which a point lies, else the first of all, else
/// the whole display.
pub open spec fn monitor_at(monitors: Seq<MonitorInfo>, size: (i32, i32), x: int, y: int) -> MonitorGeometry {
    if monitors.len() == 0 {
        whole_display(size)
    } else {
        match first_covering(monitors, x, y) {
            Some(monitor) => monitor,
            None => monitors[0].geometry,
        }
    }
}

/// The first of some monitors on which a point lies.
pub open spec fn first_covering(monitors: Seq<MonitorInfo>, x: int, y: int) -> Option<MonitorGeometry>
    decreases monitors.len(),
{
    if monitors.len() == 0 {
        None
    } else if covers(monitors[0].geometry, x, y) {
        Some(monitors[0].geometry)
    } else {
        first_covering(monitors.skip(1), x, y)
    }
}

/// Where a window lies, and how large it is.
#[derive(Debug, Clone, Copy, PartialEq, Eq, Structural)]
pub struct WindowBounds {
    pub x: i32,
    pub y: i32,
    pub width: i32,
    pub height: i32,
}

impl WindowBounds {
    /// The middle of the window.
    pub open spec fn center(self) -> (int, int) {
        (middle(self.x as int, self.width as int), middle(self.y as int, self.height as int))
    }
}

/// Where a window lies: its size, and its place on the whole screen, where both
/// are known.
pub fn window_bounds(size: Option<(u32, u32)>, place: Option<(i32, i32)>) -> (bounds: Option<
    WindowBounds,
>)
    ensures
        bounds == (match (size, place) {
            (Some(size), Some(place)) => Some(
                WindowBounds {
                    x: place.0,
                    y: place.1,
                    width: size.0 as i32,
                    height: size.1 as i32,
                },
            ),
            _ => None,
        }),
{
    match (size, place) {
        (Some(size), Some(place)) => Some(
            WindowBounds {
                x: place.0,
                y: place.1,
                width: #[verifier::truncate]
                (size.0 as i32),
                height: #[verifier::truncate]
                (size.1 as i32),
            },
        ),
        _ => None,
    }
}

/// Whether the middle of a window can be compared with each monitor up to the
/// first on which it lies.
pub open spec fn locatable(bounds: WindowBounds, monitors: Seq<MonitorInfo>) -> bool {
    let (x, y) = bounds.center();
    &&& fits(x)
    &&& fits(y)
    &&& forall|i: int|
        0 <= i < monitors.len() && first_covering(monitors.take(i), x, y) is None ==> comparable(
            (#[trigger] monitors[i]).geometry,
            x,
            y,
        )
}

/// Whether the monitor of a window can be told.
pub fn window_is_locatable(bounds: WindowBounds, monitors: &Vec<MonitorInfo>) -> (answer: bool)
    ensures
        answer == locatable(bounds, monitors@),
{
    let x: i64 = bounds.x as i64 + half_towards_zero(bounds.width) as i64;
    let y: i64 = bounds.y as i64 + half_towards_zero(bounds.height) as i64;
    if !is_i32(x) || !is_i32(y) {
        return false;
    }
    assert(monitors@.take(0) == Seq::<MonitorInfo>::empty());
    for i in 0..monitors.len()
        invariant
            (x as int, y as int) == bounds.center(),
            fits(x as int),
            fits(y as int),
            first_covering(monitors@.take(i as int), x as int, y as int) is None,
            forall|j: int|
                0 <= j < i ==> comparable((#[trigger] monitors@[j]).geometry, x as int, y as int),
    {
        let rect = monitors[i].geometry;
        let right: i64 = rect.x as i64 + rect.width as i64;
        let lower: i64 = rect.y as i64 + rect.height as i64;
        if x >= rect.x as i64 {
            if !is_i32(right) {
                assert(!comparable(monitors@[i as int].geometry, x as int, y as int));
                return false;
            }
            if x < right && y >= rect.y as i64 {
                if !is_i32(lower) {
                    assert(!comparable(monitors@[i as int].geometry, x as int, y as int));
                    return false;
                }
                if y < lower {
                    proof {
                        assert forall|j: int|
                            0 <= j < monitors@.len() && first_covering(
                                monitors@.take(j),
                                x as int,
                                y as int,
                            ) is None implies comparable(
                            (#[trigger] monitors@[j]).geometry,
                            x as int,
                            y as int,
                        ) by {
                            if j > i {
                                covering_is_among(monitors@.take(j), x as int, y as int);
                                assert(monitors@.take(j)[i as int] == monitors@[i as int]);
                            }
                        }
                    }
                    return true;
                }
            }
        }
        proof {
            covering_in_front(monitors@, i as int, x as int, y as int);
        }
    }
    true
}

/// Half of a number, rounded towards zero.
fn half_towards_zero(n: i32) -> (h: i32)
    ensures
        h == middle(0, n as int),
{
    if n < 0 {
        (-((-(n as i64)) / 2)) as i32
    } else {
        n / 2
    }
}

/// The monitor on which the middle of a window lies, else the first one; the
/// whole display where no monitor is known. There is none for a window that is
/// not known.
pub fn monitor_for_window(
    bounds: Option<WindowBounds>,
    monitors: &Vec<MonitorInfo>,
    display_size: (i32, i32),
) -> (monitor: Option<MonitorGeometry>)
    requires
        bounds matches Some(bounds) ==> locatable(bounds, monitors@),
    ensures
        monitor == (match bounds {
            Some(bounds) => Some(
                monitor_at(monitors@, display_size, bounds.center().0, bounds.center().1),
            ),
            None => None,
        }),
{
    let window = match bounds {
        Some(window) => window,
        None => {
            return None;
        },
    };
    let center_x: i32 = window.x + half_towards_zero(window.width);
    let center_y: i32 = window.y + half_towards_zero(window.height);
    if monitors.len() == 0 {
        return Some(
            MonitorGeometry { x: 0, y: 0, width: display_size.0, height: display_size.1 },
        );
    }
    assert(monitors@.skip(0) == monitors@);
    assert(monitors@.take(0) == Seq::<MonitorInfo>::empty());
    for i in 0..monitors.len()
        invariant
            monitors@.len() > 0,
            bounds == Some(window),
            center_x == window.center().0,
            center_y == window.center().1,
            first_covering(monitors@.take(i as int), center_x as int, center_y as int) is None,
            first_covering(monitors@, center_x as int, center_y as int) == first_covering(
                monitors@.skip(i as int),
                center_x as int,
                center_y as int,
            ),
            forall|j: int|
                0 <= j < monitors@.len() && first_covering(
                    monitors@.take(j),
                    center_x as int,
                    center_y as int,
                ) is None ==> comparable(
                    (#[trigger] monitors@[j]).geometry,
                    center_x as int,
                    center_y as int,
                ),
    {
        let rect = monitors[i].geometry;
        assert(comparable(monitors@[i as int].geometry, center_x as int, center_y as int));
        proof {
            assert(monitors@.skip(i as int)[0] == monitors@[i as int]);
            assert(monitors@.skip(i as int).skip(1) == monitors@.skip(i + 1));
        }
        if center_x >= rect.x && center_x < rect.x + rect.width && center_y >= rect.y && center_y
            < rect.y + rect.height {
            return Some(rect);
        }
        proof {
            covering_in_front(monitors@, i as int, center_x as int, center_y as int);
        }
    }
    Some(monitors[0].geometry)
}

proof fn covering_in_front(monitors: Seq<MonitorInfo>, i: int, x: int, y: int)
    requires
        0 <= i < monitors.len(),
        first_covering(monitors.take(i), x, y) is None,
        !covers(monitors[i].geometry, x, y),
    ensures
        first_covering(monitors.take(i + 1), x, y) is None,
    decreases i,
{
    let front = monitors.take(i + 1);
    if i == 0 {
        assert(front.skip(1) =~= Seq::<MonitorInfo>::empty());
        assert(front[0] == monitors[0]);
        assert(first_covering(front.skip(1), x, y) is None);
    } else {
        assert(monitors.skip(1)[i - 1] == monitors[i]);
        assert(monitors.take(i)[0] == monitors[0]);
        assert(front[0] == monitors[0]);
        assert(monitors.take(i).skip(1) =~= monitors.skip(1).take(i - 1));
        assert(front.skip(1) =~= monitors.skip(1).take(i));
        covering_in_front(monitors.skip(1), i - 1, x, y);
    }
}

/// The first of some monitors that is the primary one.
pub open spec fn first_primary(monitors: Seq<MonitorInfo>) -> Option<MonitorGeometry>
    decreases monitors.len(),
{
    if monitors.len() == 0 {
        None
    } else if monitors[0].primary {
        Some(monitors[0].geometry)
    } else {
        first_primary(monitors.skip(1))
    }
}

/// The primary monitor, else the first one, else the whole display.
pub open spec fn primary_of(monitors: Seq<MonitorInfo>, size: (i32, i32)) -> MonitorGeometry {
    if monitors.len() == 0 {
        whole_display(size)
    } else {
        match first_primary(monitors) {
            Some(monitor) => monitor,
            None => monitors[0].geometry,
        }
    }
}

/// The primary monitor, else the first one, else the whole display.
pub fn primary_monitor_for_root(monitors: &Vec<MonitorInfo>, display_size: (i32, i32)) -> (monitor:
    MonitorGeometry)
    ensures
        monitor == primary_of(monitors@, display_size),
{
    if monitors.len() == 0 {
        return MonitorGeometry { x: 0, y: 0, width: display_size.0, height: display_size.1 };
    }
    assert(monitors@.skip(0) == monitors@);
    for i in 0..monitors.len()
        invariant
            monitors@.len() > 0,
            first_primary(monitors@) == first_primary(monitors@.skip(i as int)),
    {
        proof {
            assert(monitors@.skip(i as int)[0] == monitors@[i as int]);
            assert(monitors@.skip(i as int).skip(1) == monitors@.skip(i + 1));
        }
        if monitors[i].primary {
            return monitors[i].geometry;
        }
    }
    monitors[0].geometry
}

/// The monitor for the overlay: the one of the active window where that window is
/// known, else the primary one.
pub fn focused_monitor_geometry(
    bounds: Option<WindowBounds>,
    monitors: &Vec<MonitorInfo>,
    display_size: (i32, i32),
) -> (monitor: MonitorGeometry)
    requires
        bounds matches Some(bounds) ==> locatable(bounds, monitors@),
    ensures
        monitor == (match bounds {
            Some(bounds) => monitor_at(
                monitors@,
                display_size,
                bounds.center().0,
                bounds.center().1,
            ),
            None => primary_of(monitors@, display_size),
        }),
{
    match monitor_for_window(bounds, monitors, display_size) {
        Some(monitor) => monitor,
        None => primary_monitor_for_root(monitors, display_size),
    }
}

proof fn covering_is_among(monitors: Seq<MonitorInfo>, x: int, y: int)
    ensures
        match first_covering(monitors, x, y) {
            Some(monitor) => covers(monitor, x, y) && exists|i: int|
                0 <= i < monitors.len() && (#[trigger] monitors[i]).geometry == monitor,
            None => forall|i: int|
                0 <= i < monitors.len() ==> !covers((#[trigger] monitors[i]).geometry, x, y),
        },
    decreases monitors.len(),
{
    if monitors.len() > 0 {
        let rest = monitors.skip(1);
        covering_is_among(rest, x, y);
        assert(forall|i: int| 0 <= i < rest.len() ==> rest[i] == monitors[i + 1]);
        assert(forall|i: int| 1 <= i < monitors.len() ==> monitors[i] == rest[i - 1]);
        if first_covering(rest, x, y) is Some && !covers(monitors[0].geometry, x, y) {
            let i = choose|i: int|
                0 <= i < rest.len() && (#[trigger] rest[i]).geometry == first_covering(
                    rest,
                    x,
                    y,
                )->0;
            assert(monitors[i + 1] == rest[i]);
        } else if covers(monitors[0].geometry, x, y) {
            assert(monitors[0].geometry == first_covering(monitors, x, y)->0);
        }
    }
}

/// A point that lies on some monitor is given a monitor on which it lies, and the
/// monitor that is given is always one of those that there are.
pub proof fn chosen_monitor_covers(monitors: Seq<MonitorInfo>, size: (i32, i32), x: int, y: int, k: int)
    requires
        0 <= k < monitors.len(),
    ensures
        covers(monitors[k].geometry, x, y) ==> covers(monitor_at(monitors, size, x, y), x, y),
        exists|i: int|
            0 <= i < monitors.len() && (#[trigger] monitors[i]).geometry == monitor_at(
                monitors,
                size,
                x,
                y,
            ),
{
    covering_is_among(monitors, x, y);
    assert(monitors[0].geometry == monitors[0].geometry);
}

/// The property of the screen that names the active window, as it was read: the
/// status, the format, how many items there are, and the first of them where the
/// server gave any data.
#[derive(Debug, Clone, Copy, PartialEq, Eq, Structural)]
pub struct WindowProperty {
    pub status: i32,
    pub format: i32,
    pub items: u64,
    pub window: Option<u64>,
}

/// The name of the property that names the active window, with a zero behind it.
pub fn active_window_atom_name() -> (name: &'static str)
    ensures
        name@ == "_NET_ACTIVE_WINDOW\0"@,
{
    "_NET_ACTIVE_WINDOW\0"
}

/// The window that a property names.
pub open spec fn named_window(property: Option<WindowProperty>) -> Option<u64> {
    match property {
        Some(p) => if p.status == 0 && p.window is Some && p.format == 32 && p.items > 0
            && p.window->0 != 0 {
            p.window
        } else {
            None
        },
        None => None,
    }
}

/// The active window: the one that the screen's property names, else the one that
/// has the input focus. The property is absent where the screen does not know its
/// name; the focus counts where the status of its query is 1.
pub fn active_window_for_display(
    property: Option<WindowProperty>,
    focus_status: i32,
    focused: u64,
) -> (window: Option<u64>)
    ensures
        window == (if named_window(property) is Some {
            named_window(property)
        } else if focus_status == 1 && focused != 0 {
            Some(focused)
        } else {
            None
        }),
{
    if let Some(property) = property {
        if let Some(window) = property.window {
            if property.status == 0 && property.format == 32 && property.items > 0 && window != 0 {
                return Some(window);
            }
        }
    }
    if focus_status == 1 && focused != 0 {
        Some(focused)
    } else {
        None
    }
}

/// A window with all those below it.
pub struct WindowTree {
    pub id: u64,
    pub title: Option<Seq<char>>,
    pub children: Seq<WindowTree>,
}

/// The first window with a title in a tree, a window before those below it.
pub open spec fn found_in_tree(tree: WindowTree, title: Seq<char>) -> Option<u64>
    decreases tree,
{
    if tree.title == Some(title) {
        Some(tree.id)
    } else {
        found_in_forest(tree.children, title)
    }
}

/// The first window with a title in some trees.
pub open spec fn found_in_forest(forest: Seq<WindowTree>, title: Seq<char>) -> Option<u64>
    decreases forest,
{
    if forest.len() == 0 {
        None
    } else {
        let first = found_in_tree(forest[0], title);
        if first is Some {
            first
        } else {
            found_in_forest(forest.subrange(1, forest.len() as int), title)
        }
    }
}

/// A search for a window by its title: the windows that are still to be looked
/// at, the next one last.
#[derive(Debug)]
pub struct WindowSearch {
    pub title: String,
    pub stack: Vec<u64>,
}

/// What comes of looking at a window.
#[derive(Debug, Clone, Copy, PartialEq, Eq, Structural)]
pub enum SearchStep {
    /// This is the window.
    Found(u64),
    /// This window is to be looked at next.
    Look(u64),
    /// There is no such window.
    Missing,
}

proof fn child_is_pushed(rest: Seq<u64>, children: Seq<u64>, k: int)
    requires
        0 < k <= children.len(),
    ensures
        (rest + children.skip(k).reverse()).push(children[k - 1]) == rest + children.skip(
            k - 1,
        ).reverse(),
{
    assert((rest + children.skip(k).reverse()).push(children[k - 1]) =~= rest + children.skip(
        k - 1,
    ).reverse());
}

proof fn children_come_first(rest: Seq<u64>, children: Seq<u64>)
    ensures
        (rest + children.reverse()).reverse() == children + rest.reverse(),
{
    assert((rest + children.reverse()).reverse() =~= children + rest.reverse());
}

/// Puts windows on a stack so that the first of them comes off first.
fn push_children(stack: &mut Vec<u64>, children: &Vec<u64>)
    ensures
        final(stack)@.reverse() == children@ + old(stack)@.reverse(),
{
    let ghost rest = stack@;
    let mut k: usize = children.len();
    assert(rest + children@.skip(k as int).reverse() =~= rest);
    while k > 0
        invariant
            k <= children@.len(),
            stack@ == rest + children@.skip(k as int).reverse(),
        decreases k,
    {
        proof {
            child_is_pushed(rest, children@, k as int);
        }
        k = k - 1;
        stack.push(children[k]);
    }
    proof {
        assert(children@.skip(0) == children@);
        children_come_first(rest, children@);
    }
}

impl WindowSearch {
    /// The windows that are still to be looked at, the next one first.
    pub open spec fn pending(self) -> Seq<u64> {
        self.stack@.reverse()
    }

    /// Whether the windows that are still to be looked at are those of some trees.
    pub open spec fn covers(self, forest: Seq<WindowTree>) -> bool {
        self.pending() == forest.map_values(|tree: WindowTree| tree.id)
    }

    /// The step with which the search goes on.
    pub open spec fn next_step(self) -> SearchStep {
        if self.pending().len() == 0 {
            SearchStep::Missing
        } else {
            SearchStep::Look(self.pending()[0])
        }
    }

    /// Begins a search below a window, that window included.
    pub fn new(root: u64, title: &str) -> (search: Self)
        ensures
            search.title@ == title@,
            search.pending() == seq![root],
    {
        let mut stack: Vec<u64> = Vec::new();
        stack.push(root);
        let search = WindowSearch { title: title.to_owned(), stack };
        assert(search.pending() =~= seq![root]);
        search
    }

    /// Takes what is known of the next window: its title, and the windows below
    /// it where they could be asked for.
    pub fn find_window_by_title(&mut self, title: Option<String>, children: Option<Vec<u64>>) -> (step:
        SearchStep)
        requires
            old(self).pending().len() > 0,
        ensures
            final(self).title == old(self).title,
            title matches Some(t) && t@ == old(self).title@ ==> step == SearchStep::Found(
                old(self).pending()[0],
            ) && *final(self) == *old(self),
            !(title matches Some(t) && t@ == old(self).title@) ==> {
                &&& final(self).pending() == (match children {
                    Some(children) => children@,
                    None => Seq::empty(),
                }) + old(self).pending().skip(1)
                &&& step == final(self).next_step()
            },
    {
        let ghost before = self.stack@;
        let window: u64 = self.stack[self.stack.len() - 1];
        assert(self.pending()[0] == window);
        if let Some(title) = title {
            if text::same_text(title.as_str(), self.title.as_str()) {
                return SearchStep::Found(window);
            }
        }
        let _ = self.stack.pop();
        let ghost rest = self.stack@;
        assert(rest.reverse() =~= before.reverse().skip(1));
        if let Some(children) = children {
            push_children(&mut self.stack, &children);
        } else {
            assert(Seq::<u64>::empty() + rest.reverse() =~= rest.reverse());
        }
        let n: usize = self.stack.len();
        if n == 0 {
            SearchStep::Missing
        } else {
            assert(self.pending()[0] == self.stack@[n - 1]);
            SearchStep::Look(self.stack[n - 1])
        }
    }
}

/// How many windows some trees have.
pub open spec fn window_count(forest: Seq<WindowTree>) -> nat
    decreases forest,
{
    if forest.len() == 0 {
        0
    } else {
        1 + window_count(forest[0].children) + window_count(
            forest.subrange(1, forest.len() as int),
        )
    }
}

proof fn forests_join(a: Seq<WindowTree>, b: Seq<WindowTree>, title: Seq<char>)
    ensures
        found_in_forest(a + b, title) == (if found_in_forest(a, title) is Some {
            found_in_forest(a, title)
        } else {
            found_in_forest(b, title)
        }),
        window_count(a + b) == window_count(a) + window_count(b),
    decreases a.len(),
{
    if a.len() == 0 {
        assert(a + b =~= b);
    } else {
        let rest = a.subrange(1, a.len() as int);
        assert((a + b)[0] == a[0]);
        assert((a + b).subrange(1, (a + b).len() as int) =~= rest + b);
        forests_join(rest, b, title);
    }
}

/// The trees that are left after a look at the first window of some.
pub open spec fn trees_left(forest: Seq<WindowTree>) -> Seq<WindowTree> {
    forest[0].children + forest.subrange(1, forest.len() as int)
}

/// A look at a window leaves fewer windows to look at, so that a search ends.
pub proof fn look_leaves_fewer(forest: Seq<WindowTree>)
    requires
        forest.len() > 0,
    ensures
        window_count(trees_left(forest)) < window_count(forest),
{
    forests_join(
        forest[0].children,
        forest.subrange(1, forest.len() as int),
        Seq::empty(),
    );
}

/// What a search gives in the end: it looks at the first window of what is left,
/// and goes on with the windows below it and then the others, until one has the
/// title or none is left.
pub open spec fn searched(forest: Seq<WindowTree>, title: Seq<char>) -> Option<u64>
    decreases window_count(forest),
{
    if forest.len() == 0 {
        None
    } else if forest[0].title == Some(title) {
        Some(forest[0].id)
    } else {
        proof {
            look_leaves_fewer(forest);
        }
        searched(trees_left(forest), title)
    }
}

/// A search that describes each window as it is finds the first one with the
/// title, a window before those below it, and none exactly where there is none.
pub proof fn search_finds_the_first(forest: Seq<WindowTree>, title: Seq<char>)
    ensures
        searched(forest, title) == found_in_forest(forest, title),
    decreases window_count(forest),
{
    if forest.len() > 0 {
        let rest = forest.subrange(1, forest.len() as int);
        forests_join(forest[0].children, rest, title);
        reveal_with_fuel(found_in_tree, 2);
        reveal_with_fuel(found_in_forest, 2);
        if forest[0].title != Some(title) {
            look_leaves_fewer(forest);
            search_finds_the_first(trees_left(forest), title);
        }
    }
}

/// After a step the windows that are still to be looked at are those below the
/// one that was looked at, then the others.
pub proof fn search_covers_the_rest(
    before: WindowSearch,
    after: WindowSearch,
    forest: Seq<WindowTree>,
    children: Seq<u64>,
)
    requires
        before.covers(forest),
        forest.len() > 0,
        children == forest[0].children.map_values(|tree: WindowTree| tree.id),
        after.pending() == children + before.pending().skip(1),
    ensures
        after.covers(trees_left(forest)),
{
    assert(after.pending() =~= trees_left(forest).map_values(|tree: WindowTree| tree.id));
}

/// Whatever the height, the margin is fifteen hundredths of it, but for half a
/// pixel and less than a millionth of the height; a negative height has the
/// opposite margin.
pub proof fn margin_is_near_fifteen_percent(height: nat)
    ensures
        ({
            let gap = 20 * margin(height as int) - 3 * height;
            &&& 0x40_0000 * gap <= 10 * 0x40_0000 + 3 * height
            &&& 0x40_0000 * gap >= -10 * 0x40_0000 - 3 * height
        }),
        margin(-height) == -margin(height as int),
{
    lemma2_to64();
    lemma2_to64_rest();
    float::rounding_error(height, 1, 24);
    let r = rounded(height, 1, 24);
    let n = r * MARGIN as nat;
    float::rounding_error(n, 1, 24);
    let p = rounded(n, 1, 24);
    let m = margin_of(height);
    assert(m == (p + 0x200_0000) / 0x400_0000);
    assert(n == 10_066_330 * r) by (nonlinear_arith)
        requires
            n == r * MARGIN,
    ;
    if height == 0 {
        float::zero_rounds_to_zero(1, 24);
        assert(m == 0);
    }
}

/// An overlay that is as wide as its monitor or wider starts at its left edge, and
/// one that is not stands in the middle of the width, give or take a pixel. The
/// middle of its height lies the margin above the lower edge of the monitor, or
/// lower where it would begin above the monitor; then it begins at the upper edge.
pub proof fn overlay_stands_above_the_lower_edge(
    monitor: MonitorGeometry,
    width: int,
    height: int,
)
    ensures
        ({
            let target = overlay_target(monitor, width, height);
            let x = larger(target.0, monitor.x as int);
            let y = larger(target.1, monitor.y as int);
            let above = monitor.y + monitor.height - (y + height / 2);
            let left = x - monitor.x;
            let right = monitor.x + monitor.width - (x + width);
            &&& width >= monitor.width ==> x == monitor.x
            &&& width <= monitor.width ==> 0 <= left <= right <= left + 1
            &&& y >= monitor.y
            &&& y > monitor.y ==> above == margin(monitor.height as int)
            &&& y == monitor.y ==> above <= margin(monitor.height as int)
        }),
{
}

/// The place of an overlay can be told on every monitor of an ordinary size.
pub proof fn ordinary_overlays_have_a_place(monitor: MonitorGeometry, width: int, height: int)
    requires
        -0x1000_0000 <= monitor.x <= 0x1000_0000,
        -0x1000_0000 <= monitor.y <= 0x1000_0000,
        0 <= monitor.width <= 0x1000_0000,
        0 <= monitor.height <= 0x1000_0000,
        0 <= width <= 0x1000_0000,
        0 <= height <= 0x1000_0000,
    ensures
        overlay_fits(monitor, width, height),
{
    margin_is_near_fifteen_percent(monitor.height as nat);
}

/// The middle of a window lies as far from its start as from its end, give or take
/// a pixel.
pub proof fn middle_is_between(start: int, length: int)
    ensures
        length >= 0 ==> 2 * (middle(start, length) - start) <= length < 2 * (middle(start, length)
            - start) + 2,
        length < 0 ==> 2 * (middle(start, length) - start) - 2 < length <= 2 * (middle(
            start,
            length,
        ) - start),
{
}

/// A window is on the first of the monitors on which its middle lies: not beyond
/// any of the four edges. Where there is none it is the first of all, and where
/// there are no monitors the whole display.
pub proof fn first_monitor_under_the_middle_is_taken(
    bounds: WindowBounds,
    monitors: Seq<MonitorInfo>,
    size: (i32, i32),
    k: int,
)
    requires
        0 <= k < monitors.len(),
    ensures
        ({
            let x = middle(bounds.x as int, bounds.width as int);
            let y = middle(bounds.y as int, bounds.height as int);
            let given = monitor_at(monitors, size, bounds.center().0, bounds.center().1);
            let lies = |i: int|
                monitors[i].geometry.x <= x && x < monitors[i].geometry.x
                    + monitors[i].geometry.width && monitors[i].geometry.y <= y && y
                    < monitors[i].geometry.y + monitors[i].geometry.height;
            &&& lies(k) && (forall|j: int| 0 <= j < k ==> !#[trigger] lies(j)) ==> given
                == monitors[k].geometry
            &&& (forall|j: int| 0 <= j < monitors.len() ==> !#[trigger] lies(j)) ==> given
                == monitors[0].geometry
        }),
        monitor_at(Seq::empty(), size, bounds.center().0, bounds.center().1) == (MonitorGeometry {
            x: 0,
            y: 0,
            width: size.0,
            height: size.1,
        }),
{
    let x = middle(bounds.x as int, bounds.width as int);
    let y = middle(bounds.y as int, bounds.height as int);
    let lies = |i: int|
        monitors[i].geometry.x <= x && x < monitors[i].geometry.x + monitors[i].geometry.width
            && monitors[i].geometry.y <= y && y < monitors[i].geometry.y
            + monitors[i].geometry.height;
    covering_is_among(monitors, x, y);
    if lies(k) && (forall|j: int| 0 <= j < k ==> !#[trigger] lies(j)) {
        assert forall|j: int| 0 <= j < k implies !covers((#[trigger] monitors[j]).geometry, x, y) by {
            assert(!lies(j));
        }
        covering_is_first(monitors, x, y, k);
    }
    if forall|j: int| 0 <= j < monitors.len() ==> !#[trigger] lies(j) {
        if first_covering(monitors, x, y) is Some {
            let i = choose|i: int|
                0 <= i < monitors.len() && (#[trigger] monitors[i]).geometry == first_covering(
                    monitors,
                    x,
                    y,
                )->0;
            assert(!lies(i));
        }
    }
}

proof fn covering_is_first(monitors: Seq<MonitorInfo>, x: int, y: int, k: int)
    requires
        0 <= k < monitors.len(),
        covers(monitors[k].geometry, x, y),
        forall|j: int| 0 <= j < k ==> !covers((#[trigger] monitors[j]).geometry, x, y),
    ensures
        first_covering(monitors, x, y) == Some(monitors[k].geometry),
    decreases k,
{
    if k > 0 {
        let rest = monitors.skip(1);
        assert(!covers(monitors[0].geometry, x, y));
        assert(rest[k - 1] == monitors[k]);
        assert forall|j: int| 0 <= j < k - 1 implies !covers((#[trigger] rest[j]).geometry, x, y) by {
            assert(rest[j] == monitors[j + 1]);
        }
        covering_is_first(rest, x, y, k - 1);
    }
}

/// Without a window the overlay goes to the first monitor that is primary, where
/// none is to the first of all, and where there are none to the whole display.
pub proof fn first_primary_monitor_is_taken(monitors: Seq<MonitorInfo>, size: (i32, i32), k: int)
    requires
        0 <= k < monitors.len(),
    ensures
        monitors[k].primary && (forall|j: int| 0 <= j < k ==> !(#[trigger] monitors[j]).primary)
            ==> primary_of(monitors, size) == monitors[k].geometry,
        (forall|j: int| 0 <= j < monitors.len() ==> !(#[trigger] monitors[j]).primary)
            ==> primary_of(monitors, size) == monitors[0].geometry,
        primary_of(Seq::empty(), size) == (MonitorGeometry {
            x: 0,
            y: 0,
            width: size.0,
            height: size.1,
        }),
{
    if monitors[k].primary && (forall|j: int| 0 <= j < k ==> !(#[trigger] monitors[j]).primary) {
        primary_is_first(monitors, k);
    }
    if forall|j: int| 0 <= j < monitors.len() ==> !(#[trigger] monitors[j]).primary {
        no_primary(monitors);
    }
}

proof fn primary_is_first(monitors: Seq<MonitorInfo>, k: int)
    requires
        0 <= k < monitors.len(),
        monitors[k].primary,
        forall|j: int| 0 <= j < k ==> !(#[trigger] monitors[j]).primary,
    ensures
        first_primary(monitors) == Some(monitors[k].geometry),
    decreases k,
{
    if k > 0 {
        let rest = monitors.skip(1);
        assert(!monitors[0].primary);
        assert(rest[k - 1] == monitors[k]);
        assert forall|j: int| 0 <= j < k - 1 implies !(#[trigger] rest[j]).primary by {
            assert(rest[j] == monitors[j + 1]);
        }
        primary_is_first(rest, k - 1);
    }
}

proof fn no_primary(monitors: Seq<MonitorInfo>)
    requires
        forall|j: int| 0 <= j < monitors.len() ==> !(#[trigger] monitors[j]).primary,
    ensures
        first_primary(monitors) is None,
    decreases monitors.len(),
{
    if monitors.len() > 0 {
        let rest = monitors.skip(1);
        assert(!monitors[0].primary);
        assert forall|j: int| 0 <= j < rest.len() implies !(#[trigger] rest[j]).primary by {
            assert(rest[j] == monitors[j + 1]);
        }
        no_primary(rest);
    }
}

/// The monitor of a window can be told for every window and monitors of an
/// ordinary size.
pub proof fn ordinary_windows_have_a_monitor(bounds: WindowBounds, monitors: Seq<MonitorInfo>)
    requires
        -0x1000_0000 <= bounds.x <= 0x1000_0000,
        -0x1000_0000 <= bounds.y <= 0x1000_0000,
        -0x1000_0000 <= bounds.width <= 0x1000_0000,
        -0x1000_0000 <= bounds.height <= 0x1000_0000,
        forall|i: int|
            0 <= i < monitors.len() ==> ({
                let rect = (#[trigger] monitors[i]).geometry;
                &&& -0x1000_0000 <= rect.x <= 0x1000_0000
                &&& -0x1000_0000 <= rect.y <= 0x1000_0000
                &&& -0x1000_0000 <= rect.width <= 0x1000_0000
                &&& -0x1000_0000 <= rect.height <= 0x1000_0000
            }),
    ensures
        locatable(bounds, monitors),
{
}

/// The screen's property names a window exactly when it was read without error, in
/// items of 32 bits, at least one, and the first of them is no zero.
pub proof fn property_names_a_window(property: WindowProperty)
    ensures
        named_window(None) is None,
        named_window(Some(property)) is Some <==> property.status == 0 && property.format == 32
            && property.items > 0 && property.window is Some && property.window != Some(0u64),
        named_window(Some(property)) is Some ==> named_window(Some(property)) == property.window,
{
}

/// A search goes on with the window that was put on the stack last, and ends
/// where none is left.
pub proof fn search_takes_the_last_put(search: WindowSearch)
    ensures
        search.stack@.len() == 0 ==> search.next_step() == SearchStep::Missing,
        search.stack@.len() > 0 ==> search.next_step() == SearchStep::Look(
            search.stack@[search.stack@.len() - 1],
        ),
        search.pending().len() == search.stack@.len(),
        forall|i: int|
            0 <= i < search.stack@.len() ==> #[trigger] search.pending()[i]
                == search.stack@[search.stack@.len() - 1 - i],
{
}

/// The margin is computed in single precision: the height, then its product with
/// the number nearest to 0.15, which is 10066330 times 2^-26, and then the nearest
/// whole number, halves upwards.
pub proof fn margin_is_rounded_at_every_step(height: nat)
    ensures
        ({
            let product = rounded(rounded(height, 1, 24) * 10_066_330, 1, 24);
            let m = margin(height as int);
            2 * product < (2 * m + 1) * 0x400_0000 && (2 * m - 1) * 0x400_0000 <= 2 * product
        }),
{
    lemma2_to64();
    let r = rounded(height, 1, 24);
    assert(r * MARGIN as nat == r * 10_066_330) by (nonlinear_arith)
        requires
            MARGIN == 10_066_330,
    ;
}

} // verus!
