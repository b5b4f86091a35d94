//! The borderless player window: where a pointer position falls on the
//! window's edges, the messages that the page sends, and what each message
//! does to the window.
use vstd::prelude::*;
use crate::duration::{all_digits, digits_value, is_digit};
use crate::text::{chars_of, slice_vec, starts_with_exec, string_of};

verus! {

broadcast use vstd::string::group_string_axioms;

/// Where a pointer position falls: inside, on an edge or corner, or on two
/// opposite edges at once (a window too small to tell).
#[derive(Debug, Clone, Copy, PartialEq, Eq)]
pub enum HitTestResult {
    Client,
    Left,
    Right,
    Top,
    Bottom,
    TopLeft,
    TopRight,
    BottomLeft,
    BottomRight,
    NoWhere,
}

pub open spec fn hit_of(left: bool, right: bool, top: bool, bottom: bool) -> HitTestResult {
    if (left && right) || (top && bottom) {
        HitTestResult::NoWhere
    } else if top {
        if left {
            HitTestResult::TopLeft
        } else if right {
            HitTestResult::TopRight
        } else {
            HitTestResult::Top
        }
    } else if bottom {
        if left {
            HitTestResult::BottomLeft
        } else if right {
            HitTestResult::BottomRight
        } else {
            HitTestResult::Bottom
        }
    } else if left {
        HitTestResult::Left
    } else if right {
        HitTestResult::Right
    } else {
        HitTestResult::Client
    }
}

/// Classifies a position in a window of the given size, with resize borders
/// `inset` pixels wide.
pub fn hit_test(width: u32, height: u32, x: i32, y: i32, inset: i32) -> (r: HitTestResult)
    requires
        i32::MIN <= (width as i32) - inset <= i32::MAX,
        i32::MIN <= (height as i32) - inset <= i32::MAX,
    ensures
        r == hit_of(
            x < inset,
            x >= (width as i32) - inset,
            y < inset,
            y >= (height as i32) - inset,
        ),
{
    let right = width as i32;
    let bottom = height as i32;
    let l = x < inset;
    let r = x >= right - inset;
    let t = y < inset;
    let b = y >= bottom - inset;
    if (l && r) || (t && b) {
        HitTestResult::NoWhere
    } else if t {
        if l {
            HitTestResult::TopLeft
        } else if r {
            HitTestResult::TopRight
        } else {
            HitTestResult::Top
        }
    } else if b {
        if l {
            HitTestResult::BottomLeft
        } else if r {
            HitTestResult::BottomRight
        } else {
            HitTestResult::Bottom
        }
    } else if l {
        HitTestResult::Left
    } else if r {
        HitTestResult::Right
    } else {
        HitTestResult::Client
    }
}

/// What the page asks of the window.
#[derive(Debug, Clone, Copy, PartialEq, Eq)]
pub enum UserEvent {
    Minimize,
    Maximize,
    ToggleFullscreen,
    ToggleCompact,
    DragWindow,
    CloseWindow,
    MouseDown(i32, i32),
    MouseMove(i32, i32),
}

/// A message from the page: a line to log, an error to log, a request to the
/// window, or nothing that the window knows.
#[derive(Debug, Clone, PartialEq, Eq)]
pub enum IpcMessage {
    Log(String),
    Error(String),
    Event(UserEvent),
    Ignored,
}

/// What `str::parse::<i32>` accepts: an optional sign and decimal digits that fit.
pub open spec fn parsed_i32(t: Seq<char>) -> Option<i32> {
    let neg = t.len() > 0 && t[0] == '-';
    let body = if t.len() > 0 && (t[0] == '+' || t[0] == '-') {
        t.drop_first()
    } else {
        t
    };
    if body.len() > 0 && all_digits(body) && (if neg {
        digits_value(body) <= 2147483648
    } else {
        digits_value(body) <= 2147483647
    }) {
        Some(
            if neg {
                (0 - digits_value(body)) as i32
            } else {
                digits_value(body) as i32
            },
        )
    } else {
        None
    }
}

proof fn lemma_digits_prefix(s: Seq<char>, n: int)
    requires
        0 <= n <= s.len(),
        all_digits(s),
    ensures
        digits_value(s.take(n)) <= digits_value(s),
    decreases s.len() - n,
{
    if n < s.len() {
        lemma_digits_prefix(s, n + 1);
        assert(s.take(n + 1).drop_last() =~= s.take(n));
        assert(is_digit(s[n]));
    } else {
        assert(s.take(n) =~= s);
    }
}

pub fn parse_i32(t: &Vec<char>) -> (r: Option<i32>)
    ensures
        r == parsed_i32(t@),
{
    let neg = t.len() > 0 && t[0] == '-';
    let body = if t.len() > 0 && (t[0] == '+' || t[0] == '-') {
        let b = slice_vec(t, 1, t.len());
        assert(b@ =~= t@.drop_first());
        b
    } else {
        t.clone()
    };
    if body.len() == 0 {
        return None;
    }
    let limit: u64 = if neg {
        2147483648
    } else {
        2147483647
    };
    let mut acc: u64 = 0;
    let mut i: usize = 0;
    while i < body.len()
        invariant
            i <= body.len(),
            body@.len() > 0,
            neg == (t@.len() > 0 && t@[0] == '-'),
            body@ == (if t@.len() > 0 && (t@[0] == '+' || t@[0] == '-') {
                t@.drop_first()
            } else {
                t@
            }),
            limit == if neg { 2147483648u64 } else { 2147483647u64 },
            all_digits(body@.take(i as int)),
            acc == digits_value(body@.take(i as int)),
            acc <= limit,
        decreases body.len() - i,
    {
        let c = body[i];
        if !('0' <= c && c <= '9') {
            assert(!is_digit(body@[i as int]));
            assert(!all_digits(body@));
            return None;
        }
        proof {
            assert(body@.take(i + 1).drop_last() =~= body@.take(i as int));
            assert(body@.take(i + 1).last() == c);
        }
        let next = acc * 10 + ((c as u64) - 48);
        if next > limit {
            proof {
                if all_digits(body@) {
                    lemma_digits_prefix(body@, i + 1);
                }
            }
            return None;
        }
        acc = next;
        i += 1;
        assert(all_digits(body@.take(i as int))) by {
            assert forall|j: int| 0 <= j < i implies is_digit(#[trigger] body@.take(i as int)[j]) by {
                if j < i - 1 {
                    assert(body@.take(i as int)[j] == body@.take(i - 1)[j]);
                }
            }
        }
    }
    assert(body@.take(body.len() as int) =~= body@);
    if neg {
        Some((0 - (acc as i64)) as i32)
    } else {
        Some(acc as i32)
    }
}

/// The message's pieces between `:` and `,` characters.
pub open spec fn command_parts(s: Seq<char>) -> Seq<Seq<char>>
    decreases s.len(),
{
    if s.len() == 0 {
        seq![seq![]]
    } else {
        let rest = command_parts(s.drop_last());
        if s.last() == ':' || s.last() == ',' {
            rest.push(seq![])
        } else {
            rest.drop_last().push(rest.last().push(s.last()))
        }
    }
}

proof fn lemma_command_parts_nonempty(s: Seq<char>)
    ensures
        command_parts(s).len() > 0,
    decreases s.len(),
{
    if s.len() > 0 {
        lemma_command_parts_nonempty(s.drop_last());
    }
}

fn command_parts_exec(s: &Vec<char>) -> (r: Vec<Vec<char>>)
    ensures
        crate::text::views(r@) == command_parts(s@),
{
    let mut parts: Vec<Vec<char>> = Vec::new();
    parts.push(Vec::new());
    assert(crate::text::views(parts@) =~= seq![seq![]]);
    let mut i: usize = 0;
    while i < s.len()
        invariant
            i <= s.len(),
            parts@.len() > 0,
            crate::text::views(parts@) == command_parts(s@.take(i as int)),
        decreases s.len() - i,
    {
        let c = s[i];
        proof {
            assert(s@.take(i + 1).drop_last() =~= s@.take(i as int));
            assert(s@.take(i + 1).last() == c);
        }
        let ghost before = crate::text::views(parts@);
        if c == ':' || c == ',' {
            parts.push(Vec::new());
            assert(crate::text::views(parts@) =~= before.push(seq![]));
        } else {
            let mut last = parts.pop().unwrap();
            last.push(c);
            parts.push(last);
            assert(crate::text::views(parts@) =~= before.drop_last().push(before.last().push(c)));
        }
        i += 1;
    }
    assert(s@.take(s.len() as int) =~= s@);
    parts
}

/// The pointer event that a `mousedown`/`mousemove` message with two
/// coordinates gives.
pub open spec fn pointer_event(parts: Seq<Seq<char>>, down: bool) -> Option<UserEvent> {
    if parts.len() >= 3 {
        match (parsed_i32(parts[1]), parsed_i32(parts[2])) {
            (Some(x), Some(y)) => Some(
                if down {
                    UserEvent::MouseDown(x, y)
                } else {
                    UserEvent::MouseMove(x, y)
                },
            ),
            _ => None,
        }
    } else {
        None
    }
}

/// The window request that a command names.
pub open spec fn event_of(parts: Seq<Seq<char>>) -> Option<UserEvent> {
    let cmd = parts[0];
    if cmd == "minimize"@ {
        Some(UserEvent::Minimize)
    } else if cmd == "maximize"@ {
        Some(UserEvent::Maximize)
    } else if cmd == "toggle_fullscreen"@ {
        Some(UserEvent::ToggleFullscreen)
    } else if cmd == "toggle_compact"@ {
        Some(UserEvent::ToggleCompact)
    } else if cmd == "drag_window"@ {
        Some(UserEvent::DragWindow)
    } else if cmd == "close"@ {
        Some(UserEvent::CloseWindow)
    } else if cmd == "mousedown"@ {
        pointer_event(parts, true)
    } else if cmd == "mousemove"@ {
        pointer_event(parts, false)
    } else {
        None
    }
}

/// What a message from the page asks for.
pub open spec fn message_of(body: Seq<char>) -> IpcMessage {
    if "client_log:"@.is_prefix_of(body) {
        IpcMessage::Log(arbitrary())
    } else if "client_error:"@.is_prefix_of(body) {
        IpcMessage::Error(arbitrary())
    } else {
        match event_of(command_parts(body)) {
            Some(e) => IpcMessage::Event(e),
            None => IpcMessage::Ignored,
        }
    }
}

/// The logged text of a log or error message.
pub open spec fn logged_text(body: Seq<char>) -> Seq<char> {
    if "client_log:"@.is_prefix_of(body) {
        body.skip("client_log:"@.len() as int)
    } else {
        body.skip("client_error:"@.len() as int)
    }
}

pub open spec fn same_message(m: IpcMessage, body: Seq<char>) -> bool {
    match (m, message_of(body)) {
        (IpcMessage::Log(t), IpcMessage::Log(_)) => t@ == logged_text(body),
        (IpcMessage::Error(t), IpcMessage::Error(_)) => t@ == logged_text(body),
        (IpcMessage::Event(a), IpcMessage::Event(b)) => a == b,
        (IpcMessage::Ignored, IpcMessage::Ignored) => true,
        _ => false,
    }
}

fn is_word(v: &Vec<char>, w: &str) -> (r: bool)
    ensures
        r == (v@ == w@),
{
    crate::text::eq_vec(v, &chars_of(w))
}

fn pointer_event_exec(parts: &Vec<Vec<char>>, down: bool) -> (r: Option<UserEvent>)
    ensures
        r == pointer_event(crate::text::views(parts@), down),
{
    if parts.len() >= 3 {
        match (parse_i32(&parts[1]), parse_i32(&parts[2])) {
            (Some(x), Some(y)) => Some(
                if down {
                    UserEvent::MouseDown(x, y)
                } else {
                    UserEvent::MouseMove(x, y)
                },
            ),
            _ => None,
        }
    } else {
        None
    }
}

/// Reads a message that the page sent to the window.
pub fn parse_ipc_message(body: &str) -> (r: IpcMessage)
    ensures
        same_message(r, body@),
{
    let b = chars_of(body);
    let log_tag = chars_of("client_log:");
    let err_tag = chars_of("client_error:");
    if starts_with_exec(&b, &log_tag) {
        let rest = slice_vec(&b, log_tag.len(), b.len());
        assert(rest@ =~= body@.skip("client_log:"@.len() as int));
        return IpcMessage::Log(string_of(&rest));
    }
    if starts_with_exec(&b, &err_tag) {
        let rest = slice_vec(&b, err_tag.len(), b.len());
        assert(rest@ =~= body@.skip("client_error:"@.len() as int));
        return IpcMessage::Error(string_of(&rest));
    }
    let parts = command_parts_exec(&b);
    proof {
        lemma_command_parts_nonempty(b@);
    }
    let cmd = &parts[0];
    let event = if is_word(cmd, "minimize") {
        Some(UserEvent::Minimize)
    } else if is_word(cmd, "maximize") {
        Some(UserEvent::Maximize)
    } else if is_word(cmd, "toggle_fullscreen") {
        Some(UserEvent::ToggleFullscreen)
    } else if is_word(cmd, "toggle_compact") {
        Some(UserEvent::ToggleCompact)
    } else if is_word(cmd, "drag_window") {
        Some(UserEvent::DragWindow)
    } else if is_word(cmd, "close") {
        Some(UserEvent::CloseWindow)
    } else if is_word(cmd, "mousedown") {
        pointer_event_exec(&parts, true)
    } else if is_word(cmd, "mousemove") {
        pointer_event_exec(&parts, false)
    } else {
        None
    };
    assert(event == event_of(command_parts(b@)));
    match event {
        Some(e) => IpcMessage::Event(e),
        None => IpcMessage::Ignored,
    }
}


// ---------------------------------------------------------------- window modes

/// The window's remembered mode: the compact (always-on-top, small) player,
/// and whether leaving full screen maximizes again.
#[derive(Debug, Clone, Copy, PartialEq, Eq)]
pub struct WindowMode {
    pub compact: bool,
    pub restore_maximized_after_fullscreen: bool,
}

/// What the window reports of itself when a request comes.
#[derive(Debug, Clone, Copy, PartialEq, Eq)]
pub struct WindowState {
    pub fullscreen: bool,
    pub maximized: bool,
}

/// What the window is to do.
#[derive(Debug, Clone, Copy, PartialEq, Eq)]
pub enum WindowAction {
    SetMinimized,
    SetMaximized(bool),
    SetFullscreen(bool),
    SetAlwaysOnTop(bool),
    /// Restore the size saved on entering the compact player, if one is saved.
    RestoreCompactSize,
    /// Restore the position saved on entering the compact player, if one is saved.
    RestoreCompactPosition,
    /// Keep the window's inner size at least this many logical pixels wide and high.
    SetMinLogicalSize(u32, u32),
    /// Save the current size and position for leaving the compact player.
    SaveCompactRestore,
    /// Set the window's inner size to this many logical pixels.
    SetLogicalSize(u32, u32),
    /// Move to the bottom right corner of the current monitor.
    MoveToCorner,
    DragWindow,
    /// Start resizing from the edge under this position, if it is on one.
    DragResize(i32, i32),
    /// Show the cursor for the edge under this position.
    ChangeCursor(i32, i32),
    Exit,
}

/// The next mode and the actions for one request.
pub open spec fn window_step(mode: WindowMode, event: UserEvent, state: WindowState) -> (WindowMode, Seq<WindowAction>) {
    match event {
        UserEvent::Minimize => (mode, seq![WindowAction::SetMinimized]),
        UserEvent::Maximize => (mode, seq![WindowAction::SetMaximized(!state.maximized)]),
        UserEvent::ToggleFullscreen => if !state.fullscreen {
            let unmax = if state.maximized {
                seq![WindowAction::SetMaximized(false)]
            } else {
                seq![]
            };
            let leave_compact = if mode.compact {
                seq![
                    WindowAction::SetAlwaysOnTop(false),
                    WindowAction::RestoreCompactSize,
                    WindowAction::RestoreCompactPosition,
                    WindowAction::SetMinLogicalSize(960, 640),
                ]
            } else {
                seq![]
            };
            (
                WindowMode { compact: false, restore_maximized_after_fullscreen: state.maximized },
                unmax + leave_compact + seq![WindowAction::SetFullscreen(true)],
            )
        } else {
            (
                WindowMode { compact: mode.compact, restore_maximized_after_fullscreen: false },
                seq![WindowAction::SetFullscreen(false)] + if mode.restore_maximized_after_fullscreen {
                    seq![WindowAction::SetMaximized(true)]
                } else {
                    seq![]
                },
            )
        },
        UserEvent::ToggleCompact => if mode.compact {
            (
                WindowMode { compact: false, restore_maximized_after_fullscreen: mode.restore_maximized_after_fullscreen },
                seq![
                    WindowAction::SetAlwaysOnTop(false),
                    WindowAction::SetMinLogicalSize(960, 640),
                    WindowAction::RestoreCompactSize,
                    WindowAction::RestoreCompactPosition,
                ],
            )
        } else {
            (
                WindowMode { compact: true, restore_maximized_after_fullscreen: mode.restore_maximized_after_fullscreen },
                (if state.fullscreen {
                    seq![WindowAction::SetFullscreen(false)]
                } else {
                    seq![]
                }) + seq![
                    WindowAction::SaveCompactRestore,
                    WindowAction::SetMinLogicalSize(360, 220),
                    WindowAction::SetLogicalSize(430, 300),
                    WindowAction::SetAlwaysOnTop(true),
                    WindowAction::MoveToCorner,
                ],
            )
        },
        UserEvent::DragWindow => (mode, seq![WindowAction::DragWindow]),
        UserEvent::CloseWindow => (mode, seq![WindowAction::Exit]),
        UserEvent::MouseDown(x, y) => (mode, seq![WindowAction::DragResize(x, y)]),
        UserEvent::MouseMove(x, y) => (mode, seq![WindowAction::ChangeCursor(x, y)]),
    }
}

/// Decides what the window does for a request.
pub fn handle_window_event(mode: WindowMode, event: UserEvent, state: WindowState) -> (r: (WindowMode, Vec<WindowAction>))
    ensures
        r.0 == window_step(mode, event, state).0,
        r.1@ == window_step(mode, event, state).1,
{
    let mut acts: Vec<WindowAction> = Vec::new();
    let next = match event {
        UserEvent::Minimize => {
            acts.push(WindowAction::SetMinimized);
            mode
        },
        UserEvent::Maximize => {
            acts.push(WindowAction::SetMaximized(!state.maximized));
            mode
        },
        UserEvent::ToggleFullscreen => {
            if !state.fullscreen {
                if state.maximized {
                    acts.push(WindowAction::SetMaximized(false));
                }
                if mode.compact {
                    acts.push(WindowAction::SetAlwaysOnTop(false));
                    acts.push(WindowAction::RestoreCompactSize);
                    acts.push(WindowAction::RestoreCompactPosition);
                    acts.push(WindowAction::SetMinLogicalSize(960, 640));
                }
                acts.push(WindowAction::SetFullscreen(true));
                WindowMode { compact: false, restore_maximized_after_fullscreen: state.maximized }
            } else {
                acts.push(WindowAction::SetFullscreen(false));
                if mode.restore_maximized_after_fullscreen {
                    acts.push(WindowAction::SetMaximized(true));
                }
                WindowMode { compact: mode.compact, restore_maximized_after_fullscreen: false }
            }
        },
        UserEvent::ToggleCompact => {
            if mode.compact {
                acts.push(WindowAction::SetAlwaysOnTop(false));
                acts.push(WindowAction::SetMinLogicalSize(960, 640));
                acts.push(WindowAction::RestoreCompactSize);
                acts.push(WindowAction::RestoreCompactPosition);
                WindowMode { compact: false, restore_maximized_after_fullscreen: mode.restore_maximized_after_fullscreen }
            } else {
                if state.fullscreen {
                    acts.push(WindowAction::SetFullscreen(false));
                }
                acts.push(WindowAction::SaveCompactRestore);
                acts.push(WindowAction::SetMinLogicalSize(360, 220));
                acts.push(WindowAction::SetLogicalSize(430, 300));
                acts.push(WindowAction::SetAlwaysOnTop(true));
                acts.push(WindowAction::MoveToCorner);
                WindowMode { compact: true, restore_maximized_after_fullscreen: mode.restore_maximized_after_fullscreen }
            }
        },
        UserEvent::DragWindow => {
            acts.push(WindowAction::DragWindow);
            mode
        },
        UserEvent::CloseWindow => {
            acts.push(WindowAction::Exit);
            mode
        },
        UserEvent::MouseDown(x, y) => {
            acts.push(WindowAction::DragResize(x, y));
            mode
        },
        UserEvent::MouseMove(x, y) => {
            acts.push(WindowAction::ChangeCursor(x, y));
            mode
        },
    };
    assert(acts@ =~= window_step(mode, event, state).1);
    (next, acts)
}

// ---------------------------------------------------------------- laws

/// A position away from every border is inside the window; one within the
/// border of a window wider and taller than two borders is on an edge.
pub proof fn law_hit_of_inside(width: int, height: int, x: int, y: int, inset: int)
    ensures
        inset <= x < width - inset && inset <= y < height - inset
            ==> hit_of(x < inset, x >= width - inset, y < inset, y >= height - inset) == HitTestResult::Client,
        2 * inset <= width && 2 * inset <= height && (x < inset || x >= width - inset || y < inset || y >= height - inset)
            ==> hit_of(x < inset, x >= width - inset, y < inset, y >= height - inset) != HitTestResult::Client,
{
}

/// Entering the compact player: leave full screen if in it, save the size and
/// position, shrink to 430 by 300 logical pixels with a minimum of 360 by 220,
/// stay on top, and move to the corner.  Leaving it again: stop staying on
/// top, restore the minimum of 960 by 640, and restore the saved size and
/// position.  The two steps give back the mode the window was in.
pub proof fn law_compact_round_trip(mode: WindowMode, s1: WindowState, s2: WindowState)
    requires
        !mode.compact,
    ensures
        window_step(mode, UserEvent::ToggleCompact, s1).0 == (WindowMode {
            compact: true,
            restore_maximized_after_fullscreen: mode.restore_maximized_after_fullscreen,
        }),
        window_step(mode, UserEvent::ToggleCompact, s1).1 == (if s1.fullscreen {
            seq![WindowAction::SetFullscreen(false)]
        } else {
            seq![]
        }) + seq![
            WindowAction::SaveCompactRestore,
            WindowAction::SetMinLogicalSize(360, 220),
            WindowAction::SetLogicalSize(430, 300),
            WindowAction::SetAlwaysOnTop(true),
            WindowAction::MoveToCorner,
        ],
        window_step(window_step(mode, UserEvent::ToggleCompact, s1).0, UserEvent::ToggleCompact, s2).0 == mode,
        window_step(window_step(mode, UserEvent::ToggleCompact, s1).0, UserEvent::ToggleCompact, s2).1 == seq![
            WindowAction::SetAlwaysOnTop(false),
            WindowAction::SetMinLogicalSize(960, 640),
            WindowAction::RestoreCompactSize,
            WindowAction::RestoreCompactPosition,
        ],
{
}

/// Going full screen always leaves the compact player.
pub proof fn law_fullscreen_leaves_compact(mode: WindowMode, s: WindowState)
    requires
        !s.fullscreen,
    ensures
        !window_step(mode, UserEvent::ToggleFullscreen, s).0.compact,
        window_step(mode, UserEvent::ToggleFullscreen, s).1.last() == WindowAction::SetFullscreen(true),
{
}

} // verus!
