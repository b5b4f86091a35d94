use eplayer::window::{
    handle_window_event, hit_test, parse_ipc_message, HitTestResult, IpcMessage, UserEvent, WindowAction, WindowMode,
    WindowState,
};

#[test]
fn hit_test_regions() {
    assert_eq!(hit_test(800, 600, 400, 300, 5), HitTestResult::Client);
    assert_eq!(hit_test(800, 600, 2, 300, 5), HitTestResult::Left);
    assert_eq!(hit_test(800, 600, 797, 300, 5), HitTestResult::Right);
    assert_eq!(hit_test(800, 600, 400, 1, 5), HitTestResult::Top);
    assert_eq!(hit_test(800, 600, 400, 599, 5), HitTestResult::Bottom);
    assert_eq!(hit_test(800, 600, 0, 0, 5), HitTestResult::TopLeft);
    assert_eq!(hit_test(800, 600, 799, 0, 5), HitTestResult::TopRight);
    assert_eq!(hit_test(800, 600, 0, 599, 5), HitTestResult::BottomLeft);
    assert_eq!(hit_test(800, 600, 799, 599, 5), HitTestResult::BottomRight);
    assert_eq!(hit_test(6, 600, 3, 300, 5), HitTestResult::NoWhere);
}

#[test]
fn parses_page_messages() {
    assert_eq!(parse_ipc_message("client_log:hello: world"), IpcMessage::Log("hello: world".to_string()));
    assert_eq!(parse_ipc_message("client_error:boom"), IpcMessage::Error("boom".to_string()));
    assert_eq!(parse_ipc_message("minimize"), IpcMessage::Event(UserEvent::Minimize));
    assert_eq!(parse_ipc_message("maximize"), IpcMessage::Event(UserEvent::Maximize));
    assert_eq!(parse_ipc_message("toggle_fullscreen"), IpcMessage::Event(UserEvent::ToggleFullscreen));
    assert_eq!(parse_ipc_message("toggle_compact:extra"), IpcMessage::Event(UserEvent::ToggleCompact));
    assert_eq!(parse_ipc_message("close"), IpcMessage::Event(UserEvent::CloseWindow));
    assert_eq!(parse_ipc_message("drag_window"), IpcMessage::Event(UserEvent::DragWindow));
    assert_eq!(parse_ipc_message("mousedown:10,-20"), IpcMessage::Event(UserEvent::MouseDown(10, -20)));
    assert_eq!(parse_ipc_message("mousemove:+3:4"), IpcMessage::Event(UserEvent::MouseMove(3, 4)));
    assert_eq!(parse_ipc_message("mousemove:3"), IpcMessage::Ignored);
    assert_eq!(parse_ipc_message("mousemove:3,x"), IpcMessage::Ignored);
    assert_eq!(parse_ipc_message("mousedown:2147483648,0"), IpcMessage::Ignored);
    assert_eq!(parse_ipc_message("Minimize"), IpcMessage::Ignored);
}

#[test]
fn compact_mode_round_trip() {
    let normal = WindowMode { compact: false, restore_maximized_after_fullscreen: false };
    let idle = WindowState { fullscreen: false, maximized: false };
    let (compact, enter) = handle_window_event(normal, UserEvent::ToggleCompact, idle);
    assert!(compact.compact);
    assert_eq!(
        enter,
        vec![
            WindowAction::SaveCompactRestore,
            WindowAction::SetMinLogicalSize(360, 220),
            WindowAction::SetLogicalSize(430, 300),
            WindowAction::SetAlwaysOnTop(true),
            WindowAction::MoveToCorner,
        ]
    );
    let (back, leave) = handle_window_event(compact, UserEvent::ToggleCompact, idle);
    assert_eq!(back, normal);
    assert_eq!(
        leave,
        vec![
            WindowAction::SetAlwaysOnTop(false),
            WindowAction::SetMinLogicalSize(960, 640),
            WindowAction::RestoreCompactSize,
            WindowAction::RestoreCompactPosition,
        ]
    );
}

#[test]
fn fullscreen_remembers_maximized() {
    let normal = WindowMode { compact: false, restore_maximized_after_fullscreen: false };
    let maximized = WindowState { fullscreen: false, maximized: true };
    let (mode, acts) = handle_window_event(normal, UserEvent::ToggleFullscreen, maximized);
    assert!(mode.restore_maximized_after_fullscreen);
    assert_eq!(acts, vec![WindowAction::SetMaximized(false), WindowAction::SetFullscreen(true)]);
    let full = WindowState { fullscreen: true, maximized: false };
    let (mode2, acts2) = handle_window_event(mode, UserEvent::ToggleFullscreen, full);
    assert!(!mode2.restore_maximized_after_fullscreen);
    assert_eq!(acts2, vec![WindowAction::SetFullscreen(false), WindowAction::SetMaximized(true)]);
}

#[test]
fn simple_requests() {
    let m = WindowMode { compact: true, restore_maximized_after_fullscreen: false };
    let s = WindowState { fullscreen: false, maximized: true };
    assert_eq!(handle_window_event(m, UserEvent::Maximize, s).1, vec![WindowAction::SetMaximized(false)]);
    assert_eq!(handle_window_event(m, UserEvent::CloseWindow, s).1, vec![WindowAction::Exit]);
    assert_eq!(handle_window_event(m, UserEvent::MouseDown(1, 2), s).1, vec![WindowAction::DragResize(1, 2)]);
    let (mode, acts) = handle_window_event(m, UserEvent::ToggleFullscreen, WindowState { fullscreen: false, maximized: false });
    assert!(!mode.compact);
    assert_eq!(acts[0], WindowAction::SetAlwaysOnTop(false));
}
