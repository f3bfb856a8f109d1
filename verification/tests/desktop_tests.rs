use moltis_skills::desktop::{
    gateway_url, listen_address, menu_action, tray_icon_action, MouseButton, MouseButtonState, TrayAction,
    TrayIconEvent,
};

#[test]
fn gateway_url_uses_loopback_and_port() {
    assert_eq!(gateway_url(8080), "http://127.0.0.1:8080");
    assert_eq!(gateway_url(0), "http://127.0.0.1:0");
    assert_eq!(gateway_url(65535), "http://127.0.0.1:65535");
    assert_eq!(gateway_url(10), "http://127.0.0.1:10");
}

#[test]
fn listen_address_joins_host_and_port() {
    assert_eq!(listen_address("127.0.0.1", 13131), "127.0.0.1:13131");
    assert_eq!(listen_address("0.0.0.0", 7), "0.0.0.0:7");
}

#[test]
fn tray_menu_actions() {
    assert_eq!(menu_action("show"), TrayAction::ShowWindow);
    assert_eq!(menu_action("quit"), TrayAction::Exit(0));
    assert_eq!(menu_action("Show"), TrayAction::Ignore);
    assert_eq!(menu_action(""), TrayAction::Ignore);
}

#[test]
fn tray_icon_left_release_shows_window() {
    let up = TrayIconEvent::Click { button: MouseButton::Left, button_state: MouseButtonState::Up };
    let down = TrayIconEvent::Click { button: MouseButton::Left, button_state: MouseButtonState::Down };
    let right = TrayIconEvent::Click { button: MouseButton::Right, button_state: MouseButtonState::Up };
    assert_eq!(tray_icon_action(&up), TrayAction::ShowWindow);
    assert_eq!(tray_icon_action(&down), TrayAction::Ignore);
    assert_eq!(tray_icon_action(&right), TrayAction::Ignore);
    assert_eq!(tray_icon_action(&TrayIconEvent::Other), TrayAction::Ignore);
}
