//! Decisions of the desktop shell: where the embedded gateway listens, the
//! address the window loads, and what the tray menu and tray icon do.

use vstd::prelude::*;

verus! {

/// The character of a decimal digit.
pub open spec fn digit_char(d: nat) -> char {
    (48 + d) as char
}

/// The decimal notation of `n`, without leading zeros.
pub open spec fn decimal(n: nat) -> Seq<char>
    decreases n,
{
    if n < 10 {
        seq![digit_char(n)]
    } else {
        decimal(n / 10).push(digit_char(n % 10))
    }
}

fn digit_str(d: u16) -> (r: &'static str)
    requires
        d < 10,
    ensures
        r@ == seq![digit_char(d as nat)],
{
    proof {
        reveal_strlit("0");
        reveal_strlit("1");
        reveal_strlit("2");
        reveal_strlit("3");
        reveal_strlit("4");
        reveal_strlit("5");
        reveal_strlit("6");
        reveal_strlit("7");
        reveal_strlit("8");
        reveal_strlit("9");
    }
    if d == 0 {
        assert("0"@ =~= seq![digit_char(0)]);
        "0"
    } else if d == 1 {
        assert("1"@ =~= seq![digit_char(1)]);
        "1"
    } else if d == 2 {
        assert("2"@ =~= seq![digit_char(2)]);
        "2"
    } else if d == 3 {
        assert("3"@ =~= seq![digit_char(3)]);
        "3"
    } else if d == 4 {
        assert("4"@ =~= seq![digit_char(4)]);
        "4"
    } else if d == 5 {
        assert("5"@ =~= seq![digit_char(5)]);
        "5"
    } else if d == 6 {
        assert("6"@ =~= seq![digit_char(6)]);
        "6"
    } else if d == 7 {
        assert("7"@ =~= seq![digit_char(7)]);
        "7"
    } else if d == 8 {
        assert("8"@ =~= seq![digit_char(8)]);
        "8"
    } else {
        assert("9"@ =~= seq![digit_char(9)]);
        "9"
    }
}

/// Append the decimal notation of `n` to `s`.
fn push_decimal(s: &mut String, n: u16)
    ensures
        final(s)@ == old(s)@ + decimal(n as nat),
    decreases n,
{
    if n >= 10 {
        push_decimal(s, n / 10);
    }
    let ghost mid = s@;
    s.append(digit_str(n % 10));
    proof {
        if n >= 10 {
            assert(s@ =~= old(s)@ + decimal((n / 10) as nat).push(digit_char((n % 10) as nat)));
        } else {
            assert(s@ =~= old(s)@ + decimal(n as nat));
        }
    }
}

/// The address the gateway binds: the configured host, a colon, the port.
pub fn listen_address(bind: &str, port: u16) -> (r: String)
    ensures
        r@ == bind@ + seq![':'] + decimal(port as nat),
{
    let mut r = String::from_str(bind);
    r.append(":");
    proof {
        reveal_strlit(":");
    }
    push_decimal(&mut r, port);
    r
}

/// The address the main window loads: the gateway on the loopback interface.
pub fn gateway_url(port: u16) -> (r: String)
    ensures
        r@ == "http://127.0.0.1:"@ + decimal(port as nat),
{
    let mut r = String::from_str("http://127.0.0.1:");
    push_decimal(&mut r, port);
    r
}

/// What the shell does in answer to a tray menu entry or a tray icon event.
#[derive(Debug, Clone, Copy, PartialEq, Eq, Structural)]
pub enum TrayAction {
    /// Show the main window and give it the focus.
    ShowWindow,
    /// Leave the application with the given exit code.
    Exit(i32),
    /// Nothing.
    Ignore,
}

/// A mouse button.
#[derive(Debug, Clone, Copy, PartialEq, Eq, Structural)]
pub enum MouseButton {
    Left,
    Right,
    Middle,
}

/// Whether a mouse button went down or came up.
#[derive(Debug, Clone, Copy, PartialEq, Eq, Structural)]
pub enum MouseButtonState {
    Up,
    Down,
}

/// An event of the tray icon.
#[derive(Debug, Clone, Copy, PartialEq, Eq, Structural)]
pub enum TrayIconEvent {
    /// A click of the icon.
    Click { button: MouseButton, button_state: MouseButtonState },
    /// Any other event (hover, double click, ...).
    Other,
}

/// The id of the tray menu entry that shows the window.
pub open spec fn show_id() -> Seq<char> {
    seq!['s', 'h', 'o', 'w']
}

/// The id of the tray menu entry that quits.
pub open spec fn quit_id() -> Seq<char> {
    seq!['q', 'u', 'i', 't']
}

/// The action of the tray menu entry with the given id: "show" shows the
/// main window, "quit" exits with code 0, any other id does nothing.
pub fn menu_action(id: &str) -> (r: TrayAction)
    ensures
        id@ == show_id() ==> r == TrayAction::ShowWindow,
        id@ == quit_id() ==> r == TrayAction::Exit(0),
        id@ != show_id() && id@ != quit_id() ==> r == TrayAction::Ignore,
{
    let show = String::from_str("show");
    let quit = String::from_str("quit");
    let given = String::from_str(id);
    proof {
        reveal_strlit("show");
        reveal_strlit("quit");
        assert("show"@ =~= show_id());
        assert("quit"@ =~= quit_id());
    }
    if given == show {
        TrayAction::ShowWindow
    } else if given == quit {
        TrayAction::Exit(0)
    } else {
        TrayAction::Ignore
    }
}

/// The action of a tray icon event: a left click, on release, shows the main
/// window; every other event does nothing.
pub fn tray_icon_action(event: &TrayIconEvent) -> (r: TrayAction)
    ensures
        (event matches TrayIconEvent::Click { button: MouseButton::Left, button_state: MouseButtonState::Up })
            ==> r == TrayAction::ShowWindow,
        !(event matches TrayIconEvent::Click { button: MouseButton::Left, button_state: MouseButtonState::Up })
            ==> r == TrayAction::Ignore,
{
    match event {
        TrayIconEvent::Click { button: MouseButton::Left, button_state: MouseButtonState::Up } => TrayAction::ShowWindow,
        _ => TrayAction::Ignore,
    }
}

} // verus!
