use ttd::app::{app_accepts_compound_tokens, AppMode, AppState};
use ttd::keys::{
    key_token_from_event, live_tui_control_for_event, KeyCode, KeyInput, LiveKeyBuffer,
    LiveTuiControl,
};

fn key(code: KeyCode, control: bool) -> Option<KeyInput> {
    Some(KeyInput {
        code,
        press: true,
        control,
    })
}

#[test]
fn live_tui_only_exits_on_ctrl_c() {
    assert_eq!(
        live_tui_control_for_event(&key(KeyCode::Char('a'), false)),
        LiveTuiControl::Continue
    );
    assert_eq!(
        live_tui_control_for_event(&key(KeyCode::Enter, false)),
        LiveTuiControl::Continue
    );
    assert_eq!(
        live_tui_control_for_event(&key(KeyCode::Char('c'), true)),
        LiveTuiControl::Exit
    );
}

#[test]
fn live_key_buffer_emits_gg_for_double_g_in_normal_main_mode() {
    let mut buffer = LiveKeyBuffer::new();
    let app = AppState::new(AppMode::Main);
    let event = key(KeyCode::Char('g'), false);

    assert_eq!(
        buffer.token_for_event(&event, app_accepts_compound_tokens(&app)),
        None
    );
    assert_eq!(
        buffer.token_for_event(&event, app_accepts_compound_tokens(&app)),
        Some("gg".into())
    );
}

#[test]
fn live_key_buffer_leaves_g_unbuffered_while_text_input_is_active() {
    let mut buffer = LiveKeyBuffer::new();
    let app = AppState::new(AppMode::Welcome);
    let event = key(KeyCode::Char('g'), false);

    assert_eq!(
        buffer.token_for_event(&event, app_accepts_compound_tokens(&app)),
        Some("g".into())
    );
}

#[test]
fn pending_g_followed_by_another_key_gives_that_key() {
    let mut buffer = LiveKeyBuffer::new();
    assert_eq!(buffer.token_for_event(&key(KeyCode::Char('g'), false), true), None);
    assert_eq!(
        buffer.token_for_event(&key(KeyCode::Char('j'), false), true),
        Some("j".into())
    );
    assert_eq!(
        buffer.token_for_event(&key(KeyCode::Char('g'), false), true),
        None
    );
}

#[test]
fn key_names() {
    assert_eq!(key_token_from_event(&key(KeyCode::Backspace, false)), Some("backspace".into()));
    assert_eq!(key_token_from_event(&key(KeyCode::Enter, false)), Some("enter".into()));
    assert_eq!(key_token_from_event(&key(KeyCode::Tab, false)), Some("tab".into()));
    assert_eq!(key_token_from_event(&key(KeyCode::Esc, false)), Some("esc".into()));
    assert_eq!(key_token_from_event(&key(KeyCode::Left, false)), Some("left".into()));
    assert_eq!(key_token_from_event(&key(KeyCode::Right, false)), Some("right".into()));
    assert_eq!(key_token_from_event(&key(KeyCode::Home, false)), Some("home".into()));
    assert_eq!(key_token_from_event(&key(KeyCode::End, false)), Some("end".into()));
    assert_eq!(key_token_from_event(&key(KeyCode::Char('é'), false)), Some("é".into()));
    assert_eq!(key_token_from_event(&key(KeyCode::Char('D'), true)), Some("ctrl+d".into()));
    assert_eq!(key_token_from_event(&key(KeyCode::Other, false)), None);
    assert_eq!(key_token_from_event(&None), None);
    let release = Some(KeyInput {
        code: KeyCode::Enter,
        press: false,
        control: false,
    });
    assert_eq!(key_token_from_event(&release), None);
}
