use threet::app::Event;
use threet::session::ChannelStdout;
use threet::session::Client;
use threet::session::ClientChannel;
use threet::session::SessionError;
use threet::storage::digest_password;
use threet::storage::hex_lower;
use threet::storage::DatabaseBuilder;
use threet::views::FieldBuilder;
use threet::views::FieldKind;
use threet::views::FocuseArea;
use threet::views::AppView;
use threet::views::AuthenticateView;
use threet::views::ChatView;

#[test]
fn second_pty_request_is_refused() {
    let mut ch = ClientChannel::new();
    assert!(matches!(ch.pty_request((80, 24)), Ok(Event::Resize((80, 24)))));
    assert!(matches!(ch.pty_request((100, 30)), Err(SessionError::DuplicateSession)));
    assert!(ch.is_ready());
    assert!(matches!(ch.resize((90, 20)), Ok(Event::Resize((90, 20)))));
    assert!(matches!(ch.data(b"x"), Ok(Event::Stdin(v)) if v == b"x".to_vec()));
}

#[test]
fn resize_and_data_before_pty_are_not_ready() {
    let ch = ClientChannel::new();
    assert!(!ch.is_ready());
    assert!(matches!(ch.resize((80, 24)), Err(SessionError::NotReady)));
    assert!(matches!(ch.data(b"abc"), Err(SessionError::NotReady)));
}

#[test]
fn connection_allows_one_session_channel() {
    let mut client = Client::new();
    assert!(matches!(client.pty_request((1, 1)), Err(SessionError::NotReady)));
    assert!(matches!(client.data(b"a"), Err(SessionError::NotReady)));
    assert_eq!(client.channel_open_session(), Ok(()));
    assert_eq!(client.channel_open_session(), Err(SessionError::DuplicateSession));
    assert!(matches!(client.window_change_request((3, 4)), Err(SessionError::NotReady)));
    assert!(matches!(client.pty_request((80, 24)), Ok(Event::Resize((80, 24)))));
    assert!(matches!(client.pty_request((80, 24)), Err(SessionError::DuplicateSession)));
    assert!(matches!(client.window_change_request((3, 4)), Ok(Event::Resize((3, 4)))));
    assert!(matches!(client.data(b"hi"), Ok(Event::Stdin(v)) if v == b"hi".to_vec()));
}

#[test]
fn output_is_flushed_in_chunks_in_order() {
    let mut out = ChannelStdout::new();
    assert_eq!(out.write(b"ab"), 2);
    assert_eq!(out.write(b"c"), 1);
    assert_eq!(out.flush(), b"abc".to_vec());
    assert_eq!(out.flush(), Vec::<u8>::new());
    out.write(b"d");
    assert_eq!(out.flush(), b"d".to_vec());
}

#[test]
fn password_digest_is_sha256_hex() {
    let d = digest_password("abc");
    assert_eq!(
        String::from_utf8(d).unwrap(),
        "ba7816bf8f01cfea414140de5dae2223b00361a396177a9cb410ff61f20015ad"
    );
    let e = digest_password("");
    assert_eq!(
        String::from_utf8(e).unwrap(),
        "e3b0c44298fc1c149afbf4c8996fb92427ae41e4649b934ca495991b7852b855"
    );
}

#[test]
fn hex_is_lower_case_two_digits_per_byte() {
    assert_eq!(hex_lower(&[0x00, 0xff, 0x1a, 0xa0]), b"00ff1aa0".to_vec());
    assert_eq!(hex_lower(&[]), Vec::<u8>::new());
}

#[test]
fn database_builder_defaults_to_one_connection() {
    let b = DatabaseBuilder::default();
    assert_eq!(b.connections(), 1);
    let b = b.num_connections(4).path(String::from("db.sqlite"));
    assert_eq!(b.connections(), 4);
    assert_eq!(b.path.as_deref(), Some("db.sqlite"));
}

#[test]
fn field_respects_max_and_cursor() {
    let mut f = FieldBuilder::default().max(2).min(1).build();
    assert!(f.push_char('a'));
    assert!(!f.valid());
    assert!(f.push_char('b'));
    assert!(f.valid());
    assert!(!f.push_char('c'));
    assert_eq!(f.value(), &['a', 'b']);
    assert!(f.remove_char());
    assert!(f.remove_char());
    assert!(!f.remove_char());
    assert!(f.value().is_empty());
}

#[test]
fn field_inserts_at_cursor() {
    let mut f = FieldBuilder::default().initial_buffer(vec!['x', 'y']).build();
    f.remove_char();
    f.push_char('z');
    f.push_char('w');
    assert_eq!(f.value(), &['x', 'z', 'w']);
}

#[test]
fn secret_field_shows_stars() {
    let mut f = FieldBuilder::default().kind(FieldKind::Secret).build();
    f.push_char('p');
    f.push_char('w');
    assert_eq!(f.display(), vec!['*', '*']);
    let mut g = FieldBuilder::default().build();
    g.push_char('p');
    assert_eq!(g.display(), vec!['p']);
}

#[test]
fn focus_cycles_both_ways() {
    let a = FocuseArea::UsernameField;
    assert_eq!(a.next(), FocuseArea::PasswordField);
    assert_eq!(a.next().next(), FocuseArea::AuthenticateButton);
    assert_eq!(a.next().next().next(), a);
    assert_eq!(a.previous(), FocuseArea::AuthenticateButton);
    assert!(a.is_username_field());
    assert!(a.next().is_password_field());
    assert!(a.previous().is_authenticate_button());
}

#[test]
fn chat_view_name() {
    assert_eq!(ChatView::new().name(), "chat");
}

#[test]
fn view_names() {
    assert_eq!(AppView::Chat(ChatView::new()).name(), "chat");
    assert_eq!(AppView::Authenticate(AuthenticateView::new()).name(), "Authentication");
}
