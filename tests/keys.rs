use threet::combo::BindBuffer;
use threet::combo::Binder;
use threet::combo::Command;
use threet::combo::ComboRecorder;
use threet::combo::ComboRegister;
use threet::key::Key;
use threet::key::KeyCode;
use threet::key::Modifier;

fn plain(code: KeyCode) -> Key {
    Key { keycode: code, modifiers: Modifier::none() }
}

fn ch(c: char) -> Key {
    plain(KeyCode::Char(c))
}

#[test]
fn escape_alone_is_esc() {
    assert_eq!(Key::from_bytes(b"\x1b"), Some(plain(KeyCode::Esc)));
}

#[test]
fn escape_sequences_give_arrows_home_end() {
    assert_eq!(Key::from_bytes(b"\x1b[D"), Some(plain(KeyCode::Left)));
    assert_eq!(Key::from_bytes(b"\x1b[C"), Some(plain(KeyCode::Right)));
    assert_eq!(Key::from_bytes(b"\x1b[A"), Some(plain(KeyCode::Up)));
    assert_eq!(Key::from_bytes(b"\x1b[B"), Some(plain(KeyCode::Down)));
    assert_eq!(Key::from_bytes(b"\x1b[H"), Some(plain(KeyCode::Home)));
    assert_eq!(Key::from_bytes(b"\x1b[F"), Some(plain(KeyCode::End)));
}

#[test]
fn unknown_or_incomplete_escape_is_dropped() {
    assert_eq!(Key::from_bytes(b"\x1b[Z"), None);
    assert_eq!(Key::from_bytes(b"\x1b["), None);
    assert_eq!(Key::from_bytes(b"\x1bx"), None);
    assert_eq!(Key::from_bytes(b""), None);
}

#[test]
fn control_bytes_decode() {
    assert_eq!(Key::from_bytes(b"\r"), Some(plain(KeyCode::Enter)));
    assert_eq!(Key::from_bytes(b"\t"), Some(plain(KeyCode::Tab)));
    assert_eq!(Key::from_bytes(&[0x7f]), Some(plain(KeyCode::Backspace)));
    assert_eq!(
        Key::from_bytes(&[0x00]),
        Some(Key { keycode: KeyCode::Enter, modifiers: Modifier::ctrl() })
    );
    assert_eq!(
        Key::from_bytes(&[0x01]),
        Some(Key { keycode: KeyCode::Char('a'), modifiers: Modifier::ctrl() })
    );
    assert_eq!(
        Key::from_bytes(&[0x1a]),
        Some(Key { keycode: KeyCode::Char('z'), modifiers: Modifier::ctrl() })
    );
    assert_eq!(
        Key::from_bytes(&[0x1c]),
        Some(Key { keycode: KeyCode::Char('4'), modifiers: Modifier::ctrl() })
    );
    assert_eq!(
        Key::from_bytes(&[0x1f]),
        Some(Key { keycode: KeyCode::Char('7'), modifiers: Modifier::ctrl() })
    );
}

#[test]
fn text_gives_first_character() {
    assert_eq!(Key::from_bytes(b"a"), Some(ch('a')));
    assert_eq!(Key::from_bytes(b"ab"), Some(ch('a')));
    assert_eq!(Key::from_bytes(" ".as_bytes()), Some(ch(' ')));
    assert_eq!(Key::from_bytes("é".as_bytes()), Some(ch('é')));
}

#[test]
fn upper_case_carries_shift() {
    assert_eq!(
        Key::from_bytes(b"A"),
        Some(Key { keycode: KeyCode::Char('A'), modifiers: Modifier::shift() })
    );
    assert_eq!(
        Key::from_bytes("É".as_bytes()),
        Some(Key { keycode: KeyCode::Char('É'), modifiers: Modifier::shift() })
    );
}

#[test]
fn invalid_utf8_is_dropped() {
    assert_eq!(Key::from_bytes(&[0xff]), None);
    assert_eq!(Key::from_bytes(&[0xc3]), None);
    assert_eq!(Key::from_bytes(&[0x61, 0xff]), None);
}

#[test]
fn modifier_contains() {
    let both = Modifier::shift().union(Modifier::ctrl());
    assert!(both.contains(Modifier::shift()));
    assert!(both.contains(Modifier::ctrl()));
    assert!(!Modifier::shift().contains(Modifier::ctrl()));
    assert!(!Modifier::none().contains(Modifier::shift()));
}

#[test]
fn trie_exact_match_only() {
    let mut reg = ComboRegister::new();
    reg.add(vec![ch('a'), ch('b')], Command::SplitVertical);
    assert_eq!(reg.get(&[ch('a'), ch('b')]), Some(Command::SplitVertical));
    assert_eq!(reg.get(&[ch('a')]), None);
    assert_eq!(reg.get(&[ch('a'), ch('c')]), None);
    assert_eq!(reg.get(&[ch('a'), ch('b'), ch('c')]), None);
    assert_eq!(reg.get(&[]), None);
}

#[test]
fn trie_same_path_overwrites() {
    let mut reg: Binder = ComboRegister::new();
    reg.add(vec![ch('x')], Command::SplitVertical);
    reg.add(vec![ch('x'), ch('y')], Command::SplitVertical);
    reg.add(vec![ch('x')], Command::InsertMode);
    assert_eq!(reg.get(&[ch('x')]), Some(Command::InsertMode));
    assert_eq!(reg.get(&[ch('x'), ch('y')]), Some(Command::SplitVertical));
}

#[test]
fn recorder_holds_at_most_eight() {
    let mut rec = ComboRecorder::new();
    assert!(rec.is_mepty());
    for i in 0..8 {
        assert!(rec.push(ch((b'a' + i) as char)));
    }
    assert!(!rec.push(ch('z')));
    assert_eq!(rec.as_slice().len(), 8);
    assert_eq!(rec.as_slice()[7], ch('h'));
}

#[test]
fn recorder_escape_clears_even_when_full() {
    let mut rec: BindBuffer = ComboRecorder::new();
    for _ in 0..8 {
        rec.push(ch('q'));
    }
    assert!(rec.push(plain(KeyCode::Esc)));
    assert!(rec.is_mepty());
}

#[test]
fn sequence_ending_in_escape_leaves_recorder_empty() {
    let mut rec = ComboRecorder::new();
    for k in [ch('a'), plain(KeyCode::Left), ch('b'), plain(KeyCode::Esc)] {
        rec.push(k);
    }
    assert!(rec.is_mepty());
    let mut reg = ComboRegister::new();
    reg.add(vec![ch('a'), ch('b')], Command::SplitVertical);
    assert_eq!(reg.get(rec.as_slice()), None);
}

#[test]
fn recorder_clear() {
    let mut rec = ComboRecorder::new();
    rec.push(ch('a'));
    assert!(!rec.is_mepty());
    rec.clear();
    assert!(rec.is_mepty());
}

#[test]
fn empty_sequence_is_never_bound() {
    let mut reg = ComboRegister::new();
    assert_eq!(reg.get(&[]), None);
    reg.add(vec![ch('a')], Command::SplitVertical);
    reg.add(vec![ch('a'), ch('b')], Command::InsertMode);
    assert_eq!(reg.get(&[]), None);
}
