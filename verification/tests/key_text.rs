use edcore::key::{parse_all_keys, parse_key, Key};

#[test]
fn key_parsing() {
    assert_eq!(Key::Backspace, parse_key("<backspace>").unwrap());
    assert_eq!(Key::Char(' '), parse_key("<space>").unwrap());
    assert_eq!(Key::Enter, parse_key("<enter>").unwrap());
    assert_eq!(Key::Left, parse_key("<left>").unwrap());
    assert_eq!(Key::Right, parse_key("<right>").unwrap());
    assert_eq!(Key::Up, parse_key("<up>").unwrap());
    assert_eq!(Key::Down, parse_key("<down>").unwrap());
    assert_eq!(Key::Home, parse_key("<home>").unwrap());
    assert_eq!(Key::End, parse_key("<end>").unwrap());
    assert_eq!(Key::PageUp, parse_key("<pageup>").unwrap());
    assert_eq!(Key::PageDown, parse_key("<pagedown>").unwrap());
    assert_eq!(Key::Tab, parse_key("<tab>").unwrap());
    assert_eq!(Key::Delete, parse_key("<delete>").unwrap());
    assert_eq!(Key::Esc, parse_key("<esc>").unwrap());

    for n in 1..=99u8 {
        let s = format!("<f{}>", n);
        assert_eq!(Key::F(n), parse_key(&s).unwrap());
    }

    assert_eq!(Key::Ctrl('z'), parse_key("<c-z>").unwrap());
    assert_eq!(Key::Ctrl('0'), parse_key("<c-0>").unwrap());
    assert_eq!(Key::Ctrl('9'), parse_key("<c-9>").unwrap());

    assert_eq!(Key::Alt('a'), parse_key("<a-a>").unwrap());
    assert_eq!(Key::Alt('z'), parse_key("<a-z>").unwrap());
    assert_eq!(Key::Alt('0'), parse_key("<a-0>").unwrap());
    assert_eq!(Key::Alt('9'), parse_key("<a-9>").unwrap());

    assert_eq!(Key::Char('a'), parse_key("a").unwrap());
    assert_eq!(Key::Char('z'), parse_key("z").unwrap());
    assert_eq!(Key::Char('0'), parse_key("0").unwrap());
    assert_eq!(Key::Char('9'), parse_key("9").unwrap());
    assert_eq!(Key::Char('_'), parse_key("_").unwrap());
    assert_eq!(Key::Char('<'), parse_key("<less>").unwrap());
    assert_eq!(Key::Char('>'), parse_key("<greater>").unwrap());
    assert_eq!(Key::Char('\\'), parse_key("\\").unwrap());
}

#[test]
fn key_parsing_rejects_bad_text() {
    assert!(parse_key("").is_err());
    assert!(parse_key(">").is_err());
    assert!(parse_key("<").is_err());
    assert!(parse_key("<x>").is_err());
    assert!(parse_key("<c-!>").is_err());
    assert!(parse_key("<a-€>").is_err());
    assert!(parse_key("<f>").is_err());
    assert!(parse_key("<f1").is_err());
    assert!(parse_key("é").is_err());
}

#[test]
fn key_display_round_trip() {
    let keys = [
        Key::Backspace,
        Key::Enter,
        Key::Left,
        Key::Right,
        Key::Up,
        Key::Down,
        Key::Home,
        Key::End,
        Key::PageUp,
        Key::PageDown,
        Key::Tab,
        Key::Delete,
        Key::Esc,
        Key::F(1),
        Key::F(10),
        Key::F(99),
        Key::Char(' '),
        Key::Char('<'),
        Key::Char('>'),
        Key::Char('q'),
        Key::Ctrl('a'),
        Key::Ctrl('9'),
        Key::Alt('z'),
    ];
    for key in keys.iter() {
        let text = key.display();
        assert!(!text.is_empty());
        assert_eq!(*key, parse_key(&text).unwrap());
    }
    assert_eq!("", Key::Nil.display());
}

#[test]
fn key_text_scenarios() {
    assert_eq!(Key::Ctrl('a'), parse_key("<c-a>").unwrap());
    assert_eq!("<c-a>", Key::Ctrl('a').display());
    assert_eq!(Key::F(10), parse_key("<f10>").unwrap());
    assert_eq!(Key::F(1), parse_key("<f1>").unwrap());
    assert_eq!("<f10>", Key::F(10).display());
}

#[test]
fn key_sequence_parsing() {
    let mut parser = parse_all_keys("ihello<esc>");
    let mut keys = Vec::new();
    while let Some(item) = parser.next() {
        keys.push(item.unwrap());
    }
    assert_eq!(
        keys,
        vec![
            Key::Char('i'),
            Key::Char('h'),
            Key::Char('e'),
            Key::Char('l'),
            Key::Char('l'),
            Key::Char('o'),
            Key::Esc,
        ],
    );

    let mut parser = parse_all_keys("a<bad");
    assert_eq!(Ok(Key::Char('a')), parser.next().unwrap());
    let err = parser.next().unwrap().unwrap_err();
    assert_eq!(5, err.index);
    assert!(parser.next().is_none());

    let mut parser = parse_all_keys("a<x");
    assert_eq!(Ok(Key::Char('a')), parser.next().unwrap());
    let err = parser.next().unwrap().unwrap_err();
    assert_eq!(3, err.index);
    assert!(parser.next().is_none());
}
