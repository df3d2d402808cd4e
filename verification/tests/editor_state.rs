use edcore::buffer::{BufferPosition, BufferRange, Cursor};
use edcore::client::{Client, ClientResponse, EditorOperation, StatusMessageKind};
use edcore::key::Key;
use edcore::mode::command::{on_enter, on_event, tokenize_command, CommandOperation};
use edcore::mode::{FromMode, Mode};
use edcore::navigation_history::{
    BufferHandle, BufferView, BufferViewCollection, ClientViewState, NavigationDirection,
    NavigationHistory,
};
use edcore::syntax::TokenKind;

#[test]
fn client_applies_operations() {
    let mut client = Client::new();

    let r = client.on_editor_operation(&EditorOperation::Focused(false));
    assert_eq!(ClientResponse::Nothing, r);
    assert!(!client.has_focus);

    client.on_editor_operation(&EditorOperation::Mode(Mode::Insert));
    assert_eq!(Mode::Insert, client.mode);

    client.on_editor_operation(&EditorOperation::Buffer(String::from("hello\nworld")));
    assert_eq!(2, client.buffer.line_count());
    assert_eq!(b"hello", client.buffer.line_at(0));

    client.on_editor_operation(&EditorOperation::Insert(
        BufferPosition::line_col(0, 5),
        String::from("!\nnew"),
    ));
    assert_eq!(3, client.buffer.line_count());
    assert_eq!(b"hello!", client.buffer.line_at(0));
    assert_eq!(b"new", client.buffer.line_at(1));

    client.on_editor_operation(&EditorOperation::Delete(BufferRange {
        from: BufferPosition::line_col(0, 5),
        to: BufferPosition::line_col(1, 3),
    }));
    assert_eq!(2, client.buffer.line_count());
    assert_eq!(b"hello", client.buffer.line_at(0));

    client.on_editor_operation(&EditorOperation::InputAppend('a'));
    client.on_editor_operation(&EditorOperation::InputAppend('b'));
    assert_eq!("ab", client.input);
    client.on_editor_operation(&EditorOperation::InputKeep(1));
    assert_eq!("a", client.input);

    client.on_editor_operation(&EditorOperation::StatusMessage(
        StatusMessageKind::Error,
        String::from("boom"),
    ));
    client.on_editor_operation(&EditorOperation::StatusMessageAppend(String::from("!")));
    assert_eq!(StatusMessageKind::Error, client.status_message_kind);
    assert_eq!("boom!", client.status_message);

    let r = client.on_editor_operation(&EditorOperation::Spawn(
        String::from("fmt"),
        Some(String::from("text")),
    ));
    assert_eq!(
        ClientResponse::Spawn(String::from("fmt"), Some(String::from("text"))),
        r,
    );

    let cursor = Cursor {
        anchor: BufferPosition::line_col(0, 1),
        position: BufferPosition::line_col(0, 2),
    };
    client.on_editor_operation(&EditorOperation::CursorsClear(cursor));
    assert_eq!(cursor, client.main_cursor);
    assert_eq!(0, client.cursors.len());
    client.on_editor_operation(&EditorOperation::Cursor(cursor));
    assert_eq!(vec![cursor], client.cursors);
}

#[test]
fn client_highlights_on_path_and_rule() {
    let mut client = Client::new();
    client.on_editor_operation(&EditorOperation::SyntaxRule(
        String::from("*.rs"),
        TokenKind::Keyword,
        String::from("fn"),
    ));
    client.on_editor_operation(&EditorOperation::Buffer(String::from("fn main")));
    client.on_editor_operation(&EditorOperation::Path(String::from("src/main.rs")));
    assert!(client.syntax_handle.is_some());
    assert_eq!(TokenKind::Keyword, client.highlighted_buffer.find_token_kind_at(0, 1));
}

#[test]
fn command_mode_splits_submitted_line() {
    let mut input = String::new();
    on_enter(&mut input);

    for c in "open a.rs".chars() {
        let r = on_event(&mut input, Key::Char(c), &FromMode::Normal);
        assert_eq!(CommandOperation::Pending, r);
    }
    let r = on_event(&mut input, Key::Enter, &FromMode::Normal);
    match r {
        CommandOperation::Submit(name, args) => {
            assert_eq!("open", name);
            assert_eq!(" a.rs", args);
        }
        other => panic!("{:?}", other),
    }

    let mut input = String::new();
    on_enter(&mut input);
    let r = on_event(&mut input, Key::Esc, &FromMode::Insert);
    assert_eq!(CommandOperation::EnterMode(Mode::Insert), r);

    let mut input = String::new();
    on_enter(&mut input);
    on_event(&mut input, Key::Char('q'), &FromMode::Normal);
    on_event(&mut input, Key::Char('x'), &FromMode::Normal);
    on_event(&mut input, Key::Backspace, &FromMode::Normal);
    on_event(&mut input, Key::Char('u'), &FromMode::Normal);
    on_event(&mut input, Key::Char('i'), &FromMode::Normal);
    on_event(&mut input, Key::Char('t'), &FromMode::Normal);
    let r = on_event(&mut input, Key::Enter, &FromMode::Normal);
    match r {
        CommandOperation::Submit(name, args) => {
            assert_eq!("quit", name);
            assert_eq!("", args);
        }
        other => panic!("{:?}", other),
    }
}

#[test]
fn navigation_history_walks_backward_and_forward() {
    let mut views = BufferViewCollection::new();
    views.add_view(BufferView {
        buffer_handle: BufferHandle { index: 0 },
        cursors: vec![Cursor {
            anchor: BufferPosition::line_col(3, 0),
            position: BufferPosition::line_col(3, 0),
        }],
    });
    views.add_view(BufferView {
        buffer_handle: BufferHandle { index: 1 },
        cursors: vec![Cursor {
            anchor: BufferPosition::line_col(7, 2),
            position: BufferPosition::line_col(7, 2),
        }],
    });

    let mut client = ClientViewState {
        current_buffer_view_handle: Some(edcore::navigation_history::BufferViewHandle {
            index: 0,
        }),
        navigation_history: NavigationHistory::new(),
    };

    // Remember buffer 0, move to buffer 1, then walk back.
    NavigationHistory::save_client_snapshot(&mut client, &views);
    client.current_buffer_view_handle =
        Some(edcore::navigation_history::BufferViewHandle { index: 1 });

    NavigationHistory::move_in_history(&mut client, &mut views, NavigationDirection::Backward);
    let handle = client.current_buffer_view_handle.unwrap();
    assert_eq!(0, views.get(handle).unwrap().buffer_handle.index);

    NavigationHistory::move_in_history(&mut client, &mut views, NavigationDirection::Forward);
    let handle = client.current_buffer_view_handle.unwrap();
    assert_eq!(1, views.get(handle).unwrap().buffer_handle.index);
}

#[test]
fn navigation_history_drops_closed_buffers() {
    let mut views = BufferViewCollection::new();
    views.add_view(BufferView {
        buffer_handle: BufferHandle { index: 0 },
        cursors: vec![Cursor::default()],
    });
    let mut client = ClientViewState {
        current_buffer_view_handle: Some(edcore::navigation_history::BufferViewHandle {
            index: 0,
        }),
        navigation_history: NavigationHistory::new(),
    };
    NavigationHistory::save_client_snapshot(&mut client, &views);
    client
        .navigation_history
        .remove_snapshots_with_buffer_handle(BufferHandle { index: 0 });
    // Walking backward now finds nothing to return to.
    let before = client.current_buffer_view_handle;
    NavigationHistory::move_in_history(&mut client, &mut views, NavigationDirection::Backward);
    assert_eq!(before, client.current_buffer_view_handle);
}

#[test]
fn search_marks_every_occurrence() {
    let buffer = edcore::buffer::BufferContent::from_str("abcabc\nxxabc");
    let mut ranges = Vec::new();
    buffer.find_search_ranges(b"abc", &mut ranges);
    assert_eq!(3, ranges.len());
    assert_eq!(BufferPosition::line_col(0, 0), ranges[0].from);
    assert_eq!(BufferPosition::line_col(0, 3), ranges[0].to);
    assert_eq!(BufferPosition::line_col(0, 3), ranges[1].from);
    assert_eq!(BufferPosition::line_col(1, 2), ranges[2].from);
    assert_eq!(BufferPosition::line_col(1, 5), ranges[2].to);
}

#[test]
fn search_operation_fills_ranges_from_input() {
    let mut client = Client::new();
    client.on_editor_operation(&EditorOperation::Buffer(String::from("abcabc\nxxabc")));
    client.on_editor_operation(&EditorOperation::InputAppend('a'));
    client.on_editor_operation(&EditorOperation::InputAppend('b'));
    client.on_editor_operation(&EditorOperation::InputAppend('c'));
    client.on_editor_operation(&EditorOperation::Search);
    assert_eq!(3, client.search_ranges.len());
    assert_eq!(BufferPosition::line_col(0, 0), client.search_ranges[0].from);
    assert_eq!(BufferPosition::line_col(0, 3), client.search_ranges[0].to);
    assert_eq!(BufferPosition::line_col(1, 2), client.search_ranges[2].from);

    // An empty input leaves no ranges.
    client.on_editor_operation(&EditorOperation::InputKeep(0));
    client.on_editor_operation(&EditorOperation::Search);
    assert_eq!(0, client.search_ranges.len());
}

#[test]
fn syntax_rules_accumulate_under_one_glob() {
    let mut client = Client::new();
    for (kind, pattern) in [
        (TokenKind::Keyword, "fn"),
        (TokenKind::Symbol, "%("),
        (TokenKind::Symbol, "%)"),
    ] {
        client.on_editor_operation(&EditorOperation::SyntaxRule(
            String::from("*.rs"),
            kind,
            String::from(pattern),
        ));
    }
    client.on_editor_operation(&EditorOperation::Buffer(String::from(" fn main() ;  ")));
    client.on_editor_operation(&EditorOperation::Path(String::from("src/main.rs")));
    assert!(client.syntax_handle.is_some());
    // All three rules act on the same line, so the rules reached one syntax.
    assert_eq!(TokenKind::Keyword, client.highlighted_buffer.find_token_kind_at(0, 2));
    assert_eq!(TokenKind::Symbol, client.highlighted_buffer.find_token_kind_at(0, 8));
    assert_eq!(TokenKind::Symbol, client.highlighted_buffer.find_token_kind_at(0, 9));
    assert_eq!(TokenKind::Text, client.highlighted_buffer.find_token_kind_at(0, 5));
}

#[test]
fn command_mode_splits_lines_beyond_ascii() {
    let mut input = String::new();
    on_enter(&mut input);
    for c in "héllo wörld".chars() {
        on_event(&mut input, Key::Char(c), &FromMode::Normal);
    }
    let r = on_event(&mut input, Key::Enter, &FromMode::Normal);
    match r {
        CommandOperation::Submit(name, args) => {
            assert_eq!("héllo", name);
            assert_eq!(" wörld", args);
        }
        other => panic!("{:?}", other),
    }
}

#[test]
fn load_config_replays_operations_in_order() {
    let mut client = Client::new();
    let operations = vec![
        EditorOperation::Mode(Mode::Insert),
        EditorOperation::StatusMessage(StatusMessageKind::Info, String::from("ready")),
        EditorOperation::Insert(BufferPosition::line_col(9, 9), String::from("skipped")),
        EditorOperation::StatusMessageAppend(String::from("!")),
    ];
    client.load_config(&operations);
    assert_eq!(Mode::Insert, client.mode);
    assert_eq!("ready!", client.status_message);
    // The buffer edit was not part of the configuration.
    assert_eq!(1, client.buffer.line_count());
}

#[test]
fn command_tokenizer_handles_words_and_strings() {
    let tokens = tokenize_command("open -line=3 'a file.txt' \"say \\\"hi\\\"\"").unwrap();
    assert_eq!(
        vec![
            String::from("open"),
            String::from("-line=3"),
            String::from("a file.txt"),
            String::from("say \"hi\""),
        ],
        tokens,
    );

    assert_eq!(Vec::<String>::new(), tokenize_command("   ").unwrap());
    assert!(tokenize_command("macro 'unclosed").is_err());
    assert!(tokenize_command("print \"unclosed\\\"").is_err());
}
