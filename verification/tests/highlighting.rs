use edcore::buffer::{BufferContent, BufferPosition, BufferRange};
use edcore::pattern::Pattern;
use edcore::syntax::{
    HighlightedBuffer, LineState, Syntax, SyntaxCollection, Token, TokenKind,
};

fn assert_token(slice: &str, kind: TokenKind, line: &str, token: &Token) {
    assert_eq!(kind, token.kind);
    assert_eq!(slice, &line[token.from..token.to]);
}

#[test]
fn test_no_syntax() {
    let syntax = Syntax::default();
    let mut tokens = Vec::new();
    let line = " fn main() ;  ";
    let line_kind = syntax.parse_line(line.as_bytes(), LineState::Finished, &mut tokens);

    assert_eq!(LineState::Finished, line_kind);
    assert_eq!(1, tokens.len());
    assert_token(line, TokenKind::Text, line, &tokens[0]);
}

#[test]
fn test_one_rule_syntax() {
    let mut syntax = Syntax::default();
    syntax.add_rule(TokenKind::Symbol, Pattern::new(";").unwrap());

    let mut tokens = Vec::new();
    let line = " fn main() ;  ";
    let line_kind = syntax.parse_line(line.as_bytes(), LineState::Finished, &mut tokens);

    assert_eq!(LineState::Finished, line_kind);
    assert_eq!(6, tokens.len());
    assert_token(" fn", TokenKind::Text, line, &tokens[0]);
    assert_token(" main", TokenKind::Text, line, &tokens[1]);
    assert_token("(", TokenKind::Text, line, &tokens[2]);
    assert_token(")", TokenKind::Text, line, &tokens[3]);
    assert_token(" ;", TokenKind::Symbol, line, &tokens[4]);
    assert_token("  ", TokenKind::Text, line, &tokens[5]);
}

#[test]
fn test_simple_syntax() {
    let mut syntax = Syntax::default();
    syntax.add_rule(TokenKind::Keyword, Pattern::new("fn").unwrap());
    syntax.add_rule(TokenKind::Symbol, Pattern::new("%(").unwrap());
    syntax.add_rule(TokenKind::Symbol, Pattern::new("%)").unwrap());

    let mut tokens = Vec::new();
    let line = " fn main() ;  ";
    let line_kind = syntax.parse_line(line.as_bytes(), LineState::Finished, &mut tokens);

    assert_eq!(LineState::Finished, line_kind);
    assert_eq!(6, tokens.len());
    assert_token(" fn", TokenKind::Keyword, line, &tokens[0]);
    assert_token(" main", TokenKind::Text, line, &tokens[1]);
    assert_token("(", TokenKind::Symbol, line, &tokens[2]);
    assert_token(")", TokenKind::Symbol, line, &tokens[3]);
    assert_token(" ;", TokenKind::Text, line, &tokens[4]);
    assert_token("  ", TokenKind::Text, line, &tokens[5]);
}

#[test]
fn test_multiline_syntax() {
    let mut syntax = Syntax::default();
    syntax.add_rule(TokenKind::Comment, Pattern::new("/*{!(*/).$}").unwrap());

    let mut tokens = Vec::new();
    let line0 = "before /* comment";
    let line1 = "only comment";
    let line2 = "still comment */ after";

    let line0_kind = syntax.parse_line(line0.as_bytes(), LineState::Finished, &mut tokens);
    match line0_kind {
        LineState::Unfinished(i, _) => assert_eq!(0, i),
        _ => panic!("{:?}", line0_kind),
    }
    assert_eq!(2, tokens.len());
    assert_token("before", TokenKind::Text, line0, &tokens[0]);
    assert_token(" /* comment", TokenKind::Comment, line0, &tokens[1]);

    let line1_kind = syntax.parse_line(line1.as_bytes(), line0_kind, &mut tokens);
    match line1_kind {
        LineState::Unfinished(i, _) => assert_eq!(0, i),
        _ => panic!("{:?}", line1_kind),
    }
    assert_eq!(1, tokens.len());
    assert_token("only comment", TokenKind::Comment, line1, &tokens[0]);

    let line2_kind = syntax.parse_line(line2.as_bytes(), line1_kind, &mut tokens);
    assert_eq!(LineState::Finished, line2_kind);
    assert_eq!(2, tokens.len());
    assert_token("still comment */", TokenKind::Comment, line2, &tokens[0]);
    assert_token(" after", TokenKind::Text, line2, &tokens[1]);
}

fn all_tokens(highlighted: &HighlightedBuffer) -> Vec<Token> {
    let mut out = Vec::new();
    for i in 0..highlighted.line_count() {
        for token in highlighted.line_tokens(i).iter() {
            out.push(*token);
        }
    }
    out
}

#[test]
fn test_editing_highlighted_buffer() {
    let mut syntax = Syntax::default();
    syntax.add_rule(TokenKind::Comment, Pattern::new("/*{!(*/).$}").unwrap());
    syntax.add_rule(TokenKind::String, Pattern::new("'{!'.$}").unwrap());

    let mut buffer = BufferContent::from_str("/*\n*/");

    let mut highlighted = HighlightedBuffer::new();
    highlighted.highligh_all(&syntax, &buffer);

    let tokens = all_tokens(&highlighted);
    assert_eq!(2, tokens.len());
    assert_eq!((TokenKind::Comment, 0, 2), (tokens[0].kind, tokens[0].from, tokens[0].to));
    assert_eq!((TokenKind::Comment, 0, 2), (tokens[1].kind, tokens[1].from, tokens[1].to));

    let range = buffer.insert_text(BufferPosition::line_col(1, 0), "'");
    highlighted.on_insert(&syntax, &buffer, range);

    let tokens = all_tokens(&highlighted);
    assert_eq!(2, tokens.len());
    assert_eq!((TokenKind::Comment, 0, 2), (tokens[0].kind, tokens[0].from, tokens[0].to));
    assert_eq!((TokenKind::Comment, 0, 3), (tokens[1].kind, tokens[1].from, tokens[1].to));
}

#[test]
fn multiline_comment_states_converge() {
    let mut syntax = Syntax::default();
    syntax.add_rule(TokenKind::Comment, Pattern::new("/*{!(*/).$}").unwrap());

    let buffer = BufferContent::from_str("/*\n*/");
    let mut highlighted = HighlightedBuffer::new();
    highlighted.highligh_all(&syntax, &buffer);

    assert!(matches!(highlighted.line_state(0), LineState::Unfinished(0, _)));
    assert_eq!(LineState::Finished, highlighted.line_state(1));
}

#[test]
fn incremental_repair_matches_full_rehighlight() {
    let mut syntax = Syntax::default();
    syntax.add_rule(TokenKind::Comment, Pattern::new("/*{!(*/).$}").unwrap());
    syntax.add_rule(TokenKind::Keyword, Pattern::new("fn").unwrap());

    let mut buffer = BufferContent::from_str("fn a\nfn b\nfn c");
    let mut incremental = HighlightedBuffer::new();
    incremental.highligh_all(&syntax, &buffer);

    // Open a comment on the first line; every later line changes meaning.
    let range = buffer.insert_text(BufferPosition::line_col(0, 4), " /*x\ny");
    incremental.on_insert(&syntax, &buffer, range);

    // Close it again in the middle.
    let del = BufferRange {
        from: BufferPosition::line_col(1, 0),
        to: BufferPosition::line_col(2, 2),
    };
    buffer.delete_range(del);
    incremental.on_delete(&syntax, &buffer, del);

    let mut full = HighlightedBuffer::new();
    full.highligh_all(&syntax, &buffer);

    assert_eq!(full.line_count(), incremental.line_count());
    for i in 0..full.line_count() {
        assert_eq!(full.line_state(i), incremental.line_state(i));
        assert_eq!(full.line_tokens(i), incremental.line_tokens(i));
    }
}

#[test]
fn token_kind_lookup() {
    let mut syntax = Syntax::default();
    syntax.add_rule(TokenKind::Keyword, Pattern::new("fn").unwrap());

    let buffer = BufferContent::from_str("fn main");
    let mut highlighted = HighlightedBuffer::new();
    highlighted.highligh_all(&syntax, &buffer);

    assert_eq!(TokenKind::Keyword, highlighted.find_token_kind_at(0, 0));
    assert_eq!(TokenKind::Text, highlighted.find_token_kind_at(0, 4));
    assert_eq!(TokenKind::Text, highlighted.find_token_kind_at(9, 0));
}

#[test]
fn syntax_collection_lookup_by_path() {
    let mut rust = Syntax::new();
    rust.set_glob(b"*.rs");
    rust.add_rule(TokenKind::Keyword, Pattern::new("fn").unwrap());

    let mut lua = Syntax::new();
    lua.set_glob(b"*.lua");

    let mut collection = SyntaxCollection::new();
    collection.add(rust);
    collection.add(lua);

    let handle = collection.find_handle_by_path(b"src/main.rs").unwrap();
    let syntax = collection.get(handle);
    let mut tokens = Vec::new();
    let state = syntax.parse_line(b"fn", LineState::Finished, &mut tokens);
    assert_eq!(LineState::Finished, state);
    assert_eq!(1, tokens.len());
    assert_eq!(TokenKind::Keyword, tokens[0].kind);

    assert!(collection.find_handle_by_path(b"readme.md").is_none());
    assert!(collection.find_handle_by_path(b"init.lua").is_some());
}

#[test]
fn pattern_compilation() {
    assert!(Pattern::new("").is_err());
    assert!(Pattern::new("%").is_err());
    assert!(Pattern::new("a{!b.$").is_err());
    assert!(Pattern::new("a{b}").is_err());
    assert!(Pattern::new(";").is_ok());
    assert!(Pattern::new("%(").is_ok());
    assert!(Pattern::new("/*{!(*/).$}").is_ok());
    assert!(Pattern::new("'{!'.$}").is_ok());
}

#[test]
fn buffer_insert_and_delete() {
    let mut buffer = BufferContent::from_str("hello\nworld");
    assert_eq!(2, buffer.line_count());
    assert_eq!(b"hello", buffer.line_at(0));

    let range = buffer.insert_text(BufferPosition::line_col(0, 5), ", there\nbig");
    assert_eq!(BufferPosition::line_col(0, 5), range.from);
    assert_eq!(BufferPosition::line_col(1, 3), range.to);
    assert_eq!(3, buffer.line_count());
    assert_eq!(b"hello, there", buffer.line_at(0));
    assert_eq!(b"big", buffer.line_at(1));
    assert_eq!(b"world", buffer.line_at(2));

    buffer.delete_range(range);
    assert_eq!(2, buffer.line_count());
    assert_eq!(b"hello", buffer.line_at(0));
    assert_eq!(b"world", buffer.line_at(1));
}
