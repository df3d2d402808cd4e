//! Command mode: a line of input that, once submitted, splits into a
//! command name and its argument text.

use vstd::prelude::*;

use crate::key::Key;
use crate::mode::{poll_input, spec_poll_input, FromMode, InputResult, Mode};

verus! {

/// What handling one key in command mode asks the editor to do.
#[derive(Debug, Clone, PartialEq, Eq)]
pub enum CommandOperation {
    EnterMode(Mode),
    Submit(String, String),
    Pending,
}

/// Entering command mode starts from an empty line.
pub fn on_enter(input: &mut String)
    ensures
        final(input)@ == Seq::<char>::empty(),
{
    input.clear();
}

/// The submitted line split at its first space: the command name, then the
/// argument text from that space on.
pub open spec fn spec_split_command(input: Seq<char>) -> (Seq<char>, Seq<char>) {
    match spec_find_char(input, 0, ' ') {
        Some(i) => (input.take(i), input.skip(i)),
        None => (input, Seq::empty()),
    }
}

/// The least position at or after `from` where `s` holds `c`.
pub open spec fn spec_find_char(s: Seq<char>, from: int, c: char) -> Option<int>
    decreases s.len() - from,
{
    if from < 0 || from >= s.len() {
        None
    } else if s[from] == c {
        Some(from)
    } else {
        spec_find_char(s, from + 1, c)
    }
}

/// Handles one key in command mode: escape returns to the calling mode,
/// enter submits the line split into name and arguments, anything else
/// keeps reading.
pub fn on_event(input: &mut String, key: Key, from_mode: &FromMode) -> (r: CommandOperation)
    ensures
        ({
            let sr = spec_poll_input(old(input)@, key);
            final(input)@ == sr.0 && match r {
                CommandOperation::EnterMode(m) => sr.1 == InputResult::Canceled && (*from_mode
                    == FromMode::Normal ==> m == Mode::Normal) && (*from_mode == FromMode::Insert
                    ==> m == Mode::Insert),
                CommandOperation::Submit(name, args) => sr.1 == InputResult::Submited && name@
                    == spec_split_command(sr.0).0 && args@ == spec_split_command(sr.0).1,
                CommandOperation::Pending => sr.1 == InputResult::Pending,
            }
        }),
{
    match poll_input(input, key) {
        InputResult::Canceled => CommandOperation::EnterMode(from_mode.as_mode()),
        InputResult::Submited => {
            let n = input.as_str().unicode_len();
            match find_char_at(input.as_str(), n, 0, ' ') {
                Some(index) => {
                    let name = input.as_str().substring_char(0, index).to_owned();
                    let args = input.as_str().substring_char(index, n).to_owned();
                    proof {
                        assert(name@ =~= input@.take(index as int));
                        assert(args@ =~= input@.skip(index as int));
                    }
                    CommandOperation::Submit(name, args)
                },
                None => {
                    let name = input.clone();
                    let args = String::new();
                    proof {
                        assert(args@ =~= Seq::<char>::empty());
                    }
                    CommandOperation::Submit(name, args)
                },
            }
        },
        InputResult::Pending => CommandOperation::Pending,
    }
}


/// A command line that cannot be tokenized: a quoted string never closes.
#[derive(Debug, Clone, Copy, PartialEq, Eq, Structural)]
pub struct CommandTokenError {
    pub at: usize,
}

pub open spec fn is_cmd_ws(c: char) -> bool {
    c == ' ' || c == '\t'
}

/// The whitespace run in the command line at `i`.
pub open spec fn cmd_ws_len(s: Seq<char>, i: int) -> int
    decreases s.len() - i,
{
    if i < 0 || i >= s.len() || !is_cmd_ws(s[i]) {
        0
    } else {
        1 + cmd_ws_len(s, i + 1)
    }
}

/// The word in the command line at `i`: the run up to whitespace.
pub open spec fn cmd_word_len(s: Seq<char>, i: int) -> int
    decreases s.len() - i,
{
    if i < 0 || i >= s.len() || is_cmd_ws(s[i]) {
        0
    } else {
        1 + cmd_word_len(s, i + 1)
    }
}

/// A double-quoted string's body read at `i`: the characters up to the
/// closing quote, a backslash giving the character after it verbatim, and
/// the position after the closing quote; or nothing if it never closes.
pub open spec fn spec_scan_dquote(s: Seq<char>, i: int) -> Option<(Seq<char>, int)>
    decreases s.len() - i,
{
    if i < 0 || i >= s.len() {
        None
    } else if s[i] == '"' {
        Some((Seq::empty(), i + 1))
    } else if s[i] == '\\' {
        if i + 1 >= s.len() {
            None
        } else {
            match spec_scan_dquote(s, i + 2) {
                Some((rest, j)) => Some((seq![s[i + 1]] + rest, j)),
                None => None,
            }
        }
    } else {
        match spec_scan_dquote(s, i + 1) {
            Some((rest, j)) => Some((seq![s[i]] + rest, j)),
            None => None,
        }
    }
}

/// The tokens of a command line from `i` on: whitespace-separated words,
/// `'...'` taken verbatim, `"..."` with backslash escapes; or nothing if a
/// quoted string never closes.
pub open spec fn spec_tokenize(s: Seq<char>, i: int) -> Option<Seq<Seq<char>>>
    decreases s.len() - i,
    via spec_tokenize_decreases
{
    if i < 0 {
        None
    } else {
        let j = i + cmd_ws_len(s, i);
        if j >= s.len() {
            Some(Seq::empty())
        } else if s[j] == '\'' {
            match spec_find_char(s, j + 1, '\'') {
                Some(k) => match spec_tokenize(s, k + 1) {
                    Some(rest) => Some(seq![s.subrange(j + 1, k)] + rest),
                    None => None,
                },
                None => None,
            }
        } else if s[j] == '"' {
            match spec_scan_dquote(s, j + 1) {
                Some((tok, k)) => match spec_tokenize(s, k) {
                    Some(rest) => Some(seq![tok] + rest),
                    None => None,
                },
                None => None,
            }
        } else {
            let w = cmd_word_len(s, j);
            match spec_tokenize(s, j + w) {
                Some(rest) => Some(seq![s.subrange(j, j + w)] + rest),
                None => None,
            }
        }
    }
}

proof fn lemma_cmd_ws_len_bounds(s: Seq<char>, i: int)
    requires
        0 <= i <= s.len(),
    ensures
        0 <= cmd_ws_len(s, i),
        i + cmd_ws_len(s, i) <= s.len(),
        i + cmd_ws_len(s, i) < s.len() ==> !is_cmd_ws(s[i + cmd_ws_len(s, i)]),
    decreases s.len() - i,
{
    if i < s.len() && is_cmd_ws(s[i]) {
        lemma_cmd_ws_len_bounds(s, i + 1);
    }
}

proof fn lemma_cmd_word_len_bounds(s: Seq<char>, i: int)
    requires
        0 <= i <= s.len(),
    ensures
        0 <= cmd_word_len(s, i),
        i + cmd_word_len(s, i) <= s.len(),
        i < s.len() && !is_cmd_ws(s[i]) ==> cmd_word_len(s, i) >= 1,
    decreases s.len() - i,
{
    if i < s.len() && !is_cmd_ws(s[i]) {
        lemma_cmd_word_len_bounds(s, i + 1);
    }
}

proof fn lemma_scan_dquote_bounds(s: Seq<char>, i: int)
    requires
        0 <= i,
    ensures
        spec_scan_dquote(s, i) matches Some((tok, j)) ==> i < j <= s.len(),
    decreases s.len() - i,
{
    if 0 <= i < s.len() {
        if s[i] == '"' {
        } else if s[i] == '\\' {
            if i + 1 < s.len() {
                lemma_scan_dquote_bounds(s, i + 2);
            }
        } else {
            lemma_scan_dquote_bounds(s, i + 1);
        }
    }
}

proof fn lemma_find_char_bounds(s: Seq<char>, from: int, c: char)
    requires
        0 <= from,
    ensures
        spec_find_char(s, from, c) matches Some(i) ==> from <= i < s.len(),
    decreases s.len() - from,
{
    if 0 <= from < s.len() && s[from] != c {
        lemma_find_char_bounds(s, from + 1, c);
    }
}

#[via_fn]
proof fn spec_tokenize_decreases(s: Seq<char>, i: int) {
    if i >= 0 {
        if i <= s.len() {
            lemma_cmd_ws_len_bounds(s, i);
        }
        let j = i + cmd_ws_len(s, i);
        if 0 <= j < s.len() {
            if s[j] == '\'' {
                lemma_find_char_bounds(s, j + 1, '\'');
            } else if s[j] == '"' {
                lemma_scan_dquote_bounds(s, j + 1);
            } else {
                lemma_cmd_word_len_bounds(s, j);
            }
        }
    }
}


/// The character sequences of a list of strings.
pub open spec fn strings_view(s: Seq<String>) -> Seq<Seq<char>> {
    s.map_values(|t: String| t@)
}

proof fn lemma_strings_view_push(prev: Seq<String>, x: String)
    ensures
        strings_view(prev.push(x)) =~= strings_view(prev).push(x@),
{
    assert forall|k: int| 0 <= k < prev.len() + 1 implies #[trigger] strings_view(prev.push(x))[k]
        == strings_view(prev).push(x@)[k] by {
        if k < prev.len() {
            assert(prev.push(x)[k] == prev[k]);
        } else {
            assert(prev.push(x)[k] == x);
        }
    }
}

/// Skips the command-line whitespace run at `i`.
fn cmd_ws_run(s: &str, n: usize, i: usize) -> (r: usize)
    requires
        n == s@.len(),
        i <= n,
    ensures
        r == i + cmd_ws_len(s@, i as int),
        i <= r <= n,
{
    let mut j = i;
    loop
        invariant
            i <= j <= n,
            n == s@.len(),
            cmd_ws_len(s@, i as int) == (j - i) + cmd_ws_len(s@, j as int),
        decreases n - j,
    {
        if j >= n {
            return j;
        }
        let c = s.get_char(j);
        if !(c == ' ' || c == '\t') {
            return j;
        }
        j = j + 1;
    }
}

/// Measures the word at `i`.
fn cmd_word_run(s: &str, n: usize, i: usize) -> (r: usize)
    requires
        n == s@.len(),
        i <= n,
    ensures
        r == cmd_word_len(s@, i as int),
        i + r <= n,
{
    let mut j = i;
    loop
        invariant
            i <= j <= n,
            n == s@.len(),
            cmd_word_len(s@, i as int) == (j - i) + cmd_word_len(s@, j as int),
        decreases n - j,
    {
        if j >= n {
            return j - i;
        }
        let c = s.get_char(j);
        if c == ' ' || c == '\t' {
            return j - i;
        }
        j = j + 1;
    }
}

/// The least position at or after `from` where `s` holds `c`.
fn find_char_at(s: &str, n: usize, from: usize, c: char) -> (r: Option<usize>)
    requires
        n == s@.len(),
        from <= n,
    ensures
        ({
            let sr = spec_find_char(s@, from as int, c);
            match r {
                Some(i) => sr == Some(i as int) && from <= i < n,
                None => sr is None,
            }
        }),
{
    let mut j = from;
    loop
        invariant
            from <= j <= n,
            n == s@.len(),
            spec_find_char(s@, from as int, c) == spec_find_char(s@, j as int, c),
        decreases n - j,
    {
        if j >= n {
            return None;
        }
        if s.get_char(j) == c {
            return Some(j);
        }
        j = j + 1;
    }
}

/// Splits a command line into its tokens: whitespace-separated words,
/// `'...'` strings taken verbatim, and `"..."` strings where a backslash
/// gives the character after it verbatim. An unclosed string is an error
/// naming where it began.
pub fn tokenize_command(s: &str) -> (r: Result<Vec<String>, CommandTokenError>)
    ensures
        ({
            let sr = spec_tokenize(s@, 0);
            match r {
                Ok(tokens) => sr == Some(strings_view(tokens@)),
                Err(_) => sr is None,
            }
        }),
{
    let n = s.unicode_len();
    let mut out: Vec<String> = Vec::new();
    let mut i: usize = 0;
    loop
        invariant
            0 <= i <= n,
            n == s@.len(),
            ({
                let whole = spec_tokenize(s@, 0);
                match spec_tokenize(s@, i as int) {
                    Some(rest) => whole == Some::<Seq<Seq<char>>>(strings_view(out@) + rest),
                    None => whole is None,
                }
            }),
        decreases n - i,
    {
        let j = cmd_ws_run(s, n, i);
        proof {
            lemma_cmd_ws_len_bounds(s@, i as int);
        }
        if j >= n {
            proof {
                assert(spec_tokenize(s@, i as int) == Some(Seq::<Seq<char>>::empty()));
                assert(strings_view(out@) + Seq::<Seq<char>>::empty() =~= strings_view(out@));
            }
            return Ok(out);
        }
        let c = s.get_char(j);
        if c == '\'' {
            match find_char_at(s, n, j + 1, '\'') {
                Some(k) => {
                    let token = s.substring_char(j + 1, k).to_owned();
                    let ghost prev = out@;
                    out.push(token);
                    proof {
                        lemma_strings_view_push(prev, out@[out@.len() - 1]);
                        let rest0 = spec_tokenize(s@, i as int);
                        let rest1 = spec_tokenize(s@, k + 1);
                        if rest1 is Some {
                            assert(strings_view(out@) + rest1->0 =~= strings_view(prev) + (seq![
                                s@.subrange(j + 1, k as int),
                            ] + rest1->0));
                        }
                    }
                    i = k + 1;
                },
                None => {
                    proof {
                        assert(spec_tokenize(s@, i as int) is None);
                    }
                    return Err(CommandTokenError { at: j });
                },
            }
        } else if c == '"' {
            let mut token = String::new();
            let mut m = j + 1;
            loop
                invariant_except_break
                    ({
                        let whole = spec_scan_dquote(s@, j + 1);
                        match spec_scan_dquote(s@, m as int) {
                            Some((rest, k)) => whole == Some::<(Seq<char>, int)>(
                                (token@ + rest, k),
                            ),
                            None => whole is None,
                        }
                    }),
                invariant
                    j + 1 <= m <= n,
                    n == s@.len(),
                    0 <= i <= n,
                    j == i + cmd_ws_len(s@, i as int),
                    j < n,
                    s@[j as int] == '"',
                    ({
                        let whole = spec_tokenize(s@, 0);
                        match spec_tokenize(s@, i as int) {
                            Some(rest) => whole == Some::<Seq<Seq<char>>>(
                                strings_view(out@) + rest,
                            ),
                            None => whole is None,
                        }
                    }),
                ensures
                    j + 2 <= m <= n,
                    spec_scan_dquote(s@, j + 1) == Some::<(Seq<char>, int)>((token@, m as int)),
                decreases n - m,
            {
                if m >= n {
                    proof {
                        assert(spec_scan_dquote(s@, j + 1) is None);
                        assert(spec_tokenize(s@, i as int) is None);
                    }
                    return Err(CommandTokenError { at: j });
                }
                let cm = s.get_char(m);
                if cm == '"' {
                    proof {
                        assert(spec_scan_dquote(s@, m as int) == Some::<(Seq<char>, int)>(
                            (Seq::empty(), m + 1),
                        ));
                        assert(token@ + Seq::<char>::empty() =~= token@);
                    }
                    m = m + 1;
                    break ;
                } else if cm == '\\' {
                    if m + 1 >= n {
                        proof {
                            assert(spec_scan_dquote(s@, m as int) is None);
                            assert(spec_scan_dquote(s@, j + 1) is None);
                            assert(spec_tokenize(s@, i as int) is None);
                        }
                        return Err(CommandTokenError { at: j });
                    }
                    let ghost prevtok = token@;
                    crate::mode::push_char(&mut token, s.get_char(m + 1));
                    proof {
                        let inner = spec_scan_dquote(s@, m + 2);
                        if inner is Some {
                            assert(token@ + (inner->0).0 =~= prevtok + (seq![s@[m + 1]]
                                + (inner->0).0));
                        }
                    }
                    m = m + 2;
                } else {
                    let ghost prevtok = token@;
                    crate::mode::push_char(&mut token, cm);
                    proof {
                        let inner = spec_scan_dquote(s@, m + 1);
                        if inner is Some {
                            assert(token@ + (inner->0).0 =~= prevtok + (seq![s@[m as int]]
                                + (inner->0).0));
                        }
                    }
                    m = m + 1;
                }
            }
            let ghost prev = out@;
            let ghost tokview = token@;
            out.push(token);
            proof {
                lemma_strings_view_push(prev, out@[out@.len() - 1]);
                let rest1 = spec_tokenize(s@, m as int);
                if rest1 is Some {
                    assert(strings_view(out@) + rest1->0 =~= strings_view(prev) + (seq![tokview]
                        + rest1->0));
                }
            }
            i = m;
        } else {
            let w = cmd_word_run(s, n, j);
            proof {
                lemma_cmd_word_len_bounds(s@, j as int);
            }
            let token = s.substring_char(j, j + w).to_owned();
            let ghost prev = out@;
            out.push(token);
            proof {
                lemma_strings_view_push(prev, out@[out@.len() - 1]);
                let rest1 = spec_tokenize(s@, j + w);
                if rest1 is Some {
                    assert(strings_view(out@) + rest1->0 =~= strings_view(prev) + (seq![
                        s@.subrange(j as int, j + w),
                    ] + rest1->0));
                }
            }
            i = j + w;
        }
    }
}

} // verus!
