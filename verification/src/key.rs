//! Keystrokes: the `Key` value a client captures, its textual form
//! (`<c-a>`, `<f10>`, `<enter>`, ...) and the parser for that form.

use vstd::prelude::*;

verus! {

/// A single keystroke. `F` carries the function-key number; `Char`, `Ctrl`
/// and `Alt` carry one ASCII code point.
#[derive(Debug, Clone, Copy, PartialEq, Eq, Structural)]
pub enum Key {
    Nil,
    Backspace,
    Enter,
    Left,
    Right,
    Up,
    Down,
    Home,
    End,
    PageUp,
    PageDown,
    Tab,
    Delete,
    F(u8),
    Char(char),
    Ctrl(char),
    Alt(char),
    Esc,
}

/// The keys the protocol enumerates: function keys go up to 99 and the
/// character-carrying variants hold a single ASCII code point. `F(0)` is
/// admitted here because the textual grammar reads `<f0>` and the codec
/// round-trips it, though terminals only produce `F(1)` and up.
pub open spec fn key_wf(k: Key) -> bool {
    match k {
        Key::F(n) => n <= 99,
        Key::Char(c) => c as u32 <= 127,
        Key::Ctrl(c) => c as u32 <= 127,
        Key::Alt(c) => c as u32 <= 127,
        _ => true,
    }
}

impl Key {
    /// Whether this key is one the protocol enumerates.
    pub fn is_wf(&self) -> (r: bool)
        ensures
            r == key_wf(*self),
    {
        match *self {
            Key::F(n) => n <= 99,
            Key::Char(c) => c as u32 <= 127,
            Key::Ctrl(c) => c as u32 <= 127,
            Key::Alt(c) => c as u32 <= 127,
            _ => true,
        }
    }
}

/// Why a key's textual form failed to parse: the text ended mid-token, or
/// held a character the grammar does not allow at that point.
#[derive(Debug, Clone, Copy, PartialEq, Eq, Structural)]
pub enum KeyParseError {
    UnexpectedEnd,
    InvalidCharacter(char),
}

pub open spec fn is_ascii_digit_char(c: char) -> bool {
    48 <= c as u32 <= 57
}

pub open spec fn is_ascii_alnum_char(c: char) -> bool {
    ||| 48 <= c as u32 <= 57
    ||| 65 <= c as u32 <= 90
    ||| 97 <= c as u32 <= 122
}

pub open spec fn digit_val(c: char) -> u32 {
    (c as u32 - 48) as u32
}

/// Consuming the literal `lit` from `s` at position `i`: the position after
/// it, or the error the key grammar reports there, paired with the position
/// just past the character that failed (the text's end for a text that ran
/// out).
pub open spec fn spec_match_lit(s: Seq<char>, i: int, lit: Seq<char>) -> Result<
    int,
    (KeyParseError, int),
>
    decreases lit.len(),
{
    if lit.len() == 0 {
        Ok(i)
    } else if i < 0 || i >= s.len() {
        Err((KeyParseError::UnexpectedEnd, s.len() as int))
    } else if s[i] != lit[0] {
        Err((KeyParseError::InvalidCharacter(s[i]), i + 1))
    } else {
        spec_match_lit(s, i + 1, lit.drop_first())
    }
}

pub open spec fn spec_lit_key(s: Seq<char>, i: int, lit: Seq<char>, k: Key) -> Result<
    (Key, int),
    (KeyParseError, int),
> {
    match spec_match_lit(s, i, lit) {
        Ok(j) => Ok((k, j)),
        Err(e) => Err(e),
    }
}

/// What follows `<f` at position `i`: one or two decimal digits and `>`.
pub open spec fn spec_parse_fkey(s: Seq<char>, i: int) -> Result<
    (Key, int),
    (KeyParseError, int),
> {
    if i >= s.len() {
        Err((KeyParseError::UnexpectedEnd, s.len() as int))
    } else if !is_ascii_digit_char(s[i]) {
        Err((KeyParseError::InvalidCharacter(s[i]), i + 1))
    } else if i + 1 >= s.len() {
        Err((KeyParseError::UnexpectedEnd, s.len() as int))
    } else if is_ascii_digit_char(s[i + 1]) {
        if i + 2 >= s.len() {
            Err((KeyParseError::UnexpectedEnd, s.len() as int))
        } else if s[i + 2] != '>' {
            Err((KeyParseError::InvalidCharacter(s[i + 2]), i + 3))
        } else {
            Ok((Key::F((digit_val(s[i]) * 10 + digit_val(s[i + 1])) as u8), i + 3))
        }
    } else if s[i + 1] == '>' {
        Ok((Key::F(digit_val(s[i]) as u8), i + 2))
    } else {
        Err((KeyParseError::InvalidCharacter(s[i + 1]), i + 2))
    }
}

/// What follows `<c-` or `<a-` at position `i`: one ASCII alphanumeric
/// character and `>`; `ctrl` selects between the two variants.
pub open spec fn spec_parse_modified(s: Seq<char>, i: int, ctrl: bool) -> Result<
    (Key, int),
    (KeyParseError, int),
> {
    if i >= s.len() {
        Err((KeyParseError::UnexpectedEnd, s.len() as int))
    } else if s[i] != '-' {
        Err((KeyParseError::InvalidCharacter(s[i]), i + 1))
    } else if i + 1 >= s.len() {
        Err((KeyParseError::UnexpectedEnd, s.len() as int))
    } else if !is_ascii_alnum_char(s[i + 1]) {
        Err((KeyParseError::InvalidCharacter(s[i + 1]), i + 2))
    } else if i + 2 >= s.len() {
        Err((KeyParseError::UnexpectedEnd, s.len() as int))
    } else if s[i + 2] != '>' {
        Err((KeyParseError::InvalidCharacter(s[i + 2]), i + 3))
    } else if ctrl {
        Ok((Key::Ctrl(s[i + 1]), i + 3))
    } else {
        Ok((Key::Alt(s[i + 1]), i + 3))
    }
}

/// What follows `<` at position `i`: a named key, `<fN>`, `<c-X>` or `<a-X>`.
pub open spec fn spec_parse_angle(s: Seq<char>, i: int) -> Result<
    (Key, int),
    (KeyParseError, int),
> {
    if i >= s.len() {
        Err((KeyParseError::UnexpectedEnd, s.len() as int))
    } else {
        match s[i] {
            'b' => spec_lit_key(s, i + 1, "ackspace>"@, Key::Backspace),
            's' => spec_lit_key(s, i + 1, "pace>"@, Key::Char(' ')),
            'e' => if i + 1 >= s.len() {
                Err((KeyParseError::UnexpectedEnd, s.len() as int))
            } else {
                match s[i + 1] {
                    'n' => if i + 2 >= s.len() {
                        Err((KeyParseError::UnexpectedEnd, s.len() as int))
                    } else {
                        match s[i + 2] {
                            't' => spec_lit_key(s, i + 3, "er>"@, Key::Enter),
                            'd' => spec_lit_key(s, i + 3, ">"@, Key::End),
                            c => Err((KeyParseError::InvalidCharacter(c), i + 3)),
                        }
                    },
                    's' => spec_lit_key(s, i + 2, "c>"@, Key::Esc),
                    c => Err((KeyParseError::InvalidCharacter(c), i + 2)),
                }
            },
            'l' => if i + 1 >= s.len() {
                Err((KeyParseError::UnexpectedEnd, s.len() as int))
            } else if s[i + 1] != 'e' {
                Err((KeyParseError::InvalidCharacter(s[i + 1]), i + 2))
            } else if i + 2 >= s.len() {
                Err((KeyParseError::UnexpectedEnd, s.len() as int))
            } else {
                match s[i + 2] {
                    's' => spec_lit_key(s, i + 3, "s>"@, Key::Char('<')),
                    'f' => spec_lit_key(s, i + 3, "t>"@, Key::Left),
                    c => Err((KeyParseError::InvalidCharacter(c), i + 3)),
                }
            },
            'g' => spec_lit_key(s, i + 1, "reater>"@, Key::Char('>')),
            'r' => spec_lit_key(s, i + 1, "ight>"@, Key::Right),
            'u' => spec_lit_key(s, i + 1, "p>"@, Key::Up),
            'd' => if i + 1 >= s.len() {
                Err((KeyParseError::UnexpectedEnd, s.len() as int))
            } else {
                match s[i + 1] {
                    'o' => spec_lit_key(s, i + 2, "wn>"@, Key::Down),
                    'e' => spec_lit_key(s, i + 2, "lete>"@, Key::Delete),
                    c => Err((KeyParseError::InvalidCharacter(c), i + 2)),
                }
            },
            'h' => spec_lit_key(s, i + 1, "ome>"@, Key::Home),
            'p' => match spec_match_lit(s, i + 1, "age"@) {
                Err(e) => Err(e),
                Ok(j) => if j >= s.len() {
                    Err((KeyParseError::UnexpectedEnd, s.len() as int))
                } else {
                    match s[j] {
                        'u' => spec_lit_key(s, j + 1, "p>"@, Key::PageUp),
                        'd' => spec_lit_key(s, j + 1, "own>"@, Key::PageDown),
                        c => Err((KeyParseError::InvalidCharacter(c), j + 1)),
                    }
                },
            },
            't' => spec_lit_key(s, i + 1, "ab>"@, Key::Tab),
            'f' => spec_parse_fkey(s, i + 1),
            'c' => spec_parse_modified(s, i + 1, true),
            'a' => spec_parse_modified(s, i + 1, false),
            c => Err((KeyParseError::InvalidCharacter(c), i + 1)),
        }
    }
}

/// One key read from `s` at position `i`: the key and the position after its
/// textual form, or the error and the position just past the character that
/// failed. A bare ASCII character other than `<` and `>` is itself a key;
/// everything else is bracketed.
pub open spec fn spec_parse_key(s: Seq<char>, i: int) -> Result<
    (Key, int),
    (KeyParseError, int),
> {
    if i >= s.len() {
        Err((KeyParseError::UnexpectedEnd, s.len() as int))
    } else {
        match s[i] {
            '<' => spec_parse_angle(s, i + 1),
            '>' => Err((KeyParseError::InvalidCharacter('>'), i + 1)),
            c => if c as u32 <= 127 {
                Ok((Key::Char(c), i + 1))
            } else {
                Err((KeyParseError::InvalidCharacter(c), i + 1))
            },
        }
    }
}

/// Consumes the literal `lit` from `s` starting at `i`.
fn consume_lit(s: &str, n: usize, i: usize, lit: &str) -> (r: Result<
    usize,
    (KeyParseError, usize),
>)
    requires
        n == s@.len(),
        i <= n,
    ensures
        ({
            let sr = spec_match_lit(s@, i as int, lit@);
            match r {
                Ok(j) => sr == Ok::<int, (KeyParseError, int)>(j as int) && i <= j <= n,
                Err((e, p)) => sr == Err::<int, (KeyParseError, int)>((e, p as int)) && p <= n,
            }
        }),
{
    let ln = lit.unicode_len();
    let mut j: usize = 0;
    let mut pos: usize = i;
    proof {
        assert(lit@.skip(0) =~= lit@);
    }
    while j < ln
        invariant
            n == s@.len(),
            ln == lit@.len(),
            j <= ln,
            i <= pos <= n,
            pos == i + j,
            spec_match_lit(s@, i as int, lit@) == spec_match_lit(
                s@,
                pos as int,
                lit@.skip(j as int),
            ),
        decreases ln - j,
    {
        if pos >= n {
            return Err((KeyParseError::UnexpectedEnd, n));
        }
        let c = s.get_char(pos);
        let lc = lit.get_char(j);
        if c != lc {
            return Err((KeyParseError::InvalidCharacter(c), pos + 1));
        }
        proof {
            assert(lit@.skip(j as int)[0] == lit@[j as int]);
            assert(lit@.skip(j as int).drop_first() =~= lit@.skip(j as int + 1));
        }
        pos = pos + 1;
        j = j + 1;
    }
    proof {
        assert(lit@.skip(j as int) =~= Seq::<char>::empty());
    }
    Ok(pos)
}

/// Consumes `lit` and yields `k`, as the bracketed key names do.
fn lit_key(s: &str, n: usize, i: usize, lit: &str, k: Key) -> (r: Result<
    (Key, usize),
    (KeyParseError, usize),
>)
    requires
        n == s@.len(),
        i <= n,
    ensures
        ({
            let sr = spec_lit_key(s@, i as int, lit@, k);
            match r {
                Ok((key, j)) => sr == Ok::<(Key, int), (KeyParseError, int)>((key, j as int)) && i
                    <= j <= n,
                Err((e, p)) => sr == Err::<(Key, int), (KeyParseError, int)>((e, p as int)) && p
                    <= n,
            }
        }),
{
    match consume_lit(s, n, i, lit) {
        Ok(j) => Ok((k, j)),
        Err(e) => Err(e),
    }
}

/// Reads one key from `s` starting at character position `i`, returning the
/// key and the position just past its textual form; an error carries the
/// position just past the character that failed.
pub fn parse_key_at(s: &str, i: usize) -> (r: Result<(Key, usize), (KeyParseError, usize)>)
    requires
        i <= s@.len(),
    ensures
        ({
            let sr = spec_parse_key(s@, i as int);
            match r {
                Ok((key, j)) => sr == Ok::<(Key, int), (KeyParseError, int)>((key, j as int)) && i
                    < j <= s@.len(),
                Err((e, p)) => sr == Err::<(Key, int), (KeyParseError, int)>((e, p as int)) && p
                    <= s@.len(),
            }
        }),
{
    let n = s.unicode_len();
    if i >= n {
        return Err((KeyParseError::UnexpectedEnd, n));
    }
    let c0 = s.get_char(i);
    if c0 == '>' {
        return Err((KeyParseError::InvalidCharacter('>'), i + 1));
    }
    if c0 != '<' {
        if c0 as u32 <= 127 {
            return Ok((Key::Char(c0), i + 1));
        } else {
            return Err((KeyParseError::InvalidCharacter(c0), i + 1));
        }
    }
    let i = i + 1;
    if i >= n {
        return Err((KeyParseError::UnexpectedEnd, n));
    }
    let c1 = s.get_char(i);
    match c1 {
        'b' => lit_key(s, n, i + 1, "ackspace>", Key::Backspace),
        's' => lit_key(s, n, i + 1, "pace>", Key::Char(' ')),
        'e' => {
            if i + 1 >= n {
                return Err((KeyParseError::UnexpectedEnd, n));
            }
            let c2 = s.get_char(i + 1);
            match c2 {
                'n' => {
                    if i + 2 >= n {
                        return Err((KeyParseError::UnexpectedEnd, n));
                    }
                    let c3 = s.get_char(i + 2);
                    match c3 {
                        't' => lit_key(s, n, i + 3, "er>", Key::Enter),
                        'd' => lit_key(s, n, i + 3, ">", Key::End),
                        _ => Err((KeyParseError::InvalidCharacter(c3), i + 3)),
                    }
                },
                's' => lit_key(s, n, i + 2, "c>", Key::Esc),
                _ => Err((KeyParseError::InvalidCharacter(c2), i + 2)),
            }
        },
        'l' => {
            if i + 1 >= n {
                return Err((KeyParseError::UnexpectedEnd, n));
            }
            let c2 = s.get_char(i + 1);
            if c2 != 'e' {
                return Err((KeyParseError::InvalidCharacter(c2), i + 2));
            }
            if i + 2 >= n {
                return Err((KeyParseError::UnexpectedEnd, n));
            }
            let c3 = s.get_char(i + 2);
            match c3 {
                's' => lit_key(s, n, i + 3, "s>", Key::Char('<')),
                'f' => lit_key(s, n, i + 3, "t>", Key::Left),
                _ => Err((KeyParseError::InvalidCharacter(c3), i + 3)),
            }
        },
        'g' => lit_key(s, n, i + 1, "reater>", Key::Char('>')),
        'r' => lit_key(s, n, i + 1, "ight>", Key::Right),
        'u' => lit_key(s, n, i + 1, "p>", Key::Up),
        'd' => {
            if i + 1 >= n {
                return Err((KeyParseError::UnexpectedEnd, n));
            }
            let c2 = s.get_char(i + 1);
            match c2 {
                'o' => lit_key(s, n, i + 2, "wn>", Key::Down),
                'e' => lit_key(s, n, i + 2, "lete>", Key::Delete),
                _ => Err((KeyParseError::InvalidCharacter(c2), i + 2)),
            }
        },
        'h' => lit_key(s, n, i + 1, "ome>", Key::Home),
        'p' => {
            let j = match consume_lit(s, n, i + 1, "age") {
                Ok(j) => j,
                Err(e) => {
                    return Err(e);
                },
            };
            if j >= n {
                return Err((KeyParseError::UnexpectedEnd, n));
            }
            let c2 = s.get_char(j);
            match c2 {
                'u' => lit_key(s, n, j + 1, "p>", Key::PageUp),
                'd' => lit_key(s, n, j + 1, "own>", Key::PageDown),
                _ => Err((KeyParseError::InvalidCharacter(c2), j + 1)),
            }
        },
        't' => lit_key(s, n, i + 1, "ab>", Key::Tab),
        'f' => parse_fkey(s, n, i + 1),
        'c' => parse_modified(s, n, i + 1, true),
        'a' => parse_modified(s, n, i + 1, false),
        _ => Err((KeyParseError::InvalidCharacter(c1), i + 1)),
    }
}

fn parse_fkey(s: &str, n: usize, i: usize) -> (r: Result<(Key, usize), (KeyParseError, usize)>)
    requires
        n == s@.len(),
        i <= n,
    ensures
        ({
            let sr = spec_parse_fkey(s@, i as int);
            match r {
                Ok((key, j)) => sr == Ok::<(Key, int), (KeyParseError, int)>((key, j as int)) && i
                    < j <= n,
                Err((e, p)) => sr == Err::<(Key, int), (KeyParseError, int)>((e, p as int)) && p
                    <= n,
            }
        }),
{
    if i >= n {
        return Err((KeyParseError::UnexpectedEnd, n));
    }
    let c0 = s.get_char(i);
    let u0 = c0 as u32;
    if !(48 <= u0 && u0 <= 57) {
        return Err((KeyParseError::InvalidCharacter(c0), i + 1));
    }
    let d0 = (u0 - 48) as u8;
    if i + 1 >= n {
        return Err((KeyParseError::UnexpectedEnd, n));
    }
    let c1 = s.get_char(i + 1);
    let u1 = c1 as u32;
    if 48 <= u1 && u1 <= 57 {
        let d1 = (u1 - 48) as u8;
        if i + 2 >= n {
            return Err((KeyParseError::UnexpectedEnd, n));
        }
        let c2 = s.get_char(i + 2);
        if c2 != '>' {
            return Err((KeyParseError::InvalidCharacter(c2), i + 3));
        }
        Ok((Key::F(d0 * 10 + d1), i + 3))
    } else if c1 == '>' {
        Ok((Key::F(d0), i + 2))
    } else {
        Err((KeyParseError::InvalidCharacter(c1), i + 2))
    }
}

fn parse_modified(s: &str, n: usize, i: usize, ctrl: bool) -> (r: Result<
    (Key, usize),
    (KeyParseError, usize),
>)
    requires
        n == s@.len(),
        i <= n,
    ensures
        ({
            let sr = spec_parse_modified(s@, i as int, ctrl);
            match r {
                Ok((key, j)) => sr == Ok::<(Key, int), (KeyParseError, int)>((key, j as int)) && i
                    < j <= n,
                Err((e, p)) => sr == Err::<(Key, int), (KeyParseError, int)>((e, p as int)) && p
                    <= n,
            }
        }),
{
    if i >= n {
        return Err((KeyParseError::UnexpectedEnd, n));
    }
    let c0 = s.get_char(i);
    if c0 != '-' {
        return Err((KeyParseError::InvalidCharacter(c0), i + 1));
    }
    if i + 1 >= n {
        return Err((KeyParseError::UnexpectedEnd, n));
    }
    let c1 = s.get_char(i + 1);
    let u1 = c1 as u32;
    if !((48 <= u1 && u1 <= 57) || (65 <= u1 && u1 <= 90) || (97 <= u1 && u1 <= 122)) {
        return Err((KeyParseError::InvalidCharacter(c1), i + 2));
    }
    if i + 2 >= n {
        return Err((KeyParseError::UnexpectedEnd, n));
    }
    let c2 = s.get_char(i + 2);
    if c2 != '>' {
        return Err((KeyParseError::InvalidCharacter(c2), i + 3));
    }
    if ctrl {
        Ok((Key::Ctrl(c1), i + 3))
    } else {
        Ok((Key::Alt(c1), i + 3))
    }
}

/// Reads the key at the start of `s`; text after the key's form is ignored.
pub fn parse_key(s: &str) -> (r: Result<Key, KeyParseError>)
    ensures
        ({
            let sr = spec_parse_key(s@, 0);
            match r {
                Ok(key) => sr is Ok && sr->Ok_0.0 == key,
                Err(e) => sr is Err && sr->Err_0.0 == e,
            }
        }),
{
    match parse_key_at(s, 0) {
        Ok((key, _)) => Ok(key),
        Err((e, _)) => Err(e),
    }
}

/// The decimal digit character for `d`.
pub open spec fn spec_digit_char(d: u8) -> char {
    match d {
        0 => '0',
        1 => '1',
        2 => '2',
        3 => '3',
        4 => '4',
        5 => '5',
        6 => '6',
        7 => '7',
        8 => '8',
        9 => '9',
        _ => '0',
    }
}

/// The decimal text of a function-key number.
pub open spec fn spec_fkey_digits(n: u8) -> Seq<char> {
    if n < 10 {
        seq![spec_digit_char(n)]
    } else if n < 100 {
        seq![spec_digit_char(n / 10), spec_digit_char(n % 10)]
    } else {
        seq![spec_digit_char(n / 100), spec_digit_char((n / 10) % 10), spec_digit_char(n % 10)]
    }
}

/// The textual form of a key, the inverse of the parser's grammar.
/// `Nil` has no textual form.
pub open spec fn spec_display_key(k: Key) -> Seq<char> {
    match k {
        Key::Nil => Seq::empty(),
        Key::Backspace => "<backspace>"@,
        Key::Enter => "<enter>"@,
        Key::Left => "<left>"@,
        Key::Right => "<right>"@,
        Key::Up => "<up>"@,
        Key::Down => "<down>"@,
        Key::Home => "<home>"@,
        Key::End => "<end>"@,
        Key::PageUp => "<pageup>"@,
        Key::PageDown => "<pagedown>"@,
        Key::Tab => "<tab>"@,
        Key::Delete => "<delete>"@,
        Key::F(n) => "<f"@ + spec_fkey_digits(n) + ">"@,
        Key::Char(c) => if c == ' ' {
            "<space>"@
        } else if c == '<' {
            "<less>"@
        } else if c == '>' {
            "<greater>"@
        } else {
            seq![c]
        },
        Key::Ctrl(c) => "<c-"@ + seq![c] + ">"@,
        Key::Alt(c) => "<a-"@ + seq![c] + ">"@,
        Key::Esc => "<esc>"@,
    }
}

/// Relies on `String::push`: appends the character to the string.
#[verifier::external_body]
fn push_char(s: &mut String, c: char)
    ensures
        final(s)@ == old(s)@.push(c),
{
    s.push(c);
}

fn digit_char(d: u8) -> (c: char)
    requires
        d <= 9,
    ensures
        c == spec_digit_char(d),
{
    match d {
        0 => '0',
        1 => '1',
        2 => '2',
        3 => '3',
        4 => '4',
        5 => '5',
        6 => '6',
        7 => '7',
        8 => '8',
        _ => '9',
    }
}

impl Key {
    /// The key's textual form: what the parser reads back.
    pub fn display(&self) -> (r: String)
        ensures
            r@ == spec_display_key(*self),
    {
        let mut out = String::new();
        match *self {
            Key::Nil => {},
            Key::Backspace => out.append("<backspace>"),
            Key::Enter => out.append("<enter>"),
            Key::Left => out.append("<left>"),
            Key::Right => out.append("<right>"),
            Key::Up => out.append("<up>"),
            Key::Down => out.append("<down>"),
            Key::Home => out.append("<home>"),
            Key::End => out.append("<end>"),
            Key::PageUp => out.append("<pageup>"),
            Key::PageDown => out.append("<pagedown>"),
            Key::Tab => out.append("<tab>"),
            Key::Delete => out.append("<delete>"),
            Key::F(n) => {
                out.append("<f");
                if n < 10 {
                    push_char(&mut out, digit_char(n));
                } else if n < 100 {
                    push_char(&mut out, digit_char(n / 10));
                    push_char(&mut out, digit_char(n % 10));
                } else {
                    push_char(&mut out, digit_char(n / 100));
                    push_char(&mut out, digit_char((n / 10) % 10));
                    push_char(&mut out, digit_char(n % 10));
                }
                out.append(">");
                proof {
                    assert(out@ =~= spec_display_key(*self));
                }
            },
            Key::Char(c) => {
                if c == ' ' {
                    out.append("<space>");
                } else if c == '<' {
                    out.append("<less>");
                } else if c == '>' {
                    out.append("<greater>");
                } else {
                    push_char(&mut out, c);
                    proof {
                        assert(out@ =~= seq![c]);
                    }
                }
            },
            Key::Ctrl(c) => {
                out.append("<c-");
                push_char(&mut out, c);
                out.append(">");
                proof {
                    assert(out@ =~= spec_display_key(*self));
                }
            },
            Key::Alt(c) => {
                out.append("<a-");
                push_char(&mut out, c);
                out.append(">");
                proof {
                    assert(out@ =~= spec_display_key(*self));
                }
            },
            Key::Esc => out.append("<esc>"),
        }
        out
    }
}

/// A key's whole textual form matched where `s` holds it verbatim.
proof fn lemma_match_lit_ok(s: Seq<char>, i: int, lit: Seq<char>)
    requires
        0 <= i,
        i + lit.len() <= s.len(),
        s.subrange(i, i + lit.len()) =~= lit,
    ensures
        spec_match_lit(s, i, lit) == Ok::<int, (KeyParseError, int)>(i + lit.len()),
    decreases lit.len(),
{
    if lit.len() > 0 {
        assert(s[i] == lit[0]);
        assert(s.subrange(i + 1, i + 1 + lit.drop_first().len()) =~= lit.drop_first());
        lemma_match_lit_ok(s, i + 1, lit.drop_first());
    }
}

/// Whether the parser can read this key back from its textual form: the key
/// is one the protocol enumerates, its form is non-empty, and a modifier
/// carries an alphanumeric character (the only ones the grammar admits).
pub open spec fn key_text_parsable(k: Key) -> bool {
    match k {
        Key::Nil => false,
        Key::F(n) => n <= 99,
        Key::Char(c) => c as u32 <= 127,
        Key::Ctrl(c) => is_ascii_alnum_char(c),
        Key::Alt(c) => is_ascii_alnum_char(c),
        _ => true,
    }
}

/// Key text round-trip: parsing a key's textual form yields the key back,
/// consuming the whole form. This holds for every key whose form is
/// non-empty and within the grammar (`key_text_parsable`); a modifier over a
/// non-alphanumeric character, such as `Ctrl('$')`, prints a form the
/// grammar rejects.
pub proof fn lemma_key_text_round_trip(k: Key)
    requires
        key_text_parsable(k),
    ensures
        spec_parse_key(spec_display_key(k), 0) == Ok::<(Key, int), (KeyParseError, int)>(
            (k, spec_display_key(k).len() as int),
        ),
{
    let s = spec_display_key(k);
    match k {
        Key::Nil => {},
        Key::Backspace => {
            reveal_strlit("<backspace>");
            reveal_strlit("ackspace>");
            assert(s.subrange(2, 11) =~= "ackspace>"@);
            lemma_match_lit_ok(s, 2, "ackspace>"@);
        },
        Key::Enter => {
            reveal_strlit("<enter>");
            reveal_strlit("er>");
            assert(s.subrange(4, 7) =~= "er>"@);
            lemma_match_lit_ok(s, 4, "er>"@);
        },
        Key::Left => {
            reveal_strlit("<left>");
            reveal_strlit("t>");
            assert(s.subrange(4, 6) =~= "t>"@);
            lemma_match_lit_ok(s, 4, "t>"@);
        },
        Key::Right => {
            reveal_strlit("<right>");
            reveal_strlit("ight>");
            assert(s.subrange(2, 7) =~= "ight>"@);
            lemma_match_lit_ok(s, 2, "ight>"@);
        },
        Key::Up => {
            reveal_strlit("<up>");
            reveal_strlit("p>");
            assert(s.subrange(2, 4) =~= "p>"@);
            lemma_match_lit_ok(s, 2, "p>"@);
        },
        Key::Down => {
            reveal_strlit("<down>");
            reveal_strlit("wn>");
            assert(s.subrange(3, 6) =~= "wn>"@);
            lemma_match_lit_ok(s, 3, "wn>"@);
        },
        Key::Home => {
            reveal_strlit("<home>");
            reveal_strlit("ome>");
            assert(s.subrange(2, 6) =~= "ome>"@);
            lemma_match_lit_ok(s, 2, "ome>"@);
        },
        Key::End => {
            reveal_strlit("<end>");
            reveal_strlit(">");
            assert(s.subrange(4, 5) =~= ">"@);
            lemma_match_lit_ok(s, 4, ">"@);
        },
        Key::PageUp => {
            reveal_strlit("<pageup>");
            reveal_strlit("age");
            reveal_strlit("p>");
            assert(s.subrange(2, 5) =~= "age"@);
            lemma_match_lit_ok(s, 2, "age"@);
            assert(s.subrange(6, 8) =~= "p>"@);
            lemma_match_lit_ok(s, 6, "p>"@);
        },
        Key::PageDown => {
            reveal_strlit("<pagedown>");
            reveal_strlit("age");
            reveal_strlit("own>");
            assert(s.subrange(2, 5) =~= "age"@);
            lemma_match_lit_ok(s, 2, "age"@);
            assert(s.subrange(6, 10) =~= "own>"@);
            lemma_match_lit_ok(s, 6, "own>"@);
        },
        Key::Tab => {
            reveal_strlit("<tab>");
            reveal_strlit("ab>");
            assert(s.subrange(2, 5) =~= "ab>"@);
            lemma_match_lit_ok(s, 2, "ab>"@);
        },
        Key::Delete => {
            reveal_strlit("<delete>");
            reveal_strlit("lete>");
            assert(s.subrange(3, 8) =~= "lete>"@);
            lemma_match_lit_ok(s, 3, "lete>"@);
        },
        Key::Esc => {
            reveal_strlit("<esc>");
            reveal_strlit("c>");
            assert(s.subrange(3, 5) =~= "c>"@);
            lemma_match_lit_ok(s, 3, "c>"@);
        },
        Key::F(n) => {
            reveal_strlit("<f");
            reveal_strlit(">");
            if n < 10 {
                assert(s[2] == spec_digit_char(n));
                assert(is_ascii_digit_char(s[2]) && digit_val(s[2]) == n);
                assert(s[3] == '>');
            } else {
                assert(s[2] == spec_digit_char(n / 10));
                assert(s[3] == spec_digit_char(n % 10));
                assert(is_ascii_digit_char(s[2]) && digit_val(s[2]) == n / 10);
                assert(is_ascii_digit_char(s[3]) && digit_val(s[3]) == n % 10);
                assert(s[4] == '>');
                assert(digit_val(s[2]) * 10 + digit_val(s[3]) == n);
            }
        },
        Key::Char(c) => {
            if c == ' ' {
                reveal_strlit("<space>");
                reveal_strlit("pace>");
                assert(s.subrange(2, 7) =~= "pace>"@);
                lemma_match_lit_ok(s, 2, "pace>"@);
            } else if c == '<' {
                reveal_strlit("<less>");
                reveal_strlit("s>");
                assert(s.subrange(4, 6) =~= "s>"@);
                lemma_match_lit_ok(s, 4, "s>"@);
            } else if c == '>' {
                reveal_strlit("<greater>");
                reveal_strlit("reater>");
                assert(s.subrange(2, 9) =~= "reater>"@);
                lemma_match_lit_ok(s, 2, "reater>"@);
            } else {
                assert(s[0] == c);
            }
        },
        Key::Ctrl(c) => {
            reveal_strlit("<c-");
            reveal_strlit(">");
            assert(s[0] == '<' && s[1] == 'c' && s[2] == '-' && s[3] == c && s[4] == '>');
        },
        Key::Alt(c) => {
            reveal_strlit("<a-");
            reveal_strlit(">");
            assert(s[0] == '<' && s[1] == 'a' && s[2] == '-' && s[3] == c && s[4] == '>');
        },
    }
}

/// A key-text parse failure found while reading a sequence of keys:
/// `index` counts the bytes of the text read through the failure, the
/// offending character included (the whole text when it ran out early).
#[derive(Debug, Clone, Copy, PartialEq, Eq, Structural)]
pub struct KeyParseAllError {
    pub index: usize,
    pub error: KeyParseError,
}

/// Reads a whole text as a sequence of key forms, one call of `next` at a
/// time. After an error, iteration stops.
pub struct KeyParser<'a> {
    text: &'a str,
    len: usize,
    index: usize,
}

impl<'a> KeyParser<'a> {
    pub closed spec fn wf(&self) -> bool {
        self.len == self.text@.len() && self.index <= self.len
    }

    pub closed spec fn spec_text(&self) -> Seq<char> {
        self.text@
    }

    pub closed spec fn spec_index(&self) -> int {
        self.index as int
    }

    /// The next key of the text, an error counting the bytes read through
    /// the failure, or nothing once the text is exhausted.
    pub fn next(&mut self) -> (r: Option<Result<Key, KeyParseAllError>>)
        requires
            old(self).wf(),
        ensures
            final(self).wf(),
            final(self).spec_text() == old(self).spec_text(),
            ({
                let sr = spec_parse_key(old(self).spec_text(), old(self).spec_index());
                match r {
                    None => old(self).spec_index() == old(self).spec_text().len() && *final(self)
                        == *old(self),
                    Some(Ok(k)) => sr is Ok && sr->Ok_0.0 == k && final(self).spec_index()
                        == sr->Ok_0.1,
                    Some(Err(e)) => sr is Err && e.error == sr->Err_0.0 && e.index
                        == vstd::utf8::encode_utf8(
                        old(self).spec_text().take(sr->Err_0.1),
                    ).len() as usize && final(self).spec_index() == old(self).spec_text().len(),
                }
            }),
    {
        if self.index >= self.len {
            return None;
        }
        match parse_key_at(self.text, self.index) {
            Ok((key, j)) => {
                self.index = j;
                Some(Ok(key))
            },
            Err((error, stop)) => {
                let consumed = self.text.substring_char(0, stop);
                let index = consumed.len();
                proof {
                    assert(consumed@ =~= self.text@.take(stop as int));
                }
                self.index = self.len;
                Some(Err(KeyParseAllError { index, error }))
            },
        }
    }
}

/// Begins reading `raw` as a sequence of key forms.
pub fn parse_all_keys<'a>(raw: &'a str) -> (r: KeyParser<'a>)
    ensures
        r.wf(),
        r.spec_text() == raw@,
        r.spec_index() == 0,
{
    KeyParser { text: raw, len: raw.unicode_len(), index: 0 }
}

} // verus!
