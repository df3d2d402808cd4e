//! Syntax rules and the per-line tokenizer with multi-line carry state, the
//! rule collection looked up by path glob, and the highlighted-buffer
//! overlay that repairs itself incrementally after edits.

use vstd::prelude::*;

use crate::buffer::{BufferContent, BufferRange};
use crate::glob::{spec_glob_match, Glob};
use crate::pattern::{
    pattern_wf, spec_matches, spec_matches_with_state, MatchResult, Pattern, PatternState,
    PatternV, SpecMatch,
};

verus! {

/// What a token stands for on screen.
#[derive(Debug, Clone, Copy, PartialEq, Eq, Structural)]
pub enum TokenKind {
    Whitespace,
    Text,
    Comment,
    Keyword,
    Type,
    Symbol,
    String,
    Literal,
}

/// One token: its kind and the byte range it covers within its line.
#[derive(Debug, Clone, Copy, PartialEq, Eq, Structural)]
pub struct Token {
    pub kind: TokenKind,
    pub from: usize,
    pub to: usize,
}

/// A token's mathematical value.
pub struct TokenV {
    pub kind: TokenKind,
    pub from: int,
    pub to: int,
}

impl View for Token {
    type V = TokenV;

    open spec fn view(&self) -> TokenV {
        TokenV { kind: self.kind, from: self.from as int, to: self.to as int }
    }
}

pub open spec fn tokens_view(s: Seq<Token>) -> Seq<TokenV> {
    s.map_values(|t: Token| t@)
}

/// A line's outgoing state: all patterns closed, or rule `i`'s pattern
/// still open into the next line.
#[derive(Debug, Clone, Copy, PartialEq, Eq, Structural)]
pub enum LineState {
    Finished,
    Unfinished(usize, PatternState),
}

/// A line state's mathematical value: the open rule's index, if any.
pub enum LineStateV {
    Fin,
    Unf(int),
}

impl View for LineState {
    type V = LineStateV;

    open spec fn view(&self) -> LineStateV {
        match self {
            LineState::Finished => LineStateV::Fin,
            LineState::Unfinished(i, _) => LineStateV::Unf(*i as int),
        }
    }
}

impl Default for LineState {
    fn default() -> (r: Self)
        ensures
            r == LineState::Finished,
    {
        LineState::Finished
    }
}

/// The rules of one syntax, as mathematical values, in registration order.
pub open spec fn rules_view(s: Seq<(TokenKind, Pattern)>) -> Seq<(TokenKind, PatternV)> {
    s.map_values(|r: (TokenKind, Pattern)| (r.0, r.1@))
}

pub open spec fn is_ascii_ws(b: u8) -> bool {
    b == 32 || b == 9 || b == 10 || b == 12 || b == 13
}

pub open spec fn is_ascii_alnum(b: u8) -> bool {
    (48 <= b <= 57) || (65 <= b <= 90) || (97 <= b <= 122)
}

/// A position where the tokenizer may stop: the end of the line or the
/// start of a UTF-8 character.
pub open spec fn is_boundary(line: Seq<u8>, k: int) -> bool {
    k >= line.len() || line[k] < 128 || line[k] >= 192
}

/// The length of the ASCII-whitespace run at `i`.
pub open spec fn ws_len(line: Seq<u8>, i: int) -> int
    decreases line.len() - i,
{
    if i < 0 || i >= line.len() || !is_ascii_ws(line[i]) {
        0
    } else {
        1 + ws_len(line, i + 1)
    }
}

/// The length of the ASCII-alphanumeric run at `i`.
pub open spec fn alnum_len(line: Seq<u8>, i: int) -> int
    decreases line.len() - i,
{
    if i < 0 || i >= line.len() || !is_ascii_alnum(line[i]) {
        0
    } else {
        1 + alnum_len(line, i + 1)
    }
}

/// The first position at or after `k` where the tokenizer may stop.
pub open spec fn align(line: Seq<u8>, k: int) -> int
    decreases line.len() - k,
{
    if k < 0 {
        0
    } else if is_boundary(line, k) {
        k
    } else {
        align(line, k + 1)
    }
}

/// The first rule, in registration order among the first `r`, whose pattern
/// pauses on this slice.
pub open spec fn first_carry_upto(
    rules: Seq<(TokenKind, PatternV)>,
    sl: Seq<u8>,
    r: int,
) -> Option<int>
    decreases r,
{
    if r <= 0 {
        None
    } else {
        match first_carry_upto(rules, sl, r - 1) {
            Some(p) => Some(p),
            None => if spec_matches(rules[r - 1].1, sl) is Carry {
                Some(r - 1)
            } else {
                None
            },
        }
    }
}

/// The best match among the first `r` rules: the greatest match length, the
/// earliest rule on ties.
pub open spec fn best_upto(rules: Seq<(TokenKind, PatternV)>, sl: Seq<u8>, r: int) -> (int, int)
    decreases r,
{
    if r <= 0 {
        (0, 0)
    } else {
        let prev = best_upto(rules, sl, r - 1);
        match spec_matches(rules[r - 1].1, sl) {
            SpecMatch::Hit(n) => if n > prev.1 {
                (r - 1, n)
            } else {
                prev
            },
            _ => prev,
        }
    }
}

/// The tokenizer's scan from position `i` to the end of the line: skip
/// whitespace, try every rule, a paused rule claims the rest of the line,
/// the longest match wins (earliest rule on ties), and where nothing
/// matches one alphanumeric run or one byte becomes plain text.
pub open spec fn spec_scan(rules: Seq<(TokenKind, PatternV)>, line: Seq<u8>, i: int) -> (
    Seq<TokenV>,
    LineStateV,
)
    decreases line.len() - i,
    via spec_scan_decreases
{
    if i < 0 || i >= line.len() {
        (Seq::empty(), LineStateV::Fin)
    } else {
        let w = ws_len(line, i);
        let sl = line.skip(i + w);
        match first_carry_upto(rules, sl, rules.len() as int) {
            Some(p) => (
                seq![TokenV { kind: rules[p].0, from: i, to: line.len() as int }],
                LineStateV::Unf(p),
            ),
            None => {
                let best = best_upto(rules, sl, rules.len() as int);
                let kind = if best.1 <= 0 {
                    TokenKind::Text
                } else {
                    rules[best.0].0
                };
                let mlen = if best.1 <= 0 {
                    let a = alnum_len(line, i + w);
                    if a < 1 {
                        1
                    } else {
                        a
                    }
                } else {
                    best.1
                };
                let end0 = if i + w + mlen > line.len() {
                    line.len() as int
                } else {
                    i + w + mlen
                };
                let end = align(line, end0);
                let rest = spec_scan(rules, line, end);
                (seq![TokenV { kind, from: i, to: end }] + rest.0, rest.1)
            },
        }
    }
}

/// Every stop position search lands between its start and the line's end.
pub proof fn lemma_align_bounds(line: Seq<u8>, k: int)
    requires
        0 <= k <= line.len(),
    ensures
        k <= align(line, k) <= line.len(),
    decreases line.len() - k,
{
    if is_boundary(line, k) {
    } else {
        lemma_align_bounds(line, k + 1);
    }
}

#[via_fn]
proof fn spec_scan_decreases(rules: Seq<(TokenKind, PatternV)>, line: Seq<u8>, i: int) {
    if 0 <= i < line.len() {
        let w = ws_len(line, i);
        let sl = line.skip(i + w);
        if first_carry_upto(rules, sl, rules.len() as int) is None {
            lemma_ws_len_bounds(line, i);
            let best = best_upto(rules, sl, rules.len() as int);
            let mlen = if best.1 <= 0 {
                let a = alnum_len(line, i + w);
                if a < 1 {
                    1
                } else {
                    a
                }
            } else {
                best.1
            };
            let end0 = if i + w + mlen > line.len() {
                line.len() as int
            } else {
                i + w + mlen
            };
            assert(mlen >= 1);
            assert(i + 1 <= end0 <= line.len());
            lemma_align_bounds(line, end0);
        }
    }
}

/// A whitespace run stays within the line.
pub proof fn lemma_ws_len_bounds(line: Seq<u8>, i: int)
    requires
        0 <= i <= line.len(),
    ensures
        0 <= ws_len(line, i),
        i + ws_len(line, i) <= line.len(),
    decreases line.len() - i,
{
    if i < line.len() && is_ascii_ws(line[i]) {
        lemma_ws_len_bounds(line, i + 1);
    }
}

/// One line's tokens and outgoing state, from its text and the previous
/// line's state. With no rules the whole line is one text token. An open
/// rule resumes first: a hit closes it over the matched head of the line, a
/// pause keeps the whole line, a miss falls back to a fresh scan.
#[verifier::opaque]
pub open spec fn spec_parse_line(
    rules: Seq<(TokenKind, PatternV)>,
    line: Seq<u8>,
    prev: LineStateV,
) -> (Seq<TokenV>, LineStateV) {
    if rules.len() == 0 {
        (seq![TokenV { kind: TokenKind::Text, from: 0, to: line.len() as int }], LineStateV::Fin)
    } else {
        match prev {
            LineStateV::Fin => spec_scan(rules, line, 0),
            LineStateV::Unf(pi) => if 0 <= pi < rules.len() {
                match spec_matches_with_state(rules[pi].1, line) {
                    SpecMatch::Hit(n) => {
                        let rest = spec_scan(rules, line, n);
                        (seq![TokenV { kind: rules[pi].0, from: 0, to: n }] + rest.0, rest.1)
                    },
                    SpecMatch::Carry => (
                        seq![TokenV { kind: rules[pi].0, from: 0, to: line.len() as int }],
                        LineStateV::Unf(pi),
                    ),
                    SpecMatch::Miss => spec_scan(rules, line, 0),
                }
            } else {
                spec_scan(rules, line, 0)
            },
        }
    }
}


/// One syntax: the glob that picks it by path, and its rules in
/// registration order.
pub struct Syntax {
    glob: Glob,
    rules: Vec<(TokenKind, Pattern)>,
}

enum RuleScan {
    Carry(usize),
    Best(usize, usize),
}

/// Once a rule pauses and no earlier one did, later rules cannot take its
/// place.
proof fn lemma_first_carry_extend(rules: Seq<(TokenKind, PatternV)>, sl: Seq<u8>, p: int, m: int)
    requires
        0 <= p < m <= rules.len(),
        first_carry_upto(rules, sl, p) is None,
        spec_matches(rules[p].1, sl) is Carry,
    ensures
        first_carry_upto(rules, sl, m) == Some(p),
    decreases m,
{
    if m == p + 1 {
    } else {
        lemma_first_carry_extend(rules, sl, p, m - 1);
    }
}

/// Skips the whitespace run at `i`.
fn ws_run(line: &[u8], i: usize) -> (r: usize)
    requires
        i <= line@.len(),
    ensures
        r == ws_len(line@, i as int),
        i + r <= line@.len(),
{
    let n = line.len();
    let mut j = i;
    while j < n && (line[j] == 32 || line[j] == 9 || line[j] == 10 || line[j] == 12 || line[j]
        == 13)
        invariant
            i <= j <= n,
            n == line@.len(),
            ws_len(line@, i as int) == (j - i) + ws_len(line@, j as int),
        decreases n - j,
    {
        j = j + 1;
    }
    j - i
}

/// Measures the alphanumeric run at `i`.
fn alnum_run(line: &[u8], i: usize) -> (r: usize)
    requires
        i <= line@.len(),
    ensures
        r == alnum_len(line@, i as int),
        i + r <= line@.len(),
{
    let n = line.len();
    let mut j = i;
    while j < n && ((48 <= line[j] && line[j] <= 57) || (65 <= line[j] && line[j] <= 90) || (97
        <= line[j] && line[j] <= 122))
        invariant
            i <= j <= n,
            n == line@.len(),
            alnum_len(line@, i as int) == (j - i) + alnum_len(line@, j as int),
        decreases n - j,
    {
        j = j + 1;
    }
    j - i
}

/// Advances `k` to the next position where the tokenizer may stop.
fn align_forward(line: &[u8], k: usize) -> (r: usize)
    requires
        k <= line@.len(),
    ensures
        r == align(line@, k as int),
        k <= r <= line@.len(),
{
    let n = line.len();
    let mut j = k;
    while j < n && line[j] >= 128 && line[j] < 192
        invariant
            k <= j <= n,
            n == line@.len(),
            align(line@, k as int) == align(line@, j as int),
        decreases n - j,
    {
        j = j + 1;
    }
    j
}

impl Default for Syntax {
    fn default() -> (r: Self)
        ensures
            r.spec_glob() == Seq::<u8>::empty(),
            r.spec_rules() == Seq::<(TokenKind, PatternV)>::empty(),
    {
        Syntax::new()
    }
}

impl Syntax {
    pub closed spec fn spec_glob(&self) -> Seq<u8> {
        self.glob@
    }

    pub closed spec fn spec_rules(&self) -> Seq<(TokenKind, PatternV)> {
        rules_view(self.rules@)
    }

    pub fn new() -> (r: Self)
        ensures
            r.spec_glob() == Seq::<u8>::empty(),
            r.spec_rules() == Seq::<(TokenKind, PatternV)>::empty(),
    {
        let r = Syntax { glob: Glob::new(), rules: Vec::new() };
        proof {
            assert(r.spec_rules() =~= Seq::<(TokenKind, PatternV)>::empty());
        }
        r
    }

    /// Replaces the glob that picks this syntax by file path.
    pub fn set_glob(&mut self, pattern: &[u8])
        ensures
            final(self).spec_glob() == pattern@,
            final(self).spec_rules() == old(self).spec_rules(),
    {
        self.glob.compile(pattern);
    }

    /// Appends one rule; later rules lose ties to earlier ones.
    pub fn add_rule(&mut self, kind: TokenKind, pattern: Pattern)
        ensures
            final(self).spec_glob() == old(self).spec_glob(),
            final(self).spec_rules() == old(self).spec_rules().push((kind, pattern@)),
    {
        let ghost prev = self.rules@;
        self.rules.push((kind, pattern));
        proof {
            assert(rules_view(self.rules@) =~= rules_view(prev).push(
                (kind, pattern@),
            )) by {
                assert forall|k: int|
                    0 <= k < self.rules@.len() implies #[trigger] rules_view(self.rules@)[k]
                    == rules_view(prev).push((kind, pattern@))[k] by {
                    if k < prev.len() {
                        assert(self.rules@[k] == prev[k]);
                    } else {
                        assert(self.rules@[k] == (kind, pattern));
                    }
                }
            }
        }
    }

    /// The source text of the glob that picks this syntax.
    pub fn glob_text(&self) -> (r: &[u8])
        ensures
            r@ == self.spec_glob(),
    {
        self.glob.text()
    }

    /// Whether this syntax's glob matches the path.
    pub fn glob_matches(&self, path: &[u8]) -> (r: bool)
        ensures
            r == spec_glob_match(self.spec_glob(), path@),
    {
        self.glob.matches(path)
    }

    /// Tries every rule against the slice, in order: the first pause wins
    /// the rest of the line; otherwise the longest match, earliest first.
    fn scan_rules(&self, sl: &[u8]) -> (r: RuleScan)
        ensures
            ({
                let rv = self.spec_rules();
                match r {
                    RuleScan::Carry(p) => first_carry_upto(rv, sl@, rv.len() as int) == Some(
                        p as int,
                    ) && p < rv.len(),
                    RuleScan::Best(bi, bl) => first_carry_upto(rv, sl@, rv.len() as int) is None
                        && best_upto(rv, sl@, rv.len() as int) == (bi as int, bl as int) && bl
                        <= sl@.len() && (bi < rv.len() || bi == 0),
                }
            }),
    {
        let n = self.rules.len();
        let mut bi: usize = 0;
        let mut bl: usize = 0;
        let mut r: usize = 0;
        while r < n
            invariant
                0 <= r <= n,
                n == self.spec_rules().len(),
                first_carry_upto(self.spec_rules(), sl@, r as int) is None,
                best_upto(self.spec_rules(), sl@, r as int) == (bi as int, bl as int),
                bl <= sl@.len(),
                bi < n || bi == 0,
            decreases n - r,
        {
            proof {
                assert(self.spec_rules()[r as int] == (
                    self.rules@[r as int].0,
                    self.rules@[r as int].1@,
                ));
            }
            match self.rules[r].1.matches(sl) {
                MatchResult::Match(len) => {
                    if len > bl {
                        bl = len;
                        bi = r;
                    }
                },
                MatchResult::NoMatch => {},
                MatchResult::Pending(_) => {
                    proof {
                        lemma_first_carry_extend(self.spec_rules(), sl@, r as int, n as int);
                    }
                    return RuleScan::Carry(r);
                },
            }
            r = r + 1;
        }
        RuleScan::Best(bi, bl)
    }

    /// Parses one line under the previous line's state, filling `tokens`
    /// and returning the line's own outgoing state.
    pub fn parse_line(&self, line: &[u8], previous_line_kind: LineState, tokens: &mut Vec<Token>)
        -> (r: LineState)
        ensures
            ({
                let sr = spec_parse_line(self.spec_rules(), line@, previous_line_kind@);
                tokens_view(final(tokens)@) == sr.0 && r@ == sr.1
            }),
    {
        tokens.clear();
        let n = line.len();
        let ghost rv = self.spec_rules();
        proof {
            reveal(spec_parse_line);
        }
        if self.rules.len() == 0 {
            tokens.push(Token { kind: TokenKind::Text, from: 0, to: n });
            proof {
                reveal(spec_parse_line);
                assert(tokens_view(tokens@) =~= spec_parse_line(rv, line@, previous_line_kind@).0);
            }
            return LineState::Finished;
        }

        let mut cursor: usize = 0;

        match previous_line_kind {
            LineState::Finished => {},
            LineState::Unfinished(pattern_index, state) => {
                if pattern_index < self.rules.len() {
                    proof {
                        assert(rv[pattern_index as int] == (
                            self.rules@[pattern_index as int].0,
                            self.rules@[pattern_index as int].1@,
                        ));
                    }
                    match self.rules[pattern_index].1.matches_with_state(line, &state) {
                        MatchResult::Match(len) => {
                            tokens.push(
                                Token { kind: self.rules[pattern_index].0, from: 0, to: len },
                            );
                            cursor = len;
                        },
                        MatchResult::NoMatch => {},
                        MatchResult::Pending(new_state) => {
                            tokens.push(
                                Token { kind: self.rules[pattern_index].0, from: 0, to: n },
                            );
                            proof {
                                reveal(spec_parse_line);
                                assert(tokens_view(tokens@) =~= spec_parse_line(
                                    rv,
                                    line@,
                                    previous_line_kind@,
                                ).0);
                            }
                            return LineState::Unfinished(pattern_index, new_state);
                        },
                    }
                }
            },
        }

        let ghost full = spec_parse_line(rv, line@, previous_line_kind@);
        proof {
            reveal(spec_parse_line);
            assert(full.0 =~= tokens_view(tokens@) + spec_scan(rv, line@, cursor as int).0);
            assert(full.1 == spec_scan(rv, line@, cursor as int).1);
        }

        while cursor < n
            invariant
                0 <= cursor <= n,
                n == line@.len(),
                rv == self.spec_rules(),
                rv.len() > 0,
                full == spec_parse_line(rv, line@, previous_line_kind@),
                full.0 =~= tokens_view(tokens@) + spec_scan(rv, line@, cursor as int).0,
                full.1 == spec_scan(rv, line@, cursor as int).1,
            decreases n - cursor,
        {
            let w = ws_run(line, cursor);
            let j = cursor + w;
            let sl = vstd::slice::slice_subrange(line, j, n);
            proof {
                assert(sl@ =~= line@.skip(j as int));
            }
            match self.scan_rules(sl) {
                RuleScan::Carry(p) => {
                    proof {
                        assert(rv[p as int] == (self.rules@[p as int].0, self.rules@[p as int].1@));
                    }
                    tokens.push(Token { kind: self.rules[p].0, from: cursor, to: n });
                    proof {
                        lemma_tokens_view_push_scan(
                            tokens@,
                            full.0,
                            spec_scan(rv, line@, cursor as int).0,
                        );
                        assert(full.0 =~= tokens_view(tokens@));
                    }
                    return LineState::Unfinished(p, PatternState {});
                },
                RuleScan::Best(bi, bl) => {
                    let kind: TokenKind;
                    let mlen: usize;
                    if bl == 0 {
                        kind = TokenKind::Text;
                        let a = alnum_run(line, j);
                        mlen = if a < 1 {
                            1
                        } else {
                            a
                        };
                    } else {
                        proof {
                            assert(rv[bi as int] == (
                                self.rules@[bi as int].0,
                                self.rules@[bi as int].1@,
                            ));
                        }
                        kind = self.rules[bi].0;
                        mlen = bl;
                    }
                    let end0 = if mlen > n - j {
                        n
                    } else {
                        j + mlen
                    };
                    let end = align_forward(line, end0);
                    tokens.push(Token { kind, from: cursor, to: end });
                    proof {
                        lemma_tokens_view_push_scan(
                            tokens@,
                            full.0,
                            spec_scan(rv, line@, cursor as int).0,
                        );
                        assert(spec_scan(rv, line@, cursor as int).0 == seq![
                            TokenV { kind, from: cursor as int, to: end as int },
                        ] + spec_scan(rv, line@, end as int).0);
                        assert(full.0 =~= tokens_view(tokens@) + spec_scan(
                            rv,
                            line@,
                            end as int,
                        ).0);
                    }
                    cursor = end;
                },
            }
        }
        proof {
            assert(spec_scan(rv, line@, cursor as int).0 =~= Seq::<TokenV>::empty());
            assert(full.0 =~= tokens_view(tokens@));
        }
        LineState::Finished
    }
}

/// Pushing the head token of a scan onto the collected tokens keeps the
/// whole-line token list intact.
proof fn lemma_tokens_view_push_scan(tokens: Seq<Token>, full: Seq<TokenV>, scan: Seq<TokenV>) {
    assert forall|k: int| 0 <= k < tokens.len() implies #[trigger] tokens_view(tokens)[k]
        == tokens[k]@ by {}
}


/// A handle into the syntax collection.
#[derive(Debug, Clone, Copy, PartialEq, Eq, Structural)]
pub struct SyntaxHandle {
    index: usize,
}

impl SyntaxHandle {
    pub closed spec fn spec_index(&self) -> int {
        self.index as int
    }

    /// Two handles are the same exactly when they name the same index.
    pub proof fn lemma_eq_index(a: SyntaxHandle, b: SyntaxHandle)
        ensures
            (a == b) <==> (a.spec_index() == b.spec_index()),
    {
    }
}

impl Default for SyntaxHandle {
    fn default() -> (r: Self)
        ensures
            r.spec_index() == 0,
    {
        SyntaxHandle { index: 0 }
    }
}

/// Whether two byte strings hold the same bytes.
pub(crate) fn bytes_eq(a: &[u8], b: &[u8]) -> (r: bool)
    ensures
        r == (a@ == b@),
{
    let n = a.len();
    if n != b.len() {
        proof {
            assert(a@ != b@);
        }
        return false;
    }
    let mut i: usize = 0;
    while i < n
        invariant
            0 <= i <= n,
            n == a@.len(),
            n == b@.len(),
            forall|k: int| 0 <= k < i ==> a@[k] == b@[k],
        decreases n - i,
    {
        if a[i] != b[i] {
            return false;
        }
        i = i + 1;
    }
    proof {
        assert(a@ =~= b@);
    }
    true
}

/// The registered syntaxes; the one at index 0 is the default empty syntax,
/// and a path is matched against the others in registration order.
pub struct SyntaxCollection {
    syntaxes: Vec<Syntax>,
}

impl SyntaxCollection {
    pub closed spec fn spec_syntaxes(&self) -> Seq<Syntax> {
        self.syntaxes@
    }

    pub open spec fn spec_len(&self) -> int {
        self.spec_syntaxes().len() as int
    }

    pub fn new() -> (r: Self)
        ensures
            r.spec_len() == 1,
            r.spec_syntaxes()[0].spec_glob() == Seq::<u8>::empty(),
            r.spec_syntaxes()[0].spec_rules() == Seq::<(TokenKind, PatternV)>::empty(),
    {
        let mut syntaxes = Vec::new();
        syntaxes.push(Syntax::new());
        SyntaxCollection { syntaxes }
    }

    /// The first registered syntax, skipping the default one, whose glob
    /// matches the path.
    pub fn find_handle_by_path(&self, path: &[u8]) -> (r: Option<SyntaxHandle>)
        ensures
            match r {
                Some(h) => 1 <= h.spec_index() < self.spec_len() && spec_glob_match(
                    self.spec_syntaxes()[h.spec_index()].spec_glob(),
                    path@,
                ) && (forall|j: int|
                    1 <= j < h.spec_index() ==> !spec_glob_match(
                        #[trigger] self.spec_syntaxes()[j].spec_glob(),
                        path@,
                    )),
                None => forall|j: int|
                    1 <= j < self.spec_len() ==> !spec_glob_match(
                        #[trigger] self.spec_syntaxes()[j].spec_glob(),
                        path@,
                    ),
            },
    {
        let n = self.syntaxes.len();
        let mut i: usize = 1;
        while i < n
            invariant
                1 <= i,
                i <= n || n == 0,
                n == self.spec_len(),
                forall|j: int|
                    1 <= j < i ==> !spec_glob_match(
                        #[trigger] self.spec_syntaxes()[j].spec_glob(),
                        path@,
                    ),
            decreases n - i,
        {
            if self.syntaxes[i].glob_matches(path) {
                return Some(SyntaxHandle { index: i });
            }
            i = i + 1;
        }
        None
    }

    /// Registers a syntax.
    pub fn add(&mut self, syntax: Syntax)
        ensures
            final(self).spec_syntaxes() == old(self).spec_syntaxes().push(syntax),
    {
        self.syntaxes.push(syntax);
    }

    /// Appends one rule to the first registered syntax whose glob text is
    /// `glob_text`, registering a fresh syntax under that glob when none
    /// carries it; the default syntax at index 0 is never chosen. Returns
    /// the handle of the syntax the rule went to.
    pub fn add_rule_for_glob(&mut self, glob_text: &[u8], kind: TokenKind, pattern: Pattern) -> (h:
        SyntaxHandle)
        requires
            old(self).spec_len() >= 1,
        ensures
            1 <= h.spec_index() < final(self).spec_len(),
            forall|j: int|
                1 <= j < h.spec_index() ==> (#[trigger] old(self).spec_syntaxes()[j]).spec_glob()
                    != glob_text@,
            final(self).spec_syntaxes()[h.spec_index()].spec_glob() == glob_text@,
            forall|j: int|
                0 <= j < old(self).spec_len() && j != h.spec_index()
                    ==> #[trigger] final(self).spec_syntaxes()[j] == old(self).spec_syntaxes()[j],
            if h.spec_index() < old(self).spec_len() {
                final(self).spec_len() == old(self).spec_len() && old(self).spec_syntaxes()[
                    h.spec_index()
                ].spec_glob() == glob_text@ && final(self).spec_syntaxes()[
                    h.spec_index()
                ].spec_rules() == old(self).spec_syntaxes()[h.spec_index()].spec_rules().push(
                    (kind, pattern@),
                )
            } else {
                final(self).spec_len() == old(self).spec_len() + 1 && h.spec_index() == old(
                    self,
                ).spec_len() && final(self).spec_syntaxes()[h.spec_index()].spec_rules() == seq![
                    (kind, pattern@),
                ]
            },
    {
        let n = self.syntaxes.len();
        let mut i: usize = 1;
        while i < n
            invariant
                1 <= i,
                i <= n || n <= 1,
                n == self.spec_len(),
                n >= 1,
                self == old(self),
                forall|j: int|
                    1 <= j < i ==> (#[trigger] self.spec_syntaxes()[j]).spec_glob() != glob_text@,
            decreases n - i,
        {
            if bytes_eq(self.syntaxes[i].glob_text(), glob_text) {
                let slot = vstd::std_specs::vec::vec_index_mut(&mut self.syntaxes, i);
                slot.add_rule(kind, pattern);
                return SyntaxHandle { index: i };
            }
            i = i + 1;
        }
        let mut syntax = Syntax::new();
        syntax.set_glob(glob_text);
        syntax.add_rule(kind, pattern);
        self.syntaxes.push(syntax);
        proof {
            assert(self.spec_syntaxes()[n as int].spec_rules() =~= seq![(kind, pattern@)]);
        }
        SyntaxHandle { index: n }
    }

    /// The syntax a handle names.
    pub fn get(&self, handle: SyntaxHandle) -> (r: &Syntax)
        requires
            0 <= handle.spec_index() < self.spec_len(),
        ensures
            *r == self.spec_syntaxes()[handle.spec_index()],
    {
        &self.syntaxes[handle.index]
    }
}

/// One overlay line: the tokens of the buffer line it mirrors and the state
/// it hands to the next line.
#[derive(Debug)]
pub struct HighlightedLine {
    pub state: LineState,
    pub tokens: Vec<Token>,
}

/// An overlay line's mathematical value.
pub struct HighlightedLineV {
    pub state: LineStateV,
    pub tokens: Seq<TokenV>,
}

impl View for HighlightedLine {
    type V = HighlightedLineV;

    open spec fn view(&self) -> HighlightedLineV {
        HighlightedLineV { state: self.state@, tokens: tokens_view(self.tokens@) }
    }
}

pub open spec fn hl_view(s: Seq<HighlightedLine>) -> Seq<HighlightedLineV> {
    s.map_values(|l: HighlightedLine| l@)
}

/// The state the line at `i` parses under: the previous line's outgoing
/// state, or none before the first line.
pub open spec fn prev_state(hl: Seq<HighlightedLineV>, i: int) -> LineStateV {
    if i <= 0 {
        LineStateV::Fin
    } else {
        hl[i - 1].state
    }
}

/// Overlay line `i` is exactly what parsing buffer line `i` under the
/// previous overlay line's state yields.
pub open spec fn chain_ok(
    rules: Seq<(TokenKind, PatternV)>,
    buf: Seq<Seq<u8>>,
    hl: Seq<HighlightedLineV>,
    i: int,
) -> bool {
    let r = spec_parse_line(rules, buf[i], prev_state(hl, i));
    hl[i].tokens == r.0 && hl[i].state == r.1
}

/// The overlay mirrors the whole buffer: same line count, every line the
/// parse of its buffer line under the chained states. This pins the overlay
/// down: any two converged overlays of one buffer are equal.
pub open spec fn converged(
    rules: Seq<(TokenKind, PatternV)>,
    buf: Seq<Seq<u8>>,
    hl: Seq<HighlightedLineV>,
) -> bool {
    hl.len() == buf.len() && forall|i: int| 0 <= i < buf.len() ==> chain_ok(rules, buf, hl, i)
}

/// Highlight convergence: a converged overlay is unique, so any sequence of
/// incremental repairs that ends converged equals a full rehighlight of the
/// final buffer, token for token and state for state.
pub proof fn lemma_highlight_convergence(
    rules: Seq<(TokenKind, PatternV)>,
    buf: Seq<Seq<u8>>,
    h1: Seq<HighlightedLineV>,
    h2: Seq<HighlightedLineV>,
)
    requires
        converged(rules, buf, h1),
        converged(rules, buf, h2),
    ensures
        h1.len() == h2.len(),
        forall|i: int|
            0 <= i < h1.len() ==> h1[i].tokens == h2[i].tokens && h1[i].state
                == #[trigger] h2[i].state,
{
    assert forall|i: int|
        0 <= i < h1.len() implies h1[i].tokens == h2[i].tokens && h1[i].state
        == #[trigger] h2[i].state by {
        lemma_converged_prefix(rules, buf, h1, h2, i);
    }
}

proof fn lemma_converged_prefix(
    rules: Seq<(TokenKind, PatternV)>,
    buf: Seq<Seq<u8>>,
    h1: Seq<HighlightedLineV>,
    h2: Seq<HighlightedLineV>,
    i: int,
)
    requires
        converged(rules, buf, h1),
        converged(rules, buf, h2),
        0 <= i < buf.len(),
    ensures
        h1[i].tokens == h2[i].tokens && h1[i].state == h2[i].state,
    decreases i,
{
    if i > 0 {
        lemma_converged_prefix(rules, buf, h1, h2, i - 1);
    }
    assert(chain_ok(rules, buf, h1, i));
    assert(chain_ok(rules, buf, h2, i));
    assert(prev_state(h1, i) == prev_state(h2, i));
}

/// Tokenizer idempotence: parsing is a function of the rules, the line's
/// text and the incoming carry alone, so re-parsing a line whose text and
/// carry are unchanged yields the same tokens and the same outgoing state.
pub proof fn lemma_tokenizer_idempotent(
    rules: Seq<(TokenKind, PatternV)>,
    line: Seq<u8>,
    prev: LineStateV,
    first: (Seq<TokenV>, LineStateV),
    second: (Seq<TokenV>, LineStateV),
)
    requires
        first == spec_parse_line(rules, line, prev),
        second == spec_parse_line(rules, line, prev),
    ensures
        first == second,
{
}


proof fn lemma_hl_view_push(prev: Seq<HighlightedLine>, x: HighlightedLine)
    ensures
        hl_view(prev.push(x)) =~= hl_view(prev).push(x@),
{
    assert forall|k: int| 0 <= k < prev.len() + 1 implies #[trigger] hl_view(prev.push(x))[k]
        == hl_view(prev).push(x@)[k] by {
        if k < prev.len() {
            assert(prev.push(x)[k] == prev[k]);
        } else {
            assert(prev.push(x)[k] == x);
        }
    }
}

proof fn lemma_hl_view_update(prev: Seq<HighlightedLine>, i: int, x: HighlightedLine)
    requires
        0 <= i < prev.len(),
    ensures
        hl_view(prev.update(i, x)) =~= hl_view(prev).update(i, x@),
{
    assert forall|k: int| 0 <= k < prev.len() implies #[trigger] hl_view(prev.update(i, x))[k]
        == hl_view(prev).update(i, x@)[k] by {
        if k != i {
            assert(prev.update(i, x)[k] == prev[k]);
        } else {
            assert(prev.update(i, x)[k] == x);
        }
    }
}

/// Overlay lines `[c, n)` carry the same tokens and states in `cur` as in
/// `entry`.
pub open spec fn unchanged_from(
    entry: Seq<HighlightedLineV>,
    cur: Seq<HighlightedLineV>,
    c: int,
    n: int,
) -> bool {
    forall|i: int|
        c <= i < n ==> (#[trigger] cur[i]).tokens == entry[i].tokens && cur[i].state
            == entry[i].state
}

/// Overlay lines `[c, n)` of `cur` carry the same tokens and states their
/// pre-edit lines did, `shift` slots earlier in `entry`.
pub open spec fn shifted_unchanged(
    entry: Seq<HighlightedLineV>,
    cur: Seq<HighlightedLineV>,
    shift: int,
    c: int,
    n: int,
) -> bool {
    forall|i: int|
        c <= i < n ==> (#[trigger] cur[i]).tokens == entry[i - shift].tokens && cur[i].state
            == entry[i - shift].state
}

/// After an insert over `range`, overlay lines `[c, n)` are the pre-edit
/// lines shifted down by the inserted line count.
pub open spec fn insert_locality(
    entry: Seq<HighlightedLineV>,
    cur: Seq<HighlightedLineV>,
    range: BufferRange,
    n: int,
    c: int,
) -> bool {
    shifted_unchanged(
        entry,
        cur,
        range.to.line_index - range.from.line_index,
        c,
        n,
    )
}

/// The overlay of a buffer: one line of tokens and carry state per buffer
/// line, kept converged across edits by bounded incremental repair.
pub struct HighlightedBuffer {
    lines: Vec<HighlightedLine>,
}

impl HighlightedBuffer {
    pub closed spec fn spec_lines(&self) -> Seq<HighlightedLineV> {
        hl_view(self.lines@)
    }

    pub fn new() -> (r: Self)
        ensures
            r.spec_lines() == Seq::<HighlightedLineV>::empty(),
    {
        let r = HighlightedBuffer { lines: Vec::new() };
        proof {
            assert(r.spec_lines() =~= Seq::<HighlightedLineV>::empty());
        }
        r
    }

    pub fn clear(&mut self)
        ensures
            final(self).spec_lines() == Seq::<HighlightedLineV>::empty(),
    {
        self.lines.clear();
        proof {
            assert(self.spec_lines() =~= Seq::<HighlightedLineV>::empty());
        }
    }

    pub fn line_count(&self) -> (r: usize)
        ensures
            r == self.spec_lines().len(),
    {
        self.lines.len()
    }

    pub fn line_state(&self, index: usize) -> (r: LineState)
        requires
            index < self.spec_lines().len(),
        ensures
            r@ == self.spec_lines()[index as int].state,
    {
        self.lines[index].state
    }

    pub fn line_tokens(&self, index: usize) -> (r: &Vec<Token>)
        requires
            index < self.spec_lines().len(),
        ensures
            tokens_view(r@) == self.spec_lines()[index as int].tokens,
    {
        &self.lines[index].tokens
    }

    /// Parses the whole buffer from the top: the reference the incremental
    /// repairs converge to.
    pub fn highligh_all(&mut self, syntax: &Syntax, buffer: &BufferContent)
        requires
            buffer.wf(),
        ensures
            converged(syntax.spec_rules(), buffer@, final(self).spec_lines()),
    {
        self.lines.clear();
        let n = buffer.line_count();
        let mut previous_line_kind = LineState::Finished;
        let mut i: usize = 0;
        while i < n
            invariant
                0 <= i <= n,
                n == buffer@.len(),
                self.spec_lines().len() == i,
                forall|k: int| 0 <= k < i ==> chain_ok(syntax.spec_rules(), buffer@, self.spec_lines(), k),
                previous_line_kind@ == prev_state(self.spec_lines(), i as int),
            decreases n - i,
        {
            let ghost before = self.lines@;
            let mut tokens: Vec<Token> = Vec::new();
            let state = syntax.parse_line(buffer.line_at(i), previous_line_kind, &mut tokens);
            self.lines.push(HighlightedLine { state, tokens });
            proof {
                lemma_hl_view_push(before, self.lines@[self.lines@.len() - 1]);
                assert forall|k: int|
                    0 <= k < i + 1 implies chain_ok(
                    syntax.spec_rules(),
                    buffer@,
                    self.spec_lines(),
                    k,
                ) by {
                    if k < i {
                        assert(chain_ok(syntax.spec_rules(), buffer@, hl_view(before), k));
                        assert(self.spec_lines()[k] == hl_view(before)[k]);
                        if k > 0 {
                            assert(self.spec_lines()[k - 1] == hl_view(before)[k - 1]);
                        }
                        assert(prev_state(self.spec_lines(), k) == prev_state(hl_view(before), k));
                    } else {
                        if k > 0 {
                            assert(self.spec_lines()[k - 1] == hl_view(before)[k - 1]);
                        }
                        assert(prev_state(self.spec_lines(), k) == previous_line_kind@);
                        assert(self.spec_lines()[k].tokens == spec_parse_line(
                            syntax.spec_rules(),
                            buffer@[k],
                            previous_line_kind@,
                        ).0);
                        assert(self.spec_lines()[k].state == spec_parse_line(
                            syntax.spec_rules(),
                            buffer@[k],
                            previous_line_kind@,
                        ).1);
                    }
                }
            }
            previous_line_kind = state;
            i = i + 1;
        }
    }

    fn previous_line_kind_at(&self, index: usize) -> (r: LineState)
        requires
            index <= self.spec_lines().len(),
        ensures
            r@ == prev_state(self.spec_lines(), index as int),
    {
        if index == 0 {
            LineState::Finished
        } else {
            self.lines[index - 1].state
        }
    }

    /// Walks forward from `fix_from_index`, re-parsing each line with the
    /// running carry, and stops as soon as a re-parsed line kept a
    /// `Finished` state it already had: from there on no line can change.
    /// `old_prev` is the carry the line at `fix_from_index` was last parsed
    /// under.
    #[verifier::rlimit(100)]
    fn fix_highlight_from(
        &mut self,
        syntax: &Syntax,
        buffer: &BufferContent,
        previous_line_kind: LineState,
        fix_from_index: usize,
        Ghost(old_prev): Ghost<LineStateV>,
    )
        requires
            buffer.wf(),
            old(self).spec_lines().len() == buffer@.len(),
            fix_from_index <= buffer@.len(),
            forall|i: int|
                0 <= i < fix_from_index ==> chain_ok(
                    syntax.spec_rules(),
                    buffer@,
                    old(self).spec_lines(),
                    i,
                ),
            previous_line_kind@ == prev_state(old(self).spec_lines(), fix_from_index as int),
            fix_from_index < buffer@.len() ==> ({
                let r = spec_parse_line(
                    syntax.spec_rules(),
                    buffer@[fix_from_index as int],
                    old_prev,
                );
                old(self).spec_lines()[fix_from_index as int].tokens == r.0 && old(
                    self,
                ).spec_lines()[fix_from_index as int].state == r.1
            }),
            forall|i: int|
                fix_from_index < i < buffer@.len() ==> ({
                    let r = spec_parse_line(
                        syntax.spec_rules(),
                        buffer@[i],
                        old(self).spec_lines()[i - 1].state,
                    );
                    (#[trigger] old(self).spec_lines()[i]).tokens == r.0 && old(
                        self,
                    ).spec_lines()[i].state == r.1
                }),
        ensures
            converged(syntax.spec_rules(), buffer@, final(self).spec_lines()),
            unchanged_from(old(self).spec_lines(), final(self).spec_lines(), 0, fix_from_index as int),
            exists|c: int|
                fix_from_index <= c <= buffer@.len() && #[trigger] unchanged_from(
                    old(self).spec_lines(),
                    final(self).spec_lines(),
                    c,
                    buffer@.len() as int,
                ) && (forall|i: int|
                    fix_from_index < i < c ==> !((#[trigger] old(self).spec_lines()[i - 1]).state
                        == LineStateV::Fin && final(self).spec_lines()[i - 1].state
                        == LineStateV::Fin)) && (c < buffer@.len() ==> c > fix_from_index && old(
                    self,
                ).spec_lines()[c - 1].state == LineStateV::Fin && final(self).spec_lines()[
                    c - 1
                ].state == LineStateV::Fin),
    {
        let n = self.lines.len();
        let ghost rules = syntax.spec_rules();
        let ghost entry = old(self).spec_lines();
        let ghost buf = buffer@;
        let mut m = fix_from_index;
        let mut carry = previous_line_kind;
        let mut prior: Option<LineState> = None;
        while m < n
            invariant
                fix_from_index <= m <= n,
                n == buf.len(),
                buf == buffer@,
                rules == syntax.spec_rules(),
                entry == old(self).spec_lines(),
                entry.len() == n,
                self.spec_lines().len() == n,
                fix_from_index <= n,
                unchanged_from(entry, self.spec_lines(), m as int, n as int),
                unchanged_from(entry, self.spec_lines(), 0, fix_from_index as int),
                forall|i: int| 0 <= i < m ==> chain_ok(rules, buf, self.spec_lines(), i),
                carry@ == prev_state(self.spec_lines(), m as int),
                match prior {
                    None => m == fix_from_index,
                    Some(s) => m > fix_from_index && s@ == entry[m - 1].state,
                },
                fix_from_index < n ==> ({
                    let r = spec_parse_line(rules, buf[fix_from_index as int], old_prev);
                    entry[fix_from_index as int].tokens == r.0 && entry[
                        fix_from_index as int
                    ].state == r.1
                }),
                forall|i: int|
                    fix_from_index < i < n ==> ({
                        let r = spec_parse_line(rules, buf[i], entry[i - 1].state);
                        (#[trigger] entry[i]).tokens == r.0 && entry[i].state == r.1
                    }),
                forall|i: int|
                    fix_from_index < i < m ==> !((#[trigger] entry[i - 1]).state
                        == LineStateV::Fin && self.spec_lines()[i - 1].state == LineStateV::Fin),
            decreases n - m,
        {
            match prior {
                Some(s) => {
                    let done = matches!(s, LineState::Finished) && matches!(
                        carry,
                        LineState::Finished,
                    );
                    if done {
                        proof {
                            assert forall|i: int|
                                0 <= i < n implies chain_ok(rules, buf, self.spec_lines(), i) by {
                                if i >= m {
                                    assert(entry[i].tokens == self.spec_lines()[i].tokens);
                                    if i == m {
                                        assert(entry[m - 1].state == LineStateV::Fin);
                                        assert(self.spec_lines()[m - 1].state == LineStateV::Fin);
                                    } else {
                                        assert(entry[i - 1].state == self.spec_lines()[
                                            i - 1
                                        ].state);
                                    }
                                }
                            }
                            assert(unchanged_from(entry, self.spec_lines(), m as int, n as int));
                        }
                        return ;
                    }
                },
                None => {},
            }
            let old_state = self.lines[m].state;
            proof {
                assert(self.spec_lines()[m as int] == self.lines@[m as int]@);
                assert(self.spec_lines()[m as int].state == entry[m as int].state);
                assert(old_state@ == entry[m as int].state);
            }
            let ghost before = self.lines@;
            let mut tokens: Vec<Token> = Vec::new();
            let state = syntax.parse_line(buffer.line_at(m), carry, &mut tokens);
            let slot = vstd::std_specs::vec::vec_index_mut(&mut self.lines, m);
            *slot = HighlightedLine { state, tokens };
            proof {
                assert(self.lines@ == before.update(m as int, self.lines@[m as int]));
                lemma_hl_view_update(before, m as int, self.lines@[m as int]);
                assert forall|i: int|
                    0 <= i < m + 1 implies chain_ok(rules, buf, self.spec_lines(), i) by {
                    if i < m {
                        assert(chain_ok(rules, buf, hl_view(before), i));
                        assert(self.spec_lines()[i] == hl_view(before)[i]);
                        if i > 0 {
                            assert(self.spec_lines()[i - 1] == hl_view(before)[i - 1]);
                        }
                        assert(prev_state(self.spec_lines(), i) == prev_state(hl_view(before), i));
                    } else {
                        if i > 0 {
                            assert(self.spec_lines()[i - 1] == hl_view(before)[i - 1]);
                        }
                        assert(prev_state(self.spec_lines(), i) == carry@);
                        assert(self.spec_lines()[i] == self.lines@[m as int]@);
                        assert(self.spec_lines()[i].tokens == spec_parse_line(
                            rules,
                            buf[i],
                            carry@,
                        ).0);
                        assert(self.spec_lines()[i].state == spec_parse_line(
                            rules,
                            buf[i],
                            carry@,
                        ).1);
                    }
                }
            }
            carry = state;
            prior = Some(old_state);
            m = m + 1;
        }
        proof {
            assert(unchanged_from(entry, self.spec_lines(), n as int, n as int));
        }
    }
}


impl HighlightedBuffer {
    /// Repairs the overlay after text was inserted over `range`: grow by the
    /// inserted line count, re-parse the edited lines, then walk forward
    /// until the carry states converge. Beyond some line `c` the overlay is
    /// byte-identical to its pre-edit lines, shifted by the insertion.
    #[verifier::rlimit(100)]
    pub fn on_insert(&mut self, syntax: &Syntax, buffer: &BufferContent, range: BufferRange)
        requires
            buffer.wf(),
            range.from.line_index <= range.to.line_index,
            range.to.line_index < buffer@.len(),
            old(self).spec_lines().len() + (range.to.line_index - range.from.line_index)
                == buffer@.len(),
            forall|i: int|
                0 <= i < range.from.line_index ==> chain_ok(
                    syntax.spec_rules(),
                    buffer@,
                    old(self).spec_lines(),
                    i,
                ),
            forall|i: int|
                range.from.line_index < i < old(self).spec_lines().len() ==> ({
                    let r = spec_parse_line(
                        syntax.spec_rules(),
                        buffer@[i + range.to.line_index - range.from.line_index],
                        old(self).spec_lines()[i - 1].state,
                    );
                    (#[trigger] old(self).spec_lines()[i]).tokens == r.0 && old(
                        self,
                    ).spec_lines()[i].state == r.1
                }),
        ensures
            converged(syntax.spec_rules(), buffer@, final(self).spec_lines()),
            unchanged_from(
                old(self).spec_lines(),
                final(self).spec_lines(),
                0,
                range.from.line_index as int,
            ),
            exists|c: int|
                range.to.line_index + 1 <= c <= buffer@.len() && insert_locality(
                    old(self).spec_lines(),
                    final(self).spec_lines(),
                    range,
                    buffer@.len() as int,
                    c,
                ),
    {
        let a = range.from.line_index as usize;
        let b = range.to.line_index as usize;
        let ins = b - a;
        let nbuf = buffer.line_count();
        let ghost rules = syntax.spec_rules();
        let ghost buf = buffer@;
        let ghost entry = old(self).spec_lines();
        let ghost old_a_state = entry[a as int].state;
        proof {
            assert(a <= b < nbuf);
            assert(self.lines@.len() == entry.len());
        }

        let mut previous_line_kind = self.previous_line_kind_at(a);

        // Grow the overlay: the inserted lines take slots `a+1 ..= b`.
        let mut tail_lines = self.lines.split_off(a + 1);
        proof {
            assert(hl_view(self.lines@) =~= entry.take(a + 1));
            assert(hl_view(tail_lines@) =~= entry.skip(a + 1));
        }
        let mut k: usize = 0;
        while k < ins
            invariant
                0 <= k <= ins,
                a < entry.len(),
                entry.len() + ins == buf.len(),
                self.spec_lines() =~= entry.take(a + 1) + Seq::new(
                    k as nat,
                    |q: int| HighlightedLineV { state: LineStateV::Fin, tokens: Seq::empty() },
                ),
            decreases ins - k,
        {
            let ghost before = self.lines@;
            self.lines.push(HighlightedLine { state: LineState::Finished, tokens: Vec::new() });
            proof {
                lemma_hl_view_push(before, self.lines@[self.lines@.len() - 1]);
                assert(self.lines@[self.lines@.len() - 1]@.tokens =~= Seq::<TokenV>::empty());
                assert(self.lines@[self.lines@.len() - 1]@ == (HighlightedLineV {
                    state: LineStateV::Fin,
                    tokens: Seq::empty(),
                }));
                assert(self.spec_lines() =~= entry.take(a + 1) + Seq::new(
                    (k + 1) as nat,
                    |q: int| HighlightedLineV { state: LineStateV::Fin, tokens: Seq::empty() },
                ));
            }
            k = k + 1;
        }
        let ghost mid = self.spec_lines();
        self.lines.append(&mut tail_lines);
        proof {
            assert(hl_view(self.lines@) =~= mid + entry.skip(a + 1)) by {
                assert forall|q: int|
                    0 <= q < self.lines@.len() implies #[trigger] hl_view(self.lines@)[q] == (mid
                    + entry.skip(a + 1))[q] by {
                    if q < mid.len() {
                    } else {
                    }
                }
            }
            assert(self.spec_lines() =~= entry.take(a + 1) + Seq::new(
                ins as nat,
                |q: int| HighlightedLineV { state: LineStateV::Fin, tokens: Seq::empty() },
            ) + entry.skip(a + 1));
        }
        let ghost spliced = self.spec_lines();
        proof {
            assert forall|i: int| 0 <= i < a implies chain_ok(rules, buf, spliced, i) by {
                assert(chain_ok(rules, buf, entry, i));
                assert(spliced[i].tokens == entry[i].tokens && spliced[i].state
                    == entry[i].state);
                if i > 0 {
                    assert(spliced[i - 1].state == entry[i - 1].state);
                }
                assert(prev_state(spliced, i) == prev_state(entry, i));
            }
            assert(previous_line_kind@ == prev_state(spliced, a as int)) by {
                if a > 0 {
                    assert(spliced[a - 1].state == entry[a - 1].state);
                }
            }
        }

        // Re-parse the edited region `a ..= b` under the running carry.
        let mut m: usize = a;
        while m <= b
            invariant
                a <= m <= b + 1,
                nbuf == buf.len(),
                b < nbuf,
                a < entry.len(),
                entry.len() + ins == buf.len(),
                ins == b - a,
                rules == syntax.spec_rules(),
                buf == buffer@,
                self.spec_lines().len() == buf.len(),
                spliced.len() == buf.len(),
                unchanged_from(spliced, self.spec_lines(), m as int, buf.len() as int),
                unchanged_from(spliced, self.spec_lines(), 0, a as int),
                forall|i: int|
                    0 <= i < a ==> chain_ok(rules, buf, self.spec_lines(), i),
                forall|i: int|
                    a <= i < m ==> chain_ok(rules, buf, self.spec_lines(), i),
                previous_line_kind@ == prev_state(self.spec_lines(), m as int),
                forall|i: int|
                    b + 1 < i < buf.len() ==> (#[trigger] spliced[i]).tokens == entry[
                        i - ins
                    ].tokens && spliced[i].state == entry[i - ins].state,
                b + 1 < buf.len() ==> spliced[b + 1].tokens == entry[a + 1].tokens && spliced[
                    b + 1
                ].state == entry[a + 1].state,
            decreases b + 1 - m,
        {
            let ghost before = self.lines@;
            let mut tokens: Vec<Token> = Vec::new();
            let state = syntax.parse_line(buffer.line_at(m), previous_line_kind, &mut tokens);
            let slot = vstd::std_specs::vec::vec_index_mut(&mut self.lines, m);
            *slot = HighlightedLine { state, tokens };
            proof {
                assert(self.lines@ == before.update(m as int, self.lines@[m as int]));
                lemma_hl_view_update(before, m as int, self.lines@[m as int]);
                assert forall|i: int|
                    0 <= i < m + 1 && (i < a || a <= i) implies (i < a ==> chain_ok(
                    rules,
                    buf,
                    self.spec_lines(),
                    i,
                )) && (a <= i ==> chain_ok(rules, buf, self.spec_lines(), i)) by {
                    if i < m {
                        assert(chain_ok(rules, buf, hl_view(before), i));
                        assert(self.spec_lines()[i] == hl_view(before)[i]);
                        if i > 0 {
                            assert(self.spec_lines()[i - 1] == hl_view(before)[i - 1]);
                        }
                        assert(prev_state(self.spec_lines(), i) == prev_state(hl_view(before), i));
                    } else if i == m {
                        if i > 0 {
                            assert(self.spec_lines()[i - 1] == hl_view(before)[i - 1]);
                        }
                        assert(prev_state(self.spec_lines(), i) == previous_line_kind@);
                        assert(self.spec_lines()[i] == self.lines@[m as int]@);
                        assert(self.spec_lines()[i].tokens == spec_parse_line(
                            rules,
                            buf[i],
                            previous_line_kind@,
                        ).0);
                        assert(self.spec_lines()[i].state == spec_parse_line(
                            rules,
                            buf[i],
                            previous_line_kind@,
                        ).1);
                    }
                }
            }
            previous_line_kind = state;
            m = m + 1;
        }

        // Walk forward until the carry re-converges with the shifted tail.
        proof {
            lemma_insert_fix_pre(rules, buf, entry, spliced, self.spec_lines(), a as int, b as int, ins as int);
        }
        let ghost fix_entry = self.spec_lines();
        self.fix_highlight_from(
            syntax,
            buffer,
            previous_line_kind,
            b + 1,
            Ghost(old_a_state),
        );
        proof {
            lemma_insert_fix_post(
                entry,
                spliced,
                fix_entry,
                self.spec_lines(),
                range,
                a as int,
                b as int,
                ins as int,
                buf.len() as int,
            );
        }
    }
}

/// After the edited region is re-parsed, the shifted tail still satisfies
/// the old chain, which is what the repair walk resumes from.
proof fn lemma_insert_fix_pre(
    rules: Seq<(TokenKind, PatternV)>,
    buf: Seq<Seq<u8>>,
    entry: Seq<HighlightedLineV>,
    spliced: Seq<HighlightedLineV>,
    cur: Seq<HighlightedLineV>,
    a: int,
    b: int,
    ins: int,
)
    requires
        ins == b - a,
        0 <= a <= b < buf.len(),
        entry.len() + ins == buf.len(),
        spliced.len() == buf.len(),
        cur.len() == buf.len(),
        unchanged_from(spliced, cur, b + 1, buf.len() as int),
        forall|i: int|
            b + 1 < i < buf.len() ==> (#[trigger] spliced[i]).tokens == entry[i - ins].tokens
                && spliced[i].state == entry[i - ins].state,
        b + 1 < buf.len() ==> spliced[b + 1].tokens == entry[a + 1].tokens && spliced[
            b + 1
        ].state == entry[a + 1].state,
        forall|i: int|
            a < i < entry.len() ==> ({
                let r = spec_parse_line(rules, buf[i + ins], entry[i - 1].state);
                (#[trigger] entry[i]).tokens == r.0 && entry[i].state == r.1
            }),
    ensures
        b + 1 < buf.len() ==> ({
            let r = spec_parse_line(rules, buf[b + 1], entry[a].state);
            cur[b + 1].tokens == r.0 && cur[b + 1].state == r.1
        }),
        forall|i: int|
            b + 1 < i < buf.len() ==> ({
                let r = spec_parse_line(rules, buf[i], cur[i - 1].state);
                (#[trigger] cur[i]).tokens == r.0 && cur[i].state == r.1
            }),
{
    if b + 1 < buf.len() {
        assert(cur[b + 1].tokens == spliced[b + 1].tokens);
        assert(entry[a + 1].tokens == spec_parse_line(rules, buf[a + 1 + ins], entry[a].state).0);
    }
    assert forall|i: int|
        b + 1 < i < buf.len() implies ({
        let r = spec_parse_line(rules, buf[i], cur[i - 1].state);
        (#[trigger] cur[i]).tokens == r.0 && cur[i].state == r.1
    }) by {
        assert(cur[i].tokens == spliced[i].tokens);
        assert(spliced[i].tokens == entry[i - ins].tokens);
        assert(cur[i - 1].state == spliced[i - 1].state);
        if i - 1 == b + 1 {
            assert(spliced[i - 1].state == entry[a + 1].state);
        } else {
            assert(spliced[i - 1].state == entry[i - 1 - ins].state);
        }
        assert(entry[i - ins].tokens == spec_parse_line(rules, buf[i], entry[i - ins - 1].state).0);
    }
}

/// After the repair walk, every line at or past its stop point carries its
/// pre-edit value, shifted by the insertion.
proof fn lemma_insert_fix_post(
    entry: Seq<HighlightedLineV>,
    spliced: Seq<HighlightedLineV>,
    fix_entry: Seq<HighlightedLineV>,
    cur: Seq<HighlightedLineV>,
    range: BufferRange,
    a: int,
    b: int,
    ins: int,
    n: int,
)
    requires
        a == range.from.line_index,
        b == range.to.line_index,
        ins == b - a,
        0 <= a <= b < n,
        entry.len() + ins == n,
        spliced.len() == n,
        fix_entry.len() == n,
        cur.len() == n,
        unchanged_from(fix_entry, cur, 0, b + 1),
        exists|c: int|
            b + 1 <= c <= n && unchanged_from(fix_entry, cur, c, n),
        unchanged_from(spliced, fix_entry, b + 1, n),
        unchanged_from(spliced, fix_entry, 0, a),
        forall|i: int|
            b + 1 < i < n ==> (#[trigger] spliced[i]).tokens == entry[i - ins].tokens
                && spliced[i].state == entry[i - ins].state,
        b + 1 < n ==> spliced[b + 1].tokens == entry[a + 1].tokens && spliced[b + 1].state
            == entry[a + 1].state,
        forall|i: int|
            0 <= i < a ==> (#[trigger] spliced[i]).tokens == entry[i].tokens && spliced[i].state
                == entry[i].state,
    ensures
        unchanged_from(entry, cur, 0, a),
        exists|c: int|
            b + 1 <= c <= n && insert_locality(entry, cur, range, n, c),
{
    let c = choose|c: int| b + 1 <= c <= n && unchanged_from(fix_entry, cur, c, n);
    assert(shifted_unchanged(entry, cur, ins, c, n)) by {
        assert forall|i: int|
            c <= i < n implies (#[trigger] cur[i]).tokens == entry[i - ins].tokens && cur[i].state
            == entry[i - ins].state by {
            assert(cur[i].tokens == fix_entry[i].tokens);
            assert(fix_entry[i].tokens == spliced[i].tokens);
            if i == b + 1 {
                assert(spliced[i].tokens == entry[a + 1].tokens);
            } else {
                assert(spliced[i].tokens == entry[i - ins].tokens);
            }
        }
    }
    assert(insert_locality(entry, cur, range, n, c));
    assert(unchanged_from(entry, cur, 0, a)) by {
        assert forall|i: int|
            0 <= i < a implies (#[trigger] cur[i]).tokens == entry[i].tokens && cur[i].state
            == entry[i].state by {
            assert(cur[i].tokens == fix_entry[i].tokens);
            assert(fix_entry[i].tokens == spliced[i].tokens);
        }
    }
}


/// After a delete over `range`, overlay lines `[c, n)` are the pre-edit
/// lines shifted up by the removed line count.
pub open spec fn delete_locality(
    entry: Seq<HighlightedLineV>,
    cur: Seq<HighlightedLineV>,
    range: BufferRange,
    n: int,
    c: int,
) -> bool {
    shifted_unchanged(
        entry,
        cur,
        range.from.line_index - range.to.line_index,
        c,
        n,
    )
}

impl HighlightedBuffer {
    /// Repairs the overlay after the text within `range` was deleted: drop
    /// the removed lines, re-parse the merged line, then walk forward until
    /// the carry states converge. A point delete keeps the line count and
    /// re-parses the affected line alone.
    #[verifier::rlimit(100)]
    pub fn on_delete(&mut self, syntax: &Syntax, buffer: &BufferContent, range: BufferRange)
        requires
            buffer.wf(),
            range.from.line_index <= range.to.line_index,
            range.to.line_index < old(self).spec_lines().len(),
            old(self).spec_lines().len() == buffer@.len() + (range.to.line_index
                - range.from.line_index),
            forall|i: int|
                0 <= i < range.from.line_index ==> chain_ok(
                    syntax.spec_rules(),
                    buffer@,
                    old(self).spec_lines(),
                    i,
                ),
            forall|i: int|
                range.to.line_index < i < old(self).spec_lines().len() ==> ({
                    let r = spec_parse_line(
                        syntax.spec_rules(),
                        buffer@[i - (range.to.line_index - range.from.line_index)],
                        old(self).spec_lines()[i - 1].state,
                    );
                    (#[trigger] old(self).spec_lines()[i]).tokens == r.0 && old(
                        self,
                    ).spec_lines()[i].state == r.1
                }),
        ensures
            converged(syntax.spec_rules(), buffer@, final(self).spec_lines()),
            unchanged_from(
                old(self).spec_lines(),
                final(self).spec_lines(),
                0,
                range.from.line_index as int,
            ),
            exists|c: int|
                range.from.line_index + 1 <= c <= buffer@.len() && delete_locality(
                    old(self).spec_lines(),
                    final(self).spec_lines(),
                    range,
                    buffer@.len() as int,
                    c,
                ),
    {
        let fl = range.from.line_index as usize;
        let tl = range.to.line_index as usize;
        let d = tl - fl;
        let nbuf = buffer.line_count();
        let ghost rules = syntax.spec_rules();
        let ghost buf = buffer@;
        let ghost entry = old(self).spec_lines();
        let ghost old_tl_state = entry[tl as int].state;
        proof {
            assert(fl < nbuf);
        }

        // Drop the removed lines: the overlay keeps `[0, fl)` and
        // `[tl, old_len)`, so the merged buffer line `fl` mirrors slot `fl`.
        let mut tail_lines = self.lines.split_off(tl);
        self.lines.truncate(fl);
        self.lines.append(&mut tail_lines);
        proof {
            assert(self.spec_lines() =~= entry.take(fl as int) + entry.skip(tl as int)) by {
                assert forall|q: int|
                    0 <= q < self.lines@.len() implies #[trigger] hl_view(self.lines@)[q] == (
                entry.take(fl as int) + entry.skip(tl as int))[q] by {}
            }
        }
        let ghost spliced = self.spec_lines();
        proof {
            assert(spliced.len() == buf.len());
            assert forall|i: int| 0 <= i < fl implies chain_ok(rules, buf, spliced, i) by {
                assert(chain_ok(rules, buf, entry, i));
                assert(spliced[i].tokens == entry[i].tokens && spliced[i].state
                    == entry[i].state);
                if i > 0 {
                    assert(spliced[i - 1].state == entry[i - 1].state);
                }
                assert(prev_state(spliced, i) == prev_state(entry, i));
            }
        }

        // Re-parse the merged line under the previous line's state.
        let previous_line_kind = self.previous_line_kind_at(fl);
        proof {
            if fl > 0 {
                assert(spliced[fl - 1].state == entry[fl - 1].state);
            }
        }
        let ghost before = self.lines@;
        let mut tokens: Vec<Token> = Vec::new();
        let state = syntax.parse_line(buffer.line_at(fl), previous_line_kind, &mut tokens);
        let slot = vstd::std_specs::vec::vec_index_mut(&mut self.lines, fl);
        *slot = HighlightedLine { state, tokens };
        proof {
            assert(self.lines@ == before.update(fl as int, self.lines@[fl as int]));
            lemma_hl_view_update(before, fl as int, self.lines@[fl as int]);
            assert forall|i: int|
                0 <= i < fl + 1 implies chain_ok(rules, buf, self.spec_lines(), i) by {
                if i < fl {
                    assert(chain_ok(rules, buf, hl_view(before), i));
                    assert(self.spec_lines()[i] == hl_view(before)[i]);
                    if i > 0 {
                        assert(self.spec_lines()[i - 1] == hl_view(before)[i - 1]);
                    }
                    assert(prev_state(self.spec_lines(), i) == prev_state(hl_view(before), i));
                } else {
                    if i > 0 {
                        assert(self.spec_lines()[i - 1] == hl_view(before)[i - 1]);
                    }
                    assert(prev_state(self.spec_lines(), i) == previous_line_kind@);
                    assert(self.spec_lines()[i] == self.lines@[fl as int]@);
                }
            }
            lemma_delete_fix_pre(
                rules,
                buf,
                entry,
                spliced,
                self.spec_lines(),
                fl as int,
                tl as int,
                d as int,
            );
        }
        let ghost fix_entry = self.spec_lines();
        self.fix_highlight_from(syntax, buffer, state, fl + 1, Ghost(old_tl_state));
        proof {
            lemma_delete_fix_post(
                entry,
                spliced,
                fix_entry,
                self.spec_lines(),
                range,
                fl as int,
                tl as int,
                d as int,
                buf.len() as int,
            );
        }
    }
}

/// After the merged line is re-parsed, the shifted tail still satisfies the
/// old chain, which is what the repair walk resumes from.
proof fn lemma_delete_fix_pre(
    rules: Seq<(TokenKind, PatternV)>,
    buf: Seq<Seq<u8>>,
    entry: Seq<HighlightedLineV>,
    spliced: Seq<HighlightedLineV>,
    cur: Seq<HighlightedLineV>,
    fl: int,
    tl: int,
    d: int,
)
    requires
        d == tl - fl,
        0 <= fl <= tl,
        tl < entry.len(),
        entry.len() == buf.len() + d,
        spliced =~= entry.take(fl) + entry.skip(tl),
        cur.len() == buf.len(),
        unchanged_from(spliced, cur, fl + 1, buf.len() as int),
        forall|i: int|
            tl < i < entry.len() ==> ({
                let r = spec_parse_line(rules, buf[i - d], entry[i - 1].state);
                (#[trigger] entry[i]).tokens == r.0 && entry[i].state == r.1
            }),
    ensures
        fl + 1 < buf.len() ==> ({
            let r = spec_parse_line(rules, buf[fl + 1], entry[tl].state);
            cur[fl + 1].tokens == r.0 && cur[fl + 1].state == r.1
        }),
        forall|i: int|
            fl + 1 < i < buf.len() ==> ({
                let r = spec_parse_line(rules, buf[i], cur[i - 1].state);
                (#[trigger] cur[i]).tokens == r.0 && cur[i].state == r.1
            }),
{
    if fl + 1 < buf.len() {
        assert(cur[fl + 1].tokens == spliced[fl + 1].tokens);
        assert(spliced[fl + 1].tokens == entry[tl + 1].tokens);
        assert(entry[tl + 1].tokens == spec_parse_line(rules, buf[fl + 1], entry[tl].state).0);
    }
    assert forall|i: int|
        fl + 1 < i < buf.len() implies ({
        let r = spec_parse_line(rules, buf[i], cur[i - 1].state);
        (#[trigger] cur[i]).tokens == r.0 && cur[i].state == r.1
    }) by {
        assert(cur[i].tokens == spliced[i].tokens);
        assert(spliced[i].tokens == entry[i + d].tokens);
        assert(cur[i - 1].state == spliced[i - 1].state);
        assert(spliced[i - 1].state == entry[i - 1 + d].state);
        assert(entry[i + d].tokens == spec_parse_line(rules, buf[i], entry[i + d - 1].state).0);
    }
}

/// After the repair walk, every line at or past its stop point carries its
/// pre-edit value, shifted by the deletion.
proof fn lemma_delete_fix_post(
    entry: Seq<HighlightedLineV>,
    spliced: Seq<HighlightedLineV>,
    fix_entry: Seq<HighlightedLineV>,
    cur: Seq<HighlightedLineV>,
    range: BufferRange,
    fl: int,
    tl: int,
    d: int,
    n: int,
)
    requires
        fl == range.from.line_index,
        tl == range.to.line_index,
        d == tl - fl,
        0 <= fl <= tl,
        tl < entry.len(),
        entry.len() == n + d,
        fl < n,
        spliced =~= entry.take(fl) + entry.skip(tl),
        fix_entry.len() == n,
        cur.len() == n,
        unchanged_from(fix_entry, cur, 0, fl + 1),
        exists|c: int| fl + 1 <= c <= n && unchanged_from(fix_entry, cur, c, n),
        unchanged_from(spliced, fix_entry, fl + 1, n),
        unchanged_from(spliced, fix_entry, 0, fl),
    ensures
        unchanged_from(entry, cur, 0, fl),
        exists|c: int|
            fl + 1 <= c <= n && delete_locality(entry, cur, range, n, c),
{
    let c = choose|c: int| fl + 1 <= c <= n && unchanged_from(fix_entry, cur, c, n);
    assert(shifted_unchanged(entry, cur, fl - tl, c, n)) by {
        assert forall|i: int|
            c <= i < n implies (#[trigger] cur[i]).tokens == entry[i - (fl - tl)].tokens
            && cur[i].state == entry[i - (fl - tl)].state by {
            assert(cur[i].tokens == fix_entry[i].tokens);
            assert(fix_entry[i].tokens == spliced[i].tokens);
            assert(spliced[i].tokens == entry[i + d].tokens);
        }
    }
    assert(delete_locality(entry, cur, range, n, c));
    assert(unchanged_from(entry, cur, 0, fl)) by {
        assert forall|i: int|
            0 <= i < fl implies (#[trigger] cur[i]).tokens == entry[i].tokens && cur[i].state
            == entry[i].state by {
            assert(cur[i].tokens == fix_entry[i].tokens);
            assert(fix_entry[i].tokens == spliced[i].tokens);
            assert(spliced[i].tokens == entry[i].tokens);
        }
    }
}

/// The kind of the token containing byte column `col`, or plain text where
/// no token does.
pub open spec fn spec_token_kind_at(tokens: Seq<TokenV>, col: int) -> TokenKind
    decreases tokens.len(),
{
    if tokens.len() == 0 {
        TokenKind::Text
    } else if tokens[0].from <= col < tokens[0].to {
        tokens[0].kind
    } else {
        spec_token_kind_at(tokens.drop_first(), col)
    }
}

impl HighlightedBuffer {
    /// The kind of the token at a position, or plain text where the overlay
    /// has none.
    pub fn find_token_kind_at(&self, line_index: usize, char_index: usize) -> (r: TokenKind)
        ensures
            line_index < self.spec_lines().len() ==> r == spec_token_kind_at(
                self.spec_lines()[line_index as int].tokens,
                char_index as int,
            ),
            line_index >= self.spec_lines().len() ==> r == TokenKind::Text,
    {
        proof {
            assert(self.lines@.len() == self.spec_lines().len());
        }
        if line_index >= self.lines.len() {
            return TokenKind::Text;
        }
        let tokens = &self.lines[line_index].tokens;
        let ghost tv = self.spec_lines()[line_index as int].tokens;
        proof {
            assert(tv == tokens_view(tokens@));
            assert(tv.skip(0) =~= tv);
        }
        let n = tokens.len();
        let mut i: usize = 0;
        while i < n
            invariant
                0 <= i <= n,
                n == tokens@.len(),
                tv == tokens_view(tokens@),
                line_index < self.spec_lines().len(),
                tv == self.spec_lines()[line_index as int].tokens,
                spec_token_kind_at(tv, char_index as int) == spec_token_kind_at(
                    tv.skip(i as int),
                    char_index as int,
                ),
            decreases n - i,
        {
            let t = tokens[i];
            proof {
                assert(tv.skip(i as int)[0] == tokens@[i as int]@);
                assert(tv.skip(i as int).drop_first() =~= tv.skip(i as int + 1));
            }
            if t.from <= char_index && char_index < t.to {
                proof {
                    assert(spec_token_kind_at(tv.skip(i as int), char_index as int) == t@.kind);
                }
                return t.kind;
            }
            i = i + 1;
        }
        proof {
            assert(tv.skip(i as int) =~= Seq::<TokenV>::empty());
        }
        TokenKind::Text
    }
}

} // verus!
