//! The pattern language of syntax rules. A pattern is a literal prefix,
//! optionally followed by one multi-line repeat group `{!X.$}`: after the
//! prefix, consume bytes until the terminator `X` has been consumed, carrying
//! the match across line ends. `%` escapes the byte after it; `X` is a single
//! (possibly escaped) byte or a parenthesized byte sequence.

use vstd::prelude::*;
use vstd::string::{StrSliceExecFns, StringSliceAdditionalSpecFns};

verus! {

/// The carry of a match paused at a line end, handed to the next line.
#[derive(Debug, Clone, Copy, PartialEq, Eq, Structural)]
pub struct PatternState {}

/// What matching a pattern against a byte slice yields: a match of that many
/// bytes, no match, or a match paused at the end of the slice.
#[derive(Debug, Clone, Copy, PartialEq, Eq, Structural)]
pub enum MatchResult {
    Match(usize),
    NoMatch,
    Pending(PatternState),
}

/// The mathematical value of a match: the length, a miss, or a carry.
pub enum SpecMatch {
    Hit(int),
    Miss,
    Carry,
}

/// A pattern's mathematical value: its literal prefix and, if it has a
/// repeat group, the group's terminator.
pub struct PatternV {
    pub prefix: Seq<u8>,
    pub terminator: Option<Seq<u8>>,
}

/// A compiled pattern.
#[derive(Debug, Clone, PartialEq, Eq)]
pub struct Pattern {
    prefix: Vec<u8>,
    terminator: Option<Vec<u8>>,
}

/// A malformed pattern text: an empty prefix, a dangling escape, or a
/// malformed repeat group.
#[derive(Debug, Clone, Copy, PartialEq, Eq, Structural)]
pub struct PatternError {}

impl View for Pattern {
    type V = PatternV;

    closed spec fn view(&self) -> PatternV {
        PatternV {
            prefix: self.prefix@,
            terminator: match self.terminator {
                Some(ref t) => Some(t@),
                None => None,
            },
        }
    }
}

pub open spec fn pattern_wf(p: PatternV) -> bool {
    &&& p.prefix.len() > 0
    &&& match p.terminator {
        Some(t) => t.len() > 0,
        None => true,
    }
}

/// Whether `s` holds `needle` at position `i`.
pub open spec fn has_at(s: Seq<u8>, i: int, needle: Seq<u8>) -> bool {
    &&& 0 <= i
    &&& i + needle.len() <= s.len()
    &&& s.subrange(i, i + needle.len()) == needle
}

/// The least position at or after `from` where `s` holds `needle`.
pub open spec fn spec_find(s: Seq<u8>, from: int, needle: Seq<u8>) -> Option<int>
    decreases s.len() - from,
{
    if from < 0 || from + needle.len() > s.len() {
        None
    } else if needle.len() == 0 {
        Some(from)
    } else if has_at(s, from, needle) {
        Some(from)
    } else {
        spec_find(s, from + 1, needle)
    }
}

/// Matching a pattern against `s` from its start: the prefix must be there;
/// a pattern with a repeat group then consumes up to and including the first
/// terminator, or carries past the end of the slice.
pub open spec fn spec_matches(p: PatternV, s: Seq<u8>) -> SpecMatch {
    if !has_at(s, 0, p.prefix) {
        SpecMatch::Miss
    } else {
        match p.terminator {
            None => SpecMatch::Hit(p.prefix.len() as int),
            Some(t) => match spec_find(s, p.prefix.len() as int, t) {
                Some(i) => SpecMatch::Hit(i + t.len()),
                None => SpecMatch::Carry,
            },
        }
    }
}

/// Resuming a paused match on the next line: consume up to and including
/// the first terminator, or carry again. A pattern without a repeat group
/// has nothing to resume.
pub open spec fn spec_matches_with_state(p: PatternV, s: Seq<u8>) -> SpecMatch {
    match p.terminator {
        None => SpecMatch::Miss,
        Some(t) => match spec_find(s, 0, t) {
            Some(i) => SpecMatch::Hit(i + t.len()),
            None => SpecMatch::Carry,
        },
    }
}

/// Whether `slice` holds `needle` at position `i`.
fn slice_has_at(s: &[u8], i: usize, needle: &Vec<u8>) -> (r: bool)
    requires
        i <= s@.len(),
    ensures
        r == has_at(s@, i as int, needle@),
{
    let n = needle.len();
    let slen = s.len();
    if slen - i < n {
        proof {
            assert(!has_at(s@, i as int, needle@));
        }
        return false;
    }
    let mut k: usize = 0;
    while k < n
        invariant
            0 <= k <= n,
            n == needle@.len(),
            slen == s@.len(),
            i + n <= slen,
            forall|q: int| 0 <= q < k ==> s@[i + q] == needle@[q],
        decreases n - k,
    {
        if s[i + k] != needle[k] {
            proof {
                assert(s@.subrange(i as int, i + needle@.len())[k as int] != needle@[k as int]);
            }
            return false;
        }
        k = k + 1;
    }
    proof {
        assert(s@.subrange(i as int, i + needle@.len()) =~= needle@);
    }
    true
}

/// The least position at or after `from` where `s` holds `needle`.
pub fn find_in_slice(s: &[u8], from: usize, needle: &Vec<u8>) -> (r: Option<usize>)
    requires
        from <= s@.len(),
    ensures
        ({
            let sr = spec_find(s@, from as int, needle@);
            match r {
                Some(i) => sr == Some(i as int),
                None => sr is None,
            }
        }),
{
    let n = needle.len();
    let slen = s.len();
    if slen - from < n {
        proof {
            assert(spec_find(s@, from as int, needle@) is None);
        }
        return None;
    }
    if n == 0 {
        return Some(from);
    }
    let mut i: usize = from;
    while i <= slen - n
        invariant
            from <= i,
            1 <= n <= slen,
            i <= slen - n + 1,
            slen == s@.len(),
            n == needle@.len(),
            spec_find(s@, from as int, needle@) == spec_find(s@, i as int, needle@),
        decreases slen - i,
    {
        if slice_has_at(s, i, needle) {
            return Some(i);
        }
        i = i + 1;
    }
    proof {
        assert(spec_find(s@, i as int, needle@) is None);
    }
    None
}

impl Pattern {
    /// Matches the pattern against the start of `slice`.
    pub fn matches(&self, slice: &[u8]) -> (r: MatchResult)
        ensures
            ({
                let sr = spec_matches(self@, slice@);
                match r {
                    MatchResult::Match(n) => sr == SpecMatch::Hit(n as int) && n <= slice@.len(),
                    MatchResult::NoMatch => sr == SpecMatch::Miss,
                    MatchResult::Pending(_) => sr == SpecMatch::Carry,
                }
            }),
    {
        if !slice_has_at(slice, 0, &self.prefix) {
            return MatchResult::NoMatch;
        }
        match &self.terminator {
            None => MatchResult::Match(self.prefix.len()),
            Some(t) => {
                proof {
                    assert(self.prefix@.len() <= slice@.len());
                }
                let slen = slice.len();
                match find_in_slice(slice, self.prefix.len(), t) {
                    Some(i) => {
                        proof {
                            lemma_spec_find_bounds(slice@, self.prefix@.len() as int, t@);
                            assert(i + t@.len() <= slen);
                        }
                        MatchResult::Match(i + t.len())
                    },
                    None => MatchResult::Pending(PatternState {}),
                }
            },
        }
    }

    /// Resumes a match paused on an earlier line against the next line.
    pub fn matches_with_state(&self, slice: &[u8], _state: &PatternState) -> (r: MatchResult)
        ensures
            ({
                let sr = spec_matches_with_state(self@, slice@);
                match r {
                    MatchResult::Match(n) => sr == SpecMatch::Hit(n as int) && n <= slice@.len(),
                    MatchResult::NoMatch => sr == SpecMatch::Miss,
                    MatchResult::Pending(_) => sr == SpecMatch::Carry,
                }
            }),
    {
        match &self.terminator {
            None => MatchResult::NoMatch,
            Some(t) => {
                let slen = slice.len();
                match find_in_slice(slice, 0, t) {
                    Some(i) => {
                        proof {
                            lemma_spec_find_bounds(slice@, 0, t@);
                            assert(i + t@.len() <= slen);
                        }
                        MatchResult::Match(i + t.len())
                    },
                    None => MatchResult::Pending(PatternState {}),
                }
            },
        }
    }
}

/// The literal prefix read from pattern text at `i`: the bytes up to the
/// end or to an unescaped `{`, with `%` escaping the byte after it, and the
/// position where reading stopped. A dangling `%` is malformed.
pub open spec fn spec_scan_prefix(b: Seq<u8>, i: int) -> Option<(Seq<u8>, int)>
    decreases b.len() - i,
{
    if i < 0 || i >= b.len() {
        Some((Seq::empty(), if i < 0 { i } else { b.len() as int }))
    } else if b[i] == 123u8 {
        Some((Seq::empty(), i))
    } else if b[i] == 37u8 {
        if i + 1 >= b.len() {
            None
        } else {
            match spec_scan_prefix(b, i + 2) {
                Some((rest, j)) => Some((seq![b[i + 1]] + rest, j)),
                None => None,
            }
        }
    } else {
        match spec_scan_prefix(b, i + 1) {
            Some((rest, j)) => Some((seq![b[i]] + rest, j)),
            None => None,
        }
    }
}

/// The bytes of a parenthesized terminator read from `i` up to `)`, with
/// `%` escapes, and the position after the `)`.
pub open spec fn spec_scan_paren(b: Seq<u8>, i: int) -> Option<(Seq<u8>, int)>
    decreases b.len() - i,
{
    if i < 0 || i >= b.len() {
        None
    } else if b[i] == 41u8 {
        Some((Seq::empty(), i + 1))
    } else if b[i] == 37u8 {
        if i + 1 >= b.len() {
            None
        } else {
            match spec_scan_paren(b, i + 2) {
                Some((rest, j)) => Some((seq![b[i + 1]] + rest, j)),
                None => None,
            }
        }
    } else {
        match spec_scan_paren(b, i + 1) {
            Some((rest, j)) => Some((seq![b[i]] + rest, j)),
            None => None,
        }
    }
}

/// Whether `b` ends with exactly `.$}` starting at `i`.
pub open spec fn spec_group_tail(b: Seq<u8>, i: int) -> bool {
    &&& i + 3 == b.len()
    &&& 0 <= i
    &&& b[i] == 46u8
    &&& b[i + 1] == 36u8
    &&& b[i + 2] == 125u8
}

/// The terminator of a repeat group `{!X.$}` standing at `i`, which must
/// close the pattern text.
pub open spec fn spec_scan_group(b: Seq<u8>, i: int) -> Option<Seq<u8>> {
    if i + 2 >= b.len() || b[i] != 123u8 || b[i + 1] != 33u8 {
        None
    } else {
        let j = i + 2;
        if b[j] == 40u8 {
            match spec_scan_paren(b, j + 1) {
                Some((t, k)) => if t.len() > 0 && spec_group_tail(b, k) {
                    Some(t)
                } else {
                    None
                },
                None => None,
            }
        } else if b[j] == 37u8 {
            if j + 1 < b.len() && spec_group_tail(b, j + 2) {
                Some(seq![b[j + 1]])
            } else {
                None
            }
        } else {
            if spec_group_tail(b, j + 1) {
                Some(seq![b[j]])
            } else {
                None
            }
        }
    }
}

/// What pattern text means: a non-empty literal prefix, optionally closed
/// by one repeat group; anything else is malformed.
pub open spec fn spec_parse_pattern(b: Seq<u8>) -> Option<PatternV> {
    match spec_scan_prefix(b, 0) {
        None => None,
        Some((pre, i)) => if pre.len() == 0 {
            None
        } else if i == b.len() {
            Some(PatternV { prefix: pre, terminator: None })
        } else {
            match spec_scan_group(b, i) {
                Some(t) => Some(PatternV { prefix: pre, terminator: Some(t) }),
                None => None,
            }
        },
    }
}

impl Pattern {
    /// Compiles pattern text, or reports it malformed.
    pub fn new(text: &str) -> (r: Result<Pattern, PatternError>)
        ensures
            ({
                let sr = spec_parse_pattern(text.spec_bytes());
                match r {
                    Ok(p) => sr == Some(p@) && pattern_wf(p@),
                    Err(_) => sr is None,
                }
            }),
    {
        let b = text.as_bytes();
        let n = b.len();
        let mut prefix: Vec<u8> = Vec::new();
        let mut i: usize = 0;
        while i < n && b[i] != 123u8
            invariant
                0 <= i <= n,
                n == b@.len(),
                b@ == text.spec_bytes(),
                ({
                    let whole = spec_scan_prefix(b@, 0);
                    match spec_scan_prefix(b@, i as int) {
                        Some((rest, j)) => whole == Some::<(Seq<u8>, int)>(
                            (prefix@ + rest, j),
                        ),
                        None => whole is None,
                    }
                }),
            decreases n - i,
        {
            if b[i] == 37u8 {
                if i + 1 >= n {
                    proof {
                        assert(spec_scan_prefix(b@, 0) is None);
                    }
                    return Err(PatternError {});
                }
                prefix.push(b[i + 1]);
                proof {
                    lemma_prefix_step(b@, i as int, prefix@, i + 2);
                }
                i = i + 2;
            } else {
                prefix.push(b[i]);
                proof {
                    lemma_prefix_step(b@, i as int, prefix@, i + 1);
                }
                i = i + 1;
            }
        }
        proof {
            if i < n {
                assert(spec_scan_prefix(b@, i as int) == Some::<(Seq<u8>, int)>(
                    (Seq::<u8>::empty(), i as int),
                ));
            }
            assert(prefix@ + Seq::<u8>::empty() =~= prefix@);
        }
        if prefix.len() == 0 {
            return Err(PatternError {});
        }
        if i == n {
            return Ok(Pattern { prefix, terminator: None });
        }
        if n - i < 3 || b[i + 1] != 33u8 {
            proof {
                assert(spec_scan_group(b@, i as int) is None);
            }
            return Err(PatternError {});
        }
        let j = i + 2;
        let mut term: Vec<u8> = Vec::new();
        let k: usize;
        if b[j] == 40u8 {
            let mut m: usize = j + 1;
            while m < n && b[m] != 41u8
                invariant
                    j + 1 <= m <= n,
                    n == b@.len(),
                    b@ == text.spec_bytes(),
                    spec_scan_prefix(b@, 0) == Some::<(Seq<u8>, int)>((prefix@, i as int)),
                    prefix@.len() > 0,
                    j == i + 2,
                    i + 3 <= n,
                    b@[i as int] == 123u8,
                    b@[i + 1] == 33u8,
                    b@[j as int] == 40u8,
                    ({
                        let whole = spec_scan_paren(b@, j + 1);
                        match spec_scan_paren(b@, m as int) {
                            Some((rest, q)) => whole == Some::<(Seq<u8>, int)>(
                                (term@ + rest, q),
                            ),
                            None => whole is None,
                        }
                    }),
                decreases n - m,
            {
                if b[m] == 37u8 {
                    if m + 1 >= n {
                        proof {
                            assert(spec_scan_paren(b@, j + 1) is None);
                        }
                        return Err(PatternError {});
                    }
                    term.push(b[m + 1]);
                    proof {
                        lemma_paren_step(b@, m as int, term@, m + 2);
                    }
                    m = m + 2;
                } else {
                    term.push(b[m]);
                    proof {
                        lemma_paren_step(b@, m as int, term@, m + 1);
                    }
                    m = m + 1;
                }
            }
            if m >= n {
                proof {
                    assert(spec_scan_paren(b@, m as int) is None);
                    assert(spec_scan_paren(b@, j + 1) is None);
                }
                return Err(PatternError {});
            }
            proof {
                assert(spec_scan_paren(b@, m as int) == Some::<(Seq<u8>, int)>(
                    (Seq::<u8>::empty(), m + 1),
                ));
                assert(term@ + Seq::<u8>::empty() =~= term@);
            }
            if term.len() == 0 {
                return Err(PatternError {});
            }
            k = m + 1;
        } else if b[j] == 37u8 {
            if j + 1 >= n {
                return Err(PatternError {});
            }
            term.push(b[j + 1]);
            k = j + 2;
        } else {
            term.push(b[j]);
            k = j + 1;
        }
        if !(n - k == 3 && b[k] == 46u8 && b[k + 1] == 36u8 && b[k + 2] == 125u8) {
            proof {
                assert(!spec_group_tail(b@, k as int));
            }
            return Err(PatternError {});
        }
        Ok(Pattern { prefix, terminator: Some(term) })
    }
}

/// One step of the prefix scan: consuming the item at `i` prepends its byte.
proof fn lemma_prefix_step(b: Seq<u8>, i: int, acc: Seq<u8>, next: int)
    requires
        0 <= i < b.len(),
        b[i] != 123u8,
        acc.len() > 0,
        b[i] == 37u8 ==> next == i + 2 && i + 1 < b.len() && acc.last() == b[i + 1],
        b[i] != 37u8 ==> next == i + 1 && acc.last() == b[i],
    ensures
        ({
            match spec_scan_prefix(b, next) {
                Some((rest, j)) => spec_scan_prefix(b, i) == Some::<(Seq<u8>, int)>(
                    (seq![acc.last()] + rest, j),
                ) && (acc.drop_last() + (seq![acc.last()] + rest) =~= acc + rest),
                None => spec_scan_prefix(b, i) is None,
            }
        }),
{
}

/// One step of the parenthesized-terminator scan.
proof fn lemma_paren_step(b: Seq<u8>, i: int, acc: Seq<u8>, next: int)
    requires
        0 <= i < b.len(),
        b[i] != 41u8,
        acc.len() > 0,
        b[i] == 37u8 ==> next == i + 2 && i + 1 < b.len() && acc.last() == b[i + 1],
        b[i] != 37u8 ==> next == i + 1 && acc.last() == b[i],
    ensures
        ({
            match spec_scan_paren(b, next) {
                Some((rest, j)) => spec_scan_paren(b, i) == Some::<(Seq<u8>, int)>(
                    (seq![acc.last()] + rest, j),
                ) && (acc.drop_last() + (seq![acc.last()] + rest) =~= acc + rest),
                None => spec_scan_paren(b, i) is None,
            }
        }),
{
}

/// A found occurrence lies within the slice.
pub proof fn lemma_spec_find_bounds(s: Seq<u8>, from: int, needle: Seq<u8>)
    requires
        0 <= from,
    ensures
        spec_find(s, from, needle) matches Some(i) ==> from <= i && i + needle.len() <= s.len(),
    decreases s.len() - from,
{
    if from + needle.len() > s.len() {
    } else if needle.len() == 0 {
    } else if has_at(s, from, needle) {
    } else {
        lemma_spec_find_bounds(s, from + 1, needle);
    }
}

} // verus!
