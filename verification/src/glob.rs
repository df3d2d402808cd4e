//! Path globs for choosing a syntax: `*` matches any run of bytes, `?` any
//! single byte, anything else itself.

use vstd::prelude::*;

verus! {

/// Whether glob text `p` matches the whole of `s`.
pub open spec fn spec_glob_match(p: Seq<u8>, s: Seq<u8>) -> bool
    decreases p.len(), s.len(),
{
    if p.len() == 0 {
        s.len() == 0
    } else if p[0] == 42u8 {
        spec_glob_match(p.drop_first(), s) || (s.len() > 0 && spec_glob_match(p, s.drop_first()))
    } else if p[0] == 63u8 {
        s.len() > 0 && spec_glob_match(p.drop_first(), s.drop_first())
    } else {
        s.len() > 0 && s[0] == p[0] && spec_glob_match(p.drop_first(), s.drop_first())
    }
}

/// A compiled glob. An empty one matches only the empty path.
#[derive(Debug, Clone, PartialEq, Eq)]
pub struct Glob {
    pattern: Vec<u8>,
}

impl View for Glob {
    type V = Seq<u8>;

    closed spec fn view(&self) -> Seq<u8> {
        self.pattern@
    }
}

fn glob_match_at(p: &[u8], pi: usize, s: &[u8], si: usize) -> (r: bool)
    requires
        pi <= p@.len(),
        si <= s@.len(),
    ensures
        r == spec_glob_match(p@.skip(pi as int), s@.skip(si as int)),
    decreases p@.len() - pi, s@.len() - si,
{
    let np = p.len();
    let ns = s.len();
    proof {
        if pi < np {
            assert(p@.skip(pi as int)[0] == p@[pi as int]);
            assert(p@.skip(pi as int).drop_first() =~= p@.skip(pi as int + 1));
        }
        if si < ns {
            assert(s@.skip(si as int)[0] == s@[si as int]);
            assert(s@.skip(si as int).drop_first() =~= s@.skip(si as int + 1));
        }
    }
    if pi >= np {
        si >= ns
    } else if p[pi] == 42u8 {
        if glob_match_at(p, pi + 1, s, si) {
            true
        } else if si < ns {
            glob_match_at(p, pi, s, si + 1)
        } else {
            false
        }
    } else if p[pi] == 63u8 {
        si < ns && glob_match_at(p, pi + 1, s, si + 1)
    } else {
        si < ns && s[si] == p[pi] && glob_match_at(p, pi + 1, s, si + 1)
    }
}

impl Glob {
    pub fn new() -> (r: Self)
        ensures
            r@ == Seq::<u8>::empty(),
    {
        Glob { pattern: Vec::new() }
    }

    /// Replaces the glob's text. Every byte string is a valid glob in this
    /// dialect.
    pub fn compile(&mut self, pattern: &[u8])
        ensures
            final(self)@ == pattern@,
    {
        self.pattern = vstd::slice::slice_to_vec(pattern);
    }

    /// The glob's source text.
    pub fn text(&self) -> (r: &[u8])
        ensures
            r@ == self@,
    {
        self.pattern.as_slice()
    }

    /// Whether the glob matches the whole path.
    pub fn matches(&self, path: &[u8]) -> (r: bool)
        ensures
            r == spec_glob_match(self@, path@),
    {
        proof {
            assert(self.pattern@.skip(0) =~= self.pattern@);
            assert(path@.skip(0) =~= path@);
        }
        glob_match_at(self.pattern.as_slice(), 0, path, 0)
    }
}

impl Default for Glob {
    fn default() -> (r: Self)
        ensures
            r@ == Seq::<u8>::empty(),
    {
        Glob { pattern: Vec::new() }
    }
}

} // verus!
