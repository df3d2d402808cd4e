//! Buffer text as a non-empty list of byte lines, with the positions,
//! ranges and cursors that address it.

use vstd::prelude::*;
use vstd::slice::{slice_subrange, slice_to_vec};
use vstd::string::StringSliceAdditionalSpecFns;

use crate::pattern::spec_find;

verus! {

/// A position in a buffer: a line and a byte column within it.
#[derive(Debug, Clone, Copy, PartialEq, Eq, Structural)]
pub struct BufferPosition {
    pub line_index: u32,
    pub column_byte_index: u32,
}

impl BufferPosition {
    pub fn line_col(line_index: u32, column_byte_index: u32) -> (r: Self)
        ensures
            r == (BufferPosition { line_index, column_byte_index }),
    {
        BufferPosition { line_index, column_byte_index }
    }

    pub fn zero() -> (r: Self)
        ensures
            r == (BufferPosition { line_index: 0u32, column_byte_index: 0u32 }),
    {
        BufferPosition { line_index: 0, column_byte_index: 0 }
    }

    /// Whether this position comes no later than `other`, by line then
    /// column.
    pub open spec fn spec_le(self, other: Self) -> bool {
        ||| self.line_index < other.line_index
        ||| (self.line_index == other.line_index && self.column_byte_index
            <= other.column_byte_index)
    }

    pub fn le(&self, other: &Self) -> (r: bool)
        ensures
            r == self.spec_le(*other),
    {
        self.line_index < other.line_index || (self.line_index == other.line_index
            && self.column_byte_index <= other.column_byte_index)
    }
}

impl Default for BufferPosition {
    fn default() -> (r: Self)
        ensures
            r == (BufferPosition { line_index: 0u32, column_byte_index: 0u32 }),
    {
        BufferPosition { line_index: 0, column_byte_index: 0 }
    }
}

/// An ordered pair of positions: `from` comes no later than `to`.
#[derive(Debug, Clone, Copy, PartialEq, Eq, Structural)]
pub struct BufferRange {
    pub from: BufferPosition,
    pub to: BufferPosition,
}

impl BufferRange {
    /// The range between two positions, in whichever order they come.
    pub fn between(a: BufferPosition, b: BufferPosition) -> (r: Self)
        ensures
            a.spec_le(b) ==> r == (BufferRange { from: a, to: b }),
            !a.spec_le(b) ==> r == (BufferRange { from: b, to: a }),
            r.from.spec_le(r.to),
    {
        if a.le(&b) {
            BufferRange { from: a, to: b }
        } else {
            BufferRange { from: b, to: a }
        }
    }
}

/// A cursor: its anchor and its position; the selection is the range
/// between them.
#[derive(Debug, Clone, Copy, PartialEq, Eq, Structural)]
pub struct Cursor {
    pub anchor: BufferPosition,
    pub position: BufferPosition,
}

impl Cursor {
    pub fn to_range(&self) -> (r: BufferRange)
        ensures
            r == BufferRange::spec_between(self.anchor, self.position),
    {
        BufferRange::between(self.anchor, self.position)
    }
}

impl BufferRange {
    pub open spec fn spec_between(a: BufferPosition, b: BufferPosition) -> Self {
        if a.spec_le(b) {
            BufferRange { from: a, to: b }
        } else {
            BufferRange { from: b, to: a }
        }
    }
}

impl Default for Cursor {
    fn default() -> (r: Self)
        ensures
            r == (Cursor {
                anchor: BufferPosition { line_index: 0u32, column_byte_index: 0u32 },
                position: BufferPosition { line_index: 0u32, column_byte_index: 0u32 },
            }),
    {
        Cursor { anchor: BufferPosition::zero(), position: BufferPosition::zero() }
    }
}

/// The lines that byte text splits into at each newline byte: one more line
/// than there are newlines, each line without its newline.
pub open spec fn spec_split_from(b: Seq<u8>, start: int) -> Seq<Seq<u8>>
    decreases b.len() - start,
{
    if start < 0 || start > b.len() {
        Seq::empty()
    } else {
        match spec_find(b, start, seq![10u8]) {
            Some(i) => if start <= i < b.len() {
                seq![b.subrange(start, i)] + spec_split_from(b, i + 1)
            } else {
                seq![b.subrange(start, b.len() as int)]
            },
            None => seq![b.subrange(start, b.len() as int)],
        }
    }
}

pub open spec fn spec_split_lines(b: Seq<u8>) -> Seq<Seq<u8>> {
    spec_split_from(b, 0)
}

/// The byte sequences of a list of byte vectors.
pub open spec fn lines_view(s: Seq<Vec<u8>>) -> Seq<Seq<u8>> {
    s.map_values(|l: Vec<u8>| l@)
}

proof fn lemma_lines_view_push(prev: Seq<Vec<u8>>, x: Vec<u8>)
    ensures
        lines_view(prev.push(x)) =~= lines_view(prev).push(x@),
{
    assert forall|k: int| 0 <= k < prev.len() + 1 implies #[trigger] lines_view(prev.push(x))[k]
        == lines_view(prev).push(x@)[k] by {
        if k < prev.len() {
            assert(prev.push(x)[k] == prev[k]);
        } else {
            assert(prev.push(x)[k] == x);
        }
    }
}

/// Splits bytes into lines at each newline byte.
fn split_bytes(b: &[u8]) -> (r: Vec<Vec<u8>>)
    ensures
        lines_view(r@) == spec_split_lines(b@),
        r@.len() >= 1,
{
    let n = b.len();
    let nl: Vec<u8> = vec![10u8];
    let mut out: Vec<Vec<u8>> = Vec::new();
    let mut start: usize = 0;
    loop
        invariant
            0 <= start <= n,
            n == b@.len(),
            nl@ == seq![10u8],
            spec_split_lines(b@) == lines_view(out@) + spec_split_from(b@, start as int),
        decreases n - start,
    {
        match crate::pattern::find_in_slice(b, start, &nl) {
            Some(i) => {
                proof {
                    crate::pattern::lemma_spec_find_bounds(b@, start as int, nl@);
                }
                let ghost prev = out@;
                let piece = slice_to_vec(slice_subrange(b, start, i));
                let ghost pview = piece@;
                out.push(piece);
                proof {
                    lemma_lines_view_push(prev, out@[out@.len() - 1]);
                    assert(lines_view(out@) + spec_split_from(b@, i + 1) =~= lines_view(prev) + (
                    seq![pview] + spec_split_from(b@, i + 1)));
                    assert(seq![pview] + spec_split_from(b@, i + 1) =~= spec_split_from(
                        b@,
                        start as int,
                    ));
                }
                start = i + 1;
            },
            None => {
                let ghost prev = out@;
                let piece = slice_to_vec(slice_subrange(b, start, n));
                let ghost pview = piece@;
                out.push(piece);
                proof {
                    lemma_lines_view_push(prev, out@[out@.len() - 1]);
                    assert(seq![pview] =~= spec_split_from(b@, start as int));
                    assert(lines_view(out@) =~= lines_view(prev) + seq![pview]);
                    assert(lines_view(out@) =~= spec_split_lines(b@));
                }
                return out;
            },
        }
    }
}

/// A buffer's text: at least one line, each a byte string without newlines.
pub struct BufferContent {
    lines: Vec<Vec<u8>>,
}

impl View for BufferContent {
    type V = Seq<Seq<u8>>;

    closed spec fn view(&self) -> Seq<Seq<u8>> {
        lines_view(self.lines@)
    }
}

impl BufferContent {
    pub open spec fn wf(&self) -> bool {
        self@.len() >= 1
    }

    /// The buffer holding `text`, split into lines at each newline.
    pub fn from_str(text: &str) -> (r: Self)
        ensures
            r@ == spec_split_lines(text.spec_bytes()),
            r.wf(),
    {
        BufferContent { lines: split_bytes(text.as_bytes()) }
    }

    pub fn line_count(&self) -> (r: usize)
        ensures
            r == self@.len(),
    {
        self.lines.len()
    }

    pub fn line_at(&self, index: usize) -> (r: &[u8])
        requires
            index < self@.len(),
        ensures
            r@ == self@[index as int],
    {
        self.lines[index].as_slice()
    }
}

/// The lines after inserting text at line `li`, column `col`: the text's
/// first fragment joins the head of the split line, its last fragment joins
/// the tail, and any middle fragments stand as lines of their own.
pub open spec fn spec_insert_lines(lines: Seq<Seq<u8>>, li: int, col: int, b: Seq<u8>) -> Seq<
    Seq<u8>,
> {
    let frags = spec_split_lines(b);
    let head = lines[li].take(col);
    let tail = lines[li].skip(col);
    if frags.len() == 1 {
        lines.update(li, head + frags[0] + tail)
    } else {
        lines.take(li) + seq![head + frags[0]] + frags.subrange(1, frags.len() - 1) + seq![
            frags.last() + tail,
        ] + lines.skip(li + 1)
    }
}

/// The position just after inserted text that began at line `li`,
/// column `col`.
pub open spec fn spec_insert_end(li: int, col: int, b: Seq<u8>) -> (int, int) {
    let frags = spec_split_lines(b);
    if frags.len() == 1 {
        (li, col + b.len())
    } else {
        (li + frags.len() - 1, frags.last().len() as int)
    }
}

/// The lines after deleting the range between `(fl, fc)` and `(tl, tc)`:
/// what precedes the range on its first line joins what follows it on its
/// last line; the lines between vanish.
pub open spec fn spec_delete_lines(
    lines: Seq<Seq<u8>>,
    fl: int,
    fc: int,
    tl: int,
    tc: int,
) -> Seq<Seq<u8>> {
    lines.take(fl) + seq![lines[fl].take(fc) + lines[tl].skip(tc)] + lines.skip(tl + 1)
}

impl BufferContent {
    /// Inserts `text` at `position` and returns the range it now occupies.
    pub fn insert_text(&mut self, position: BufferPosition, text: &str) -> (r: BufferRange)
        requires
            old(self).wf(),
            position.line_index < old(self)@.len(),
            position.column_byte_index <= old(self)@[position.line_index as int].len(),
            ({
                let end = spec_insert_end(
                    position.line_index as int,
                    position.column_byte_index as int,
                    text.spec_bytes(),
                );
                end.0 <= u32::MAX && end.1 <= u32::MAX
            }),
        ensures
            final(self).wf(),
            final(self)@ == spec_insert_lines(
                old(self)@,
                position.line_index as int,
                position.column_byte_index as int,
                text.spec_bytes(),
            ),
            ({
                let end = spec_insert_end(
                    position.line_index as int,
                    position.column_byte_index as int,
                    text.spec_bytes(),
                );
                r == (BufferRange {
                    from: position,
                    to: BufferPosition {
                        line_index: end.0 as u32,
                        column_byte_index: end.1 as u32,
                    },
                })
            }),
    {
        let li = position.line_index as usize;
        let col = position.column_byte_index as usize;
        let nlines = self.lines.len();
        proof {
            assert(nlines == self@.len());
        }
        let ghost target = spec_insert_lines(
            old(self)@,
            li as int,
            col as int,
            text.spec_bytes(),
        );
        let mut frags = split_bytes(text.as_bytes());
        let ghost fv = spec_split_lines(text.spec_bytes());
        let mut tail_lines = self.lines.split_off(li + 1);
        let mut cur = match self.lines.pop() {
            Some(l) => l,
            None => {
                proof {
                    assert(false);
                }
                Vec::new()
            },
        };
        proof {
            assert(cur@ == old(self)@[li as int]);
            assert(lines_view(self.lines@) =~= old(self)@.take(li as int));
            assert(lines_view(tail_lines@) =~= old(self)@.skip(li as int + 1));
        }
        let mut rest = cur.split_off(col);
        let flen = frags.len();
        if flen == 1 {
            let mut f0 = match frags.pop() {
                Some(f) => f,
                None => {
                    proof {
                        assert(false);
                    }
                    Vec::new()
                },
            };
            proof {
                assert(f0@ == fv[0]);
            }
            let text_len = f0.len();
            cur.append(&mut f0);
            cur.append(&mut rest);
            self.lines.push(cur);
            self.lines.append(&mut tail_lines);
            proof {
                assert(text.spec_bytes().len() == fv[0].len()) by {
                    if spec_find(text.spec_bytes(), 0, seq![10u8]) is Some {
                        crate::pattern::lemma_spec_find_bounds(text.spec_bytes(), 0, seq![10u8]);
                        let fi = spec_find(text.spec_bytes(), 0, seq![10u8])->0;
                        assert(0 <= fi + 1 <= text.spec_bytes().len());
                        assert(spec_split_from(text.spec_bytes(), fi + 1).len() >= 1);
                        assert(fv.len() >= 2);
                    }
                    assert(fv[0] =~= text.spec_bytes());
                }
                let ghost joined = old(self)@[li as int].take(col as int) + fv[0] + old(
                    self,
                )@[li as int].skip(col as int);
                assert(target =~= old(self)@.take(li as int) + seq![joined] + old(self)@.skip(
                    li as int + 1,
                ));
                assert(cur@ == joined);
                assert(lines_view(self.lines@) =~= target);
            }
            BufferRange {
                from: position,
                to: BufferPosition {
                    line_index: position.line_index,
                    column_byte_index: position.column_byte_index + text_len as u32,
                },
            }
        } else {
            let ghost mid = fv.subrange(1, fv.len() - 1);
            let mut f0 = frags.remove(0);
            cur.append(&mut f0);
            self.lines.push(cur);
            proof {
                assert(lines_view(self.lines@) =~= old(self)@.take(li as int) + seq![
                    old(self)@[li as int].take(col as int) + fv[0],
                ]);
            }
            let mut processed: usize = 0;
            proof {
                assert(frags@.len() == fv.len() - 1);
            }
            while frags.len() > 1
                invariant
                    frags@.len() >= 1,
                    flen == fv.len(),
                    processed + frags@.len() + 1 == fv.len(),
                    fv == spec_split_lines(text.spec_bytes()),
                    fv.len() >= 2,
                    li < old(self)@.len(),
                    col <= old(self)@[li as int].len(),
                    lines_view(frags@) =~= fv.subrange(processed + 1, fv.len() as int),
                    lines_view(self.lines@) =~= old(self)@.take(li as int) + seq![
                        old(self)@[li as int].take(col as int) + fv[0],
                    ] + fv.subrange(1, processed + 1),
                decreases frags@.len(),
            {
                let ghost prevfrags = frags@;
                let f = frags.remove(0);
                let ghost before = self.lines@;
                self.lines.push(f);
                proof {
                    lemma_lines_view_push(before, f);
                    assert(lines_view(prevfrags)[0] == prevfrags[0]@);
                    assert(f@ == fv.subrange(processed + 1, fv.len() as int)[0]);
                    assert(f@ == fv[processed + 1]);
                    assert(lines_view(self.lines@) =~= old(self)@.take(li as int) + seq![
                        old(self)@[li as int].take(col as int) + fv[0],
                    ] + fv.subrange(1, processed + 2));
                    assert(lines_view(frags@) =~= fv.subrange(processed + 2, fv.len() as int)) by {
                        assert forall|k: int| 0 <= k < frags@.len() implies #[trigger] lines_view(
                            frags@,
                        )[k] == fv.subrange(processed + 2, fv.len() as int)[k] by {
                            assert(frags@[k] == prevfrags[k + 1]);
                            assert(lines_view(prevfrags)[k + 1] == prevfrags[k + 1]@);
                            assert(lines_view(prevfrags)[k + 1] == fv.subrange(
                                processed + 1,
                                fv.len() as int,
                            )[k + 1]);
                        }
                    }
                }
                processed = processed + 1;
            }
            let ghost prevfrags = frags@;
            let mut flast = match frags.pop() {
                Some(f) => f,
                None => {
                    proof {
                        assert(false);
                    }
                    Vec::new()
                },
            };
            proof {
                assert(lines_view(prevfrags)[0] == prevfrags[0]@);
                assert(flast@ == fv.subrange(processed + 1, fv.len() as int)[0]);
                assert(flast@ == fv.last());
            }
            let last_len = flast.len();
            flast.append(&mut rest);
            self.lines.push(flast);
            self.lines.append(&mut tail_lines);
            proof {
                assert(processed + 2 == fv.len());
                assert(lines_view(self.lines@) =~= target) by {
                    assert(target =~= old(self)@.take(li as int) + seq![
                        old(self)@[li as int].take(col as int) + fv[0],
                    ] + fv.subrange(1, fv.len() - 1) + seq![
                        fv.last() + old(self)@[li as int].skip(col as int),
                    ] + old(self)@.skip(li as int + 1));
                }
            }
            proof {
                assert(li + (flen - 1) <= u32::MAX);
            }
            let end_line = li + (flen - 1);
            BufferRange {
                from: position,
                to: BufferPosition {
                    line_index: end_line as u32,
                    column_byte_index: last_len as u32,
                },
            }
        }
    }

    /// Deletes the text within `range`.
    pub fn delete_range(&mut self, range: BufferRange)
        requires
            old(self).wf(),
            range.from.spec_le(range.to),
            range.to.line_index < old(self)@.len(),
            range.from.column_byte_index <= old(self)@[range.from.line_index as int].len(),
            range.to.column_byte_index <= old(self)@[range.to.line_index as int].len(),
        ensures
            final(self).wf(),
            final(self)@ == spec_delete_lines(
                old(self)@,
                range.from.line_index as int,
                range.from.column_byte_index as int,
                range.to.line_index as int,
                range.to.column_byte_index as int,
            ),
    {
        let fl = range.from.line_index as usize;
        let fc = range.from.column_byte_index as usize;
        let tl = range.to.line_index as usize;
        let tc = range.to.column_byte_index as usize;
        let nlines = self.lines.len();
        proof {
            assert(nlines == self@.len());
        }
        let mut tail_lines = self.lines.split_off(tl + 1);
        let mut mid = self.lines.split_off(fl);
        proof {
            assert(lines_view(self.lines@) =~= old(self)@.take(fl as int));
            assert(lines_view(tail_lines@) =~= old(self)@.skip(tl as int + 1));
            assert(mid@.len() == tl + 1 - fl);
            assert(mid@[0]@ == old(self)@[fl as int]);
            assert(mid@[mid@.len() - 1]@ == old(self)@[tl as int]);
        }
        let mut first = mid.remove(0);
        if fl == tl {
            let mut end_part = first.split_off(tc);
            first.truncate(fc);
            first.append(&mut end_part);
            self.lines.push(first);
        } else {
            let mut last = match mid.pop() {
                Some(l) => l,
                None => {
                    proof {
                        assert(false);
                    }
                    Vec::new()
                },
            };
            let mut end_part = last.split_off(tc);
            first.truncate(fc);
            first.append(&mut end_part);
            self.lines.push(first);
        }
        self.lines.append(&mut tail_lines);
        proof {
            assert(lines_view(self.lines@) =~= spec_delete_lines(
                old(self)@,
                fl as int,
                fc as int,
                tl as int,
                tc as int,
            )) by {
                assert(old(self)@[fl as int].take(fc as int) + old(self)@[tl as int].skip(
                    tc as int,
                ) == lines_view(self.lines@)[fl as int]);
            }
        }
    }
}


/// The greedy, non-overlapping occurrences of `needle` in `line` at or
/// after `from`: each match's start, then searching again just past it.
pub open spec fn spec_line_matches(line: Seq<u8>, needle: Seq<u8>, from: int) -> Seq<int>
    decreases line.len() - from,
    via spec_line_matches_decreases
{
    if needle.len() == 0 {
        Seq::empty()
    } else {
        match spec_find(line, from, needle) {
            Some(i) => seq![i] + spec_line_matches(line, needle, i + needle.len()),
            None => Seq::empty(),
        }
    }
}

#[via_fn]
proof fn spec_line_matches_decreases(line: Seq<u8>, needle: Seq<u8>, from: int) {
    if needle.len() > 0 && spec_find(line, from, needle) is Some {
        crate::pattern::lemma_spec_find_bounds(line, from, needle);
    }
}

/// Every match of `needle` in the buffer's lines at or after line `li`, as
/// line-and-start pairs in reading order.
pub open spec fn spec_search_from(lines: Seq<Seq<u8>>, needle: Seq<u8>, li: int) -> Seq<(int, int)>
    decreases lines.len() - li,
{
    if li < 0 || li >= lines.len() {
        Seq::empty()
    } else {
        spec_line_matches(lines[li], needle, 0).map_values(|m: int| (li, m)) + spec_search_from(
            lines,
            needle,
            li + 1,
        )
    }
}

/// The search matches as buffer ranges: one per match, spanning the
/// needle's bytes within its line, in reading order.
pub open spec fn spec_search_ranges(lines: Seq<Seq<u8>>, needle: Seq<u8>) -> Seq<BufferRange> {
    spec_search_from(lines, needle, 0).map_values(
        |m: (int, int)|
            BufferRange {
                from: BufferPosition {
                    line_index: m.0 as u32,
                    column_byte_index: m.1 as u32,
                },
                to: BufferPosition {
                    line_index: m.0 as u32,
                    column_byte_index: (m.1 + needle.len()) as u32,
                },
            },
    )
}

impl BufferContent {
    /// Whether every line index and line length fits the position type.
    pub fn fits_u32(&self) -> (r: bool)
        ensures
            r == (self@.len() <= u32::MAX && (forall|i: int|
                0 <= i < self@.len() ==> (#[trigger] self@[i]).len() <= u32::MAX)),
    {
        let n = self.line_count();
        if n > u32::MAX as usize {
            return false;
        }
        let mut i: usize = 0;
        while i < n
            invariant
                0 <= i <= n,
                n == self@.len(),
                n <= u32::MAX,
                forall|k: int| 0 <= k < i ==> (#[trigger] self@[k]).len() <= u32::MAX,
            decreases n - i,
        {
            if self.line_at(i).len() > u32::MAX as usize {
                return false;
            }
            i = i + 1;
        }
        true
    }

    /// Finds every occurrence of `needle` within single lines, greedily and
    /// without overlap, appending one range per match in reading order.
    pub fn find_search_ranges(&self, needle: &[u8], ranges: &mut Vec<BufferRange>)
        requires
            self@.len() <= u32::MAX,
            forall|i: int| 0 <= i < self@.len() ==> (#[trigger] self@[i]).len() <= u32::MAX,
            needle@.len() >= 1,
        ensures
            ({
                let found = spec_search_from(self@, needle@, 0);
                final(ranges)@.len() == old(ranges)@.len() + found.len() && (forall|k: int|
                    0 <= k < found.len() ==> {
                        let r = #[trigger] final(ranges)@[old(ranges)@.len() + k];
                        r.from.line_index == found[k].0 && r.from.column_byte_index == found[k].1
                            && r.to.line_index == found[k].0 && r.to.column_byte_index
                            == found[k].1 + needle@.len()
                    }) && (forall|k: int|
                    0 <= k < old(ranges)@.len() ==> #[trigger] final(ranges)@[k] == old(
                        ranges,
                    )@[k])
            }),
    {
        let nl = vstd::slice::slice_to_vec(needle);
        let n = self.line_count();
        let ghost base = ranges@;
        let ghost whole = spec_search_from(self@, needle@, 0);
        let mut li: usize = 0;
        while li < n
            invariant
                0 <= li <= n,
                n == self@.len(),
                n <= u32::MAX,
                nl@ == needle@,
                needle@.len() >= 1,
                forall|i: int| 0 <= i < self@.len() ==> (#[trigger] self@[i]).len() <= u32::MAX,
                whole == spec_search_from(self@, needle@, 0),
                ranges@.len() >= base.len(),
                whole =~= ranges@.subrange(base.len() as int, ranges@.len() as int).map_values(
                    |r: BufferRange| (r.from.line_index as int, r.from.column_byte_index as int),
                ) + spec_search_from(self@, needle@, li as int),
                forall|k: int|
                    base.len() <= k < ranges@.len() ==> {
                        let r = #[trigger] ranges@[k];
                        r.to.line_index == r.from.line_index && r.to.column_byte_index
                            == r.from.column_byte_index + needle@.len()
                    },
                forall|k: int| 0 <= k < base.len() ==> #[trigger] ranges@[k] == base[k],
            decreases n - li,
        {
            let line = self.line_at(li);
            let line_len = line.len();
            let ghost lm = spec_line_matches(self@[li as int], needle@, 0);
            let mut from: usize = 0;
            let ghost mut seen: int = 0;
            while from <= line_len
                invariant_except_break
                    line_len == line@.len(),
                    0 <= from <= line@.len() + 1,
                    from <= line@.len() || (from > 0 && spec_line_matches(
                        line@,
                        needle@,
                        from as int,
                    ) =~= Seq::<int>::empty()),
                    line@ == self@[li as int],
                    li < n,
                    n == self@.len(),
                    n <= u32::MAX,
                    nl@ == needle@,
                    needle@.len() >= 1,
                    forall|i: int|
                        0 <= i < self@.len() ==> (#[trigger] self@[i]).len() <= u32::MAX,
                    whole == spec_search_from(self@, needle@, 0),
                    ranges@.len() >= base.len(),
                    0 <= seen <= lm.len(),
                    lm == spec_line_matches(line@, needle@, 0),
                    lm.skip(seen) =~= spec_line_matches(line@, needle@, from as int),
                    whole =~= ranges@.subrange(base.len() as int, ranges@.len() as int).map_values(
                        |r: BufferRange| (
                            r.from.line_index as int,
                            r.from.column_byte_index as int,
                        ),
                    ) + lm.skip(seen).map_values(|m: int| (li as int, m)) + spec_search_from(
                        self@,
                        needle@,
                        li + 1,
                    ),
                    forall|k: int|
                        base.len() <= k < ranges@.len() ==> {
                            let r = #[trigger] ranges@[k];
                            r.to.line_index == r.from.line_index && r.to.column_byte_index
                                == r.from.column_byte_index + needle@.len()
                        },
                    forall|k: int| 0 <= k < base.len() ==> #[trigger] ranges@[k] == base[k],
                ensures
                    spec_line_matches(line@, needle@, from as int) =~= Seq::<int>::empty(),
                    line@ == self@[li as int],
                    whole =~= ranges@.subrange(base.len() as int, ranges@.len() as int).map_values(
                        |r: BufferRange| (
                            r.from.line_index as int,
                            r.from.column_byte_index as int,
                        ),
                    ) + spec_search_from(self@, needle@, li + 1),
                    ranges@.len() >= base.len(),
                    forall|k: int|
                        base.len() <= k < ranges@.len() ==> {
                            let r = #[trigger] ranges@[k];
                            r.to.line_index == r.from.line_index && r.to.column_byte_index
                                == r.from.column_byte_index + needle@.len()
                        },
                    forall|k: int| 0 <= k < base.len() ==> #[trigger] ranges@[k] == base[k],
                decreases line@.len() + 1 - from,
            {
                match crate::pattern::find_in_slice(line, from, &nl) {
                    Some(i) => {
                        proof {
                            crate::pattern::lemma_spec_find_bounds(line@, from as int, needle@);
                            assert(lm.skip(seen)[0] == i as int);
                        }
                        let ghost prevranges = ranges@;
                        ranges.push(
                            BufferRange {
                                from: BufferPosition {
                                    line_index: li as u32,
                                    column_byte_index: i as u32,
                                },
                                to: BufferPosition {
                                    line_index: li as u32,
                                    column_byte_index: (i + nl.len()) as u32,
                                },
                            },
                        );
                        proof {
                            seen = seen + 1;
                            assert(lm.skip(seen) =~= lm.skip(seen - 1).drop_first());
                            assert(ranges@.subrange(base.len() as int, ranges@.len() as int)
                                =~= prevranges.subrange(base.len() as int, prevranges.len() as int)
                                + seq![ranges@[ranges@.len() - 1]]);
                            assert(whole =~= ranges@.subrange(
                                base.len() as int,
                                ranges@.len() as int,
                            ).map_values(
                                |r: BufferRange| (
                                    r.from.line_index as int,
                                    r.from.column_byte_index as int,
                                ),
                            ) + lm.skip(seen).map_values(|m: int| (li as int, m))
                                + spec_search_from(self@, needle@, li + 1));
                        }
                        from = i + nl.len();
                    },
                    None => {
                        proof {
                            assert(lm.skip(seen) =~= Seq::<int>::empty());
                            assert(lm.skip(seen).map_values(|m: int| (li as int, m)) =~= Seq::<
                                (int, int),
                            >::empty());
                        }
                        break ;
                    },
                }
            }
            li = li + 1;
        }
        proof {
            assert(spec_search_from(self@, needle@, n as int) =~= Seq::<(int, int)>::empty());
            assert(whole =~= ranges@.subrange(base.len() as int, ranges@.len() as int).map_values(
                |r: BufferRange| (r.from.line_index as int, r.from.column_byte_index as int),
            ));
            assert forall|k: int| 0 <= k < whole.len() implies {
                let r = #[trigger] ranges@[base.len() + k];
                r.from.line_index == whole[k].0 && r.from.column_byte_index == whole[k].1
                    && r.to.line_index == whole[k].0 && r.to.column_byte_index == whole[k].1
                    + needle@.len()
            } by {
                assert(ranges@.subrange(base.len() as int, ranges@.len() as int)[k] == ranges@[
                    base.len() + k
                ]);
                assert(whole[k] == (ranges@[base.len() + k].from.line_index as int, ranges@[
                    base.len() + k
                ].from.column_byte_index as int));
            }
        }
    }
}


/// Splitting text yields at least one line.
pub proof fn lemma_split_from_nonempty(b: Seq<u8>, start: int)
    requires
        0 <= start <= b.len(),
    ensures
        spec_split_from(b, start).len() >= 1,
{
}

/// An insert rewrites only the line it lands on: earlier lines stay, later
/// lines move down by one less than the inserted fragment count.
pub proof fn lemma_insert_lines_shift(lines: Seq<Seq<u8>>, li: int, col: int, b: Seq<u8>)
    requires
        0 <= li < lines.len(),
    ensures
        ({
            let out = spec_insert_lines(lines, li, col, b);
            let f = spec_split_lines(b).len() as int;
            f >= 1 && out.len() == lines.len() + f - 1 && (forall|i: int|
                0 <= i < li ==> out[i] == lines[i]) && (forall|i: int|
                li < i < lines.len() ==> #[trigger] out[i + f - 1] == lines[i])
        }),
{
    lemma_split_from_nonempty(b, 0);
    let out = spec_insert_lines(lines, li, col, b);
    let f = spec_split_lines(b).len() as int;
    if f == 1 {
        assert forall|i: int| li < i < lines.len() implies #[trigger] out[i + f - 1]
            == lines[i] by {
            assert(out[i] == lines.update(li, out[li])[i]);
        }
    } else {
        assert(out.len() == lines.len() + f - 1);
        assert forall|i: int| 0 <= i < li implies out[i] == lines[i] by {}
        assert forall|i: int| li < i < lines.len() implies #[trigger] out[i + f - 1]
            == lines[i] by {
            assert(out[i + f - 1] == lines.skip(li + 1)[i + f - 1 - (li + f)]);
        }
    }
}

/// A delete keeps every line before the range and moves every line after it
/// up by the removed line count.
pub proof fn lemma_delete_lines_shift(lines: Seq<Seq<u8>>, fl: int, fc: int, tl: int, tc: int)
    requires
        0 <= fl <= tl < lines.len(),
    ensures
        ({
            let out = spec_delete_lines(lines, fl, fc, tl, tc);
            out.len() == lines.len() - (tl - fl) && (forall|i: int|
                0 <= i < fl ==> out[i] == lines[i]) && (forall|i: int|
                tl < i < lines.len() ==> #[trigger] out[i - (tl - fl)] == lines[i])
        }),
{
    let out = spec_delete_lines(lines, fl, fc, tl, tc);
    assert forall|i: int| tl < i < lines.len() implies #[trigger] out[i - (tl - fl)]
        == lines[i] by {
        assert(out[i - (tl - fl)] == lines.skip(tl + 1)[i - (tl - fl) - (fl + 1)]);
    }
}

} // verus!
