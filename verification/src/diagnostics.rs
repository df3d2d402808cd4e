//! Buffer diagnostics published by a language collaborator: one collection
//! of messages per file path, bound to an open buffer's handle while one
//! shows that file. Each publish reuses the path's entry from the front.

use vstd::prelude::*;

use crate::buffer::{BufferPosition, BufferRange};

verus! {

/// One reported problem: its message and where it points, as the reporter's
/// UTF-16 range.
pub struct Diagnostic {
    pub message: String,
    pub utf16_range: BufferRange,
}

/// The diagnostics of one file path: the buffer shown for it (when one is),
/// and the messages, of which the first `len` are current; the tail is kept
/// for reuse.
pub struct BufferDiagnostics {
    pub path: Vec<u8>,
    pub buffer_handle: Option<u32>,
    pub diagnostics: Vec<Diagnostic>,
    pub len: usize,
}

impl BufferDiagnostics {
    pub open spec fn wf(&self) -> bool {
        self.len <= self.diagnostics@.len()
    }

    /// The current messages: the active prefix.
    pub open spec fn spec_current(&self) -> Seq<Diagnostic> {
        self.diagnostics@.take(self.len as int)
    }
}

/// Where `x` goes in `d` to keep the order by range start: after every
/// entry that starts no later than it.
pub open spec fn spec_insert_pos(d: Seq<Diagnostic>, x: BufferPosition, i: int) -> int
    decreases d.len() - i,
{
    if i < 0 || i >= d.len() {
        d.len() as int
    } else if d[i].utf16_range.from.spec_le(x) {
        spec_insert_pos(d, x, i + 1)
    } else {
        i
    }
}

/// One insertion-sort step: `x` placed into `d` after every entry starting
/// no later, so equal starts keep their order.
pub open spec fn spec_sorted_insert(d: Seq<Diagnostic>, x: Diagnostic) -> Seq<Diagnostic> {
    d.insert(spec_insert_pos(d, x.utf16_range.from, 0), x)
}

/// The messages ordered by range start, equal starts keeping their relative
/// order: each message inserted in turn into the sorted ones before it.
pub open spec fn spec_sort_diagnostics(d: Seq<Diagnostic>) -> Seq<Diagnostic>
    decreases d.len(),
{
    if d.len() == 0 {
        Seq::empty()
    } else {
        spec_sorted_insert(spec_sort_diagnostics(d.drop_last()), d.last())
    }
}

impl BufferDiagnostics {
    /// Appends one current message, overwriting a kept stale one where the
    /// entry holds one.
    pub fn add(&mut self, message: String, range: BufferRange)
        requires
            old(self).wf(),
            old(self).len < usize::MAX,
        ensures
            final(self).wf(),
            final(self).path@ == old(self).path@,
            final(self).buffer_handle == old(self).buffer_handle,
            final(self).len == old(self).len + 1,
            final(self).spec_current() == old(self).spec_current().push(
                Diagnostic { message: message, utf16_range: range },
            ),
    {
        let d = Diagnostic { message, utf16_range: range };
        let ghost pushed = d;
        if self.len < self.diagnostics.len() {
            let slot = vstd::std_specs::vec::vec_index_mut(&mut self.diagnostics, self.len);
            *slot = d;
        } else {
            self.diagnostics.push(d);
        }
        self.len = self.len + 1;
        proof {
            assert(self.spec_current() =~= old(self).spec_current().push(pushed));
        }
    }

    /// Orders every held message, current and kept alike, by range start;
    /// equal starts keep their relative order.
    pub fn sort(&mut self)
        requires
            old(self).wf(),
        ensures
            final(self).wf(),
            final(self).path@ == old(self).path@,
            final(self).buffer_handle == old(self).buffer_handle,
            final(self).len == old(self).len,
            final(self).diagnostics@ == spec_sort_diagnostics(old(self).diagnostics@),
    {
        let mut out: Vec<Diagnostic> = Vec::new();
        let ghost orig = self.diagnostics@;
        let n = self.diagnostics.len();
        let mut k: usize = 0;
        while k < n
            invariant
                0 <= k <= n,
                n == orig.len(),
                orig == old(self).diagnostics@,
                old(self).wf(),
                self.path@ == old(self).path@,
                self.buffer_handle == old(self).buffer_handle,
                self.len == old(self).len,
                self.diagnostics@ == orig.skip(k as int),
                out@ == spec_sort_diagnostics(orig.take(k as int)),
                out@.len() == k,
            decreases n - k,
        {
            let x = self.diagnostics.remove(0);
            proof {
                assert(orig.skip(k as int).remove(0) =~= orig.skip(k + 1));
                assert(orig.take(k + 1).drop_last() =~= orig.take(k as int));
                assert(orig.take(k + 1).last() == orig[k as int]);
            }
            let ghost pre_out = out@;
            let pos = insert_pos(&out, &x.utf16_range.from);
            out.insert(pos, x);
            proof {
                assert(out@ == spec_sorted_insert(pre_out, orig[k as int]));
            }
            k = k + 1;
        }
        proof {
            assert(orig.take(n as int) =~= orig);
        }
        self.diagnostics = out;
    }
}

/// The position in `d` after every entry whose range starts no later than
/// `x`.
fn insert_pos(d: &Vec<Diagnostic>, x: &BufferPosition) -> (r: usize)
    ensures
        r == spec_insert_pos(d@, *x, 0),
        r <= d@.len(),
{
    let n = d.len();
    let mut j: usize = 0;
    while j < n
        invariant
            0 <= j <= n,
            n == d@.len(),
            spec_insert_pos(d@, *x, 0) == spec_insert_pos(d@, *x, j as int),
        decreases n - j,
    {
        if !d[j].utf16_range.from.le(x) {
            return j;
        }
        j = j + 1;
    }
    n
}

/// What one pass of deferred removal leaves: walking the entries from the
/// back, each empty one is replaced by the then-last entry, which is
/// dropped from the end.
pub open spec fn spec_swap_remove_empties(s: Seq<BufferDiagnostics>, i: int) -> Seq<
    BufferDiagnostics,
>
    decreases i,
{
    if i <= 0 {
        s
    } else {
        let s1 = if 0 <= i - 1 < s.len() && s[i - 1].len == 0 {
            s.update(i - 1, s.last()).drop_last()
        } else {
            s
        };
        spec_swap_remove_empties(s1, i - 1)
    }
}

/// Every path's diagnostics, at most one entry per path.
pub struct DiagnosticCollection {
    entries: Vec<BufferDiagnostics>,
}

impl DiagnosticCollection {
    pub closed spec fn spec_entries(&self) -> Seq<BufferDiagnostics> {
        self.entries@
    }

    pub open spec fn wf(&self) -> bool {
        forall|k: int| 0 <= k < self.spec_entries().len() ==> (#[trigger] self.spec_entries()[k]).wf()
    }

    pub fn new() -> (r: Self)
        ensures
            r.wf(),
            r.spec_entries().len() == 0,
    {
        DiagnosticCollection { entries: Vec::new() }
    }

    /// The entries, for reading them out in order.
    pub fn entries(&self) -> (r: &Vec<BufferDiagnostics>)
        ensures
            r@ == self.spec_entries(),
    {
        &self.entries
    }

    /// The entry showing the buffer's diagnostics: the first one bound to
    /// its handle; an unbound buffer has none.
    pub fn buffer_diagnostics(&self, buffer_handle: u32) -> (r: Option<usize>)
        ensures
            match r {
                Some(k) => spec_first_bound(self.spec_entries(), buffer_handle, 0) == Some(
                    k as int,
                ) && k < self.spec_entries().len(),
                None => spec_first_bound(self.spec_entries(), buffer_handle, 0) is None,
            },
    {
        let n = self.entries.len();
        let mut i: usize = 0;
        while i < n
            invariant
                0 <= i <= n,
                n == self.spec_entries().len(),
                spec_first_bound(self.spec_entries(), buffer_handle, 0) == spec_first_bound(
                    self.spec_entries(),
                    buffer_handle,
                    i as int,
                ),
            decreases n - i,
        {
            let bound = match self.entries[i].buffer_handle {
                Some(h) => h == buffer_handle,
                None => false,
            };
            if bound {
                return Some(i);
            }
            i = i + 1;
        }
        None
    }

    /// The entry a publish for `path` goes to: the first entry holding that
    /// path, its current messages dropped for the new ones; or a fresh
    /// entry appended for the path, bound to `bound` (the buffer the caller
    /// resolved for it, if any). Returns the entry's index.
    pub fn path_diagnostics_mut(&mut self, path: &[u8], bound: Option<u32>) -> (r: usize)
        requires
            old(self).wf(),
            old(self).spec_entries().len() < usize::MAX,
        ensures
            final(self).wf(),
            r < final(self).spec_entries().len(),
            final(self).spec_entries()[r as int].path@ == path@,
            final(self).spec_entries()[r as int].len == 0,
            forall|j: int|
                0 <= j < r ==> (#[trigger] old(self).spec_entries()[j]).path@ != path@,
            forall|j: int|
                0 <= j < old(self).spec_entries().len() && j != r
                    ==> #[trigger] final(self).spec_entries()[j] == old(self).spec_entries()[j],
            ({
                let pre = old(self).spec_entries();
                let post = final(self).spec_entries();
                if r < pre.len() {
                    post.len() == pre.len() && pre[r as int].path@ == path@ && post[
                        r as int
                    ].buffer_handle == pre[r as int].buffer_handle && post[r as int].diagnostics@
                        == pre[r as int].diagnostics@
                } else {
                    post.len() == pre.len() + 1 && post[r as int].buffer_handle == bound && post[
                        r as int
                    ].diagnostics@.len() == 0
                }
            }),
    {
        let n = self.entries.len();
        let mut i: usize = 0;
        while i < n
            invariant
                0 <= i <= n,
                n == self.spec_entries().len(),
                self == old(self),
                old(self).wf(),
                forall|j: int|
                    0 <= j < i ==> (#[trigger] old(self).spec_entries()[j]).path@ != path@,
            decreases n - i,
        {
            if crate::syntax::bytes_eq(self.entries[i].path.as_slice(), path) {
                let entry = vstd::std_specs::vec::vec_index_mut(&mut self.entries, i);
                entry.len = 0;
                proof {
                    assert forall|k: int|
                        0 <= k < self.spec_entries().len() implies (
                    #[trigger] self.spec_entries()[k]).wf() by {
                        assert(old(self).spec_entries()[k].wf());
                    }
                }
                return i;
            }
            i = i + 1;
        }
        self.entries.push(
            BufferDiagnostics {
                path: vstd::slice::slice_to_vec(path),
                buffer_handle: bound,
                diagnostics: Vec::new(),
                len: 0,
            },
        );
        proof {
            assert forall|k: int|
                0 <= k < self.spec_entries().len() implies (
            #[trigger] self.spec_entries()[k]).wf() by {
                if k < n {
                    assert(old(self).spec_entries()[k].wf());
                }
            }
        }
        n
    }

    /// Appends one current message to the entry, overwriting a kept stale
    /// one where the entry holds one.
    pub fn add(&mut self, index: usize, message: String, range: BufferRange)
        requires
            old(self).wf(),
            index < old(self).spec_entries().len(),
            old(self).spec_entries()[index as int].len < usize::MAX,
        ensures
            final(self).wf(),
            final(self).spec_entries().len() == old(self).spec_entries().len(),
            forall|j: int|
                0 <= j < old(self).spec_entries().len() && j != index
                    ==> #[trigger] final(self).spec_entries()[j] == old(self).spec_entries()[j],
            ({
                let pre = old(self).spec_entries()[index as int];
                let post = final(self).spec_entries()[index as int];
                post.path@ == pre.path@ && post.buffer_handle == pre.buffer_handle && post.len
                    == pre.len + 1 && post.spec_current() == pre.spec_current().push(
                    Diagnostic { message: message, utf16_range: range },
                )
            }),
    {
        let entry = vstd::std_specs::vec::vec_index_mut(&mut self.entries, index);
        entry.add(message, range);
        proof {
            assert forall|k: int|
                0 <= k < self.spec_entries().len() implies (
            #[trigger] self.spec_entries()[k]).wf() by {
                if k != index {
                    assert(old(self).spec_entries()[k].wf());
                }
            }
        }
    }

    /// Orders the entry's held messages by range start, equal starts
    /// keeping their relative order.
    pub fn sort(&mut self, index: usize)
        requires
            old(self).wf(),
            index < old(self).spec_entries().len(),
        ensures
            final(self).wf(),
            final(self).spec_entries().len() == old(self).spec_entries().len(),
            forall|j: int|
                0 <= j < old(self).spec_entries().len() && j != index
                    ==> #[trigger] final(self).spec_entries()[j] == old(self).spec_entries()[j],
            ({
                let pre = old(self).spec_entries()[index as int];
                let post = final(self).spec_entries()[index as int];
                post.path@ == pre.path@ && post.buffer_handle == pre.buffer_handle && post.len
                    == pre.len && post.diagnostics@ == spec_sort_diagnostics(pre.diagnostics@)
            }),
    {
        let entry = vstd::std_specs::vec::vec_index_mut(&mut self.entries, index);
        entry.sort();
        proof {
            assert forall|k: int|
                0 <= k < self.spec_entries().len() implies (
            #[trigger] self.spec_entries()[k]).wf() by {
                if k != index {
                    assert(old(self).spec_entries()[k].wf());
                }
            }
        }
    }

    /// Drops every entry whose publish came back empty, walking from the
    /// back and moving the then-last entry into each freed place.
    pub fn clear_empty(&mut self)
        requires
            old(self).wf(),
        ensures
            final(self).wf(),
            final(self).spec_entries() == spec_swap_remove_empties(
                old(self).spec_entries(),
                old(self).spec_entries().len() as int,
            ),
    {
        let mut i = self.entries.len();
        while i > 0
            invariant
                0 <= i <= self.spec_entries().len(),
                self.wf(),
                spec_swap_remove_empties(
                    old(self).spec_entries(),
                    old(self).spec_entries().len() as int,
                ) == spec_swap_remove_empties(self.spec_entries(), i as int),
            decreases i,
        {
            i = i - 1;
            if self.entries[i].len == 0 {
                let ghost pre = self.spec_entries();
                let _ = self.entries.swap_remove(i);
                proof {
                    assert(self.spec_entries() =~= pre.update(i as int, pre.last()).drop_last());
                    assert forall|k: int|
                        0 <= k < self.spec_entries().len() implies (
                    #[trigger] self.spec_entries()[k]).wf() by {
                        assert(pre[k].wf() && pre.last().wf());
                    }
                }
            }
        }
    }

    /// Binds the first unbound entry holding the loaded buffer's path to
    /// its handle.
    pub fn on_load_buffer(&mut self, buffer_path: &[u8], buffer_handle: u32)
        requires
            old(self).wf(),
        ensures
            final(self).wf(),
            ({
                let pre = old(self).spec_entries();
                let post = final(self).spec_entries();
                match spec_first_unbound_with_path(pre, buffer_path@, 0) {
                    Some(k) => post == pre.update(
                        k,
                        BufferDiagnostics {
                            buffer_handle: Some(buffer_handle),
                            ..pre[k]
                        },
                    ),
                    None => post == pre,
                }
            }),
    {
        let n = self.entries.len();
        let mut i: usize = 0;
        while i < n
            invariant
                0 <= i <= n,
                n == self.spec_entries().len(),
                self == old(self),
                old(self).wf(),
                spec_first_unbound_with_path(old(self).spec_entries(), buffer_path@, 0)
                    == spec_first_unbound_with_path(
                    old(self).spec_entries(),
                    buffer_path@,
                    i as int,
                ),
            decreases n - i,
        {
            let unbound = self.entries[i].buffer_handle.is_none();
            if unbound && crate::syntax::bytes_eq(self.entries[i].path.as_slice(), buffer_path) {
                let entry = vstd::std_specs::vec::vec_index_mut(&mut self.entries, i);
                entry.buffer_handle = Some(buffer_handle);
                proof {
                    assert forall|k: int|
                        0 <= k < self.spec_entries().len() implies (
                    #[trigger] self.spec_entries()[k]).wf() by {
                        assert(old(self).spec_entries()[k].wf());
                    }
                }
                return ;
            }
            i = i + 1;
        }
    }

    /// Unbinds the closed buffer's entry: the first one bound to its
    /// handle.
    pub fn on_close_buffer(&mut self, buffer_handle: u32)
        requires
            old(self).wf(),
        ensures
            final(self).wf(),
            ({
                let pre = old(self).spec_entries();
                let post = final(self).spec_entries();
                match spec_first_bound(pre, buffer_handle, 0) {
                    Some(k) => post == pre.update(
                        k,
                        BufferDiagnostics { buffer_handle: None, ..pre[k] },
                    ),
                    None => post == pre,
                }
            }),
    {
        let n = self.entries.len();
        let mut i: usize = 0;
        while i < n
            invariant
                0 <= i <= n,
                n == self.spec_entries().len(),
                self == old(self),
                old(self).wf(),
                spec_first_bound(old(self).spec_entries(), buffer_handle, 0)
                    == spec_first_bound(old(self).spec_entries(), buffer_handle, i as int),
            decreases n - i,
        {
            let bound = match self.entries[i].buffer_handle {
                Some(h) => h == buffer_handle,
                None => false,
            };
            if bound {
                let entry = vstd::std_specs::vec::vec_index_mut(&mut self.entries, i);
                entry.buffer_handle = None;
                proof {
                    assert forall|k: int|
                        0 <= k < self.spec_entries().len() implies (
                    #[trigger] self.spec_entries()[k]).wf() by {
                        assert(old(self).spec_entries()[k].wf());
                    }
                }
                return ;
            }
            i = i + 1;
        }
    }

    /// Rechecks the binding of the saved buffer: its entry is unbound, and
    /// bound again only if the entry's path is the buffer's path still.
    pub fn on_save_buffer(&mut self, buffer_path: &[u8], buffer_handle: u32)
        requires
            old(self).wf(),
        ensures
            final(self).wf(),
            ({
                let pre = old(self).spec_entries();
                let post = final(self).spec_entries();
                match spec_first_bound(pre, buffer_handle, 0) {
                    Some(k) => post == pre.update(
                        k,
                        BufferDiagnostics {
                            buffer_handle: if pre[k].path@ == buffer_path@ {
                                Some(buffer_handle)
                            } else {
                                None
                            },
                            ..pre[k]
                        },
                    ),
                    None => post == pre,
                }
            }),
    {
        let n = self.entries.len();
        let mut i: usize = 0;
        while i < n
            invariant
                0 <= i <= n,
                n == self.spec_entries().len(),
                self == old(self),
                old(self).wf(),
                spec_first_bound(old(self).spec_entries(), buffer_handle, 0)
                    == spec_first_bound(old(self).spec_entries(), buffer_handle, i as int),
            decreases n - i,
        {
            let bound = match self.entries[i].buffer_handle {
                Some(h) => h == buffer_handle,
                None => false,
            };
            if bound {
                let same = crate::syntax::bytes_eq(self.entries[i].path.as_slice(), buffer_path);
                let entry = vstd::std_specs::vec::vec_index_mut(&mut self.entries, i);
                entry.buffer_handle = if same {
                    Some(buffer_handle)
                } else {
                    None
                };
                proof {
                    assert forall|k: int|
                        0 <= k < self.spec_entries().len() implies (
                    #[trigger] self.spec_entries()[k]).wf() by {
                        assert(old(self).spec_entries()[k].wf());
                    }
                }
                return ;
            }
            i = i + 1;
        }
    }
}

/// The first entry at or after `i` that is unbound and holds the path.
pub open spec fn spec_first_unbound_with_path(
    s: Seq<BufferDiagnostics>,
    path: Seq<u8>,
    i: int,
) -> Option<int>
    decreases s.len() - i,
{
    if i < 0 || i >= s.len() {
        None
    } else if s[i].buffer_handle is None && s[i].path@ == path {
        Some(i)
    } else {
        spec_first_unbound_with_path(s, path, i + 1)
    }
}

/// The first entry at or after `i` bound to the handle.
pub open spec fn spec_first_bound(s: Seq<BufferDiagnostics>, handle: u32, i: int) -> Option<int>
    decreases s.len() - i,
{
    if i < 0 || i >= s.len() {
        None
    } else if s[i].buffer_handle == Some(handle) {
        Some(i)
    } else {
        spec_first_bound(s, handle, i + 1)
    }
}

} // verus!
