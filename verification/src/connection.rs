//! The server side of a client connection: the framed read buffer that
//! accumulates partial reads, and the handle a connected client is known by.

use vstd::prelude::*;
use vstd::slice::slice_subrange;

verus! {

/// The destination of a server-to-client operation: every client, the
/// locally attached client, or one remote client by handle.
#[derive(Debug, Clone, Copy, PartialEq, Eq, Structural)]
pub enum TargetClient {
    All,
    Local,
    Remote(ConnectionWithClientHandle),
}

/// The dense index a connected client's slot is known by, stable for the
/// connection's lifetime.
#[derive(Debug, Clone, Copy, PartialEq, Eq, Structural)]
pub struct ConnectionWithClientHandle {
    index: usize,
}

impl ConnectionWithClientHandle {
    pub closed spec fn spec_index(&self) -> int {
        self.index as int
    }

    pub fn from_index(index: usize) -> (r: Self)
        ensures
            r.spec_index() == index,
    {
        ConnectionWithClientHandle { index }
    }

    pub fn into_index(self) -> (r: usize)
        ensures
            r == self.spec_index(),
    {
        self.index
    }
}

/// What freeing the queued slots does, walked in queue order: a queued slot
/// still occupied at its turn is freed and reported; one already freed, or
/// out of range, is passed over.
pub open spec fn spec_drain(slots: Seq<bool>, queued: Seq<usize>) -> (Seq<bool>, Seq<usize>)
    decreases queued.len(),
{
    if queued.len() == 0 {
        (slots, Seq::empty())
    } else {
        let h = queued[0];
        if h < slots.len() && slots[h as int] {
            let rest = spec_drain(slots.update(h as int, false), queued.drop_first());
            (rest.0, seq![h] + rest.1)
        } else {
            spec_drain(slots, queued.drop_first())
        }
    }
}

/// The server's client slots: which dense indexes own a connected stream,
/// and which are queued for deferred teardown. A slot is either empty or
/// owns exactly one stream, and its index is not reused while occupied; the
/// streams themselves live with the caller, one per occupied slot.
pub struct ConnectionSlots {
    slots: Vec<bool>,
    closed: Vec<usize>,
}

impl ConnectionSlots {
    pub closed spec fn spec_slots(&self) -> Seq<bool> {
        self.slots@
    }

    pub closed spec fn spec_closed(&self) -> Seq<usize> {
        self.closed@
    }

    pub open spec fn spec_len(&self) -> int {
        self.spec_slots().len() as int
    }

    /// Whether the slot at `i` owns a stream.
    pub open spec fn occupied(&self, i: int) -> bool {
        0 <= i < self.spec_slots().len() && self.spec_slots()[i]
    }

    pub open spec fn wf(&self) -> bool {
        forall|k: int|
            0 <= k < self.spec_closed().len() ==> (#[trigger] self.spec_closed()[k])
                < self.spec_slots().len()
    }

    pub fn new() -> (r: Self)
        ensures
            r.wf(),
            r.spec_len() == 0,
            r.spec_closed().len() == 0,
    {
        ConnectionSlots { slots: Vec::new(), closed: Vec::new() }
    }

    pub fn len(&self) -> (r: usize)
        ensures
            r == self.spec_len(),
    {
        self.slots.len()
    }

    /// Whether the slot owns a stream.
    pub fn occupied_at(&self, h: usize) -> (r: bool)
        ensures
            r == self.occupied(h as int),
    {
        h < self.slots.len() && self.slots[h]
    }

    /// Places a new connection: the first empty slot, or a fresh slot
    /// appended at the end. Every slot before the chosen one stays occupied,
    /// and no other slot changes.
    pub fn place(&mut self) -> (h: usize)
        requires
            old(self).wf(),
            old(self).spec_len() < usize::MAX,
        ensures
            final(self).wf(),
            h <= old(self).spec_len(),
            final(self).occupied(h as int),
            !old(self).occupied(h as int),
            forall|j: int| 0 <= j < h ==> old(self).occupied(j),
            forall|j: int|
                0 <= j < old(self).spec_len() && j != h ==> final(self).occupied(j) == old(
                    self,
                ).occupied(j),
            final(self).spec_len() == (if h < old(self).spec_len() {
                old(self).spec_len()
            } else {
                old(self).spec_len() + 1
            }),
            final(self).spec_closed() == old(self).spec_closed(),
    {
        let n = self.slots.len();
        let mut i: usize = 0;
        while i < n
            invariant
                0 <= i <= n,
                n == self.spec_len(),
                self == old(self),
                old(self).wf(),
                forall|j: int| 0 <= j < i ==> old(self).occupied(j),
            decreases n - i,
        {
            if !self.slots[i] {
                let slot = vstd::std_specs::vec::vec_index_mut(&mut self.slots, i);
                *slot = true;
                proof {
                    assert forall|k: int| 0 <= k < self.spec_closed().len() implies (
                    #[trigger] self.spec_closed()[k]) < self.spec_slots().len() by {
                        assert(old(self).spec_closed()[k] < old(self).spec_slots().len());
                    }
                }
                return i;
            }
            i = i + 1;
        }
        self.slots.push(true);
        proof {
            assert forall|k: int| 0 <= k < self.spec_closed().len() implies (
            #[trigger] self.spec_closed()[k]) < self.spec_slots().len() by {
                assert(old(self).spec_closed()[k] < old(self).spec_slots().len());
            }
        }
        n
    }

    /// Queues an occupied slot for deferred teardown; the slot stays
    /// occupied until the queue is drained, so its index is not handed out
    /// again meanwhile. Closing an empty slot does nothing.
    pub fn close(&mut self, h: usize)
        requires
            old(self).wf(),
        ensures
            final(self).wf(),
            final(self).spec_slots() == old(self).spec_slots(),
            final(self).spec_closed() == (if old(self).occupied(h as int) {
                old(self).spec_closed().push(h)
            } else {
                old(self).spec_closed()
            }),
    {
        if self.occupied_at(h) {
            self.closed.push(h);
            proof {
                assert forall|k: int| 0 <= k < self.spec_closed().len() implies (
                #[trigger] self.spec_closed()[k]) < self.spec_slots().len() by {
                    if k < old(self).spec_closed().len() {
                        assert(old(self).spec_closed()[k] < old(self).spec_slots().len());
                    } else {
                        assert(self.spec_closed()[k] == h);
                    }
                }
            }
        }
    }

    /// Frees the queued slots and empties the queue: exactly the queued
    /// indexes still occupied at their turn come back, in queue order, each
    /// once; no other slot changes.
    pub fn drain_closed(&mut self) -> (freed: Vec<usize>)
        requires
            old(self).wf(),
        ensures
            final(self).wf(),
            final(self).spec_closed().len() == 0,
            final(self).spec_len() == old(self).spec_len(),
            final(self).spec_slots() == spec_drain(
                old(self).spec_slots(),
                old(self).spec_closed(),
            ).0,
            freed@ == spec_drain(old(self).spec_slots(), old(self).spec_closed()).1,
    {
        let mut freed: Vec<usize> = Vec::new();
        let n = self.closed.len();
        let mut k: usize = 0;
        proof {
            assert(old(self).spec_closed().skip(0) =~= old(self).spec_closed());
        }
        while k < n
            invariant
                0 <= k <= n,
                n == old(self).spec_closed().len(),
                self.spec_closed() == old(self).spec_closed(),
                self.spec_slots().len() == old(self).spec_slots().len(),
                old(self).wf(),
                ({
                    let whole = spec_drain(old(self).spec_slots(), old(self).spec_closed());
                    let rest = spec_drain(
                        self.spec_slots(),
                        old(self).spec_closed().skip(k as int),
                    );
                    whole.0 == rest.0 && whole.1 == freed@ + rest.1
                }),
            decreases n - k,
        {
            let h = self.closed[k];
            proof {
                assert(old(self).spec_closed().skip(k as int)[0] == old(self).spec_closed()[
                    k as int
                ]);
                assert(old(self).spec_closed().skip(k as int).drop_first() =~= old(
                    self,
                ).spec_closed().skip(k + 1));
            }
            let ghost pre_slots = self.spec_slots();
            let ghost pre_freed = freed@;
            if h < self.slots.len() && self.slots[h] {
                let slot = vstd::std_specs::vec::vec_index_mut(&mut self.slots, h);
                *slot = false;
                freed.push(h);
                proof {
                    assert(self.spec_slots() =~= pre_slots.update(h as int, false));
                    let rest = spec_drain(self.spec_slots(), old(self).spec_closed().skip(k + 1));
                    assert(pre_freed + (seq![h] + rest.1) =~= freed@ + rest.1);
                }
            }
            k = k + 1;
        }
        proof {
            assert(old(self).spec_closed().skip(n as int) =~= Seq::<usize>::empty());
            let rest = spec_drain(self.spec_slots(), old(self).spec_closed().skip(n as int));
            assert(freed@ + rest.1 =~= freed@);
        }
        self.closed.clear();
        freed
    }

    /// Every slot index, as connection handles in order, occupied or not.
    pub fn all_handles(&self) -> (r: Vec<ConnectionWithClientHandle>)
        ensures
            r@.len() == self.spec_len(),
            forall|j: int| 0 <= j < r@.len() ==> (#[trigger] r@[j]).spec_index() == j,
    {
        let n = self.slots.len();
        let mut out: Vec<ConnectionWithClientHandle> = Vec::new();
        let mut i: usize = 0;
        while i < n
            invariant
                0 <= i <= n,
                n == self.spec_len(),
                out@.len() == i,
                forall|j: int| 0 <= j < i ==> (#[trigger] out@[j]).spec_index() == j,
            decreases n - i,
        {
            out.push(ConnectionWithClientHandle::from_index(i));
            i = i + 1;
        }
        out
    }
}

/// A growing byte buffer fed by partial reads from a stream. Bytes enter at
/// the back; a cursor consumes complete records from the front; the consumed
/// prefix is dropped when a batch ends, so a partial tail survives until the
/// bytes that complete it arrive.
pub struct ReadBuf {
    buf: Vec<u8>,
    pos: usize,
}

impl ReadBuf {
    /// All bytes held, consumed or not.
    pub closed spec fn spec_content(&self) -> Seq<u8> {
        self.buf@
    }

    /// How many bytes at the front have been consumed.
    pub closed spec fn spec_pos(&self) -> int {
        self.pos as int
    }

    pub open spec fn wf(&self) -> bool {
        0 <= self.spec_pos() <= self.spec_content().len()
    }

    /// The bytes not yet consumed.
    pub open spec fn spec_remaining(&self) -> Seq<u8> {
        self.spec_content().subrange(self.spec_pos(), self.spec_content().len() as int)
    }

    pub fn new() -> (r: Self)
        ensures
            r.wf(),
            r.spec_content() == Seq::<u8>::empty(),
            r.spec_pos() == 0,
    {
        ReadBuf { buf: Vec::new(), pos: 0 }
    }

    /// Appends the bytes one read returned.
    pub fn push_bytes(&mut self, chunk: &[u8])
        requires
            old(self).wf(),
        ensures
            final(self).wf(),
            final(self).spec_content() == old(self).spec_content() + chunk@,
            final(self).spec_pos() == old(self).spec_pos(),
    {
        self.buf.extend_from_slice(chunk);
    }

    /// The bytes not yet consumed.
    pub fn as_bytes(&self) -> (r: &[u8])
        requires
            self.wf(),
        ensures
            r@ == self.spec_remaining(),
    {
        slice_subrange(self.buf.as_slice(), self.pos, self.buf.len())
    }

    /// Marks the next `n` unconsumed bytes as consumed.
    pub fn advance(&mut self, n: usize)
        requires
            old(self).wf(),
            old(self).spec_pos() + n <= old(self).spec_content().len(),
        ensures
            final(self).wf(),
            final(self).spec_content() == old(self).spec_content(),
            final(self).spec_pos() == old(self).spec_pos() + n,
    {
        let len = self.buf.len();
        proof {
            assert(self.pos + n <= len);
        }
        self.pos = self.pos + n;
    }

    /// Drops the consumed prefix once a batch of records has been handled;
    /// an unconsumed partial tail stays.
    pub fn compact(&mut self)
        requires
            old(self).wf(),
        ensures
            final(self).wf(),
            final(self).spec_content() == old(self).spec_remaining(),
            final(self).spec_pos() == 0,
    {
        let tail = slice_subrange(self.buf.as_slice(), self.pos, self.buf.len());
        let tail = vstd::slice::slice_to_vec(tail);
        self.buf = tail;
        self.pos = 0;
    }
}

} // verus!
