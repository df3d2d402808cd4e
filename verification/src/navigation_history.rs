//! Per-client navigation history: snapshots of where the client stood in
//! which buffer, walked backward and forward.

use vstd::prelude::*;

use crate::buffer::Cursor;

verus! {

/// Which way to walk the history.
#[derive(Debug, Clone, Copy, PartialEq, Eq, Structural)]
pub enum NavigationDirection {
    Forward,
    Backward,
}

/// A buffer's handle within the editor.
#[derive(Debug, Clone, Copy, PartialEq, Eq, Structural)]
pub struct BufferHandle {
    pub index: u32,
}

/// A buffer view's handle within the view collection.
#[derive(Debug, Clone, Copy, PartialEq, Eq, Structural)]
pub struct BufferViewHandle {
    pub index: u32,
}

/// One view of a buffer: the buffer it shows and its cursors; the first
/// cursor is the main one.
pub struct BufferView {
    pub buffer_handle: BufferHandle,
    pub cursors: Vec<Cursor>,
}

/// The open buffer views.
pub struct BufferViewCollection {
    views: Vec<BufferView>,
}

impl BufferViewCollection {
    pub closed spec fn spec_views(&self) -> Seq<BufferView> {
        self.views@
    }

    pub fn new() -> (r: Self)
        ensures
            r.spec_views().len() == 0,
    {
        BufferViewCollection { views: Vec::new() }
    }

    pub fn add_view(&mut self, view: BufferView)
        ensures
            final(self).spec_views() == old(self).spec_views().push(view),
    {
        self.views.push(view);
    }

    pub fn get(&self, handle: BufferViewHandle) -> (r: Option<&BufferView>)
        ensures
            match r {
                Some(v) => handle.index < self.spec_views().len() && *v == self.spec_views()[
                    handle.index as int
                ],
                None => handle.index >= self.spec_views().len(),
            },
    {
        if (handle.index as usize) < self.views.len() {
            Some(&self.views[handle.index as usize])
        } else {
            None
        }
    }

    /// The handle of the first view showing the buffer, or a fresh view of
    /// it appended at the end.
    pub fn buffer_view_handle_from_buffer_handle(&mut self, buffer_handle: BufferHandle) -> (r:
        BufferViewHandle)
        requires
            old(self).spec_views().len() < u32::MAX,
        ensures
            r.index < final(self).spec_views().len(),
            final(self).spec_views()[r.index as int].buffer_handle == buffer_handle,
            final(self).spec_views().len() >= old(self).spec_views().len(),
            forall|i: int|
                0 <= i < old(self).spec_views().len() ==> #[trigger] final(self).spec_views()[i]
                    == old(self).spec_views()[i],
    {
        let n = self.views.len();
        let mut i: usize = 0;
        while i < n
            invariant
                0 <= i <= n,
                n == self.spec_views().len(),
                n < u32::MAX,
                self.spec_views() == old(self).spec_views(),
            decreases n - i,
        {
            if self.views[i].buffer_handle == buffer_handle {
                return BufferViewHandle { index: i as u32 };
            }
            i = i + 1;
        }
        self.views.push(BufferView { buffer_handle, cursors: vec![Cursor::default()] });
        BufferViewHandle { index: n as u32 }
    }

    /// Replaces the cursors of the view with the one given.
    pub fn set_view_cursor(&mut self, handle: BufferViewHandle, cursor: Cursor)
        requires
            handle.index < old(self).spec_views().len(),
        ensures
            final(self).spec_views().len() == old(self).spec_views().len(),
            final(self).spec_views()[handle.index as int].cursors@ == seq![cursor],
            final(self).spec_views()[handle.index as int].buffer_handle == old(
                self,
            ).spec_views()[handle.index as int].buffer_handle,
            forall|i: int|
                0 <= i < old(self).spec_views().len() && i != handle.index
                    ==> #[trigger] final(self).spec_views()[i] == old(self).spec_views()[i],
    {
        let slot = vstd::std_specs::vec::vec_index_mut(&mut self.views, handle.index as usize);
        let bh = slot.buffer_handle;
        *slot = BufferView { buffer_handle: bh, cursors: vec![cursor] };
        proof {
            assert(final(self).spec_views()[handle.index as int].cursors@ =~= seq![cursor]);
        }
    }
}

/// One remembered place: the buffer and the main cursor at the time.
#[derive(Debug, Clone, Copy, PartialEq, Eq, Structural)]
pub struct NavigationHistorySnapshot {
    pub buffer_handle: BufferHandle,
    pub cursor: Cursor,
}

/// Where the history stands: walking at a snapshot index, or at the open
/// end where new snapshots are taken.
#[derive(Debug, Clone, Copy, PartialEq, Eq, Structural)]
pub enum NavigationState {
    IterIndex(usize),
    Adding,
}

/// The snapshots a client has moved through, oldest first.
pub struct NavigationHistory {
    snapshots: Vec<NavigationHistorySnapshot>,
    state: NavigationState,
}

/// The view state of one connected client that the history navigates.
pub struct ClientViewState {
    pub current_buffer_view_handle: Option<BufferViewHandle>,
    pub navigation_history: NavigationHistory,
}

/// The place the client currently stands, if it has a valid view with a
/// cursor: what a snapshot taken of it would hold.
pub open spec fn spec_current_snapshot(
    client: ClientViewState,
    views: BufferViewCollection,
) -> Option<NavigationHistorySnapshot> {
    match client.current_buffer_view_handle {
        Some(h) => if h.index < views.spec_views().len() {
            let v = views.spec_views()[h.index as int];
            if v.cursors@.len() > 0 {
                Some(
                    NavigationHistorySnapshot {
                        buffer_handle: v.buffer_handle,
                        cursor: v.cursors@[0],
                    },
                )
            } else {
                None
            }
        } else {
            None
        },
        None => None,
    }
}

/// The snapshot index the walk stands at; the open end counts as one past
/// the last snapshot.
pub open spec fn spec_walk_index(h: NavigationHistory) -> int {
    match h.spec_state() {
        NavigationState::IterIndex(i) => i as int,
        NavigationState::Adding => h.spec_snapshots().len() as int,
    }
}

/// A restored snapshot: the history holds `snaps2` with the walk standing
/// at `i`, the client's view handle names a view of that snapshot's buffer
/// holding exactly the snapshot's cursor, and every other pre-existing view
/// is untouched.
pub open spec fn spec_nav_restored(
    client: ClientViewState,
    pre_views: BufferViewCollection,
    views: BufferViewCollection,
    snaps2: Seq<NavigationHistorySnapshot>,
    i: int,
) -> bool {
    &&& client.navigation_history.spec_snapshots() == snaps2
    &&& 0 <= i < snaps2.len()
    &&& match client.navigation_history.spec_state() {
        NavigationState::IterIndex(j) => j == i,
        NavigationState::Adding => false,
    }
    &&& match client.current_buffer_view_handle {
        Some(h) => h.index < views.spec_views().len() && views.spec_views()[
            h.index as int
        ].buffer_handle == snaps2[i].buffer_handle && views.spec_views()[h.index as int].cursors@
            == seq![snaps2[i].cursor] && (forall|j: int|
            0 <= j < pre_views.spec_views().len() && j != h.index
                ==> #[trigger] views.spec_views()[j] == pre_views.spec_views()[j])
            && views.spec_views().len() >= pre_views.spec_views().len(),
        None => false,
    }
}

impl NavigationHistory {
    pub closed spec fn spec_snapshots(&self) -> Seq<NavigationHistorySnapshot> {
        self.snapshots@
    }

    pub closed spec fn spec_state(&self) -> NavigationState {
        self.state
    }

    pub open spec fn wf(&self) -> bool {
        match self.spec_state() {
            NavigationState::IterIndex(i) => i <= self.spec_snapshots().len(),
            NavigationState::Adding => true,
        }
    }

    pub fn new() -> (r: Self)
        ensures
            r.wf(),
            r.spec_snapshots().len() == 0,
            r.spec_state() == NavigationState::IterIndex(0usize),
    {
        NavigationHistory { snapshots: Vec::new(), state: NavigationState::IterIndex(0) }
    }

    /// What the history looks like after taking a snapshot: any walked-past
    /// tail is dropped, and the snapshot is added unless it repeats the
    /// last one.
    pub open spec fn spec_after_add(
        &self,
        snapshot: NavigationHistorySnapshot,
    ) -> Seq<NavigationHistorySnapshot> {
        let kept = match self.spec_state() {
            NavigationState::IterIndex(i) => self.spec_snapshots().take(i as int),
            NavigationState::Adding => self.spec_snapshots(),
        };
        if kept.len() > 0 && kept.last() == snapshot {
            kept
        } else {
            kept.push(snapshot)
        }
    }

    /// Takes a snapshot: drops any walked-past tail, skips an exact repeat
    /// of the last snapshot, and leaves the history at its open end.
    pub fn add_snapshot(&mut self, buffer_handle: BufferHandle, cursor: Cursor)
        requires
            old(self).wf(),
        ensures
            final(self).wf(),
            final(self).spec_snapshots() == old(self).spec_after_add(
                NavigationHistorySnapshot { buffer_handle, cursor },
            ),
            final(self).spec_state() == NavigationState::Adding,
    {
        let snapshot = NavigationHistorySnapshot { buffer_handle, cursor };
        match self.state {
            NavigationState::IterIndex(index) => {
                self.snapshots.truncate(index);
            },
            NavigationState::Adding => {},
        }
        self.state = NavigationState::Adding;
        let n = self.snapshots.len();
        if n > 0 {
            let last = self.snapshots[n - 1];
            if last == snapshot {
                return ;
            }
        }
        self.snapshots.push(snapshot);
    }

    /// Takes a snapshot of where the client currently stands, if it has a
    /// buffer view open.
    pub fn save_client_snapshot(client: &mut ClientViewState, buffer_views: &BufferViewCollection)
        requires
            old(client).navigation_history.wf(),
        ensures
            final(client).navigation_history.wf(),
            final(client).current_buffer_view_handle == old(client).current_buffer_view_handle,
            ({
                let view = match old(client).current_buffer_view_handle {
                    Some(h) => if h.index < buffer_views.spec_views().len() {
                        Some(buffer_views.spec_views()[h.index as int])
                    } else {
                        None
                    },
                    None => None,
                };
                match view {
                    Some(v) => if v.cursors@.len() > 0 {
                        final(client).navigation_history.spec_snapshots() == old(client).navigation_history.spec_after_add(
                            NavigationHistorySnapshot {
                                buffer_handle: v.buffer_handle,
                                cursor: v.cursors@[0],
                            },
                        )
                    } else {
                        final(client).navigation_history.spec_snapshots() == old(client).navigation_history.spec_snapshots()
                    },
                    None => final(client).navigation_history.spec_snapshots() == old(client).navigation_history.spec_snapshots(),
                }
            }),
    {
        let view_handle = match client.current_buffer_view_handle {
            Some(handle) => handle,
            None => {
                return ;
            },
        };
        let view = match buffer_views.get(view_handle) {
            Some(view) => view,
            None => {
                return ;
            },
        };
        if view.cursors.len() == 0 {
            return ;
        }
        let buffer_handle = view.buffer_handle;
        let cursor = view.cursors[0];
        client.navigation_history.add_snapshot(buffer_handle, cursor);
    }

    /// Steps the history: backward remembers where the client stands before
    /// leaving, forward only moves along already-walked snapshots. The
    /// client's view is pointed at the snapshot's buffer and its cursor is
    /// restored; at either end nothing changes.
    pub fn move_in_history(
        client: &mut ClientViewState,
        buffer_views: &mut BufferViewCollection,
        direction: NavigationDirection,
    )
        requires
            old(client).navigation_history.wf(),
            old(buffer_views).spec_views().len() < u32::MAX,
        ensures
            final(client).navigation_history.wf(),
            ({
                let snaps = old(client).navigation_history.spec_snapshots();
                let idx0 = spec_walk_index(old(client).navigation_history);
                match direction {
                    NavigationDirection::Forward => if idx0 + 1 < snaps.len() {
                        spec_nav_restored(
                            *final(client),
                            *old(buffer_views),
                            *final(buffer_views),
                            snaps,
                            idx0 + 1,
                        )
                    } else {
                        *final(client) == *old(client) && *final(buffer_views) == *old(
                            buffer_views,
                        )
                    },
                    NavigationDirection::Backward => if idx0 == 0 {
                        *final(client) == *old(client) && *final(buffer_views) == *old(
                            buffer_views,
                        )
                    } else {
                        let snaps2 = if idx0 == snaps.len() {
                            match spec_current_snapshot(*old(client), *old(buffer_views)) {
                                Some(s) => old(client).navigation_history.spec_after_add(s),
                                None => snaps,
                            }
                        } else {
                            snaps
                        };
                        spec_nav_restored(
                            *final(client),
                            *old(buffer_views),
                            *final(buffer_views),
                            snaps2,
                            idx0 - 1,
                        )
                    },
                }
            }),
    {
        let history = &mut client.navigation_history;
        let mut history_index = match history.state {
            NavigationState::IterIndex(index) => index,
            NavigationState::Adding => history.snapshots.len(),
        };

        let snapshot = match direction {
            NavigationDirection::Forward => {
                if history_index >= history.snapshots.len() || history_index + 1
                    >= history.snapshots.len() {
                    return ;
                }
                history_index = history_index + 1;
                history.snapshots[history_index]
            },
            NavigationDirection::Backward => {
                if history_index == 0 {
                    return ;
                }
                if history_index == history.snapshots.len() {
                    match client.current_buffer_view_handle {
                        Some(handle) => match buffer_views.get(handle) {
                            Some(view) => {
                                if view.cursors.len() > 0 {
                                    let bh = view.buffer_handle;
                                    let c = view.cursors[0];
                                    client.navigation_history.add_snapshot(bh, c);
                                }
                            },
                            None => {},
                        },
                        None => {},
                    }
                }
                let history = &client.navigation_history;
                if history_index > history.snapshots.len() {
                    return ;
                }
                history_index = history_index - 1;
                if history_index >= history.snapshots.len() {
                    return ;
                }
                history.snapshots[history_index]
            },
        };

        client.navigation_history.state = NavigationState::IterIndex(history_index);
        proof {
            assert(client.navigation_history.wf());
        }

        let view_handle = buffer_views.buffer_view_handle_from_buffer_handle(
            snapshot.buffer_handle,
        );
        client.current_buffer_view_handle = Some(view_handle);
        buffer_views.set_view_cursor(view_handle, snapshot.cursor);
    }

    /// Forgets every snapshot of a closed buffer, keeping the rest in
    /// order; the walk index steps back once per removed snapshot at or
    /// before it, staying within the remaining history.
    pub fn remove_snapshots_with_buffer_handle(&mut self, buffer_handle: BufferHandle)
        requires
            old(self).wf(),
        ensures
            final(self).wf(),
            final(self).spec_snapshots() == spec_without_buffer(
                old(self).spec_snapshots(),
                buffer_handle,
            ),
            ({
                let snaps = old(self).spec_snapshots();
                let kept_len = spec_without_buffer(snaps, buffer_handle).len() as int;
                match old(self).spec_state() {
                    NavigationState::IterIndex(i) => ({
                        let m = spec_removed_upto(snaps, buffer_handle, i + 1);
                        match final(self).spec_state() {
                            NavigationState::IterIndex(j) => j == (if i - m < 0 {
                                0int
                            } else if i - m > kept_len {
                                kept_len
                            } else {
                                i - m
                            }),
                            NavigationState::Adding => false,
                        }
                    }),
                    NavigationState::Adding => final(self).spec_state()
                        == NavigationState::Adding,
                }
            }),
    {
        let mut kept: Vec<NavigationHistorySnapshot> = Vec::new();
        let n = self.snapshots.len();
        let index = match self.state {
            NavigationState::IterIndex(idx) => idx,
            NavigationState::Adding => n,
        };
        let mut removed_le: usize = 0;
        let mut i: usize = 0;
        proof {
            assert(self.spec_snapshots().take(0) =~= Seq::<NavigationHistorySnapshot>::empty());
        }
        while i < n
            invariant
                0 <= i <= n,
                n == self.spec_snapshots().len(),
                self == old(self),
                index == (match self.spec_state() {
                    NavigationState::IterIndex(idx) => idx as int,
                    NavigationState::Adding => n as int,
                }),
                kept@ == spec_without_buffer(
                    self.spec_snapshots().take(i as int),
                    buffer_handle,
                ),
                removed_le == spec_removed_upto(
                    self.spec_snapshots(),
                    buffer_handle,
                    if i <= index {
                        i as int
                    } else {
                        index + 1
                    },
                ),
                removed_le <= i,
            decreases n - i,
        {
            let s = self.snapshots[i];
            proof {
                assert(self.spec_snapshots().take(i + 1).drop_last() =~= self.spec_snapshots().take(
                    i as int,
                ));
                assert(self.spec_snapshots().take(i + 1).last() == self.spec_snapshots()[i as int]);
            }
            if s.buffer_handle == buffer_handle {
                if i <= index {
                    removed_le = removed_le + 1;
                }
            } else {
                kept.push(s);
            }
            i = i + 1;
        }
        proof {
            assert(self.spec_snapshots().take(n as int) =~= self.spec_snapshots());
            if index < n {
                assert(removed_le == spec_removed_upto(
                    self.spec_snapshots(),
                    buffer_handle,
                    index + 1,
                ));
            } else {
                assert(removed_le == spec_removed_upto(self.spec_snapshots(), buffer_handle, n as int));
                assert(spec_removed_upto(self.spec_snapshots(), buffer_handle, index + 1)
                    == spec_removed_upto(self.spec_snapshots(), buffer_handle, index as int));
                assert(removed_le == spec_removed_upto(
                    self.spec_snapshots(),
                    buffer_handle,
                    index + 1,
                ));
            }
        }
        let new_len = kept.len();
        self.snapshots = kept;
        match self.state {
            NavigationState::IterIndex(idx) => {
                let mut new_idx: usize = if idx > removed_le {
                    idx - removed_le
                } else {
                    0
                };
                if new_idx > new_len {
                    new_idx = new_len;
                }
                self.state = NavigationState::IterIndex(new_idx);
            },
            NavigationState::Adding => {},
        }
    }
}

/// The snapshots with every entry of the given buffer removed, the order of
/// the rest kept.
pub open spec fn spec_without_buffer(
    snaps: Seq<NavigationHistorySnapshot>,
    buffer_handle: BufferHandle,
) -> Seq<NavigationHistorySnapshot>
    decreases snaps.len(),
{
    if snaps.len() == 0 {
        Seq::empty()
    } else {
        let rest = spec_without_buffer(snaps.drop_last(), buffer_handle);
        if snaps.last().buffer_handle == buffer_handle {
            rest
        } else {
            rest.push(snaps.last())
        }
    }
}

/// How many snapshots at positions below `upto` name the buffer.
pub open spec fn spec_removed_upto(
    snaps: Seq<NavigationHistorySnapshot>,
    buffer_handle: BufferHandle,
    upto: int,
) -> int
    decreases upto,
{
    if upto <= 0 {
        0
    } else {
        spec_removed_upto(snaps, buffer_handle, upto - 1) + (if upto - 1 < snaps.len()
            && snaps[upto - 1].buffer_handle == buffer_handle {
            1int
        } else {
            0int
        })
    }
}

impl Default for NavigationHistory {
    fn default() -> (r: Self)
        ensures
            r.wf(),
            r.spec_snapshots().len() == 0,
            r.spec_state() == NavigationState::IterIndex(0usize),
    {
        NavigationHistory::new()
    }
}

} // verus!
