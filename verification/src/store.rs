use crate::action::{
    action_views, apply, apply_all, lemma_apply_all_concat, lemma_apply_all_one,
    lemma_apply_all_push, Action, ActionView,
};
use crate::compaction::{
    compacted_disk, compaction_actions, copies, copying_disk, creations, delete_all, deletions,
    lemma_compaction, lemma_copies_applied, lemma_entries_point, move_entries, moved_values,
};
use crate::error::{Fault, KvError};
use crate::keydir::{
    entries_map, keys_with, lemma_sorted_unique, live_size, values_with, KeyDir, KeyDirValue,
};
use crate::order::sorted;
use crate::record::{
    decode_at, encode, json_error, lemma_record_reads_back, parse_at, record_of, Command,
    CommandView,
};
use crate::replay::{
    all_point, ascending, contents, disk_of, distinct_ids, lemma_points_to_grown, lemma_push_id,
    lemma_replay_append,
    lemma_replay_below_agree, lemma_replay_below_skip, place, points_to, replay, replay_below,
    replay_log, sat_add, state_of, step, value_at, Disk, Replay, Replayed, Segment,
};
use vstd::prelude::*;

verus! {

/// Dead bytes above which a `set` compacts the store.
pub const COMPACT_THRESHOLD: usize = 24;

/// A store as the contracts see it: the key directory, the count of dead
/// bytes, the segment that is written to and how many bytes it holds, the
/// segments of the directory, and what the directory holds.
pub struct State {
    pub keys: Seq<Seq<char>>,
    pub values: Seq<KeyDirValue>,
    pub dead: usize,
    pub active_id: usize,
    pub active_len: u64,
    pub segment_ids: Seq<usize>,
    pub disk: Disk,
}

impl State {
    /// The key directory as a map from key to entry.
    pub open spec fn index(self) -> Map<Seq<char>, KeyDirValue> {
        entries_map(self.keys, self.values)
    }

    /// The store and its directory fit together: the keys stand in
    /// ascending order, each with one entry; the segments are those of the
    /// directory, in ascending order, and none lies above the active one;
    /// every entry points at a `Put` record of its key; and a replay of the
    /// directory gives the key directory and the count of dead bytes.
    pub open spec fn wf(self) -> bool {
        &&& self.keys.len() == self.values.len()
        &&& sorted(self.keys)
        &&& self.keys.no_duplicates()
        &&& ascending(self.segment_ids)
        &&& self.segment_ids.no_duplicates()
        &&& forall|id: usize| self.segment_ids.contains(id) <==> self.disk.contains_key(id)
        &&& forall|id: usize| self.disk.contains_key(id) ==> id <= self.active_id
        &&& self.disk.contains_key(self.active_id)
        &&& self.disk[self.active_id].len() == self.active_len
        &&& all_point(self.disk, self.index())
        &&& replay_below(self.disk, (self.active_id + 1) as nat) == Ok::<Replay, Fault>(
            Replay { keys: self.keys, values: self.values, dead: self.dead },
        )
    }
}

/// The map `index` with `key` back at the entry it had, or out of the map
/// where it had none.
pub open spec fn restored(
    index: Map<Seq<char>, KeyDirValue>,
    key: Seq<char>,
    was: Option<KeyDirValue>,
) -> Map<Seq<char>, KeyDirValue> {
    match was {
        Some(value) => index.insert(key, value),
        None => index.remove(key),
    }
}

/// What the store keeps of its last `set` or `remove`, to go back where the
/// actions of that call were not all carried out.
struct Journal {
    /// The number of actions that the call returned.
    count: usize,
    /// The key of the call.
    key: Option<String>,
    /// The entry that the key had before the call.
    was: Option<KeyDirValue>,
    /// The count of dead bytes before the call.
    dead: usize,
    /// The length of the active segment before the call.
    active_len: u64,
    /// Whether the call compacted the store.
    compacted: bool,
    /// The entries before the compaction.
    values: Vec<KeyDirValue>,
    /// The segments before the compaction.
    readers: Vec<usize>,
    /// The active segment before the compaction.
    mid_id: usize,
    /// The length of the active segment before the compaction.
    mid_len: u64,
    /// The count of dead bytes before the compaction.
    mid_dead: usize,
    pending: Ghost<Seq<ActionView>>,
    before: Ghost<State>,
    middle: Ghost<State>,
}

/// The store: the key directory, the segment that is written to, the count
/// of dead bytes, and what the store takes the directory on disk to hold.
pub struct KvStore {
    file_id: usize,
    active_len: u64,
    readers: Vec<usize>,
    key_dir: KeyDir,
    uncompacted: usize,
    journal: Journal,
    disk: Ghost<Disk>,
}

/// A journal of no call.
fn no_journal(Ghost(state): Ghost<State>) -> (journal: Journal)
    ensures
        journal.count == 0,
        journal.key is None,
        !journal.compacted,
        journal.pending@ == Seq::<ActionView>::empty(),
        journal.before@ == state,
{
    Journal {
        count: 0,
        key: None,
        was: None,
        dead: 0,
        active_len: 0,
        compacted: false,
        values: Vec::new(),
        readers: Vec::new(),
        mid_id: 0,
        mid_len: 0,
        mid_dead: 0,
        pending: Ghost(Seq::empty()),
        before: Ghost(state),
        middle: Ghost(state),
    }
}

/// The identifiers, copied.
fn copy_ids(ids: &Vec<usize>) -> (copy: Vec<usize>)
    ensures
        copy@ == ids@,
{
    let mut copy: Vec<usize> = Vec::new();
    let mut i: usize = 0;
    while i < ids.len()
        invariant
            i <= ids.len(),
            copy@ == ids@.take(i as int),
        decreases ids.len() - i,
    {
        copy.push(ids[i]);
        assert(copy@ =~= ids@.take(i + 1));
        i += 1;
    }
    assert(ids@.take(ids.len() as int) =~= ids@);
    copy
}

/// Adds one deletion for each of `readers` from place `from` on.
fn delete_from(readers: &Vec<usize>, from: usize, actions: &mut Vec<Action>)
    requires
        from <= readers.len(),
    ensures
        action_views(final(actions)@) == action_views(old(actions)@) + deletions(readers@).skip(
            from as int,
        ),
{
    let ghost given = action_views(actions@);
    let ghost all = deletions(readers@);
    let mut i: usize = from;
    assert(action_views(actions@) =~= given + all.subrange(from as int, from as int));
    while i < readers.len()
        invariant
            from <= i <= readers.len(),
            all == deletions(readers@),
            given == action_views(old(actions)@),
            action_views(actions@) == given + all.subrange(from as int, i as int),
        decreases readers.len() - i,
    {
        let ghost so_far = action_views(actions@);
        actions.push(Action::Delete { file_id: readers[i] });
        assert(action_views(actions@) =~= so_far.push(
            ActionView::Delete { file_id: readers[i as int] },
        ));
        assert(given + all.subrange(from as int, i + 1) =~= (given + all.subrange(
            from as int,
            i as int,
        )).push(ActionView::Delete { file_id: readers[i as int] }));
        i += 1;
    }
    assert(all.subrange(from as int, readers.len() as int) =~= all.skip(from as int));
}

impl View for KvStore {
    type V = Map<Seq<char>, Seq<char>>;

    /// The store as a map from each live key to its value.
    open spec fn view(&self) -> Map<Seq<char>, Seq<char>> {
        contents(self.disk(), self.index())
    }
}

/// The value in a record that was read from the place of an entry.
pub open spec fn value_of_record(record: Seq<u8>) -> Result<Seq<char>, Fault> {
    match parse_at(record, 0) {
        Err(fault) => Err(fault),
        Ok((command, len)) => if len != record.len() {
            Err(Fault::Json)
        } else {
            match command {
                CommandView::Put(_, value) => Ok(value),
                CommandView::Remove(_) => Err(Fault::Frame),
            }
        },
    }
}

/// Appending a record to the segment that is replayed last adds the
/// record's step to the replay and leaves every entry as it was.
pub proof fn lemma_append_active(disk: Disk, fid: usize, record: Seq<u8>, st: Replay)
    requires
        disk.contains_key(fid),
        st.wf(),
        replay_below(disk, (fid + 1) as nat) == Ok::<Replay, Fault>(st),
        all_point(disk, st.index()),
        parse_at(record, 0) is Ok,
        parse_at(record, 0)->Ok_0.1 == record.len(),
        record.len() > 0,
    ensures
        ({
            let grown = disk.insert(fid, disk[fid] + record);
            let command = parse_at(record, 0)->Ok_0.0;
            &&& grown == apply(disk, ActionView::Append { file_id: fid, bytes: record })
            &&& parse_at(grown[fid], disk[fid].len() as int) == parse_at(record, 0)
            &&& replay_below(grown, (fid + 1) as nat) == Ok::<Replay, Fault>(
                step(st, command, place(fid, disk[fid].len() as int, record.len())),
            )
            &&& all_point(grown, st.index())
            &&& forall|k: Seq<char>| #[trigger]
                st.index().contains_key(k) ==> value_at(grown, st.index()[k]) == value_at(
                    disk,
                    st.index()[k],
                )
        }),
{
    let grown = disk.insert(fid, disk[fid] + record);
    let st0 = replay_below(disk, fid as nat)->Ok_0;
    lemma_replay_below_agree(disk, grown, fid as nat);
    lemma_replay_append(disk[fid], record, fid, 0, st0);
    assert forall|k: Seq<char>| #[trigger] st.index().contains_key(k) implies points_to(
        grown,
        k,
        st.index()[k],
    ) && value_at(grown, st.index()[k]) == value_at(disk, st.index()[k]) by {
        let at = st.index()[k];
        assert(points_to(disk, k, at));
        assert(grown[at.file_id].subrange(0, disk[at.file_id].len() as int) =~= disk[at.file_id]);
        lemma_points_to_grown(disk, grown, k, at);
    }
}

impl KvStore {
    /// The segment that takes the writes.
    pub closed spec fn active_id(&self) -> usize {
        self.file_id
    }

    /// The bytes that the active segment holds.
    pub closed spec fn active_len(&self) -> u64 {
        self.active_len
    }

    /// The segments of the directory.
    pub closed spec fn segment_ids(&self) -> Seq<usize> {
        self.readers@
    }

    /// The key directory.
    pub closed spec fn key_dir(&self) -> KeyDir {
        self.key_dir
    }

    /// The key directory as a map from key to entry.
    pub open spec fn index(&self) -> Map<Seq<char>, KeyDirValue> {
        self.key_dir()@
    }

    /// The count of dead bytes.
    pub closed spec fn dead_bytes(&self) -> usize {
        self.uncompacted
    }

    /// What the directory holds once every action that the store has
    /// returned is carried out.
    pub closed spec fn disk(&self) -> Disk {
        self.disk@
    }

    /// The store as the contracts see it.
    pub open spec fn state(&self) -> State {
        State {
            keys: self.key_dir().keys(),
            values: self.key_dir().values(),
            dead: self.dead_bytes(),
            active_id: self.active_id(),
            active_len: self.active_len(),
            segment_ids: self.segment_ids(),
            disk: self.disk(),
        }
    }

    /// The store and its directory fit together.
    pub open spec fn fits(&self) -> bool {
        self.state().wf()
    }

    /// The actions that the last `set` or `remove` returned; none after
    /// `open` and after `settle`.
    pub closed spec fn pending(&self) -> Seq<ActionView> {
        self.journal.pending@
    }

    /// The store before the last `set` or `remove`.
    pub closed spec fn before(&self) -> State {
        self.journal.before@
    }

    /// The store between the append and the compaction of the last `set`,
    /// where it compacted.
    pub closed spec fn middle(&self) -> State {
        self.journal.middle@
    }

    /// What the store keeps of its last call is what that call did.
    pub closed spec fn journal_ok(&self) -> bool {
        let j = self.journal;
        let now = self.state();
        &&& j.pending@.len() == j.count
        &&& j.before@.wf()
        &&& apply_all(j.before@.disk, j.pending@) == now.disk
        &&& match j.key {
            None => j.count == 0 && j.before@ == now && !j.compacted,
            Some(key) => {
                let base = if j.compacted {
                    j.middle@
                } else {
                    now
                };
                &&& j.pending@.len() >= 1
                &&& base.disk == apply(j.before@.disk, j.pending@[0])
                &&& j.before@.index() == restored(base.index(), key@, j.was)
                &&& j.before@.dead == j.dead
                &&& j.before@.active_len == j.active_len
                &&& j.before@.active_id == base.active_id
                &&& j.before@.segment_ids == base.segment_ids
                &&& if j.compacted {
                    &&& base.wf()
                    &&& base.active_id + 2 <= usize::MAX
                    &&& live_size(base.values) <= u64::MAX
                    &&& j.values@ == base.values
                    &&& j.readers@ == base.segment_ids
                    &&& j.mid_id == base.active_id
                    &&& j.mid_len == base.active_len
                    &&& j.mid_dead == base.dead
                    &&& base.keys == now.keys
                    &&& j.pending@ == seq![j.pending@[0]] + compaction_actions(
                        base.values,
                        base.segment_ids,
                        (base.active_id + 1) as usize,
                        (base.active_id + 2) as usize,
                    )
                } else {
                    j.count == 1
                }
            },
        }
    }

    /// The store is well formed: it fits its directory, and what it keeps
    /// of its last call is what that call did.
    pub open spec fn wf(&self) -> bool {
        &&& self.fits()
        &&& self.journal_ok()
    }

    /// The entry of a record of `len` bytes that is appended next.
    pub open spec fn next_place(&self, len: nat) -> KeyDirValue {
        place(self.active_id(), self.active_len() as int, len)
    }

    /// The count of dead bytes once `key` has been set again.
    pub open spec fn dead_after_put(&self, key: Seq<char>) -> usize {
        if self.index().contains_key(key) {
            sat_add(self.dead_bytes(), self.index()[key].value_size)
        } else {
            self.dead_bytes()
        }
    }

    /// The entries of the directory once `key` has a record of `len` bytes
    /// at the end of the active segment.
    pub open spec fn entries_after_put(&self, key: Seq<char>, len: nat) -> Seq<KeyDirValue> {
        values_with(self.key_dir().keys(), self.key_dir().values(), key, self.next_place(len))
    }

    /// Whether the store can be compacted once `key` has a record of `len`
    /// bytes: two more identifiers are left, and the live records fit in one
    /// segment.
    pub open spec fn can_compact_after_put(&self, key: Seq<char>, len: nat) -> bool {
        &&& self.active_id() + 2 <= usize::MAX
        &&& live_size(self.entries_after_put(key, len)) <= u64::MAX
    }

    /// What `open` returns for the segments of a directory.
    pub open spec fn open_result(
        segments: Seq<Segment>,
        res: Result<(KvStore, Vec<Action>), KvError>,
    ) -> bool {
        let found = disk_of(segments);
        if !distinct_ids(segments) {
            res matches Err(e) && e is Corrupt
        } else {
            match replay(found) {
                Err(fault) => res matches Err(e) && e.reports(fault),
                Ok(st) => if found.contains_key(usize::MAX) {
                    res matches Err(e) && e is TooLarge
                } else {
                    &&& res matches Ok((store, actions))
                    &&& store.wf()
                    &&& store.key_dir().keys() == st.keys
                    &&& store.key_dir().values() == st.values
                    &&& store.index() == st.index()
                    &&& store.dead_bytes() == st.dead
                    &&& store@ == contents(found, st.index())
                    &&& forall|id: usize| found.contains_key(id) ==> id < store.active_id()
                    &&& store.active_id() == 0 || found.contains_key(
                        (store.active_id() - 1) as usize,
                    )
                    &&& store.active_len() == 0
                    &&& action_views(actions@) == seq![
                        ActionView::Create { file_id: store.active_id() },
                    ]
                    &&& store.disk() == apply_all(found, action_views(actions@))
                    &&& store.disk() == found.insert(store.active_id(), Seq::empty())
                    &&& store.pending() == Seq::<ActionView>::empty()
                    &&& store.before() == store.state()
                },
            }
        }
    }

    /// What `set` does to the store and what it returns.
    ///
    /// A command without a record, a record that would carry the active
    /// segment past what an offset can hold, and a compaction that cannot be
    /// carried out each leave the store as it is. Otherwise the record is
    /// appended and the key points at it; where that brings the dead bytes
    /// above the threshold, the store is compacted in the same call.
    pub open spec fn set_result(
        pre: KvStore,
        key: Seq<char>,
        value: Seq<char>,
        post: KvStore,
        res: Result<Vec<Action>, KvError>,
    ) -> bool {
        match record_of(CommandView::Put(key, value)) {
            Err(fault) => post == pre && (res matches Err(e) && e.reports(fault)),
            Ok(record) => {
                let dead = pre.dead_after_put(key);
                let entries = pre.entries_after_put(key, record.len());
                let append = ActionView::Append { file_id: pre.active_id(), bytes: record };
                if pre.active_len() + record.len() > u64::MAX || (dead > COMPACT_THRESHOLD
                    && !pre.can_compact_after_put(key, record.len())) {
                    post == pre && (res matches Err(e) && e is TooLarge)
                } else {
                    &&& res matches Ok(actions)
                    &&& post.wf()
                    &&& post@ == pre@.insert(key, value)
                    &&& post.disk() == apply_all(pre.disk(), action_views(actions@))
                    &&& post.key_dir().keys() == keys_with(pre.key_dir().keys(), key)
                    &&& post.pending() == action_views(actions@)
                    &&& post.before() == pre.state()
                    &&& if dead <= COMPACT_THRESHOLD {
                        &&& action_views(actions@) == seq![append]
                        &&& post.active_id() == pre.active_id()
                        &&& post.active_len() == pre.active_len() + record.len()
                        &&& post.segment_ids() == pre.segment_ids()
                        &&& post.key_dir().values() == entries
                        &&& post.index() == pre.index().insert(key, pre.next_place(record.len()))
                        &&& post.dead_bytes() == dead
                    } else {
                        let merged = (pre.active_id() + 1) as usize;
                        let active = (pre.active_id() + 2) as usize;
                        &&& action_views(actions@) == seq![append] + compaction_actions(
                            entries,
                            pre.segment_ids(),
                            merged,
                            active,
                        )
                        &&& post.active_id() == active
                        &&& post.active_len() == 0
                        &&& post.segment_ids() == seq![merged, active]
                        &&& post.key_dir().values() == moved_values(entries, merged)
                        &&& post.dead_bytes() == 0
                        &&& post.middle() == (State {
                            keys: keys_with(pre.key_dir().keys(), key),
                            values: entries,
                            dead,
                            active_id: pre.active_id(),
                            active_len: (pre.active_len() + record.len()) as u64,
                            segment_ids: pre.segment_ids(),
                            disk: apply(pre.disk(), append),
                        })
                    }
                }
            },
        }
    }

    /// What `remove` does to the store and what it returns.
    ///
    /// A key without a live value is an error and leaves the store as it is;
    /// so do a command without a record and a record that would carry the
    /// active segment past what an offset can hold. Otherwise the record is
    /// appended and the key is taken out; the record it had and the `Remove`
    /// record are dead. No compaction follows, whatever the count.
    pub open spec fn remove_result(
        pre: KvStore,
        key: Seq<char>,
        post: KvStore,
        res: Result<Vec<Action>, KvError>,
    ) -> bool {
        if !pre.index().contains_key(key) {
            post == pre && (res matches Err(KvError::KeyNotFound(k)) && k@ == key)
        } else {
            match record_of(CommandView::Remove(key)) {
                Err(fault) => post == pre && (res matches Err(e) && e.reports(fault)),
                Ok(record) => if pre.active_len() + record.len() > u64::MAX {
                    post == pre && (res matches Err(e) && e is TooLarge)
                } else {
                    &&& res matches Ok(actions)
                    &&& action_views(actions@) == seq![
                        ActionView::Append { file_id: pre.active_id(), bytes: record },
                    ]
                    &&& post.wf()
                    &&& post@ == pre@.remove(key)
                    &&& post.disk() == apply_all(pre.disk(), action_views(actions@))
                    &&& post.pending() == action_views(actions@)
                    &&& post.before() == pre.state()
                    &&& post.index() == pre.index().remove(key)
                    &&& post.key_dir().keys() == pre.key_dir().keys().remove(
                        pre.key_dir().keys().index_of(key),
                    )
                    &&& post.key_dir().values() == pre.key_dir().values().remove(
                        pre.key_dir().keys().index_of(key),
                    )
                    &&& post.active_id() == pre.active_id()
                    &&& post.active_len() == pre.active_len() + record.len()
                    &&& post.segment_ids() == pre.segment_ids()
                    &&& post.dead_bytes() == sat_add(
                        sat_add(pre.dead_bytes(), pre.index()[key].value_size),
                        record.len() as usize,
                    )
                },
            }
        }
    }

    /// The store that fits a directory on which only the first `done`
    /// actions of the last `set` or `remove` were carried out, and then the
    /// actions of `cleanup_of`.
    ///
    /// Where all were carried out, or none was returned, it is the store as
    /// it is. Where nothing was carried out, it is the store before the call.
    /// Where a compaction stopped before its deletions, it is the store
    /// between the append and the compaction; where it stopped among its
    /// deletions, the store after it.
    pub open spec fn settled(pre: KvStore, done: int) -> State {
        let count = pre.pending().len();
        if done >= count {
            pre.state()
        } else if count == 1 {
            pre.before()
        } else if done >= 3 + pre.middle().values.len() {
            pre.state()
        } else if done == 0 {
            pre.before()
        } else {
            pre.middle()
        }
    }

    /// The actions that clean up behind a call of which only the first `done`
    /// actions were carried out: the deletions that are left where the
    /// compaction had come to them, else the deletion of each of the two new
    /// segments that the compaction had created.
    pub open spec fn cleanup_of(pre: KvStore, done: int) -> Seq<ActionView> {
        let count = pre.pending().len();
        if done >= count || count == 1 {
            Seq::empty()
        } else if done >= 3 + pre.middle().values.len() {
            pre.pending().skip(done)
        } else {
            let merged = (pre.middle().active_id + 1) as usize;
            let active = (pre.middle().active_id + 2) as usize;
            if done >= 3 {
                seq![ActionView::Delete { file_id: active }, ActionView::Delete { file_id: merged }]
            } else if done == 2 {
                seq![ActionView::Delete { file_id: active }]
            } else {
                Seq::empty()
            }
        }
    }

    /// What `settle` does to the store and what it returns: the store fits
    /// the directory on which the first `done` actions of the last call and
    /// then the returned ones are carried out, and keeps nothing of that
    /// call.
    pub open spec fn settle_result(
        pre: KvStore,
        done: int,
        post: KvStore,
        cleanup: Vec<Action>,
    ) -> bool {
        let carried = if done >= pre.pending().len() {
            pre.pending()
        } else {
            pre.pending().take(done)
        };
        &&& post.wf()
        &&& post.state() == Self::settled(pre, done)
        &&& action_views(cleanup@) == Self::cleanup_of(pre, done)
        &&& post.disk() == apply_all(
            apply_all(pre.before().disk, carried),
            action_views(cleanup@),
        )
        &&& post.pending() == Seq::<ActionView>::empty()
        &&& post.before() == post.state()
    }

    /// Brings the store in line with a directory on which only the first
    /// `done` actions of the last `set` or `remove` were carried out, each
    /// of them in full. The actions that are returned clean up; they are
    /// carried out like any others.
    pub fn settle(&mut self, done: usize) -> (cleanup: Vec<Action>)
        requires
            old(self).wf(),
        ensures
            Self::settle_result(*old(self), done as int, *final(self), cleanup),
    {
        let mut cleanup: Vec<Action> = Vec::new();
        let ghost pending = self.journal.pending@;
        let ghost before = self.journal.before@;
        let ghost middle = self.journal.middle@;
        let ghost now = self.state();
        assert(action_views(cleanup@) =~= Seq::<ActionView>::empty());
        assert(apply_all(now.disk, Seq::<ActionView>::empty()) == now.disk);
        if done < self.journal.count {
            let mut back = true;
            if self.journal.compacted {
                let copied = self.journal.values.len();
                let ghost merged = (middle.active_id + 1) as usize;
                let ghost active = (middle.active_id + 2) as usize;
                let ghost first = pending[0];
                let ghost rest = compaction_actions(middle.values, middle.segment_ids, merged, active);
                assert(pending.len() == 3 + copied + self.journal.readers@.len());
                proof {
                    lemma_entries_point(middle.disk, middle.keys, middle.values);
                    lemma_apply_all_one(before.disk, first);
                    assert(!middle.disk.contains_key(merged));
                    assert(!middle.disk.contains_key(active));
                }
                if done >= 3 && done - 3 >= copied {
                    delete_from(&self.journal.readers, done - 3 - copied, &mut cleanup);
                    back = false;
                    proof {
                        assert(action_views(cleanup@) =~= pending.skip(done as int));
                        assert(pending.take(done as int) + pending.skip(done as int) =~= pending);
                        lemma_apply_all_concat(
                            before.disk,
                            pending.take(done as int),
                            pending.skip(done as int),
                        );
                    }
                } else {
                    self.key_dir.set_values(&self.journal.values);
                    self.readers = copy_ids(&self.journal.readers);
                    self.file_id = self.journal.mid_id;
                    self.active_len = self.journal.mid_len;
                    self.uncompacted = self.journal.mid_dead;
                    self.disk = Ghost(middle.disk);
                    assert(self.state() == middle);
                    if done >= 2 {
                        cleanup.push(Action::Delete { file_id: self.journal.mid_id + 2 });
                    }
                    if done >= 3 {
                        cleanup.push(Action::Delete { file_id: self.journal.mid_id + 1 });
                    }
                    back = done == 0;
                    proof {
                        let erase_active = ActionView::Delete { file_id: active };
                        let erase_merged = ActionView::Delete { file_id: merged };
                        let create_active = ActionView::Create { file_id: active };
                        if done >= 3 {
                            let m = done - 3;
                            let start = creations(merged, active) + copies(
                                middle.values,
                                merged,
                            ).take(m);
                            assert(pending.take(done as int) =~= seq![first] + start);
                            lemma_apply_all_concat(before.disk, seq![first], start);
                            lemma_copies_applied(
                                middle.disk,
                                middle.keys,
                                middle.values,
                                merged,
                                active,
                                m,
                            );
                            let during = copying_disk(
                                middle.disk,
                                middle.values,
                                merged,
                                active,
                                m,
                            );
                            assert(action_views(cleanup@) =~= seq![erase_active].push(
                                erase_merged,
                            ));
                            lemma_apply_all_one(during, erase_active);
                            lemma_apply_all_push(during, seq![erase_active], erase_merged);
                            assert(during.remove(active).remove(merged) =~= middle.disk);
                        } else if done == 2 {
                            assert(pending.take(2) =~= seq![first].push(create_active));
                            lemma_apply_all_push(before.disk, seq![first], create_active);
                            let during = middle.disk.insert(active, Seq::<u8>::empty());
                            assert(apply(middle.disk, create_active) =~= during);
                            assert(action_views(cleanup@) =~= seq![erase_active]);
                            lemma_apply_all_one(during, erase_active);
                            assert(during.remove(active) =~= middle.disk);
                        } else if done == 1 {
                            assert(pending.take(1) =~= seq![first]);
                            assert(apply_all(middle.disk, Seq::<ActionView>::empty())
                                == middle.disk);
                        }
                    }
                }
            }
            if back {
                assert(done == 0);
                let ghost base = self.state();
                match &self.journal.key {
                    Some(key) => {
                        match self.journal.was {
                            Some(value) => {
                                self.key_dir.insert(key.clone(), value);
                            },
                            None => {
                                self.key_dir.remove(key);
                            },
                        }
                    },
                    None => {},
                }
                self.uncompacted = self.journal.dead;
                self.active_len = self.journal.active_len;
                self.disk = Ghost(before.disk);
                proof {
                    lemma_sorted_unique(
                        self.key_dir.keys(),
                        self.key_dir.values(),
                        before.keys,
                        before.values,
                    );
                    assert(pending.take(0) =~= Seq::<ActionView>::empty());
                    assert(apply_all(before.disk, Seq::<ActionView>::empty()) == before.disk);
                }
                assert(self.state() == before);
            }
        }
        self.journal = no_journal(Ghost(self.state()));
        assert(self.state() == Self::settled(*old(self), done as int));
        assert(action_views(cleanup@) == Self::cleanup_of(*old(self), done as int));
        assert(self.fits());
        assert(self.journal_ok());
        assert(self.disk() == apply_all(
            apply_all(
                before.disk,
                if done >= pending.len() {
                    pending
                } else {
                    pending.take(done as int)
                },
            ),
            action_views(cleanup@),
        ));
        cleanup
    }

    /// Opens a store on the segments that a directory holds.
    ///
    /// The segments are replayed in ascending order of identifier. The store
    /// writes to a segment of its own, one above the highest that was found,
    /// or segment 0 where none was found; the action that is returned creates
    /// it.
    pub fn open(segments: Vec<Segment>) -> (res: Result<(KvStore, Vec<Action>), KvError>)
        ensures
            Self::open_result(segments@, res),
    {
        let replayed = match replay_log(&segments) {
            Ok(replayed) => replayed,
            Err(e) => {
                return Err(e);
            },
        };
        let ghost found = disk_of(segments@);
        let ghost st = replay(found)->Ok_0;
        let Replayed { file_id, readers, key_dir, uncompacted } = replayed;
        let mut readers = readers;
        let ghost seen = readers@;
        if segments.len() > 0 {
            proof {
                assert forall|i: int| 0 <= i < readers@.len() implies readers@[i] < file_id by {
                    assert(readers@.contains(readers@[i]));
                }
                lemma_push_id(readers@, file_id);
            }
            readers.push(file_id);
        }
        let ghost disk = found.insert(file_id, Seq::<u8>::empty());
        proof {
            lemma_replay_below_skip(found, file_id as nat, (usize::MAX + 1) as nat);
            lemma_replay_below_agree(found, disk, file_id as nat);
            assert forall|k: Seq<char>| #[trigger] st.index().contains_key(k) implies points_to(
                disk,
                k,
                st.index()[k],
            ) && value_at(disk, st.index()[k]) == value_at(found, st.index()[k]) by {
                let at = st.index()[k];
                assert(points_to(found, k, at));
                assert(disk[at.file_id].subrange(0, found[at.file_id].len() as int)
                    =~= found[at.file_id]);
                lemma_points_to_grown(found, disk, k, at);
            }
            assert(contents(disk, st.index()) =~= contents(found, st.index()));
            if segments@.len() == 0 {
                assert(found =~= Map::<usize, Seq<u8>>::empty());
                if file_id != 0 {
                    assert(found.contains_key((file_id - 1) as usize));
                }
            }
            assert forall|id: usize| readers@.contains(id) <==> disk.contains_key(id) by {
                if segments@.len() > 0 {
                    assert(seen.contains(id) <==> found.contains_key(id));
                } else {
                    assert(seen.contains(id) <==> id == 0);
                }
            }
            lemma_apply_all_one(found, ActionView::Create { file_id });
            assert(apply(found, ActionView::Create { file_id }) =~= disk);
        }
        let ghost state = State {
            keys: key_dir.keys(),
            values: key_dir.values(),
            dead: uncompacted,
            active_id: file_id,
            active_len: 0,
            segment_ids: readers@,
            disk,
        };
        let store = KvStore {
            file_id,
            active_len: 0,
            readers,
            key_dir,
            uncompacted,
            journal: no_journal(Ghost(state)),
            disk: Ghost(disk),
        };
        assert(apply_all(disk, Seq::<ActionView>::empty()) == disk);
        let mut actions: Vec<Action> = Vec::new();
        actions.push(Action::Create { file_id });
        assert(action_views(actions@) =~= seq![ActionView::Create { file_id }]);
        Ok((store, actions))
    }

    /// Rewrites the live records into one fresh segment, starts another for
    /// the writes, and retires every segment that was there before.
    fn compact(&mut self, actions: &mut Vec<Action>)
        requires
            old(self).fits(),
            old(self).active_id() + 2 <= usize::MAX,
            live_size(old(self).key_dir().values()) <= u64::MAX,
        ensures
            final(self).fits(),
            final(self)@ == old(self)@,
            final(self).active_id() == old(self).active_id() + 2,
            final(self).active_len() == 0,
            final(self).dead_bytes() == 0,
            final(self).segment_ids() == seq![
                (old(self).active_id() + 1) as usize,
                (old(self).active_id() + 2) as usize,
            ],
            final(self).key_dir().keys() == old(self).key_dir().keys(),
            final(self).key_dir().values() == moved_values(
                old(self).key_dir().values(),
                (old(self).active_id() + 1) as usize,
            ),
            action_views(final(actions)@) == action_views(old(actions)@) + compaction_actions(
                old(self).key_dir().values(),
                old(self).segment_ids(),
                (old(self).active_id() + 1) as usize,
                (old(self).active_id() + 2) as usize,
            ),
            final(self).disk() == apply_all(
                old(self).disk(),
                compaction_actions(
                    old(self).key_dir().values(),
                    old(self).segment_ids(),
                    (old(self).active_id() + 1) as usize,
                    (old(self).active_id() + 2) as usize,
                ),
            ),
    {
        let merged = self.file_id + 1;
        let active = self.file_id + 2;
        let ghost given = action_views(actions@);
        let ghost keys = self.key_dir.keys();
        let ghost values = self.key_dir.values();
        let ghost ids = self.readers@;
        let ghost before = self.disk@;
        actions.push(Action::Create { file_id: active });
        actions.push(Action::Create { file_id: merged });
        assert(action_views(actions@) =~= given + creations(merged, active));
        move_entries(&mut self.key_dir, merged, actions);
        delete_all(&self.readers, actions);
        assert(action_views(actions@) =~= given + compaction_actions(values, ids, merged, active));
        proof {
            lemma_compaction(before, keys, values, ids, merged, active);
        }
        let mut readers: Vec<usize> = Vec::new();
        readers.push(merged);
        readers.push(active);
        self.readers = readers;
        self.file_id = active;
        self.active_len = 0;
        self.uncompacted = 0;
        self.disk = Ghost(compacted_disk(before, values, merged, active));
        proof {
            assert(self.readers@ =~= seq![merged, active]);
            assert forall|id: usize| self.segment_ids().contains(id) <==> self.disk().contains_key(
                id,
            ) by {
                if id == merged {
                    assert(self.readers@[0] == id);
                }
                if id == active {
                    assert(self.readers@[1] == id);
                }
            }
        }
    }

    /// Sets `key` to `value`.
    ///
    /// The actions that are returned append the record to the active
    /// segment and, where the call compacts the store, carry the compaction
    /// out.
    pub fn set(&mut self, key: String, value: String) -> (res: Result<Vec<Action>, KvError>)
        requires
            old(self).wf(),
        ensures
            Self::set_result(*old(self), key@, value@, *final(self), res),
    {
        let command = Command::Put(key.clone(), value);
        let record = match encode(&command) {
            Ok(record) => record,
            Err(e) => {
                return Err(e);
            },
        };
        proof {
            lemma_record_reads_back(command@);
        }
        let len = record.len();
        let end = match self.active_len.checked_add(len as u64) {
            Some(end) => end,
            None => {
                return Err(KvError::TooLarge);
            },
        };
        let at = KeyDirValue { file_id: self.file_id, value_size: len, start_index: self.active_len };
        assert(at == self.next_place(len as nat));
        let found = self.key_dir.find(&key);
        let dead = match found {
            Some(i) => {
                proof {
                    crate::keydir::lemma_entries_map_at(
                        self.key_dir.keys(),
                        self.key_dir.values(),
                        i as int,
                    );
                }
                self.uncompacted.saturating_add(self.key_dir.value_at(i).value_size)
            },
            None => {
                proof {
                    crate::keydir::lemma_rank_bounds(self.key_dir.keys(), key@);
                    crate::keydir::lemma_live_size_insert(
                        self.key_dir.values(),
                        crate::keydir::rank(self.key_dir.keys(), key@),
                        at,
                    );
                }
                self.uncompacted
            },
        };
        assert(dead == self.dead_after_put(key@));
        let compacting = dead > COMPACT_THRESHOLD;
        if compacting {
            if self.file_id > usize::MAX - 2 || !self.key_dir.live_size_fits(found, at) {
                return Err(KvError::TooLarge);
            }
        }
        let ghost before = self.disk@;
        let ghost index = self.key_dir@;
        let ghost st = state_of(self.key_dir, self.uncompacted);
        let ghost state_before = self.state();
        let was = match found {
            Some(i) => Some(self.key_dir.value_at(i)),
            None => None,
        };
        let dead_before = self.uncompacted;
        let len_before = self.active_len;
        let journal_key = key.clone();
        proof {
            lemma_append_active(before, self.file_id, record@, st);
        }
        self.key_dir.insert(key, at);
        self.uncompacted = dead;
        self.active_len = end;
        self.disk = Ghost(before.insert(self.file_id, before[self.file_id] + record@));
        let ghost append = ActionView::Append { file_id: self.file_id, bytes: record@ };
        let mut actions: Vec<Action> = Vec::new();
        actions.push(Action::Append { file_id: self.file_id, bytes: record });
        proof {
            assert(action_views(actions@) =~= seq![append]);
            lemma_apply_all_one(before, append);
            assert(contents(self.disk@, self.key_dir@) =~= contents(before, index).insert(
                key@,
                value@,
            ));
        }
        assert(self.fits());
        let ghost state_middle = self.state();
        assert(state_before.index() == restored(state_middle.index(), key@, was)) by {
            assert(state_before.index() =~= restored(state_middle.index(), key@, was));
        }
        let mid_id = self.file_id;
        let mid_len = self.active_len;
        let mid_dead = self.uncompacted;
        let mut values: Vec<KeyDirValue> = Vec::new();
        let mut readers: Vec<usize> = Vec::new();
        if compacting {
            let ghost middle = self.disk@;
            let ghost entries = self.key_dir.values();
            let ghost ids = self.readers@;
            let ghost merged = (self.file_id + 1) as usize;
            let ghost active = (self.file_id + 2) as usize;
            values = self.key_dir.values_copy();
            readers = copy_ids(&self.readers);
            self.compact(&mut actions);
            proof {
                lemma_apply_all_concat(
                    before,
                    seq![append],
                    compaction_actions(entries, ids, merged, active),
                );
                assert(action_views(actions@)[0] == append);
            }
        }
        self.journal = Journal {
            count: actions.len(),
            key: Some(journal_key),
            was,
            dead: dead_before,
            active_len: len_before,
            compacted: compacting,
            values,
            readers,
            mid_id,
            mid_len,
            mid_dead,
            pending: Ghost(action_views(actions@)),
            before: Ghost(state_before),
            middle: Ghost(state_middle),
        };
        Ok(actions)
    }

    /// Where the record of `key` lies, if the key has a live value. The
    /// caller reads exactly that range and hands it to `read_value`.
    pub fn get(&self, key: String) -> (at: Option<KeyDirValue>)
        requires
            self.wf(),
        ensures
            at == self.index().get(key@),
    {
        self.key_dir.get(&key)
    }

    /// Removes `key`.
    pub fn remove(&mut self, key: String) -> (res: Result<Vec<Action>, KvError>)
        requires
            old(self).wf(),
        ensures
            Self::remove_result(*old(self), key@, *final(self), res),
    {
        let was = match self.key_dir.get(&key) {
            Some(was) => was,
            None => {
                return Err(KvError::KeyNotFound(key));
            },
        };
        let command = Command::Remove(key.clone());
        let record = match encode(&command) {
            Ok(record) => record,
            Err(e) => {
                return Err(e);
            },
        };
        proof {
            lemma_record_reads_back(command@);
        }
        let len = record.len();
        let end = match self.active_len.checked_add(len as u64) {
            Some(end) => end,
            None => {
                return Err(KvError::TooLarge);
            },
        };
        let ghost before = self.disk@;
        let ghost index = self.key_dir@;
        let ghost st = state_of(self.key_dir, self.uncompacted);
        let ghost state_before = self.state();
        let dead_before = self.uncompacted;
        let len_before = self.active_len;
        proof {
            lemma_append_active(before, self.file_id, record@, st);
        }
        self.key_dir.remove(&key);
        self.uncompacted = self.uncompacted.saturating_add(was.value_size).saturating_add(len);
        self.active_len = end;
        self.disk = Ghost(before.insert(self.file_id, before[self.file_id] + record@));
        let ghost append = ActionView::Append { file_id: self.file_id, bytes: record@ };
        let mut actions: Vec<Action> = Vec::new();
        actions.push(Action::Append { file_id: self.file_id, bytes: record });
        proof {
            assert(action_views(actions@) =~= seq![append]);
            lemma_apply_all_one(before, append);
            assert(contents(self.disk@, self.key_dir@) =~= contents(before, index).remove(key@));
        }
        let ghost state_now = self.state();
        assert(state_before.index() == restored(state_now.index(), key@, Some(was))) by {
            assert(state_before.index() =~= restored(state_now.index(), key@, Some(was)));
        }
        self.journal = Journal {
            count: 1,
            key: Some(key),
            was: Some(was),
            dead: dead_before,
            active_len: len_before,
            compacted: false,
            values: Vec::new(),
            readers: Vec::new(),
            mid_id: 0,
            mid_len: 0,
            mid_dead: 0,
            pending: Ghost(action_views(actions@)),
            before: Ghost(state_before),
            middle: Ghost(state_now),
        };
        Ok(actions)
    }

    /// The segment that takes the writes.
    pub fn file_id(&self) -> (id: usize)
        ensures
            id == self.active_id(),
    {
        self.file_id
    }

    /// The count of dead bytes.
    pub fn uncompacted(&self) -> (dead: usize)
        ensures
            dead == self.dead_bytes(),
    {
        self.uncompacted
    }

    /// The segments of the directory.
    pub fn readers(&self) -> (ids: &Vec<usize>)
        ensures
            ids@ == self.segment_ids(),
    {
        &self.readers
    }

    /// The number of live keys.
    pub fn len(&self) -> (n: usize)
        requires
            self.wf(),
        ensures
            n == self.key_dir().keys().len(),
    {
        self.key_dir.len()
    }
}

/// Decodes the bytes that were read from the place of an entry, and returns
/// the value in them. Bytes that are not exactly one record are a
/// `SerdeError`, and a `Remove` record is `Corrupt`: the key directory never
/// points at anything but a `Put` record.
pub fn read_value(record: &[u8]) -> (res: Result<String, KvError>)
    ensures
        match res {
            Ok(value) => value_of_record(record@) == Ok::<Seq<char>, Fault>(value@),
            Err(e) => value_of_record(record@) matches Err(fault) && e.reports(fault),
        },
{
    let (command, len) = match decode_at(record, 0) {
        Ok(decoded) => decoded,
        Err(e) => {
            return Err(e);
        },
    };
    if len != record.len() {
        return Err(KvError::SerdeError(json_error("trailing bytes behind the record")));
    }
    match command {
        Command::Put(_, value) => Ok(value),
        Command::Remove(_) => Err(KvError::Corrupt),
    }
}

} // verus!
