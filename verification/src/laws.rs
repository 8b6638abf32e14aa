use crate::action::{
    action_views, apply, apply_all, lemma_apply_all_concat, lemma_apply_all_one,
    lemma_apply_all_push, Action, ActionView,
};
use crate::compaction::{
    chunk, copied_state, copies, copying_disk, creations, lemma_copied_state,
    lemma_copies_applied, lemma_entries_point, lemma_merged_replays, lemma_merged_replays_onto,
    merged_data, moved_values,
};
use crate::error::{Fault, KvError};
use crate::keydir::{
    keys_with, lemma_entries_map_at, lemma_entries_with, lemma_keys_with_sorted,
    lemma_size_upto_monotone, size_upto,
};
use crate::record::{
    lemma_parse_bounds, lemma_parse_local, lemma_record_reads_back, parse_at, record_of,
    CommandView,
};
use crate::replay::{
    all_point, contents, disk_of, distinct_ids, lemma_points_to_grown, lemma_replay_below_agree,
    lemma_replay_below_skip, points_to, replay, replay_below, state_of, step, value_at, Replay,
    Segment,
};
use crate::store::{lemma_append_active, value_of_record, KvStore, COMPACT_THRESHOLD};
use vstd::prelude::*;

verus! {

/// What a reader finds for `key`: nothing where `get` returns no entry, else
/// what `read_value` makes of the bytes that lie at the entry.
pub open spec fn read(store: KvStore, key: Seq<char>) -> Option<Result<Seq<char>, Fault>> {
    match store.index().get(key) {
        None => None,
        Some(at) => Some(value_of_record(chunk(store.disk(), at))),
    }
}

/// Reading goes by the store's contents: a live key reads as its value,
/// without an error, and any other key reads as absent.
pub proof fn law_read_is_contents(store: KvStore, key: Seq<char>)
    requires
        store.wf(),
    ensures
        read(store, key) == if store@.contains_key(key) {
            Some(Ok::<Seq<char>, Fault>(store@[key]))
        } else {
            None
        },
{
    if store.index().contains_key(key) {
        let at = store.index()[key];
        assert(points_to(store.disk(), key, at));
        let data = store.disk()[at.file_id];
        let p = at.start_index as int;
        let len = at.value_size as int;
        lemma_parse_bounds(data, p);
        let piece = chunk(store.disk(), at);
        assert(piece.subrange(0, len) =~= data.subrange(p, p + len));
        lemma_parse_local(data, p, piece, 0);
    }
}

/// The last write wins: after two successful `set`s of one key, the key
/// reads as the second value.
pub proof fn law_last_write_wins(
    s0: KvStore,
    key: Seq<char>,
    v1: Seq<char>,
    v2: Seq<char>,
    s1: KvStore,
    r1: Result<Vec<Action>, KvError>,
    s2: KvStore,
    r2: Result<Vec<Action>, KvError>,
)
    requires
        s0.wf(),
        KvStore::set_result(s0, key, v1, s1, r1),
        r1 is Ok,
        KvStore::set_result(s1, key, v2, s2, r2),
        r2 is Ok,
    ensures
        s2.wf(),
        s2@.contains_key(key),
        s2@[key] == v2,
        read(s2, key) == Some(Ok::<Seq<char>, Fault>(v2)),
{
    law_read_is_contents(s2, key);
}

/// A `set` that succeeds is read back, and changes no other key.
pub proof fn law_set_then_read(
    s0: KvStore,
    key: Seq<char>,
    value: Seq<char>,
    s1: KvStore,
    res: Result<Vec<Action>, KvError>,
    other: Seq<char>,
)
    requires
        s0.wf(),
        KvStore::set_result(s0, key, value, s1, res),
        res is Ok,
        other != key,
    ensures
        read(s1, key) == Some(Ok::<Seq<char>, Fault>(value)),
        read(s1, other) == read(s0, other),
{
    law_read_is_contents(s1, key);
    law_read_is_contents(s1, other);
    law_read_is_contents(s0, other);
}

/// A store that is opened on an empty directory holds no key.
pub proof fn law_fresh_store_is_empty(
    res: Result<(KvStore, Vec<Action>), KvError>,
    key: Seq<char>,
)
    requires
        KvStore::open_result(Seq::<Segment>::empty(), res),
    ensures
        res matches Ok((store, _)) && store.wf() && store.active_id() == 0 && read(store, key)
            is None,
{
    let found = disk_of(Seq::<Segment>::empty());
    assert(found =~= Map::<usize, Seq<u8>>::empty());
    lemma_replay_below_skip(found, 0, (usize::MAX + 1) as nat);
    let store = res->Ok_0.0;
    law_read_is_contents(store, key);
    if store.active_id() != 0 {
        assert(found.contains_key((store.active_id() - 1) as usize));
    }
}

/// A key that has no value reads as absent, and stays so while only other
/// keys are set or removed, whether the calls succeed or fail.
pub proof fn law_absent_until_set(
    s0: KvStore,
    key: Seq<char>,
    other: Seq<char>,
    value: Seq<char>,
    s1: KvStore,
    r1: Result<Vec<Action>, KvError>,
    s2: KvStore,
    r2: Result<Vec<Action>, KvError>,
)
    requires
        s0.wf(),
        !s0@.contains_key(key),
        other != key,
        KvStore::set_result(s0, other, value, s1, r1),
        KvStore::remove_result(s0, other, s2, r2),
    ensures
        read(s0, key) is None,
        s1.wf() && read(s1, key) is None,
        s2.wf() && read(s2, key) is None,
{
    law_read_is_contents(s0, key);
    law_read_is_contents(s1, key);
    law_read_is_contents(s2, key);
}

/// After a successful `remove`, the key reads as absent and every other key
/// reads as before.
pub proof fn law_remove_then_read(
    s0: KvStore,
    key: Seq<char>,
    s1: KvStore,
    res: Result<Vec<Action>, KvError>,
    other: Seq<char>,
)
    requires
        s0.wf(),
        KvStore::remove_result(s0, key, s1, res),
        res is Ok,
        other != key,
    ensures
        s0@.contains_key(key),
        s1.wf(),
        read(s1, key) is None,
        read(s1, other) == read(s0, other),
{
    law_read_is_contents(s1, key);
    law_read_is_contents(s1, other);
    law_read_is_contents(s0, other);
}

/// A `remove` of a key without a live value fails with `KeyNotFound`,
/// returns no action and leaves the store as it is.
pub proof fn law_remove_absent_fails(
    s0: KvStore,
    key: Seq<char>,
    s1: KvStore,
    res: Result<Vec<Action>, KvError>,
)
    requires
        s0.wf(),
        read(s0, key) is None,
        KvStore::remove_result(s0, key, s1, res),
    ensures
        res matches Err(KvError::KeyNotFound(k)) && k@ == key,
        s1 == s0,
{
}

/// What is written survives a restart: a store that is opened on the
/// directory of another has the same key directory, the same count of dead
/// bytes and the same contents, and writes to the next segment.
///
/// The store must not write to the segment with the highest identifier there
/// is: a directory that holds it cannot be opened.
pub proof fn law_reopen(
    a: KvStore,
    segments: Seq<Segment>,
    res: Result<(KvStore, Vec<Action>), KvError>,
    key: Seq<char>,
)
    requires
        a.wf(),
        a.active_id() < usize::MAX,
        distinct_ids(segments),
        disk_of(segments) == a.disk(),
        KvStore::open_result(segments, res),
    ensures
        res matches Ok((b, _)) && b.wf() && b.key_dir().keys() == a.key_dir().keys()
            && b.key_dir().values() == a.key_dir().values() && b.index() == a.index()
            && b.dead_bytes()
            == a.dead_bytes() && b@ == a@ && b.active_id() == a.active_id() + 1 && read(b, key)
            == read(a, key),
{
    lemma_replay_below_skip(a.disk(), (a.active_id() + 1) as nat, (usize::MAX + 1) as nat);
    let b = res->Ok_0.0;
    law_read_is_contents(a, key);
    law_read_is_contents(b, key);
    if b.active_id() > a.active_id() + 1 {
        assert(a.disk().contains_key((b.active_id() - 1) as usize));
    }
}

/// Whether a `set` of `key` on `store` compacts it.
pub open spec fn compacts(store: KvStore, key: Seq<char>) -> bool {
    store.dead_after_put(key) > COMPACT_THRESHOLD
}

/// A compaction changes nothing that can be read: after a `set` that
/// compacts the store, every key reads as it would after the `set` alone.
/// The directory is left with two segments, both new, and none of the
/// segments that were there before; nothing is dead.
pub proof fn law_compaction_keeps_contents(
    s0: KvStore,
    key: Seq<char>,
    value: Seq<char>,
    s1: KvStore,
    res: Result<Vec<Action>, KvError>,
    other: Seq<char>,
)
    requires
        s0.wf(),
        KvStore::set_result(s0, key, value, s1, res),
        res is Ok,
        compacts(s0, key),
        other != key,
    ensures
        s1.wf(),
        s1@ == s0@.insert(key, value),
        read(s1, key) == Some(Ok::<Seq<char>, Fault>(value)),
        read(s1, other) == read(s0, other),
        s1.dead_bytes() == 0,
        s1.segment_ids().len() == 2,
        forall|id: usize| s0.disk().contains_key(id) ==> !s1.disk().contains_key(id),
        forall|id: usize| s1.disk().contains_key(id) ==> id > s0.active_id(),
{
    law_read_is_contents(s1, key);
    law_read_is_contents(s1, other);
    law_read_is_contents(s0, other);
    let merged = (s0.active_id() + 1) as usize;
    let active = (s0.active_id() + 2) as usize;
    assert forall|id: usize| s1.disk().contains_key(id) implies id > s0.active_id() by {
        assert(s1.segment_ids().contains(id));
        let j = choose|j: int| 0 <= j < 2 && s1.segment_ids()[j] == id;
        assert(seq![merged, active][j] == id);
    }
}

/// A compaction of a directory with more than two segments leaves fewer
/// segments than there were.
pub proof fn law_compaction_retires_segments(
    s0: KvStore,
    key: Seq<char>,
    value: Seq<char>,
    s1: KvStore,
    res: Result<Vec<Action>, KvError>,
)
    requires
        s0.wf(),
        KvStore::set_result(s0, key, value, s1, res),
        res is Ok,
        compacts(s0, key),
        s0.segment_ids().len() > 2,
    ensures
        s1.segment_ids().len() < s0.segment_ids().len(),
{
}

/// Segment identifiers only grow and are never used again: after a `set`,
/// the store writes to the segment it wrote to or to a higher one, and every
/// segment that the call has created lies above all that were there.
pub proof fn law_identifiers_grow(
    s0: KvStore,
    key: Seq<char>,
    value: Seq<char>,
    s1: KvStore,
    res: Result<Vec<Action>, KvError>,
)
    requires
        s0.wf(),
        KvStore::set_result(s0, key, value, s1, res),
    ensures
        s1.wf(),
        s1.active_id() >= s0.active_id(),
        s1.disk().contains_key(s1.active_id()),
        forall|id: usize| s1.disk().contains_key(id) ==> id <= s1.active_id(),
        forall|id: usize|
            s1.disk().contains_key(id) && !s0.disk().contains_key(id) ==> id > s0.active_id(),
{
    if res is Ok {
        if compacts(s0, key) {
            let other = key.push('x');
            assert(other.len() != key.len());
            law_compaction_keeps_contents(s0, key, value, s1, res, other);
        } else {
            let record = record_of(CommandView::Put(key, value))->Ok_0;
            lemma_apply_all_one(
                s0.disk(),
                ActionView::Append { file_id: s0.active_id(), bytes: record },
            );
        }
    }
}

/// The count of dead bytes never falls but in a compaction, which sets it
/// to zero: a `set` that does not compact and a `remove` leave it as it was
/// or higher.
pub proof fn law_dead_bytes_grow(
    s0: KvStore,
    key: Seq<char>,
    value: Seq<char>,
    s1: KvStore,
    r1: Result<Vec<Action>, KvError>,
    s2: KvStore,
    r2: Result<Vec<Action>, KvError>,
)
    requires
        s0.wf(),
        KvStore::set_result(s0, key, value, s1, r1),
        KvStore::remove_result(s0, key, s2, r2),
    ensures
        r1 is Ok && compacts(s0, key) ==> s1.dead_bytes() == 0,
        !(r1 is Ok && compacts(s0, key)) ==> s1.dead_bytes() >= s0.dead_bytes(),
        s2.dead_bytes() >= s0.dead_bytes(),
{
}

/// Every entry of the key directory lies in a segment of the store.
pub proof fn law_entries_have_segments(store: KvStore, key: Seq<char>)
    requires
        store.wf(),
        store.index().contains_key(key),
    ensures
        store.segment_ids().contains(store.index()[key].file_id),
        store.index()[key].file_id <= store.active_id(),
{
    assert(points_to(store.disk(), key, store.index()[key]));
}

/// Once the record of a `set` is appended, the directory replays to the key
/// directory with the key at its new entry, every entry points at its
/// record, and each key has the value that it has after the `set`.
pub proof fn lemma_set_appended(s0: KvStore, key: Seq<char>, value: Seq<char>)
    requires
        s0.wf(),
        record_of(CommandView::Put(key, value)) is Ok,
    ensures
        ({
            let record = record_of(CommandView::Put(key, value))->Ok_0;
            let append = ActionView::Append { file_id: s0.active_id(), bytes: record };
            let middle = apply(s0.disk(), append);
            let st1 = step(
                state_of(s0.key_dir(), s0.dead_bytes()),
                CommandView::Put(key, value),
                s0.next_place(record.len()),
            );
            &&& st1.wf()
            &&& st1.keys == keys_with(s0.key_dir().keys(), key)
            &&& st1.values == s0.entries_after_put(key, record.len())
            &&& st1.dead == s0.dead_after_put(key)
            &&& replay_below(middle, (s0.active_id() + 1) as nat) == Ok::<Replay, Fault>(st1)
            &&& all_point(middle, st1.index())
            &&& contents(middle, st1.index()) == s0@.insert(key, value)
            &&& forall|id: usize| middle.contains_key(id) <==> s0.disk().contains_key(id)
        }),
{
    let record = record_of(CommandView::Put(key, value))->Ok_0;
    let command = CommandView::Put(key, value);
    let fid = s0.active_id();
    let append = ActionView::Append { file_id: fid, bytes: record };
    let at = s0.next_place(record.len());
    let st0 = state_of(s0.key_dir(), s0.dead_bytes());
    lemma_record_reads_back(command);
    lemma_append_active(s0.disk(), fid, record, st0);
    let middle = apply(s0.disk(), append);
    let st1 = step(st0, command, at);
    lemma_entries_with(s0.key_dir().keys(), s0.key_dir().values(), key, at);
    assert(st1.index() == s0.index().insert(key, at));
    if s0.index().contains_key(key) {
        let i = s0.key_dir().keys().index_of(key);
        assert(s0.key_dir().keys()[i] == key);
        lemma_entries_map_at(s0.key_dir().keys(), s0.key_dir().values(), i);
    }
    assert(all_point(middle, st1.index())) by {
        assert forall|k: Seq<char>| #[trigger] st1.index().contains_key(k) implies points_to(
            middle,
            k,
            st1.index()[k],
        ) by {
            if k != key {
                assert(st0.index().contains_key(k));
            }
        }
    }
    assert(contents(middle, st1.index()) =~= s0@.insert(key, value));
}

/// A `set` whose actions stop early loses nothing.
///
/// Carry out only the first `n` actions of a successful `set`, none of them
/// a deletion. Then the directory can be opened: its replay succeeds and
/// every entry points at its record. Where nothing was carried out, the
/// replay gives the key directory and the count of dead bytes as they were
/// before the `set`; otherwise each key has the value that it has after it.
pub proof fn law_interrupted_set(
    s0: KvStore,
    key: Seq<char>,
    value: Seq<char>,
    s1: KvStore,
    res: Result<Vec<Action>, KvError>,
    n: int,
)
    requires
        s0.wf(),
        KvStore::set_result(s0, key, value, s1, res),
        res is Ok,
        0 <= n,
        n <= if compacts(s0, key) {
            3 + s0.entries_after_put(key, record_of(CommandView::Put(key, value))->Ok_0.len()).len()
        } else {
            1
        },
    ensures
        ({
            let disk = apply_all(s0.disk(), action_views(res->Ok_0@).take(n));
            &&& replay(disk) matches Ok(st) && all_point(disk, st.index()) && contents(
                disk,
                st.index(),
            ) == if n == 0 {
                s0@
            } else {
                s0@.insert(key, value)
            }
            &&& n == 0 ==> replay(disk) == Ok::<Replay, Fault>(
                state_of(s0.key_dir(), s0.dead_bytes()),
            )
        }),
{
    let acts = action_views(res->Ok_0@);
    let record = record_of(CommandView::Put(key, value))->Ok_0;
    let fid = s0.active_id();
    let append = ActionView::Append { file_id: fid, bytes: record };
    if n == 0 {
        assert(acts.take(0) =~= Seq::<ActionView>::empty());
        lemma_replay_below_skip(s0.disk(), (fid + 1) as nat, (usize::MAX + 1) as nat);
    } else if !compacts(s0, key) {
        assert(acts.take(1) =~= acts);
        lemma_replay_below_skip(s1.disk(), (fid + 1) as nat, (usize::MAX + 1) as nat);
    } else if n >= 3 {
        law_interrupted_compaction(s0, key, value, s1, res, n - 3);
    } else {
        lemma_set_appended(s0, key, value);
        let middle = apply(s0.disk(), append);
        let st1 = step(
            state_of(s0.key_dir(), s0.dead_bytes()),
            CommandView::Put(key, value),
            s0.next_place(record.len()),
        );
        lemma_apply_all_one(s0.disk(), append);
        if n == 1 {
            assert(acts.take(1) =~= seq![append]);
            lemma_replay_below_skip(middle, (fid + 1) as nat, (usize::MAX + 1) as nat);
        } else {
            let active = (fid + 2) as usize;
            let create = ActionView::Create { file_id: active };
            assert(acts.take(2) =~= seq![append].push(create));
            lemma_apply_all_push(s0.disk(), seq![append], create);
            let disk = apply(middle, create);
            assert(!middle.contains_key(active)) by {
                if middle.contains_key(active) {
                    assert(s0.disk().contains_key(active));
                }
            }
            assert(disk =~= middle.insert(active, Seq::<u8>::empty()));
            lemma_replay_below_agree(middle, disk, (fid + 1) as nat);
            lemma_replay_below_skip(disk, (fid + 1) as nat, (usize::MAX + 1) as nat);
            assert forall|k: Seq<char>| #[trigger] st1.index().contains_key(k) implies points_to(
                disk,
                k,
                st1.index()[k],
            ) && value_at(disk, st1.index()[k]) == value_at(middle, st1.index()[k]) by {
                let at = st1.index()[k];
                assert(points_to(middle, k, at));
                assert(disk[at.file_id].subrange(0, middle[at.file_id].len() as int)
                    =~= middle[at.file_id]);
                lemma_points_to_grown(middle, disk, k, at);
            }
            assert(contents(disk, st1.index()) =~= contents(middle, st1.index()));
        }
    }
}

/// A call of which no action was carried out leaves no trace: once the
/// store is settled, it is the store before the `set` or the `remove`, key
/// directory and count of dead bytes included, and nothing is to clean up.
pub proof fn law_failed_append_keeps_store(
    s0: KvStore,
    key: Seq<char>,
    value: Seq<char>,
    s1: KvStore,
    r1: Result<Vec<Action>, KvError>,
    s2: KvStore,
    r2: Result<Vec<Action>, KvError>,
    t1: KvStore,
    c1: Vec<Action>,
    t2: KvStore,
    c2: Vec<Action>,
    other: Seq<char>,
)
    requires
        s0.wf(),
        KvStore::set_result(s0, key, value, s1, r1),
        r1 is Ok,
        KvStore::settle_result(s1, 0, t1, c1),
        KvStore::remove_result(s0, key, s2, r2),
        r2 is Ok,
        KvStore::settle_result(s2, 0, t2, c2),
    ensures
        t1.wf() && t1.state() == s0.state() && action_views(c1@).len() == 0 && read(t1, other)
            == read(s0, other),
        t2.wf() && t2.state() == s0.state() && action_views(c2@).len() == 0 && read(t2, other)
            == read(s0, other),
{
    assert(s0.segment_ids().contains(s0.active_id()));
}

/// A compaction that fails before its deletions leaves the store as it was
/// before the compaction: once the store is settled, every key has the
/// value that it has after the `set`, every entry lies where it lay before
/// the compaction, in a segment that is still there, and the store writes
/// to the segment it wrote to.
pub proof fn law_failed_compaction_keeps_store(
    s0: KvStore,
    key: Seq<char>,
    value: Seq<char>,
    s1: KvStore,
    res: Result<Vec<Action>, KvError>,
    n: int,
    s2: KvStore,
    cleanup: Vec<Action>,
    other: Seq<char>,
)
    requires
        s0.wf(),
        KvStore::set_result(s0, key, value, s1, res),
        res is Ok,
        compacts(s0, key),
        1 <= n < 3 + s0.entries_after_put(
            key,
            record_of(CommandView::Put(key, value))->Ok_0.len(),
        ).len(),
        KvStore::settle_result(s1, n, s2, cleanup),
        other != key,
    ensures
        s2.wf(),
        s2@ == s0@.insert(key, value),
        read(s2, key) == Some(Ok::<Seq<char>, Fault>(value)),
        read(s2, other) == read(s0, other),
        s2.key_dir().values() == s0.entries_after_put(
            key,
            record_of(CommandView::Put(key, value))->Ok_0.len(),
        ),
        s2.active_id() == s0.active_id(),
        s2.segment_ids() == s0.segment_ids(),
        s2.dead_bytes() == s0.dead_after_put(key),
        s2.disk() == apply(
            s0.disk(),
            ActionView::Append {
                file_id: s0.active_id(),
                bytes: record_of(CommandView::Put(key, value))->Ok_0,
            },
        ),
{
    assert(s0.segment_ids().contains(s0.active_id()));
    lemma_set_appended(s0, key, value);
    law_read_is_contents(s2, key);
    law_read_is_contents(s2, other);
    law_read_is_contents(s0, other);
}

/// A compaction that stops while it copies loses nothing.
///
/// Take a `set` that compacts the store, and carry out its actions up to
/// any number of copies, but no deletion. Then every segment that was there
/// still holds what it held, the record of the `set` included, and the
/// directory can be opened: its replay succeeds, and each key has the value
/// that it has after the `set`.
pub proof fn law_interrupted_compaction(
    s0: KvStore,
    key: Seq<char>,
    value: Seq<char>,
    s1: KvStore,
    res: Result<Vec<Action>, KvError>,
    n: int,
)
    requires
        s0.wf(),
        KvStore::set_result(s0, key, value, s1, res),
        res is Ok,
        compacts(s0, key),
        0 <= n <= s0.entries_after_put(key, record_of(CommandView::Put(key, value))->Ok_0.len()).len(),
    ensures
        ({
            let record = record_of(CommandView::Put(key, value))->Ok_0;
            let append = ActionView::Append { file_id: s0.active_id(), bytes: record };
            let entries = s0.entries_after_put(key, record.len());
            let merged = (s0.active_id() + 1) as usize;
            let active = (s0.active_id() + 2) as usize;
            let done = seq![append] + creations(merged, active) + copies(entries, merged).take(n);
            let disk = apply_all(s0.disk(), done);
            &&& done == action_views(res->Ok_0@).take(3 + n)
            &&& forall|id: usize|
                s0.disk().contains_key(id) ==> disk.contains_key(id) && disk[id] == apply(
                    s0.disk(),
                    append,
                )[id]
            &&& replay(disk) matches Ok(st) && st.keys == keys_with(s0.key_dir().keys(), key)
                && contents(disk, st.index()) == s0@.insert(key, value) && all_point(
                disk,
                st.index(),
            )
        }),
{
    let record = record_of(CommandView::Put(key, value))->Ok_0;
    let command = CommandView::Put(key, value);
    let fid = s0.active_id();
    let append = ActionView::Append { file_id: fid, bytes: record };
    let at = s0.next_place(record.len());
    let keys0 = s0.key_dir().keys();
    let values0 = s0.key_dir().values();
    let keys = keys_with(keys0, key);
    let entries = s0.entries_after_put(key, record.len());
    let merged = (fid + 1) as usize;
    let active = (fid + 2) as usize;
    let st0 = state_of(s0.key_dir(), s0.dead_bytes());
    let total = entries.len() as int;
    // the directory and the replayed state once the record is appended
    lemma_set_appended(s0, key, value);
    let middle = apply(s0.disk(), append);
    let st1 = step(st0, command, at);
    lemma_entries_point(middle, keys, entries);
    // the actions that were carried out
    let start = creations(merged, active) + copies(entries, merged).take(n);
    let done = seq![append] + creations(merged, active) + copies(entries, merged).take(n);
    assert(done =~= seq![append] + start);
    lemma_apply_all_concat(s0.disk(), seq![append], start);
    lemma_apply_all_one(s0.disk(), append);
    assert(!middle.contains_key(merged) && !middle.contains_key(active)) by {
        if middle.contains_key(merged) {
            assert(s0.disk().contains_key(merged));
        }
        if middle.contains_key(active) {
            assert(s0.disk().contains_key(active));
        }
    }
    lemma_copies_applied(middle, keys, entries, merged, active, n);
    let disk = copying_disk(middle, entries, merged, active, n);
    assert(apply_all(s0.disk(), done) == disk);
    assert(done =~= action_views(res->Ok_0@).take(3 + n));
    // the replay of what is there
    lemma_size_upto_monotone(entries, n, total);
    lemma_replay_below_agree(middle, disk, (fid + 1) as nat);
    lemma_merged_replays_onto(middle, keys, entries, merged, n, st1);
    lemma_keys_with_sorted(keys0, key);
    lemma_merged_replays(middle, keys, entries, merged, n);
    let targets = moved_values(entries, merged);
    let st2 = copied_state(st1, keys, targets, n);
    assert(replay_below(disk, (merged + 1) as nat) == Ok::<Replay, Fault>(st2));
    assert(replay_below(disk, (active + 1) as nat) == Ok::<Replay, Fault>(st2));
    lemma_replay_below_skip(disk, (active + 1) as nat, (usize::MAX + 1) as nat);
    lemma_copied_state(st1, targets, n);
    assert forall|k: Seq<char>| #[trigger] st2.index().contains_key(k) implies points_to(
        disk,
        k,
        st2.index()[k],
    ) && value_at(disk, st2.index()[k]) == value_at(middle, st1.index()[k]) by {
        let i = keys.index_of(k);
        assert(keys[i] == k);
        lemma_entries_map_at(keys, entries, i);
        lemma_entries_map_at(keys, st2.values, i);
        assert(points_to(middle, k, entries[i]));
        if i < n {
            lemma_size_upto_monotone(entries, i, n);
            assert(parse_at(merged_data(middle, entries, n), size_upto(entries, i)) == parse_at(
                middle[entries[i].file_id],
                entries[i].start_index as int,
            ));
        }
    }
    assert(contents(disk, st2.index()) =~= contents(middle, st1.index()));
}

} // verus!
