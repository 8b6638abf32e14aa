use crate::action::{
    action_views, apply, apply_all, lemma_apply_all_concat, lemma_apply_all_one,
    lemma_apply_all_push, segment, Action, ActionView,
};
use crate::error::Fault;
use crate::keydir::{
    entries_map, lemma_entries_map_at, lemma_rank_unique, lemma_size_upto_monotone, live_size,
    size_upto, KeyDir, KeyDirValue,
};
use crate::order::{key_less, lemma_sorted_no_duplicates, sorted};
use crate::record::{lemma_parse_bounds, lemma_parse_local, parse_at, CommandView};
use crate::replay::{
    all_point, contents, empty_replay, lemma_replay_append, lemma_replay_below_skip, place,
    points_to, replay_below, replay_from, step, value_at, Disk, Replay,
};
use vstd::prelude::*;

verus! {

/// The bytes of the record that `at` points at.
pub open spec fn chunk(disk: Disk, at: KeyDirValue) -> Seq<u8> {
    segment(disk, at.file_id).subrange(at.start_index as int, at.start_index + at.value_size)
}

/// The merged segment once the first `n` records of `values` are copied into
/// it, one behind the other.
pub open spec fn merged_data(disk: Disk, values: Seq<KeyDirValue>, n: int) -> Seq<u8>
    decreases n,
{
    if n <= 0 {
        Seq::empty()
    } else {
        merged_data(disk, values, n - 1) + chunk(disk, values[n - 1])
    }
}

/// The entry of the record at place `i` once it lies in the merged segment:
/// behind the records before it, with its length unchanged.
pub open spec fn moved(values: Seq<KeyDirValue>, merged: usize, i: int) -> KeyDirValue {
    KeyDirValue {
        file_id: merged,
        value_size: values[i].value_size,
        start_index: size_upto(values, i) as u64,
    }
}

/// The entries of the directory after compaction into segment `merged`.
pub open spec fn moved_values(values: Seq<KeyDirValue>, merged: usize) -> Seq<KeyDirValue> {
    Seq::new(values.len(), |i: int| moved(values, merged, i))
}

/// The action that copies the record at `at` to the end of segment `merged`.
pub open spec fn copy_of(at: KeyDirValue, merged: usize) -> ActionView {
    ActionView::CopyRange {
        from: at.file_id,
        start: at.start_index,
        len: at.value_size,
        to: merged,
    }
}

/// One copy for each live record, in the directory's order.
pub open spec fn copies(values: Seq<KeyDirValue>, merged: usize) -> Seq<ActionView> {
    Seq::new(values.len(), |i: int| copy_of(values[i], merged))
}

/// One deletion for each segment of `ids`, in their order.
pub open spec fn deletions(ids: Seq<usize>) -> Seq<ActionView> {
    Seq::new(ids.len(), |i: int| ActionView::Delete { file_id: ids[i] })
}

/// The two segments that a compaction creates: the one that takes the writes
/// from now on, then the one that takes the live records.
pub open spec fn creations(merged: usize, active: usize) -> Seq<ActionView> {
    seq![ActionView::Create { file_id: active }, ActionView::Create { file_id: merged }]
}

/// The actions of a compaction: create both segments, copy every live
/// record, and only then delete the segments that were there before.
pub open spec fn compaction_actions(
    values: Seq<KeyDirValue>,
    ids: Seq<usize>,
    merged: usize,
    active: usize,
) -> Seq<ActionView> {
    creations(merged, active) + copies(values, merged) + deletions(ids)
}

/// The directory after a compaction: the merged segment and an empty segment
/// for the writes, and nothing else.
pub open spec fn compacted_disk(
    disk: Disk,
    values: Seq<KeyDirValue>,
    merged: usize,
    active: usize,
) -> Disk {
    Map::<usize, Seq<u8>>::empty().insert(
        merged,
        merged_data(disk, values, values.len() as int),
    ).insert(active, Seq::empty())
}

/// The directory while a compaction is under way: both new segments are
/// there, the first `n` live records are copied, nothing is deleted.
pub open spec fn copying_disk(
    disk: Disk,
    values: Seq<KeyDirValue>,
    merged: usize,
    active: usize,
    n: int,
) -> Disk {
    disk.insert(active, Seq::empty()).insert(merged, merged_data(disk, values, n))
}

/// Each entry of the list points at a `Put` record of the key at its place.
pub open spec fn entries_point(disk: Disk, keys: Seq<Seq<char>>, values: Seq<KeyDirValue>) -> bool {
    forall|i: int| 0 <= i < keys.len() ==> points_to(disk, #[trigger] keys[i], values[i])
}

/// In a directory whose every entry points at its record, so does the entry
/// at each place.
pub proof fn lemma_entries_point(disk: Disk, keys: Seq<Seq<char>>, values: Seq<KeyDirValue>)
    requires
        keys.no_duplicates(),
        keys.len() == values.len(),
        all_point(disk, entries_map(keys, values)),
    ensures
        entries_point(disk, keys, values),
{
    assert forall|i: int| 0 <= i < keys.len() implies points_to(
        disk,
        #[trigger] keys[i],
        values[i],
    ) by {
        lemma_entries_map_at(keys, values, i);
    }
}

/// The merged segment replays to the moved entries, with nothing dead, and
/// holds each copied record as it was.
pub proof fn lemma_merged_replays(
    disk: Disk,
    keys: Seq<Seq<char>>,
    values: Seq<KeyDirValue>,
    merged: usize,
    n: int,
)
    requires
        sorted(keys),
        keys.len() == values.len(),
        0 <= n <= keys.len(),
        entries_point(disk, keys, values),
        size_upto(values, n) <= u64::MAX,
    ensures
        merged_data(disk, values, n).len() == size_upto(values, n),
        replay_from(merged_data(disk, values, n), merged, 0, empty_replay()) == Ok::<
            Replay,
            Fault,
        >(
            Replay { keys: keys.take(n), values: moved_values(values, merged).take(n), dead: 0 },
        ),
        forall|j: int|
            0 <= j < n ==> #[trigger] parse_at(
                merged_data(disk, values, n),
                size_upto(values, j),
            ) == parse_at(disk[values[j].file_id], values[j].start_index as int),
    decreases n,
{
    let targets = moved_values(values, merged);
    if n == 0 {
        assert(keys.take(0) =~= Seq::<Seq<char>>::empty());
        assert(targets.take(0) =~= Seq::<KeyDirValue>::empty());
    } else {
        lemma_size_upto_monotone(values, n - 1, n);
        lemma_merged_replays(disk, keys, values, merged, n - 1);
        let prev = merged_data(disk, values, n - 1);
        let at = values[n - 1];
        let k = keys[n - 1];
        assert(points_to(disk, k, at));
        let data = disk[at.file_id];
        let p = at.start_index as int;
        lemma_parse_bounds(data, p);
        let (command, len) = parse_at(data, p)->Ok_0;
        let piece = chunk(disk, at);
        assert(piece.len() == len);
        assert(piece.subrange(0, len as int) =~= data.subrange(p, p + len));
        lemma_parse_local(data, p, piece, 0);
        lemma_replay_append(prev, piece, merged, 0, empty_replay());
        let before = Replay { keys: keys.take(n - 1), values: targets.take(n - 1), dead: 0 };
        let new_at = place(merged, prev.len() as int, piece.len());
        assert(new_at == moved(values, merged, n - 1));
        lemma_sorted_no_duplicates(keys);
        assert(!keys.take(n - 1).contains(k)) by {
            if keys.take(n - 1).contains(k) {
                let j = keys.take(n - 1).index_of(k);
                assert(keys.take(n - 1)[j] == k);
                assert(keys[j] == k);
            }
        }
        assert(keys.take(n) =~= keys.take(n - 1).push(k));
        assert(targets.take(n) =~= targets.take(n - 1).push(new_at));
        let front = keys.take(n - 1);
        assert(sorted(front)) by {
            assert forall|i: int, j: int| 0 <= i < j < front.len() implies key_less(
                front[i],
                front[j],
            ) by {
                assert(key_less(keys[i], keys[j]));
            }
        }
        assert forall|j: int| 0 <= j < front.len() implies key_less(front[j], k) by {
            assert(key_less(keys[j], keys[n - 1]));
        }
        lemma_rank_unique(keys.take(n - 1), k, n - 1);
        assert(keys.take(n - 1).insert(n - 1, k) =~= keys.take(n - 1).push(k));
        assert(targets.take(n - 1).insert(n - 1, new_at) =~= targets.take(n - 1).push(new_at));
        assert(step(before, command, new_at) == Replay {
            keys: keys.take(n),
            values: targets.take(n),
            dead: 0,
        });
        assert forall|j: int| 0 <= j < n implies #[trigger] parse_at(
            merged_data(disk, values, n),
            size_upto(values, j),
        ) == parse_at(disk[values[j].file_id], values[j].start_index as int) by {
            if j < n - 1 {
                assert(points_to(disk, keys[j], values[j]));
                let from = size_upto(values, j);
                lemma_size_upto_monotone(values, j, n - 1);
                lemma_parse_bounds(disk[values[j].file_id], values[j].start_index as int);
                lemma_parse_bounds(prev, from);
                let l = parse_at(prev, from)->Ok_0.1 as int;
                assert((prev + piece).subrange(from, from + l) =~= prev.subrange(from, from + l));
                lemma_parse_local(prev, from, prev + piece, from);
            }
        }
    }
}

/// The replayed state after the first `n` copied records are replayed onto
/// `st`: each key among them points at the copy of its record.
pub open spec fn copied_state(
    st: Replay,
    keys: Seq<Seq<char>>,
    targets: Seq<KeyDirValue>,
    n: int,
) -> Replay
    decreases n,
{
    if n <= 0 {
        st
    } else {
        step(
            copied_state(st, keys, targets, n - 1),
            CommandView::Put(keys[n - 1], Seq::empty()),
            targets[n - 1],
        )
    }
}

/// Replaying the first `n` copied records onto a state that holds their
/// keys keeps the keys as they stand, and gives each of the first `n` keys
/// the entry of its copy.
pub proof fn lemma_copied_state(st: Replay, targets: Seq<KeyDirValue>, n: int)
    requires
        st.wf(),
        st.keys.len() == targets.len(),
        0 <= n <= st.keys.len(),
    ensures
        copied_state(st, st.keys, targets, n).keys == st.keys,
        copied_state(st, st.keys, targets, n).values == Seq::new(
            st.keys.len(),
            |i: int|
                if i < n {
                    targets[i]
                } else {
                    st.values[i]
                },
        ),
    decreases n,
{
    let keys = st.keys;
    if n > 0 {
        lemma_copied_state(st, targets, n - 1);
        let prev = copied_state(st, keys, targets, n - 1);
        lemma_entries_map_at(keys, prev.values, n - 1);
        assert(copied_state(st, keys, targets, n).values =~= Seq::new(
            keys.len(),
            |i: int|
                if i < n {
                    targets[i]
                } else {
                    st.values[i]
                },
        ));
    } else {
        assert(st.values =~= Seq::new(
            keys.len(),
            |i: int|
                if i < 0 {
                    targets[i]
                } else {
                    st.values[i]
                },
        ));
    }
}

/// The merged segment, replayed onto any state, gives that state with the
/// copied records replayed onto it.
pub proof fn lemma_merged_replays_onto(
    disk: Disk,
    keys: Seq<Seq<char>>,
    values: Seq<KeyDirValue>,
    merged: usize,
    n: int,
    st: Replay,
)
    requires
        keys.len() == values.len(),
        0 <= n <= keys.len(),
        entries_point(disk, keys, values),
        size_upto(values, n) <= u64::MAX,
    ensures
        merged_data(disk, values, n).len() == size_upto(values, n),
        replay_from(merged_data(disk, values, n), merged, 0, st) == Ok::<Replay, Fault>(
            copied_state(st, keys, moved_values(values, merged), n),
        ),
    decreases n,
{
    if n > 0 {
        lemma_size_upto_monotone(values, n - 1, n);
        lemma_merged_replays_onto(disk, keys, values, merged, n - 1, st);
        let prev = merged_data(disk, values, n - 1);
        let at = values[n - 1];
        assert(points_to(disk, keys[n - 1], at));
        let data = disk[at.file_id];
        let p = at.start_index as int;
        lemma_parse_bounds(data, p);
        let (command, len) = parse_at(data, p)->Ok_0;
        let piece = chunk(disk, at);
        assert(piece.len() == len);
        assert(piece.subrange(0, len as int) =~= data.subrange(p, p + len));
        lemma_parse_local(data, p, piece, 0);
        lemma_replay_append(prev, piece, merged, 0, st);
        let new_at = place(merged, prev.len() as int, piece.len());
        assert(new_at == moved(values, merged, n - 1));
        let before = copied_state(st, keys, moved_values(values, merged), n - 1);
        assert(step(before, command, new_at) == step(
            before,
            CommandView::Put(keys[n - 1], Seq::empty()),
            new_at,
        ));
    }
}

/// The directory after the creations and the first `n` copies.
pub proof fn lemma_copies_applied(
    disk: Disk,
    keys: Seq<Seq<char>>,
    values: Seq<KeyDirValue>,
    merged: usize,
    active: usize,
    n: int,
)
    requires
        keys.len() == values.len(),
        0 <= n <= values.len(),
        entries_point(disk, keys, values),
        !disk.contains_key(merged),
        !disk.contains_key(active),
        merged != active,
    ensures
        apply_all(disk, creations(merged, active) + copies(values, merged).take(n))
            == copying_disk(disk, values, merged, active, n),
    decreases n,
{
    let all = copies(values, merged);
    if n == 0 {
        let first = ActionView::Create { file_id: active };
        let second = ActionView::Create { file_id: merged };
        lemma_apply_all_one(disk, first);
        lemma_apply_all_push(disk, seq![first], second);
        assert(seq![first].push(second) =~= creations(merged, active));
        assert(creations(merged, active) + all.take(0) =~= creations(merged, active));
        assert(apply(apply(disk, first), second) =~= copying_disk(disk, values, merged, active, 0));
    } else {
        lemma_copies_applied(disk, keys, values, merged, active, n - 1);
        let before = creations(merged, active) + all.take(n - 1);
        assert(creations(merged, active) + all.take(n) =~= before.push(all[n - 1]));
        lemma_apply_all_push(disk, before, all[n - 1]);
        let d = copying_disk(disk, values, merged, active, n - 1);
        let at = values[n - 1];
        assert(points_to(disk, keys[n - 1], at));
        lemma_parse_bounds(disk[at.file_id], at.start_index as int);
        assert(segment(d, at.file_id) == disk[at.file_id]);
        assert(apply(d, all[n - 1]) =~= copying_disk(disk, values, merged, active, n));
    }
}

/// The directory after the first `n` deletions: the segments that none of
/// them names.
pub proof fn lemma_deletions_applied(disk: Disk, ids: Seq<usize>, n: int)
    requires
        0 <= n <= ids.len(),
    ensures
        apply_all(disk, deletions(ids).take(n)) == Map::new(
            |id: usize| disk.contains_key(id) && !ids.take(n).contains(id),
            |id: usize| disk[id],
        ),
    decreases n,
{
    let all = deletions(ids);
    if n == 0 {
        assert(all.take(0) =~= Seq::<ActionView>::empty());
        assert(disk =~= Map::new(
            |id: usize| disk.contains_key(id) && !ids.take(0).contains(id),
            |id: usize| disk[id],
        ));
    } else {
        lemma_deletions_applied(disk, ids, n - 1);
        assert(all.take(n) =~= all.take(n - 1).push(all[n - 1]));
        lemma_apply_all_push(disk, all.take(n - 1), all[n - 1]);
        let before = Map::new(
            |id: usize| disk.contains_key(id) && !ids.take(n - 1).contains(id),
            |id: usize| disk[id],
        );
        let after = Map::new(
            |id: usize| disk.contains_key(id) && !ids.take(n).contains(id),
            |id: usize| disk[id],
        );
        assert(ids.take(n) =~= ids.take(n - 1).push(ids[n - 1]));
        assert forall|id: usize| ids.take(n).contains(id) <==> ids.take(n - 1).contains(id) || id
            == ids[n - 1] by {
            if ids.take(n - 1).contains(id) {
                let j = ids.take(n - 1).index_of(id);
                assert(ids.take(n)[j] == id);
            }
            if id == ids[n - 1] {
                assert(ids.take(n)[n - 1] == id);
            }
            if ids.take(n).contains(id) {
                let j = ids.take(n).index_of(id);
                if j < n - 1 {
                    assert(ids.take(n - 1)[j] == id);
                }
            }
        }
        assert(before.remove(ids[n - 1]) =~= after);
    }
}

/// What a compaction comes to: the actions lead to the compacted directory,
/// which replays to the moved entries with nothing dead, and every key has
/// the value it had.
pub proof fn lemma_compaction(
    disk: Disk,
    keys: Seq<Seq<char>>,
    values: Seq<KeyDirValue>,
    ids: Seq<usize>,
    merged: usize,
    active: usize,
)
    requires
        sorted(keys),
        keys.len() == values.len(),
        all_point(disk, entries_map(keys, values)),
        live_size(values) <= u64::MAX,
        forall|id: usize| disk.contains_key(id) ==> id < merged,
        forall|id: usize| ids.contains(id) <==> disk.contains_key(id),
        active == merged + 1,
    ensures
        apply_all(disk, compaction_actions(values, ids, merged, active)) == compacted_disk(
            disk,
            values,
            merged,
            active,
        ),
        replay_below(compacted_disk(disk, values, merged, active), (active + 1) as nat) == Ok::<
            Replay,
            Fault,
        >(Replay { keys, values: moved_values(values, merged), dead: 0 }),
        all_point(
            compacted_disk(disk, values, merged, active),
            entries_map(keys, moved_values(values, merged)),
        ),
        contents(
            compacted_disk(disk, values, merged, active),
            entries_map(keys, moved_values(values, merged)),
        ) == contents(disk, entries_map(keys, values)),
        compacted_disk(disk, values, merged, active)[merged].len() <= u64::MAX,
{
    let n = values.len() as int;
    let after = compacted_disk(disk, values, merged, active);
    let targets = moved_values(values, merged);
    let index = entries_map(keys, targets);
    lemma_sorted_no_duplicates(keys);
    lemma_entries_point(disk, keys, values);
    lemma_merged_replays(disk, keys, values, merged, n);
    assert(keys.take(n) =~= keys);
    assert(targets.take(n) =~= targets);
    // the actions
    lemma_copies_applied(disk, keys, values, merged, active, n);
    assert(copies(values, merged).take(n) =~= copies(values, merged));
    let during = copying_disk(disk, values, merged, active, n);
    lemma_apply_all_concat(disk, creations(merged, active) + copies(values, merged), deletions(ids));
    lemma_deletions_applied(during, ids, ids.len() as int);
    assert(deletions(ids).take(ids.len() as int) =~= deletions(ids));
    assert(ids.take(ids.len() as int) =~= ids);
    assert(after =~= Map::new(
        |id: usize| during.contains_key(id) && !ids.contains(id),
        |id: usize| during[id],
    ));
    // the replay
    lemma_replay_below_skip(after, 0, merged as nat);
    assert(replay_below(after, merged as nat) == Ok::<Replay, Fault>(empty_replay()));
    assert(replay_below(after, (merged + 1) as nat) == Ok::<Replay, Fault>(
        Replay { keys, values: targets, dead: 0 },
    ));
    // the entries
    assert forall|k: Seq<char>| #[trigger] index.contains_key(k) implies points_to(
        after,
        k,
        index[k],
    ) && value_at(after, index[k]) == value_at(disk, entries_map(keys, values)[k]) by {
        let i = keys.index_of(k);
        assert(keys[i] == k);
        lemma_entries_map_at(keys, targets, i);
        lemma_entries_map_at(keys, values, i);
        lemma_size_upto_monotone(values, i, n);
        assert(points_to(disk, keys[i], values[i]));
        assert(parse_at(merged_data(disk, values, n), size_upto(values, i)) == parse_at(
            disk[values[i].file_id],
            values[i].start_index as int,
        ));
    }
    assert(contents(after, index) =~= contents(disk, entries_map(keys, values)));
}

/// Rewrites every entry to its place in segment `merged` and adds the copy
/// that brings its record there.
pub(crate) fn move_entries(key_dir: &mut KeyDir, merged: usize, actions: &mut Vec<Action>)
    requires
        old(key_dir).wf(),
        live_size(old(key_dir).values()) <= u64::MAX,
    ensures
        final(key_dir).wf(),
        final(key_dir).keys() == old(key_dir).keys(),
        final(key_dir).values() == moved_values(old(key_dir).values(), merged),
        action_views(final(actions)@) == action_views(old(actions)@) + copies(
            old(key_dir).values(),
            merged,
        ),
{
    let ghost values = key_dir.values();
    let ghost given = action_views(actions@);
    let n = key_dir.len();
    let mut offset: u64 = 0;
    let mut i: usize = 0;
    assert(action_views(actions@) =~= given + copies(values, merged).take(0));
    while i < n
        invariant
            key_dir.wf(),
            key_dir.keys() == old(key_dir).keys(),
            values == old(key_dir).values(),
            given == action_views(old(actions)@),
            n == values.len(),
            i <= n,
            live_size(values) <= u64::MAX,
            offset == size_upto(values, i as int),
            key_dir.values().len() == n,
            forall|j: int| 0 <= j < i ==> key_dir.values()[j] == moved(values, merged, j),
            forall|j: int| i <= j < n ==> key_dir.values()[j] == values[j],
            action_views(actions@) == given + copies(values, merged).take(i as int),
        decreases n - i,
    {
        let entry = key_dir.value_at(i);
        proof {
            lemma_size_upto_monotone(values, i + 1, n as int);
        }
        let ghost so_far = action_views(actions@);
        actions.push(
            Action::CopyRange {
                from: entry.file_id,
                start: entry.start_index,
                len: entry.value_size,
                to: merged,
            },
        );
        assert(action_views(actions@) =~= so_far.push(copy_of(entry, merged)));
        assert(given + copies(values, merged).take(i + 1) =~= (given + copies(values, merged).take(
            i as int,
        )).push(copy_of(entry, merged)));
        key_dir.set_value_at(
            i,
            KeyDirValue { file_id: merged, value_size: entry.value_size, start_index: offset },
        );
        offset = offset + entry.value_size as u64;
        i += 1;
    }
    assert(key_dir.values() =~= moved_values(values, merged));
    assert(copies(values, merged).take(n as int) =~= copies(values, merged));
}

/// Adds one deletion for each of `readers`.
pub(crate) fn delete_all(readers: &Vec<usize>, actions: &mut Vec<Action>)
    ensures
        action_views(final(actions)@) == action_views(old(actions)@) + deletions(readers@),
{
    let ghost given = action_views(actions@);
    let mut i: usize = 0;
    assert(action_views(actions@) =~= given + deletions(readers@).take(0));
    while i < readers.len()
        invariant
            i <= readers.len(),
            given == action_views(old(actions)@),
            action_views(actions@) == given + deletions(readers@).take(i as int),
        decreases readers.len() - i,
    {
        let ghost so_far = action_views(actions@);
        actions.push(Action::Delete { file_id: readers[i] });
        assert(action_views(actions@) =~= so_far.push(
            ActionView::Delete { file_id: readers[i as int] },
        ));
        assert(given + deletions(readers@).take(i + 1) =~= (given + deletions(readers@).take(
            i as int,
        )).push(ActionView::Delete { file_id: readers[i as int] }));
        i += 1;
    }
    assert(deletions(readers@).take(readers.len() as int) =~= deletions(readers@));
}

} // verus!
