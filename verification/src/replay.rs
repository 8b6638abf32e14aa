use crate::error::{Fault, KvError};
use crate::keydir::{keys_with, values_with, entries_map, KeyDir, KeyDirValue};
use crate::record::{
    decode_at, lemma_parse_bounds, lemma_parse_local, parse_at, Command, CommandView,
};
use vstd::prelude::*;

verus! {

/// A directory of segments as the contracts see it: the bytes of each
/// segment, by its identifier.
pub type Disk = Map<usize, Seq<u8>>;

/// One segment file: its identifier and the bytes in it.
#[derive(Debug)]
pub struct Segment {
    pub file_id: usize,
    pub data: Vec<u8>,
}

/// What replaying a log gives: the keys that are live, in ascending order,
/// the entry of each, and the count of dead bytes.
pub struct Replay {
    pub keys: Seq<Seq<char>>,
    pub values: Seq<KeyDirValue>,
    pub dead: usize,
}

impl Replay {
    /// Every key has one entry and stands once.
    pub open spec fn wf(self) -> bool {
        &&& self.keys.len() == self.values.len()
        &&& self.keys.no_duplicates()
    }

    /// The replayed key directory as a map from key to entry.
    pub open spec fn index(self) -> Map<Seq<char>, KeyDirValue> {
        entries_map(self.keys, self.values)
    }
}

/// The state before any record is replayed.
pub open spec fn empty_replay() -> Replay {
    Replay { keys: Seq::empty(), values: Seq::empty(), dead: 0 }
}

/// The replayed state that a key directory and a count of dead bytes make.
pub open spec fn state_of(key_dir: KeyDir, dead: usize) -> Replay {
    Replay { keys: key_dir.keys(), values: key_dir.values(), dead }
}

/// `a + b`, held at `usize::MAX`.
pub open spec fn sat_add(a: usize, b: usize) -> usize {
    if a + b > usize::MAX {
        usize::MAX
    } else {
        (a + b) as usize
    }
}

/// The place of a record of `len` bytes that starts at `pos` in segment `id`.
pub open spec fn place(id: usize, pos: int, len: nat) -> KeyDirValue {
    KeyDirValue { file_id: id, value_size: len as usize, start_index: pos as u64 }
}

/// The effect of one record, found at `at`, on the replayed state.
///
/// A `Put` makes `at` the entry of its key, in the place of the entry that
/// the key had or, for a key that was not live, where the key belongs in the
/// order of the keys; the record
/// that the key had before is dead. A `Remove` of a live key takes the key
/// out; the record that the key had and the `Remove` record itself are dead.
/// A `Remove` of a key that is not live changes nothing.
pub open spec fn step(st: Replay, command: CommandView, at: KeyDirValue) -> Replay {
    match command {
        CommandView::Put(k, _) => Replay {
            keys: keys_with(st.keys, k),
            values: values_with(st.keys, st.values, k, at),
            dead: if st.keys.contains(k) {
                sat_add(st.dead, st.values[st.keys.index_of(k)].value_size)
            } else {
                st.dead
            },
        },
        CommandView::Remove(k) => if st.keys.contains(k) {
            Replay {
                keys: st.keys.remove(st.keys.index_of(k)),
                values: st.values.remove(st.keys.index_of(k)),
                dead: sat_add(
                    sat_add(st.dead, st.values[st.keys.index_of(k)].value_size),
                    at.value_size,
                ),
            }
        } else {
            st
        },
    }
}

/// Replays the records of segment `id` from `pos` on, in file order. The
/// first record that does not parse stops the replay with its fault.
pub open spec fn replay_from(data: Seq<u8>, id: usize, pos: int, st: Replay) -> Result<
    Replay,
    Fault,
>
    decreases data.len() - pos,
{
    if pos < 0 || pos >= data.len() {
        Ok(st)
    } else {
        match parse_at(data, pos) {
            Err(fault) => Err(fault),
            Ok((command, len)) => if len > 0 && pos + len <= data.len() {
                replay_from(data, id, pos + len, step(st, command, place(id, pos, len)))
            } else {
                Err(Fault::Frame)
            },
        }
    }
}

/// Replays every segment with an identifier below `bound`, in ascending
/// order of identifier.
pub open spec fn replay_below(disk: Disk, bound: nat) -> Result<Replay, Fault>
    decreases bound,
{
    if bound == 0 {
        Ok(empty_replay())
    } else {
        match replay_below(disk, (bound - 1) as nat) {
            Err(fault) => Err(fault),
            Ok(st) => {
                let id = (bound - 1) as usize;
                if disk.contains_key(id) {
                    replay_from(disk[id], id, 0, st)
                } else {
                    Ok(st)
                }
            },
        }
    }
}

/// Replays the whole directory.
pub open spec fn replay(disk: Disk) -> Result<Replay, Fault> {
    replay_below(disk, (usize::MAX + 1) as nat)
}

/// The entry `at` of `key` points at a `Put` record of that key on `disk`.
pub open spec fn points_to(disk: Disk, key: Seq<char>, at: KeyDirValue) -> bool {
    &&& disk.contains_key(at.file_id)
    &&& parse_at(disk[at.file_id], at.start_index as int) matches Ok((command, len))
    &&& command is Put
    &&& command.key() == key
    &&& len == at.value_size
}

/// Every entry of `index` points at a `Put` record of its key.
pub open spec fn all_point(disk: Disk, index: Map<Seq<char>, KeyDirValue>) -> bool {
    forall|k: Seq<char>| #[trigger] index.contains_key(k) ==> points_to(disk, k, index[k])
}

/// The value in the record at `at`.
pub open spec fn value_at(disk: Disk, at: KeyDirValue) -> Seq<char> {
    match parse_at(disk[at.file_id], at.start_index as int) {
        Ok((CommandView::Put(_, v), _)) => v,
        _ => Seq::empty(),
    }
}

/// What the store holds: for each live key, the value in the record that its
/// entry points at.
pub open spec fn contents(disk: Disk, index: Map<Seq<char>, KeyDirValue>) -> Map<
    Seq<char>,
    Seq<char>,
> {
    Map::new(|k: Seq<char>| index.contains_key(k), |k: Seq<char>| value_at(disk, index[k]))
}

/// Appending a record to a segment that replays adds that record's step.
pub proof fn lemma_replay_append(
    data: Seq<u8>,
    record: Seq<u8>,
    id: usize,
    pos: int,
    st: Replay,
)
    requires
        0 <= pos <= data.len(),
        replay_from(data, id, pos, st) is Ok,
        parse_at(record, 0) is Ok,
        parse_at(record, 0)->Ok_0.1 == record.len(),
        record.len() > 0,
    ensures
        parse_at(data + record, data.len() as int) == parse_at(record, 0),
        replay_from(data + record, id, pos, st) == Ok::<Replay, Fault>(
            step(
                replay_from(data, id, pos, st)->Ok_0,
                parse_at(record, 0)->Ok_0.0,
                place(id, data.len() as int, record.len()),
            ),
        ),
    decreases data.len() - pos,
{
    let whole = data + record;
    assert(whole.subrange(data.len() as int, (data.len() + record.len()) as int) =~= record.subrange(
        0,
        record.len() as int,
    ));
    lemma_parse_local(record, 0, whole, data.len() as int);
    if pos == data.len() {
        let after = step(st, parse_at(record, 0)->Ok_0.0, place(id, pos, record.len()));
        assert(replay_from(whole, id, pos + record.len(), after) == Ok::<Replay, Fault>(after));
    } else {
        lemma_parse_bounds(data, pos);
        let (command, len) = parse_at(data, pos)->Ok_0;
        assert(whole.subrange(pos, pos + len) =~= data.subrange(pos, pos + len));
        lemma_parse_local(data, pos, whole, pos);
        lemma_replay_append(data, record, id, pos + len, step(st, command, place(id, pos, len)));
    }
}

/// Two directories that hold the same segments below `bound` replay alike
/// below `bound`.
pub proof fn lemma_replay_below_agree(a: Disk, b: Disk, bound: nat)
    requires
        bound <= usize::MAX + 1,
        forall|id: usize|
            #![trigger a.contains_key(id)]
            #![trigger b.contains_key(id)]
            id < bound ==> (a.contains_key(id) <==> b.contains_key(id)) && (a.contains_key(id)
                ==> a[id] == b[id]),
    ensures
        replay_below(a, bound) == replay_below(b, bound),
    decreases bound,
{
    if bound > 0 {
        lemma_replay_below_agree(a, b, (bound - 1) as nat);
    }
}

/// Segments that are absent or empty add nothing to a replay.
pub proof fn lemma_replay_below_skip(disk: Disk, lo: nat, hi: nat)
    requires
        lo <= hi <= usize::MAX + 1,
        forall|id: usize| lo <= id < hi && disk.contains_key(id) ==> disk[id].len() == 0,
    ensures
        replay_below(disk, hi) == replay_below(disk, lo),
    decreases hi - lo,
{
    if lo < hi {
        lemma_replay_below_skip(disk, lo, (hi - 1) as nat);
    }
}

/// Entries that point into segments which stay as they are, or only grow at
/// their end, still point at their records.
pub proof fn lemma_points_to_grown(a: Disk, b: Disk, key: Seq<char>, at: KeyDirValue)
    requires
        points_to(a, key, at),
        b.contains_key(at.file_id),
        a[at.file_id].len() <= b[at.file_id].len(),
        b[at.file_id].subrange(0, a[at.file_id].len() as int) == a[at.file_id],
    ensures
        points_to(b, key, at),
        value_at(b, at) == value_at(a, at),
{
    let da = a[at.file_id];
    let db = b[at.file_id];
    let p = at.start_index as int;
    lemma_parse_bounds(da, p);
    let len = parse_at(da, p)->Ok_0.1 as int;
    assert(db.subrange(p, p + len) =~= db.subrange(0, da.len() as int).subrange(p, p + len));
    lemma_parse_local(da, p, db, p);
}

/// Each identifier of the list is above those before it.
pub open spec fn ascending(ids: Seq<usize>) -> bool {
    forall|i: int, j: int| 0 <= i < j < ids.len() ==> ids[i] < ids[j]
}

/// An identifier above all of an ascending list, put behind them, keeps the
/// list ascending and adds nothing but itself.
pub proof fn lemma_push_id(ids: Seq<usize>, id: usize)
    requires
        ascending(ids),
        forall|i: int| 0 <= i < ids.len() ==> ids[i] < id,
    ensures
        ascending(ids.push(id)),
        ids.push(id).no_duplicates(),
        forall|other: usize| ids.push(id).contains(other) <==> ids.contains(other) || other == id,
{
    let more = ids.push(id);
    assert forall|other: usize| more.contains(other) <==> ids.contains(other) || other
        == id by {
        if more.contains(other) {
            let j = choose|j: int| 0 <= j < more.len() && more[j] == other;
            if j < ids.len() {
                assert(ids[j] == other);
            }
        }
        if ids.contains(other) {
            let j = choose|j: int| 0 <= j < ids.len() && ids[j] == other;
            assert(more[j] == other);
        }
        if other == id {
            assert(more[ids.len() as int] == other);
        }
    }
}

/// No two segments share an identifier.
pub open spec fn distinct_ids(segments: Seq<Segment>) -> bool {
    forall|i: int, j: int|
        0 <= i < j < segments.len() ==> segments[i].file_id != segments[j].file_id
}

/// Whether some segment of the list has the identifier `id`.
pub open spec fn has_id(segments: Seq<Segment>, id: usize) -> bool {
    exists|i: int| 0 <= i < segments.len() && #[trigger] segments[i].file_id == id
}

/// The directory that a list of segments describes.
pub open spec fn disk_of(segments: Seq<Segment>) -> Disk {
    Map::new(
        |id: usize| has_id(segments, id),
        |id: usize|
            segments[choose|i: int| 0 <= i < segments.len() && #[trigger] segments[i].file_id == id].data@,
    )
}

/// In a list without a repeated identifier, each segment is the one that
/// the directory holds under its identifier.
pub proof fn lemma_disk_of_at(segments: Seq<Segment>, i: int)
    requires
        distinct_ids(segments),
        0 <= i < segments.len(),
    ensures
        disk_of(segments).contains_key(segments[i].file_id),
        disk_of(segments)[segments[i].file_id] == segments[i].data@,
{
    let id = segments[i].file_id;
    assert(has_id(segments, id));
    let j = choose|j: int| 0 <= j < segments.len() && #[trigger] segments[j].file_id == id;
    assert(j == i);
}

/// What a replay of a directory yields for a store to start from.
pub struct Replayed {
    /// The identifier of the segment that will take the writes: one above
    /// the highest that was found, or 0 where none was found.
    pub file_id: usize,
    /// The identifiers that were found, in ascending order. A directory
    /// without a segment is started with segment 0: there it is the one
    /// identifier of the list.
    pub readers: Vec<usize>,
    /// The key directory after the last record.
    pub key_dir: KeyDir,
    /// The dead bytes counted on the way.
    pub uncompacted: usize,
}

/// Whether no two segments of the list share an identifier.
fn has_distinct_ids(segments: &Vec<Segment>) -> (distinct: bool)
    ensures
        distinct == distinct_ids(segments@),
{
    let mut j: usize = 0;
    while j < segments.len()
        invariant
            j <= segments.len(),
            forall|a: int, b: int| 0 <= a < b < j ==> segments[a].file_id != segments[b].file_id,
        decreases segments.len() - j,
    {
        let mut i: usize = 0;
        while i < j
            invariant
                i <= j < segments.len(),
                forall|a: int| 0 <= a < i ==> segments[a].file_id != segments[j as int].file_id,
            decreases j - i,
        {
            if segments[i].file_id == segments[j].file_id {
                return false;
            }
            i += 1;
        }
        j += 1;
    }
    true
}

/// The place in the list of the segment with the least identifier that is at
/// least `lo`.
fn next_segment(segments: &Vec<Segment>, lo: usize) -> (found: Option<usize>)
    ensures
        match found {
            Some(i) => {
                &&& i < segments.len()
                &&& segments[i as int].file_id >= lo
                &&& forall|j: int|
                    0 <= j < segments.len() && segments[j].file_id >= lo ==> segments[j].file_id
                        >= segments[i as int].file_id
            },
            None => forall|j: int| 0 <= j < segments.len() ==> segments[j].file_id < lo,
        },
{
    let mut best: Option<usize> = None;
    let mut j: usize = 0;
    while j < segments.len()
        invariant
            j <= segments.len(),
            match best {
                Some(i) => {
                    &&& i < j
                    &&& segments[i as int].file_id >= lo
                    &&& forall|a: int|
                        0 <= a < j && segments[a].file_id >= lo ==> segments[a].file_id
                            >= segments[i as int].file_id
                },
                None => forall|a: int| 0 <= a < j ==> segments[a].file_id < lo,
            },
        decreases segments.len() - j,
    {
        let id = segments[j].file_id;
        if id >= lo {
            best = match best {
                Some(i) => if id < segments[i].file_id {
                    Some(j)
                } else {
                    Some(i)
                },
                None => Some(j),
            };
        }
        j += 1;
    }
    best
}

/// Replays one segment into a key directory and a count of dead bytes.
fn replay_segment(
    data: &[u8],
    id: usize,
    key_dir: &mut KeyDir,
    dead: &mut usize,
    Ghost(disk): Ghost<Disk>,
) -> (res: Result<(), KvError>)
    requires
        old(key_dir).wf(),
        disk.contains_key(id),
        disk[id] == data@,
        all_point(disk, old(key_dir)@),
    ensures
        final(key_dir).wf(),
        match res {
            Ok(()) => {
                &&& replay_from(data@, id, 0, state_of(*old(key_dir), *old(dead)))
                    == Ok::<Replay, Fault>(state_of(*final(key_dir), *final(dead)))
                &&& all_point(disk, final(key_dir)@)
            },
            Err(e) => {
                &&& replay_from(data@, id, 0, state_of(*old(key_dir), *old(dead)))
                    matches Err(fault)
                &&& e.reports(fault)
            },
        },
{
    let ghost start = state_of(*key_dir, *dead);
    let mut pos: usize = 0;
    while pos < data.len()
        invariant
            key_dir.wf(),
            pos <= data.len(),
            disk.contains_key(id),
            disk[id] == data@,
            all_point(disk, key_dir@),
            start == (state_of(*old(key_dir), *old(dead))),
            replay_from(data@, id, 0, start) == replay_from(
                data@,
                id,
                pos as int,
                state_of(*key_dir, *dead),
            ),
        decreases data.len() - pos,
    {
        let (command, len) = match decode_at(data, pos) {
            Ok(decoded) => decoded,
            Err(e) => {
                return Err(e);
            },
        };
        proof {
            lemma_parse_bounds(data@, pos as int);
        }
        let at = KeyDirValue { file_id: id, value_size: len, start_index: pos as u64 };
        assert(at == place(id, pos as int, len as nat));
        let ghost before = state_of(*key_dir, *dead);
        match command {
            Command::Put(key, _) => {
                if let Some(was) = key_dir.insert(key, at) {
                    *dead = dead.saturating_add(was.value_size);
                }
            },
            Command::Remove(key) => {
                if let Some(was) = key_dir.remove(&key) {
                    *dead = dead.saturating_add(was.value_size).saturating_add(len);
                }
            },
        }
        assert(state_of(*key_dir, *dead) == step(before, command@, at));
        pos = pos + len;
    }
    Ok(())
}

/// What `replay_log` returns for a list of segments.
///
/// A list that names a segment twice is refused as corrupt. Then the first
/// record that does not parse, in ascending order of segment and in file
/// order within a segment, stops the replay with its fault. A directory that
/// holds the highest identifier there is leaves no identifier for the segment
/// that takes the writes.
pub open spec fn replay_log_result(segments: Seq<Segment>, res: Result<Replayed, KvError>) -> bool {
    let disk = disk_of(segments);
    if !distinct_ids(segments) {
        res matches Err(e) && e is Corrupt
    } else {
        match replay(disk) {
            Err(fault) => res matches Err(e) && e.reports(fault),
            Ok(st) => if disk.contains_key(usize::MAX) {
                res matches Err(e) && e is TooLarge
            } else {
                &&& res matches Ok(replayed)
                &&& replayed.key_dir.wf()
                &&& replayed.key_dir.keys() == st.keys
                &&& replayed.key_dir.values() == st.values
                &&& replayed.key_dir@ == st.index()
                &&& replayed.uncompacted == st.dead
                &&& all_point(disk, st.index())
                &&& forall|id: usize| disk.contains_key(id) ==> id < replayed.file_id
                &&& replayed.file_id == 0 || disk.contains_key((replayed.file_id - 1) as usize)
                &&& ascending(replayed.readers@)
                &&& replayed.readers@.no_duplicates()
                &&& forall|id: usize|
                    replayed.readers@.contains(id) <==> if segments.len() == 0 {
                        id == 0
                    } else {
                        disk.contains_key(id)
                    }
            },
        }
    }
}

/// Rebuilds the key directory and the count of dead bytes from the segments
/// of a directory, and names the segment that will take the writes.
pub fn replay_log(segments: &Vec<Segment>) -> (res: Result<Replayed, KvError>)
    ensures
        replay_log_result(segments@, res),
{
    if !has_distinct_ids(segments) {
        return Err(KvError::Corrupt);
    }
    let ghost disk = disk_of(segments@);
    let mut key_dir = KeyDir::new();
    let mut dead: usize = 0;
    let mut readers: Vec<usize> = Vec::new();
    let mut lo: usize = 0;
    loop
        invariant
            distinct_ids(segments@),
            disk == disk_of(segments@),
            key_dir.wf(),
            all_point(disk, key_dir@),
            replay_below(disk, lo as nat) == Ok::<Replay, Fault>(
                state_of(key_dir, dead),
            ),
            lo == 0 || disk.contains_key((lo - 1) as usize),
            ascending(readers@),
            readers@.no_duplicates(),
            forall|id: usize| readers@.contains(id) <==> disk.contains_key(id) && id < lo,
        decreases usize::MAX - lo,
    {
        let i = match next_segment(segments, lo) {
            Some(i) => i,
            None => {
                proof {
                    assert forall|id: usize| disk.contains_key(id) implies id < lo by {
                        let j = choose|j: int|
                            0 <= j < segments@.len() && #[trigger] segments@[j].file_id == id;
                    }
                    lemma_replay_below_skip(disk, lo as nat, (usize::MAX + 1) as nat);
                }
                let ghost seen = readers@;
                if segments.len() == 0 {
                    proof {
                        assert(seen.len() == 0) by {
                            if seen.len() > 0 {
                                assert(seen.contains(seen[0]));
                                assert(disk.contains_key(seen[0]));
                            }
                        }
                        lemma_push_id(seen, 0);
                    }
                    readers.push(0);
                }
                assert forall|id: usize|
                    readers@.contains(id) <==> if segments@.len() == 0 {
                        id == 0
                    } else {
                        disk.contains_key(id)
                    } by {
                    if segments@.len() == 0 {
                        if seen.contains(id) {
                            let j = choose|j: int| 0 <= j < seen.len() && seen[j] == id;
                        }
                    } else {
                        if disk.contains_key(id) {
                            assert(id < lo);
                        }
                    }
                }
                return Ok(Replayed { file_id: lo, readers, key_dir, uncompacted: dead });
            },
        };
        let id = segments[i].file_id;
        proof {
            lemma_disk_of_at(segments@, i as int);
            assert forall|other: usize| lo <= other < id implies !disk.contains_key(other) by {
                if disk.contains_key(other) {
                    let j = choose|j: int|
                        0 <= j < segments@.len() && #[trigger] segments@[j].file_id == other;
                }
            }
            lemma_replay_below_skip(disk, lo as nat, id as nat);
        }
        match replay_segment(segments[i].data.as_slice(), id, &mut key_dir, &mut dead, Ghost(disk)) {
            Ok(()) => {},
            Err(e) => {
                proof {
                    lemma_replay_below_fails(disk, (id + 1) as nat, (usize::MAX + 1) as nat);
                }
                return Err(e);
            },
        }
        assert(replay_below(disk, (id + 1) as nat) == Ok::<Replay, Fault>(
            state_of(key_dir, dead),
        ));
        if id == usize::MAX {
            return Err(KvError::TooLarge);
        }
        proof {
            assert forall|i: int| 0 <= i < readers@.len() implies readers@[i] < id by {
                assert(readers@.contains(readers@[i]));
            }
            lemma_push_id(readers@, id);
        }
        readers.push(id);
        lo = id + 1;
    }
}

/// A replay that has failed below `lo` has failed below every higher bound,
/// with the same fault.
pub proof fn lemma_replay_below_fails(disk: Disk, lo: nat, hi: nat)
    requires
        lo <= hi <= usize::MAX + 1,
        replay_below(disk, lo) is Err,
    ensures
        replay_below(disk, hi) == replay_below(disk, lo),
    decreases hi - lo,
{
    if lo < hi {
        lemma_replay_below_fails(disk, lo, (hi - 1) as nat);
    }
}

} // verus!
