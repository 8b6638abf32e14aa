use crate::replay::Disk;
use vstd::prelude::*;

verus! {

/// One step that brings the directory on disk in line with the store. The
/// caller carries the actions out in the order in which they are returned.
#[derive(Debug)]
pub enum Action {
    /// Create the segment `file_id` as an empty file, unless it is there.
    Create { file_id: usize },
    /// Write `bytes` at the end of the segment `file_id`.
    Append { file_id: usize, bytes: Vec<u8> },
    /// Write the `len` bytes that start at offset `start` of the segment
    /// `from` at the end of the segment `to`.
    CopyRange { from: usize, start: u64, len: usize, to: usize },
    /// Delete the segment `file_id`.
    Delete { file_id: usize },
}

/// An action as the contracts see it.
pub enum ActionView {
    Create { file_id: usize },
    Append { file_id: usize, bytes: Seq<u8> },
    CopyRange { from: usize, start: u64, len: usize, to: usize },
    Delete { file_id: usize },
}

impl View for Action {
    type V = ActionView;

    open spec fn view(&self) -> ActionView {
        match self {
            Action::Create { file_id } => ActionView::Create { file_id: *file_id },
            Action::Append { file_id, bytes } => ActionView::Append {
                file_id: *file_id,
                bytes: bytes@,
            },
            Action::CopyRange { from, start, len, to } => ActionView::CopyRange {
                from: *from,
                start: *start,
                len: *len,
                to: *to,
            },
            Action::Delete { file_id } => ActionView::Delete { file_id: *file_id },
        }
    }
}

/// The views of a list of actions.
pub open spec fn action_views(actions: Seq<Action>) -> Seq<ActionView> {
    actions.map_values(|a: Action| a@)
}

/// The bytes of segment `id`; none where the segment is not there.
pub open spec fn segment(disk: Disk, id: usize) -> Seq<u8> {
    if disk.contains_key(id) {
        disk[id]
    } else {
        Seq::empty()
    }
}

/// The directory after one action. A copy of a range that the source does
/// not hold changes nothing.
pub open spec fn apply(disk: Disk, action: ActionView) -> Disk {
    match action {
        ActionView::Create { file_id } => disk.insert(file_id, segment(disk, file_id)),
        ActionView::Append { file_id, bytes } => disk.insert(file_id, segment(disk, file_id) + bytes),
        ActionView::CopyRange { from, start, len, to } => if start + len <= segment(
            disk,
            from,
        ).len() {
            disk.insert(to, segment(disk, to) + segment(disk, from).subrange(start as int, start + len))
        } else {
            disk
        },
        ActionView::Delete { file_id } => disk.remove(file_id),
    }
}

/// The directory after a list of actions, carried out from first to last.
pub open spec fn apply_all(disk: Disk, actions: Seq<ActionView>) -> Disk
    decreases actions.len(),
{
    if actions.len() == 0 {
        disk
    } else {
        apply(apply_all(disk, actions.drop_last()), actions.last())
    }
}

/// Carrying out one more action is applying it to what the others left.
pub proof fn lemma_apply_all_push(disk: Disk, actions: Seq<ActionView>, action: ActionView)
    ensures
        apply_all(disk, actions.push(action)) == apply(apply_all(disk, actions), action),
{
    assert(actions.push(action).drop_last() =~= actions);
}

/// A list of one action is that action.
pub proof fn lemma_apply_all_one(disk: Disk, action: ActionView)
    ensures
        apply_all(disk, seq![action]) == apply(disk, action),
{
    assert(seq![action] =~= Seq::<ActionView>::empty().push(action));
    lemma_apply_all_push(disk, Seq::empty(), action);
}

/// Carrying out `first` and then `rest` is carrying out both lists in a row.
pub proof fn lemma_apply_all_concat(disk: Disk, first: Seq<ActionView>, rest: Seq<ActionView>)
    ensures
        apply_all(disk, first + rest) == apply_all(apply_all(disk, first), rest),
    decreases rest.len(),
{
    if rest.len() == 0 {
        assert(first + rest =~= first);
    } else {
        assert((first + rest).drop_last() =~= first + rest.drop_last());
        lemma_apply_all_concat(disk, first, rest.drop_last());
    }
}

} // verus!
