//! Size-based rotation of log files: when to rotate, what the backups are
//! called, and the file operations that shift them.
//!
//! The active log is written to `path`. Once it would grow past `max_size`
//! bytes it is rotated: `path.<n-1>` becomes `path.<n>` for every backup
//! slot, from the oldest down, `path` becomes `path.1`, and the previous
//! `path.<max_backups>` is removed. With `max_backups` 0 the active file is
//! truncated in place; with `max_size` 0 there is no rotation.

use vstd::prelude::*;

use crate::text::{decimal, push_char, push_decimal};

verus! {

/// The name of the `n`-th rotated backup of `path`: `path.n`.
pub open spec fn backup_name(path: Seq<char>, n: nat) -> Seq<char> {
    path + seq!['.'] + decimal(n)
}

/// Compute the path of the `n`-th rotated backup file.
pub fn backup_path(path: &str, n: usize) -> (r: String)
    ensures
        r@ == backup_name(path@, n as nat),
{
    let mut r = String::from_str(path);
    push_char(&mut r, '.');
    push_decimal(&mut r, n as u64);
    r
}

/// Whether writing `len` more bytes to a file of `size` bytes must rotate
/// it first: rotation is on (`max_size > 0`) and the new size, saturating
/// at `u64::MAX`, would exceed `max_size`.
pub fn needs_rotation(max_size: u64, size: u64, len: u64) -> (r: bool)
    ensures
        r == (max_size > 0 && (if size + len > u64::MAX { u64::MAX as int } else { size + len })
            > max_size),
{
    max_size > 0 && size.saturating_add(len) > max_size
}

/// A file operation of a rotation.
#[derive(Debug, PartialEq, Eq)]
pub enum FileOp {
    /// Remove the file (a missing file is no error).
    Remove(String),
    /// Rename the first file to the second.
    Rename(String, String),
    /// Truncate the active file in place.
    Truncate,
}

/// The view of a file operation, with names as character sequences.
pub enum FileOpView {
    /// Remove the named file.
    Remove(Seq<char>),
    /// Rename the first file to the second.
    Rename(Seq<char>, Seq<char>),
    /// Truncate the active file in place.
    Truncate,
}

impl View for FileOp {
    type V = FileOpView;

    open spec fn view(&self) -> FileOpView {
        match self {
            FileOp::Remove(p) => FileOpView::Remove(p@),
            FileOp::Rename(a, b) => FileOpView::Rename(a@, b@),
            FileOp::Truncate => FileOpView::Truncate,
        }
    }
}

/// The operations that rotate `path` keeping `max_backups` backups: with no
/// backups, truncation; otherwise removing `path.<max_backups>`, shifting
/// `path.<k>` to `path.<k+1>` for `k` from `max_backups - 1` down to 1, and
/// renaming `path` to `path.1`.
pub open spec fn rotation_plan(path: Seq<char>, max_backups: nat) -> Seq<FileOpView> {
    if max_backups == 0 {
        seq![FileOpView::Truncate]
    } else {
        seq![FileOpView::Remove(backup_name(path, max_backups))] + Seq::new(
            (max_backups - 1) as nat,
            |k: int|
                FileOpView::Rename(
                    backup_name(path, (max_backups - 1 - k) as nat),
                    backup_name(path, (max_backups - k) as nat),
                ),
        ) + seq![FileOpView::Rename(path, backup_name(path, 1))]
    }
}

/// The file operations that rotate the log at `path`, in order.
pub fn rotation_ops(path: &str, max_backups: usize) -> (ops: Vec<FileOp>)
    ensures
        ops@.map_values(|op: FileOp| op@) == rotation_plan(path@, max_backups as nat),
{
    let mut ops: Vec<FileOp> = Vec::new();
    if max_backups == 0 {
        ops.push(FileOp::Truncate);
        assert(ops@.map_values(|op: FileOp| op@) =~= rotation_plan(path@, 0));
        return ops;
    }
    ops.push(FileOp::Remove(backup_path(path, max_backups)));
    let ghost shifts = Seq::new(
        (max_backups - 1) as nat,
        |k: int|
            FileOpView::Rename(
                backup_name(path@, (max_backups - 1 - k) as nat),
                backup_name(path@, (max_backups - k) as nat),
            ),
    );
    let mut slot: usize = max_backups - 1;
    while slot >= 1
        invariant
            0 <= slot < max_backups,
            shifts == Seq::new(
                (max_backups - 1) as nat,
                |k: int|
                    FileOpView::Rename(
                        backup_name(path@, (max_backups - 1 - k) as nat),
                        backup_name(path@, (max_backups - k) as nat),
                    ),
            ),
            ops@.map_values(|op: FileOp| op@) == seq![
                FileOpView::Remove(backup_name(path@, max_backups as nat)),
            ] + shifts.take((max_backups - 1 - slot) as int),
        decreases slot,
    {
        let ghost before = ops@;
        let src = backup_path(path, slot);
        let dst = backup_path(path, slot + 1);
        let ghost op_view = FileOpView::Rename(src@, dst@);
        ops.push(FileOp::Rename(src, dst));
        proof {
            assert(ops@.last()@ == op_view);
            assert(before.map_values(|op: FileOp| op@).len() == 1 + (max_backups - 1 - slot));
            let k = (max_backups - 1 - slot) as int;
            assert(shifts[k] == FileOpView::Rename(
                backup_name(path@, slot as nat),
                backup_name(path@, (slot + 1) as nat),
            ));
            assert forall|i: int| 0 <= i < before.len() implies ops@[i] == before[i] by {}
            let target = seq![FileOpView::Remove(backup_name(path@, max_backups as nat))] + shifts.take(
                k + 1,
            );
            let prev_target = seq![FileOpView::Remove(backup_name(path@, max_backups as nat))]
                + shifts.take(k);
            assert forall|i: int| 0 <= i < ops@.len() implies ops@.map_values(|op: FileOp| op@)[i]
                == target[i] by {
                if i < before.len() {
                    assert(ops@[i] == before[i]);
                    assert(before.map_values(|op: FileOp| op@)[i] == prev_target[i]);
                }
            }
            assert(ops@.map_values(|op: FileOp| op@) =~= target);
        }
        slot = slot - 1;
    }
    let ghost before = ops@;
    ops.push(FileOp::Rename(String::from_str(path), backup_path(path, 1)));
    proof {
        assert(shifts.take((max_backups - 1) as int) =~= shifts);
        assert forall|i: int| 0 <= i < before.len() implies ops@[i] == before[i] by {}
        assert(ops@.map_values(|op: FileOp| op@) =~= rotation_plan(path@, max_backups as nat));
    }
    ops
}

/// A rotation keeps at most `max_backups` backups: every file it removes or
/// writes to is `path.<k>` for some `1 <= k <= max_backups`, and the only
/// file it removes is the oldest slot.
pub proof fn lemma_rotation_bounded(path: Seq<char>, max_backups: nat)
    requires
        max_backups > 0,
    ensures
        forall|i: int|
            0 <= i < rotation_plan(path, max_backups).len() ==> match #[trigger] rotation_plan(
                path,
                max_backups,
            )[i] {
                FileOpView::Remove(p) => p == backup_name(path, max_backups),
                FileOpView::Rename(_, dst) => exists|k: nat|
                    1 <= k <= max_backups && dst == backup_name(path, k),
                FileOpView::Truncate => false,
            },
{
    let plan = rotation_plan(path, max_backups);
    assert forall|i: int| 0 <= i < plan.len() implies match #[trigger] plan[i] {
        FileOpView::Remove(p) => p == backup_name(path, max_backups),
        FileOpView::Rename(_, dst) => exists|k: nat|
            1 <= k <= max_backups && dst == backup_name(path, k),
        FileOpView::Truncate => false,
    } by {
        if i == 0 {
        } else if i < max_backups {
            let k = (max_backups - (i - 1)) as nat;
            assert(plan[i] == FileOpView::Rename(
                backup_name(path, (max_backups - 1 - (i - 1)) as nat),
                backup_name(path, k),
            ));
        } else {
            assert(plan[i] == FileOpView::Rename(path, backup_name(path, 1)));
        }
    }
}

} // verus!
