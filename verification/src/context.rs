//! Contextual (span) fields: a stack of frames whose fields every record
//! logged inside them carries.
//!
//! Frames are merged outermost first; for duplicate keys the innermost
//! frame wins. A frame is removed by the identifier it was pushed with, so
//! scopes may end in any order.

use vstd::prelude::*;

use crate::entry::{has_key, Field};

verus! {

/// `acc` with `f` laid over it: a field with the same key is replaced in
/// place, otherwise `f` is appended.
pub open spec fn overlay(acc: Seq<Field>, f: Field) -> Seq<Field> {
    if has_key(acc, f.key@) {
        acc.update(key_index(acc, f.key@), f)
    } else {
        acc.push(f)
    }
}

/// The index of a field of `fs` with key `key` (meaningful when there is one).
pub open spec fn key_index(fs: Seq<Field>, key: Seq<char>) -> int {
    choose|i: int| 0 <= i < fs.len() && fs[i].key@ == key
}

/// The index of the first frame of `frames` pushed with `id` (meaningful
/// when there is one).
pub open spec fn frame_index(frames: Seq<FrameView>, id: usize) -> int {
    choose|i: int| 0 <= i < frames.len() && frames[i].0 == id && forall|k: int| 0 <= k < i ==> frames[k].0 != id
}

/// `acc` with the fields `fs` laid over it in order.
pub open spec fn overlay_all(acc: Seq<Field>, fs: Seq<Field>) -> Seq<Field>
    decreases fs.len(),
{
    if fs.len() == 0 {
        acc
    } else {
        overlay(overlay_all(acc, fs.drop_last()), fs.last())
    }
}

/// A context frame: the identifier it was pushed with and its fields.
pub type FrameView = (usize, Seq<Field>);

/// The merged context of `frames` (outermost first): the fields of every
/// frame laid over those of the frames before it.
pub open spec fn merged_context(frames: Seq<FrameView>) -> Seq<Field>
    decreases frames.len(),
{
    if frames.len() == 0 {
        Seq::empty()
    } else {
        overlay_all(merged_context(frames.drop_last()), frames.last().1)
    }
}

/// No two fields of `fs` share a key.
pub open spec fn keys_distinct(fs: Seq<Field>) -> bool {
    forall|i: int, j: int| 0 <= i < fs.len() && 0 <= j < fs.len() && i != j ==> fs[i].key@ != fs[j].key@
}

/// `frames` without its first frame pushed with `id`; unchanged when there
/// is none.
pub open spec fn remove_frame(frames: Seq<FrameView>, id: usize) -> Seq<FrameView> {
    if exists|i: int| 0 <= i < frames.len() && frames[i].0 == id {
        frames.remove(frame_index(frames, id))
    } else {
        frames
    }
}

/// No two frames of `frames` were pushed with one identifier.
pub open spec fn ids_distinct(frames: Seq<FrameView>) -> bool {
    forall|i: int, j: int| 0 <= i < frames.len() && 0 <= j < frames.len() && i != j ==> frames[i].0 != frames[j].0
}

/// Whether some frame of `frames` was pushed with `id`.
pub open spec fn has_frame(frames: Seq<FrameView>, id: usize) -> bool {
    exists|i: int| 0 <= i < frames.len() && frames[i].0 == id
}

/// Ending a scope removes exactly its own frame, wherever it stands, and
/// keeps the other frames in order; so once the frames pushed since have
/// ended too, the context is what it was before the scope began.
pub proof fn lemma_guard_drop(pre: Seq<FrameView>, id: usize, fs: Seq<Field>, post: Seq<FrameView>)
    requires
        ids_distinct(pre.push((id, fs)) + post),
    ensures
        remove_frame(pre.push((id, fs)) + post, id) == pre + post,
        merged_context(remove_frame(pre.push((id, fs)) + post, id)) == merged_context(pre + post),
{
    let all = pre.push((id, fs)) + post;
    let n = pre.len() as int;
    assert(all[n].0 == id);
    let c = frame_index(all, id);
    assert(c == n) by {
        if c != n {
            assert(all[c].0 == id);
        }
    }
    assert(all.remove(n) =~= pre + post);
}

/// Ending the innermost scope restores the context as it was before the
/// scope began: removing a frame right after pushing it (with an identifier
/// not on the stack) gives the earlier stack back, and so the earlier
/// merged context.
pub proof fn lemma_pop_restores_outer(frames: Seq<FrameView>, id: usize, fs: Seq<Field>)
    requires
        forall|k: int| 0 <= k < frames.len() ==> frames[k].0 != id,
    ensures
        remove_frame(frames.push((id, fs)), id) == frames,
        merged_context(remove_frame(frames.push((id, fs)), id)) == merged_context(frames),
{
    let pushed = frames.push((id, fs));
    assert(pushed[frames.len() as int].0 == id);
    let c = frame_index(pushed, id);
    assert(c == frames.len()) by {
        if c < frames.len() {
            assert(pushed[c] == frames[c]);
        }
    }
    assert(pushed.remove(c) =~= frames);
}

/// Laying `f` over `acc` puts `f` in, and keeps every field whose key
/// differs from `f`'s.
proof fn lemma_overlay_contains(acc: Seq<Field>, f: Field, h: Field)
    ensures
        overlay(acc, f).contains(f),
        acc.contains(h) && h.key@ != f.key@ ==> overlay(acc, f).contains(h),
{
    let r = overlay(acc, f);
    if has_key(acc, f.key@) {
        let c = key_index(acc, f.key@);
        assert(r[c] == f);
        if acc.contains(h) && h.key@ != f.key@ {
            let k = choose|k: int| 0 <= k < acc.len() && acc[k] == h;
            assert(k != c);
            assert(r[k] == h);
        }
    } else {
        assert(r[acc.len() as int] == f);
        if acc.contains(h) {
            let k = choose|k: int| 0 <= k < acc.len() && acc[k] == h;
            assert(r[k] == h);
        }
    }
}

/// After laying `fs` over `acc`, each field of `fs` that no later field of
/// `fs` overrides is present.
proof fn lemma_overlay_all_contains(acc: Seq<Field>, fs: Seq<Field>, i: int)
    requires
        0 <= i < fs.len(),
        forall|j: int| i < j < fs.len() ==> fs[j].key@ != fs[i].key@,
    ensures
        overlay_all(acc, fs).contains(fs[i]),
    decreases fs.len(),
{
    let prev = overlay_all(acc, fs.drop_last());
    if i == fs.len() - 1 {
        lemma_overlay_contains(prev, fs.last(), fs[i]);
    } else {
        lemma_overlay_all_contains(acc, fs.drop_last(), i);
        assert(fs.drop_last()[i] == fs[i]);
        lemma_overlay_contains(prev, fs.last(), fs[i]);
    }
}

/// The innermost scope wins: inside a scope whose frame has the fields
/// `fs`, the merged context holds each of them (the last one for a key
/// repeated within the frame), whatever the outer frames say for that key.
pub proof fn lemma_innermost_wins(frames: Seq<FrameView>, id: usize, fs: Seq<Field>, i: int)
    requires
        0 <= i < fs.len(),
        forall|j: int| i < j < fs.len() ==> fs[j].key@ != fs[i].key@,
    ensures
        merged_context(frames.push((id, fs))).contains(fs[i]),
{
    let pushed = frames.push((id, fs));
    assert(pushed.drop_last() =~= frames);
    lemma_overlay_all_contains(merged_context(frames), fs, i);
}

/// Laying fields over a context never duplicates a key.
proof fn lemma_overlay_all_keys_distinct(acc: Seq<Field>, fs: Seq<Field>)
    requires
        keys_distinct(acc),
    ensures
        keys_distinct(overlay_all(acc, fs)),
    decreases fs.len(),
{
    if fs.len() > 0 {
        lemma_overlay_all_keys_distinct(acc, fs.drop_last());
        let prev = overlay_all(acc, fs.drop_last());
        let f = fs.last();
        let r = overlay(prev, f);
        if has_key(prev, f.key@) {
            let c = key_index(prev, f.key@);
            assert forall|x: int, y: int|
                0 <= x < r.len() && 0 <= y < r.len() && x != y implies r[x].key@ != r[y].key@ by {
                if x != c && y != c {
                    assert(prev[x].key@ != prev[y].key@);
                } else if x == c {
                    assert(prev[y].key@ != prev[x].key@);
                } else {
                    assert(prev[x].key@ != prev[y].key@);
                }
            }
        } else {
            assert forall|x: int, y: int|
                0 <= x < r.len() && 0 <= y < r.len() && x != y implies r[x].key@ != r[y].key@ by {
                if x < prev.len() && y < prev.len() {
                    assert(prev[x].key@ != prev[y].key@);
                } else if x < prev.len() {
                    assert(r[x] == prev[x]);
                } else {
                    assert(r[y] == prev[y]);
                }
            }
        }
    }
}

/// The merged context never holds two fields with one key.
pub proof fn lemma_merged_keys_distinct(frames: Seq<FrameView>)
    ensures
        keys_distinct(merged_context(frames)),
    decreases frames.len(),
{
    if frames.len() > 0 {
        lemma_merged_keys_distinct(frames.drop_last());
        lemma_overlay_all_keys_distinct(merged_context(frames.drop_last()), frames.last().1);
    }
}

struct Frame {
    id: usize,
    fields: Vec<Field>,
}

spec fn frames_view(frames: Seq<Frame>) -> Seq<FrameView> {
    frames.map_values(|f: Frame| (f.id, f.fields@))
}

/// A stack of context frames, outermost first.
pub struct ContextStack {
    frames: Vec<Frame>,
}

impl View for ContextStack {
    type V = Seq<FrameView>;

    closed spec fn view(&self) -> Seq<FrameView> {
        frames_view(self.frames@)
    }
}

impl ContextStack {
    #[verifier::type_invariant]
    spec fn wf(self) -> bool {
        ids_distinct(self@)
    }

    /// An empty stack.
    pub fn new() -> (s: ContextStack)
        ensures
            s@ == Seq::<FrameView>::empty(),
            ids_distinct(s@),
    {
        let s = ContextStack { frames: Vec::new() };
        assert(s@ =~= Seq::<FrameView>::empty());
        s
    }

    /// Whether no frame is on the stack.
    pub fn is_empty(&self) -> (r: bool)
        ensures
            r == (self@.len() == 0),
    {
        self.frames.len() == 0
    }

    /// Whether a frame pushed with `id` is on the stack.
    pub fn holds(&self, id: usize) -> (r: bool)
        ensures
            r == has_frame(self@, id),
    {
        let mut i: usize = 0;
        while i < self.frames.len()
            invariant
                i <= self@.len(),
                self.frames@.len() == self@.len(),
                forall|k: int| 0 <= k < i ==> self@[k].0 != id,
            decreases self@.len() - i,
        {
            assert(self@[i as int].0 == self.frames@[i as int].id);
            if self.frames[i].id == id {
                return true;
            }
            i = i + 1;
        }
        false
    }

    /// Push a frame with identifier `id`, which no frame on the stack
    /// carries, and fields `fields`.
    pub fn push(&mut self, id: usize, fields: Vec<Field>)
        requires
            !has_frame(old(self)@, id),
        ensures
            final(self)@ == old(self)@.push((id, fields@)),
            ids_distinct(final(self)@),
    {
        proof {
            use_type_invariant(&*self);
        }
        let mut frames: Vec<Frame> = Vec::new();
        std::mem::swap(&mut frames, &mut self.frames);
        let ghost before = frames@;
        assert(frames_view(before) == old(self)@);
        frames.push(Frame { id, fields });
        proof {
            assert forall|k: int| 0 <= k < before.len() implies frames@[k] == before[k] by {}
            assert(frames_view(frames@) =~= frames_view(before).push((id, fields@)));
            assert forall|a: int, b: int|
                0 <= a < frames@.len() && 0 <= b < frames@.len() && a != b implies frames_view(frames@)[a].0
                != frames_view(frames@)[b].0 by {
                if a == before.len() {
                    assert(frames_view(before)[b].0 != id);
                } else if b == before.len() {
                    assert(frames_view(before)[a].0 != id);
                } else {
                    assert(frames_view(before)[a].0 != frames_view(before)[b].0);
                }
            }
        }
        self.frames = frames;
    }

    /// Remove the frame pushed with `id`, wherever it is on the stack.
    pub fn remove(&mut self, id: usize)
        ensures
            final(self)@ == remove_frame(old(self)@, id),
            ids_distinct(final(self)@),
    {
        proof {
            use_type_invariant(&*self);
        }
        let mut frames: Vec<Frame> = Vec::new();
        std::mem::swap(&mut frames, &mut self.frames);
        let ghost fs = frames_view(frames@);
        assert(fs == old(self)@);
        let mut i: usize = 0;
        while i < frames.len()
            invariant
                frames_view(frames@) == fs,
                fs == old(self)@,
                ids_distinct(fs),
                i <= fs.len(),
                frames@.len() == fs.len(),
                forall|k: int| 0 <= k < i ==> fs[k].0 != id,
            decreases fs.len() - i,
        {
            assert(fs[i as int].0 == frames@[i as int].id);
            if frames[i].id == id {
                let ghost before = frames@;
                let _ = frames.remove(i);
                proof {
                    assert(fs[i as int].0 == id && forall|m: int| 0 <= m < i ==> fs[m].0 != id);
                    let c = frame_index(fs, id);
                    assert(c == i) by {
                        if c < i {
                        } else if c > i {
                        }
                    }
                    assert forall|k: int| 0 <= k < fs.len() - 1 implies frames_view(frames@)[k] == fs.remove(
                        i as int,
                    )[k] by {
                        if k < i {
                            assert(frames@[k] == before[k]);
                        } else {
                            assert(frames@[k] == before[k + 1]);
                        }
                    }
                    assert(frames_view(frames@) =~= fs.remove(i as int));
                    let r = fs.remove(i as int);
                    assert forall|a: int, b: int|
                        0 <= a < r.len() && 0 <= b < r.len() && a != b implies r[a].0 != r[b].0 by {
                        let a2 = if a < i { a } else { a + 1 };
                        let b2 = if b < i { b } else { b + 1 };
                        assert(r[a] == fs[a2] && r[b] == fs[b2]);
                    }
                }
                self.frames = frames;
                return;
            }
            i = i + 1;
        }
        self.frames = frames;
    }

    /// The merged context: every frame's fields laid over the outer
    /// frames', so the innermost value wins for a duplicate key.
    pub fn current(&self) -> (r: Vec<Field>)
        ensures
            r@ == merged_context(self@),
    {
        let mut merged: Vec<Field> = Vec::new();
        let mut i: usize = 0;
        while i < self.frames.len()
            invariant
                i <= self@.len(),
                self.frames@.len() == self@.len(),
                merged@ == merged_context(self@.take(i as int)),
                keys_distinct(merged@),
            decreases self@.len() - i,
        {
            assert(self@.take(i + 1).drop_last() =~= self@.take(i as int));
            assert(self@[i as int].1 == self.frames@[i as int].fields@);
            overlay_fields(&mut merged, &self.frames[i].fields);
            i = i + 1;
        }
        assert(self@.take(i as int) =~= self@);
        merged
    }
}

/// Lays the fields `fs` over `acc`, in order.
fn overlay_fields(acc: &mut Vec<Field>, fs: &Vec<Field>)
    requires
        keys_distinct(old(acc)@),
    ensures
        final(acc)@ == overlay_all(old(acc)@, fs@),
        keys_distinct(final(acc)@),
{
    let ghost start = acc@;
    let mut j: usize = 0;
    while j < fs.len()
        invariant
            j <= fs@.len(),
            acc@ == overlay_all(start, fs@.take(j as int)),
            keys_distinct(acc@),
        decreases fs@.len() - j,
    {
        assert(fs@.take(j + 1).drop_last() =~= fs@.take(j as int));
        overlay_one(acc, fs[j].clone());
        j = j + 1;
    }
    assert(fs@.take(j as int) =~= fs@);
}

/// Lays `f` over `acc`.
fn overlay_one(acc: &mut Vec<Field>, f: Field)
    requires
        keys_distinct(old(acc)@),
    ensures
        final(acc)@ == overlay(old(acc)@, f),
        keys_distinct(final(acc)@),
{
    let ghost a = acc@;
    let mut k: usize = 0;
    while k < acc.len()
        invariant
            acc@ == a,
            a == old(acc)@,
            keys_distinct(a),
            k <= a.len(),
            forall|m: int| 0 <= m < k ==> a[m].key@ != f.key@,
        decreases a.len() - k,
    {
        if acc[k].key == f.key {
            proof {
                assert(a[k as int].key@ == f.key@);
                assert(has_key(a, f.key@));
                let c = key_index(a, f.key@);
                assert(a[c].key@ == a[k as int].key@);
                assert(c == k);
            }
            acc.set(k, f);
            proof {
                assert(acc@ =~= a.update(k as int, f));
                assert forall|x: int, y: int|
                    0 <= x < acc@.len() && 0 <= y < acc@.len() && x != y implies acc@[x].key@
                    != acc@[y].key@ by {
                    if x != k && y != k {
                        assert(a[x].key@ != a[y].key@);
                    } else if x == k {
                        assert(a[y].key@ != a[x].key@);
                    } else {
                        assert(a[x].key@ != a[y].key@);
                    }
                }
            }
            return;
        }
        k = k + 1;
    }
    acc.push(f);
    proof {
        assert(acc@ =~= a.push(f));
    }
}

} // verus!
