//! Undo and redo of edits to one frame. The history belongs to the frame it
//! was recorded on (its anchor); once another frame is current, the history
//! is dropped rather than applied to the wrong frame.
use vstd::prelude::*;

use crate::shp::SHP;

verus! {

/// What an undo or redo request did.
#[derive(Debug, Clone, Copy, PartialEq, Eq, Structural)]
pub enum HistoryStep {
    /// The current frame is not the one the history belongs to: both
    /// stacks were emptied and the history now belongs to the current frame.
    Reset,
    /// A snapshot was swapped with the current frame's pixels.
    Applied,
    /// The stack was empty.
    Nothing,
}

/// The undo and redo stacks of snapshots of one frame's pixels.
pub struct EditHistory {
    pub undo_stack: Vec<Vec<u8>>,
    pub redo_stack: Vec<Vec<u8>>,
    pub max_undo_steps: usize,
    pub undo_frame_anchor: Option<usize>,
}

/// The mathematical value of a history.
pub struct HistoryModel {
    pub undo: Seq<Seq<u8>>,
    pub redo: Seq<Seq<u8>>,
    pub max: nat,
    pub anchor: Option<usize>,
}

/// The contents of a stack of snapshots.
pub open spec fn stack_view(s: Seq<Vec<u8>>) -> Seq<Seq<u8>> {
    s.map_values(|v: Vec<u8>| v@)
}

impl View for EditHistory {
    type V = HistoryModel;

    open spec fn view(&self) -> HistoryModel {
        HistoryModel {
            undo: stack_view(self.undo_stack@),
            redo: stack_view(self.redo_stack@),
            max: self.max_undo_steps as nat,
            anchor: self.undo_frame_anchor,
        }
    }
}

/// The frame edits apply to: the current frame, or the last frame when the
/// current one is past the end (frame 0 when there are none).
pub open spec fn spec_clamp_frame(current: int, count: int) -> int {
    let last = if count >= 1 {
        count - 1
    } else {
        0
    };
    if current <= last {
        current
    } else {
        last
    }
}

/// The frame edits apply to (see `spec_clamp_frame`).
pub fn clamp_frame_index(current: usize, count: usize) -> (fi: usize)
    ensures
        fi == spec_clamp_frame(current as int, count as int),
{
    let last = count.saturating_sub(1);
    if current <= last {
        current
    } else {
        last
    }
}

/// Recording a snapshot: it goes on top of the undo stack, the oldest one
/// is dropped when the stack grows past its limit, and redo is emptied.
pub open spec fn spec_record(h: HistoryModel, snap: Seq<u8>) -> HistoryModel {
    let pushed = h.undo.push(snap);
    HistoryModel {
        undo: if pushed.len() > h.max {
            pushed.drop_first()
        } else {
            pushed
        },
        redo: Seq::empty(),
        max: h.max,
        anchor: h.anchor,
    }
}

/// The history emptied and given to frame `fi`.
pub open spec fn spec_reset(h: HistoryModel, fi: int) -> HistoryModel {
    HistoryModel { undo: Seq::empty(), redo: Seq::empty(), max: h.max, anchor: Some(fi as usize) }
}

/// The history belongs to another frame than `fi`.
pub open spec fn belongs_elsewhere(h: HistoryModel, fi: int) -> bool {
    h.anchor matches Some(a) && a != fi
}

/// What undo does on frame `fi`.
pub open spec fn undo_step(h: HistoryModel, fi: int) -> HistoryStep {
    if belongs_elsewhere(h, fi) {
        HistoryStep::Reset
    } else if h.undo.len() == 0 {
        HistoryStep::Nothing
    } else {
        HistoryStep::Applied
    }
}

/// What redo does on frame `fi`.
pub open spec fn redo_step(h: HistoryModel, fi: int) -> HistoryStep {
    if belongs_elsewhere(h, fi) {
        HistoryStep::Reset
    } else if h.redo.len() == 0 {
        HistoryStep::Nothing
    } else {
        HistoryStep::Applied
    }
}

/// Undo on frame `fi` whose pixels are `px`: the history after it and the
/// frame's pixels after it. The top undo snapshot replaces the pixels, which
/// go on top of the redo stack.
pub open spec fn spec_undo(h: HistoryModel, px: Seq<u8>, fi: int) -> (HistoryModel, Seq<u8>) {
    match undo_step(h, fi) {
        HistoryStep::Reset => (spec_reset(h, fi), px),
        HistoryStep::Nothing => (h, px),
        HistoryStep::Applied => (
            HistoryModel { undo: h.undo.drop_last(), redo: h.redo.push(px), max: h.max, anchor: h.anchor },
            h.undo.last(),
        ),
    }
}

/// Redo on frame `fi` whose pixels are `px`: the mirror image of undo.
pub open spec fn spec_redo(h: HistoryModel, px: Seq<u8>, fi: int) -> (HistoryModel, Seq<u8>) {
    match redo_step(h, fi) {
        HistoryStep::Reset => (spec_reset(h, fi), px),
        HistoryStep::Nothing => (h, px),
        HistoryStep::Applied => (
            HistoryModel { undo: h.undo.push(px), redo: h.redo.drop_last(), max: h.max, anchor: h.anchor },
            h.redo.last(),
        ),
    }
}

/// Following the current frame: a history without a frame is given to
/// `cur`; a history of another frame is emptied and given to `cur`.
pub open spec fn spec_follow_frame(h: HistoryModel, cur: int) -> HistoryModel {
    match h.anchor {
        None => HistoryModel { anchor: Some(cur as usize), ..h },
        Some(a) => if a != cur {
            spec_reset(h, cur)
        } else {
            h
        },
    }
}

/// Undo or redo moved the snapshot; only frame `fi` changed.
pub open spec fn only_frame_changed(old: SHP, new: SHP, fi: int, px: Seq<u8>) -> bool {
    &&& new.width == old.width
    &&& new.height == old.height
    &&& new.frames@.len() == old.frames@.len()
    &&& (0 <= fi < old.frames@.len() ==> new.frames@[fi].pixels@ == px)
    &&& forall|j: int|
        0 <= j < old.frames@.len() && j != fi ==> #[trigger] new.frames@[j] == old.frames@[j]
}

impl EditHistory {
    /// An empty history that keeps at most `max_undo_steps` snapshots and
    /// belongs to no frame yet.
    pub fn new(max_undo_steps: usize) -> (h: EditHistory)
        ensures
            h@ == (HistoryModel {
                undo: Seq::empty(),
                redo: Seq::empty(),
                max: max_undo_steps as nat,
                anchor: None,
            }),
    {
        let h = EditHistory {
            undo_stack: Vec::new(),
            redo_stack: Vec::new(),
            max_undo_steps,
            undo_frame_anchor: None,
        };
        assert(h@.undo =~= Seq::empty());
        assert(h@.redo =~= Seq::empty());
        h
    }

    /// Records the pixels a frame had before an edit.
    pub fn record(&mut self, snapshot: Vec<u8>)
        ensures
            final(self)@ == spec_record(old(self)@, snapshot@),
    {
        let ghost old_h = self@;
        self.undo_stack.push(snapshot);
        if self.undo_stack.len() > self.max_undo_steps {
            self.undo_stack.remove(0);
        }
        self.redo_stack.clear();
        assert(self@.redo =~= Seq::empty());
        assert(self@.undo =~= spec_record(old_h, snapshot@).undo);
    }

    /// Records the current pixels of frame `frame_idx` before an edit.
    pub fn save_undo_state_for_frame(&mut self, shp: &SHP, frame_idx: usize)
        requires
            frame_idx < shp.frames@.len(),
        ensures
            final(self)@ == spec_record(old(self)@, shp.frames@[frame_idx as int].pixels@),
    {
        let src = &shp.frames[frame_idx].pixels;
        let mut data: Vec<u8> = Vec::new();
        let mut i: usize = 0;
        while i < src.len()
            invariant
                i <= src@.len(),
                data@ == src@.take(i as int),
            decreases src@.len() - i,
        {
            data.push(src[i]);
            assert(data@ =~= src@.take(i + 1));
            i = i + 1;
        }
        assert(data@ =~= src@);
        self.record(data);
    }

    /// Empties both stacks and gives the history to frame `frame`.
    pub fn reset(&mut self, frame: usize)
        ensures
            final(self)@ == spec_reset(old(self)@, frame as int),
    {
        self.undo_stack.clear();
        self.redo_stack.clear();
        self.undo_frame_anchor = Some(frame);
        assert(self@.undo =~= Seq::empty());
        assert(self@.redo =~= Seq::empty());
    }

    /// Keeps the history with the current frame `cur`.
    pub fn follow_frame(&mut self, cur: usize)
        ensures
            final(self)@ == spec_follow_frame(old(self)@, cur as int),
    {
        match self.undo_frame_anchor {
            None => {
                self.undo_frame_anchor = Some(cur);
            },
            Some(anchor) => {
                if anchor != cur {
                    self.reset(cur);
                }
            },
        }
    }

    /// Undoes the last edit of the frame that `current_frame` designates
    /// (see `clamp_frame_index`).
    pub fn undo(&mut self, shp: &mut SHP, current_frame: usize) -> (step: HistoryStep)
        requires
            old(shp).frames@.len() > 0 || undo_step(old(self)@, 0) != HistoryStep::Applied,
        ensures
            ({
                let fi = spec_clamp_frame(current_frame as int, old(shp).frames@.len() as int);
                let old_px = if old(shp).frames@.len() > 0 {
                    old(shp).frames@[fi].pixels@
                } else {
                    Seq::empty()
                };
                &&& step == undo_step(old(self)@, fi)
                &&& final(self)@ == spec_undo(old(self)@, old_px, fi).0
                &&& only_frame_changed(*old(shp), *final(shp), fi, spec_undo(old(self)@, old_px, fi).1)
            }),
    {
        let fi = clamp_frame_index(current_frame, shp.frames.len());
        if let Some(a) = self.undo_frame_anchor {
            if a != fi {
                self.reset(fi);
                return HistoryStep::Reset;
            }
        }
        let ghost old_h = self@;
        match self.undo_stack.pop() {
            Some(prev) => {
                let mut cur = prev;
                std::mem::swap(&mut cur, &mut shp.frames[fi].pixels);
                self.redo_stack.push(cur);
                assert(self@.undo =~= old_h.undo.drop_last());
                assert(self@.redo =~= old_h.redo.push(old(shp).frames@[fi as int].pixels@));
                HistoryStep::Applied
            },
            None => HistoryStep::Nothing,
        }
    }

    /// Redoes the last undone edit of the frame that `current_frame`
    /// designates (see `clamp_frame_index`).
    pub fn redo(&mut self, shp: &mut SHP, current_frame: usize) -> (step: HistoryStep)
        requires
            old(shp).frames@.len() > 0 || redo_step(old(self)@, 0) != HistoryStep::Applied,
        ensures
            ({
                let fi = spec_clamp_frame(current_frame as int, old(shp).frames@.len() as int);
                let old_px = if old(shp).frames@.len() > 0 {
                    old(shp).frames@[fi].pixels@
                } else {
                    Seq::empty()
                };
                &&& step == redo_step(old(self)@, fi)
                &&& final(self)@ == spec_redo(old(self)@, old_px, fi).0
                &&& only_frame_changed(*old(shp), *final(shp), fi, spec_redo(old(self)@, old_px, fi).1)
            }),
    {
        let fi = clamp_frame_index(current_frame, shp.frames.len());
        if let Some(a) = self.undo_frame_anchor {
            if a != fi {
                self.reset(fi);
                return HistoryStep::Reset;
            }
        }
        let ghost old_h = self@;
        match self.redo_stack.pop() {
            Some(next) => {
                let mut cur = next;
                std::mem::swap(&mut cur, &mut shp.frames[fi].pixels);
                self.undo_stack.push(cur);
                assert(self@.redo =~= old_h.redo.drop_last());
                assert(self@.undo =~= old_h.undo.push(old(shp).frames@[fi as int].pixels@));
                HistoryStep::Applied
            },
            None => HistoryStep::Nothing,
        }
    }
}

/// Redo right after an undo that applied gives back the history and the
/// frame as they were before the undo.
pub proof fn lemma_redo_reverts_undo(h: HistoryModel, px: Seq<u8>, fi: int)
    requires
        undo_step(h, fi) == HistoryStep::Applied,
    ensures
        redo_step(spec_undo(h, px, fi).0, fi) == HistoryStep::Applied,
        spec_redo(spec_undo(h, px, fi).0, spec_undo(h, px, fi).1, fi) == (h, px),
{
    let (h1, p1) = spec_undo(h, px, fi);
    assert(h1.undo.push(p1) =~= h.undo);
    assert(h1.redo.drop_last() =~= h.redo);
}

/// Undo right after a redo that applied gives back the history and the
/// frame as they were before the redo.
pub proof fn lemma_undo_reverts_redo(h: HistoryModel, px: Seq<u8>, fi: int)
    requires
        redo_step(h, fi) == HistoryStep::Applied,
    ensures
        undo_step(spec_redo(h, px, fi).0, fi) == HistoryStep::Applied,
        spec_undo(spec_redo(h, px, fi).0, spec_redo(h, px, fi).1, fi) == (h, px),
{
    let (h1, p1) = spec_redo(h, px, fi);
    assert(h1.redo.push(p1) =~= h.redo);
    assert(h1.undo.drop_last() =~= h.undo);
}

/// Undo right after recording a snapshot of frame `fi` brings that snapshot
/// back, and the pixels it replaces can be redone; recording needs room for
/// at least one snapshot and the history must not belong to another frame.
pub proof fn lemma_undo_restores_recorded(h: HistoryModel, snap: Seq<u8>, px: Seq<u8>, fi: int)
    requires
        h.max >= 1,
        !belongs_elsewhere(h, fi),
    ensures
        undo_step(spec_record(h, snap), fi) == HistoryStep::Applied,
        spec_undo(spec_record(h, snap), px, fi).1 == snap,
        spec_undo(spec_record(h, snap), px, fi).0.redo == seq![px],
{
    let r = spec_record(h, snap);
    assert(r.undo.len() >= 1);
    assert(r.undo.last() == snap);
    assert(Seq::<Seq<u8>>::empty().push(px) =~= seq![px]);
}

/// The snapshots kept never outnumber the limit: every operation keeps
/// `undo + redo <= max`.
pub proof fn lemma_history_within_limit(h: HistoryModel, snap: Seq<u8>, px: Seq<u8>, fi: int, cur: int)
    requires
        h.undo.len() + h.redo.len() <= h.max,
    ensures
        spec_record(h, snap).undo.len() + spec_record(h, snap).redo.len() <= h.max,
        spec_undo(h, px, fi).0.undo.len() + spec_undo(h, px, fi).0.redo.len() <= h.max,
        spec_redo(h, px, fi).0.undo.len() + spec_redo(h, px, fi).0.redo.len() <= h.max,
        spec_follow_frame(h, cur).undo.len() + spec_follow_frame(h, cur).redo.len() <= h.max,
        spec_reset(h, fi).undo.len() + spec_reset(h, fi).redo.len() <= h.max,
{
}

} // verus!
