//! Undo history: a bounded stack of project snapshots with a cursor.
//!
//! Snapshots are committed after each edit; undo and redo move the cursor.
//! A commit drops every snapshot after the cursor (the redo branch) and, once
//! the stack exceeds its capacity, the oldest snapshot.

use vstd::prelude::*;

verus! {

/// Capacity of a new history (number of snapshots kept).
pub const HISTORY_CAP: usize = 100;

/// Abstract state of a history: the snapshots, the cursor and the capacity.
pub struct HistoryModel<T> {
    pub states: Seq<T>,
    pub pos: int,
    pub cap: int,
}

impl<T> HistoryModel<T> {
    /// At least one snapshot, at most `cap`, and the cursor on one of them.
    pub open spec fn wf(self) -> bool {
        &&& 2 <= self.cap
        &&& 1 <= self.states.len() <= self.cap
        &&& 0 <= self.pos < self.states.len()
    }

    pub open spec fn current(self) -> T {
        self.states[self.pos]
    }

    pub open spec fn can_undo(self) -> bool {
        self.pos > 0
    }

    pub open spec fn can_redo(self) -> bool {
        self.pos + 1 < self.states.len()
    }

    /// Keep the snapshots up to the cursor, append `p`, drop the oldest when
    /// over capacity, and put the cursor on `p`.
    pub open spec fn commit(self, p: T) -> HistoryModel<T> {
        let kept = self.states.take(self.pos + 1).push(p);
        if kept.len() > self.cap {
            HistoryModel { states: kept.drop_first(), pos: kept.len() - 2, cap: self.cap }
        } else {
            HistoryModel { states: kept, pos: kept.len() - 1, cap: self.cap }
        }
    }

    pub open spec fn undo(self) -> HistoryModel<T> {
        if self.can_undo() {
            HistoryModel { pos: self.pos - 1, ..self }
        } else {
            self
        }
    }

    pub open spec fn redo(self) -> HistoryModel<T> {
        if self.can_redo() {
            HistoryModel { pos: self.pos + 1, ..self }
        } else {
            self
        }
    }
}

/// Bounded undo/redo stack of snapshots.
pub struct History<T> {
    stack: Vec<T>,
    pos: usize,
    cap: usize,
}

impl<T> View for History<T> {
    type V = HistoryModel<T>;

    closed spec fn view(&self) -> HistoryModel<T> {
        HistoryModel { states: self.stack@, pos: self.pos as int, cap: self.cap as int }
    }
}

impl<T> History<T> {
    /// A history holding the single snapshot `p`.
    pub fn new(p: T) -> (r: Self)
        ensures
            r@ == (HistoryModel { states: seq![p], pos: 0, cap: HISTORY_CAP as int }),
            r@.wf(),
    {
        let mut stack = Vec::new();
        stack.push(p);
        History { stack, pos: 0, cap: HISTORY_CAP }
    }

    /// The snapshot under the cursor.
    pub fn current(&self) -> (r: &T)
        requires
            self@.wf(),
        ensures
            *r == self@.current(),
    {
        &self.stack[self.pos]
    }

    /// Record `p` as the newest snapshot.
    pub fn commit(&mut self, p: T)
        requires
            old(self)@.wf(),
        ensures
            final(self)@ == old(self)@.commit(p),
            final(self)@.wf(),
            final(self)@.cap == old(self)@.cap,
    {
        let ghost kept = self@.states.take(self@.pos + 1).push(p);
        self.stack.truncate(self.pos + 1);
        self.stack.push(p);
        assert(self.stack@ =~= kept);
        if self.stack.len() > self.cap {
            self.stack.remove(0);
            assert(self.stack@ =~= kept.drop_first());
        }
        self.pos = self.stack.len() - 1;
    }

    /// Step the cursor back; false when already at the oldest snapshot.
    pub fn undo(&mut self) -> (r: bool)
        requires
            old(self)@.wf(),
        ensures
            r == old(self)@.can_undo(),
            final(self)@ == old(self)@.undo(),
            final(self)@.wf(),
    {
        if self.pos > 0 {
            self.pos -= 1;
            true
        } else {
            false
        }
    }

    /// Step the cursor forward; false when already at the newest snapshot.
    pub fn redo(&mut self) -> (r: bool)
        requires
            old(self)@.wf(),
        ensures
            r == old(self)@.can_redo(),
            final(self)@ == old(self)@.redo(),
            final(self)@.wf(),
    {
        if self.pos + 1 < self.stack.len() {
            self.pos += 1;
            true
        } else {
            false
        }
    }

    pub fn can_undo(&self) -> (r: bool)
        requires
            self@.wf(),
        ensures
            r == self@.can_undo(),
    {
        self.pos > 0
    }

    pub fn can_redo(&self) -> (r: bool)
        requires
            self@.wf(),
        ensures
            r == self@.can_redo(),
    {
        self.pos + 1 < self.stack.len()
    }
}

// ------------------------------------------------------------------ laws

/// A commit puts the cursor on the new snapshot, leaves nothing to redo, and
/// keeps the history well formed and within its capacity.
pub proof fn lemma_commit_current<T>(h: HistoryModel<T>, p: T)
    requires
        h.wf(),
    ensures
        h.commit(p).wf(),
        h.commit(p).current() == p,
        !h.commit(p).can_redo(),
        h.commit(p).states.len() <= h.cap,
{
}

/// Undo right after a commit returns to the snapshot that was current before
/// the commit.
pub proof fn lemma_commit_then_undo<T>(h: HistoryModel<T>, p: T)
    requires
        h.wf(),
    ensures
        h.commit(p).can_undo(),
        h.commit(p).undo().current() == h.current(),
{
    let kept = h.states.take(h.pos + 1).push(p);
    assert(kept[h.pos] == h.current());
    if kept.len() > h.cap {
        assert(kept.drop_first()[h.pos - 1] == kept[h.pos]);
    }
}

/// Redo undoes an undo.
pub proof fn lemma_undo_then_redo<T>(h: HistoryModel<T>)
    requires
        h.wf(),
        h.can_undo(),
    ensures
        h.undo().can_redo(),
        h.undo().redo() == h,
{
}

/// Undo undoes a redo.
pub proof fn lemma_redo_then_undo<T>(h: HistoryModel<T>)
    requires
        h.wf(),
        h.can_redo(),
    ensures
        h.redo().can_undo(),
        h.redo().undo() == h,
{
}

/// Undo and redo only move the cursor: the snapshots stay as they are.
pub proof fn lemma_undo_redo_keep_states<T>(h: HistoryModel<T>)
    requires
        h.wf(),
    ensures
        h.undo().states == h.states,
        h.redo().states == h.states,
        h.undo().wf(),
        h.redo().wf(),
{
}

/// The history after committing each of `ps` in turn.
pub open spec fn commit_all<T>(h: HistoryModel<T>, ps: Seq<T>) -> HistoryModel<T>
    decreases ps.len(),
{
    if ps.len() == 0 {
        h
    } else {
        commit_all(h, ps.drop_last()).commit(ps.last())
    }
}

/// The history after `k` undos.
pub open spec fn undo_n<T>(h: HistoryModel<T>, k: nat) -> HistoryModel<T>
    decreases k,
{
    if k == 0 {
        h
    } else {
        undo_n(h, (k - 1) as nat).undo()
    }
}

/// How many of the oldest snapshots a history of capacity `cap` has dropped
/// after holding `n` snapshots in all.
pub open spec fn dropped(n: int, cap: int) -> int {
    if n > cap {
        n - cap
    } else {
        0
    }
}

proof fn lemma_commit_all_fresh<T>(p0: T, cap: int, ps: Seq<T>)
    requires
        2 <= cap,
    ensures
        ({
            let all = seq![p0] + ps;
            let h = commit_all(HistoryModel { states: seq![p0], pos: 0, cap }, ps);
            &&& h.wf()
            &&& h.cap == cap
            &&& h.states == all.skip(dropped(all.len() as int, cap))
            &&& h.pos == h.states.len() - 1
        }),
    decreases ps.len(),
{
    let h0 = HistoryModel { states: seq![p0], pos: 0, cap };
    if ps.len() == 0 {
        assert(seq![p0] + ps =~= seq![p0]);
        assert(seq![p0].skip(0) =~= seq![p0]);
    } else {
        let q = ps.drop_last();
        lemma_commit_all_fresh(p0, cap, q);
        let h = commit_all(h0, q);
        let all = seq![p0] + q;
        let all2 = seq![p0] + ps;
        assert(all2 =~= all.push(ps.last()));
        assert(h.states.take(h.pos + 1) =~= h.states);
        let kept = h.states.push(ps.last());
        if kept.len() > cap {
            assert(kept.drop_first() =~= all2.skip(dropped(all2.len() as int, cap)));
        } else {
            assert(kept =~= all2.skip(dropped(all2.len() as int, cap)));
        }
    }
}

proof fn lemma_undo_n<T>(h: HistoryModel<T>, k: nat)
    requires
        h.wf(),
        k <= h.pos,
    ensures
        undo_n(h, k) == (HistoryModel { pos: h.pos - k, ..h }),
    decreases k,
{
    if k > 0 {
        lemma_undo_n(h, (k - 1) as nat);
    }
}

/// Starting from one snapshot `p0` and committing each of `ps`, the history
/// keeps at most `cap` snapshots, the newest ones; undo then succeeds exactly
/// as many times as there are older snapshots kept, stepping back through
/// them. (With `cap` 100 and 150 commits: 99 undos succeed, the 100th does
/// not, and the snapshot reached is the 51st commit.)
pub proof fn lemma_commits_then_undos<T>(p0: T, cap: int, ps: Seq<T>)
    requires
        2 <= cap,
    ensures
        ({
            let all = seq![p0] + ps;
            let h = commit_all(HistoryModel { states: seq![p0], pos: 0, cap }, ps);
            let n = h.states.len() - 1;
            &&& h.states.len() <= cap
            &&& h.states == all.skip(dropped(all.len() as int, cap))
            &&& forall|k: nat| k < n ==> (#[trigger] undo_n(h, k)).can_undo()
            &&& !undo_n(h, n as nat).can_undo()
            &&& forall|k: nat| k <= n ==> (#[trigger] undo_n(h, k)).current() == all[all.len() - 1 - k]
        }),
{
    lemma_commit_all_fresh(p0, cap, ps);
    let all = seq![p0] + ps;
    let h = commit_all(HistoryModel { states: seq![p0], pos: 0, cap }, ps);
    let n = h.states.len() - 1;
    assert forall|k: nat| k <= n implies (#[trigger] undo_n(h, k)).current() == all[all.len() - 1 - k]
        && (k < n ==> undo_n(h, k).can_undo()) by {
        lemma_undo_n(h, k);
    }
    lemma_undo_n(h, n as nat);
}

} // verus!
