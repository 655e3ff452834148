//! The durable sync state machine and the branch-tip backup.
//!
//! A [`SyncState`] exists exactly while a sync is mid-flight. It advances
//! monotonically: [`SyncState::begin_next`] moves the head of `remaining`
//! into `current` before a rebase, and [`SyncState::advance`] moves
//! `current` into `completed` after it succeeds. Both keep the planned set
//! — `completed`, then `current`, then `remaining` — exactly as it was, so
//! a run resumed after a crash works through the same branches in the same
//! order as an uninterrupted one.

use vstd::prelude::*;

use crate::branch_name::BranchName;
use crate::stack::names_of;

verus! {

/// Mathematical record of the sync state machine.
pub ghost struct SyncRec {
    /// Identifier of the backup taken when the sync began.
    pub backup_id: Seq<char>,
    /// Branches already rebased, in the order they finished.
    pub completed: Seq<Seq<char>>,
    /// The branch being rebased right now, if any.
    pub current: Option<Seq<char>>,
    /// Branches still to rebase, in plan order.
    pub remaining: Seq<Seq<char>>,
}

/// An optional name as a sequence of zero or one names.
pub open spec fn opt_name(o: Option<Seq<char>>) -> Seq<Seq<char>> {
    match o {
        Some(n) => seq![n],
        None => Seq::empty(),
    }
}

/// The planned set, in order: finished, in flight, still to do.
pub open spec fn planned(r: SyncRec) -> Seq<Seq<char>> {
    r.completed + opt_name(r.current) + r.remaining
}

/// The in-progress marker of a sync: present exactly while one is
/// mid-flight, persisted before every rebase.
#[derive(Debug)]
pub struct SyncState {
    /// Identifier of the backup taken when the sync began.
    pub backup_id: String,
    /// Branches already rebased, in the order they finished.
    pub completed: Vec<BranchName>,
    /// The branch being rebased right now, if any.
    pub current: Option<BranchName>,
    /// Branches still to rebase, in plan order.
    pub remaining: Vec<BranchName>,
}

impl View for SyncState {
    type V = SyncRec;

    open spec fn view(&self) -> SyncRec {
        SyncRec {
            backup_id: self.backup_id@,
            completed: names_of(self.completed@),
            current: match self.current {
                Some(c) => Some(c@),
                None => None,
            },
            remaining: names_of(self.remaining@),
        }
    }
}

impl SyncState {
    /// A fresh sync over the given branches: nothing finished, nothing in
    /// flight.
    pub fn new(backup_id: String, branches: Vec<BranchName>) -> (r: SyncState)
        ensures
            r@.backup_id == backup_id@,
            r@.completed =~= Seq::<Seq<char>>::empty(),
            r@.current is None,
            r@.remaining == names_of(branches@),
            planned(r@) =~= names_of(branches@),
    {
        let r = SyncState { backup_id, completed: Vec::new(), current: None,
            remaining: branches };
        proof {
            assert(names_of(r.completed@) =~= Seq::<Seq<char>>::empty());
        }
        r
    }

    /// Move the head of `remaining` into `current`, returning the branch to
    /// rebase next; `None` when nothing remains. The planned set is kept.
    pub fn begin_next(&mut self) -> (r: Option<BranchName>)
        requires
            old(self)@.current is None,
        ensures
            planned(final(self)@) =~= planned(old(self)@),
            final(self)@.backup_id == old(self)@.backup_id,
            final(self)@.completed == old(self)@.completed,
            match r {
                None => final(self)@ == old(self)@ && old(self)@.remaining.len() == 0,
                Some(b) => old(self)@.remaining.len() > 0
                    && b@ == old(self)@.remaining[0]
                    && final(self)@.current == Some(old(self)@.remaining[0])
                    && final(self)@.remaining == old(self)@.remaining.drop_first(),
            },
    {
        if self.remaining.len() == 0 {
            return None;
        }
        let b = self.remaining.remove(0);
        let ghost oldrem = names_of(old(self).remaining@);
        proof {
            assert(names_of(self.remaining@) =~= oldrem.drop_first());
        }
        let out = b.duplicate();
        self.current = Some(b);
        proof {
            assert(opt_name(self@.current) + self@.remaining =~= oldrem);
            assert(planned(self@) =~= planned(old(self)@));
        }
        Some(out)
    }

    /// Move `current` into `completed` after its rebase succeeded. The
    /// planned set is kept.
    pub fn advance(&mut self)
        requires
            old(self)@.current is Some,
        ensures
            planned(final(self)@) =~= planned(old(self)@),
            final(self)@.backup_id == old(self)@.backup_id,
            final(self)@.completed == old(self)@.completed.push(
                old(self)@.current.unwrap()),
            final(self)@.current is None,
            final(self)@.remaining == old(self)@.remaining,
    {
        let mut cur: Option<BranchName> = None;
        core::mem::swap(&mut cur, &mut self.current);
        match cur {
            Some(c) => {
                let ghost oldc = names_of(old(self).completed@);
                self.completed.push(c);
                proof {
                    assert(names_of(self.completed@) =~= oldc.push(old(self)@.current.unwrap()));
                    assert(planned(self@) =~= planned(old(self)@));
                }
            },
            None => {
                proof {
                    assert(false);
                }
            },
        }
    }

    /// How many branches have finished.
    pub fn completed_count(&self) -> (r: usize)
        ensures
            r == self@.completed.len(),
    {
        self.completed.len()
    }
}

/// Law: the machine is resumable. However a run is cut into steps, a state
/// that has worked through everything — nothing in flight, nothing
/// remaining — has completed exactly the planned set of the state it
/// started from, in order, since every step keeps that set.
pub proof fn lemma_resumable(init: SyncRec, fin: SyncRec)
    requires
        planned(fin) == planned(init),
        fin.current is None,
        fin.remaining.len() == 0,
    ensures
        fin.completed == planned(init),
{
    assert(fin.completed =~= planned(fin));
}

/// Mathematical record of one backed-up branch tip.
pub ghost struct BackupEntryRec {
    /// The branch.
    pub branch: Seq<char>,
    /// Its tip before the sync began.
    pub commit: Seq<char>,
}

/// One backed-up branch tip.
#[derive(Debug)]
pub struct BackupEntry {
    /// The branch.
    pub branch: BranchName,
    /// Its tip before the sync began.
    pub commit: String,
}

impl View for BackupEntry {
    type V = BackupEntryRec;

    open spec fn view(&self) -> BackupEntryRec {
        BackupEntryRec { branch: self.branch@, commit: self.commit@ }
    }
}

impl BackupEntry {
    /// An owned copy of this entry.
    pub fn duplicate(&self) -> (r: BackupEntry)
        ensures
            r@ == self@,
    {
        BackupEntry { branch: self.branch.duplicate(), commit: self.commit.clone() }
    }
}

/// The views of a list of backup entries.
pub open spec fn entry_views(v: Seq<BackupEntry>) -> Seq<BackupEntryRec> {
    v.map(|i: int, e: BackupEntry| e@)
}

/// A snapshot of branch tips taken before a sync, kept until `undo` or
/// `abort` consumes it or a later sync retires it.
#[derive(Debug)]
pub struct Backup {
    /// Identifier: lexicographically sortable, so the latest can be found.
    pub id: String,
    /// Every planned branch with its pre-sync tip.
    pub entries: Vec<BackupEntry>,
}

} // verus!
