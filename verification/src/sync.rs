//! The sync engine: planning which branches to rebase, the execution state
//! machine, reconciliation of externally merged branches, stale cleanup,
//! and the continue / abort / undo recovery paths.
//!
//! The engine is pure: it decides, and the surrounding program performs.
//! Repository facts come in as a [`RepoView`] — branch tips and merge
//! bases read from the working copy — and rebase outcomes come back as
//! [`RebaseEvent`] values. The contracts pin down every decision as a
//! function of those plain values.

use vstd::prelude::*;
use vstd::string::*;

use crate::branch_name::BranchName;
use crate::errors::Error;
use crate::stack::{
    contains_name, names_of, parent_of, rec_of, reconcile_one, reparent_views, reparents_rec,
    stack_wf, BranchRec, Reparent, Stack,
};
use crate::state::{entry_views, Backup, BackupEntry, BackupEntryRec, SyncState};

verus! {

/// Mathematical record of one observed branch tip.
pub ghost struct TipRec {
    /// The branch.
    pub branch: Seq<char>,
    /// Its tip commit.
    pub commit: Seq<char>,
}

/// One observed local branch tip.
#[derive(Debug)]
pub struct TipEntry {
    /// The branch.
    pub branch: String,
    /// Its tip commit.
    pub commit: String,
}

impl View for TipEntry {
    type V = TipRec;

    open spec fn view(&self) -> TipRec {
        TipRec { branch: self.branch@, commit: self.commit@ }
    }
}

/// Mathematical record of one observed merge base.
pub ghost struct MbRec {
    /// First commit.
    pub a: Seq<char>,
    /// Second commit.
    pub b: Seq<char>,
    /// Their merge base.
    pub base: Seq<char>,
}

/// One observed merge base between two commits.
#[derive(Debug)]
pub struct MergeBaseEntry {
    /// First commit.
    pub a: String,
    /// Second commit.
    pub b: String,
    /// Their merge base.
    pub base: String,
}

impl View for MergeBaseEntry {
    type V = MbRec;

    open spec fn view(&self) -> MbRec {
        MbRec { a: self.a@, b: self.b@, base: self.base@ }
    }
}

/// Mathematical record of a repository view.
pub ghost struct RepoRec {
    /// The observed branch tips; one entry per existing local branch asked
    /// about.
    pub tips: Seq<TipRec>,
    /// The observed merge bases.
    pub merge_bases: Seq<MbRec>,
}

/// What the engine knows of the repository: the tips of the branches it
/// asked about — a branch with no entry does not exist locally — and the
/// merge bases of the commit pairs it asked about.
#[derive(Debug)]
pub struct RepoView {
    /// The observed branch tips.
    pub tips: Vec<TipEntry>,
    /// The observed merge bases.
    pub merge_bases: Vec<MergeBaseEntry>,
}

impl View for RepoView {
    type V = RepoRec;

    open spec fn view(&self) -> RepoRec {
        RepoRec {
            tips: self.tips@.map(|i: int, t: TipEntry| t@),
            merge_bases: self.merge_bases@.map(|i: int, m: MergeBaseEntry| m@),
        }
    }
}

/// The tip recorded for a branch, if any.
pub open spec fn tip_of(tips: Seq<TipRec>, name: Seq<char>) -> Option<Seq<char>>
    decreases tips.len(),
{
    if tips.len() == 0 {
        None
    } else if tips[0].branch == name {
        Some(tips[0].commit)
    } else {
        tip_of(tips.drop_first(), name)
    }
}

/// The merge base recorded for a pair of commits, if any.
pub open spec fn mb_of(mbs: Seq<MbRec>, a: Seq<char>, b: Seq<char>) -> Option<Seq<char>>
    decreases mbs.len(),
{
    if mbs.len() == 0 {
        None
    } else if mbs[0].a == a && mbs[0].b == b {
        Some(mbs[0].base)
    } else {
        mb_of(mbs.drop_first(), a, b)
    }
}

/// Look a branch tip up in a view.
fn lookup_tip(tips: &Vec<TipEntry>, name: &str) -> (r: Option<String>)
    ensures
        (match r {
            Some(c) => Some(c@),
            None => None::<Seq<char>>,
        }) == tip_of(tips@.map(|i: int, t: TipEntry| t@), name@),
{
    let ghost s = tips@.map(|i: int, t: TipEntry| t@);
    let key = String::from_str(name);
    let n = tips.len();
    let mut i: usize = 0;
    proof {
        assert(s.skip(0) =~= s);
    }
    while i < n
        invariant
            i <= n,
            n == s.len(),
            s == tips@.map(|k: int, t: TipEntry| t@),
            key@ == name@,
            tip_of(s, name@) == tip_of(s.skip(i as int), name@),
        decreases n - i,
    {
        proof {
            assert(s.skip(i as int)[0] == s[i as int]);
            assert(s.skip(i as int).drop_first() =~= s.skip(i + 1 as int));
        }
        if tips[i].branch == key {
            return Some(tips[i].commit.clone());
        }
        i += 1;
    }
    proof {
        assert(s.skip(n as int) =~= Seq::<TipRec>::empty());
    }
    None
}

/// Look a merge base up in a view.
fn lookup_mb(mbs: &Vec<MergeBaseEntry>, a: &String, b: &String) -> (r: Option<String>)
    ensures
        (match r {
            Some(c) => Some(c@),
            None => None::<Seq<char>>,
        }) == mb_of(mbs@.map(|i: int, m: MergeBaseEntry| m@), a@, b@),
{
    let ghost s = mbs@.map(|i: int, m: MergeBaseEntry| m@);
    let n = mbs.len();
    let mut i: usize = 0;
    proof {
        assert(s.skip(0) =~= s);
    }
    while i < n
        invariant
            i <= n,
            n == s.len(),
            s == mbs@.map(|k: int, m: MergeBaseEntry| m@),
            mb_of(s, a@, b@) == mb_of(s.skip(i as int), a@, b@),
        decreases n - i,
    {
        proof {
            assert(s.skip(i as int)[0] == s[i as int]);
            assert(s.skip(i as int).drop_first() =~= s.skip(i + 1 as int));
        }
        if mbs[i].a == *a && mbs[i].b == *b {
            return Some(mbs[i].base.clone());
        }
        i += 1;
    }
    proof {
        assert(s.skip(n as int) =~= Seq::<MbRec>::empty());
    }
    None
}

/// Mathematical record of one planned rebase.
pub ghost struct ActionRec {
    /// The branch to rebase.
    pub branch: Seq<char>,
    /// Where it currently diverges from its parent: the merge base.
    pub old_base: Seq<char>,
    /// The parent's current tip, onto which it will be rebased.
    pub new_base: Seq<char>,
}

/// A single rebase in the sync plan.
#[derive(Debug)]
pub struct SyncAction {
    /// The branch to rebase.
    pub branch: BranchName,
    /// Where it currently diverges from its parent: the merge base.
    pub old_base: String,
    /// The parent's current tip, onto which it will be rebased.
    pub new_base: String,
}

impl View for SyncAction {
    type V = ActionRec;

    open spec fn view(&self) -> ActionRec {
        ActionRec { branch: self.branch@, old_base: self.old_base@, new_base: self.new_base@ }
    }
}

/// The views of a list of actions.
pub open spec fn action_views(v: Seq<SyncAction>) -> Seq<ActionRec> {
    v.map(|i: int, a: SyncAction| a@)
}

/// The rebases a stack needs, in stack order.
#[derive(Debug)]
pub struct SyncPlan {
    /// The rebases to perform, parents before children.
    pub branches: Vec<SyncAction>,
}

impl View for SyncPlan {
    type V = Seq<ActionRec>;

    open spec fn view(&self) -> Seq<ActionRec> {
        action_views(self.branches@)
    }
}

impl SyncPlan {
    /// Whether nothing needs rebasing.
    pub fn is_empty(&self) -> (r: bool)
        ensures
            r == (self@.len() == 0),
    {
        self.branches.len() == 0
    }
}

/// The plan for a stack against a view: one action per branch whose merge
/// base with its parent is not the parent's tip, in stack order — or the
/// first name whose tip the view is missing.
pub open spec fn plan_rec(s: Seq<BranchRec>, base: Seq<char>, tips: Seq<TipRec>,
    mbs: Seq<MbRec>) -> Result<Seq<ActionRec>, Seq<char>>
    decreases s.len(),
{
    if s.len() == 0 {
        Ok(Seq::empty())
    } else {
        let b = s[0];
        let parent = match b.parent {
            Some(p) => p,
            None => base,
        };
        if b.parent is None && tip_of(tips, base) is None {
            Err(base)
        } else {
            match tip_of(tips, b.name) {
                None => Err(b.name),
                Some(tb) => match tip_of(tips, parent) {
                    None => Err(parent),
                    Some(tp) => match mb_of(mbs, tb, tp) {
                        None => Err(parent),
                        Some(mb) => match plan_rec(s.drop_first(), base, tips, mbs) {
                            Err(e) => Err(e),
                            Ok(rest) => Ok(
                                if mb != tp {
                                    seq![ActionRec { branch: b.name, old_base: mb,
                                        new_base: tp }] + rest
                                } else {
                                    rest
                                },
                            ),
                        },
                    },
                },
            }
        }
    }
}

/// Compute the sync plan for a stack: for each branch in stack order, read
/// its tip and its parent's tip from the view, find their merge base, and
/// plan a rebase whenever that merge base is not the parent's tip. A branch
/// or merge base the view does not hold is reported as not found.
pub fn create_sync_plan(view: &RepoView, stack: &Stack, base_branch: &str)
    -> (r: Result<SyncPlan, Error>)
    ensures
        match r {
            Ok(plan) => plan_rec(stack@, base_branch@, view@.tips, view@.merge_bases)
                == Ok::<_, Seq<char>>(plan@),
            Err(e) => e matches Error::BranchNotFound(n)
                && plan_rec(stack@, base_branch@, view@.tips, view@.merge_bases)
                    == Err::<Seq<ActionRec>, _>(n@),
        },
{
    let ghost s = stack@;
    let ghost tips = view@.tips;
    let ghost mbs = view@.merge_bases;
    let n = stack.branches.len();
    let mut actions: Vec<SyncAction> = Vec::new();
    let mut i: usize = 0;
    proof {
        assert(s.skip(0) =~= s);
        assert(action_views(actions@) =~= Seq::<ActionRec>::empty());
    }
    while i < n
        invariant
            i <= n,
            n == s.len(),
            s == stack@,
            tips == view@.tips,
            mbs == view@.merge_bases,
            plan_rec(s, base_branch@, tips, mbs) == (match plan_rec(s.skip(i as int),
                base_branch@, tips, mbs) {
                Ok(rest) => Ok::<_, Seq<char>>(action_views(actions@) + rest),
                Err(e) => Err::<Seq<ActionRec>, _>(e),
            }),
        decreases n - i,
    {
        let ghost rest = s.skip(i as int);
        proof {
            assert(rest[0] == s[i as int]);
            assert(rest.drop_first() =~= s.skip(i + 1 as int));
        }
        let b = &stack.branches[i];
        if b.parent.is_none() {
            if lookup_tip(&view.tips, base_branch).is_none() {
                return Err(Error::BranchNotFound(String::from_str(base_branch)));
            }
        }
        let tb = match lookup_tip(&view.tips, b.name.as_str()) {
            None => {
                return Err(Error::BranchNotFound(String::from_str(b.name.as_str())));
            },
            Some(c) => c,
        };
        let parent_name: &str = match &b.parent {
            Some(p) => p.as_str(),
            None => base_branch,
        };
        let tp = match lookup_tip(&view.tips, parent_name) {
            None => {
                return Err(Error::BranchNotFound(String::from_str(parent_name)));
            },
            Some(c) => c,
        };
        let mb = match lookup_mb(&view.merge_bases, &tb, &tp) {
            None => {
                return Err(Error::BranchNotFound(String::from_str(parent_name)));
            },
            Some(c) => c,
        };
        proof {
            let par = match s[i as int].parent {
                Some(p) => p,
                None => base_branch@,
            };
            assert(parent_name@ == par);
            assert(tip_of(tips, s[i as int].name) == Some(tb@));
            assert(tip_of(tips, par) == Some(tp@));
            assert(mb_of(mbs, tb@, tp@) == Some(mb@));
        }
        let ghost act = ActionRec { branch: s[i as int].name, old_base: mb@, new_base: tp@ };
        if mb != tp {
            let ghost before = action_views(actions@);
            actions.push(SyncAction { branch: b.name.duplicate(), old_base: mb, new_base: tp });
            proof {
                assert(action_views(actions@) =~= before + seq![act]);
                match plan_rec(s.skip(i + 1 as int), base_branch@, tips, mbs) {
                    Ok(r2) => {
                        assert(before + (seq![act] + r2) =~= (before + seq![act]) + r2);
                    },
                    Err(_) => {},
                }
            }
        }
        i += 1;
    }
    proof {
        assert(s.skip(n as int) =~= Seq::<BranchRec>::empty());
        assert(action_views(actions@) + Seq::<ActionRec>::empty() =~= action_views(actions@));
    }
    Ok(SyncPlan { branches: actions })
}

/// Result of a sync operation.
#[derive(Debug)]
pub enum SyncResult {
    /// The stack was already up to date.
    AlreadySynced,
    /// Every planned rebase finished.
    Complete {
        /// How many branches were rebased.
        branches_rebased: usize,
        /// The backup kept for a later undo.
        backup_id: String,
    },
    /// A rebase stopped on conflicts; the state is saved for resumption.
    Paused {
        /// The branch whose rebase conflicted.
        at_branch: String,
        /// The conflicting files.
        conflict_files: Vec<String>,
        /// The backup available for an abort.
        backup_id: String,
    },
}

/// The backup for a plan: each planned branch with its tip from the view,
/// in plan order — or the first planned name whose tip is missing.
pub open spec fn backup_spec(tips: Seq<TipRec>, plan: Seq<ActionRec>)
    -> Result<Seq<BackupEntryRec>, Seq<char>>
    decreases plan.len(),
{
    if plan.len() == 0 {
        Ok(Seq::empty())
    } else {
        match tip_of(tips, plan[0].branch) {
            None => Err(plan[0].branch),
            Some(c) => match backup_spec(tips, plan.drop_first()) {
                Err(e) => Err(e),
                Ok(rest) => Ok(seq![BackupEntryRec { branch: plan[0].branch, commit: c }] + rest),
            },
        }
    }
}

/// A sync that found work: the snapshot to persist and the fresh state
/// machine, both to be written before the first rebase runs.
#[derive(Debug)]
pub struct SyncRun {
    /// Every planned branch's pre-sync tip.
    pub backup: Backup,
    /// The in-progress marker: nothing completed, everything remaining.
    pub state: SyncState,
}

/// How a sync begins.
#[derive(Debug)]
pub enum SyncStart {
    /// Empty plan: nothing to do.
    AlreadySynced,
    /// The snapshot and state machine for a run over a non-empty plan.
    Begun(SyncRun),
}

/// Begin executing a plan. An empty plan is already synced. Otherwise the
/// returned backup snapshots every planned branch's current tip and the
/// returned state lists every planned branch as remaining; the caller
/// persists both before performing the first rebase, then works through
/// the plan with [`SyncState::begin_next`] and [`apply_rebase_event`].
pub fn execute_sync(view: &RepoView, plan: &SyncPlan, backup_id: String)
    -> (r: Result<SyncStart, Error>)
    ensures
        plan@.len() == 0 ==> (r matches Ok(SyncStart::AlreadySynced)),
        plan@.len() > 0 ==> match r {
            Ok(start) => start matches SyncStart::Begun(run)
                && backup_spec(view@.tips, plan@)
                    == Ok::<_, Seq<char>>(entry_views(run.backup.entries@))
                && run.backup.id@ == backup_id@
                && run.state@.backup_id == backup_id@
                && run.state@.completed =~= Seq::<Seq<char>>::empty()
                && run.state@.current is None
                && run.state@.remaining =~= plan@.map(|i: int, a: ActionRec| a.branch),
            Err(e) => e matches Error::BranchNotFound(n)
                && backup_spec(view@.tips, plan@) == Err::<Seq<BackupEntryRec>, _>(n@),
        },
{
    if plan.is_empty() {
        return Ok(SyncStart::AlreadySynced);
    }
    let ghost tips = view@.tips;
    let ghost p = plan@;
    let n = plan.branches.len();
    let mut entries: Vec<BackupEntry> = Vec::new();
    let mut names: Vec<BranchName> = Vec::new();
    let mut i: usize = 0;
    proof {
        assert(p.skip(0) =~= p);
        assert(entry_views(entries@) =~= Seq::<BackupEntryRec>::empty());
        assert(names_of(names@) =~= Seq::<Seq<char>>::empty());
    }
    while i < n
        invariant
            i <= n,
            n == p.len(),
            p == plan@,
            tips == view@.tips,
            backup_spec(tips, p) == (match backup_spec(tips, p.skip(i as int)) {
                Ok(rest) => Ok::<_, Seq<char>>(entry_views(entries@) + rest),
                Err(e) => Err::<Seq<BackupEntryRec>, _>(e),
            }),
            names_of(names@) =~= p.subrange(0, i as int).map(|k: int, a: ActionRec| a.branch),
        decreases n - i,
    {
        let ghost rest = p.skip(i as int);
        proof {
            assert(rest[0] == p[i as int]);
            assert(rest.drop_first() =~= p.skip(i + 1 as int));
        }
        let a = &plan.branches[i];
        let commit = match lookup_tip(&view.tips, a.branch.as_str()) {
            None => {
                return Err(Error::BranchNotFound(String::from_str(a.branch.as_str())));
            },
            Some(c) => c,
        };
        let ghost ebefore = entry_views(entries@);
        let ghost nbefore = names_of(names@);
        let ghost entry = BackupEntryRec { branch: p[i as int].branch, commit: commit@ };
        entries.push(BackupEntry { branch: a.branch.duplicate(), commit });
        names.push(a.branch.duplicate());
        proof {
            assert(tip_of(tips, p[i as int].branch) == Some(entry.commit));
            assert(entry_views(entries@) =~= ebefore + seq![entry]);
            assert(names_of(names@) =~= nbefore.push(p[i as int].branch));
            assert(p.subrange(0, i + 1 as int).map(|k: int, a: ActionRec| a.branch)
                =~= p.subrange(0, i as int).map(|k: int, a: ActionRec| a.branch)
                    .push(p[i as int].branch));
            match backup_spec(tips, p.skip(i + 1 as int)) {
                Ok(r2) => {
                    assert(ebefore + (seq![entry] + r2) =~= (ebefore + seq![entry]) + r2);
                },
                Err(_) => {},
            }
        }
        i += 1;
    }
    proof {
        assert(p.skip(n as int) =~= Seq::<ActionRec>::empty());
        assert(entry_views(entries@) + Seq::<BackupEntryRec>::empty() =~= entry_views(entries@));
        assert(p.subrange(0, n as int) =~= p);
    }
    let backup = Backup { id: backup_id.clone(), entries };
    let state = SyncState::new(backup_id, names);
    Ok(SyncStart::Begun(SyncRun { backup, state }))
}

/// What the performed rebase of the current branch came to.
#[derive(Debug)]
pub enum RebaseEvent {
    /// The rebase finished.
    Completed,
    /// The rebase stopped on these conflicting files.
    Conflict(Vec<String>),
    /// The rebase failed outright, with details.
    Failed(String),
}

/// Feed the outcome of the current branch's rebase into the state machine.
/// Success advances the state and asks for the next branch; a conflict
/// leaves the state as it is — the caller persists it — and reports the
/// pause; any other failure surfaces as an error, after which the caller
/// abandons the run and clears the state.
pub fn apply_rebase_event(st: &mut SyncState, event: RebaseEvent)
    -> (r: Result<Option<SyncResult>, Error>)
    requires
        old(st)@.current is Some,
    ensures
        crate::state::planned(final(st)@) =~= crate::state::planned(old(st)@),
        final(st)@.backup_id == old(st)@.backup_id,
        match event {
            RebaseEvent::Completed => r matches Ok(None)
                && final(st)@.completed == old(st)@.completed.push(old(st)@.current.unwrap())
                && final(st)@.current is None
                && final(st)@.remaining == old(st)@.remaining,
            RebaseEvent::Conflict(files) => ({
                &&& final(st)@ == old(st)@
                &&& r matches Ok(Some(SyncResult::Paused { at_branch, conflict_files,
                    backup_id }))
                    && at_branch@ == old(st)@.current.unwrap()
                    && conflict_files@ == files@
                    && backup_id@ == old(st)@.backup_id
            }),
            RebaseEvent::Failed(details) => ({
                &&& final(st)@ == old(st)@
                &&& r matches Err(Error::RebaseFailed(b, d))
                    && b@ == old(st)@.current.unwrap()
                    && d@ == details@
            }),
        },
{
    match event {
        RebaseEvent::Completed => {
            st.advance();
            Ok(None)
        },
        RebaseEvent::Conflict(files) => {
            let at = match &st.current {
                Some(c) => String::from_str(c.as_str()),
                None => String::new(),
            };
            Ok(Some(SyncResult::Paused {
                at_branch: at,
                conflict_files: files,
                backup_id: st.backup_id.clone(),
            }))
        },
        RebaseEvent::Failed(details) => {
            let at = match &st.current {
                Some(c) => String::from_str(c.as_str()),
                None => String::new(),
            };
            Err(Error::RebaseFailed(at, details))
        },
    }
}

/// The result reported when every planned rebase finished.
pub fn complete_result(st: &SyncState) -> (r: SyncResult)
    ensures
        r matches SyncResult::Complete { branches_rebased, backup_id }
            && branches_rebased == st@.completed.len()
            && backup_id@ == st@.backup_id,
{
    SyncResult::Complete {
        branches_rebased: st.completed_count(),
        backup_id: st.backup_id.clone(),
    }
}

/// Resume a paused sync with the outcome of `git rebase --continue`: the
/// same transition as [`apply_rebase_event`], or `NoSyncInProgress` when
/// no branch is in flight.
pub fn continue_sync(st: &mut SyncState, event: RebaseEvent)
    -> (r: Result<Option<SyncResult>, Error>)
    ensures
        old(st)@.current is None ==> (r matches Err(Error::NoSyncInProgress)
            && final(st)@ == old(st)@),
        old(st)@.current is Some ==> {
            &&& crate::state::planned(final(st)@) =~= crate::state::planned(old(st)@)
            &&& final(st)@.backup_id == old(st)@.backup_id
            &&& match event {
                RebaseEvent::Completed => r matches Ok(None)
                    && final(st)@.completed == old(st)@.completed.push(
                        old(st)@.current.unwrap())
                    && final(st)@.current is None
                    && final(st)@.remaining == old(st)@.remaining,
                RebaseEvent::Conflict(files) => ({
                    &&& final(st)@ == old(st)@
                    &&& r matches Ok(Some(SyncResult::Paused { at_branch, conflict_files,
                        backup_id }))
                        && at_branch@ == old(st)@.current.unwrap()
                        && conflict_files@ == files@
                        && backup_id@ == old(st)@.backup_id
                }),
                RebaseEvent::Failed(details) => ({
                    &&& final(st)@ == old(st)@
                    &&& r matches Err(Error::RebaseFailed(b, d))
                        && b@ == old(st)@.current.unwrap()
                        && d@ == details@
                }),
            }
        },
{
    if st.current.is_none() {
        return Err(Error::NoSyncInProgress);
    }
    apply_rebase_event(st, event)
}

/// The next rebase of a resumed run: the head of `remaining`, onto its
/// parent's tip as the view reports it now — parents may have moved since
/// the plan was made, so the caller passes a fresh view. A branch that
/// left the stack is reported as not in it; a parent the view does not
/// hold, as not found. The mainline stands in for an absent parent.
pub fn next_rebase(st: &SyncState, stack: &Stack, view: &RepoView)
    -> (r: Result<Option<NextRebase>, Error>)
    ensures
        st@.remaining.len() == 0 ==> (r matches Ok(None)),
        st@.remaining.len() > 0 ==> {
            let b = st@.remaining[0];
            match rec_of(stack@, b) {
                None => r matches Err(Error::NotInStack(n)) && n@ == b,
                Some(rec) => {
                    let parent = match rec.parent {
                        Some(p) => p,
                        None => "main"@,
                    };
                    match tip_of(view@.tips, parent) {
                        None => r matches Err(Error::BranchNotFound(n)) && n@ == parent,
                        Some(c) => r matches Ok(Some(nx))
                            && nx.branch@ == b && nx.onto@ == c,
                    }
                },
            }
        },
{
    if st.remaining.len() == 0 {
        return Ok(None);
    }
    let b = &st.remaining[0];
    proof {
        assert(st@.remaining[0] == st.remaining@[0]@);
    }
    match stack.find_branch(b.as_str()) {
        None => Err(Error::NotInStack(String::from_str(b.as_str()))),
        Some(rec) => {
            let parent_name: &str = match &rec.parent {
                Some(p) => p.as_str(),
                None => "main",
            };
            match lookup_tip(&view.tips, parent_name) {
                None => Err(Error::BranchNotFound(String::from_str(parent_name))),
                Some(c) => Ok(Some(NextRebase { branch: b.duplicate(), onto: c })),
            }
        },
    }
}

/// The branch a resumed run rebases next, and the commit to rebase onto.
#[derive(Debug)]
pub struct NextRebase {
    /// The branch to check out and rebase.
    pub branch: BranchName,
    /// Its parent's current tip.
    pub onto: String,
}

/// The branch resets that abort a paused sync: every backed-up branch goes
/// back to its recorded pre-sync tip. The backup must be the one the state
/// names. The caller aborts any in-progress rebase first, applies the
/// resets, then clears the state and deletes the backup.
pub fn abort_sync(st: &SyncState, backup: &Backup) -> (r: Result<Vec<BackupEntry>, Error>)
    ensures
        st@.backup_id == backup.id@ ==> (r matches Ok(resets)
            && entry_views(resets@) =~= entry_views(backup.entries@)),
        st@.backup_id != backup.id@ ==> (r matches Err(Error::NoBackup)),
{
    if !(st.backup_id == backup.id) {
        return Err(Error::NoBackup);
    }
    Ok(duplicate_entries(&backup.entries))
}

/// The branch resets that undo the last sync: every branch recorded in the
/// backup goes back to its pre-sync tip. The caller applies them and then
/// deletes the backup.
pub fn undo_sync(backup: &Backup) -> (r: Vec<BackupEntry>)
    ensures
        entry_views(r@) =~= entry_views(backup.entries@),
{
    duplicate_entries(&backup.entries)
}

/// Mathematical record of one externally observed merge.
pub ghost struct ExternalMergeRec {
    /// The stack branch whose pull request merged.
    pub branch_name: Seq<char>,
    /// The merged pull request.
    pub pr_number: u64,
    /// The base branch the forge reports it merged into.
    pub merged_into: Seq<char>,
}

/// A pull request the forge reports as merged.
#[derive(Debug)]
pub struct ExternalMergeInfo {
    /// The stack branch whose pull request merged.
    pub branch_name: BranchName,
    /// The merged pull request.
    pub pr_number: u64,
    /// The base branch the forge reports it merged into.
    pub merged_into: String,
}

impl View for ExternalMergeInfo {
    type V = ExternalMergeRec;

    open spec fn view(&self) -> ExternalMergeRec {
        ExternalMergeRec {
            branch_name: self.branch_name@,
            pr_number: self.pr_number,
            merged_into: self.merged_into@,
        }
    }
}

/// The views of a list of observed merges.
pub open spec fn merge_views(v: Seq<ExternalMergeInfo>) -> Seq<ExternalMergeRec> {
    v.map(|i: int, m: ExternalMergeInfo| m@)
}

/// The branch names of a list of observed merges, in order.
pub open spec fn merge_names(ms: Seq<ExternalMergeRec>) -> Seq<Seq<char>> {
    ms.map(|i: int, m: ExternalMergeRec| m.branch_name)
}

/// The stack after reconciling a list of merged branches, one at a time in
/// the given order.
pub open spec fn reconcile_seq(s: Seq<BranchRec>, names: Seq<Seq<char>>) -> Seq<BranchRec>
    decreases names.len(),
{
    if names.len() == 0 {
        s
    } else {
        reconcile_seq(reconcile_one(s, names[0]), names.drop_first())
    }
}

/// The re-parent records that reconciling the list emits, in order.
pub open spec fn reconcile_reps(s: Seq<BranchRec>, names: Seq<Seq<char>>)
    -> Seq<crate::stack::ReparentRec>
    decreases names.len(),
{
    if names.len() == 0 {
        Seq::empty()
    } else {
        reparents_rec(s, names[0], parent_of(s, names[0]))
            + reconcile_reps(reconcile_one(s, names[0]), names.drop_first())
    }
}

/// A name absent from the stack stays absent through reconciliation.
proof fn lemma_reconcile_one_absent(s: Seq<BranchRec>, name: Seq<char>, x: Seq<char>)
    requires
        !contains_name(s, x),
    ensures
        !contains_name(reconcile_one(s, name), x),
{
    crate::stack::lemma_dar(s, name, parent_of(s, name));
    let out = reconcile_one(s, name);
    if contains_name(out, x) {
        let k = choose|k: int| 0 <= k < out.len() && (#[trigger] out[k].name) == x;
        assert(s[crate::stack::dar_src(s, name, k)].name == x);
        assert(contains_name(s, x));
    }
}

/// What was merged away is gone and everything emitted is consistent.
#[derive(Debug)]
pub struct ReconcileResult {
    /// The merges that were applied, as observed.
    pub merged: Vec<ExternalMergeInfo>,
    /// Every child moved to a new parent, in order of application.
    pub reparented: Vec<Reparent>,
}

/// Apply externally observed merges to the stack: for each merge in order,
/// the merged branch's children are re-parented to its own parent and the
/// branch leaves the stack. The caller persists the stack before any
/// rebase runs, so a crash can never leave it naming a merged-away parent.
pub fn reconcile_merged(stack: &mut Stack, merges: Vec<ExternalMergeInfo>)
    -> (r: ReconcileResult)
    requires
        stack_wf(old(stack)@),
    ensures
        final(stack)@ =~= reconcile_seq(old(stack)@, merge_names(merge_views(merges@))),
        stack_wf(final(stack)@),
        forall|k: int| 0 <= k < merges@.len()
            ==> !contains_name(final(stack)@, merge_names(merge_views(merges@))[k]),
        reparent_views(r.reparented@)
            =~= reconcile_reps(old(stack)@, merge_names(merge_views(merges@))),
        merge_views(r.merged@) == merge_views(merges@),
{
    let ghost s0 = stack@;
    let ghost names = merge_names(merge_views(merges@));
    let n = merges.len();
    let mut reparented: Vec<Reparent> = Vec::new();
    let mut i: usize = 0;
    proof {
        assert(names.skip(0) =~= names);
        assert(reparent_views(reparented@) =~= Seq::<crate::stack::ReparentRec>::empty());
    }
    while i < n
        invariant
            i <= n,
            n == names.len(),
            names == merge_names(merge_views(merges@)),
            stack_wf(stack@),
            reconcile_seq(s0, names) == reconcile_seq(stack@, names.skip(i as int)),
            reconcile_reps(s0, names) =~= reparent_views(reparented@)
                + reconcile_reps(stack@, names.skip(i as int)),
            forall|k: int| 0 <= k < i ==> !contains_name(stack@, names[k]),
        decreases n - i,
    {
        let ghost rest = names.skip(i as int);
        let ghost before = stack@;
        proof {
            assert(rest[0] == names[i as int]);
            assert(rest.drop_first() =~= names.skip(i + 1 as int));
        }
        let mut step = stack.remove_and_reparent(merges[i].branch_name.as_str());
        let ghost reps_before = reparent_views(reparented@);
        reparented.append(&mut step);
        proof {
            assert(reparent_views(reparented@) =~= reps_before
                + reparents_rec(before, names[i as int], parent_of(before, names[i as int])));
            assert(reps_before
                + (reparents_rec(before, names[i as int], parent_of(before, names[i as int]))
                    + reconcile_reps(stack@, names.skip(i + 1 as int)))
                =~= (reps_before
                    + reparents_rec(before, names[i as int],
                        parent_of(before, names[i as int])))
                    + reconcile_reps(stack@, names.skip(i + 1 as int)));
            assert forall|k: int| 0 <= k < i + 1
                implies !contains_name(stack@, names[k]) by {
                if k < i {
                    lemma_reconcile_one_absent(before, names[i as int], names[k]);
                }
            }
        }
        i += 1;
    }
    proof {
        assert(names.skip(n as int) =~= Seq::<Seq<char>>::empty());
        assert(reparent_views(reparented@) + Seq::<crate::stack::ReparentRec>::empty()
            =~= reparent_views(reparented@));
    }
    ReconcileResult { merged: merges, reparented }
}

/// The views of a list of strings.
pub open spec fn string_views(v: Seq<String>) -> Seq<Seq<char>> {
    v.map(|i: int, s: String| s@)
}

/// Whether one of the strings reads as the given name.
fn strings_contain(v: &Vec<String>, name: &str) -> (r: bool)
    ensures
        r == string_views(v@).contains(name@),
{
    let key = String::from_str(name);
    let n = v.len();
    let mut i: usize = 0;
    while i < n
        invariant
            i <= n,
            n == v@.len(),
            key@ == name@,
            forall|j: int| 0 <= j < i ==> string_views(v@)[j] != name@,
        decreases n - i,
    {
        if v[i] == key {
            proof {
                assert(string_views(v@)[i as int] == name@);
            }
            return true;
        }
        proof {
            assert(string_views(v@)[i as int] == v@[i as int]@);
        }
        i += 1;
    }
    proof {
        if string_views(v@).contains(name@) {
            let j = choose|j: int| 0 <= j < string_views(v@).len()
                && string_views(v@)[j] == name@;
            assert(string_views(v@)[j] != name@);
        }
    }
    false
}

/// The first position whose name is not among the existing ones.
pub open spec fn first_stale(s: Seq<BranchRec>, existing: Seq<Seq<char>>) -> Option<int>
    decreases s.len(),
{
    if s.len() == 0 {
        None
    } else if !existing.contains(s[0].name) {
        Some(0)
    } else {
        match first_stale(s.drop_first(), existing) {
            None => None,
            Some(j) => Some(j + 1),
        }
    }
}

/// What [`first_stale`] returns: the least stale index, if any.
proof fn lemma_first_stale(s: Seq<BranchRec>, existing: Seq<Seq<char>>)
    ensures
        match first_stale(s, existing) {
            None => forall|i: int| 0 <= i < s.len() ==> existing.contains(#[trigger] s[i].name),
            Some(i) => 0 <= i < s.len() && !existing.contains(s[i].name)
                && forall|j: int| 0 <= j < i ==> existing.contains(#[trigger] s[j].name),
        },
    decreases s.len(),
{
    if s.len() > 0 {
        lemma_first_stale(s.drop_first(), existing);
        let rest = s.drop_first();
        if existing.contains(s[0].name) {
            match first_stale(rest, existing) {
                None => {
                    assert forall|i: int| 0 <= i < s.len()
                        implies existing.contains(#[trigger] s[i].name) by {
                        if i > 0 {
                            assert(s[i] == rest[i - 1]);
                        }
                    }
                },
                Some(j) => {
                    assert(s[j + 1] == rest[j]);
                    assert forall|jp: int| 0 <= jp < j + 1
                        implies existing.contains(#[trigger] s[jp].name) by {
                        if jp > 0 {
                            assert(s[jp] == rest[jp - 1]);
                        }
                    }
                },
            }
        }
    }
}

/// The stack after removing every branch that no longer exists locally,
/// one at a time, children re-parented each time.
pub open spec fn remove_stale_spec(s: Seq<BranchRec>, existing: Seq<Seq<char>>)
    -> Seq<BranchRec>
    decreases s.len(),
    via remove_stale_spec_decreases
{
    match first_stale(s, existing) {
        None => s,
        Some(i) => remove_stale_spec(reconcile_one(s, s[i].name), existing),
    }
}

#[via_fn]
proof fn remove_stale_spec_decreases(s: Seq<BranchRec>, existing: Seq<Seq<char>>) {
    match first_stale(s, existing) {
        None => {},
        Some(i) => {
            lemma_first_stale(s, existing);
            lemma_stale_step_shrinks(s, s[i].name, i);
        },
    }
}

/// The names removed by stale cleanup, in order of removal.
pub open spec fn stale_removed(s: Seq<BranchRec>, existing: Seq<Seq<char>>) -> Seq<Seq<char>>
    decreases s.len(),
    via stale_removed_decreases
{
    match first_stale(s, existing) {
        None => Seq::empty(),
        Some(i) => seq![s[i].name] + stale_removed(reconcile_one(s, s[i].name), existing),
    }
}

#[via_fn]
proof fn stale_removed_decreases(s: Seq<BranchRec>, existing: Seq<Seq<char>>) {
    match first_stale(s, existing) {
        None => {},
        Some(i) => {
            lemma_first_stale(s, existing);
            lemma_stale_step_shrinks(s, s[i].name, i);
        },
    }
}

/// Removing a branch that is present makes the stack strictly shorter.
proof fn lemma_stale_step_shrinks(s: Seq<BranchRec>, name: Seq<char>, i: int)
    requires
        0 <= i < s.len(),
        s[i].name == name,
    ensures
        reconcile_one(s, name).len() < s.len(),
{
    crate::stack::lemma_dar(s, name, parent_of(s, name));
    crate::stack::lemma_count_contains(s, name);
    assert(contains_name(s, name));
}

/// Branches removed because their local ref no longer exists.
#[derive(Debug)]
pub struct StaleResult {
    /// The removed branches, in order of removal.
    pub removed: Vec<BranchName>,
}

/// Remove from the stack every branch whose local ref no longer exists;
/// children of a removed branch are re-parented to its former parent, the
/// same rule as for a merge. `existing` lists the local branches that do
/// exist.
pub fn remove_stale_branches(stack: &mut Stack, existing: &Vec<String>) -> (r: StaleResult)
    requires
        stack_wf(old(stack)@),
    ensures
        final(stack)@ == remove_stale_spec(old(stack)@, string_views(existing@)),
        stack_wf(final(stack)@),
        names_of(r.removed@) =~= stale_removed(old(stack)@, string_views(existing@)),
        forall|i: int| 0 <= i < final(stack)@.len()
            ==> string_views(existing@).contains(#[trigger] final(stack)@[i].name),
{
    let ghost s0 = stack@;
    let ghost ex = string_views(existing@);
    let mut removed: Vec<BranchName> = Vec::new();
    proof {
        assert(names_of(removed@) =~= Seq::<Seq<char>>::empty());
    }
    loop
        invariant
            s0 == old(stack)@,
            stack_wf(stack@),
            ex == string_views(existing@),
            remove_stale_spec(s0, ex) == remove_stale_spec(stack@, ex),
            stale_removed(s0, ex) =~= names_of(removed@) + stale_removed(stack@, ex),
        decreases stack@.len(),
    {
        // Find the first stale entry.
        let n = stack.branches.len();
        let mut j: usize = 0;
        let mut found: Option<usize> = None;
        while j < n
            invariant_except_break
                found is None,
            invariant
                j <= n,
                n == stack@.len(),
                ex == string_views(existing@),
                forall|k: int| 0 <= k < j ==> ex.contains(#[trigger] stack@[k].name),
                found matches Some(f) ==> (f == j && j < n
                    && !ex.contains(stack@[j as int].name)),
            ensures
                found is None ==> (forall|k: int| 0 <= k < n
                    ==> ex.contains(#[trigger] stack@[k].name)),
            decreases n - j,
        {
            if !strings_contain(existing, stack.branches[j].name.as_str()) {
                proof {
                    assert(stack@[j as int].name == stack.branches@[j as int]@.name);
                    assert(!ex.contains(stack@[j as int].name));
                }
                found = Some(j);
                break;
            }
            proof {
                assert(stack@[j as int].name == stack.branches@[j as int]@.name);
                assert(ex.contains(stack@[j as int].name));
            }
            j += 1;
        }
        match found {
            None => {
                proof {
                    lemma_first_stale(stack@, ex);
                    match first_stale(stack@, ex) {
                        None => {},
                        Some(i) => {
                            assert(0 <= i < n);
                            assert(ex.contains(stack@[i].name));
                            assert(false);
                        },
                    }
                    assert(names_of(removed@) + Seq::<Seq<char>>::empty()
                        =~= names_of(removed@));
                }
                return StaleResult { removed };
            },
            Some(f) => {
                proof {
                    lemma_first_stale(stack@, ex);
                    match first_stale(stack@, ex) {
                        None => {
                            assert(!ex.contains(stack@[f as int].name));
                            assert(false);
                        },
                        Some(i) => {
                            if i < f {
                                assert(ex.contains(stack@[i].name));
                            }
                            if i > f {
                                assert(ex.contains(stack@[f as int].name));
                            }
                            assert(i == f);
                        },
                    }
                    lemma_stale_step_shrinks(stack@, stack@[f as int].name, f as int);
                }
                let ghost before = stack@;
                let ghost nm = stack@[f as int].name;
                let name = stack.branches[f].name.duplicate();
                let ghost rem_before = names_of(removed@);
                removed.push(name.duplicate());
                proof {
                    assert(names_of(removed@) =~= rem_before.push(nm));
                }
                let _ = stack.remove_and_reparent(name.as_str());
                proof {
                    assert(stack@ =~= reconcile_one(before, nm));
                    assert(rem_before + (seq![nm] + stale_removed(stack@, ex))
                        =~= names_of(removed@) + stale_removed(stack@, ex));
                }
            },
        }
    }
}

/// No surviving entry bears the removed name.
proof fn lemma_reconcile_one_removes(s: Seq<BranchRec>, name: Seq<char>)
    ensures
        !contains_name(reconcile_one(s, name), name),
{
    crate::stack::lemma_dar(s, name, parent_of(s, name));
    let out = reconcile_one(s, name);
    if contains_name(out, name) {
        let k = choose|k: int| 0 <= k < out.len() && (#[trigger] out[k].name) == name;
        assert(s[crate::stack::dar_src(s, name, k)].name != name);
    }
}

/// After reconciling a list of merges, none of the merged names is in the
/// stack.
proof fn lemma_reconcile_seq_absent(s: Seq<BranchRec>, names: Seq<Seq<char>>)
    ensures
        forall|m: int| 0 <= m < names.len()
            ==> !contains_name(reconcile_seq(s, names), #[trigger] names[m]),
    decreases names.len(),
{
    if names.len() > 0 {
        let s1 = reconcile_one(s, names[0]);
        lemma_reconcile_seq_absent(s1, names.drop_first());
        lemma_reconcile_one_removes(s, names[0]);
        lemma_reconcile_seq_keeps_absent(s1, names.drop_first(), names[0]);
        assert forall|m: int| 0 <= m < names.len()
            implies !contains_name(reconcile_seq(s, names), #[trigger] names[m]) by {
            if m > 0 {
                assert(names.drop_first()[m - 1] == names[m]);
            }
        }
    }
}

/// A name absent from the stack stays absent through any reconciliation.
proof fn lemma_reconcile_seq_keeps_absent(s: Seq<BranchRec>, names: Seq<Seq<char>>,
    x: Seq<char>)
    requires
        !contains_name(s, x),
    ensures
        !contains_name(reconcile_seq(s, names), x),
    decreases names.len(),
{
    if names.len() > 0 {
        lemma_reconcile_one_absent(s, names[0], x);
        lemma_reconcile_seq_keeps_absent(reconcile_one(s, names[0]), names.drop_first(), x);
    }
}

/// Every planned branch is in the stack the plan was made from.
proof fn lemma_plan_in_stack(s: Seq<BranchRec>, base: Seq<char>, tips: Seq<TipRec>,
    mbs: Seq<MbRec>, plan: Seq<ActionRec>)
    requires
        plan_rec(s, base, tips, mbs) == Ok::<_, Seq<char>>(plan),
    ensures
        forall|k: int| 0 <= k < plan.len()
            ==> contains_name(s, #[trigger] plan[k].branch),
    decreases s.len(),
{
    if s.len() > 0 {
        let rest = s.drop_first();
        let b = s[0];
        let parent = match b.parent {
            Some(p) => p,
            None => base,
        };
        let tb = tip_of(tips, b.name).unwrap();
        let tp = tip_of(tips, parent).unwrap();
        let mb = mb_of(mbs, tb, tp).unwrap();
        let tail = match plan_rec(rest, base, tips, mbs) {
            Ok(x) => x,
            Err(_) => Seq::empty(),
        };
        lemma_plan_in_stack(rest, base, tips, mbs, tail);
        assert forall|k: int| 0 <= k < plan.len()
            implies contains_name(s, #[trigger] plan[k].branch) by {
            let shift: int = if mb != tp { 1 } else { 0 };
            if mb != tp && k == 0 {
                assert(s[0].name == plan[0].branch);
            } else {
                assert(plan[k] == tail[k - shift]);
                assert(contains_name(rest, tail[k - shift].branch));
                let i = choose|i: int| 0 <= i < rest.len()
                    && (#[trigger] rest[i].name) == tail[k - shift].branch;
                assert(s[i + 1].name == plan[k].branch);
            }
        }
    }
}

/// Law (reconcile before rebase): a sync plan computed from the reconciled
/// stack plans no rebase for a merged-away branch — reconciliation removes
/// every merged name, and a plan only mentions branches of the stack it
/// was made from.
pub proof fn lemma_reconcile_before_rebase(s: Seq<BranchRec>, names: Seq<Seq<char>>,
    base: Seq<char>, tips: Seq<TipRec>, mbs: Seq<MbRec>, plan: Seq<ActionRec>)
    requires
        plan_rec(reconcile_seq(s, names), base, tips, mbs) == Ok::<_, Seq<char>>(plan),
    ensures
        forall|k: int, m: int| 0 <= k < plan.len() && 0 <= m < names.len()
            ==> (#[trigger] plan[k].branch) != (#[trigger] names[m]),
{
    let rs = reconcile_seq(s, names);
    lemma_plan_in_stack(rs, base, tips, mbs, plan);
    lemma_reconcile_seq_absent(s, names);
    assert forall|k: int, m: int| 0 <= k < plan.len() && 0 <= m < names.len()
        implies (#[trigger] plan[k].branch) != (#[trigger] names[m]) by {
        if plan[k].branch == names[m] {
            assert(contains_name(rs, names[m]));
        }
    }
}

/// Law (backup completeness): the backup made for a plan has one entry per
/// planned branch, in plan order, holding the branch's tip as the view
/// recorded it before the first rebase runs.
pub proof fn lemma_backup_completeness(tips: Seq<TipRec>, plan: Seq<ActionRec>,
    entries: Seq<BackupEntryRec>)
    requires
        backup_spec(tips, plan) == Ok::<_, Seq<char>>(entries),
    ensures
        entries.len() == plan.len(),
        forall|k: int| 0 <= k < plan.len()
            ==> (#[trigger] entries[k].branch) == plan[k].branch
                && tip_of(tips, plan[k].branch) == Some(entries[k].commit),
    decreases plan.len(),
{
    if plan.len() > 0 {
        let c = tip_of(tips, plan[0].branch).unwrap();
        let rest = match backup_spec(tips, plan.drop_first()) {
            Ok(x) => x,
            Err(_) => Seq::empty(),
        };
        lemma_backup_completeness(tips, plan.drop_first(), rest);
        assert(entries =~= seq![BackupEntryRec { branch: plan[0].branch, commit: c }] + rest);
        assert forall|k: int| 0 <= k < plan.len()
            implies (#[trigger] entries[k].branch) == plan[k].branch
                && tip_of(tips, plan[k].branch) == Some(entries[k].commit) by {
            if k > 0 {
                assert(entries[k] == rest[k - 1]);
                assert(plan[k] == plan.drop_first()[k - 1]);
            }
        }
    }
}

/// Law (undo inverse): the resets that [`undo_sync`] returns — the backup
/// entries as they stand — send every branch a successful sync touched
/// back to the tip it had before that sync, as long as the backup is still
/// present.
pub proof fn lemma_undo_inverse(tips: Seq<TipRec>, plan: Seq<ActionRec>,
    entries: Seq<BackupEntryRec>)
    requires
        backup_spec(tips, plan) == Ok::<_, Seq<char>>(entries),
    ensures
        forall|k: int| 0 <= k < entries.len()
            ==> tip_of(tips, #[trigger] entries[k].branch) == Some(entries[k].commit),
{
    lemma_backup_completeness(tips, plan, entries);
}

/// One branch is in sync: the merge base of its tip and its parent's tip
/// is the parent's tip itself.
pub open spec fn branch_synced(b: BranchRec, base: Seq<char>, tips: Seq<TipRec>,
    mbs: Seq<MbRec>) -> bool {
    let parent = match b.parent {
        Some(p) => p,
        None => base,
    };
    match (tip_of(tips, b.name), tip_of(tips, parent)) {
        (Some(tb), Some(tp)) => mb_of(mbs, tb, tp) == Some(tp),
        _ => false,
    }
}

/// Law (no-op sync): a computed plan is empty exactly when every branch of
/// the stack is already in sync with its parent — and an empty plan makes
/// [`execute_sync`] report the stack as already synced.
pub proof fn lemma_already_synced(s: Seq<BranchRec>, base: Seq<char>, tips: Seq<TipRec>,
    mbs: Seq<MbRec>, plan: Seq<ActionRec>)
    requires
        plan_rec(s, base, tips, mbs) == Ok::<_, Seq<char>>(plan),
    ensures
        plan.len() == 0 <==> (forall|i: int| 0 <= i < s.len()
            ==> branch_synced(#[trigger] s[i], base, tips, mbs)),
    decreases s.len(),
{
    if s.len() == 0 {
        assert(plan.len() == 0);
    } else {
        let rest = s.drop_first();
        let tail = match plan_rec(rest, base, tips, mbs) {
            Ok(x) => x,
            Err(_) => Seq::empty(),
        };
        lemma_already_synced(rest, base, tips, mbs, tail);
        if plan.len() == 0 {
            assert(tail.len() == 0);
            assert forall|i: int| 0 <= i < s.len()
                implies branch_synced(#[trigger] s[i], base, tips, mbs) by {
                if i > 0 {
                    assert(rest[i - 1] == s[i]);
                    assert(branch_synced(rest[i - 1], base, tips, mbs));
                }
            }
        } else {
            if forall|i: int| 0 <= i < s.len()
                ==> branch_synced(#[trigger] s[i], base, tips, mbs) {
                assert(branch_synced(s[0], base, tips, mbs));
                assert forall|i: int| 0 <= i < rest.len()
                    implies branch_synced(#[trigger] rest[i], base, tips, mbs) by {
                    assert(rest[i] == s[i + 1]);
                }
                assert(tail.len() > 0 || plan.len() == 0);
                assert(false);
            }
        }
    }
}

/// Mathematical record of one forge-side base update.
pub ghost struct PrUpdateRec {
    /// The pull request to update.
    pub pr: u64,
    /// The base branch it should now target.
    pub base: Seq<char>,
}

/// One forge-side base update: point the pull request at its new base.
#[derive(Debug)]
pub struct PrBaseUpdate {
    /// The pull request to update.
    pub pr: u64,
    /// The base branch it should now target.
    pub base: String,
}

impl View for PrBaseUpdate {
    type V = PrUpdateRec;

    open spec fn view(&self) -> PrUpdateRec {
        PrUpdateRec { pr: self.pr, base: self.base@ }
    }
}

/// The base updates a list of re-parentings calls for: one per child with
/// a pull request, targeting its new parent, or the base branch when it is
/// now rooted on the mainline.
pub open spec fn pr_updates_rec(rs: Seq<crate::stack::ReparentRec>, base: Seq<char>)
    -> Seq<PrUpdateRec>
    decreases rs.len(),
{
    if rs.len() == 0 {
        Seq::empty()
    } else {
        let rest = pr_updates_rec(rs.drop_first(), base);
        match rs[0].pr {
            Some(n) => seq![PrUpdateRec {
                pr: n,
                base: match rs[0].new_parent {
                    Some(p) => p,
                    None => base,
                },
            }] + rest,
            None => rest,
        }
    }
}

/// The forge-side base updates for the re-parented children of a sync: one
/// per child with a pull request, in order.
pub fn pr_base_updates(reparented: &Vec<Reparent>, base: &str) -> (r: Vec<PrBaseUpdate>)
    ensures
        r@.map(|i: int, u: PrBaseUpdate| u@)
            =~= pr_updates_rec(reparent_views(reparented@), base@),
{
    let ghost rs = reparent_views(reparented@);
    let n = reparented.len();
    let mut r: Vec<PrBaseUpdate> = Vec::new();
    let mut i: usize = 0;
    proof {
        assert(rs.skip(0) =~= rs);
        assert(r@.map(|k: int, u: PrBaseUpdate| u@) =~= Seq::<PrUpdateRec>::empty());
    }
    while i < n
        invariant
            i <= n,
            n == rs.len(),
            rs == reparent_views(reparented@),
            pr_updates_rec(rs, base@) =~= r@.map(|k: int, u: PrBaseUpdate| u@)
                + pr_updates_rec(rs.skip(i as int), base@),
        decreases n - i,
    {
        let ghost rest = rs.skip(i as int);
        proof {
            assert(rest[0] == rs[i as int]);
            assert(rest.drop_first() =~= rs.skip(i + 1 as int));
        }
        let rep = &reparented[i];
        match rep.pr_number {
            Some(pr) => {
                let new_base = match &rep.new_parent {
                    Some(p) => String::from_str(p.as_str()),
                    None => String::from_str(base),
                };
                let ghost before = r@.map(|k: int, u: PrBaseUpdate| u@);
                let ghost upd = PrUpdateRec { pr: pr, base: new_base@ };
                r.push(PrBaseUpdate { pr, base: new_base });
                proof {
                    assert(r@.map(|k: int, u: PrBaseUpdate| u@) =~= before + seq![upd]);
                    match pr_updates_rec(rs.skip(i + 1 as int), base@) {
                        r2 => {
                            assert(before + (seq![upd] + r2) =~= (before + seq![upd]) + r2);
                        },
                    }
                }
            },
            None => {},
        }
        i += 1;
    }
    proof {
        assert(rs.skip(n as int) =~= Seq::<crate::stack::ReparentRec>::empty());
    }
    r
}

/// The branches the final phase pushes: every stack branch that exists
/// locally, in stack order.
pub open spec fn push_rec(s: Seq<BranchRec>, tips: Seq<TipRec>) -> Seq<Seq<char>>
    decreases s.len(),
{
    if s.len() == 0 {
        Seq::empty()
    } else {
        let rest = push_rec(s.drop_first(), tips);
        if tip_of(tips, s[0].name) is Some {
            seq![s[0].name] + rest
        } else {
            rest
        }
    }
}

/// The branches to push to the remote after a sync: every stack branch
/// whose local tip the view holds, in stack order.
pub fn push_targets(stack: &Stack, view: &RepoView) -> (r: Vec<BranchName>)
    ensures
        names_of(r@) =~= push_rec(stack@, view@.tips),
{
    let ghost s = stack@;
    let ghost tips = view@.tips;
    let n = stack.branches.len();
    let mut r: Vec<BranchName> = Vec::new();
    let mut i: usize = 0;
    proof {
        assert(s.skip(0) =~= s);
        assert(names_of(r@) =~= Seq::<Seq<char>>::empty());
    }
    while i < n
        invariant
            i <= n,
            n == s.len(),
            s == stack@,
            tips == view@.tips,
            push_rec(s, tips) =~= names_of(r@) + push_rec(s.skip(i as int), tips),
        decreases n - i,
    {
        let ghost rest = s.skip(i as int);
        proof {
            assert(rest[0] == s[i as int]);
            assert(rest.drop_first() =~= s.skip(i + 1 as int));
        }
        let b = &stack.branches[i];
        if lookup_tip(&view.tips, b.name.as_str()).is_some() {
            let ghost before = names_of(r@);
            r.push(b.name.duplicate());
            proof {
                assert(names_of(r@) =~= before + seq![s[i as int].name]);
                match push_rec(s.skip(i + 1 as int), tips) {
                    r2 => {
                        assert(before + (seq![s[i as int].name] + r2)
                            =~= (before + seq![s[i as int].name]) + r2);
                    },
                }
            }
        }
        i += 1;
    }
    proof {
        assert(s.skip(n as int) =~= Seq::<BranchRec>::empty());
    }
    r
}

/// An owned copy of a list of backup entries.
fn duplicate_entries(entries: &Vec<BackupEntry>) -> (r: Vec<BackupEntry>)
    ensures
        entry_views(r@) =~= entry_views(entries@),
{
    let n = entries.len();
    let mut r: Vec<BackupEntry> = Vec::new();
    let mut i: usize = 0;
    while i < n
        invariant
            i <= n,
            n == entries@.len(),
            entry_views(r@) =~= entry_views(entries@).subrange(0, i as int),
        decreases n - i,
    {
        let ghost before = entry_views(r@);
        r.push(entries[i].duplicate());
        proof {
            assert(entry_views(r@) =~= before.push(entries@[i as int]@));
            assert(entry_views(entries@).subrange(0, i + 1 as int)
                =~= entry_views(entries@).subrange(0, i as int)
                    .push(entry_views(entries@)[i as int]));
        }
        i += 1;
    }
    proof {
        assert(entry_views(entries@).subrange(0, n as int) =~= entry_views(entries@));
    }
    r
}

} // verus!
