//! Planning the cleanup after a pull request merges: which descendants to
//! transplant, in what order, onto what, and from what upstream.
//!
//! After a squash merge the single commit on the parent is not an ancestor
//! of the descendants, so each descendant is transplanted: its commits
//! after its recorded parent's old tip are replayed onto the new base.
//! The old tips must therefore be captured before any rebase runs; the
//! plan lists the branches whose tips to capture.

use vstd::prelude::*;
use vstd::string::*;

use crate::branch_name::BranchName;
use crate::errors::Error;
use crate::stack::{descendants_rec, names_of, rec_of, BranchRec, Stack};

verus! {

/// Mathematical record of one cleanup step.
pub ghost struct StepRec {
    /// The descendant to transplant.
    pub branch: Seq<char>,
    /// Its pull request to retarget first, if it has one.
    pub pr_update: Option<u64>,
    /// The branch it is rebased onto.
    pub new_base: Seq<char>,
    /// Whether the new base is the merged branch's parent, whose tip must
    /// be read from the freshly fetched remote copy.
    pub base_is_parent: bool,
    /// The branch whose pre-merge tip bounds the commits to replay: the
    /// descendant's recorded parent.
    pub old_base_of: Seq<char>,
}

/// One cleanup step: retarget the pull request, check the branch out,
/// transplant it, push it.
#[derive(Debug)]
pub struct MergeCleanupStep {
    /// The descendant to transplant.
    pub branch: BranchName,
    /// Its pull request to retarget first, if it has one.
    pub pr_update: Option<u64>,
    /// The branch it is rebased onto.
    pub new_base: String,
    /// Whether the new base is the merged branch's parent, whose tip must
    /// be read from the freshly fetched remote copy.
    pub base_is_parent: bool,
    /// The branch whose pre-merge tip bounds the commits to replay.
    pub old_base_of: String,
}

impl View for MergeCleanupStep {
    type V = StepRec;

    open spec fn view(&self) -> StepRec {
        StepRec {
            branch: self.branch@,
            pr_update: self.pr_update,
            new_base: self.new_base@,
            base_is_parent: self.base_is_parent,
            old_base_of: self.old_base_of@,
        }
    }
}

/// The steps for a list of descendants: each is rebased onto the merged
/// branch's parent when that was its recorded parent, and onto its own
/// recorded parent — just transplanted itself — otherwise.
pub open spec fn steps_rec(s: Seq<BranchRec>, d: Seq<Seq<char>>, current: Seq<char>,
    parent_name: Seq<char>) -> Option<Seq<StepRec>>
    decreases d.len(),
{
    if d.len() == 0 {
        Some(Seq::empty())
    } else {
        match rec_of(s, d[0]) {
            None => None,
            Some(rec) => {
                let stack_parent = match rec.parent {
                    Some(p) => p,
                    None => "main"@,
                };
                let new_base = if stack_parent == current {
                    parent_name
                } else {
                    stack_parent
                };
                match steps_rec(s, d.drop_first(), current, parent_name) {
                    None => None,
                    Some(rest) => Some(seq![StepRec {
                        branch: d[0],
                        pr_update: rec.pr,
                        new_base: new_base,
                        base_is_parent: new_base == parent_name,
                        old_base_of: stack_parent,
                    }] + rest),
                }
            },
        }
    }
}

/// The whole cleanup: what to merge, what to capture, what to transplant.
#[derive(Debug)]
pub struct MergeCleanupPlan {
    /// The merged branch.
    pub branch: BranchName,
    /// Its pull request.
    pub pr_number: u64,
    /// Its parent: the mainline stand-in when it had none.
    pub parent_name: String,
    /// The branches whose tips to capture before any rebase: the merged
    /// branch first, then every descendant in order.
    pub tips_needed: Vec<BranchName>,
    /// The transplant steps, parents before children.
    pub steps: Vec<MergeCleanupStep>,
}

/// Plan the cleanup for merging the current branch's pull request: record
/// the parent, collect the descendants in topological order, and lay out
/// one transplant step per descendant. The stack itself is reconciled
/// separately — immediately after the forge reports the merge — with
/// [`crate::stack::Stack::remove_and_reparent`].
pub fn plan_merge_cleanup(stack: &Stack, current: &str) -> (r: Result<MergeCleanupPlan, Error>)
    ensures
        match r {
            Ok(plan) => {
                let rec = rec_of(stack@, current@).unwrap();
                &&& rec_of(stack@, current@) is Some
                &&& rec.pr == Some(plan.pr_number)
                &&& plan.branch@ == current@
                &&& plan.parent_name@ == (match rec.parent {
                    Some(p) => p,
                    None => "main"@,
                })
                &&& names_of(plan.tips_needed@) =~= seq![current@]
                    + descendants_rec(stack@, 0, current@, Seq::empty())
                &&& steps_rec(stack@, descendants_rec(stack@, 0, current@, Seq::empty()),
                    current@, plan.parent_name@)
                    == Some(plan.steps@.map(|i: int, st: MergeCleanupStep| st@))
            },
            Err(Error::NotInStack(n)) => n@ == current@ && rec_of(stack@, current@) is None,
            Err(Error::BranchNotFound(n)) => rec_of(stack@, current@) is Some
                && rec_of(stack@, n@) is None
                && descendants_rec(stack@, 0, current@, Seq::empty()).contains(n@),
            Err(Error::NoPullRequest(n)) => n@ == current@
                && rec_of(stack@, current@) is Some
                && rec_of(stack@, current@).unwrap().pr is None,
            Err(_) => false,
        },
{
    let (pr_number, parent_name, current_name) = match stack.find_branch(current) {
        None => {
            return Err(Error::NotInStack(String::from_str(current)));
        },
        Some(b) => {
            proof {
                crate::stack::lemma_index_of_name(stack@, current@);
            }
            let pr = match b.pr {
                None => {
                    return Err(Error::NoPullRequest(String::from_str(current)));
                },
                Some(n) => n,
            };
            let parent: String = match &b.parent {
                Some(p) => String::from_str(p.as_str()),
                None => String::from_str("main"),
            };
            (pr, parent, b.name.duplicate())
        },
    };
    let descendants = stack.descendants(current);
    let ghost dnames = descendants_rec(stack@, 0, current@, Seq::empty());

    let mut tips_needed: Vec<BranchName> = Vec::new();
    tips_needed.push(current_name.duplicate());
    let mut i: usize = 0;
    proof {
        assert(names_of(tips_needed@) =~= seq![current@]);
    }
    while i < descendants.len()
        invariant
            i <= descendants@.len(),
            names_of(descendants@) =~= dnames,
            names_of(tips_needed@) =~= seq![current@] + dnames.subrange(0, i as int),
        decreases descendants@.len() - i,
    {
        let ghost before = names_of(tips_needed@);
        tips_needed.push(descendants[i].duplicate());
        proof {
            assert(names_of(tips_needed@) =~= before.push(dnames[i as int]));
            assert((seq![current@] + dnames.subrange(0, i as int)).push(dnames[i as int])
                =~= seq![current@] + dnames.subrange(0, i + 1 as int));
        }
        i += 1;
    }
    proof {
        assert(dnames.subrange(0, dnames.len() as int) =~= dnames);
    }

    let mut steps: Vec<MergeCleanupStep> = Vec::new();
    let mut k: usize = 0;
    proof {
        assert(dnames.skip(0) =~= dnames);
        assert(steps@.map(|t: int, st: MergeCleanupStep| st@) =~= Seq::<StepRec>::empty());
    }
    while k < descendants.len()
        invariant
            k <= descendants@.len(),
            names_of(descendants@) =~= dnames,
            rec_of(stack@, current@) is Some,
            dnames == descendants_rec(stack@, 0, current@, Seq::empty()),
            steps_rec(stack@, dnames, current@, parent_name@)
                == (match steps_rec(stack@, dnames.skip(k as int), current@, parent_name@) {
                    None => None::<Seq<StepRec>>,
                    Some(rest) => Some(steps@.map(|t: int, st: MergeCleanupStep| st@) + rest),
                }),
        decreases descendants@.len() - k,
    {
        let ghost rest = dnames.skip(k as int);
        proof {
            assert(rest[0] == dnames[k as int]);
            assert(rest.drop_first() =~= dnames.skip(k + 1 as int));
            assert(descendants@[k as int]@ == dnames[k as int]);
        }
        let x = &descendants[k];
        let rec = match stack.find_branch(x.as_str()) {
            None => {
                proof {
                    assert(dnames[k as int] == x@);
                    assert(dnames.contains(x@));
                }
                return Err(Error::BranchNotFound(String::from_str(x.as_str())));
            },
            Some(b) => b,
        };
        let stack_parent: String = match &rec.parent {
            Some(p) => String::from_str(p.as_str()),
            None => String::from_str("main"),
        };
        let is_parent_base = stack_parent == String::from_str(current);
        let new_base = if is_parent_base {
            parent_name.clone()
        } else {
            stack_parent.clone()
        };
        let base_is_parent = new_base == parent_name;
        let ghost before = steps@.map(|t: int, st: MergeCleanupStep| st@);
        let ghost this_step = StepRec {
            branch: dnames[k as int],
            pr_update: rec.pr,
            new_base: new_base@,
            base_is_parent: base_is_parent,
            old_base_of: stack_parent@,
        };
        steps.push(MergeCleanupStep {
            branch: x.duplicate(),
            pr_update: rec.pr,
            new_base,
            base_is_parent,
            old_base_of: stack_parent,
        });
        proof {
            assert(steps@.map(|t: int, st: MergeCleanupStep| st@) =~= before + seq![this_step]);
            match steps_rec(stack@, dnames.skip(k + 1 as int), current@, parent_name@) {
                None => {},
                Some(r2) => {
                    assert(before + (seq![this_step] + r2) =~= (before + seq![this_step]) + r2);
                },
            }
        }
        k += 1;
    }
    proof {
        assert(dnames.skip(descendants@.len() as int) =~= Seq::<Seq<char>>::empty());
        assert(steps@.map(|t: int, st: MergeCleanupStep| st@) + Seq::<StepRec>::empty()
            =~= steps@.map(|t: int, st: MergeCleanupStep| st@));
    }
    Ok(MergeCleanupPlan {
        branch: current_name,
        pr_number,
        parent_name,
        tips_needed,
        steps,
    })
}

} // verus!
