//! The in-memory stack model: an ordered forest of branches with parent
//! links and optional pull-request numbers.
//!
//! The stack's standing invariant is [`stack_wf`]: names are unique and the
//! order is topological — every branch appears after its parent whenever the
//! parent is itself in the stack. A parent name that is not in the stack
//! refers to the mainline (or to a branch that has left the stack).

use vstd::prelude::*;

use crate::branch_name::BranchName;

verus! {

/// Mathematical record of one stack entry.
pub ghost struct BranchRec {
    /// The branch's own name.
    pub name: Seq<char>,
    /// The name of its parent, or `None` for a branch based on the mainline.
    pub parent: Option<Seq<char>>,
    /// The pull-request number, once one exists.
    pub pr: Option<u64>,
}

/// One entry of the stack.
#[derive(Debug)]
pub struct StackBranch {
    /// The branch's own name.
    pub name: BranchName,
    /// The name of its parent, or `None` for a branch based on the mainline.
    pub parent: Option<BranchName>,
    /// The pull-request number, once one exists.
    pub pr: Option<u64>,
}

impl View for StackBranch {
    type V = BranchRec;

    open spec fn view(&self) -> BranchRec {
        BranchRec {
            name: self.name@,
            parent: match self.parent {
                Some(p) => Some(p@),
                None => None,
            },
            pr: self.pr,
        }
    }
}

impl StackBranch {
    /// A new entry without a pull request.
    pub fn new(name: BranchName, parent: Option<BranchName>) -> (r: StackBranch)
        ensures
            r@.name == name@,
            r@.parent == (match parent {
                Some(p) => Some(p@),
                None => None::<Seq<char>>,
            }),
            r@.pr is None,
    {
        StackBranch { name, parent, pr: None }
    }

    /// An owned copy of this entry.
    pub fn duplicate(&self) -> (r: StackBranch)
        ensures
            r@ == self@,
    {
        StackBranch {
            name: self.name.duplicate(),
            parent: match &self.parent {
                Some(p) => Some(p.duplicate()),
                None => None,
            },
            pr: self.pr,
        }
    }
}

/// Whether some entry bears the given name.
pub open spec fn contains_name(s: Seq<BranchRec>, name: Seq<char>) -> bool {
    exists|i: int| 0 <= i < s.len() && (#[trigger] s[i].name) == name
}

/// Names are pairwise distinct.
pub open spec fn unique_names(s: Seq<BranchRec>) -> bool {
    forall|i: int, j: int| 0 <= i < j < s.len()
        ==> (#[trigger] s[i].name) != (#[trigger] s[j].name)
}

/// The order is topological: whenever an entry's parent is the name of
/// another entry, that entry comes earlier.
pub open spec fn topo_ok(s: Seq<BranchRec>) -> bool {
    forall|i: int, j: int| 0 <= i < s.len() && 0 <= j < s.len()
        && (#[trigger] s[i].parent) == Some(#[trigger] s[j].name) ==> j < i
}

/// The stack's standing invariant.
pub open spec fn stack_wf(s: Seq<BranchRec>) -> bool {
    unique_names(s) && topo_ok(s)
}

/// Index of the first entry bearing the given name.
pub open spec fn index_of_name(s: Seq<BranchRec>, name: Seq<char>) -> Option<int>
    decreases s.len(),
{
    if s.len() == 0 {
        None
    } else if s[0].name == name {
        Some(0)
    } else {
        match index_of_name(s.drop_first(), name) {
            None => None,
            Some(j) => Some(j + 1),
        }
    }
}

/// The first entry bearing the given name.
pub open spec fn rec_of(s: Seq<BranchRec>, name: Seq<char>) -> Option<BranchRec> {
    match index_of_name(s, name) {
        None => None,
        Some(i) => Some(s[i]),
    }
}

/// What [`index_of_name`] returns: the least matching index, if any.
pub proof fn lemma_index_of_name(s: Seq<BranchRec>, name: Seq<char>)
    ensures
        match index_of_name(s, name) {
            None => !contains_name(s, name),
            Some(i) => 0 <= i < s.len() && s[i].name == name
                && forall|j: int| 0 <= j < i ==> (#[trigger] s[j].name) != name,
        },
    decreases s.len(),
{
    if s.len() > 0 {
        lemma_index_of_name(s.drop_first(), name);
        if s[0].name != name {
            let rest = s.drop_first();
            match index_of_name(rest, name) {
                None => {
                    assert forall|i: int| 0 <= i < s.len()
                        implies (#[trigger] s[i].name) != name by {
                        if i > 0 {
                            assert(s[i] == rest[i - 1]);
                            assert(rest[i - 1].name != name) by {
                                assert(!contains_name(rest, name));
                            }
                        }
                    }
                    assert(!contains_name(s, name));
                },
                Some(j) => {
                    assert(s[j + 1] == rest[j]);
                    assert forall|jp: int| 0 <= jp < j + 1
                        implies (#[trigger] s[jp].name) != name by {
                        if jp > 0 {
                            assert(s[jp] == rest[jp - 1]);
                        }
                    }
                },
            }
        }
    }
}

/// The names of a list of branch names, as sequences.
pub open spec fn names_of(v: Seq<BranchName>) -> Seq<Seq<char>> {
    v.map(|i: int, b: BranchName| b@)
}

/// The persistent, topologically ordered forest of feature branches.
#[derive(Debug)]
pub struct Stack {
    /// The entries, in insertion order.
    pub branches: Vec<StackBranch>,
}

impl View for Stack {
    type V = Seq<BranchRec>;

    open spec fn view(&self) -> Seq<BranchRec> {
        self.branches@.map(|i: int, b: StackBranch| b@)
    }
}

impl Stack {
    /// An empty stack.
    pub fn new() -> (r: Stack)
        ensures
            r@ =~= Seq::<BranchRec>::empty(),
            stack_wf(r@),
    {
        let r = Stack { branches: Vec::new() };
        proof {
            assert(r@ =~= Seq::<BranchRec>::empty());
        }
        r
    }

    /// Whether the stack has no entries.
    pub fn is_empty(&self) -> (r: bool)
        ensures
            r == (self@.len() == 0),
    {
        self.branches.len() == 0
    }

    /// Number of entries.
    pub fn len(&self) -> (r: usize)
        ensures
            r == self@.len(),
    {
        self.branches.len()
    }

    /// Append a branch. The caller must ensure the name is fresh and that
    /// no existing entry names it as parent, so the order stays topological;
    /// the new entry's parent must already be present or refer outside the
    /// stack (the mainline).
    pub fn add_branch(&mut self, b: StackBranch)
        requires
            stack_wf(old(self)@),
            !contains_name(old(self)@, b@.name),
            forall|i: int| 0 <= i < old(self)@.len()
                ==> (#[trigger] old(self)@[i].parent) != Some(b@.name),
            b@.parent != Some(b@.name),
        ensures
            final(self)@ =~= old(self)@.push(b@),
            stack_wf(final(self)@),
    {
        let ghost olds = self@;
        self.branches.push(b);
        proof {
            assert(self@ =~= olds.push(b@));
            let news = self@;
            assert forall|i: int, j: int| 0 <= i < j < news.len()
                implies (#[trigger] news[i].name) != (#[trigger] news[j].name) by {
                if j == news.len() - 1 {
                    assert(news[i] == olds[i]);
                    assert(contains_name(olds, news[i].name));
                }
            }
            assert forall|i: int, j: int| 0 <= i < news.len() && 0 <= j < news.len()
                && (#[trigger] news[i].parent) == Some(#[trigger] news[j].name)
                implies j < i by {
                if i < news.len() - 1 && j == news.len() - 1 {
                    assert(olds[i].parent == Some(b@.name));
                }
                if i == news.len() - 1 && j == news.len() - 1 {
                    assert(b@.parent == Some(b@.name));
                }
                if i == news.len() - 1 && j < news.len() - 1 {
                    assert(contains_name(olds, news[j].name));
                }
            }
        }
    }

    /// Position of the entry with the given name, if any.
    pub fn position_of(&self, name: &str) -> (r: Option<usize>)
        ensures
            match r {
                None => index_of_name(self@, name@) is None,
                Some(i) => index_of_name(self@, name@) == Some(i as int),
            },
    {
        let ghost s = self@;
        let n = self.branches.len();
        let mut i: usize = 0;
        while i < n
            invariant
                i <= n,
                n == s.len(),
                s == self@,
                forall|j: int| 0 <= j < i ==> (#[trigger] s[j].name) != name@,
            decreases n - i,
        {
            if self.branches[i].name.is(name) {
                proof {
                    lemma_index_of_name(s, name@);
                    match index_of_name(s, name@) {
                        None => {
                            assert(s[i as int].name == name@);
                            assert(contains_name(s, name@));
                            assert(false);
                        },
                        Some(k) => {
                            if k < i {
                                assert(s[k].name != name@);
                            }
                            if k > i {
                                assert(s[i as int].name != name@);
                            }
                        },
                    }
                }
                return Some(i);
            }
            i += 1;
        }
        proof {
            lemma_index_of_name(s, name@);
            match index_of_name(s, name@) {
                None => {},
                Some(k) => {
                    assert(s[k].name != name@);
                    assert(false);
                },
            }
        }
        None
    }

    /// The entry with the given name, if any.
    pub fn find_branch(&self, name: &str) -> (r: Option<&StackBranch>)
        ensures
            match r {
                None => rec_of(self@, name@) is None,
                Some(b) => rec_of(self@, name@) == Some(b@),
            },
    {
        match self.position_of(name) {
            None => {
                proof {
                    assert(rec_of(self@, name@) is None);
                }
                None
            },
            Some(i) => {
                proof {
                    lemma_index_of_name(self@, name@);
                    assert(self@[i as int] == self.branches@[i as int]@);
                }
                Some(&self.branches[i])
            },
        }
    }

    /// The entries whose parent is the given name, in stack order.
    pub fn children_of(&self, name: &str) -> (r: Vec<StackBranch>)
        ensures
            r@.map(|i: int, b: StackBranch| b@) =~= children_rec(self@, name@),
    {
        let ghost s = self@;
        let n = self.branches.len();
        let mut r: Vec<StackBranch> = Vec::new();
        let mut i: usize = 0;
        proof {
            assert(s.skip(0) =~= s);
            assert(r@.map(|k: int, b: StackBranch| b@) =~= Seq::<BranchRec>::empty());
        }
        while i < n
            invariant
                i <= n,
                n == s.len(),
                s == self@,
                children_rec(s, name@) =~= r@.map(|k: int, b: StackBranch| b@)
                    + children_rec(s.skip(i as int), name@),
            decreases n - i,
        {
            let ghost rest = s.skip(i as int);
            proof {
                assert(rest[0] == s[i as int]);
                assert(rest.drop_first() =~= s.skip(i + 1 as int));
            }
            let b = &self.branches[i];
            let matches_parent = match &b.parent {
                Some(p) => p.is(name),
                None => false,
            };
            if matches_parent {
                let ghost before = r@;
                r.push(b.duplicate());
                proof {
                    assert(r@.map(|k: int, b: StackBranch| b@)
                        =~= before.map(|k: int, b: StackBranch| b@).push(s[i as int]));
                    assert(before.map(|k: int, b: StackBranch| b@).push(s[i as int])
                        =~= before.map(|k: int, b: StackBranch| b@) + seq![s[i as int]]);
                }
            } else {
                proof {
                    assert(s[i as int].parent != Some(name@));
                }
            }
            i += 1;
        }
        proof {
            assert(s.skip(n as int) =~= Seq::<BranchRec>::empty());
        }
        r
    }
}

/// The records whose parent is the given name, in order.
pub open spec fn children_rec(s: Seq<BranchRec>, name: Seq<char>) -> Seq<BranchRec>
    decreases s.len(),
{
    if s.len() == 0 {
        Seq::empty()
    } else {
        let rest = children_rec(s.drop_first(), name);
        if s[0].parent == Some(name) {
            seq![s[0]] + rest
        } else {
            rest
        }
    }
}

/// Mathematical record of one re-parenting.
pub ghost struct ReparentRec {
    /// The child that was re-parented.
    pub name: Seq<char>,
    /// Its former parent: the branch that left the stack.
    pub old_parent: Seq<char>,
    /// Its new parent, or `None` for the mainline.
    pub new_parent: Option<Seq<char>>,
    /// The child's pull-request number, if any.
    pub pr: Option<u64>,
}

/// A child moved to a new parent by reconciliation.
#[derive(Debug)]
pub struct Reparent {
    /// The child that was re-parented.
    pub name: BranchName,
    /// Its former parent: the branch that left the stack.
    pub old_parent: BranchName,
    /// Its new parent, or `None` for the mainline.
    pub new_parent: Option<BranchName>,
    /// The child's pull-request number, if any.
    pub pr_number: Option<u64>,
}

impl View for Reparent {
    type V = ReparentRec;

    open spec fn view(&self) -> ReparentRec {
        ReparentRec {
            name: self.name@,
            old_parent: self.old_parent@,
            new_parent: match self.new_parent {
                Some(p) => Some(p@),
                None => None,
            },
            pr: self.pr_number,
        }
    }
}

/// The views of a list of re-parent records.
pub open spec fn reparent_views(v: Seq<Reparent>) -> Seq<ReparentRec> {
    v.map(|i: int, r: Reparent| r@)
}

/// The re-parent records one reconciliation step emits: one per surviving
/// child of the removed branch, in stack order.
pub open spec fn reparents_rec(s: Seq<BranchRec>, name: Seq<char>, p: Option<Seq<char>>)
    -> Seq<ReparentRec>
    decreases s.len(),
{
    if s.len() == 0 {
        Seq::empty()
    } else {
        let rest = reparents_rec(s.drop_first(), name, p);
        if s[0].name != name && s[0].parent == Some(name) {
            seq![ReparentRec { name: s[0].name, old_parent: name, new_parent: p, pr: s[0].pr }]
                + rest
        } else {
            rest
        }
    }
}

/// An owned copy of an optional branch name.
pub fn duplicate_parent(o: &Option<BranchName>) -> (r: Option<BranchName>)
    ensures
        (match r {
            Some(b) => Some(b@),
            None => None::<Seq<char>>,
        }) == (match o {
            Some(b) => Some(b@),
            None => None::<Seq<char>>,
        }),
{
    match o {
        Some(b) => Some(b.duplicate()),
        None => None,
    }
}

impl Stack {
    /// Remove the named branch; every child is re-parented to the removed
    /// branch's own parent (the mainline when it had none, or was absent).
    /// Returns one record per re-parented child, in stack order.
    pub fn remove_and_reparent(&mut self, name: &str) -> (reps: Vec<Reparent>)
        requires
            stack_wf(old(self)@),
        ensures
            final(self)@ =~= reconcile_one(old(self)@, name@),
            stack_wf(final(self)@),
            !contains_name(final(self)@, name@),
            reparent_views(reps@) =~= reparents_rec(old(self)@, name@,
                parent_of(old(self)@, name@)),
    {
        let ghost s = self@;
        let p_opt: Option<BranchName> = match self.find_branch(name) {
            Some(b) => duplicate_parent(&b.parent),
            None => None,
        };
        let ghost p = match &p_opt {
            Some(x) => Some(x@),
            None => None::<Seq<char>>,
        };
        proof {
            assert(p == parent_of(s, name@));
        }
        let n = self.branches.len();
        let mut out: Vec<StackBranch> = Vec::new();
        let mut reps: Vec<Reparent> = Vec::new();
        let mut i: usize = 0;
        proof {
            assert(s.skip(0) =~= s);
            assert(out@.map(|k: int, b: StackBranch| b@) =~= Seq::<BranchRec>::empty());
            assert(reparent_views(reps@) =~= Seq::<ReparentRec>::empty());
        }
        while i < n
            invariant
                i <= n,
                n == s.len(),
                s == self@,
                p == parent_of(s, name@),
                (match p_opt {
                    Some(x) => Some(x@),
                    None => None::<Seq<char>>,
                }) == p,
                drop_and_reparent(s, name@, p) =~= out@.map(|k: int, b: StackBranch| b@)
                    + drop_and_reparent(s.skip(i as int), name@, p),
                reparents_rec(s, name@, p) =~= reparent_views(reps@)
                    + reparents_rec(s.skip(i as int), name@, p),
            decreases n - i,
        {
            let ghost rest = s.skip(i as int);
            proof {
                assert(rest[0] == s[i as int]);
                assert(rest.drop_first() =~= s.skip(i + 1 as int));
            }
            let b = &self.branches[i];
            if b.name.is(name) {
                // dropped
            } else {
                let is_child = match &b.parent {
                    Some(q) => q.is(name),
                    None => false,
                };
                if is_child {
                    let ghost out_before = out@;
                    let ghost reps_before = reps@;
                    out.push(StackBranch {
                        name: b.name.duplicate(),
                        parent: duplicate_parent(&p_opt),
                        pr: b.pr,
                    });
                    let old_parent = match &b.parent {
                        Some(q) => q.duplicate(),
                        None => b.name.duplicate(),
                    };
                    reps.push(Reparent {
                        name: b.name.duplicate(),
                        old_parent,
                        new_parent: duplicate_parent(&p_opt),
                        pr_number: b.pr,
                    });
                    proof {
                        assert(out@.map(|k: int, x: StackBranch| x@)
                            =~= out_before.map(|k: int, x: StackBranch| x@)
                                + seq![BranchRec { name: s[i as int].name, parent: p,
                                    pr: s[i as int].pr }]);
                        assert(reparent_views(reps@)
                            =~= reparent_views(reps_before)
                                + seq![ReparentRec { name: s[i as int].name,
                                    old_parent: name@, new_parent: p, pr: s[i as int].pr }]);
                    }
                } else {
                    let ghost out_before = out@;
                    out.push(b.duplicate());
                    proof {
                        assert(s[i as int].parent != Some(name@));
                        assert(out@.map(|k: int, x: StackBranch| x@)
                            =~= out_before.map(|k: int, x: StackBranch| x@)
                                + seq![s[i as int]]);
                    }
                }
            }
            i += 1;
        }
        proof {
            assert(s.skip(n as int) =~= Seq::<BranchRec>::empty());
        }
        self.branches = out;
        proof {
            lemma_reconcile_one_wf(s, name@);
        }
        reps
    }

    /// Every proper descendant of the given branch, in stack order — which,
    /// by the stack invariant, is a topological order.
    pub fn descendants(&self, name: &str) -> (r: Vec<BranchName>)
        ensures
            names_of(r@) =~= descendants_rec(self@, 0, name@, Seq::empty()),
    {
        let ghost s = self@;
        let n = self.branches.len();
        let mut r: Vec<BranchName> = Vec::new();
        let mut i: usize = 0;
        proof {
            assert(names_of(r@) =~= Seq::<Seq<char>>::empty());
        }
        while i < n
            invariant
                i <= n,
                n == s.len(),
                s == self@,
                descendants_rec(s, 0, name@, Seq::empty())
                    == descendants_rec(s, i as int, name@, names_of(r@)),
            decreases n - i,
        {
            let b = &self.branches[i];
            let is_descendant = match &b.parent {
                Some(q) => q.is(name) || names_contain(&r, q),
                None => false,
            };
            let ghost before = names_of(r@);
            if is_descendant {
                r.push(b.name.duplicate());
                proof {
                    assert(names_of(r@) =~= before.push(s[i as int].name));
                }
            }
            i += 1;
        }
        r
    }

    /// The chain of ancestors recorded in the stack, oldest first, ending
    /// with the named branch itself; empty when the name is not in the stack.
    pub fn ancestry(&self, name: &str) -> (r: Vec<BranchName>)
        ensures
            match index_of_name(self@, name@) {
                None => r@.len() == 0,
                Some(i) => names_of(r@) == ancestry_idx(self@, i),
            },
    {
        match self.position_of(name) {
            None => Vec::new(),
            Some(i) => {
                proof {
                    lemma_index_of_name(self@, name@);
                }
                self.ancestry_from(i)
            },
        }
    }

    /// The ancestor chain starting at position `i`, oldest first.
    fn ancestry_from(&self, i: usize) -> (r: Vec<BranchName>)
        requires
            i < self@.len(),
        ensures
            names_of(r@) == ancestry_idx(self@, i as int),
        decreases i,
    {
        let parent = duplicate_parent(&self.branches[i].parent);
        let mut r: Vec<BranchName> = match parent {
            None => Vec::new(),
            Some(p) => match self.position_of(p.as_str()) {
                None => Vec::new(),
                Some(j) => {
                    proof {
                        lemma_index_of_name(self@, p@);
                    }
                    if j < i {
                        self.ancestry_from(j)
                    } else {
                        Vec::new()
                    }
                },
            },
        };
        let ghost before = names_of(r@);
        r.push(self.branches[i].name.duplicate());
        proof {
            assert(names_of(r@) =~= before.push(self@[i as int].name));
            assert(ancestry_idx(self@, i as int) =~= before.push(self@[i as int].name));
        }
        r
    }
}

/// Whether one of the names in the list reads as the given name.
pub fn names_contain(v: &Vec<BranchName>, q: &BranchName) -> (r: bool)
    ensures
        r == names_of(v@).contains(q@),
{
    let mut i: usize = 0;
    let n = v.len();
    while i < n
        invariant
            i <= n,
            n == v@.len(),
            forall|j: int| 0 <= j < i ==> names_of(v@)[j] != q@,
        decreases n - i,
    {
        if v[i] == *q {
            proof {
                assert(names_of(v@)[i as int] == q@);
            }
            return true;
        }
        proof {
            assert(names_of(v@)[i as int] == v@[i as int]@);
        }
        i += 1;
    }
    proof {
        if names_of(v@).contains(q@) {
            let j = choose|j: int| 0 <= j < names_of(v@).len() && names_of(v@)[j] == q@;
            assert(names_of(v@)[j] != q@);
        }
    }
    false
}

/// The names of the proper descendants of `root` found from position `i`
/// on, appended to those already found: an entry is a descendant when its
/// parent is the root or an already-found descendant.
pub open spec fn descendants_rec(s: Seq<BranchRec>, i: int, root: Seq<char>,
    acc: Seq<Seq<char>>) -> Seq<Seq<char>>
    decreases s.len() - i,
{
    if i < 0 || i >= s.len() {
        acc
    } else {
        let is_desc = match s[i].parent {
            Some(q) => q == root || acc.contains(q),
            None => false,
        };
        descendants_rec(s, i + 1, root, if is_desc { acc.push(s[i].name) } else { acc })
    }
}

/// The ancestor chain of the entry at position `i`: its parent's chain,
/// when the parent is an earlier stack entry, followed by its own name.
pub open spec fn ancestry_idx(s: Seq<BranchRec>, i: int) -> Seq<Seq<char>>
    decreases i,
{
    if !(0 <= i < s.len()) {
        Seq::empty()
    } else {
        let above = match s[i].parent {
            None => Seq::<Seq<char>>::empty(),
            Some(p) => match index_of_name(s, p) {
                None => Seq::<Seq<char>>::empty(),
                Some(j) => if 0 <= j < i {
                    ancestry_idx(s, j)
                } else {
                    Seq::<Seq<char>>::empty()
                },
            },
        };
        above.push(s[i].name)
    }
}

/// Number of entries bearing the given name.
pub open spec fn count_name(s: Seq<BranchRec>, name: Seq<char>) -> int
    decreases s.len(),
{
    if s.len() == 0 {
        0
    } else {
        (if s[0].name == name { 1int } else { 0int }) + count_name(s.drop_first(), name)
    }
}

/// The parent recorded for the named entry, or `None` when it is absent.
pub open spec fn parent_of(s: Seq<BranchRec>, name: Seq<char>) -> Option<Seq<char>> {
    match rec_of(s, name) {
        Some(r) => r.parent,
        None => None,
    }
}

/// One reconciliation step: every entry named `name` leaves the stack and
/// every entry whose parent was `name` is re-parented to `p`.
pub open spec fn drop_and_reparent(s: Seq<BranchRec>, name: Seq<char>, p: Option<Seq<char>>)
    -> Seq<BranchRec>
    decreases s.len(),
{
    if s.len() == 0 {
        Seq::empty()
    } else {
        let rest = drop_and_reparent(s.drop_first(), name, p);
        if s[0].name == name {
            rest
        } else if s[0].parent == Some(name) {
            seq![BranchRec { name: s[0].name, parent: p, pr: s[0].pr }] + rest
        } else {
            seq![s[0]] + rest
        }
    }
}

/// Removal of the named branch with its children re-parented to its parent.
pub open spec fn reconcile_one(s: Seq<BranchRec>, name: Seq<char>) -> Seq<BranchRec> {
    drop_and_reparent(s, name, parent_of(s, name))
}

/// The old index of the entry standing at position `k` after
/// [`drop_and_reparent`].
pub open spec fn dar_src(s: Seq<BranchRec>, name: Seq<char>, k: int) -> int
    decreases s.len(),
{
    if s.len() == 0 {
        0
    } else if s[0].name == name {
        1 + dar_src(s.drop_first(), name, k)
    } else if k == 0 {
        0
    } else {
        1 + dar_src(s.drop_first(), name, k - 1)
    }
}

/// Element-wise description of [`drop_and_reparent`]: the result keeps the
/// surviving entries in their old order, re-parenting the children.
pub proof fn lemma_dar(s: Seq<BranchRec>, name: Seq<char>, p: Option<Seq<char>>)
    ensures
        ({
            let out = drop_and_reparent(s, name, p);
            &&& out.len() == s.len() - count_name(s, name)
            &&& 0 <= count_name(s, name) <= s.len()
            &&& forall|k: int| 0 <= k < out.len()
                ==> 0 <= #[trigger] dar_src(s, name, k) < s.len()
            &&& forall|k: int| 0 <= k < out.len()
                ==> s[#[trigger] dar_src(s, name, k)].name != name
            &&& forall|k: int| 0 <= k < out.len()
                ==> out[k].name == s[#[trigger] dar_src(s, name, k)].name
                    && out[k].pr == s[dar_src(s, name, k)].pr
                    && out[k].parent == (if s[dar_src(s, name, k)].parent == Some(name) {
                        p
                    } else {
                        s[dar_src(s, name, k)].parent
                    })
            &&& forall|k1: int, k2: int| 0 <= k1 < k2 < out.len()
                ==> #[trigger] dar_src(s, name, k1) < #[trigger] dar_src(s, name, k2)
        }),
    decreases s.len(),
{
    if s.len() > 0 {
        let rest = s.drop_first();
        lemma_dar(rest, name, p);
        let out = drop_and_reparent(s, name, p);
        let rout = drop_and_reparent(rest, name, p);
        if s[0].name == name {
            assert(out == rout);
            assert forall|k: int| 0 <= k < out.len()
                implies 0 <= #[trigger] dar_src(s, name, k) < s.len()
                    && s[dar_src(s, name, k)].name != name
                    && out[k].name == s[dar_src(s, name, k)].name
                    && out[k].pr == s[dar_src(s, name, k)].pr
                    && out[k].parent == (if s[dar_src(s, name, k)].parent == Some(name) {
                        p
                    } else {
                        s[dar_src(s, name, k)].parent
                    }) by {
                assert(dar_src(s, name, k) == 1 + dar_src(rest, name, k));
                assert(s[1 + dar_src(rest, name, k)] == rest[dar_src(rest, name, k)]);
            }
            assert forall|k1: int, k2: int| 0 <= k1 < k2 < out.len()
                implies #[trigger] dar_src(s, name, k1) < #[trigger] dar_src(s, name, k2) by {
                assert(dar_src(rest, name, k1) < dar_src(rest, name, k2));
            }
        } else {
            let head = if s[0].parent == Some(name) {
                BranchRec { name: s[0].name, parent: p, pr: s[0].pr }
            } else {
                s[0]
            };
            assert(out == seq![head] + rout);
            assert(out.len() == 1 + rout.len());
            assert forall|k: int| 0 <= k < out.len()
                implies 0 <= #[trigger] dar_src(s, name, k) < s.len()
                    && s[dar_src(s, name, k)].name != name
                    && out[k].name == s[dar_src(s, name, k)].name
                    && out[k].pr == s[dar_src(s, name, k)].pr
                    && out[k].parent == (if s[dar_src(s, name, k)].parent == Some(name) {
                        p
                    } else {
                        s[dar_src(s, name, k)].parent
                    }) by {
                if k == 0 {
                    assert(dar_src(s, name, 0) == 0);
                    assert(out[0] == head);
                } else {
                    assert(dar_src(s, name, k) == 1 + dar_src(rest, name, k - 1));
                    assert(out[k] == rout[k - 1]);
                    assert(s[1 + dar_src(rest, name, k - 1)] == rest[dar_src(rest, name, k - 1)]);
                }
            }
            assert forall|k1: int, k2: int| 0 <= k1 < k2 < out.len()
                implies #[trigger] dar_src(s, name, k1) < #[trigger] dar_src(s, name, k2) by {
                if k1 == 0 {
                    assert(dar_src(s, name, k2) == 1 + dar_src(rest, name, k2 - 1));
                    assert(0 <= dar_src(rest, name, k2 - 1));
                } else {
                    assert(dar_src(rest, name, k1 - 1) < dar_src(rest, name, k2 - 1));
                }
            }
        }
    }
}

/// A present name is counted at least once.
pub proof fn lemma_count_contains(s: Seq<BranchRec>, name: Seq<char>)
    ensures
        contains_name(s, name) ==> count_name(s, name) >= 1,
        count_name(s, name) >= 0,
    decreases s.len(),
{
    if s.len() > 0 {
        let rest = s.drop_first();
        lemma_count_contains(rest, name);
        if contains_name(s, name) && s[0].name != name {
            let i = choose|i: int| 0 <= i < s.len() && (#[trigger] s[i].name) == name;
            assert(rest[i - 1].name == name);
            assert(contains_name(rest, name));
        }
    }
}

/// Reconciliation preserves the stack invariant and removes the name.
pub proof fn lemma_reconcile_one_wf(s: Seq<BranchRec>, name: Seq<char>)
    requires
        stack_wf(s),
    ensures
        stack_wf(reconcile_one(s, name)),
        !contains_name(reconcile_one(s, name), name),
        contains_name(s, name) ==> reconcile_one(s, name).len() < s.len(),
{
    let p = parent_of(s, name);
    let out = reconcile_one(s, name);
    lemma_dar(s, name, p);
    lemma_count_contains(s, name);
    lemma_index_of_name(s, name);

    assert forall|i: int, j: int| 0 <= i < j < out.len()
        implies (#[trigger] out[i].name) != (#[trigger] out[j].name) by {
        assert(dar_src(s, name, i) < dar_src(s, name, j));
    }
    assert forall|i2: int, j2: int| 0 <= i2 < out.len() && 0 <= j2 < out.len()
        && (#[trigger] out[i2].parent) == Some(#[trigger] out[j2].name)
        implies j2 < i2 by {
        let a = dar_src(s, name, i2);
        let b = dar_src(s, name, j2);
        if s[a].parent == Some(name) {
            // The new parent is `p`, the parent of the removed entry.
            match index_of_name(s, name) {
                None => {
                    assert(p is None);
                },
                Some(m) => {
                    assert(s[m].parent == Some(s[b].name));
                    assert(b < m);
                    assert(s[a].parent == Some(s[m].name));
                    assert(m < a);
                },
            }
        } else {
            assert(s[a].parent == Some(s[b].name));
        }
        assert(b < a);
        if j2 == i2 {
            assert(false);
        }
        if j2 > i2 {
            assert(dar_src(s, name, i2) < dar_src(s, name, j2));
            assert(false);
        }
    }
    assert forall|i: int| 0 <= i < out.len() implies (#[trigger] out[i].name) != name by {
        assert(s[dar_src(s, name, i)].name != name);
    }
    if contains_name(s, name) {
        assert(count_name(s, name) >= 1);
    }
}

} // verus!
