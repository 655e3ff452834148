//! Types exchanged with the forge, and the pure pieces of the submit flow:
//! finding the stack comment a pull request carries and building the chain
//! of branches a comment describes.

use vstd::prelude::*;
use vstd::string::*;

use crate::stack::{names_of, BranchRec, Stack};
use crate::branch_name::BranchName;

verus! {

/// State of a pull request.
#[derive(Debug, Clone, Copy, PartialEq, Eq, Structural)]
pub enum PullRequestState {
    /// Open.
    Open,
    /// Closed without merging.
    Closed,
    /// Merged.
    Merged,
}

/// A pull request as the forge reports it.
#[derive(Debug)]
pub struct PullRequest {
    /// Its number.
    pub number: u64,
    /// Its title.
    pub title: String,
    /// Its description, if any.
    pub body: Option<String>,
    /// Its state.
    pub state: PullRequestState,
    /// Whether it is a draft.
    pub draft: bool,
    /// The head branch.
    pub head_branch: String,
    /// The base branch.
    pub base_branch: String,
    /// Where to view it.
    pub html_url: String,
}

/// Status of a CI check.
#[derive(Debug, Clone, Copy, PartialEq, Eq, Structural)]
pub enum CheckStatus {
    /// Queued.
    Queued,
    /// Running.
    InProgress,
    /// Completed successfully.
    Success,
    /// Failed.
    Failure,
    /// Skipped.
    Skipped,
    /// Cancelled.
    Cancelled,
}

impl CheckStatus {
    /// Whether this status counts as success.
    pub fn is_success(&self) -> (r: bool)
        ensures
            r == (self is Success || self is Skipped),
    {
        match self {
            CheckStatus::Success | CheckStatus::Skipped => true,
            _ => false,
        }
    }

    /// Whether this status counts as failure.
    pub fn is_failure(&self) -> (r: bool)
        ensures
            r == (self is Failure),
    {
        match self {
            CheckStatus::Failure => true,
            _ => false,
        }
    }

    /// Whether the check is still running.
    pub fn is_pending(&self) -> (r: bool)
        ensures
            r == (self is Queued || self is InProgress),
    {
        match self {
            CheckStatus::Queued | CheckStatus::InProgress => true,
            _ => false,
        }
    }
}

/// A CI check run.
#[derive(Debug)]
pub struct CheckRun {
    /// The check's name.
    pub name: String,
    /// Its status.
    pub status: CheckStatus,
    /// Where to view its details, if anywhere.
    pub details_url: Option<String>,
}

/// Request to create a pull request.
#[derive(Debug)]
pub struct CreatePullRequest {
    /// Title.
    pub title: String,
    /// Description.
    pub body: String,
    /// Head branch.
    pub head: String,
    /// Base branch.
    pub base: String,
    /// Whether to open as a draft.
    pub draft: bool,
}

/// Request to update a pull request; omitted fields are preserved.
#[derive(Debug)]
pub struct UpdatePullRequest {
    /// New title, if any.
    pub title: Option<String>,
    /// New description, if any.
    pub body: Option<String>,
    /// New base branch, if any.
    pub base: Option<String>,
}

/// How to merge a pull request.
#[derive(Debug, Clone, Copy, PartialEq, Eq, Structural)]
pub enum MergeMethod {
    /// A merge commit.
    Merge,
    /// Squash everything into one commit.
    Squash,
    /// Rebase onto the base.
    Rebase,
}

impl Default for MergeMethod {
    /// Squashing is the default.
    fn default() -> (r: Self)
        ensures
            r is Squash,
    {
        MergeMethod::Squash
    }
}

/// Request to merge a pull request.
#[derive(Debug)]
pub struct MergePullRequest {
    /// Title for the merge or squash commit, if overridden.
    pub commit_title: Option<String>,
    /// Message for the merge or squash commit, if overridden.
    pub commit_message: Option<String>,
    /// The method to merge with.
    pub merge_method: MergeMethod,
}

/// Result of merging a pull request.
#[derive(Debug)]
pub struct MergeResult {
    /// The resulting commit.
    pub sha: String,
    /// Whether the merge happened.
    pub merged: bool,
    /// The forge's message.
    pub message: String,
}

/// A comment on a pull request.
#[derive(Debug)]
pub struct IssueComment {
    /// The comment's identifier.
    pub id: u64,
    /// Its text, if any.
    pub body: Option<String>,
}

/// Request to create a comment.
#[derive(Debug)]
pub struct CreateComment {
    /// The comment's text.
    pub body: String,
}

/// Request to update a comment.
#[derive(Debug)]
pub struct UpdateComment {
    /// The new text.
    pub body: String,
}

/// Whether the needle occurs in the haystack.
pub open spec fn has_sub(h: Seq<char>, n: Seq<char>) -> bool {
    exists|o: int| 0 <= o && o + n.len() <= h.len() && (#[trigger] h.subrange(o, o + n.len())) == n
}

/// Substring search.
pub fn contains_sub(h: &str, n: &str) -> (r: bool)
    ensures
        r == has_sub(h@, n@),
{
    let hv = crate::text::chars_of(h);
    let nv = crate::text::chars_of(n);
    if nv.len() == 0 {
        proof {
            assert(h@.subrange(0, 0 + n@.len() as int) =~= n@);
        }
        return true;
    }
    if nv.len() > hv.len() {
        proof {
            if has_sub(h@, n@) {
                let o = choose|o: int| 0 <= o && o + n@.len() <= h@.len()
                    && (#[trigger] h@.subrange(o, o + n@.len())) == n@;
                assert(false);
            }
        }
        return false;
    }
    let limit = hv.len() - nv.len();
    let mut o: usize = 0;
    while o <= limit
        invariant
            nv@ == n@,
            hv@ == h@,
            1 <= nv.len() <= hv.len(),
            limit == hv@.len() - nv@.len(),
            o <= limit + 1,
            forall|t: int| 0 <= t < o
                ==> (#[trigger] h@.subrange(t, t + n@.len())) != n@,
        decreases limit + 1 - o,
    {
        let mut k: usize = 0;
        let mut all = true;
        while k < nv.len()
            invariant_except_break
                all,
            invariant
                o + nv.len() <= hv.len(),
                nv@ == n@,
                hv@ == h@,
                k <= nv.len(),
                all ==> forall|t: int| 0 <= t < k ==> h@[o + t] == n@[t],
                !all ==> !(h@.subrange(o as int, o + n@.len()) == n@),
            ensures
                all ==> forall|t: int| 0 <= t < n@.len() ==> h@[o + t] == n@[t],
                !all ==> !(h@.subrange(o as int, o + n@.len()) == n@),
            decreases nv.len() - k,
        {
            if hv[o + k] != nv[k] {
                proof {
                    assert(h@.subrange(o as int, o + n@.len())[k as int] == h@[o + k]);
                }
                all = false;
                break;
            }
            k += 1;
        }
        if all {
            proof {
                assert(h@.subrange(o as int, o + n@.len()) =~= n@);
            }
            return true;
        }
        o += 1;
    }
    proof {
        if has_sub(h@, n@) {
            let t = choose|t: int| 0 <= t && t + n@.len() <= h@.len()
                && (#[trigger] h@.subrange(t, t + n@.len())) == n@;
            assert(h@.subrange(t, t + n@.len()) != n@);
        }
    }
    false
}

/// Whether a comment's text contains the stack marker.
pub open spec fn comment_marked(c: IssueComment, marker: Seq<char>) -> bool {
    match c.body {
        Some(b) => has_sub(b@, marker),
        None => false,
    }
}

/// Position of the first comment whose text holds the stack marker: the
/// single comment per pull request the submit flow owns.
pub fn find_stack_comment(comments: &Vec<IssueComment>) -> (r: Option<usize>)
    ensures
        match r {
            Some(i) => i < comments@.len()
                && comment_marked(comments@[i as int], stack_comment_marker())
                && forall|j: int| 0 <= j < i
                    ==> !comment_marked(#[trigger] comments@[j], stack_comment_marker()),
            None => forall|j: int| 0 <= j < comments@.len()
                ==> !comment_marked(#[trigger] comments@[j], stack_comment_marker()),
        },
{
    let n = comments.len();
    let mut i: usize = 0;
    while i < n
        invariant
            i <= n,
            n == comments@.len(),
            forall|j: int| 0 <= j < i
                ==> !comment_marked(#[trigger] comments@[j], stack_comment_marker()),
        decreases n - i,
    {
        let marked = match &comments[i].body {
            Some(b) => contains_sub(b.as_str(), "<!-- rung-stack -->"),
            None => false,
        };
        if marked {
            proof {
                assert(comment_marked(comments@[i as int], stack_comment_marker()));
            }
            return Some(i);
        }
        proof {
            assert(!comment_marked(comments@[i as int], stack_comment_marker()));
        }
        i += 1;
    }
    None
}

/// The opaque marker that identifies the stack comment.
pub open spec fn stack_comment_marker() -> Seq<char> {
    "<!-- rung-stack -->"@
}

/// The chain shown in a stack comment: every recorded ancestor of the
/// given branch, oldest first, then the branch, then every branch whose
/// parent already stands in the chain, in stack order.
pub open spec fn chain_rec(s: Seq<BranchRec>, i: int, acc: Seq<Seq<char>>) -> Seq<Seq<char>>
    decreases s.len() - i,
{
    if i < 0 || i >= s.len() {
        acc
    } else {
        let acc2 = if (match s[i].parent {
            Some(p) => acc.contains(p),
            None => false,
        }) && !acc.contains(s[i].name) {
            acc.push(s[i].name)
        } else {
            acc
        };
        chain_rec(s, i + 1, acc2)
    }
}

/// Build the chain of branches for a stack comment: the current branch's
/// recorded ancestors oldest first, the branch itself, and then all
/// descendants of anything in the chain, in stack order.
pub fn build_branch_chain(stack: &Stack, current_name: &str) -> (r: Vec<BranchName>)
    ensures
        match crate::stack::index_of_name(stack@, current_name@) {
            Some(i) => names_of(r@) == chain_rec(stack@, 0,
                crate::stack::ancestry_idx(stack@, i)),
            None => names_of(r@) == chain_rec(stack@, 0, Seq::empty()),
        },
{
    let ghost s = stack@;
    let mut chain: Vec<BranchName> = stack.ancestry(current_name);
    proof {
        crate::stack::lemma_index_of_name(s, current_name@);
        match crate::stack::index_of_name(s, current_name@) {
            Some(i) => {},
            None => {
                assert(names_of(chain@) =~= Seq::<Seq<char>>::empty());
            },
        }
    }
    let n = stack.branches.len();
    let mut i: usize = 0;
    let ghost acc0 = names_of(chain@);
    while i < n
        invariant
            i <= n,
            n == s.len(),
            s == stack@,
            chain_rec(s, 0, acc0) == chain_rec(s, i as int, names_of(chain@)),
        decreases n - i,
    {
        let b = &stack.branches[i];
        let parent_in = match &b.parent {
            Some(p) => crate::stack::names_contain(&chain, p),
            None => false,
        };
        let push_it = parent_in && !crate::stack::names_contain(&chain, &b.name);
        let ghost before = names_of(chain@);
        if push_it {
            chain.push(b.name.duplicate());
            proof {
                assert(names_of(chain@) =~= before.push(s[i as int].name));
            }
        }
        i += 1;
    }
    chain
}

/// Position of the last slash in a name, if any.
pub open spec fn last_slash(s: Seq<char>, i: int) -> Option<int>
    decreases i + 1,
{
    if i < 0 {
        None
    } else if 0 <= i < s.len() && s[i] == '/' {
        Some(i)
    } else {
        last_slash(s, i - 1)
    }
}

/// The last path segment of a branch name.
pub open spec fn last_segment(s: Seq<char>) -> Seq<char> {
    match last_slash(s, s.len() - 1) {
        None => s,
        Some(i) => s.subrange(i + 1, s.len() as int),
    }
}

/// Dashes and underscores replaced by spaces.
pub open spec fn spaced(s: Seq<char>) -> Seq<char> {
    s.map(|i: int, c: char| if c == '-' || c == '_' { ' ' } else { c })
}

/// Space-separated words, each with its first character uppercased,
/// joined by single spaces. `started` says whether a word was already
/// emitted, `in_word` whether the previous character continued one.
pub open spec fn title_core(s: Seq<char>, started: bool, in_word: bool) -> Seq<char>
    decreases s.len(),
{
    if s.len() == 0 {
        Seq::empty()
    } else if s[0] == ' ' {
        title_core(s.drop_first(), started, false)
    } else if in_word {
        seq![s[0]] + title_core(s.drop_first(), true, true)
    } else {
        (if started { seq![' '] } else { Seq::<char>::empty() })
            + crate::text::upper_of(s[0])
            + title_core(s.drop_first(), true, true)
    }
}

/// The displayed title of a branch: its last path segment, dashes and
/// underscores as spaces, every word capitalized.
pub open spec fn title_of(name: Seq<char>) -> Seq<char> {
    title_core(spaced(last_segment(name)), false, false)
}

/// Generate a pull-request title from a branch name.
pub fn generate_title(branch_name: &str) -> (r: String)
    ensures
        r@ == title_of(branch_name@),
{
    let cs = crate::text::chars_of(branch_name);
    let n = cs.len();
    let ghost s = branch_name@;

    // Last path segment.
    let mut start: usize = 0;
    let mut j: usize = n;
    while j > 0
        invariant_except_break
            start == 0,
        invariant
            0 <= j <= n,
            n == s.len(),
            cs@ == s,
            start == 0 ==> last_slash(s, s.len() - 1) == last_slash(s, j - 1),
            start >= 1 ==> (start <= n && s[start - 1] == '/'
                && last_slash(s, s.len() - 1) == Some(start - 1)),
        ensures
            start == 0 ==> j == 0,
        decreases j,
    {
        if cs[j - 1] == '/' {
            proof {
                assert(last_slash(s, j - 1) == Some(j - 1));
            }
            start = j;
            break;
        }
        j -= 1;
    }
    proof {
        if start == 0 {
            assert(last_slash(s, s.len() - 1) == last_slash(s, j - 1));
            if j == 0 {
                assert(last_slash(s, -1) is None);
            }
        }
    }
    let ghost seg = last_segment(s);
    proof {
        if start == 0 {
            assert(seg =~= s);
        } else {
            assert(seg =~= s.subrange(start as int, s.len() as int));
        }
    }

    // Replace separators, capitalize word starts.
    let ghost sp = spaced(seg);
    let mut out: Vec<char> = Vec::new();
    let mut started = false;
    let mut in_word = false;
    let mut i: usize = start;
    proof {
        assert(sp.skip(0) =~= sp);
        assert(out@ + title_core(sp, false, false) =~= title_core(sp, false, false));
    }
    while i < n
        invariant
            start <= i <= n,
            n == s.len(),
            cs@ == s,
            sp == spaced(last_segment(s)),
            sp.len() == n - start,
            forall|k: int| 0 <= k < sp.len() ==> sp[k]
                == (if s[start + k] == '-' || s[start + k] == '_' { ' ' } else { s[start + k] }),
            in_word ==> started,
            title_core(sp, false, false)
                == out@ + title_core(sp.skip(i - start as int), started, in_word),
        decreases n - i,
    {
        let ghost rest = sp.skip(i - start as int);
        proof {
            assert(rest[0] == sp[i - start as int]);
            assert(rest.drop_first() =~= sp.skip(i + 1 - start as int));
        }
        let raw = cs[i];
        let c = if raw == '-' || raw == '_' { ' ' } else { raw };
        proof {
            assert(c == sp[i - start as int]);
        }
        if c == ' ' {
            in_word = false;
        } else if in_word {
            let ghost before = out@;
            out.push(c);
            proof {
                assert(out@ =~= before + seq![c]);
                assert(before + (seq![c] + title_core(sp.skip(i + 1 - start as int), true, true))
                    =~= (before + seq![c])
                        + title_core(sp.skip(i + 1 - start as int), true, true));
            }
        } else {
            let ghost before = out@;
            if started {
                out.push(' ');
            }
            let upper = crate::text::char_to_uppercase(c);
            let ups = crate::text::chars_of(upper.as_str());
            let mut k: usize = 0;
            let ghost mid = out@;
            while k < ups.len()
                invariant
                    k <= ups@.len(),
                    ups@ == crate::text::upper_of(c),
                    out@ == mid + ups@.subrange(0, k as int),
                decreases ups@.len() - k,
            {
                let ghost before_push = out@;
                out.push(ups[k]);
                proof {
                    assert(out@ =~= mid + ups@.subrange(0, k + 1 as int));
                }
                k += 1;
            }
            proof {
                assert(ups@.subrange(0, ups@.len() as int) =~= ups@);
                let head = if started { seq![' '] } else { Seq::<char>::empty() };
                assert(out@ =~= before + (head + crate::text::upper_of(c)));
                assert(before + ((head + crate::text::upper_of(c))
                        + title_core(sp.skip(i + 1 - start as int), true, true))
                    =~= (before + (head + crate::text::upper_of(c)))
                        + title_core(sp.skip(i + 1 - start as int), true, true));
                assert(title_core(rest, started, in_word)
                    == (head + crate::text::upper_of(c))
                        + title_core(rest.drop_first(), true, true));
            }
            started = true;
            in_word = true;
        }
        i += 1;
    }
    proof {
        assert(sp.skip(n - start as int) =~= Seq::<char>::empty());
        assert(out@ + Seq::<char>::empty() =~= out@);
    }
    crate::text::string_of_chars(&out)
}

/// Render the navigation comment for one pull request of the stack. Its
/// contents are informational; the contract is the marker that begins the
/// body, by which [`find_stack_comment`] recognizes the comment later.
pub fn generate_stack_comment(stack: &Stack, current_pr: u64) -> (r: String)
    ensures
        r@.len() >= stack_comment_marker().len(),
        r@.subrange(0, stack_comment_marker().len() as int) == stack_comment_marker(),
{
    // The branch this pull request belongs to.
    let mut current_name = String::new();
    let mut i: usize = 0;
    while i < stack.branches.len()
        decreases stack.branches@.len() - i,
    {
        let b = &stack.branches[i];
        let matches_pr = match b.pr {
            Some(n) => n == current_pr,
            None => false,
        };
        if matches_pr {
            current_name = String::from_str(b.name.as_str());
            break;
        }
        i += 1;
    }

    let chain = build_branch_chain(stack, current_name.as_str());
    let mut rest = String::from_str("\n### Stack\n\n");

    // Newest first: walk the chain from its end.
    let mut k = chain.len();
    while k > 0
        invariant
            k <= chain@.len(),
        decreases k,
    {
        k = k - 1;
        let link = &chain[k];
        match stack.find_branch(link.as_str()) {
            None => {},
            Some(b) => {
                let pointer = if current_name == String::from_str(b.name.as_str()) {
                    " <- this one"
                } else {
                    ""
                };
                match b.pr {
                    Some(n) => {
                        rest.append("- ");
                        let title = generate_title(b.name.as_str());
                        rest.append(title.as_str());
                        rest.append(" #");
                        crate::codec::push_u64(&mut rest, n);
                        rest.append(pointer);
                        rest.append("\n");
                    },
                    None => {
                        rest.append("- (pending) `");
                        rest.append(b.name.as_str());
                        rest.append("`");
                        rest.append(pointer);
                        rest.append("\n");
                    },
                }
            },
        }
    }

    // The base everything ultimately lands on.
    let ancestors = stack.ancestry(current_name.as_str());
    let mut base = String::from_str("main");
    if ancestors.len() > 0 {
        if let Some(root) = stack.find_branch(ancestors[0].as_str()) {
            if let Some(parent) = &root.parent {
                base = String::from_str(parent.as_str());
            }
        }
    }
    rest.append("- `");
    rest.append(base.as_str());
    rest.append("`\n");

    let mut out = String::from_str("<!-- rung-stack -->");
    out.append(rest.as_str());
    proof {
        assert(out@.subrange(0, stack_comment_marker().len() as int)
            =~= stack_comment_marker());
    }
    out
}

} // verus!
