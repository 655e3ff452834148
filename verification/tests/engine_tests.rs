//! The stack model, the sync engine, the codec and the remote parser on
//! concrete scenarios.

use rung::branch_name::BranchName;
use rung::codec::{parse_stack, serialize_stack};
use rung::errors::Error;
use rung::forge::{
    build_branch_chain, find_stack_comment, generate_stack_comment, generate_title, CheckStatus,
    IssueComment,
};
use rung::merge::plan_merge_cleanup;
use rung::remote::parse_github_remote;
use rung::stack::{Stack, StackBranch};
use rung::state::SyncState;
use rung::sync::{
    abort_sync, apply_rebase_event, complete_result, continue_sync, create_sync_plan,
    execute_sync, next_rebase, pr_base_updates, push_targets, reconcile_merged,
    remove_stale_branches, undo_sync, ExternalMergeInfo, MergeBaseEntry, RebaseEvent, RepoView,
    SyncResult, SyncStart, TipEntry,
};

fn name(s: &str) -> BranchName {
    BranchName::new(s).unwrap()
}

fn entry(n: &str, parent: Option<&str>, pr: Option<u64>) -> StackBranch {
    let mut b = StackBranch::new(name(n), parent.map(name));
    b.pr = pr;
    b
}

fn stack_of(entries: Vec<StackBranch>) -> Stack {
    let mut st = Stack::new();
    for b in entries {
        st.add_branch(b);
    }
    st
}

fn tip(branch: &str, commit: &str) -> TipEntry {
    TipEntry { branch: branch.to_string(), commit: commit.to_string() }
}

fn mb(a: &str, b: &str, base: &str) -> MergeBaseEntry {
    MergeBaseEntry { a: a.to_string(), b: b.to_string(), base: base.to_string() }
}

// === stack model ===

#[test]
fn test_stack_lookup_and_children() {
    let st = stack_of(vec![
        entry("a", None, None),
        entry("b", Some("a"), None),
        entry("c", Some("a"), None),
    ]);
    assert_eq!(st.len(), 3);
    assert!(!st.is_empty());
    let found = st.find_branch("b").unwrap();
    assert_eq!(found.name.as_str(), "b");
    assert_eq!(found.parent.as_ref().unwrap().as_str(), "a");
    assert!(st.find_branch("zzz").is_none());

    let kids = st.children_of("a");
    assert_eq!(kids.len(), 2);
    assert_eq!(kids[0].name.as_str(), "b");
    assert_eq!(kids[1].name.as_str(), "c");
}

#[test]
fn test_stack_ancestry_and_descendants() {
    let st = stack_of(vec![
        entry("a", None, None),
        entry("b", Some("a"), None),
        entry("c", Some("b"), None),
        entry("d", Some("a"), None),
    ]);
    let chain: Vec<String> = st.ancestry("c").into_iter().map(|b| b.into_inner()).collect();
    assert_eq!(chain, vec!["a", "b", "c"]);

    let below: Vec<String> = st.descendants("a").into_iter().map(|b| b.into_inner()).collect();
    assert_eq!(below, vec!["b", "c", "d"]);

    let none: Vec<String> = st.descendants("c").into_iter().map(|b| b.into_inner()).collect();
    assert!(none.is_empty());
}

#[test]
fn test_remove_and_reparent_keeps_topology() {
    let mut st = stack_of(vec![
        entry("a", None, Some(1)),
        entry("b", Some("a"), Some(2)),
        entry("c", Some("b"), Some(3)),
    ]);
    let reps = st.remove_and_reparent("b");
    assert_eq!(reps.len(), 1);
    assert_eq!(reps[0].name.as_str(), "c");
    assert_eq!(reps[0].old_parent.as_str(), "b");
    assert_eq!(reps[0].new_parent.as_ref().unwrap().as_str(), "a");
    assert_eq!(reps[0].pr_number, Some(3));

    assert_eq!(st.len(), 2);
    assert!(st.find_branch("b").is_none());
    let c = st.find_branch("c").unwrap();
    assert_eq!(c.parent.as_ref().unwrap().as_str(), "a");
}

// === external squash-merge reconciliation ===

#[test]
fn test_external_squash_merge_reconciliation() {
    let mut st = stack_of(vec![
        entry("a", None, Some(10)),
        entry("b", Some("a"), Some(11)),
        entry("c", Some("b"), Some(12)),
    ]);
    let merges = vec![ExternalMergeInfo {
        branch_name: name("a"),
        pr_number: 10,
        merged_into: "main".to_string(),
    }];
    let outcome = reconcile_merged(&mut st, merges);

    // The merged branch left the stack; its child is rooted on the mainline.
    assert_eq!(st.len(), 2);
    assert!(st.find_branch("a").is_none());
    assert!(st.find_branch("b").unwrap().parent.is_none());
    assert_eq!(st.find_branch("c").unwrap().parent.as_ref().unwrap().as_str(), "b");

    assert_eq!(outcome.reparented.len(), 1);
    assert_eq!(outcome.reparented[0].name.as_str(), "b");
    assert_eq!(outcome.reparented[0].old_parent.as_str(), "a");
    assert!(outcome.reparented[0].new_parent.is_none());
    assert_eq!(outcome.reparented[0].pr_number, Some(11));

    // The forge-side base update targets the mainline.
    let updates = pr_base_updates(&outcome.reparented, "main");
    assert_eq!(updates.len(), 1);
    assert_eq!(updates[0].pr, 11);
    assert_eq!(updates[0].base, "main");
}

#[test]
fn test_remove_stale_branches() {
    let mut st = stack_of(vec![
        entry("a", None, None),
        entry("b", Some("a"), None),
        entry("c", Some("b"), None),
    ]);
    let existing = vec!["main".to_string(), "a".to_string(), "c".to_string()];
    let stale = remove_stale_branches(&mut st, &existing);
    let removed: Vec<String> = stale.removed.into_iter().map(|b| b.into_inner()).collect();
    assert_eq!(removed, vec!["b"]);
    assert_eq!(st.len(), 2);
    assert_eq!(st.find_branch("c").unwrap().parent.as_ref().unwrap().as_str(), "a");
}

// === planning ===

#[test]
fn test_plan_only_diverged_branches() {
    // B still sits exactly on A's tip, so only A needs a rebase.
    let st = stack_of(vec![entry("a", None, None), entry("b", Some("a"), None)]);
    let view = RepoView {
        tips: vec![tip("main", "m2"), tip("a", "a1"), tip("b", "b1")],
        merge_bases: vec![mb("a1", "m2", "m1"), mb("b1", "a1", "a1")],
    };
    let plan = create_sync_plan(&view, &st, "main").unwrap();
    assert_eq!(plan.branches.len(), 1);
    assert_eq!(plan.branches[0].branch.as_str(), "a");
    assert_eq!(plan.branches[0].old_base, "m1");
    assert_eq!(plan.branches[0].new_base, "m2");
}

#[test]
fn test_plan_missing_base_branch() {
    let st = stack_of(vec![entry("a", None, None)]);
    let view = RepoView { tips: vec![tip("a", "a1")], merge_bases: vec![] };
    match create_sync_plan(&view, &st, "main") {
        Err(Error::BranchNotFound(n)) => assert_eq!(n, "main"),
        other => panic!("expected BranchNotFound, got {other:?}"),
    }
}

#[test]
fn test_already_synced_is_a_no_op() {
    let st = stack_of(vec![entry("a", None, None)]);
    let view = RepoView {
        tips: vec![tip("main", "m1"), tip("a", "a1")],
        merge_bases: vec![mb("a1", "m1", "m1")],
    };
    let plan = create_sync_plan(&view, &st, "main").unwrap();
    assert!(plan.is_empty());
    match execute_sync(&view, &plan, "backup-1".to_string()).unwrap() {
        SyncStart::AlreadySynced => {}
        other => panic!("expected AlreadySynced, got {other:?}"),
    }
}

// === linear rebase, conflict, continue, abort, undo ===

fn two_branch_setup() -> (Stack, RepoView) {
    // Both branches have diverged from their parents' current tips.
    let st = stack_of(vec![entry("a", None, None), entry("b", Some("a"), None)]);
    let view = RepoView {
        tips: vec![tip("main", "m2"), tip("a", "a1"), tip("b", "b1")],
        merge_bases: vec![mb("a1", "m2", "m1"), mb("b1", "a1", "a0")],
    };
    (st, view)
}

#[test]
fn test_linear_rebase_run() {
    let (st, view) = two_branch_setup();
    let plan = create_sync_plan(&view, &st, "main").unwrap();
    assert_eq!(plan.branches.len(), 2);
    assert_eq!(plan.branches[0].branch.as_str(), "a");
    assert_eq!(plan.branches[1].branch.as_str(), "b");

    let run = match execute_sync(&view, &plan, "bk-1".to_string()).unwrap() {
        SyncStart::Begun(run) => run,
        other => panic!("expected Begun, got {other:?}"),
    };
    // Backup completeness: every planned branch with its pre-sync tip.
    assert_eq!(run.backup.id, "bk-1");
    assert_eq!(run.backup.entries.len(), 2);
    assert_eq!(run.backup.entries[0].branch.as_str(), "a");
    assert_eq!(run.backup.entries[0].commit, "a1");
    assert_eq!(run.backup.entries[1].branch.as_str(), "b");
    assert_eq!(run.backup.entries[1].commit, "b1");

    let mut state = run.state;
    assert_eq!(state.completed.len(), 0);
    assert!(state.current.is_none());
    assert_eq!(state.remaining.len(), 2);

    // Rebase A, then B, both clean.
    let first = state.begin_next().unwrap();
    assert_eq!(first.as_str(), "a");
    assert!(apply_rebase_event(&mut state, RebaseEvent::Completed).unwrap().is_none());
    let second = state.begin_next().unwrap();
    assert_eq!(second.as_str(), "b");
    assert!(apply_rebase_event(&mut state, RebaseEvent::Completed).unwrap().is_none());
    assert!(state.begin_next().is_none());

    match complete_result(&state) {
        SyncResult::Complete { branches_rebased, backup_id } => {
            assert_eq!(branches_rebased, 2);
            assert_eq!(backup_id, "bk-1");
        }
        other => panic!("expected Complete, got {other:?}"),
    }
}

#[test]
fn test_conflict_pauses_and_continue_finishes() {
    let (st, view) = two_branch_setup();
    let plan = create_sync_plan(&view, &st, "main").unwrap();
    let run = match execute_sync(&view, &plan, "bk-2".to_string()).unwrap() {
        SyncStart::Begun(run) => run,
        other => panic!("expected Begun, got {other:?}"),
    };
    let mut state = run.state;

    // The first rebase conflicts: the sync pauses with the state saved.
    assert_eq!(state.begin_next().unwrap().as_str(), "a");
    let paused = apply_rebase_event(
        &mut state,
        RebaseEvent::Conflict(vec!["f.txt".to_string()]),
    )
    .unwrap()
    .unwrap();
    match paused {
        SyncResult::Paused { at_branch, conflict_files, backup_id } => {
            assert_eq!(at_branch, "a");
            assert_eq!(conflict_files, vec!["f.txt".to_string()]);
            assert_eq!(backup_id, "bk-2");
        }
        other => panic!("expected Paused, got {other:?}"),
    }
    assert_eq!(state.current.as_ref().unwrap().as_str(), "a");
    assert_eq!(state.remaining.len(), 1);
    assert_eq!(state.remaining[0].as_str(), "b");

    // The operator resolves and continues; the rest of the plan follows,
    // each branch onto its parent's tip as it stands now.
    assert!(continue_sync(&mut state, RebaseEvent::Completed).unwrap().is_none());
    let fresh = RepoView {
        tips: vec![tip("main", "m2"), tip("a", "a2"), tip("b", "b1")],
        merge_bases: vec![],
    };
    let nx = next_rebase(&state, &st, &fresh).unwrap().unwrap();
    assert_eq!(nx.branch.as_str(), "b");
    assert_eq!(nx.onto, "a2");
    assert_eq!(state.begin_next().unwrap().as_str(), "b");
    assert!(apply_rebase_event(&mut state, RebaseEvent::Completed).unwrap().is_none());
    assert!(state.begin_next().is_none());
    assert_eq!(state.completed.len(), 2);
}

#[test]
fn test_continue_without_current_is_rejected() {
    let mut state = SyncState::new("bk-9".to_string(), vec![name("a")]);
    match continue_sync(&mut state, RebaseEvent::Completed) {
        Err(Error::NoSyncInProgress) => {}
        other => panic!("expected NoSyncInProgress, got {other:?}"),
    }
}

#[test]
fn test_failed_rebase_surfaces_error() {
    let mut state = SyncState::new("bk-8".to_string(), vec![name("a")]);
    state.begin_next().unwrap();
    match apply_rebase_event(&mut state, RebaseEvent::Failed("boom".to_string())) {
        Err(Error::RebaseFailed(branch, details)) => {
            assert_eq!(branch, "a");
            assert_eq!(details, "boom");
        }
        other => panic!("expected RebaseFailed, got {other:?}"),
    }
}

#[test]
fn test_abort_restores_backup() {
    let (st, view) = two_branch_setup();
    let plan = create_sync_plan(&view, &st, "main").unwrap();
    let run = match execute_sync(&view, &plan, "bk-3".to_string()).unwrap() {
        SyncStart::Begun(run) => run,
        other => panic!("expected Begun, got {other:?}"),
    };
    let mut state = run.state;
    state.begin_next().unwrap();

    // Abort: every branch goes back to its recorded pre-sync tip.
    let resets = abort_sync(&state, &run.backup).unwrap();
    assert_eq!(resets.len(), 2);
    assert_eq!(resets[0].branch.as_str(), "a");
    assert_eq!(resets[0].commit, "a1");
    assert_eq!(resets[1].branch.as_str(), "b");
    assert_eq!(resets[1].commit, "b1");
}

#[test]
fn test_abort_rejects_mismatched_backup() {
    let backup = rung::state::Backup { id: "other".to_string(), entries: vec![] };
    let state = SyncState::new("bk-4".to_string(), vec![]);
    match abort_sync(&state, &backup) {
        Err(Error::NoBackup) => {}
        other => panic!("expected NoBackup, got {other:?}"),
    }
}

#[test]
fn test_undo_restores_every_tip() {
    let (st, view) = two_branch_setup();
    let plan = create_sync_plan(&view, &st, "main").unwrap();
    let run = match execute_sync(&view, &plan, "bk-5".to_string()).unwrap() {
        SyncStart::Begun(run) => run,
        other => panic!("expected Begun, got {other:?}"),
    };
    let resets = undo_sync(&run.backup);
    assert_eq!(resets.len(), 2);
    assert_eq!(resets[0].branch.as_str(), "a");
    assert_eq!(resets[0].commit, "a1");
    assert_eq!(resets[1].branch.as_str(), "b");
    assert_eq!(resets[1].commit, "b1");
}

#[test]
fn test_push_targets_skip_missing_branches() {
    let st = stack_of(vec![entry("a", None, None), entry("b", Some("a"), None)]);
    let view = RepoView { tips: vec![tip("a", "a1")], merge_bases: vec![] };
    let targets: Vec<String> = push_targets(&st, &view).into_iter().map(|b| b.into_inner()).collect();
    assert_eq!(targets, vec!["a"]);
}

// === merge cleanup ===

#[test]
fn test_merge_cleanup_plan() {
    let mut st = stack_of(vec![
        entry("a", None, Some(1)),
        entry("b", Some("a"), Some(20)),
        entry("c", Some("b"), None),
    ]);
    let plan = plan_merge_cleanup(&st, "b").unwrap();
    assert_eq!(plan.branch.as_str(), "b");
    assert_eq!(plan.pr_number, 20);
    assert_eq!(plan.parent_name, "a");
    let tips: Vec<String> = plan.tips_needed.into_iter().map(|b| b.into_inner()).collect();
    assert_eq!(tips, vec!["b", "c"]);
    assert_eq!(plan.steps.len(), 1);
    assert_eq!(plan.steps[0].branch.as_str(), "c");
    assert_eq!(plan.steps[0].new_base, "a");
    assert!(plan.steps[0].base_is_parent);
    assert_eq!(plan.steps[0].old_base_of, "b");
    assert_eq!(plan.steps[0].pr_update, None);

    // The stack update that follows the forge-side merge.
    st.remove_and_reparent("b");
    assert!(st.find_branch("b").is_none());
    assert_eq!(st.find_branch("c").unwrap().parent.as_ref().unwrap().as_str(), "a");
}

#[test]
fn test_merge_cleanup_requires_stack_membership_and_pr() {
    let st = stack_of(vec![entry("a", None, None)]);
    match plan_merge_cleanup(&st, "zzz") {
        Err(Error::NotInStack(n)) => assert_eq!(n, "zzz"),
        other => panic!("expected NotInStack, got {other:?}"),
    }
    match plan_merge_cleanup(&st, "a") {
        Err(Error::NoPullRequest(n)) => assert_eq!(n, "a"),
        other => panic!("expected NoPullRequest, got {other:?}"),
    }
}

// === codec ===

#[test]
fn test_stack_document_round_trip() {
    let st = stack_of(vec![
        entry("a", None, Some(7)),
        entry("b", Some("a"), None),
        entry("feature/x", Some("b"), Some(18446744073709551615)),
    ]);
    let text = serialize_stack(&st);
    assert_eq!(
        text,
        "{\"branches\":[{\"name\":\"a\",\"parent\":null,\"pr\":7},{\"name\":\"b\",\"parent\":\"a\",\"pr\":null},{\"name\":\"feature/x\",\"parent\":\"b\",\"pr\":18446744073709551615}]}"
    );
    let parsed = parse_stack(&text).unwrap();
    let again = serialize_stack(&parsed);
    assert_eq!(text, again);
    assert_eq!(parsed.len(), 3);
    assert_eq!(parsed.find_branch("feature/x").unwrap().pr, Some(18446744073709551615));
}

#[test]
fn test_empty_stack_round_trip() {
    let st = Stack::new();
    let text = serialize_stack(&st);
    assert_eq!(text, "{\"branches\":[]}");
    let parsed = parse_stack(&text).unwrap();
    assert!(parsed.is_empty());
}

#[test]
fn test_parse_rejects_bad_documents() {
    // Not the expected shape at all.
    assert!(matches!(parse_stack("nonsense"), Err(Error::Corrupted(_))));
    // Unknown or reordered fields.
    assert!(matches!(
        parse_stack("{\"branches\":[{\"parent\":null,\"name\":\"a\",\"pr\":null}]}"),
        Err(Error::Corrupted(_))
    ));
    assert!(matches!(
        parse_stack("{\"branches\":[{\"name\":\"a\",\"parent\":null,\"pr\":null,\"x\":1}]}"),
        Err(Error::Corrupted(_))
    ));
    // An invalid branch name fails deserialization outright.
    assert!(matches!(
        parse_stack("{\"branches\":[{\"name\":\"..bad\",\"parent\":null,\"pr\":null}]}"),
        Err(Error::Corrupted(_))
    ));
    // Trailing garbage.
    assert!(matches!(parse_stack("{\"branches\":[]}x"), Err(Error::Corrupted(_))));
    // A number too large for a pull-request counter.
    assert!(matches!(
        parse_stack("{\"branches\":[{\"name\":\"a\",\"parent\":null,\"pr\":99999999999999999999}]}"),
        Err(Error::Corrupted(_))
    ));
}

// === remote URL parsing ===

#[test]
fn test_parse_github_remote_forms() {
    let (owner, repo) = parse_github_remote("git@github.com:me/proj.git").unwrap();
    assert_eq!(owner, "me");
    assert_eq!(repo, "proj");

    let (owner, repo) = parse_github_remote("https://github.com/me/proj.git").unwrap();
    assert_eq!(owner, "me");
    assert_eq!(repo, "proj");

    let (owner, repo) = parse_github_remote("http://github.com/me/proj").unwrap();
    assert_eq!(owner, "me");
    assert_eq!(repo, "proj");

    match parse_github_remote("ssh://example.com/me/proj") {
        Err(Error::InvalidRemoteUrl(u)) => assert_eq!(u, "ssh://example.com/me/proj"),
        other => panic!("expected InvalidRemoteUrl, got {other:?}"),
    }
    assert!(parse_github_remote("git@github.com:noslash").is_err());
}

// === stack comment marker ===

#[test]
fn test_find_stack_comment() {
    let comments = vec![
        IssueComment { id: 1, body: Some("just a note".to_string()) },
        IssueComment { id: 2, body: None },
        IssueComment { id: 3, body: Some("<!-- rung-stack -->\n### Stack".to_string()) },
        IssueComment { id: 4, body: Some("<!-- rung-stack --> again".to_string()) },
    ];
    assert_eq!(find_stack_comment(&comments), Some(2));
    let unmarked = vec![
        IssueComment { id: 1, body: Some("just a note".to_string()) },
        IssueComment { id: 2, body: None },
    ];
    assert_eq!(find_stack_comment(&unmarked), None);
}

// === titles and chains ===

#[test]
fn test_generate_title() {
    assert_eq!(generate_title("feature/add-auth"), "Add Auth");
    assert_eq!(generate_title("fix_login_bug"), "Fix Login Bug");
    assert_eq!(generate_title("plain"), "Plain");
    assert_eq!(generate_title("a/b/c-d"), "C D");
}

#[test]
fn test_build_branch_chain() {
    let st = stack_of(vec![
        entry("a", None, Some(1)),
        entry("b", Some("a"), Some(2)),
        entry("c", Some("b"), None),
        entry("d", Some("x"), None),
    ]);
    let chain: Vec<String> = build_branch_chain(&st, "b")
        .into_iter()
        .map(|b| b.into_inner())
        .collect();
    assert_eq!(chain, vec!["a", "b", "c"]);
}

#[test]
fn test_generate_stack_comment_starts_with_marker() {
    let st = stack_of(vec![
        entry("add-auth", None, Some(1)),
        entry("add-ui", Some("add-auth"), Some(2)),
    ]);
    let body = generate_stack_comment(&st, 2);
    assert!(body.starts_with("<!-- rung-stack -->"));
    assert!(body.contains("Add Ui #2"));
    assert!(body.contains("Add Auth #1"));
}

// === check status ===

#[test]
fn test_check_status_classification() {
    assert!(CheckStatus::Success.is_success());
    assert!(CheckStatus::Skipped.is_success());
    assert!(!CheckStatus::Failure.is_success());
    assert!(CheckStatus::Failure.is_failure());
    assert!(!CheckStatus::Success.is_failure());
    assert!(CheckStatus::Queued.is_pending());
    assert!(CheckStatus::InProgress.is_pending());
    assert!(!CheckStatus::Cancelled.is_pending());
}
