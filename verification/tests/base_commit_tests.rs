use ops::base_commit::BaseCommitResolver;
use ops::base_commit::ResolutionError;
use ops::base_commit::ResolverAction;
use ops::base_commit::ResolverEvent;
use ops::base_commit::current_branch;
use ops::base_commit::is_remote_tracking;

fn branches(text: &str) -> ResolverEvent {
    ResolverEvent::Branches { text: text.to_string() }
}

fn line(text: &str) -> ResolverEvent {
    ResolverEvent::ScanLine { line: Some(text.to_string()) }
}

#[test]
fn current_branch_is_the_starred_line() {
    assert_eq!(current_branch("  main\n* feature\n  other\n"), Some("feature".to_string()));
    assert_eq!(current_branch("* main\n"), Some("main".to_string()));
    assert_eq!(current_branch("  main\n  other\n"), None);
}

#[test]
fn remote_tracking_names_are_recognized() {
    assert!(is_remote_tracking("origin/feature", "origin"));
    assert!(!is_remote_tracking("feature", "origin"));
    assert!(!is_remote_tracking("origin", "origin"));
    assert!(!is_remote_tracking("origin/", "origin"));
    assert!(!is_remote_tracking("origins/feature", "origin"));
}

#[test]
fn fast_path_uses_the_remote_ancestor_head() {
    let (mut r, first) = BaseCommitResolver::new("origin".to_string());
    assert_eq!(first, ResolverAction::ListBranches);

    let a = r.handle(branches("  main\n* feature\n"));
    assert_eq!(a, ResolverAction::ProbeRemote { ref_name: "origin/feature".to_string() });

    let a = r.handle(ResolverEvent::RemoteProbe { success: true });
    assert_eq!(a, ResolverAction::ReadRemoteHead { ref_name: "origin/feature".to_string() });

    let a = r.handle(ResolverEvent::RemoteHead { text: "abc123\n".to_string() });
    assert_eq!(a, ResolverAction::CheckAncestor { commit: "abc123".to_string() });

    let a = r.handle(ResolverEvent::Ancestor { success: true });
    assert_eq!(a, ResolverAction::Finished { result: Ok("abc123".to_string()) });
}

#[test]
fn a_branch_already_tracking_the_remote_skips_the_probe() {
    let (mut r, _) = BaseCommitResolver::new("origin".to_string());
    let a = r.handle(branches("* origin/hotfix\n"));
    assert_eq!(a, ResolverAction::ReadRemoteHead { ref_name: "origin/hotfix".to_string() });
}

#[test]
fn diverged_history_falls_back_to_the_scan() {
    let (mut r, _) = BaseCommitResolver::new("origin".to_string());
    r.handle(branches("* feature\n"));
    let a = r.handle(ResolverEvent::RemoteProbe { success: false });
    assert_eq!(a, ResolverAction::ReadScanLine { branch: "feature".to_string() });

    // Tip commit: contained only in the current branch.
    assert_eq!(r.handle(line("* feature")), ResolverAction::ReadScanLine { branch: "feature".to_string() });
    assert_eq!(r.handle(line("COMMIT: tip111")), ResolverAction::ReadScanLine { branch: "feature".to_string() });
    // Next commit: contained in another branch too — the branch point.
    assert_eq!(r.handle(line("* feature")), ResolverAction::ReadScanLine { branch: "feature".to_string() });
    assert_eq!(r.handle(line("  main")), ResolverAction::DrainScanLine);
    // The marker that follows names the base commit.
    assert_eq!(r.handle(line("* feature")), ResolverAction::DrainScanLine);
    assert_eq!(
        r.handle(line("COMMIT: base222")),
        ResolverAction::Finished { result: Ok("base222".to_string()) }
    );
}

#[test]
fn non_ancestor_remote_head_falls_back_to_the_scan() {
    let (mut r, _) = BaseCommitResolver::new("origin".to_string());
    r.handle(branches("* feature\n"));
    r.handle(ResolverEvent::RemoteProbe { success: true });
    r.handle(ResolverEvent::RemoteHead { text: "abc123\n".to_string() });
    let a = r.handle(ResolverEvent::Ancestor { success: false });
    assert_eq!(a, ResolverAction::ReadScanLine { branch: "feature".to_string() });
}

#[test]
fn a_history_with_no_other_branch_has_no_base_commit() {
    let (mut r, _) = BaseCommitResolver::new("origin".to_string());
    r.handle(branches("* lonely\n"));
    r.handle(ResolverEvent::RemoteProbe { success: false });
    r.handle(line("* lonely"));
    r.handle(line("COMMIT: only1"));
    let a = r.handle(ResolverEvent::ScanLine { line: None });
    assert_eq!(
        a,
        ResolverAction::Finished { result: Err(ResolutionError::NoBaseCommit) }
    );
}

#[test]
fn a_listing_without_a_current_branch_fails() {
    let (mut r, _) = BaseCommitResolver::new("origin".to_string());
    let a = r.handle(branches("  main\n"));
    assert_eq!(
        a,
        ResolverAction::Finished { result: Err(ResolutionError::NoCurrentBranch) }
    );
}

#[test]
fn stream_end_while_draining_has_no_base_commit() {
    let (mut r, _) = BaseCommitResolver::new("origin".to_string());
    r.handle(branches("* feature\n"));
    r.handle(ResolverEvent::RemoteProbe { success: false });
    r.handle(line("  main"));
    let a = r.handle(ResolverEvent::ScanLine { line: None });
    assert_eq!(
        a,
        ResolverAction::Finished { result: Err(ResolutionError::NoBaseCommit) }
    );
}
