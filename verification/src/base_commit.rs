//! Resolving the base commit that a change set is measured from.
//!
//! The cheap path first: when the current branch tracks a remote branch
//! whose head is an ancestor of the local head, that head is the base.
//! Otherwise the first-parent history of the branch is scanned through a
//! streaming pipeline — one process emits commit hashes, another reports
//! the branches containing each — until a commit shows up in some branch
//! other than the current one: the branch point.  Every decision of that
//! flow lives here as a state machine; a driver performs each requested
//! version-control query and hands the answer back, and may stop the
//! pipeline's processes as soon as the machine reports that the
//! divergence point was seen.

use vstd::prelude::*;

use crate::diff_status::spec_line_end;
use crate::diff_status::lemma_line_end_bounds;
use crate::strutil::chars_of;
use crate::strutil::spec_trim;
use crate::strutil::trim_str;

verus! {

use vstd::string::StrSliceExecFns;
use vstd::string::StringExecFns;

/// No base commit could be resolved.
#[derive(Clone, Copy, Debug, PartialEq, Eq)]
pub enum ResolutionError {
    /// The branch listing names no current branch.
    NoCurrentBranch,
    /// Neither the remote-tracking path nor the history scan found a
    /// commit to diff against.
    NoBaseCommit,
}

/// Where the resolution stands; the driver never builds one of these, it
/// only answers the machine's requests.
#[derive(Debug, PartialEq, Eq)]
pub enum ResolverState {
    /// Waiting for the local branch listing.
    AwaitBranches,
    /// Waiting to hear whether the remote counterpart of `branch` exists.
    AwaitProbe { branch: String },
    /// Waiting for the head commit of the remote ref to diff against.
    AwaitHead { remote_ref: String, branch: String },
    /// Waiting to hear whether `head` is an ancestor of the local head.
    AwaitAncestor { head: String, branch: String },
    /// Scanning pipeline lines for a commit held by some other branch.
    Scanning { branch: String },
    /// The divergence point was seen; the pipeline may be stopped, and the
    /// next commit marker in the buffered output names the base commit.
    Draining { branch: String },
    /// The resolution is over.
    Finished { result: Result<String, ResolutionError> },
}

/// What the driver must do next.
#[derive(Debug, PartialEq, Eq)]
pub enum ResolverAction {
    /// List the local branches and answer with `Branches`.
    ListBranches,
    /// Test whether `ref_name` has any first-parent history — whether the
    /// remote branch exists — and answer with `RemoteProbe`.
    ProbeRemote { ref_name: String },
    /// Read the head commit of `ref_name` and answer with `RemoteHead`.
    ReadRemoteHead { ref_name: String },
    /// Test whether `commit` is an ancestor of the local head and answer
    /// with `Ancestor`.
    CheckAncestor { commit: String },
    /// Read the next line of the history-scan pipeline of `branch` — one
    /// process streams the branch's first-parent commits, a second reports
    /// the branches containing each — and answer with `ScanLine`; nothing
    /// at end of stream.
    ReadScanLine { branch: String },
    /// As `ReadScanLine`, but the divergence point was already seen: the
    /// pipeline's processes may be stopped first, and only its buffered
    /// output need be read.
    DrainScanLine,
    /// Resolution is over, with this outcome.
    Finished { result: Result<String, ResolutionError> },
}

/// The driver's answer to the machine's last request.
#[derive(Clone, Debug, PartialEq, Eq)]
pub enum ResolverEvent {
    /// The local branch listing, one branch per line, the current one
    /// marked with a star.
    Branches { text: String },
    /// Whether listing the remote ref's history succeeded.
    RemoteProbe { success: bool },
    /// The head commit of the remote ref.
    RemoteHead { text: String },
    /// Whether the candidate head is an ancestor of the local head.
    Ancestor { success: bool },
    /// The next pipeline line, or nothing at end of stream.
    ScanLine { line: Option<String> },
}

/// The first line of `text` from position `i` on that holds a star, as
/// the branch listing marks the current branch.
pub open spec fn spec_first_star_line(text: Seq<char>, i: int) -> Option<Seq<char>>
    decreases text.len() + 1 - i,
    via spec_first_star_line_decreases
{
    if i < 0 || i >= text.len() {
        None
    } else {
        let j = spec_line_end(text, i);
        let line = text.subrange(i, j);
        if exists|k: int| 0 <= k < line.len() && line[k] == '*' {
            Some(line)
        } else {
            spec_first_star_line(text, j + 1)
        }
    }
}

#[via_fn]
proof fn spec_first_star_line_decreases(text: Seq<char>, i: int) {
    if 0 <= i < text.len() {
        lemma_line_end_bounds(text, i);
    }
}

/// The current branch a listing names: the starred line, trimmed, with
/// the two marker characters removed; nothing when no line is starred or
/// the starred line is too short to name a branch.
pub open spec fn spec_current_branch(text: Seq<char>) -> Option<Seq<char>> {
    match spec_first_star_line(text, 0) {
        None => None,
        Some(line) => {
            let t = spec_trim(line);
            if t.len() >= 2 {
                Some(t.skip(2))
            } else {
                None
            }
        },
    }
}

/// Whether `branch` already names a remote-tracking ref: the remote's
/// name followed by a slash.
pub open spec fn spec_is_remote_tracking(branch: Seq<char>, remote: Seq<char>) -> bool {
    branch.len() > remote.len() + 1 && branch.take(remote.len() as int) == remote && branch[
        remote.len() as int] == '/'
}

/// The commit hash a pipeline marker line carries, if the line is one.
pub open spec fn spec_commit_marker(line: Seq<char>) -> Option<Seq<char>> {
    let t = spec_trim(line);
    if t.len() >= 8 && t.take(8) == marker_prefix() {
        Some(t.skip(8))
    } else {
        None
    }
}

/// The prefix that the pipeline prints before each commit hash.
pub open spec fn marker_prefix() -> Seq<char> {
    seq!['C', 'O', 'M', 'M', 'I', 'T', ':', ' ']
}

/// Whether a pipeline line names the current branch itself.
pub open spec fn spec_is_current_marker(line: Seq<char>, branch: Seq<char>) -> bool {
    spec_trim(line) == seq!['*', ' '] + branch
}

/// The current branch named by a branch listing.
pub fn current_branch(text: &str) -> (r: Option<String>)
    ensures
        match (r, spec_current_branch(text@)) {
            (Some(b), Some(s)) => b@ == s,
            (None, None) => true,
            _ => false,
        },
{
    let cv = chars_of(text);
    let n = cv.len();
    let mut i: usize = 0;
    while i < n
        invariant
            0 <= i <= n + 1,
            n == cv.len(),
            cv@ == text@,
            spec_first_star_line(text@, 0) == spec_first_star_line(text@, i as int),
        decreases n - i,
    {
        let mut j: usize = i;
        while j < n && cv[j] != '\n'
            invariant
                i <= j <= n,
                n == cv.len(),
                cv@ == text@,
                forall|k: int| i <= k < j ==> text@[k] != '\n',
            decreases n - j,
        {
            j = j + 1;
        }
        proof {
            crate::diff_status::lemma_line_end_at(text@, i as int, j as int);
        }
        let mut star: bool = false;
        let mut k: usize = i;
        while k < j
            invariant
                i <= k <= j <= n,
                n == cv.len(),
                cv@ == text@,
                star == exists|t: int| i <= t < k && text@[t] == '*',
            decreases j - k,
        {
            if cv[k] == '*' {
                star = true;
                assert(text@[k as int] == '*');
            }
            k = k + 1;
        }
        let ghost line = text@.subrange(i as int, j as int);
        if star {
            proof {
                assert(exists|t: int| 0 <= t < line.len() && line[t] == '*') by {
                    let t = choose|t: int| i <= t < j && text@[t] == '*';
                    assert(line[t - i] == '*');
                }
            }
            let line_str = text.substring_char(i, j);
            let t = trim_str(line_str);
            let tv = chars_of(t);
            if tv.len() >= 2 {
                let m = tv.len();
                proof {
                    assert(t@.subrange(2, m as int) =~= spec_trim(line).skip(2));
                }
                return Some(t.substring_char(2, m).to_owned());
            }
            return None;
        }
        proof {
            assert(forall|t: int| 0 <= t < line.len() ==> line[t] != '*');
        }
        if j < n {
            i = j + 1;
        } else {
            proof {
                assert(spec_first_star_line(text@, j + 1) is None);
                assert(spec_first_star_line(text@, i as int) is None);
            }
            return None;
        }
    }
    None
}

/// Whether `branch` already names a remote-tracking ref of `remote`.
pub fn is_remote_tracking(branch: &str, remote: &str) -> (r: bool)
    ensures
        r == spec_is_remote_tracking(branch@, remote@),
{
    let bv = chars_of(branch);
    let rv = chars_of(remote);
    let rn = rv.len();
    if bv.len() <= rn {
        return false;
    }
    if bv.len() - 1 <= rn {
        return false;
    }
    let mut i: usize = 0;
    while i < rn
        invariant
            0 <= i <= rn,
            rn == rv.len(),
            bv.len() > rn + 1,
            bv@ == branch@,
            rv@ == remote@,
            forall|k: int| 0 <= k < i ==> branch@[k] == remote@[k],
        decreases rn - i,
    {
        if bv[i] != rv[i] {
            proof {
                assert(branch@.take(rn as int)[i as int] != remote@[i as int]);
            }
            return false;
        }
        i = i + 1;
    }
    proof {
        assert(branch@.take(rn as int) =~= remote@);
    }
    bv[rn] == '/'
}

/// The commit hash of a pipeline marker line, if the line is one.
pub fn commit_marker(line: &str) -> (r: Option<String>)
    ensures
        match (r, spec_commit_marker(line@)) {
            (Some(c), Some(s)) => c@ == s,
            (None, None) => true,
            _ => false,
        },
{
    let t = trim_str(line);
    let tv = chars_of(t);
    let m = tv.len();
    if m >= 8 && tv[0] == 'C' && tv[1] == 'O' && tv[2] == 'M' && tv[3] == 'M' && tv[4] == 'I'
        && tv[5] == 'T' && tv[6] == ':' && tv[7] == ' ' {
        proof {
            assert(t@.take(8) =~= marker_prefix());
            assert(t@.subrange(8, m as int) =~= t@.skip(8));
        }
        Some(t.substring_char(8, m).to_owned())
    } else {
        proof {
            if t@.len() >= 8 && t@.take(8) == marker_prefix() {
                assert(t@[0] == t@.take(8)[0]);
                assert(t@[1] == t@.take(8)[1]);
                assert(t@[2] == t@.take(8)[2]);
                assert(t@[3] == t@.take(8)[3]);
                assert(t@[4] == t@.take(8)[4]);
                assert(t@[5] == t@.take(8)[5]);
                assert(t@[6] == t@.take(8)[6]);
                assert(t@[7] == t@.take(8)[7]);
            }
        }
        None
    }
}

/// The remote-tracking ref of `branch` under `remote`.
pub open spec fn spec_remote_ref(remote: Seq<char>, branch: Seq<char>) -> Seq<char> {
    remote + seq!['/'] + branch
}

/// Builds the remote-tracking ref name of `branch` under `remote`.
fn make_remote_ref(remote: &str, branch: &str) -> (r: String)
    ensures
        r@ == spec_remote_ref(remote@, branch@),
{
    let mut s = remote.to_owned();
    s.append("/");
    s.append(branch);
    proof {
        reveal_strlit("/");
        assert(s@ =~= remote@ + seq!['/'] + branch@);
    }
    s
}

/// Whether `post` and `action` report a failed resolution with `e`.
pub open spec fn spec_step_failed(post: ResolverState, action: ResolverAction, e: ResolutionError) -> bool {
    &&& match post {
        ResolverState::Finished { result } => result == Err::<String, ResolutionError>(e),
        _ => false,
    }
    &&& match action {
        ResolverAction::Finished { result } => result == Err::<String, ResolutionError>(e),
        _ => false,
    }
}

/// Whether `post` and `action` report the base commit `c`.
pub open spec fn spec_step_resolved(post: ResolverState, action: ResolverAction, c: Seq<char>) -> bool {
    &&& match post {
        ResolverState::Finished { result } => match result {
            Ok(s) => s@ == c,
            Err(_) => false,
        },
        _ => false,
    }
    &&& match action {
        ResolverAction::Finished { result } => match result {
            Ok(s) => s@ == c,
            Err(_) => false,
        },
        _ => false,
    }
}

/// Whether `post` and `action` continue the pre-divergence scan of
/// branch `b`.
pub open spec fn spec_step_scanning(post: ResolverState, action: ResolverAction, b: Seq<char>) -> bool {
    &&& match post {
        ResolverState::Scanning { branch } => branch@ == b,
        _ => false,
    }
    &&& match action {
        ResolverAction::ReadScanLine { branch } => branch@ == b,
        _ => false,
    }
}

/// Whether `post` and `action` drain the pipeline of branch `b` after the
/// divergence point.
pub open spec fn spec_step_draining(post: ResolverState, action: ResolverAction, b: Seq<char>) -> bool {
    &&& match post {
        ResolverState::Draining { branch } => branch@ == b,
        _ => false,
    }
    &&& action == ResolverAction::DrainScanLine
}

/// The request a state leaves standing: what the machine asks for while
/// in that state, and so what it answers when handed an event of a kind
/// the state does not await.
pub open spec fn spec_pending_request(
    remote: Seq<char>,
    state: ResolverState,
    action: ResolverAction,
) -> bool {
    match state {
        ResolverState::AwaitBranches => action == ResolverAction::ListBranches,
        ResolverState::AwaitProbe { branch } => match action {
            ResolverAction::ProbeRemote { ref_name } => ref_name@ == spec_remote_ref(
                remote,
                branch@,
            ),
            _ => false,
        },
        ResolverState::AwaitHead { remote_ref, .. } => match action {
            ResolverAction::ReadRemoteHead { ref_name } => ref_name@ == remote_ref@,
            _ => false,
        },
        ResolverState::AwaitAncestor { head, .. } => match action {
            ResolverAction::CheckAncestor { commit } => commit@ == head@,
            _ => false,
        },
        ResolverState::Scanning { branch } => match action {
            ResolverAction::ReadScanLine { branch: b } => b@ == branch@,
            _ => false,
        },
        ResolverState::Draining { .. } => action == ResolverAction::DrainScanLine,
        ResolverState::Finished { result } => match action {
            ResolverAction::Finished { result: r2 } => match (result, r2) {
                (Ok(a), Ok(b)) => a@ == b@,
                (Err(e1), Err(e2)) => e1 == e2,
                _ => false,
            },
            _ => false,
        },
    }
}

/// The machine's transition relation: from `pre`, answered with `event`,
/// the machine moves to `post` and requests `action`.  An answer of a
/// kind the state does not await changes nothing, and the machine repeats
/// its standing request.
pub open spec fn spec_step(
    remote: Seq<char>,
    pre: ResolverState,
    event: ResolverEvent,
    post: ResolverState,
    action: ResolverAction,
) -> bool {
    match (pre, event) {
        (ResolverState::AwaitBranches, ResolverEvent::Branches { text }) => match spec_current_branch(
            text@,
        ) {
            None => spec_step_failed(post, action, ResolutionError::NoCurrentBranch),
            Some(b) => if spec_is_remote_tracking(b, remote) {
                &&& match post {
                    ResolverState::AwaitHead { remote_ref, branch } => remote_ref@ == b && branch@
                        == b,
                    _ => false,
                }
                &&& match action {
                    ResolverAction::ReadRemoteHead { ref_name } => ref_name@ == b,
                    _ => false,
                }
            } else {
                &&& match post {
                    ResolverState::AwaitProbe { branch } => branch@ == b,
                    _ => false,
                }
                &&& match action {
                    ResolverAction::ProbeRemote { ref_name } => ref_name@ == spec_remote_ref(
                        remote,
                        b,
                    ),
                    _ => false,
                }
            },
        },
        (ResolverState::AwaitProbe { branch }, ResolverEvent::RemoteProbe { success }) => if success {
            &&& match post {
                ResolverState::AwaitHead { remote_ref, branch: b2 } => remote_ref@
                    == spec_remote_ref(remote, branch@) && b2@ == branch@,
                _ => false,
            }
            &&& match action {
                ResolverAction::ReadRemoteHead { ref_name } => ref_name@ == spec_remote_ref(
                    remote,
                    branch@,
                ),
                _ => false,
            }
        } else {
            spec_step_scanning(post, action, branch@)
        },
        (ResolverState::AwaitHead { remote_ref, branch }, ResolverEvent::RemoteHead { text }) => {
            &&& match post {
                ResolverState::AwaitAncestor { head, branch: b2 } => head@ == spec_trim(text@)
                    && b2@ == branch@,
                _ => false,
            }
            &&& match action {
                ResolverAction::CheckAncestor { commit } => commit@ == spec_trim(text@),
                _ => false,
            }
        },
        (ResolverState::AwaitAncestor { head, branch }, ResolverEvent::Ancestor { success }) => if success {
            spec_step_resolved(post, action, head@)
        } else {
            spec_step_scanning(post, action, branch@)
        },
        (ResolverState::Scanning { branch }, ResolverEvent::ScanLine { line }) => match line {
            None => spec_step_failed(post, action, ResolutionError::NoBaseCommit),
            Some(l) => if spec_commit_marker(l@) is Some || spec_is_current_marker(l@, branch@) {
                spec_step_scanning(post, action, branch@)
            } else {
                spec_step_draining(post, action, branch@)
            },
        },
        (ResolverState::Draining { branch }, ResolverEvent::ScanLine { line }) => match line {
            None => spec_step_failed(post, action, ResolutionError::NoBaseCommit),
            Some(l) => match spec_commit_marker(l@) {
                Some(c) => spec_step_resolved(post, action, c),
                None => spec_step_draining(post, action, branch@),
            },
        },
        _ => post == pre && spec_pending_request(remote, pre, action),
    }
}

/// The base-commit resolution machine: it decides, a driver queries.
pub struct BaseCommitResolver {
    phase: ResolverState,
    remote: String,
}

impl BaseCommitResolver {
    /// Where the resolution stands.
    pub closed spec fn state(self) -> ResolverState {
        self.phase
    }

    /// The configured remote name.
    pub closed spec fn remote_name(self) -> Seq<char> {
        self.remote@
    }

    /// Starts a resolution against the given remote; the first request is
    /// the local branch listing.
    pub fn new(remote: String) -> (r: (Self, ResolverAction))
        ensures
            r.0.state() == ResolverState::AwaitBranches,
            r.0.remote_name() == remote@,
            r.1 == ResolverAction::ListBranches,
    {
        (
            BaseCommitResolver { phase: ResolverState::AwaitBranches, remote },
            ResolverAction::ListBranches,
        )
    }

    /// The request the machine is waiting on.
    fn pending_action(&self) -> (r: ResolverAction)
        ensures
            spec_pending_request(self.remote_name(), self.state(), r),
    {
        match &self.phase {
            ResolverState::AwaitBranches => ResolverAction::ListBranches,
            ResolverState::AwaitProbe { branch } => ResolverAction::ProbeRemote {
                ref_name: make_remote_ref(self.remote.as_str(), branch.as_str()),
            },
            ResolverState::AwaitHead { remote_ref, .. } => ResolverAction::ReadRemoteHead {
                ref_name: remote_ref.clone(),
            },
            ResolverState::AwaitAncestor { head, .. } => ResolverAction::CheckAncestor {
                commit: head.clone(),
            },
            ResolverState::Scanning { branch } => ResolverAction::ReadScanLine {
                branch: branch.clone(),
            },
            ResolverState::Draining { .. } => ResolverAction::DrainScanLine,
            ResolverState::Finished { result } => ResolverAction::Finished {
                result: match result {
                    Ok(s) => Ok(s.clone()),
                    Err(e) => Err(*e),
                },
            },
        }
    }

    /// Feeds the machine the answer to its last request and learns the
    /// next one.
    pub fn handle(&mut self, event: ResolverEvent) -> (r: ResolverAction)
        ensures
            final(self).remote_name() == old(self).remote_name(),
            spec_step(old(self).remote_name(), old(self).state(), event, final(self).state(), r),
    {
        match (&self.phase, &event) {
            (ResolverState::AwaitBranches, ResolverEvent::Branches { text }) => {
                match current_branch(text.as_str()) {
                    None => {
                        self.phase = ResolverState::Finished {
                            result: Err(ResolutionError::NoCurrentBranch),
                        };
                        ResolverAction::Finished { result: Err(ResolutionError::NoCurrentBranch) }
                    },
                    Some(b) => {
                        if is_remote_tracking(b.as_str(), self.remote.as_str()) {
                            let action = ResolverAction::ReadRemoteHead { ref_name: b.clone() };
                            self.phase = ResolverState::AwaitHead {
                                remote_ref: b.clone(),
                                branch: b,
                            };
                            action
                        } else {
                            let rref = make_remote_ref(self.remote.as_str(), b.as_str());
                            self.phase = ResolverState::AwaitProbe { branch: b };
                            ResolverAction::ProbeRemote { ref_name: rref }
                        }
                    },
                }
            },
            (ResolverState::AwaitProbe { branch }, ResolverEvent::RemoteProbe { success }) => {
                if *success {
                    let rref = make_remote_ref(self.remote.as_str(), branch.as_str());
                    let action = ResolverAction::ReadRemoteHead { ref_name: rref.clone() };
                    let b = branch.clone();
                    self.phase = ResolverState::AwaitHead { remote_ref: rref, branch: b };
                    action
                } else {
                    let b = branch.clone();
                    let action = ResolverAction::ReadScanLine { branch: b.clone() };
                    self.phase = ResolverState::Scanning { branch: b };
                    action
                }
            },
            (ResolverState::AwaitHead { branch, .. }, ResolverEvent::RemoteHead { text }) => {
                let head = trim_str(text.as_str()).to_owned();
                let action = ResolverAction::CheckAncestor { commit: head.clone() };
                let b = branch.clone();
                self.phase = ResolverState::AwaitAncestor { head, branch: b };
                action
            },
            (ResolverState::AwaitAncestor { head, branch }, ResolverEvent::Ancestor { success }) => {
                if *success {
                    let h = head.clone();
                    let action = ResolverAction::Finished { result: Ok(h.clone()) };
                    self.phase = ResolverState::Finished { result: Ok(h) };
                    action
                } else {
                    let b = branch.clone();
                    let action = ResolverAction::ReadScanLine { branch: b.clone() };
                    self.phase = ResolverState::Scanning { branch: b };
                    action
                }
            },
            (ResolverState::Scanning { branch }, ResolverEvent::ScanLine { line }) => {
                match line {
                    None => {
                        self.phase = ResolverState::Finished {
                            result: Err(ResolutionError::NoBaseCommit),
                        };
                        ResolverAction::Finished { result: Err(ResolutionError::NoBaseCommit) }
                    },
                    Some(l) => {
                        let marker = commit_marker(l.as_str());
                        let current = is_current_marker(l.as_str(), branch.as_str());
                        if marker.is_some() || current {
                            let b = branch.clone();
                            let action = ResolverAction::ReadScanLine { branch: b.clone() };
                            self.phase = ResolverState::Scanning { branch: b };
                            action
                        } else {
                            let b = branch.clone();
                            self.phase = ResolverState::Draining { branch: b };
                            ResolverAction::DrainScanLine
                        }
                    },
                }
            },
            (ResolverState::Draining { branch }, ResolverEvent::ScanLine { line }) => {
                match line {
                    None => {
                        self.phase = ResolverState::Finished {
                            result: Err(ResolutionError::NoBaseCommit),
                        };
                        ResolverAction::Finished { result: Err(ResolutionError::NoBaseCommit) }
                    },
                    Some(l) => {
                        match commit_marker(l.as_str()) {
                            Some(c) => {
                                let action = ResolverAction::Finished { result: Ok(c.clone()) };
                                self.phase = ResolverState::Finished { result: Ok(c) };
                                action
                            },
                            None => {
                                let b = branch.clone();
                                self.phase = ResolverState::Draining { branch: b };
                                ResolverAction::DrainScanLine
                            },
                        }
                    },
                }
            },
            _ => self.pending_action(),
        }
    }
}

/// Whether a pipeline line names the current branch itself.
pub fn is_current_marker(line: &str, branch: &str) -> (r: bool)
    ensures
        r == spec_is_current_marker(line@, branch@),
{
    let t = trim_str(line);
    let tv = chars_of(t);
    let bv = chars_of(branch);
    if tv.len() < 2 || tv.len() - 2 != bv.len() {
        proof {
            assert((seq!['*', ' '] + branch@).len() == branch@.len() + 2);
        }
        return false;
    }
    if tv[0] != '*' || tv[1] != ' ' {
        proof {
            assert((seq!['*', ' '] + branch@)[0] == '*');
            assert((seq!['*', ' '] + branch@)[1] == ' ');
        }
        return false;
    }
    let n = bv.len();
    let mut i: usize = 0;
    while i < n
        invariant
            0 <= i <= n,
            n == bv.len(),
            tv.len() == n + 2,
            tv@ == spec_trim(line@),
            bv@ == branch@,
            forall|k: int| 0 <= k < i ==> tv@[k + 2] == branch@[k],
        decreases n - i,
    {
        if tv[i + 2] != bv[i] {
            proof {
                assert((seq!['*', ' '] + branch@)[i + 2] == branch@[i as int]);
            }
            return false;
        }
        i = i + 1;
    }
    proof {
        assert(spec_trim(line@) =~= seq!['*', ' '] + branch@);
    }
    true
}

} // verus!
