//! Branch divergence analysis: enumerating candidate branches, filtering
//! out the target and internal bookkeeping refs, and deriving a selected
//! branch's divergence record (ahead commits, behind count, fork point,
//! metrics) from what the external commit-graph walker reports.
//!
//! The ahead walk itself — which commits are reachable from a tip but not
//! from the target commit — is the walker's contract, not computed here;
//! this module pins down exactly what is derived from its report.

use vstd::prelude::*;
use crate::model::{Author, BranchEntry, BranchWalk, CommitEntry, RemoteBranch, RemoteBranchData,
    RemoteCommit, Target};
use crate::metrics::{author_pairs, file_pairs, get_recent_commits_metric, sorted_desc, sum_values,
    table_correct};
use crate::refname::Refname;

verus! {

/// The failures this module propagates to the caller.
#[derive(Clone, Copy, Debug, PartialEq, Eq, Structural)]
pub enum RemoteError {
    /// No target has been configured for the project.
    TargetNotSet,
    /// The requested ref does not resolve to a branch.
    BranchNotFound,
    /// The branch exists but yields no divergence record (unborn tip).
    NoBranchData,
}

/// The stored target, or the configuration-absence failure.
///
/// The on-disk target store is read externally; this is the decision on
/// what it returned.
pub fn default_target(stored: Option<Target>) -> (r: Result<Target, RemoteError>)
    ensures
        stored is Some <==> r is Ok,
        stored matches Some(t) ==> (r matches Ok(t2) && t2 == t),
        r matches Err(e) ==> e == RemoteError::TargetNotSet,
{
    match stored {
        Some(t) => Ok(t),
        None => Err(RemoteError::TargetNotSet),
    }
}

/// The name denotes the configured target branch itself.
pub open spec fn is_trunk(name: Refname, target: Target) -> bool {
    name.spec_branch() == target.branch.branch@ && name.spec_remote() == Some(
        target.branch.remote@,
    )
}

/// The name is one of the reserved internal bookkeeping refs.
pub open spec fn is_reserved(name: Refname) -> bool {
    name.spec_branch() == "gitbutler/integration"@ || name.spec_branch() == "gitbutler/target"@
}

/// Branches excluded from enumeration: the target branch and the
/// reserved integration/target bookkeeping refs.
pub open spec fn excluded(name: Refname, target: Target) -> bool {
    is_trunk(name, target) || is_reserved(name)
}

/// The presentation record an enumerated ref projects to, absent when
/// any per-branch lookup failed and the branch is skipped.
pub open spec fn spec_remote_branch(e: BranchEntry) -> Option<RemoteBranch> {
    match (e.sha, e.name, e.tip) {
        (Some(sha), Some(name), Some(tip)) => Some(
            RemoteBranch {
                sha,
                name,
                upstream: name.spec_upstream(),
                last_commit_timestamp_ms: if 0 <= tip.timestamp_seconds {
                    Some((tip.timestamp_seconds * 1000) as u128)
                } else {
                    None
                },
                last_commit_author: tip.author_name,
            },
        ),
        _ => None,
    }
}

/// Project one enumerated ref into its presentation record; `None` means
/// the branch is skipped (broken ref, unclassifiable name, unborn tip).
///
/// The tip timestamp is kept in milliseconds only when the seconds value
/// is representable (non-negative); otherwise the field is absent.
pub fn branch_to_remote_branch(entry: &BranchEntry) -> (r: Option<RemoteBranch>)
    ensures
        r == spec_remote_branch(*entry),
{
    match (&entry.sha, &entry.name, &entry.tip) {
        (Some(sha), Some(name), Some(tip)) => {
            let upstream = match name {
                Refname::Local { remote_tracking: Some(u), .. } => Some(u.duplicate()),
                _ => None,
            };
            let ts = tip.timestamp_seconds;
            let last_commit_timestamp_ms = if ts >= 0 {
                Some((ts as u128) * 1000)
            } else {
                None
            };
            let last_commit_author = match &tip.author_name {
                Some(a) => Some(a.clone()),
                None => None,
            };
            Some(
                RemoteBranch {
                    sha: sha.clone(),
                    name: name.duplicate(),
                    upstream,
                    last_commit_timestamp_ms,
                    last_commit_author,
                },
            )
        },
        _ => None,
    }
}

/// The branches a full enumeration keeps: each entry's projection, minus
/// the skipped ones and the excluded names.
pub open spec fn kept_branches(entries: Seq<BranchEntry>, target: Target) -> Seq<RemoteBranch>
    decreases entries.len(),
{
    if entries.len() == 0 {
        Seq::empty()
    } else {
        kept_branches(entries.drop_last(), target) + match spec_remote_branch(entries.last()) {
            Some(b) => if !excluded(b.name, target) {
                seq![b]
            } else {
                Seq::empty()
            },
            None => Seq::empty(),
        }
    }
}

/// Decide `excluded` on a concrete name.
fn excluded_exec(name: &Refname, target: &Target) -> (r: bool)
    ensures
        r == excluded(*name, *target),
{
    let trunk = match name {
        Refname::Remote(rr) => rr.branch == target.branch.branch && rr.remote
            == target.branch.remote,
        Refname::Local { .. } => false,
    };
    let b = name.branch();
    let reserved = *b == String::from_str("gitbutler/integration") || *b == String::from_str(
        "gitbutler/target",
    );
    trunk || reserved
}

/// Enumerate the user-facing branches: project every reported ref,
/// skipping the broken ones, and drop the configured target branch and
/// the reserved bookkeeping refs. Fails only when no target is set.
///
/// The result never contains the target branch nor a reserved ref, and
/// keeps the ref store's enumeration order.
pub fn list_remote_branches(stored_target: &Option<Target>, branches: &Vec<BranchEntry>) -> (r:
    Result<Vec<RemoteBranch>, RemoteError>)
    ensures
        stored_target is Some <==> r is Ok,
        r matches Err(e) ==> e == RemoteError::TargetNotSet,
        stored_target matches Some(t) ==> (r matches Ok(v) ==> v@ == kept_branches(branches@, *t)),
        stored_target matches Some(t) ==> (r matches Ok(v) ==> forall|i: int|
            0 <= i < v@.len() ==> !excluded((#[trigger] v@[i]).name, *t)),
{
    let target = match stored_target {
        Some(t) => t,
        None => { return Err(RemoteError::TargetNotSet) },
    };
    let mut remote_branches: Vec<RemoteBranch> = Vec::new();
    let mut i: usize = 0;
    proof {
        assert(branches@.take(0) =~= Seq::<BranchEntry>::empty());
    }
    while i < branches.len()
        invariant
            i <= branches@.len(),
            stored_target matches Some(t) && t == *target,
            remote_branches@ == kept_branches(branches@.take(i as int), *target),
            forall|k: int|
                0 <= k < remote_branches@.len() ==> !excluded(
                    (#[trigger] remote_branches@[k]).name,
                    *target,
                ),
        decreases branches@.len() - i,
    {
        let ghost pre = branches@.take(i as int);
        if let Some(branch) = branch_to_remote_branch(&branches[i]) {
            if !excluded_exec(&branch.name, target) {
                remote_branches.push(branch);
            }
        }
        proof {
            assert(branches@.take(i + 1int).drop_last() =~= pre);
            assert(branches@.take(i + 1int).last() == branches@[i as int]);
        }
        i += 1;
    }
    proof {
        assert(branches@.take(branches@.len() as int) =~= branches@);
    }
    Ok(remote_branches)
}

/// The derived commit record carries exactly the provider's projection
/// of the commit.
pub open spec fn commit_matches(r: RemoteCommit, e: CommitEntry) -> bool {
    &&& r.id == e.id
    &&& r.description@ == e.message@
    &&& r.created_at == e.timestamp_seconds as u128
    &&& r.author.name == e.author.name
    &&& r.author.email == e.author.email
    &&& r.change_id == e.change_id
    &&& r.parent_ids@ == e.parent_ids@
    &&& r.file_paths@ == e.file_paths@
}

/// Project one raw commit into its presentation record.
///
/// The timestamp must be representable as an unsigned count; a negative
/// value is a precondition violation, not a recoverable case.
pub fn commit_to_remote_commit(entry: &CommitEntry) -> (r: RemoteCommit)
    requires
        entry.timestamp_seconds >= 0,
    ensures
        commit_matches(r, *entry),
{
    let parent_ids = clone_strings(&entry.parent_ids);
    let file_paths = clone_strings(&entry.file_paths);
    let change_id = match &entry.change_id {
        Some(c) => Some(c.clone()),
        None => None,
    };
    RemoteCommit {
        id: entry.id.clone(),
        description: clone_bytes(&entry.message),
        created_at: entry.timestamp_seconds as u128,
        author: Author { name: entry.author.name.clone(), email: entry.author.email.clone() },
        change_id,
        parent_ids,
        file_paths,
    }
}

fn clone_strings(v: &Vec<String>) -> (r: Vec<String>)
    ensures
        r@ == v@,
{
    let mut r: Vec<String> = Vec::new();
    let mut i: usize = 0;
    while i < v.len()
        invariant
            i <= v@.len(),
            r@ == v@.take(i as int),
        decreases v@.len() - i,
    {
        r.push(v[i].clone());
        proof {
            assert(v@.take(i + 1int) =~= v@.take(i as int).push(v@[i as int]));
        }
        i += 1;
    }
    proof {
        assert(v@.take(v@.len() as int) =~= v@);
    }
    r
}

fn clone_bytes(v: &Vec<u8>) -> (r: Vec<u8>)
    ensures
        r@ == v@,
{
    let mut r: Vec<u8> = Vec::new();
    let mut i: usize = 0;
    while i < v.len()
        invariant
            i <= v@.len(),
            r@ == v@.take(i as int),
        decreases v@.len() - i,
    {
        r.push(v[i]);
        proof {
            assert(v@.take(i + 1int) =~= v@.take(i as int).push(v@[i as int]));
        }
        i += 1;
    }
    proof {
        assert(v@.take(v@.len() as int) =~= v@);
    }
    r
}

/// What the walker's report must satisfy for the derivation to be
/// possible at all: representable commit timestamps (a precondition, per
/// the commit projection) and counts within the machine's counter range.
pub open spec fn walk_ok(w: BranchWalk) -> bool {
    &&& forall|i: int| 0 <= i < w.ahead@.len() ==> (#[trigger] w.ahead@[i]).timestamp_seconds >= 0
    &&& w.ahead@.len() < u64::MAX
    &&& file_pairs_of_entries(w.ahead@) < u64::MAX
}

/// Number of file contributions the projected commits will carry.
pub open spec fn file_pairs_of_entries(ahead: Seq<CommitEntry>) -> int
    decreases ahead.len(),
{
    if ahead.len() == 0 {
        0
    } else {
        file_pairs_of_entries(ahead.drop_last()) + ahead.last().file_paths@.len()
    }
}

/// The fork point derived from an ahead set: the first parent of its
/// oldest commit, absent when the set is empty or that commit has no
/// parent.
pub open spec fn spec_fork_point(ahead: Seq<CommitEntry>) -> Option<String> {
    if ahead.len() == 0 {
        None
    } else if ahead.last().parent_ids@.len() > 0 {
        Some(ahead.last().parent_ids@[0])
    } else {
        None
    }
}

/// Everything the divergence record states about the walker's report.
pub open spec fn data_matches_walk(d: RemoteBranchData, w: BranchWalk) -> bool {
    &&& w.sha matches Some(s) && d.sha == s
    &&& d.name == w.name
    &&& d.upstream == w.name.spec_upstream()
    &&& d.behind == w.behind
    &&& d.commits@.len() == w.ahead@.len()
    &&& forall|i: int|
        0 <= i < w.ahead@.len() ==> commit_matches(#[trigger] d.commits@[i], w.ahead@[i])
    &&& d.fork_point == spec_fork_point(w.ahead@)
    &&& table_correct(author_pairs(d.commits@), d.recent_authors@)
    &&& table_correct(file_pairs(d.commits@), d.recent_files@)
    &&& sorted_desc(d.recent_authors@)
    &&& sorted_desc(d.recent_files@)
    &&& sum_values(d.recent_authors@) == d.commits@.len()
    &&& sum_values(d.recent_files@) == file_pairs(d.commits@).len()
}

/// Derive the divergence record for one branch from the walker's report:
/// ahead commits projected in walk order, the behind distance, the fork
/// point, and the metrics tables over the projected commits. Yields
/// nothing (not an error) for an unborn branch.
///
/// A branch whose tip equals the target gets an empty walk report, and
/// so an empty commit list, behind 0 as reported, and no fork point.
pub fn branch_to_remote_branch_data(walk: &BranchWalk) -> (r: Option<RemoteBranchData>)
    requires
        walk_ok(*walk),
    ensures
        r is Some <==> walk.sha is Some,
        r matches Some(d) ==> data_matches_walk(d, *walk),
{
    let sha = match &walk.sha {
        Some(s) => s.clone(),
        None => { return None },
    };
    let mut commits: Vec<RemoteCommit> = Vec::new();
    let mut i: usize = 0;
    while i < walk.ahead.len()
        invariant
            i <= walk.ahead@.len(),
            walk_ok(*walk),
            commits@.len() == i,
            forall|k: int|
                0 <= k < i ==> commit_matches(#[trigger] commits@[k], walk.ahead@[k]),
        decreases walk.ahead@.len() - i,
    {
        let c = commit_to_remote_commit(&walk.ahead[i]);
        commits.push(c);
        i += 1;
    }
    proof {
        lemma_file_pairs_agree(commits@, walk.ahead@);
    }
    let fork_point = fork_point_of(&walk.ahead);
    let (recent_authors, recent_files) = get_recent_commits_metric(&commits);
    let upstream = match &walk.name {
        Refname::Local { remote_tracking: Some(u), .. } => Some(u.duplicate()),
        _ => None,
    };
    Some(
        RemoteBranchData {
            sha,
            name: walk.name.duplicate(),
            upstream,
            behind: walk.behind,
            commits,
            fork_point,
            recent_authors,
            recent_files,
        },
    )
}

/// The projected commits contribute exactly the raw entries' file paths.
proof fn lemma_file_pairs_agree(cs: Seq<RemoteCommit>, ahead: Seq<CommitEntry>)
    requires
        cs.len() == ahead.len(),
        forall|k: int| 0 <= k < ahead.len() ==> commit_matches(#[trigger] cs[k], ahead[k]),
    ensures
        file_pairs(cs).len() == file_pairs_of_entries(ahead),
    decreases cs.len(),
{
    if cs.len() > 0 {
        lemma_file_pairs_agree(cs.drop_last(), ahead.drop_last());
        assert(cs.drop_last().len() == ahead.drop_last().len());
        assert(commit_matches(cs.last(), ahead.last()));
    }
}

/// First parent of the oldest ahead commit, when both exist.
fn fork_point_of(ahead: &Vec<CommitEntry>) -> (r: Option<String>)
    ensures
        r == spec_fork_point(ahead@),
{
    if ahead.len() == 0 {
        return None;
    }
    let oldest = &ahead[ahead.len() - 1];
    if oldest.parent_ids.len() > 0 {
        Some(oldest.parent_ids[0].clone())
    } else {
        None
    }
}

/// Resolve a ref lookup and walker report into the branch's divergence
/// record: fails when no target is set, when the ref resolved to no
/// branch, or when the branch yields no record (unborn tip).
pub fn get_branch_data(stored_target: &Option<Target>, branch: &Option<BranchWalk>) -> (r: Result<
    RemoteBranchData,
    RemoteError,
>)
    requires
        branch matches Some(w) ==> walk_ok(*w),
    ensures
        r is Ok <==> (stored_target is Some && (branch matches Some(w) && w.sha is Some)),
        branch matches Some(w) ==> (r matches Ok(d) ==> data_matches_walk(d, *w)),
        r matches Err(e) ==> (e == RemoteError::TargetNotSet <==> stored_target is None),
        r matches Err(e) ==> (e == RemoteError::BranchNotFound <==> (stored_target is Some
            && branch is None)),
        r matches Err(e) ==> (e == RemoteError::NoBranchData <==> (stored_target is Some
            && (branch matches Some(w) && w.sha is None))),
{
    if stored_target.is_none() {
        return Err(RemoteError::TargetNotSet);
    }
    let walk = match branch {
        Some(w) => w,
        None => { return Err(RemoteError::BranchNotFound) },
    };
    match branch_to_remote_branch_data(walk) {
        Some(d) => Ok(d),
        None => Err(RemoteError::NoBranchData),
    }
}

/// The walker never yields the commit the walk is bounded by, so a
/// branch's derived commit list never contains the base commit itself.
pub proof fn lemma_commits_exclude_base(d: RemoteBranchData, w: BranchWalk, base: Seq<char>)
    requires
        forall|i: int| 0 <= i < w.ahead@.len() ==> (#[trigger] w.ahead@[i]).id@ != base,
        d.commits@.len() == w.ahead@.len(),
        forall|i: int|
            0 <= i < w.ahead@.len() ==> commit_matches(#[trigger] d.commits@[i], w.ahead@[i]),
    ensures
        forall|i: int| 0 <= i < d.commits@.len() ==> (#[trigger] d.commits@[i]).id@ != base,
{
}

/// A branch whose tip is the target itself diverges nowhere: the walker
/// reports an empty ahead set and distance zero, and the derived record
/// then shows no commits, behind 0, and no fork point.
pub proof fn lemma_branch_at_target(d: RemoteBranchData, w: BranchWalk)
    requires
        w.ahead@.len() == 0,
        w.behind == 0,
        data_matches_walk(d, w),
    ensures
        d.behind == 0,
        d.commits@.len() == 0,
        d.fork_point is None,
{
}

/// The fork point, when present, is the first parent of the oldest entry
/// in the derived commit list.
pub proof fn lemma_fork_point_is_parent_of_oldest(d: RemoteBranchData, w: BranchWalk)
    requires
        data_matches_walk(d, w),
        d.fork_point is Some,
    ensures
        d.commits@.len() > 0,
        d.commits@.last().parent_ids@.len() > 0,
        d.fork_point matches Some(fp) && fp == d.commits@.last().parent_ids@[0],
{
    assert(commit_matches(d.commits@[w.ahead@.len() - 1], w.ahead@[w.ahead@.len() - 1]));
}

} // verus!
