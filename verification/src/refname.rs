//! Classified reference names: a branch ref is either a local branch
//! (optionally tracking a remote counterpart) or a remote-tracking branch.

use vstd::prelude::*;

verus! {

/// A remote-qualified branch name, e.g. remote `origin`, branch `main`.
#[derive(Debug, Clone, PartialEq)]
pub struct RemoteRefname {
    pub remote: String,
    pub branch: String,
}

impl RemoteRefname {
    /// An equal copy of the name.
    pub fn duplicate(&self) -> (r: RemoteRefname)
        ensures
            r == *self,
    {
        RemoteRefname { remote: self.remote.clone(), branch: self.branch.clone() }
    }
}

/// A classified ref name. Refs that fit neither form are skipped before
/// they reach this core, so only these two shapes occur here.
#[derive(Debug, Clone, PartialEq)]
pub enum Refname {
    /// A local branch, with its configured remote-tracking counterpart
    /// when one exists.
    Local { branch: String, remote_tracking: Option<RemoteRefname> },
    /// A remote-tracking branch.
    Remote(RemoteRefname),
}

impl Refname {
    /// The branch component of the name.
    pub open spec fn spec_branch(self) -> Seq<char> {
        match self {
            Refname::Local { branch, .. } => branch@,
            Refname::Remote(r) => r.branch@,
        }
    }

    /// The remote component: present only for remote-tracking branches.
    pub open spec fn spec_remote(self) -> Option<Seq<char>> {
        match self {
            Refname::Local { .. } => None,
            Refname::Remote(r) => Some(r.remote@),
        }
    }

    /// The remote-tracking counterpart carried into presentation records:
    /// only a local branch reports one.
    pub open spec fn spec_upstream(self) -> Option<RemoteRefname> {
        match self {
            Refname::Local { remote_tracking, .. } => remote_tracking,
            Refname::Remote(_) => None,
        }
    }

    pub fn branch(&self) -> (r: &String)
        ensures
            r@ == self.spec_branch(),
    {
        match self {
            Refname::Local { branch, .. } => branch,
            Refname::Remote(r) => &r.branch,
        }
    }

    /// An equal copy of the name.
    pub fn duplicate(&self) -> (r: Refname)
        ensures
            r == *self,
    {
        match self {
            Refname::Local { branch, remote_tracking } => {
                let rt = match remote_tracking {
                    Some(u) => Some(u.duplicate()),
                    None => None,
                };
                Refname::Local { branch: branch.clone(), remote_tracking: rt }
            },
            Refname::Remote(r) => Refname::Remote(r.duplicate()),
        }
    }
}

} // verus!
