//! The records of a roster.

use vstd::prelude::*;

verus! {

/// A record that is found by an identifier.
pub trait Keyed {
    /// The identifier of the user that the record is about.
    spec fn key(&self) -> Seq<char>;

    /// The identifier as a string.
    fn key_str(&self) -> (k: &str)
        ensures
            k@ == self.key(),
    ;
}

/// The membership of one user in one group.
///
/// Group and user together identify the record. `meta` is what else the
/// group keeps about the member; the roster carries it along untouched.
#[derive(Clone, Debug, PartialEq, Eq)]
pub struct MembershipRecord<M> {
    pub group: String,
    pub user: String,
    pub meta: M,
}

/// A user as the caller may see them.
///
/// `profile` is what else is visible of the user; the roster carries it
/// along untouched.
#[derive(Clone, Debug, PartialEq, Eq)]
pub struct UserRecord<P> {
    pub id: String,
    pub online: bool,
    pub profile: P,
}

impl<M> Keyed for MembershipRecord<M> {
    open spec fn key(&self) -> Seq<char> {
        self.user@
    }

    fn key_str(&self) -> (k: &str) {
        self.user.as_str()
    }
}

impl<P> Keyed for UserRecord<P> {
    open spec fn key(&self) -> Seq<char> {
        self.id@
    }

    fn key_str(&self) -> (k: &str) {
        self.id.as_str()
    }
}

} // verus!
