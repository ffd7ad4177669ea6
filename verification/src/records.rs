//! The concrete three-relation schema: orders reference users by `Uid`,
//! users reference provinces by `Pid`. These are the records whose change
//! streams the join constructions consume.

use vstd::prelude::*;

verus! {

/// User identifier; primary key of `User`, foreign key of `Order`.
#[derive(Clone, Debug, Ord, PartialOrd, Eq, PartialEq, Hash, Copy, Structural)]
pub struct Uid(pub u64);

/// Order identifier; primary key of `Order`.
#[derive(Clone, Debug, Ord, PartialOrd, Eq, PartialEq, Hash, Copy, Structural)]
pub struct Oid(pub u64);

/// Province identifier; primary key of `Province`, foreign key of `User`.
#[derive(Clone, Debug, Ord, PartialOrd, Eq, PartialEq, Hash, Copy, Structural)]
pub struct Pid(pub u64);

/// An order, placed by the user `uid`.
#[derive(Clone, Debug, Eq, PartialEq, Copy, Structural)]
pub struct Order {
    pub oid: Oid,
    pub price: u64,
    pub uid: Uid,
}

/// A user, living in the province `pid`.
#[derive(Clone, Debug, Eq, PartialEq, Copy, Structural)]
pub struct User {
    pub uid: Uid,
    pub pid: Pid,
}

/// A province. The `name` column stands for the non-key payload that late
/// materialization avoids duplicating across indexes.
#[derive(Clone, Debug, Eq, PartialEq)]
pub struct Province {
    pub pid: Pid,
    pub name: String,
}

impl Province {
    /// Copy of a province, equal to the original; written out field by field
    /// so that the equality is known to the verifier.
    pub fn duplicate(&self) -> (r: Province)
        ensures
            r == *self,
    {
        Province { pid: self.pid, name: self.name.clone() }
    }
}

} // verus!
