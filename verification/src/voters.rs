//! The replicas that take part in the election.
use crate::crypto::PublicKey;
use std::slice::Iter;
use vstd::prelude::*;
use vstd::std_specs::iter::IteratorSpec;

verus! {

/// The replicas that vote, in the order in which they lead by turns.
#[derive(Debug)]
pub struct VoterSet {
    pub voters: Vec<PublicKey>,
}

impl View for VoterSet {
    type V = Seq<PublicKey>;

    open spec fn view(&self) -> Seq<PublicKey> {
        self.voters@
    }
}

impl VoterSet {
    /// The set with the given voters.
    pub fn new(voters: Vec<PublicKey>) -> (set: Self)
        ensures
            set.voters == voters,
    {
        Self { voters }
    }

    /// The number of voters that are left when a third of them, rounded down, is taken away.
    pub fn threshold(&self) -> (votes: usize)
        ensures
            votes == self@.len() - self@.len() / 3,
    {
        self.voters.len() - self.voters.len() / 3
    }

    /// The voters, in their order.
    pub fn iter(&self) -> (iter: Iter<'_, PublicKey>)
        ensures
            iter.remaining().unref() == self@,
    {
        self.voters.iter()
    }

    /// A copy of the voters, in their order.
    pub fn get_voters(&self) -> (voters: Vec<PublicKey>)
        ensures
            voters@ == self@,
    {
        self.voters.clone()
    }

    /// Takes the last voter out of the set.
    pub fn next(&mut self) -> (voter: Option<PublicKey>)
        ensures
            old(self)@.len() == 0 ==> voter is None && final(self)@ == old(self)@,
            old(self)@.len() > 0 ==> voter == Some(old(self)@.last()) && final(self)@ == old(
                self,
            )@.drop_last(),
    {
        self.voters.pop()
    }
}

impl Clone for VoterSet {
    fn clone(&self) -> (copy: Self)
        ensures
            copy@ == self@,
    {
        Self { voters: self.get_voters() }
    }
}

/// The replica that leads a view by turns: the first voter leads view 1, and every voter
/// leads again after all the others have.
pub open spec fn turn(voters: Seq<PublicKey>, view: int) -> PublicKey
    recommends
        voters.len() > 0,
        view >= 1,
{
    voters[(view - 1) % (voters.len() as int)]
}

} // verus!
