//! The set of command families a driver may issue.
use vstd::prelude::*;
use crate::driver::CommandSet;

verus! {

/// The bit that stands for a command family.
pub open spec fn bit_of(set: CommandSet) -> u8 {
    match set {
        CommandSet::Wifi => 1,
        CommandSet::TcpIp => 2,
        CommandSet::Ble => 4,
        CommandSet::ParticleArgonExt => 8,
    }
}

fn bit(set: CommandSet) -> (r: u8)
    ensures
        r == bit_of(set),
{
    match set {
        CommandSet::Wifi => 1,
        CommandSet::TcpIp => 2,
        CommandSet::Ble => 4,
        CommandSet::ParticleArgonExt => 8,
    }
}

/// A set of command families, one bit each.
#[derive(Clone, Copy, PartialEq, Eq, Structural)]
pub struct CommandSets {
    bits: u8,
}

impl View for CommandSets {
    type V = Set<CommandSet>;

    closed spec fn view(&self) -> Set<CommandSet> {
        Set::new(|s: CommandSet| self.bits & bit_of(s) != 0)
    }
}

impl CommandSets {
    /// The set with no family.
    pub fn empty() -> (r: Self)
        ensures
            r@ == Set::<CommandSet>::empty(),
    {
        let r = CommandSets { bits: 0 };
        assert forall|s: CommandSet| !r@.contains(s) by {
            assert(0u8 & bit_of(s) == 0) by (bit_vector);
        }
        assert(r@ =~= Set::<CommandSet>::empty());
        r
    }

    /// This set with one more family.
    pub fn with(self, set: CommandSet) -> (r: Self)
        ensures
            r@ == self@.insert(set),
    {
        let b = bit(set);
        let r = CommandSets { bits: self.bits | b };
        assert forall|s: CommandSet| r@.contains(s) == self@.insert(set).contains(s) by {
            let x = self.bits;
            let y = bit_of(s);
            if s == set {
                assert((x | y) & y != 0) by (bit_vector)
                    requires y == 1 || y == 2 || y == 4 || y == 8;
            } else {
                let z = bit_of(set);
                assert(((x | z) & y != 0) == (x & y != 0)) by (bit_vector)
                    requires
                        y == 1 || y == 2 || y == 4 || y == 8,
                        z == 1 || z == 2 || z == 4 || z == 8,
                        y != z;
            }
        }
        assert(r@ =~= self@.insert(set));
        r
    }

    /// Whether the family is in the set.
    pub fn contains(&self, set: CommandSet) -> (r: bool)
        ensures
            r == self@.contains(set),
    {
        self.bits & bit(set) != 0
    }
}

} // verus!
