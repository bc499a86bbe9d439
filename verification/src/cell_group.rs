//! Digit sets: which digits stand in one row, one column or one box.

use vstd::prelude::*;

verus! {

/// The digits seen so far in one row, one column or one 3×3 box: a set of
/// digits from 1 to 9.
///
/// Bit `d` of `cells` is set exactly when digit `d` is a member. The empty
/// cell's 0 is no digit and never a member.
#[derive(Clone, Copy, Debug)]
pub struct CellGroup {
    cells: u16,
}

/// Whether bit `digit` of `mask` is set.
pub open spec fn has_bit(mask: u16, digit: u8) -> bool {
    (mask >> (digit as u16)) & 1u16 == 1u16
}

impl View for CellGroup {
    type V = Set<u8>;

    closed spec fn view(&self) -> Set<u8> {
        Set::new(|d: u8| 1 <= d <= 9 && has_bit(self.cells, d))
    }
}

impl CellGroup {
    /// Nothing but the digits 1 to 9 is ever in a group.
    pub proof fn lemma_members_are_digits(&self)
        ensures
            forall|d: u8| self@.contains(d) ==> 1 <= d <= 9,
    {
    }

    /// A group with no digit in it.
    pub fn new() -> (group: CellGroup)
        ensures
            group@ == Set::<u8>::empty(),
    {
        let group = CellGroup { cells: 0 };
        proof {
            assert forall|d: u8| d <= 9 implies !has_bit(0u16, d) by {
                assert((0u16 >> (d as u16)) & 1u16 == 0u16) by (bit_vector);
            }
            assert(group@ =~= Set::<u8>::empty());
        }
        group
    }

    /// Adds the digit `digit`, from 1 to 9, to the group. The empty cell's 0
    /// is accepted too and leaves the group as it was.
    pub fn insert(&mut self, digit: u8)
        requires
            digit <= 9,
        ensures
            final(self)@ == (if digit == 0 {
                old(self)@
            } else {
                old(self)@.insert(digit)
            }),
    {
        if digit != 0 {
            let before: u16 = self.cells;
            let bit: u16 = 1u16 << (digit as u16);
            self.cells = before | bit;
            proof {
                let after = self.cells;
                assert forall|d: u8| d <= 9 implies has_bit(after, d) == (d == digit || has_bit(
                    before,
                    d,
                )) by {
                    assert(d <= 9 && digit <= 9 && after == before | (1u16 << (digit as u16))
                        ==> (((after >> (d as u16)) & 1u16 == 1u16) <==> (d == digit || (before
                        >> (d as u16)) & 1u16 == 1u16))) by (bit_vector);
                }
                assert(final(self)@ =~= old(self)@.insert(digit));
            }
        }
    }

    /// Whether `digit` is in the group.
    pub fn contains(&self, digit: u8) -> (found: bool)
        ensures
            found == self@.contains(digit),
    {
        1 <= digit && digit <= 9 && (self.cells >> (digit as u16)) & 1u16 == 1u16
    }

    /// Takes `digit` out of the group; a digit that is not in it leaves the
    /// group as it was.
    pub fn remove(&mut self, digit: u8)
        ensures
            final(self)@ == old(self)@.remove(digit),
    {
        if 1 <= digit && digit <= 9 {
            let before: u16 = self.cells;
            let bit: u16 = 1u16 << (digit as u16);
            self.cells = before & !bit;
            proof {
                let after = self.cells;
                assert forall|d: u8| d <= 9 implies has_bit(after, d) == (d != digit && has_bit(
                    before,
                    d,
                )) by {
                    assert(d <= 9 && digit <= 9 && after == before & !(1u16 << (digit as u16))
                        ==> (((after >> (d as u16)) & 1u16 == 1u16) <==> (d != digit && (before
                        >> (d as u16)) & 1u16 == 1u16))) by (bit_vector);
                }
                assert(final(self)@ =~= old(self)@.remove(digit));
            }
        } else {
            assert(old(self)@.remove(digit) =~= old(self)@);
        }
    }
}

} // verus!
