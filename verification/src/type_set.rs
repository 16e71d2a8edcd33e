//! A set of categories, held as one membership flag per category.

use crate::chart::{all_types, Type, TYPE_COUNT};
use vstd::prelude::*;

verus! {

/// A set of categories.
pub struct TypeSet {
    present: [bool; 12],
}

impl View for TypeSet {
    type V = Set<Type>;

    closed spec fn view(&self) -> Set<Type> {
        Set::new(|t: Type| self.present@[t.ordinal() as int])
    }
}

/// The members of `s` whose position in chart order is below `bound`.
spec fn below(s: Set<Type>, bound: nat) -> Set<Type> {
    Set::new(|t: Type| s.contains(t) && t.ordinal() < bound)
}

/// Every set of categories is finite and has at most twelve members.
pub proof fn lemma_type_set_bounded(s: Set<Type>)
    ensures
        s.finite(),
        s.len() <= TYPE_COUNT,
{
    lemma_below_bounded(s, 12);
    assert(below(s, 12) =~= s);
}

/// The members of a set below a position are finite and no more than the
/// position.
proof fn lemma_below_bounded(s: Set<Type>, bound: nat)
    requires
        bound <= TYPE_COUNT,
    ensures
        below(s, bound).finite(),
        below(s, bound).len() <= bound,
    decreases bound,
{
    if bound == 0 {
        assert(below(s, 0) =~= Set::empty());
    } else {
        let prev = (bound - 1) as nat;
        lemma_below_bounded(s, prev);
        lemma_below_step(s, prev);
    }
}

/// Raising the position by one adds the category at that position, if the
/// set holds it, and nothing else.
proof fn lemma_below_step(s: Set<Type>, pos: nat)
    requires
        pos < TYPE_COUNT,
    ensures
        all_types()[pos as int].ordinal() == pos,
        s.contains(all_types()[pos as int]) ==> below(s, pos + 1) == below(s, pos).insert(
            all_types()[pos as int],
        ),
        !s.contains(all_types()[pos as int]) ==> below(s, pos + 1) == below(s, pos),
        !below(s, pos).contains(all_types()[pos as int]),
{
    let t = all_types()[pos as int];
    assert forall|u: Type| u.ordinal() == pos implies u == t by {}
    if s.contains(t) {
        assert(below(s, pos + 1) =~= below(s, pos).insert(t));
    } else {
        assert(below(s, pos + 1) =~= below(s, pos));
    }
}

impl TypeSet {
    /// The empty set.
    pub fn new() -> (r: TypeSet)
        ensures
            r@ == Set::<Type>::empty(),
    {
        let r = TypeSet { present: [false; 12] };
        assert(r@ =~= Set::<Type>::empty());
        r
    }

    /// Adds `t` to the set; a category that is already a member stays one.
    pub fn insert(&mut self, t: Type)
        ensures
            final(self)@ == old(self)@.insert(t),
    {
        let i = t.index();
        self.present[i] = true;
        assert(self@ =~= old(self)@.insert(t));
    }

    /// Whether `t` is a member.
    pub fn contains(&self, t: Type) -> (r: bool)
        ensures
            r == self@.contains(t),
    {
        self.present[t.index()]
    }

    /// The number of members.
    pub fn len(&self) -> (r: usize)
        ensures
            self@.finite(),
            r == self@.len(),
            r <= TYPE_COUNT,
    {
        let mut count: usize = 0;
        let mut i: usize = 0;
        proof {
            lemma_below_bounded(self@, 0);
            assert(below(self@, 0) =~= Set::empty());
        }
        while i < 12
            invariant
                i <= 12,
                below(self@, i as nat).finite(),
                count == below(self@, i as nat).len(),
                count <= i,
            decreases 12 - i,
        {
            proof {
                lemma_below_step(self@, i as nat);
            }
            if self.present[i] {
                count = count + 1;
            }
            i = i + 1;
        }
        proof {
            assert(below(self@, 12) =~= self@);
        }
        count
    }

    /// Removes every member.
    pub fn clear(&mut self)
        ensures
            final(self)@ == Set::<Type>::empty(),
    {
        self.present = [false; 12];
        assert(self@ =~= Set::<Type>::empty());
    }
}

} // verus!
