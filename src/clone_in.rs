use vstd::prelude::*;
use crate::region::{AllocError, Region};

verus! {

/// Copying a value into another region, so that it stays readable after the
/// region it came from is reset.
pub trait CloneIn: Sized {
    /// The value is well formed and readable through `region`.
    spec fn lives_in(&self, region: &Region) -> bool;

    /// The texts the value holds, in order.
    spec fn text(&self) -> Seq<Seq<char>>;

    /// Bytes that a deep copy takes from a region.
    spec fn cost(&self) -> nat;

    /// A copy of the value whose blocks live in `to`. Fails when `to` cannot
    /// hold `cost()` more bytes; blocks copied before a failure stay in `to`.
    fn clone_in(&self, from: &Region, to: &mut Region) -> (r: Result<Self, AllocError>)
        requires
            self.lives_in(from),
            old(to).wf(),
        ensures
            final(to).wf(),
            final(to).extends(old(to)),
            r is Ok <==> old(to).used() + self.cost() <= old(to).capacity(),
            r is Ok ==> {
                &&& r->Ok_0.text() == self.text()
                &&& r->Ok_0.lives_in(final(to))
                &&& final(to).used() == old(to).used() + self.cost()
            },
    ;
}

} // verus!
