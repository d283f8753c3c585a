//! The slab that gives out alias slots, and what this library relies on
//! it to do. None of what is stated here is proved: it is read off the
//! slab's source.

use slab::Slab;
use vstd::prelude::*;

verus! {

/// `slab::Slab`, of which nothing is seen but what the two functions
/// below name.
#[verifier::external_type_specification]
#[verifier::external_body]
#[verifier::reject_recursive_types(T)]
pub struct ExSlab<T>(Slab<T>);

/// The keys of a slab that hold a value.
pub uninterp spec fn slab_occupied(slab: Slab<()>) -> Set<int>;

/// The keys that a slab has taken back and not given out again, in the
/// order in which it will give them out: the one taken back last comes
/// first.
pub uninterp spec fn slab_vacant(slab: Slab<()>) -> Seq<int>;

/// The most slots, occupied and vacant together, that this library lets a
/// slab hold before an insertion. Growing a slab's storage panics only
/// beyond `isize::MAX` bytes, which is far more.
pub const SLAB_SLOTS: usize = 0x2_0000;

/// The key that the next insertion gets: the vacant key taken back last,
/// or, where no key is vacant, the number of keys given out so far.
pub open spec fn slab_next_key(slab: Slab<()>) -> int {
    if slab_vacant(slab).len() > 0 {
        slab_vacant(slab)[0]
    } else {
        slab_occupied(slab).len() as int
    }
}

/// `Slab::new`: a slab without slots.
#[verifier::external_body]
pub(crate) fn slab_new() -> (slab: Slab<()>)
    ensures
        slab_occupied(slab) == Set::<int>::empty(),
        slab_vacant(slab) == Seq::<int>::empty(),
{
    Slab::new()
}

/// `Slab::insert`, of the unit value. The slab pops its stack of vacant
/// keys; where the stack is empty it makes a new slot after the last one.
/// That key is then occupied, and is returned.
#[verifier::external_body]
pub(crate) fn slab_insert(slab: &mut Slab<()>) -> (key: usize)
    requires
        slab_occupied(*old(slab)).len() + slab_vacant(*old(slab)).len() < SLAB_SLOTS,
    ensures
        key == slab_next_key(*old(slab)),
        slab_occupied(*final(slab)) == slab_occupied(*old(slab)).insert(key as int),
        slab_vacant(*final(slab)) == if slab_vacant(*old(slab)).len() > 0 {
            slab_vacant(*old(slab)).drop_first()
        } else {
            slab_vacant(*old(slab))
        },
{
    slab.insert(())
}

/// `Slab::remove`, of an occupied key (it panics on any other). The key is
/// no longer occupied, and is pushed on the stack of vacant keys.
#[verifier::external_body]
pub(crate) fn slab_remove(slab: &mut Slab<()>, key: usize)
    requires
        slab_occupied(*old(slab)).contains(key as int),
    ensures
        slab_occupied(*final(slab)) == slab_occupied(*old(slab)).remove(key as int),
        slab_vacant(*final(slab)) == seq![key as int] + slab_vacant(*old(slab)),
{
    slab.remove(key);
}

} // verus!
