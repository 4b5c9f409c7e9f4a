//! The flag bits that an object carries through a collection.

use vstd::prelude::*;

verus! {

/// The bit of [`GcFlags::visited`].
pub const VISITED_BIT: usize = 1;

/// The bit of [`GcFlags::dirty`].
pub const DIRTY_BIT: usize = 2;

/// Every defined bit.
pub const ALL_BITS: usize = 3;

/// A set of object flags.
#[derive(Clone, Copy, Debug, PartialEq, Eq, Structural)]
pub struct GcFlags {
    bits: usize,
}

/// Every bit of `mask` is set in `bits`.
pub open spec fn has_bits(bits: usize, mask: usize) -> bool {
    bits & mask == mask
}

/// What a word of flag bits becomes when a mutator lets go of the object or
/// takes hold of its contents: a word that is exactly "visited" becomes "visited
/// and dirty", and any other word stays.
pub open spec fn dirtied(bits: usize) -> usize {
    if bits == VISITED_BIT { ALL_BITS } else { bits }
}

impl GcFlags {
    /// The flags as a word of bits.
    pub closed spec fn view(&self) -> usize {
        self.bits
    }

    /// No flag.
    pub fn none() -> (r: Self)
        ensures
            r@ == 0,
    {
        GcFlags { bits: 0 }
    }

    /// The collector has visited the object in the running collection.
    pub fn visited() -> (r: Self)
        ensures
            r@ == VISITED_BIT,
    {
        GcFlags { bits: VISITED_BIT }
    }

    /// A mutator let go of a reference to the object, or took hold of its
    /// contents, after it was visited.
    pub fn dirty() -> (r: Self)
        ensures
            r@ == DIRTY_BIT,
    {
        GcFlags { bits: DIRTY_BIT }
    }

    /// The flags as a word of bits.
    pub fn bits(&self) -> (r: usize)
        ensures
            r == self@,
    {
        self.bits
    }

    /// The flags of a word of bits; none if an undefined bit is set.
    pub fn from_bits(bits: usize) -> (r: Option<Self>)
        ensures
            r is Some <==> bits <= ALL_BITS,
            r matches Some(f) ==> f@ == bits,
    {
        if bits <= ALL_BITS {
            Some(GcFlags { bits })
        } else {
            None
        }
    }

    /// Every flag of `other` is set in `self`.
    pub fn contains(&self, other: GcFlags) -> (r: bool)
        ensures
            r == has_bits(self@, other@),
    {
        self.bits & other.bits == other.bits
    }

    /// The flags of both.
    pub fn union(self, other: GcFlags) -> (r: Self)
        ensures
            r@ == self@ | other@,
    {
        GcFlags { bits: self.bits | other.bits }
    }
}

/// The exchange that a mutator attempts on the flag word of an object that it
/// lets go of, or whose contents it takes hold of, as (expected word, new word);
/// none if the object is not visited.
///
/// The mutator may be adding and dropping references to an object while the
/// collector counts them. A reference that was added and dropped again leaves
/// the count as it was, so the drop leaves a mark instead. And a reference that
/// is moved from contents that were visited to contents that were not is counted
/// twice, so the contents it is moved from are marked.
pub fn visited_to_dirty(bits: usize) -> (r: Option<(usize, usize)>)
    requires
        bits <= ALL_BITS,
    ensures
        r == (if has_bits(bits, VISITED_BIT) { Some((VISITED_BIT, ALL_BITS)) } else { None }),
        dirtied(bits) == (match r {
            Some((expected, new)) => if bits == expected { new } else { bits },
            None => bits,
        }),
{
    assert(2usize | 1usize == 3usize) by (bit_vector);
    assert(bits & 1 == 1usize || bits != 1usize) by (bit_vector);
    match GcFlags::from_bits(bits) {
        Some(flags) => if flags.contains(GcFlags::visited()) {
            Some((GcFlags::visited().bits(), GcFlags::dirty().union(GcFlags::visited()).bits()))
        } else {
            None
        },
        None => None,
    }
}

/// The three words that an object's flags take, and which flags each one holds.
pub proof fn lemma_flag_words()
    ensures
        !has_bits(0, VISITED_BIT),
        !has_bits(0, DIRTY_BIT),
        has_bits(VISITED_BIT, VISITED_BIT),
        !has_bits(VISITED_BIT, DIRTY_BIT),
        has_bits(ALL_BITS, VISITED_BIT),
        has_bits(ALL_BITS, DIRTY_BIT),
{
    assert(0usize & 1 != 1usize) by (bit_vector);
    assert(0usize & 2 != 2usize) by (bit_vector);
    assert(1usize & 1 == 1usize) by (bit_vector);
    assert(1usize & 2 != 2usize) by (bit_vector);
    assert(3usize & 1 == 1usize) by (bit_vector);
    assert(3usize & 2 == 2usize) by (bit_vector);
}

/// The mark of a mutator is left exactly on what the collector has visited: there
/// the word holds both flags after it. Any other word stays, no flag is ever
/// lost, and a second mark adds nothing.
pub proof fn law_visited_becomes_dirty(bits: usize)
    requires
        bits <= ALL_BITS,
    ensures
        has_bits(bits, VISITED_BIT) ==> has_bits(dirtied(bits), DIRTY_BIT),
        has_bits(bits, VISITED_BIT) ==> has_bits(dirtied(bits), VISITED_BIT),
        !has_bits(bits, VISITED_BIT) ==> dirtied(bits) == bits,
        has_bits(dirtied(bits), bits),
        dirtied(dirtied(bits)) == dirtied(bits),
        dirtied(bits) <= ALL_BITS,
{
    lemma_flag_words();
    assert(2usize & 1 != 1usize) by (bit_vector);
    assert(bits & bits == bits) by (bit_vector);
    assert(3usize & 1usize == 1usize) by (bit_vector);
    assert(bits == 0 || bits == 1 || bits == 2 || bits == 3);
}

/// A set of flags contains two others exactly if it contains their union. It
/// contains itself and the empty set; and what contains each other is the same.
pub proof fn law_flags_are_sets(bits: usize, a: usize, b: usize)
    ensures
        has_bits(bits, a | b) <==> has_bits(bits, a) && has_bits(bits, b),
        has_bits(bits, bits),
        has_bits(bits, 0),
        has_bits(a, b) && has_bits(b, a) ==> a == b,
        has_bits(a | b, a),
{
    assert(bits & (a | b) == (a | b) <==> bits & a == a && bits & b == b) by (bit_vector);
    assert(bits & bits == bits) by (bit_vector);
    assert(bits & 0 == 0) by (bit_vector);
    assert(a & b == b && b & a == a ==> a == b) by (bit_vector);
    assert((a | b) & a == a) by (bit_vector);
}

} // verus!
