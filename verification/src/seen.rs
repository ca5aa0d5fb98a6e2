//! A set of cell indices kept as a bit per cell.
use vstd::prelude::*;

verus! {

/// Bit `b` of word `w`.
pub open spec fn bit_of(w: u64, b: int) -> bool {
    (w >> (b as u64)) & 1 == 1
}

proof fn lemma_bit_set(w: u64, b: u64, c: u64)
    requires
        b < 64,
        c < 64,
    ensures
        ((w | (1u64 << b)) >> c) & 1 == (if b == c { 1u64 } else { (w >> c) & 1 }),
        (w & (1u64 << b) != 0) == ((w >> b) & 1 == 1),
{
    assert(((w | (1u64 << b)) >> c) & 1 == (if b == c { 1u64 } else { (w >> c) & 1 }))
        by (bit_vector)
        requires
            b < 64,
            c < 64,
    ;
    assert((w & (1u64 << b) != 0) == ((w >> b) & 1 == 1)) by (bit_vector)
        requires
            b < 64,
    ;
}

proof fn lemma_zero_bits(c: u64)
    requires
        c < 64,
    ensures
        (0u64 >> c) & 1 == 0,
{
    assert((0u64 >> c) & 1 == 0) by (bit_vector);
}

/// A set of indices below a fixed capacity, with its size.
pub struct Seen {
    bits: Vec<u64>,
    len: usize,
}

impl View for Seen {
    type V = Set<int>;

    closed spec fn view(&self) -> Set<int> {
        Set::new(|i: int| 0 <= i < self.capacity() && bit_of(self.bits@[i / 64], i % 64))
    }
}

impl Seen {
    /// The indices that the set can hold are those below this bound.
    pub closed spec fn capacity(&self) -> nat {
        64 * self.bits@.len()
    }

    /// The size is kept and the capacity fits in a `usize`.
    pub closed spec fn wf(&self) -> bool {
        &&& self@.finite()
        &&& self.len == self@.len()
        &&& self.capacity() <= usize::MAX
    }

    /// A well-formed set is finite.
    pub proof fn lemma_finite(&self)
        requires
            self.wf(),
        ensures
            self@.finite(),
    {
    }

    proof fn lemma_len_bound(&self)
        requires
            self@.finite(),
        ensures
            self@.len() <= self.capacity(),
    {
        vstd::set_lib::lemma_int_range(0, self.capacity() as int);
        vstd::set_lib::lemma_len_subset(self@, vstd::set_lib::set_int_range(0, self.capacity() as int));
    }

    /// An empty set for the indices below `n`.
    pub fn new(n: usize) -> (s: Seen)
        requires
            n <= usize::MAX - 64,
        ensures
            s.wf(),
            s@ == Set::<int>::empty(),
            n <= s.capacity() <= n + 64,
    {
        let words: usize = n / 64 + 1;
        let mut bits: Vec<u64> = Vec::new();
        let mut k: usize = 0;
        while k < words
            invariant
                k <= words,
                bits@ =~= Seq::new(k as nat, |j: int| 0u64),
            decreases words - k,
        {
            bits.push(0);
            k = k + 1;
        }
        let s = Seen { bits, len: 0 };
        assert forall|i: int| !s@.contains(i) by {
            if 0 <= i < s.capacity() {
                lemma_zero_bits((i % 64) as u64);
            }
        }
        assert(s@ =~= Set::<int>::empty());
        s
    }

    /// Whether `i` is in the set.
    pub fn contains(&self, i: usize) -> (r: bool)
        requires
            i < self.capacity(),
        ensures
            r == self@.contains(i as int),
    {
        let w: u64 = self.bits[i / 64];
        let b: u64 = (i % 64) as u64;
        proof {
            lemma_bit_set(w, b, b);
        }
        w & (1u64 << b) != 0
    }

    /// Adds `i`; returns whether it was new.
    pub fn insert(&mut self, i: usize) -> (r: bool)
        requires
            old(self).wf(),
            i < old(self).capacity(),
        ensures
            final(self).wf(),
            final(self).capacity() == old(self).capacity(),
            r == !old(self)@.contains(i as int),
            final(self)@ == old(self)@.insert(i as int),
            final(self)@.len() == old(self)@.len() + if r { 1int } else { 0int },
    {
        let ghost before = self@;
        let w: u64 = self.bits[i / 64];
        let b: u64 = (i % 64) as u64;
        proof {
            lemma_bit_set(w, b, b);
        }
        if w & (1u64 << b) != 0 {
            assert(before =~= before.insert(i as int));
            false
        } else {
            let nw: u64 = w | (1u64 << b);
            self.bits.set(i / 64, nw);
            proof {
                assert forall|j: int| #[trigger] self@.contains(j) == before.insert(i as int).contains(j) by {
                    if 0 <= j < self.capacity() {
                        lemma_bit_set(w, b, (j % 64) as u64);
                        if j / 64 == i / 64 {
                            assert(j % 64 == i % 64 <==> j == i);
                        }
                    }
                }
                assert(self@ =~= before.insert(i as int));
                self.lemma_len_bound();
            }
            self.len = self.len + 1;
            true
        }
    }

    /// The number of indices in the set.
    pub fn len(&self) -> (r: usize)
        requires
            self.wf(),
        ensures
            r == self@.len(),
    {
        self.len
    }

    /// A copy of the set.
    pub fn copy(&self) -> (r: Seen)
        requires
            self.wf(),
        ensures
            r.wf(),
            r@ == self@,
            r.capacity() == self.capacity(),
    {
        let bits = self.bits.clone();
        assert(bits@ =~= self.bits@);
        let r = Seen { bits, len: self.len };
        assert(r@ =~= self@);
        r
    }
}

} // verus!
