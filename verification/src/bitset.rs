//! A fixed-size array of flags, eight to a byte.
use vstd::prelude::*;

verus! {

/// Bit `k` (0 = lowest) of the byte `b`.
pub open spec fn bit_of(b: u8, k: int) -> bool {
    (b >> (k as u8)) & 1u8 == 1u8
}

/// `size` flags; flag `i` is bit `i % 8` of byte `i / 8`.
pub struct CompactBoolArray {
    size: usize,
    vec: Vec<u8>,
}

impl View for CompactBoolArray {
    type V = Seq<bool>;

    /// The flags, one per index below the size.
    closed spec fn view(&self) -> Seq<bool> {
        Seq::new(self.size as nat, |i: int| bit_of(self.vec@[i / 8], i % 8))
    }
}

proof fn lemma_zero_byte_bits(k: u8)
    requires
        k < 8,
    ensures
        !bit_of(0u8, k as int),
{
    assert((0u8 >> k) & 1u8 != 1u8) by (bit_vector);
}

proof fn lemma_set_bit(d: u8, b: u8, k: u8)
    requires
        b < 8,
        k < 8,
    ensures
        bit_of(d | (1u8 << b), k as int) == (k == b || bit_of(d, k as int)),
{
    assert((((d | (1u8 << b)) >> k) & 1u8 == 1u8) == (k == b || (d >> k) & 1u8 == 1u8))
        by (bit_vector)
        requires
            b < 8,
            k < 8,
    ;
}

/// `n` flags, all clear.
pub open spec fn all_clear(n: nat) -> Seq<bool> {
    Seq::new(n, |i: int| false)
}

/// The flags after setting the flags `idxs`, one after the other, starting from `flags`.
pub open spec fn set_all(flags: Seq<bool>, idxs: Seq<int>) -> Seq<bool>
    decreases idxs.len(),
{
    if idxs.len() == 0 {
        flags
    } else {
        set_all(flags, idxs.drop_last()).update(idxs.last(), true)
    }
}

/// Starting from all flags clear (as `new` leaves them) and setting the flags
/// `idxs` one after the other (as `set` does), exactly the flags named in
/// `idxs` are set.
pub proof fn lemma_set_all(n: nat, idxs: Seq<int>)
    requires
        forall|l: int| 0 <= l < idxs.len() ==> 0 <= #[trigger] idxs[l] < n,
    ensures
        set_all(all_clear(n), idxs).len() == n,
        forall|j: int| 0 <= j < n ==> (#[trigger] set_all(all_clear(n), idxs)[j] <==> idxs.contains(j)),
    decreases idxs.len(),
{
    if idxs.len() > 0 {
        let rest = idxs.drop_last();
        lemma_set_all(n, rest);
        assert forall|j: int| 0 <= j < n implies (#[trigger] set_all(all_clear(n), idxs)[j] <==> idxs.contains(j)) by {
            if rest.contains(j) {
                let l = choose|l: int| 0 <= l < rest.len() && rest[l] == j;
                assert(idxs[l] == j);
            }
            if idxs.contains(j) && j != idxs.last() {
                let l = choose|l: int| 0 <= l < idxs.len() && idxs[l] == j;
                assert(l < rest.len());
                assert(rest[l] == j);
            }
            if j == idxs.last() {
                assert(idxs[idxs.len() - 1] == j);
            }
        }
    }
}

impl CompactBoolArray {
    /// The bytes that store the flags, eight to a byte.
    pub closed spec fn bytes(&self) -> Seq<u8> {
        self.vec@
    }

    /// The bytes hold exactly the flags.
    pub closed spec fn wf(&self) -> bool {
        &&& self.vec@.len() == (self.size as int + 7) / 8
    }

    /// `size` flags, all clear.
    pub fn new(size: usize) -> (r: Self)
        requires
            size + 7 <= usize::MAX,
        ensures
            r.wf(),
            r@ == all_clear(size as nat),
            r.bytes().len() == (size + 7) / 8,
            forall|j: int| 0 <= j < r.bytes().len() ==> #[trigger] r.bytes()[j] == 0,
    {
        let mut vec: Vec<u8> = Vec::new();
        let need_u8 = (size + 7) / 8;
        vec.resize(need_u8, 0);
        let r = CompactBoolArray { size: size, vec: vec };
        assert forall|i: int| 0 <= i < size implies !#[trigger] r@[i] by {
            assert(r.vec@[i / 8] == 0u8);
            lemma_zero_byte_bits((i % 8) as u8);
        }
        assert(r@ =~= all_clear(size as nat));
        r
    }

    /// Whether flag `ind` is set.
    pub fn is_set(&self, ind: usize) -> (r: bool)
        requires
            self.wf(),
            ind < self@.len(),
        ensures
            r == self@[ind as int],
    {
        let a = ind / 8;
        let b = ind - (a * 8);
        let d = self.vec[a];
        (d >> b) & 0b1 == 1
    }

    /// Sets flag `ind`; the others keep their value.
    pub fn set(&mut self, ind: usize)
        requires
            old(self).wf(),
            ind < old(self)@.len(),
        ensures
            final(self).wf(),
            final(self)@ == old(self)@.update(ind as int, true),
    {
        let a = ind / 8;
        let b = ind - (a * 8);
        let d = self.vec[a];
        self.vec.set(a, d | (1 << b));
        proof {
            assert forall|i: int| 0 <= i < self.size implies #[trigger] self@[i] == old(self)@.update(ind as int, true)[i] by {
                if i / 8 == a {
                    lemma_set_bit(d, b as u8, (i % 8) as u8);
                }
            }
            assert(self@ =~= old(self)@.update(ind as int, true));
        }
    }
}

} // verus!
