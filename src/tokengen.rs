use vstd::prelude::*;

verus! {

/// Whether bit `b` of word `w` is set.
pub open spec fn bit_set(bm: Seq<u64>, w: int, b: int) -> bool {
    0 <= w < bm.len() && 0 <= b < 64 && (bm[w] >> (b as u64)) & 1u64 == 1u64
}

/// Whether token `t` is held: bit `t % 64` of word `t / 64`.
pub open spec fn held(bm: Seq<u64>, t: int) -> bool {
    0 <= t && bit_set(bm, t / 64, t % 64)
}

/// Hands out the smallest token that is not held, and takes tokens back.
pub struct TokenGen {
    bitmap: Vec<u64>,
}

proof fn lemma_or_bit(v: u64, n: u64, k: u64)
    requires
        n < 64,
        k < 64,
    ensures
        ((v | (1u64 << n)) >> k) & 1u64 == (if k == n { 1u64 } else { (v >> k) & 1u64 }),
{
    assert(((v | (1u64 << n)) >> k) & 1u64 == (if k == n { 1u64 } else { (v >> k) & 1u64 }))
        by (bit_vector)
        requires n < 64, k < 64;
}

proof fn lemma_clear_bit(v: u64, n: u64, k: u64)
    requires
        n < 64,
        k < 64,
    ensures
        ((v & !(1u64 << n)) >> k) & 1u64 == (if k == n { 0u64 } else { (v >> k) & 1u64 }),
{
    assert(((v & !(1u64 << n)) >> k) & 1u64 == (if k == n { 0u64 } else { (v >> k) & 1u64 }))
        by (bit_vector)
        requires n < 64, k < 64;
}

proof fn lemma_word_bits(k: u64)
    requires
        k < 64,
    ensures
        (0xffff_ffff_ffff_ffffu64 >> k) & 1u64 == 1u64,
        (0u64 >> k) & 1u64 == 0u64,
        (1u64 >> k) & 1u64 == (if k == 0 { 1u64 } else { 0u64 }),
{
    assert((0xffff_ffff_ffff_ffffu64 >> k) & 1u64 == 1u64) by (bit_vector) requires k < 64;
    assert((0u64 >> k) & 1u64 == 0u64) by (bit_vector);
    assert((1u64 >> k) & 1u64 == (if k == 0 { 1u64 } else { 0u64 })) by (bit_vector) requires k < 64;
}

impl TokenGen {
    /// The tokens held.
    pub closed spec fn tokens(&self) -> Set<int> {
        Set::new(|t: int| held(self.bitmap@, t))
    }

    /// The number of words of the bitmap.
    pub closed spec fn words(&self) -> nat {
        self.bitmap@.len()
    }

    /// The last word is never empty, so the bitmap is no longer than the
    /// largest held token needs.
    pub closed spec fn wf(&self) -> bool {
        self.bitmap@.len() == 0 || self.bitmap@.last() != 0
    }

    /// A generator that holds no token.
    pub fn new() -> (r: TokenGen)
        ensures
            r.wf(),
            r.tokens() == Set::<int>::empty(),
            r.words() == 0,
    {
        let r = TokenGen { bitmap: Vec::new() };
        assert(r.tokens() =~= Set::<int>::empty());
        r
    }

    /// Takes the smallest token not held.
    pub fn acquire(&mut self) -> (r: u32)
        requires
            old(self).wf(),
            old(self).words() < 0x3ff_ffff,
        ensures
            final(self).wf(),
            !old(self).tokens().contains(r as int),
            forall|t: int| 0 <= t < r ==> old(self).tokens().contains(t),
            final(self).tokens() == old(self).tokens().insert(r as int),
            final(self).words() == (if (r as int) / 64 < old(self).words() {
                old(self).words()
            } else {
                old(self).words() + 1
            }),
    {
        let mut i: usize = 0;
        while i < self.bitmap.len()
            invariant
                i <= self.bitmap@.len(),
                self.bitmap@ == old(self).bitmap@,
                self.bitmap@.len() < 0x3ff_ffff,
                old(self).wf(),
                forall|j: int| 0 <= j < i ==> self.bitmap@[j] == 0xffff_ffff_ffff_ffffu64,
            decreases self.bitmap@.len() - i,
        {
            let v = self.bitmap[i];
            if v != u64::MAX {
                let next = v.trailing_ones() as u64;
                proof {
                    vstd::std_specs::bits::axiom_u64_trailing_ones(v);
                }
                let nv = v | (1u64 << next);
                self.bitmap.set(i, nv);
                let r = (next as u32) + (i as u32) * 64;
                proof {
                    let ob = old(self).bitmap@;
                    let nb = self.bitmap@;
                    assert(r as int / 64 == i && r as int % 64 == next);
                    lemma_word_bits(0);
                    assert forall|t: int| 0 <= t < r implies old(self).tokens().contains(t) by {
                        let w = t / 64;
                        let b = t % 64;
                        lemma_word_bits(b as u64);
                        if w >= i {
                            assert((v >> (b as u64)) & 1u64 == 1u64);
                        }
                    }
                    assert forall|t: int| #[trigger] held(nb, t) == (held(ob, t) || t == r) by {
                        if 0 <= t {
                            let w = t / 64;
                            let b = t % 64;
                            if w == i {
                                lemma_or_bit(v, next, b as u64);
                            }
                        }
                    }
                    assert(final(self).tokens() =~= old(self).tokens().insert(r as int));
                    if i == nb.len() - 1 {
                        lemma_or_bit(v, next, next);
                        lemma_word_bits(next);
                        assert(nb.last() == nv);
                        assert(nv != 0);
                    } else {
                        assert(nb.last() == ob.last());
                    }
                    assert(nb.last() != 0);
                }
                return r;
            }
            i = i + 1;
        }
        let r = (self.bitmap.len() as u32) * 64;
        self.bitmap.push(1u64);
        proof {
            let ob = old(self).bitmap@;
            let nb = self.bitmap@;
            assert(r as int / 64 == ob.len() && r as int % 64 == 0);
            assert forall|t: int| 0 <= t < r implies old(self).tokens().contains(t) by {
                lemma_word_bits((t % 64) as u64);
            }
            assert forall|t: int| #[trigger] held(nb, t) == (held(ob, t) || t == r) by {
                if 0 <= t {
                    lemma_word_bits((t % 64) as u64);
                    if t / 64 < ob.len() {
                        assert(nb[t / 64] == ob[t / 64]);
                    }
                }
            }
            assert(final(self).tokens() =~= old(self).tokens().insert(r as int));
        }
        r
    }

    /// Gives `token` back.
    pub fn release(&mut self, token: u32)
        requires
            old(self).wf(),
            (token as int) / 64 < old(self).words(),
        ensures
            final(self).wf(),
            final(self).tokens() == old(self).tokens().remove(token as int),
            final(self).words() <= old(self).words(),
    {
        let i = (token / 64) as usize;
        let o = token % 64;
        let v = self.bitmap[i];
        self.bitmap.set(i, v & !(1u64 << o));
        proof {
            let ob = old(self).bitmap@;
            let nb = self.bitmap@;
            assert forall|t: int| #[trigger] held(nb, t) == (held(ob, t) && t != token) by {
                if 0 <= t {
                    if t / 64 == i {
                        lemma_clear_bit(v, o as u64, (t % 64) as u64);
                    }
                }
            }
        }
        let ghost cleared = self.bitmap@;
        loop
            invariant
                forall|t: int| #[trigger] held(self.bitmap@, t) == held(cleared, t),
                self.bitmap@.len() <= old(self).bitmap@.len(),
            ensures
                self.bitmap@.len() == 0 || self.bitmap@.last() != 0,
                forall|t: int| #[trigger] held(self.bitmap@, t) == held(cleared, t),
                self.bitmap@.len() <= old(self).bitmap@.len(),
            decreases self.bitmap@.len(),
        {
            let n = self.bitmap.len();
            if n > 0 && self.bitmap[n - 1] == 0 {
                let ghost before = self.bitmap@;
                self.bitmap.pop();
                proof {
                    assert forall|t: int| #[trigger] held(self.bitmap@, t) == held(before, t) by {
                        if 0 <= t && t / 64 == n - 1 {
                            lemma_word_bits((t % 64) as u64);
                        } else if 0 <= t && t / 64 < n - 1 {
                            assert(self.bitmap@[t / 64] == before[t / 64]);
                        }
                    }
                }
            } else {
                break;
            }
        }
        assert(final(self).tokens() =~= old(self).tokens().remove(token as int));
    }

    /// The number of words of the bitmap.
    pub fn len(&self) -> (r: usize)
        ensures
            r == self.words(),
    {
        self.bitmap.len()
    }
}

} // verus!
