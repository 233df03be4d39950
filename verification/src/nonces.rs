//! Used nonces, kept as a bitmap in the permit2 scheme: the first 31 bytes
//! of a nonce select a 256-bit word and the last byte a bit in it.

use vstd::prelude::*;

use crate::errors::DefuseError;
use crate::map::{KeyEq, LinearMap};

verus! {

/// A 256-bit nonce, big-endian.
pub type Nonce = [u8; 32];

/// The first 31 bytes of a nonce.
#[derive(Debug)]
pub struct WordPosition {
    bytes: Vec<u8>,
}

impl View for WordPosition {
    type V = Seq<u8>;

    closed spec fn view(&self) -> Seq<u8> {
        self.bytes@
    }
}

impl KeyEq for WordPosition {
    fn key_eq(&self, other: &Self) -> (r: bool) {
        if self.bytes.len() != other.bytes.len() {
            return false;
        }
        let mut i: usize = 0;
        while i < self.bytes.len()
            invariant
                self.bytes@.len() == other.bytes@.len(),
                i <= self.bytes@.len(),
                forall|j: int| 0 <= j < i ==> self.bytes@[j] == other.bytes@[j],
            decreases self.bytes@.len() - i,
        {
            if self.bytes[i] != other.bytes[i] {
                return false;
            }
            i = i + 1;
        }
        assert(self.bytes@ =~= other.bytes@);
        true
    }
}

/// 256 bits: bit `i` is bit `i` of `lo` for `i < 128`, else bit `i - 128` of `hi`.
#[derive(PartialEq, Eq, Structural, Clone, Copy, Debug)]
pub struct Word {
    lo: u128,
    hi: u128,
}

impl View for Word {
    type V = (u128, u128);

    closed spec fn view(&self) -> (u128, u128) {
        (self.lo, self.hi)
    }
}

pub open spec fn u128_bit(x: u128, i: u128) -> bool {
    (x >> i) & 1 == 1
}

pub open spec fn word_bit(w: (u128, u128), i: u8) -> bool {
    if i < 128 {
        u128_bit(w.0, i as u128)
    } else {
        u128_bit(w.1, (i - 128) as u128)
    }
}

proof fn lemma_set_u128_bit(x: u128, b: u128, c: u128)
    requires
        b < 128,
        c < 128,
    ensures
        u128_bit(x | (1u128 << b), c) == (c == b || u128_bit(x, c)),
{
    assert(((x | (1u128 << b)) >> c) & 1 == 1 <==> (c == b || (x >> c) & 1 == 1)) by (bit_vector)
        requires
            b < 128,
            c < 128,
    ;
}

proof fn lemma_zero_bits(c: u128)
    requires
        c < 128,
    ensures
        !u128_bit(0, c),
{
    assert((0u128 >> c) & 1 != 1) by (bit_vector);
}

/// The word that holds nonce `n`'s bit.
pub open spec fn spec_word_position(n: Seq<u8>) -> Seq<u8> {
    n.subrange(0, 31)
}

/// The nonces that the words mark as used.
pub open spec fn used_nonces(words: Map<Seq<u8>, (u128, u128)>) -> Set<Seq<u8>> {
    Set::new(|n: Seq<u8>| n.len() == 32 && words.dom().contains(spec_word_position(n))
        && word_bit(words[spec_word_position(n)], n[31]))
}

/// The nonces that an account has used.
#[derive(Debug)]
pub struct Nonces {
    words: LinearMap<WordPosition, Word>,
}

impl View for Nonces {
    type V = Set<Seq<u8>>;

    closed spec fn view(&self) -> Set<Seq<u8>> {
        used_nonces(self.words@)
    }
}

fn word_position(n: &Nonce) -> (p: WordPosition)
    ensures
        p@ == spec_word_position(n@),
{
    let mut bytes: Vec<u8> = Vec::new();
    let mut i: usize = 0;
    while i < 31
        invariant
            i <= 31,
            n@.len() == 32,
            bytes@ =~= n@.subrange(0, i as int),
        decreases 31 - i,
    {
        bytes.push(n[i]);
        i = i + 1;
    }
    WordPosition { bytes }
}

fn get_bit(w: Word, i: u8) -> (b: bool)
    ensures
        b == word_bit(w@, i),
{
    if i < 128 {
        (w.lo >> (i as u32)) & 1 == 1
    } else {
        (w.hi >> ((i - 128) as u32)) & 1 == 1
    }
}

fn set_bit(w: Word, i: u8) -> (r: Word)
    ensures
        forall|j: u8| #[trigger] word_bit(r@, j) == (j == i || word_bit(w@, j)),
{
    let r = if i < 128 {
        Word { lo: w.lo | (1u128 << (i as u32)), hi: w.hi }
    } else {
        Word { lo: w.lo, hi: w.hi | (1u128 << ((i - 128) as u32)) }
    };
    proof {
        assert forall|j: u8| #[trigger] word_bit(r@, j) == (j == i || word_bit(w@, j)) by {
            if i < 128 && j < 128 {
                lemma_set_u128_bit(w.lo, i as u128, j as u128);
            } else if i >= 128 && j >= 128 {
                lemma_set_u128_bit(w.hi, (i - 128) as u128, (j - 128) as u128);
            }
        }
    }
    r
}

impl Nonces {
    pub closed spec fn wf(&self) -> bool {
        self.words.wf()
    }

    pub fn new() -> (r: Self)
        ensures
            r.wf(),
            r@ == Set::<Seq<u8>>::empty(),
    {
        let r = Nonces { words: LinearMap::new() };
        assert(r@ =~= Set::<Seq<u8>>::empty());
        r
    }

    pub fn is_used(&self, n: &Nonce) -> (b: bool)
        requires
            self.wf(),
        ensures
            b == self@.contains(n@),
    {
        let p = word_position(n);
        match self.words.get(&p) {
            Some(w) => get_bit(*w, n[31]),
            None => false,
        }
    }

    /// Marks `n` as used; fails with `NonceUsed`, changing nothing, where it
    /// was used before.
    pub fn commit(&mut self, n: &Nonce) -> (r: Result<(), DefuseError>)
        requires
            old(self).wf(),
        ensures
            final(self).wf(),
            r is Ok <==> !old(self)@.contains(n@),
            r is Ok ==> final(self)@ == old(self)@.insert(n@),
            r matches Err(e) ==> e == DefuseError::NonceUsed && final(self)@ == old(self)@,
    {
        let p = word_position(n);
        let w = match self.words.get(&p) {
            Some(w) => *w,
            None => {
                proof {
                    assert forall|j: u8| !#[trigger] word_bit((0u128, 0u128), j) by {
                        if j < 128 {
                            lemma_zero_bits(j as u128);
                        } else {
                            lemma_zero_bits((j - 128) as u128);
                        }
                    }
                }
                Word { lo: 0, hi: 0 }
            },
        };
        if get_bit(w, n[31]) {
            return Err(DefuseError::NonceUsed);
        }
        let ghost old_words = self.words@;
        let nw = set_bit(w, n[31]);
        self.words.insert(p, nw);
        proof {
            let key = spec_word_position(n@);
            assert forall|m: Seq<u8>| #[trigger] self@.contains(m) <==> (old(self)@.contains(m) || m == n@) by {
                if m.len() == 32 && spec_word_position(m) == key {
                    assert(word_bit(nw@, m[31]) == (m[31] == n[31] || word_bit(w@, m[31])));
                    if m[31] == n[31] {
                        assert forall|i: int| 0 <= i < 31 implies m[i] == n@[i] by {
                            assert(m[i] == spec_word_position(m)[i]);
                            assert(n@[i] == spec_word_position(n@)[i]);
                        }
                        assert(m =~= n@);
                    }
                }
            }
            assert(self@ =~= old(self)@.insert(n@));
        }
        Ok(())
    }
}

} // verus!
