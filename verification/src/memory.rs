use vstd::prelude::*;

verus! {

/// The number of bytes a word takes in memory (the width of a 64-bit
/// `usize`).
pub const WORD_SIZE: usize = 8;

/// The alignments that an allocator handing out memory on word boundaries
/// can honour: those that divide the word size.
pub open spec fn supported_align(align: int) -> bool {
    align > 0 && 8int % align == 0
}

/// `256` to the power `n`.
pub open spec fn pow256(n: nat) -> nat
    decreases n,
{
    if n == 0 {
        1
    } else {
        256 * pow256((n - 1) as nat)
    }
}

/// The number that bytes stand for, least significant byte first.
pub open spec fn le_value(s: Seq<u8>) -> nat
    decreases s.len(),
{
    if s.len() == 0 {
        0
    } else {
        s[0] as nat + 256 * le_value(s.drop_first())
    }
}

/// Byte `k` of `w`, least significant first.
pub open spec fn byte_of(w: nat, k: nat) -> u8 {
    ((w / pow256(k)) % 256) as u8
}

/// The `n` bytes of `w`, least significant first.
pub open spec fn le_bytes(w: nat, n: nat) -> Seq<u8> {
    Seq::new(n, |k: int| byte_of(w, k as nat))
}

/// `bytes` with the word `w` stored at `addr`.
pub open spec fn with_word(bytes: Seq<u8>, addr: int, w: nat) -> Seq<u8> {
    Seq::new(bytes.len(), |j: int| if addr <= j < addr + 8 { byte_of(w, (j - addr) as nat) } else { bytes[j] })
}

/// A flat, byte-addressed memory.
pub struct ByteMemory {
    pub bytes: Vec<u8>,
}

impl View for ByteMemory {
    type V = Seq<u8>;

    open spec fn view(&self) -> Seq<u8> {
        self.bytes@
    }
}

/// The word stored at byte address `addr`, least significant byte first.
pub closed spec fn word_in(bytes: Seq<u8>, addr: int) -> nat {
    le_value(bytes.subrange(addr, addr + 8))
}

/// Reading and writing machine words at byte addresses.
pub trait WriteAndReadWords {
    /// A whole word can be read and written at `addr`.
    spec fn holds_word(&self, addr: int) -> bool;

    /// The word stored at `addr`.
    spec fn word_at(&self, addr: int) -> usize;

    /// Stores `word` at `addr`; the words that do not overlap it keep
    /// their values.
    fn write_word(&mut self, addr: usize, word: usize)
        requires
            old(self).holds_word(addr as int),
        ensures
            final(self).word_at(addr as int) == word,
            forall|b: int| #[trigger] final(self).holds_word(b) == old(self).holds_word(b),
            forall|b: int|
                old(self).holds_word(b) && (b + 8 <= addr || addr + 8 <= b) ==> #[trigger] final(self).word_at(b)
                    == old(self).word_at(b),
    ;

    /// The word stored at `addr`.
    fn read_word(&self, addr: usize) -> (w: usize)
        requires
            self.holds_word(addr as int),
        ensures
            w == self.word_at(addr as int),
    ;
}

/// `le_value` of `n` bytes is below `256^n`.
pub proof fn lemma_le_value_bound(s: Seq<u8>)
    ensures
        le_value(s) < pow256(s.len()),
    decreases s.len(),
{
    if s.len() > 0 {
        lemma_le_value_bound(s.drop_first());
    }
}

/// Appending a byte adds it at the highest place.
pub proof fn lemma_le_value_push(s: Seq<u8>, b: u8)
    ensures
        le_value(s.push(b)) == le_value(s) + pow256(s.len()) * b,
    decreases s.len(),
{
    if s.len() == 0 {
        assert(s.push(b).drop_first() =~= Seq::<u8>::empty());
        assert(s.push(b)[0] == b);
        assert(le_value(Seq::<u8>::empty()) == 0);
        assert(pow256(0) == 1);
    } else {
        assert(s.push(b).drop_first() =~= s.drop_first().push(b));
        assert(s.push(b)[0] == s[0]);
        lemma_le_value_push(s.drop_first(), b);
        assert(256 * (pow256((s.len() - 1) as nat) * b) == pow256(s.len()) * b) by (nonlinear_arith)
            requires
                pow256(s.len()) == 256 * pow256((s.len() - 1) as nat),
        ;
    }
}

/// Eight bytes span exactly the values of a 64-bit word: 256 to the 8th
/// is 2 to the 64th.
pub proof fn lemma_pow256_8()
    ensures
        pow256(8) == 0x1_0000_0000_0000_0000,
        pow256(7) == 0x100_0000_0000_0000,
{
    reveal_with_fuel(pow256, 9);
}

impl WriteAndReadWords for ByteMemory {
    open spec fn holds_word(&self, addr: int) -> bool {
        0 <= addr && addr + 8 <= self.bytes@.len()
    }

    open spec fn word_at(&self, addr: int) -> usize {
        word_in(self.bytes@, addr) as usize
    }

    fn write_word(&mut self, addr: usize, word: usize)
        ensures
            final(self)@ == with_word(old(self)@, addr as int, word as nat),
    {
        let ghost old_bytes = self.bytes@;
        let mut rest: u64 = word as u64;
        let mut i: usize = 0;
        proof {
            lemma_pow256_8();
            assert(pow256(0) == 1);
            assert(self.bytes@.subrange(addr as int, addr as int) =~= Seq::<u8>::empty());
            assert(le_value(Seq::<u8>::empty()) == 0);
        }
        while i < 8
            invariant
                0 <= i <= 8,
                addr + 8 <= self.bytes.len(),
                self.bytes@.len() == old_bytes.len(),
                forall|j: int| 0 <= j < self.bytes@.len() && !(addr <= j < addr + i) ==> self.bytes@[j]
                    == old_bytes[j],
                rest * pow256(i as nat) + le_value(self.bytes@.subrange(addr as int, addr + i))
                    == word,
                rest < pow256((8 - i) as nat),
                rest == word as nat / pow256(i as nat),
                forall|j: int| addr <= j < addr + i ==> self.bytes@[j] == byte_of(word as nat, (j - addr) as nat),
                pow256(8) == 0x1_0000_0000_0000_0000,
            decreases 8 - i,
        {
            let byte: u8 = #[verifier::truncate] ((rest & 0xff) as u8);
            let ghost prefix = self.bytes@.subrange(addr as int, addr + i);
            self.bytes.set(addr + i, byte);
            proof {
                assert(self.bytes@.subrange(addr as int, addr + i + 1) =~= prefix.push(byte));
                lemma_le_value_push(prefix, byte);
                assert(rest & 0xff == rest % 256) by (bit_vector);
                assert(rest >> 8 == rest / 256) by (bit_vector);
                let p = pow256(i as nat);
                assert(pow256((i + 1) as nat) == 256 * p);
                assert(pow256((8 - i) as nat) == 256 * pow256((8 - i - 1) as nat));
                assert((rest / 256) * (256 * p) + (le_value(prefix) + p * (rest % 256)) == rest * p
                    + le_value(prefix)) by (nonlinear_arith)
                    requires
                        p >= 0,
                        rest >= 0,
                ;
                lemma_pow256_positive(i as nat);
                vstd::arithmetic::div_mod::lemma_div_denominator(word as int, p as int, 256);
                assert(p * 256 == 256 * p);
                assert(rest / 256 < pow256((8 - i - 1) as nat)) by (nonlinear_arith)
                    requires
                        rest < 256 * pow256((8 - i - 1) as nat),
                ;
            }
            rest = rest >> 8;
            i = i + 1;
        }
        proof {
            assert(pow256(0) == 1);
            assert(rest == 0);
            assert(i == 8);
            assert(rest * pow256(i as nat) == 0) by (nonlinear_arith)
                requires
                    rest == 0,
            ;
            assert(le_value(self.bytes@.subrange(addr as int, addr + 8)) == word);
            assert(word_in(self.bytes@, addr as int) == word);
            assert(self.bytes@ =~= with_word(old_bytes, addr as int, word as nat));
            assert(self.bytes@.subrange(addr as int, addr + 8) == self.bytes@.subrange(
                addr as int,
                addr + i,
            ));
            assert forall|b: int|
                old_bytes.len() >= b + 8 && 0 <= b && (b + 8 <= addr || addr + 8 <= b) implies #[trigger] word_in(
                self.bytes@, b) == word_in(old_bytes, b) by {
                assert(self.bytes@.subrange(b, b + 8) =~= old_bytes.subrange(b, b + 8));
            }
        }
    }

    fn read_word(&self, addr: usize) -> (w: usize) {
        let mut read: u64 = 0;
        let mut i: usize = 8;
        proof {
            lemma_pow256_8();
        }
        while i > 0
            invariant
                0 <= i <= 8,
                addr + 8 <= self.bytes.len(),
                read == le_value(self.bytes@.subrange(addr + i, addr + 8)),
                pow256(7) == 0x100_0000_0000_0000,
            decreases i,
        {
            let ghost tail = self.bytes@.subrange(addr + i, addr + 8);
            let b: u8 = self.bytes[addr + i - 1];
            proof {
                lemma_le_value_bound(tail);
                assert(tail.len() <= 7 ==> pow256(tail.len()) <= pow256(7)) by {
                    lemma_pow256_monotone(tail.len(), 7);
                }
                assert(i >= 1);
                assert(read < 0x100_0000_0000_0000) by {
                    lemma_pow256_monotone(tail.len(), 7);
                }
                assert((read << 8) | (b as u64) == read * 256 + b) by (bit_vector)
                    requires
                        read < 0x100_0000_0000_0000,
                ;
                let s = self.bytes@.subrange(addr + i - 1, addr + 8);
                assert(s.drop_first() =~= tail);
                assert(s[0] == b);
            }
            read = (read << 8) | (b as u64);
            i = i - 1;
        }
        proof {
            lemma_le_value_bound(self.bytes@.subrange(addr as int, addr + 8));
        }
        #[verifier::truncate]
        (read as usize)
    }
}

/// `256^n` is positive.
pub proof fn lemma_pow256_positive(n: nat)
    ensures
        pow256(n) > 0,
    decreases n,
{
    if n > 0 {
        lemma_pow256_positive((n - 1) as nat);
    }
}

/// `256^n` grows with `n`.
pub proof fn lemma_pow256_monotone(a: nat, b: nat)
    requires
        a <= b,
    ensures
        pow256(a) <= pow256(b),
    decreases b,
{
    if a < b {
        lemma_pow256_monotone(a, (b - 1) as nat);
    }
}

} // verus!

verus! {

/// The value of the first `n` bytes of `w` is `w` modulo `256^n`.
pub proof fn lemma_le_bytes_value(w: nat, n: nat)
    ensures
        le_value(le_bytes(w, n)) == w % pow256(n),
    decreases n,
{
    lemma_pow256_positive(n);
    if n == 0 {
        assert(le_bytes(w, 0) =~= Seq::<u8>::empty());
    } else {
        let s = le_bytes(w, n);
        let t = le_bytes(w / 256, (n - 1) as nat);
        assert forall|k: int| 0 <= k < t.len() implies #[trigger] s.drop_first()[k] == t[k] by {
            lemma_pow256_positive(k as nat);
            vstd::arithmetic::div_mod::lemma_div_denominator(w as int, 256, pow256(k as nat) as int);
            assert(pow256((k + 1) as nat) == 256 * pow256(k as nat));
        }
        assert(s.drop_first() =~= t);
        lemma_le_bytes_value(w / 256, (n - 1) as nat);
        lemma_pow256_positive((n - 1) as nat);
        vstd::arithmetic::div_mod::lemma_mod_breakdown(w as int, 256, pow256((n - 1) as nat) as int);
        assert(s[0] == w % 256) by {
            assert(pow256(0) == 1);
        }
    }
}

/// Reading a word back gives what was written, and words that do not
/// overlap it are untouched.
pub proof fn law_word_round_trip(bytes: Seq<u8>, addr: int, w: usize)
    requires
        0 <= addr,
        addr + 8 <= bytes.len(),
    ensures
        word_in(with_word(bytes, addr, w as nat), addr) == w,
        forall|b: int|
            0 <= b && b + 8 <= bytes.len() && (b + 8 <= addr || addr + 8 <= b) ==> #[trigger] word_in(
                with_word(bytes, addr, w as nat),
                b,
            ) == word_in(bytes, b),
        with_word(bytes, addr, w as nat).len() == bytes.len(),
{
    let m = with_word(bytes, addr, w as nat);
    assert(m.subrange(addr, addr + 8) =~= le_bytes(w as nat, 8));
    lemma_le_bytes_value(w as nat, 8);
    lemma_pow256_8();
    assert forall|b: int|
        0 <= b && b + 8 <= bytes.len() && (b + 8 <= addr || addr + 8 <= b) implies #[trigger] word_in(m, b)
        == word_in(bytes, b) by {
        assert(m.subrange(b, b + 8) =~= bytes.subrange(b, b + 8));
    }
}

} // verus!
