use vstd::arithmetic::power2::{lemma2_to64, lemma_pow2_unfold, pow2};
use vstd::bits::lemma_u64_shr_is_div;
use vstd::prelude::*;

verus! {

/// `2^n` as a natural number.
pub open spec fn two_pow(n: nat) -> nat
    decreases n,
{
    if n == 0 {
        1
    } else {
        2 * two_pow((n - 1) as nat)
    }
}

/// The unsigned value of a bit string, most significant bit first.
pub open spec fn value_of(s: Seq<bool>) -> nat
    decreases s.len(),
{
    if s.len() == 0 {
        0
    } else {
        2 * value_of(s.drop_last()) + (if s.last() { 1nat } else { 0nat })
    }
}

/// The low `n` bits of `v`, most significant bit first.
pub open spec fn bits_of_value(v: nat, n: nat) -> Seq<bool>
    decreases n,
{
    if n == 0 {
        Seq::empty()
    } else {
        bits_of_value(v / 2, (n - 1) as nat).push(v % 2 == 1)
    }
}

/// `n` zero bits.
pub open spec fn zeros(n: nat) -> Seq<bool> {
    Seq::new(n, |i: int| false)
}

pub proof fn lemma_two_pow_is_pow2(n: nat)
    ensures
        two_pow(n) == pow2(n),
    decreases n,
{
    if n > 0 {
        lemma_two_pow_is_pow2((n - 1) as nat);
        lemma_pow2_unfold(n);
    } else {
        lemma2_to64();
    }
}

pub proof fn lemma_two_pow_64()
    ensures
        two_pow(64) == 0x1_0000_0000_0000_0000,
{
    lemma_two_pow_is_pow2(64);
    lemma2_to64();
}

pub proof fn lemma_two_pow_positive(n: nat)
    ensures
        two_pow(n) >= 1,
    decreases n,
{
    if n > 0 {
        lemma_two_pow_positive((n - 1) as nat);
    }
}

pub proof fn lemma_two_pow_mono(a: nat, b: nat)
    requires
        a <= b,
    ensures
        two_pow(a) <= two_pow(b),
    decreases b,
{
    if a < b {
        lemma_two_pow_mono(a, (b - 1) as nat);
    }
}

pub proof fn lemma_bits_of_value_len(v: nat, n: nat)
    ensures
        bits_of_value(v, n).len() == n,
    decreases n,
{
    if n > 0 {
        lemma_bits_of_value_len(v / 2, (n - 1) as nat);
    }
}

pub proof fn lemma_value_bound(s: Seq<bool>)
    ensures
        value_of(s) < two_pow(s.len()),
    decreases s.len(),
{
    if s.len() > 0 {
        lemma_value_bound(s.drop_last());
    }
}

/// Reading back the low `n` bits of a value that fits in `n` bits gives the value.
pub proof fn lemma_value_of_bits(v: nat, n: nat)
    requires
        v < two_pow(n),
    ensures
        value_of(bits_of_value(v, n)) == v,
    decreases n,
{
    if n > 0 {
        lemma_value_of_bits(v / 2, (n - 1) as nat);
        let s = bits_of_value(v, n);
        assert(s.drop_last() =~= bits_of_value(v / 2, (n - 1) as nat));
    }
}

/// Writing the value of a bit string in as many bits gives the string back.
pub proof fn lemma_bits_of_value_of(s: Seq<bool>)
    ensures
        bits_of_value(value_of(s), s.len()) == s,
    decreases s.len(),
{
    if s.len() > 0 {
        let d = s.drop_last();
        lemma_bits_of_value_of(d);
        let v = value_of(s);
        assert(v / 2 == value_of(d));
        assert(bits_of_value(v, s.len()) =~= s);
    }
}

/// Errors of the bit cursor.
#[derive(Debug, Clone, Copy, PartialEq, Eq, Structural)]
pub enum BitError {
    /// Fewer bits remain than were asked for.
    OutOfData,
    /// A value does not fit in the number of bits it was to be written in.
    ValueTooWide,
}

/// A reading cursor over a bit string.
pub struct BitReader {
    bits: Vec<bool>,
    pos: usize,
}

impl BitReader {
    /// The bits that have not been read yet.
    pub closed spec fn remaining(&self) -> Seq<bool> {
        self.bits@.skip(self.pos as int)
    }

    pub closed spec fn wf(&self) -> bool {
        self.pos <= self.bits@.len()
    }

    /// The whole string, read or not.
    pub closed spec fn data(&self) -> Seq<bool> {
        self.bits@
    }

    /// The number of bits read so far.
    pub closed spec fn position(&self) -> int {
        self.pos as int
    }

    pub fn new(bits: Vec<bool>) -> (r: BitReader)
        ensures
            r.wf(),
            r.remaining() == bits@,
    {
        let r = BitReader { bits, pos: 0 };
        assert(r.bits@.skip(0) =~= r.bits@);
        r
    }

    pub fn copy(&self) -> (r: BitReader)
        requires
            self.wf(),
        ensures
            r.wf(),
            r.data() == self.data(),
            r.position() == self.position(),
            r.remaining() == self.remaining(),
    {
        BitReader { bits: self.bits.clone(), pos: self.pos }
    }

    pub fn available(&self) -> (r: usize)
        requires
            self.wf(),
        ensures
            r == self.remaining().len(),
    {
        self.bits.len() - self.pos
    }

    pub fn read_bit(&mut self) -> (r: Result<bool, BitError>)
        requires
            old(self).wf(),
        ensures
            final(self).wf(),
            match r {
                Ok(b) => old(self).remaining().len() >= 1 && b == old(self).remaining()[0]
                    && final(self).remaining() == old(self).remaining().skip(1),
                Err(e) => e == BitError::OutOfData && old(self).remaining().len() == 0
                    && final(self).remaining() == old(self).remaining(),
            },
    {
        if self.pos >= self.bits.len() {
            return Err(BitError::OutOfData);
        }
        let b = self.bits[self.pos];
        self.pos = self.pos + 1;
        assert(self.bits@.skip(self.pos as int) =~= old(self).remaining().skip(1));
        Ok(b)
    }

    /// Reads the next `n` bits as an unsigned integer, most significant bit first.
    pub fn read_bits(&mut self, n: usize) -> (r: Result<u64, BitError>)
        requires
            old(self).wf(),
            n <= 64,
        ensures
            final(self).wf(),
            match r {
                Ok(v) => n <= old(self).remaining().len()
                    && v == value_of(old(self).remaining().take(n as int))
                    && final(self).remaining() == old(self).remaining().skip(n as int),
                Err(e) => e == BitError::OutOfData && n > old(self).remaining().len()
                    && final(self).remaining() == old(self).remaining(),
            },
    {
        if n > self.bits.len() - self.pos {
            return Err(BitError::OutOfData);
        }
        let ghost start = self.pos as int;
        let ghost rem = self.remaining();
        let mut v: u64 = 0;
        let mut i: usize = 0;
        while i < n
            invariant
                self.wf(),
                self.bits@ == old(self).bits@,
                start == old(self).pos,
                rem == old(self).remaining(),
                self.pos == start + i,
                i <= n,
                n <= 64,
                start + n <= self.bits@.len(),
                self.bits@.len() <= usize::MAX,
                v == value_of(rem.take(i as int)),
                v < two_pow(i as nat),
            decreases n - i,
        {
            let b = self.bits[self.pos];
            proof {
                assert(rem.take(i + 1).drop_last() =~= rem.take(i as int));
                assert(rem[i as int] == b);
                lemma_two_pow_mono((i + 1) as nat, 64);
                lemma_two_pow_64();
            }
            v = v * 2 + if b { 1 } else { 0 };
            self.pos = self.pos + 1;
            i = i + 1;
        }
        assert(self.remaining() =~= rem.skip(n as int));
        Ok(v)
    }

    /// Skips to the next byte boundary, counted from the start of the string.
    pub fn align_to_byte(&mut self)
        requires
            old(self).wf(),
        ensures
            final(self).wf(),
            final(self).data() == old(self).data(),
            final(self).remaining() == old(self).data().skip(final(self).position()),
            final(self).position() == if old(self).position() % 8 == 0 {
                old(self).position()
            } else {
                vstd::math::min(
                    old(self).position() - old(self).position() % 8 + 8,
                    old(self).data().len() as int,
                )
            },
    {
        if self.pos % 8 != 0 {
            let step = 8 - self.pos % 8;
            let left = self.bits.len() - self.pos;
            self.pos = if step <= left { self.pos + step } else { self.bits.len() };
        }
    }
}

/// A writing cursor that appends to a bit string.
pub struct BitWriter {
    bits: Vec<bool>,
}

impl BitWriter {
    pub closed spec fn written(&self) -> Seq<bool> {
        self.bits@
    }

    pub fn new() -> (r: BitWriter)
        ensures
            r.written() == Seq::<bool>::empty(),
    {
        BitWriter { bits: Vec::new() }
    }

    pub fn len(&self) -> (r: usize)
        ensures
            r == self.written().len(),
    {
        self.bits.len()
    }

    pub fn write_bit(&mut self, b: bool)
        ensures
            final(self).written() == old(self).written().push(b),
    {
        self.bits.push(b);
    }

    /// Appends the low `n` bits of `v`, most significant bit first.
    pub fn write_bits_unchecked(&mut self, v: u64, n: usize)
        ensures
            final(self).written() == old(self).written() + bits_of_value(v as nat, n as nat),
        decreases n,
    {
        if n == 0 {
            assert(old(self).written() + Seq::<bool>::empty() =~= old(self).written());
        } else {
            self.write_bits_unchecked(v / 2, n - 1);
            self.bits.push(v % 2 == 1);
            assert(self.written() =~= old(self).written() + bits_of_value(v as nat, n as nat));
        }
    }

    /// Appends `v` in `n` bits, or fails if `v` does not fit in `n` bits.
    pub fn write_bits(&mut self, v: u64, n: usize) -> (r: Result<(), BitError>)
        requires
            n <= 64,
        ensures
            match r {
                Ok(_) => v < two_pow(n as nat) && final(self).written() == old(self).written()
                    + bits_of_value(v as nat, n as nat),
                Err(e) => e == BitError::ValueTooWide && v >= two_pow(n as nat)
                    && final(self).written() == old(self).written(),
            },
    {
        proof {
            lemma_two_pow_mono(n as nat, 64);
            lemma_two_pow_64();
        }
        if n < 64 {
            let high: u64 = v >> (n as u64);
            proof {
                lemma_u64_shr_is_div(v, n as u64);
                lemma_two_pow_is_pow2(n as nat);
                lemma_two_pow_positive(n as nat);
                let p = two_pow(n as nat) as int;
                assert(p > 0 ==> ((v as int) / p == 0 <==> (v as int) < p)) by (nonlinear_arith);
            }
            if high != 0 {
                return Err(BitError::ValueTooWide);
            }
        }
        self.write_bits_unchecked(v, n);
        Ok(())
    }

    /// Pads with zero bits up to the next byte boundary.
    pub fn align_to_byte(&mut self)
        ensures
            final(self).written().len() % 8 == 0,
            final(self).written() == old(self).written() + zeros(
                (final(self).written().len() - old(self).written().len()) as nat,
            ),
            final(self).written().len() - old(self).written().len() < 8,
    {
        let ghost start = self.bits@;
        let ghost target: int = if start.len() % 8 == 0 {
            start.len() as int
        } else {
            start.len() - start.len() % 8 + 8
        };
        while self.bits.len() % 8 != 0
            invariant
                start.len() <= self.bits@.len() <= target,
                target % 8 == 0,
                target - start.len() < 8,
                self.bits@ == start + zeros((self.bits@.len() - start.len()) as nat),
            decreases target - self.bits@.len(),
        {
            self.bits.push(false);
            assert(self.bits@ =~= start + zeros((self.bits@.len() - start.len()) as nat));
        }
    }

    pub fn into_bits(self) -> (r: Vec<bool>)
        ensures
            r@ == self.written(),
    {
        self.bits
    }
}

} // verus!

verus! {

/// The bits of a byte string, eight per byte, most significant first.
pub open spec fn bits_of_bytes(bs: Seq<u8>) -> Seq<bool>
    decreases bs.len(),
{
    if bs.len() == 0 {
        Seq::empty()
    } else {
        bits_of_bytes(bs.drop_last()) + bits_of_value(bs.last() as nat, 8)
    }
}

pub proof fn lemma_bits_of_bytes_len(bs: Seq<u8>)
    ensures
        bits_of_bytes(bs).len() == 8 * bs.len(),
    decreases bs.len(),
{
    if bs.len() > 0 {
        lemma_bits_of_bytes_len(bs.drop_last());
        lemma_bits_of_value_len(bs.last() as nat, 8);
    }
}

/// Unpacks bytes into bits.
pub fn unpack_bytes(bytes: &Vec<u8>) -> (r: Vec<bool>)
    ensures
        r@ == bits_of_bytes(bytes@),
{
    let mut w = BitWriter::new();
    let mut i: usize = 0;
    while i < bytes.len()
        invariant
            i <= bytes@.len(),
            w.written() == bits_of_bytes(bytes@.take(i as int)),
        decreases bytes@.len() - i,
    {
        w.write_bits_unchecked(bytes[i] as u64, 8);
        proof {
            let t = bytes@.take(i + 1);
            assert(t.drop_last() =~= bytes@.take(i as int));
        }
        i = i + 1;
    }
    assert(bytes@.take(bytes@.len() as int) =~= bytes@);
    w.into_bits()
}

/// Packs a bit string whose length is a multiple of eight into bytes.
pub fn pack_bits(bits: Vec<bool>) -> (r: Vec<u8>)
    requires
        bits@.len() % 8 == 0,
    ensures
        bits_of_bytes(r@) == bits@,
{
    let ghost all = bits@;
    let mut rd = BitReader::new(bits);
    let mut out: Vec<u8> = Vec::new();
    while rd.available() > 0
        invariant
            rd.wf(),
            all.len() % 8 == 0,
            bits_of_bytes(out@) + rd.remaining() == all,
            rd.remaining().len() % 8 == 0,
        decreases rd.remaining().len(),
    {
        let ghost before = rd.remaining();
        assert(before.len() >= 8);
        let v = rd.read_bits(8);
        match v {
            Ok(x) => {
                proof {
                    lemma_value_bound(before.take(8));
                    lemma_two_pow_is_pow2(8);
                    lemma2_to64();
                    lemma_bits_of_value_of(before.take(8));
                    let o2 = out@.push(x as u8);
                    assert(o2.drop_last() =~= out@);
                    assert(before.take(8) + before.skip(8) =~= before);
                    assert(bits_of_bytes(o2) + rd.remaining() =~= all);
                }
                out.push(x as u8);
            },
            Err(_) => {
                return out;
            },
        }
    }
    assert(rd.remaining().len() == 0);
    assert(bits_of_bytes(out@) =~= all);
    out
}

} // verus!

verus! {

/// Bytes are determined by their bits.
pub proof fn lemma_bits_of_bytes_injective(a: Seq<u8>, b: Seq<u8>)
    requires
        bits_of_bytes(a) == bits_of_bytes(b),
    ensures
        a == b,
    decreases a.len(),
{
    lemma_bits_of_bytes_len(a);
    lemma_bits_of_bytes_len(b);
    if a.len() > 0 {
        let (da, db) = (a.drop_last(), b.drop_last());
        lemma_bits_of_bytes_len(da);
        lemma_bits_of_bytes_len(db);
        let ba = bits_of_value(a.last() as nat, 8);
        let bb = bits_of_value(b.last() as nat, 8);
        lemma_bits_of_value_len(a.last() as nat, 8);
        lemma_bits_of_value_len(b.last() as nat, 8);
        let n = 8 * da.len();
        assert(bits_of_bytes(da) =~= bits_of_bytes(a).take(n as int));
        assert(bits_of_bytes(db) =~= bits_of_bytes(b).take(n as int));
        assert(ba =~= bits_of_bytes(a).skip(n as int));
        assert(bb =~= bits_of_bytes(b).skip(n as int));
        lemma_bits_of_bytes_injective(da, db);
        lemma_two_pow_is_pow2(8);
        lemma2_to64();
        lemma_value_of_bits(a.last() as nat, 8);
        lemma_value_of_bits(b.last() as nat, 8);
        assert(a =~= da.push(a.last()));
        assert(b =~= db.push(b.last()));
    } else {
        assert(a =~= b);
    }
}

} // verus!
