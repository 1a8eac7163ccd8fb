use crate::bits::{
    bits_of_bytes, bits_of_value, lemma_bits_of_value_len,
    lemma_two_pow_is_pow2, lemma_value_bound, lemma_value_of_bits, pack_bits, two_pow,
    unpack_bytes, value_of, zeros, BitReader, BitWriter,
};
use vstd::arithmetic::power2::lemma2_to64;
use vstd::prelude::*;

verus! {

/// The marker that opens every payload.
pub const RPU_PREFIX: u64 = 25;

/// The profile discriminator, which selects the layout of the variable part.
#[derive(Debug, Clone, Copy, PartialEq, Eq, Structural)]
pub enum Profile {
    P5,
    P7,
    P8,
}

/// The four edge offsets of the active picture area.
#[derive(Debug, Clone, Copy, PartialEq, Eq, Structural)]
pub struct ActiveArea {
    pub left: u16,
    pub right: u16,
    pub top: u16,
    pub bottom: u16,
}

/// One metadata element: a level tag and its values.
#[derive(Debug)]
pub struct MetadataBlock {
    pub level: u8,
    pub values: Vec<u16>,
}

/// A decoded metadata payload.
#[derive(Debug)]
pub struct RpuRecord {
    pub profile: Profile,
    pub compat_id: u8,
    /// Whether an enhancement layer is present; read for profile 7 only.
    pub el_present: bool,
    /// Non-linear quantization parameters, carried only with an enhancement layer.
    pub nlq: Vec<u16>,
    pub blocks: Vec<MetadataBlock>,
    pub active_area: ActiveArea,
    /// The checksum that was read, or that was last written.
    pub checksum: u32,
}

pub struct BlockView {
    pub level: u8,
    pub values: Seq<u16>,
}

pub struct RpuView {
    pub profile: Profile,
    pub compat_id: u8,
    pub el_present: bool,
    pub nlq: Seq<u16>,
    pub blocks: Seq<BlockView>,
    pub active_area: ActiveArea,
    pub checksum: u32,
}

impl View for MetadataBlock {
    type V = BlockView;

    open spec fn view(&self) -> BlockView {
        BlockView { level: self.level, values: self.values@ }
    }
}

pub open spec fn blocks_view(bs: Seq<MetadataBlock>) -> Seq<BlockView> {
    bs.map_values(|b: MetadataBlock| b@)
}

impl View for RpuRecord {
    type V = RpuView;

    open spec fn view(&self) -> RpuView {
        RpuView {
            profile: self.profile,
            compat_id: self.compat_id,
            el_present: self.el_present,
            nlq: self.nlq@,
            blocks: blocks_view(self.blocks@),
            active_area: self.active_area,
            checksum: self.checksum,
        }
    }
}

/// Reasons a payload fails to decode.
#[derive(Debug, Clone, Copy, PartialEq, Eq, Structural)]
pub enum DecodeError {
    /// A field claims more bits than remain.
    OutOfData,
    /// The payload does not open with the expected marker.
    BadPrefix,
    /// The profile discriminator is not one this format defines.
    UnknownProfile,
    /// A metadata element has a level tag with no defined layout.
    UnknownElement,
    /// Bits other than zero padding follow the last field.
    TrailingData,
    /// The payload does not end with the stop byte.
    BadTerminator,
    /// The stored checksum does not match the bits that precede it.
    ChecksumMismatch,
}

// ---------------------------------------------------------------------------
// The layout
// ---------------------------------------------------------------------------

pub open spec fn profile_from_code(c: nat) -> Option<Profile> {
    if c == 5 {
        Some(Profile::P5)
    } else if c == 7 {
        Some(Profile::P7)
    } else if c == 8 {
        Some(Profile::P8)
    } else {
        None
    }
}

pub open spec fn profile_code(p: Profile) -> nat {
    match p {
        Profile::P5 => 5,
        Profile::P7 => 7,
        Profile::P8 => 8,
    }
}

/// Number of values and width in bits of each value, for each defined level.
pub open spec fn element_layout(level: u8) -> Option<(nat, nat)> {
    if level == 1 {
        Some((3, 12))
    } else if level == 2 {
        Some((6, 12))
    } else if level == 4 {
        Some((2, 12))
    } else if level == 6 {
        Some((4, 16))
    } else {
        None
    }
}

/// The next `n` bits as a value, and what follows them.
pub open spec fn take_bits(s: Seq<bool>, n: nat) -> Option<(nat, Seq<bool>)> {
    if n <= s.len() {
        Some((value_of(s.take(n as int)), s.skip(n as int)))
    } else {
        None
    }
}

pub open spec fn parse_values(s: Seq<bool>, count: nat, width: nat) -> Result<
    (Seq<u16>, Seq<bool>),
    DecodeError,
>
    decreases count,
{
    if count == 0 {
        Ok((Seq::empty(), s))
    } else {
        match take_bits(s, width) {
            None => Err(DecodeError::OutOfData),
            Some((v, rest)) => match parse_values(rest, (count - 1) as nat, width) {
                Err(e) => Err(e),
                Ok((vs, rest2)) => Ok((seq![v as u16] + vs, rest2)),
            },
        }
    }
}

pub open spec fn parse_block(s: Seq<bool>) -> Result<(BlockView, Seq<bool>), DecodeError> {
    match take_bits(s, 8) {
        None => Err(DecodeError::OutOfData),
        Some((level, rest)) => match element_layout(level as u8) {
            None => Err(DecodeError::UnknownElement),
            Some((count, width)) => match parse_values(rest, count, width) {
                Err(e) => Err(e),
                Ok((vs, rest2)) => Ok((BlockView { level: level as u8, values: vs }, rest2)),
            },
        },
    }
}

pub open spec fn parse_blocks(s: Seq<bool>, count: nat) -> Result<
    (Seq<BlockView>, Seq<bool>),
    DecodeError,
>
    decreases count,
{
    if count == 0 {
        Ok((Seq::empty(), s))
    } else {
        match parse_block(s) {
            Err(e) => Err(e),
            Ok((b, rest)) => match parse_blocks(rest, (count - 1) as nat) {
                Err(e) => Err(e),
                Ok((bs, rest2)) => Ok((seq![b] + bs, rest2)),
            },
        }
    }
}

/// The enhancement-layer section: present in profile 7 only.
pub open spec fn parse_el(s: Seq<bool>, profile: Profile) -> Result<
    (bool, Seq<u16>, Seq<bool>),
    DecodeError,
> {
    if profile != Profile::P7 {
        Ok((false, Seq::empty(), s))
    } else {
        match take_bits(s, 1) {
            None => Err(DecodeError::OutOfData),
            Some((flag, rest)) => if flag == 0 {
                Ok((false, Seq::empty(), rest))
            } else {
                match take_bits(rest, 8) {
                    None => Err(DecodeError::OutOfData),
                    Some((n, rest2)) => match parse_values(rest2, n, 16) {
                        Err(e) => Err(e),
                        Ok((vs, rest3)) => Ok((true, vs, rest3)),
                    },
                }
            },
        }
    }
}

pub open spec fn parse_area(s: Seq<bool>) -> Result<(ActiveArea, Seq<bool>), DecodeError> {
    match parse_values(s, 4, 16) {
        Err(e) => Err(e),
        Ok((vs, rest)) => Ok(
            (ActiveArea { left: vs[0], right: vs[1], top: vs[2], bottom: vs[3] }, rest),
        ),
    }
}

/// What follows the fields must be zero padding shorter than a byte.
pub open spec fn is_padding(s: Seq<bool>) -> bool {
    s.len() < 8 && s == zeros(s.len())
}

/// The record that the bits after the compatibility id describe.
pub open spec fn parse_tail(s: Seq<bool>, profile: Profile, compat_id: u8, checksum: u32) -> Result<
    RpuView,
    DecodeError,
> {
    match parse_el(s, profile) {
        Err(e) => Err(e),
        Ok((el, nlq, s1)) => match take_bits(s1, 8) {
            None => Err(DecodeError::OutOfData),
            Some((nb, s2)) => match parse_blocks(s2, nb) {
                Err(e) => Err(e),
                Ok((blocks, s3)) => match parse_area(s3) {
                    Err(e) => Err(e),
                    Ok((area, s4)) => if is_padding(s4) {
                        Ok(
                            RpuView {
                                profile,
                                compat_id,
                                el_present: el,
                                nlq,
                                blocks,
                                active_area: area,
                                checksum,
                            },
                        )
                    } else {
                        Err(DecodeError::TrailingData)
                    },
                },
            },
        },
    }
}

/// The record that the bits of a payload body describe, given its checksum.
pub open spec fn parse_rpu(s: Seq<bool>, checksum: u32) -> Result<RpuView, DecodeError> {
    match take_bits(s, 8) {
        None => Err(DecodeError::OutOfData),
        Some((prefix, s1)) => if prefix != RPU_PREFIX {
            Err(DecodeError::BadPrefix)
        } else {
            match take_bits(s1, 4) {
                None => Err(DecodeError::OutOfData),
                Some((pc, s2)) => match profile_from_code(pc) {
                    None => Err(DecodeError::UnknownProfile),
                    Some(profile) => match take_bits(s2, 4) {
                        None => Err(DecodeError::OutOfData),
                        Some((compat, s3)) => parse_tail(s3, profile, compat as u8, checksum),
                    },
                },
            }
        },
    }
}

/// The sum of the bytes.
pub open spec fn byte_sum(bs: Seq<u8>) -> nat
    decreases bs.len(),
{
    if bs.len() == 0 {
        0
    } else {
        byte_sum(bs.drop_last()) + bs.last() as nat
    }
}

/// The integrity checksum of a payload body: its byte sum modulo `2^32`.
pub open spec fn checksum_of(body: Seq<u8>) -> u32 {
    (byte_sum(body) % 0x1_0000_0000) as u32
}

/// The byte that closes every payload: a stop bit, then alignment zeros.
pub const RPU_TERMINATOR: u8 = 0x80;

/// The checksum in big-endian byte order.
pub open spec fn checksum_bytes(c: u32) -> Seq<u8> {
    seq![(c >> 24u32) as u8, (c >> 16u32) as u8, (c >> 8u32) as u8, c as u8]
}

pub open spec fn be32(b0: u8, b1: u8, b2: u8, b3: u8) -> u32 {
    ((b0 as u32) << 24u32) | ((b1 as u32) << 16u32) | ((b2 as u32) << 8u32) | (b3 as u32)
}

/// Everything before the four checksum bytes and the stop byte.
pub open spec fn payload_body(p: Seq<u8>) -> Seq<u8> {
    p.take(p.len() - 5)
}

pub open spec fn stored_checksum(p: Seq<u8>) -> u32 {
    let n = p.len() as int;
    be32(p[n - 5], p[n - 4], p[n - 3], p[n - 2])
}

/// What decoding a payload yields.
pub open spec fn decode_spec(p: Seq<u8>) -> Result<RpuView, DecodeError> {
    if p.len() < 5 {
        Err(DecodeError::OutOfData)
    } else if p.last() != RPU_TERMINATOR {
        Err(DecodeError::BadTerminator)
    } else if checksum_of(payload_body(p)) != stored_checksum(p) {
        Err(DecodeError::ChecksumMismatch)
    } else {
        parse_rpu(bits_of_bytes(payload_body(p)), stored_checksum(p))
    }
}

} // verus!

verus! {

fn element_layout_of(level: u8) -> (r: Option<(usize, usize)>)
    ensures
        match element_layout(level) {
            None => r is None,
            Some((c, w)) => r == Some((c as usize, w as usize)),
        },
        r matches Some((c, w)) ==> w <= 16 && c <= 6,
{
    if level == 1 {
        Some((3, 12))
    } else if level == 2 {
        Some((6, 12))
    } else if level == 4 {
        Some((2, 12))
    } else if level == 6 {
        Some((4, 16))
    } else {
        None
    }
}

fn read_values(rd: &mut BitReader, count: usize, width: usize) -> (r: Result<Vec<u16>, DecodeError>)
    requires
        old(rd).wf(),
        width <= 16,
    ensures
        final(rd).wf(),
        match r {
            Ok(vs) => parse_values(old(rd).remaining(), count as nat, width as nat) == Ok::<
                (Seq<u16>, Seq<bool>),
                DecodeError,
            >((vs@, final(rd).remaining())),
            Err(e) => parse_values(old(rd).remaining(), count as nat, width as nat) == Err::<
                (Seq<u16>, Seq<bool>),
                DecodeError,
            >(e),
        },
{
    let ghost orig = rd.remaining();
    let mut out: Vec<u16> = Vec::new();
    let mut i: usize = 0;
    while i < count
        invariant
            rd.wf(),
            orig == old(rd).remaining(),
            i <= count,
            width <= 16,
            parse_values(orig, count as nat, width as nat) == match parse_values(
                rd.remaining(),
                (count - i) as nat,
                width as nat,
            ) {
                Ok((vs, rest)) => Ok((out@ + vs, rest)),
                Err(e) => Err(e),
            },
        decreases count - i,
    {
        let ghost rem = rd.remaining();
        let x = rd.read_bits(width);
        match x {
            Err(_) => {
                proof {
                    assert(take_bits(rem, width as nat) is None);
                    assert(parse_values(rem, (count - i) as nat, width as nat) == Err::<
                        (Seq<u16>, Seq<bool>),
                        DecodeError,
                    >(DecodeError::OutOfData));
                    assert(parse_values(orig, count as nat, width as nat) == Err::<
                        (Seq<u16>, Seq<bool>),
                        DecodeError,
                    >(DecodeError::OutOfData));
                }
                return Err(DecodeError::OutOfData);
            },
            Ok(v) => {
                proof {
                    lemma_value_bound(rem.take(width as int));
                    crate::bits::lemma_two_pow_mono(width as nat, 16);
                    lemma_two_pow_is_pow2(16);
                    lemma2_to64();
                    let rest = rd.remaining();
                    match parse_values(rest, (count - i - 1) as nat, width as nat) {
                        Ok((vs, r2)) => {
                            assert(out@ + (seq![v as u16] + vs) =~= out@.push(v as u16) + vs);
                        },
                        Err(_) => {},
                    }
                }
                out.push(v as u16);
                i = i + 1;
            },
        }
    }
    assert(out@ + Seq::<u16>::empty() =~= out@);
    Ok(out)
}

fn read_block(rd: &mut BitReader) -> (r: Result<MetadataBlock, DecodeError>)
    requires
        old(rd).wf(),
    ensures
        final(rd).wf(),
        match r {
            Ok(b) => parse_block(old(rd).remaining()) == Ok::<(BlockView, Seq<bool>), DecodeError>(
                (b@, final(rd).remaining()),
            ),
            Err(e) => parse_block(old(rd).remaining()) == Err::<(BlockView, Seq<bool>), DecodeError>(
                e,
            ),
        },
{
    let level = match rd.read_bits(8) {
        Err(_) => {
            return Err(DecodeError::OutOfData);
        },
        Ok(v) => v,
    };
    proof {
        lemma_value_bound(old(rd).remaining().take(8));
        lemma_two_pow_is_pow2(8);
        lemma2_to64();
    }
    let level = level as u8;
    match element_layout_of(level) {
        None => Err(DecodeError::UnknownElement),
        Some((count, width)) => {
            let values = read_values(rd, count, width)?;
            Ok(MetadataBlock { level, values })
        },
    }
}

fn read_blocks(rd: &mut BitReader, count: usize) -> (r: Result<Vec<MetadataBlock>, DecodeError>)
    requires
        old(rd).wf(),
    ensures
        final(rd).wf(),
        match r {
            Ok(bs) => parse_blocks(old(rd).remaining(), count as nat) == Ok::<
                (Seq<BlockView>, Seq<bool>),
                DecodeError,
            >((blocks_view(bs@), final(rd).remaining())),
            Err(e) => parse_blocks(old(rd).remaining(), count as nat) == Err::<
                (Seq<BlockView>, Seq<bool>),
                DecodeError,
            >(e),
        },
{
    let ghost orig = rd.remaining();
    let mut out: Vec<MetadataBlock> = Vec::new();
    let mut i: usize = 0;
    while i < count
        invariant
            rd.wf(),
            orig == old(rd).remaining(),
            i <= count,
            parse_blocks(orig, count as nat) == match parse_blocks(
                rd.remaining(),
                (count - i) as nat,
            ) {
                Ok((bs, rest)) => Ok((blocks_view(out@) + bs, rest)),
                Err(e) => Err(e),
            },
        decreases count - i,
    {
        let ghost rem = rd.remaining();
        let b = match read_block(rd) {
            Err(e) => {
                proof {
                    assert(parse_blocks(rem, (count - i) as nat) == Err::<
                        (Seq<BlockView>, Seq<bool>),
                        DecodeError,
                    >(e));
                }
                return Err(e);
            },
            Ok(b) => b,
        };
        proof {
            let rest = rd.remaining();
            let o2 = out@.push(b);
            assert(blocks_view(o2) =~= blocks_view(out@).push(b@));
            match parse_blocks(rest, (count - i - 1) as nat) {
                Ok((bs, r2)) => {
                    assert(blocks_view(out@) + (seq![b@] + bs) =~= blocks_view(o2) + bs);
                },
                Err(_) => {},
            }
        }
        out.push(b);
        i = i + 1;
    }
    assert(blocks_view(out@) + Seq::<BlockView>::empty() =~= blocks_view(out@));
    Ok(out)
}

} // verus!

verus! {

fn read_el(rd: &mut BitReader, profile: Profile) -> (r: Result<(bool, Vec<u16>), DecodeError>)
    requires
        old(rd).wf(),
    ensures
        final(rd).wf(),
        match r {
            Ok((el, nlq)) => parse_el(old(rd).remaining(), profile) == Ok::<
                (bool, Seq<u16>, Seq<bool>),
                DecodeError,
            >((el, nlq@, final(rd).remaining())),
            Err(e) => parse_el(old(rd).remaining(), profile) == Err::<
                (bool, Seq<u16>, Seq<bool>),
                DecodeError,
            >(e),
        },
{
    if profile != Profile::P7 {
        return Ok((false, Vec::new()));
    }
    let flag = match rd.read_bits(1) {
        Err(_) => {
            return Err(DecodeError::OutOfData);
        },
        Ok(v) => v,
    };
    if flag == 0 {
        return Ok((false, Vec::new()));
    }
    let n = match rd.read_bits(8) {
        Err(_) => {
            return Err(DecodeError::OutOfData);
        },
        Ok(v) => v,
    };
    proof {
        let s = old(rd).remaining().skip(1);
        lemma_value_bound(s.take(8));
        lemma_two_pow_is_pow2(8);
        lemma2_to64();
    }
    let nlq = read_values(rd, n as usize, 16)?;
    Ok((true, nlq))
}

fn read_area(rd: &mut BitReader) -> (r: Result<ActiveArea, DecodeError>)
    requires
        old(rd).wf(),
    ensures
        final(rd).wf(),
        match r {
            Ok(a) => parse_area(old(rd).remaining()) == Ok::<(ActiveArea, Seq<bool>), DecodeError>(
                (a, final(rd).remaining()),
            ),
            Err(e) => parse_area(old(rd).remaining()) == Err::<(ActiveArea, Seq<bool>), DecodeError>(
                e,
            ),
        },
{
    let vs = read_values(rd, 4, 16)?;
    proof {
        lemma_parse_values_len(old(rd).remaining(), 4, 16);
    }
    Ok(ActiveArea { left: vs[0], right: vs[1], top: vs[2], bottom: vs[3] })
}

pub proof fn lemma_parse_values_len(s: Seq<bool>, count: nat, width: nat)
    ensures
        parse_values(s, count, width) matches Ok((vs, _)) ==> vs.len() == count,
    decreases count,
{
    if count > 0 {
        if let Some((v, rest)) = take_bits(s, width) {
            lemma_parse_values_len(rest, (count - 1) as nat, width);
        }
    }
}

/// Whether the unread bits are zero padding shorter than a byte.
fn at_padding(rd: &BitReader) -> (r: bool)
    requires
        rd.wf(),
    ensures
        r == is_padding(rd.remaining()),
{
    let n = rd.available();
    if n >= 8 {
        return false;
    }
    let mut probe = rd.copy();
    let mut i: usize = 0;
    while i < n
        invariant
            probe.wf(),
            i <= n,
            n == rd.remaining().len(),
            probe.remaining() == rd.remaining().skip(i as int),
            forall|j: int| 0 <= j < i ==> !rd.remaining()[j],
        decreases n - i,
    {
        let b = match probe.read_bit() {
            Ok(b) => b,
            Err(_) => {
                return false;
            },
        };
        if b {
            return false;
        }
        proof {
            assert(rd.remaining().skip(i as int).skip(1) =~= rd.remaining().skip(i + 1));
        }
        i = i + 1;
    }
    assert(rd.remaining() =~= zeros(rd.remaining().len()));
    true
}

} // verus!

verus! {

fn read_rpu(rd: &mut BitReader, checksum: u32) -> (r: Result<RpuRecord, DecodeError>)
    requires
        old(rd).wf(),
    ensures
        final(rd).wf(),
        match r {
            Ok(rec) => parse_rpu(old(rd).remaining(), checksum) == Ok::<RpuView, DecodeError>(rec@),
            Err(e) => parse_rpu(old(rd).remaining(), checksum) == Err::<RpuView, DecodeError>(e),
        },
{
    proof {
        lemma_two_pow_is_pow2(4);
        lemma_two_pow_is_pow2(8);
        lemma2_to64();
    }
    let ghost s0 = rd.remaining();
    let prefix = match rd.read_bits(8) {
        Err(_) => {
            return Err(DecodeError::OutOfData);
        },
        Ok(v) => v,
    };
    if prefix != RPU_PREFIX {
        return Err(DecodeError::BadPrefix);
    }
    let ghost s1 = rd.remaining();
    let pc = match rd.read_bits(4) {
        Err(_) => {
            return Err(DecodeError::OutOfData);
        },
        Ok(v) => v,
    };
    let profile = if pc == 5 {
        Profile::P5
    } else if pc == 7 {
        Profile::P7
    } else if pc == 8 {
        Profile::P8
    } else {
        return Err(DecodeError::UnknownProfile);
    };
    let ghost s2 = rd.remaining();
    let compat = match rd.read_bits(4) {
        Err(_) => {
            return Err(DecodeError::OutOfData);
        },
        Ok(v) => v,
    };
    proof {
        lemma_value_bound(s2.take(4));
    }
    let ghost s3 = rd.remaining();
    let (el_present, nlq) = read_el(rd, profile)?;
    let ghost s4 = rd.remaining();
    let nb = match rd.read_bits(8) {
        Err(_) => {
            return Err(DecodeError::OutOfData);
        },
        Ok(v) => v,
    };
    proof {
        lemma_value_bound(s4.take(8));
    }
    let blocks = read_blocks(rd, nb as usize)?;
    let active_area = read_area(rd)?;
    if !at_padding(rd) {
        return Err(DecodeError::TrailingData);
    }
    let rec = RpuRecord {
        profile,
        compat_id: compat as u8,
        el_present,
        nlq,
        blocks,
        active_area,
        checksum,
    };
    Ok(rec)
}

/// The checksum of a payload body.
pub fn compute_checksum(body: &Vec<u8>, len: usize) -> (c: u32)
    requires
        len <= body@.len(),
    ensures
        c == checksum_of(body@.take(len as int)),
{
    let mut acc: u64 = 0;
    let mut i: usize = 0;
    while i < len
        invariant
            i <= len <= body@.len(),
            acc == byte_sum(body@.take(i as int)) % 0x1_0000_0000,
        decreases len - i,
    {
        proof {
            let t = body@.take(i + 1);
            assert(t.drop_last() =~= body@.take(i as int));
            let s = byte_sum(body@.take(i as int));
            let b = body@[i as int] as nat;
            assert((s % 0x1_0000_0000 + b) % 0x1_0000_0000 == (s + b) % 0x1_0000_0000) by {
                vstd::arithmetic::div_mod::lemma_add_mod_noop(
                    s as int,
                    b as int,
                    0x1_0000_0000,
                );
                vstd::arithmetic::div_mod::lemma_small_mod(b, 0x1_0000_0000);
            }
        }
        acc = (acc + body[i] as u64) % 0x1_0000_0000;
        i = i + 1;
    }
    acc as u32
}

fn read_be32(p: &Vec<u8>, at: usize) -> (r: u32)
    requires
        at + 4 <= p@.len(),
    ensures
        r == be32(p@[at as int], p@[at + 1], p@[at + 2], p@[at + 3]),
{
    let len = p.len();
    assert(at + 3 < len);
    let b0 = p[at];
    let b1 = p[at + 1];
    let b2 = p[at + 2];
    let b3 = p[at + 3];
    ((b0 as u32) << 24u32) | ((b1 as u32) << 16u32) | ((b2 as u32) << 8u32) | (b3 as u32)
}

/// Decodes a metadata payload: the body bits, the big-endian checksum of the
/// body, then the stop byte.
pub fn decode_rpu(payload: &Vec<u8>) -> (r: Result<RpuRecord, DecodeError>)
    ensures
        match r {
            Ok(rec) => decode_spec(payload@) == Ok::<RpuView, DecodeError>(rec@),
            Err(e) => decode_spec(payload@) == Err::<RpuView, DecodeError>(e),
        },
{
    if payload.len() < 5 {
        return Err(DecodeError::OutOfData);
    }
    if payload[payload.len() - 1] != RPU_TERMINATOR {
        return Err(DecodeError::BadTerminator);
    }
    let n = payload.len() - 5;
    let stored = read_be32(payload, n);
    if compute_checksum(payload, n) != stored {
        return Err(DecodeError::ChecksumMismatch);
    }
    let mut body: Vec<u8> = Vec::new();
    let mut i: usize = 0;
    while i < n
        invariant
            i <= n,
            n == payload@.len() - 5,
            body@ == payload@.take(i as int),
        decreases n - i,
    {
        body.push(payload[i]);
        proof {
            assert(body@ =~= payload@.take(i + 1));
        }
        i = i + 1;
    }
    let bits = unpack_bytes(&body);
    let mut rd = BitReader::new(bits);
    read_rpu(&mut rd, stored)
}

} // verus!

verus! {

// ---------------------------------------------------------------------------
// Encoding
// ---------------------------------------------------------------------------

pub open spec fn values_bits(vals: Seq<u16>, width: nat) -> Seq<bool>
    decreases vals.len(),
{
    if vals.len() == 0 {
        Seq::empty()
    } else {
        values_bits(vals.drop_last(), width) + bits_of_value(vals.last() as nat, width)
    }
}

pub open spec fn element_width(level: u8) -> nat {
    match element_layout(level) {
        Some((_, w)) => w,
        None => 0,
    }
}

pub open spec fn block_bits(b: BlockView) -> Seq<bool> {
    bits_of_value(b.level as nat, 8) + values_bits(b.values, element_width(b.level))
}

pub open spec fn blocks_bits(bs: Seq<BlockView>) -> Seq<bool>
    decreases bs.len(),
{
    if bs.len() == 0 {
        Seq::empty()
    } else {
        blocks_bits(bs.drop_last()) + block_bits(bs.last())
    }
}

pub open spec fn el_bits(v: RpuView) -> Seq<bool> {
    if v.profile != Profile::P7 {
        Seq::empty()
    } else if !v.el_present {
        bits_of_value(0, 1)
    } else {
        bits_of_value(1, 1) + bits_of_value(v.nlq.len(), 8) + values_bits(v.nlq, 16)
    }
}

pub open spec fn area_values(a: ActiveArea) -> Seq<u16> {
    seq![a.left, a.right, a.top, a.bottom]
}

/// The fields of a record as bits, before padding and checksum.
pub open spec fn rpu_bits(v: RpuView) -> Seq<bool> {
    bits_of_value(RPU_PREFIX as nat, 8) + bits_of_value(profile_code(v.profile), 4) + bits_of_value(
        v.compat_id as nat,
        4,
    ) + el_bits(v) + bits_of_value(v.blocks.len(), 8) + blocks_bits(v.blocks) + values_bits(
        area_values(v.active_area),
        16,
    )
}

/// The number of zero bits that bring `n` bits to a byte boundary.
pub open spec fn pad_len(n: nat) -> nat {
    if n % 8 == 0 {
        0
    } else {
        (8 - n % 8) as nat
    }
}

pub open spec fn block_wf(b: BlockView) -> bool {
    &&& element_layout(b.level) matches Some((c, w))
    &&& b.values.len() == c
    &&& forall|j: int| 0 <= j < b.values.len() ==> b.values[j] < two_pow(w)
}

/// A record that the layout can carry: every field fits its width and every
/// element has the layout of its level.
pub open spec fn rpu_wf(v: RpuView) -> bool {
    &&& v.compat_id < 16
    &&& v.profile != Profile::P7 ==> !v.el_present
    &&& !v.el_present ==> v.nlq.len() == 0
    &&& v.nlq.len() < 256
    &&& v.blocks.len() < 256
    &&& forall|i: int| 0 <= i < v.blocks.len() ==> block_wf(#[trigger] v.blocks[i])
}

/// `p` is the payload of `v`: its fields, zero padding to a byte boundary,
/// then the checksum of all of that.
pub open spec fn is_encoding_of(p: Seq<u8>, v: RpuView) -> bool {
    &&& p.len() >= 5
    &&& bits_of_bytes(payload_body(p)) == rpu_bits(v) + zeros(pad_len(rpu_bits(v).len()))
    &&& p.skip(p.len() - 5) == checksum_bytes(checksum_of(payload_body(p))).push(RPU_TERMINATOR)
}

/// The payload of a well-formed record.
pub open spec fn encoding_of(v: RpuView) -> Seq<u8> {
    choose|p: Seq<u8>| is_encoding_of(p, v)
}

/// A record has at most one payload.
pub proof fn lemma_encoding_unique(p: Seq<u8>, q: Seq<u8>, v: RpuView)
    requires
        is_encoding_of(p, v),
        is_encoding_of(q, v),
    ensures
        p == q,
{
    crate::bits::lemma_bits_of_bytes_injective(payload_body(p), payload_body(q));
    assert(p =~= payload_body(p) + p.skip(p.len() - 5));
    assert(q =~= payload_body(q) + q.skip(q.len() - 5));
}

/// The record with another checksum.
pub open spec fn with_checksum(v: RpuView, c: u32) -> RpuView {
    RpuView { checksum: c, ..v }
}

// ---------------------------------------------------------------------------
// Parsing inverts encoding
// ---------------------------------------------------------------------------

pub proof fn lemma_take_bits_of(v: nat, n: nat, rest: Seq<bool>)
    requires
        v < two_pow(n),
    ensures
        take_bits(bits_of_value(v, n) + rest, n) == Some((v, rest)),
{
    lemma_bits_of_value_len(v, n);
    lemma_value_of_bits(v, n);
    let a = bits_of_value(v, n);
    assert((a + rest).take(n as int) =~= a);
    assert((a + rest).skip(n as int) =~= rest);
}

pub proof fn lemma_values_bits_front(vals: Seq<u16>, width: nat)
    requires
        vals.len() > 0,
    ensures
        values_bits(vals, width) == bits_of_value(vals[0] as nat, width) + values_bits(
            vals.skip(1),
            width,
        ),
    decreases vals.len(),
{
    if vals.len() == 1 {
        assert(vals.drop_last() =~= Seq::<u16>::empty());
        assert(vals.skip(1) =~= Seq::<u16>::empty());
        assert(values_bits(vals.drop_last(), width) == Seq::<bool>::empty());
        assert(values_bits(vals.skip(1), width) == Seq::<bool>::empty());
        assert(values_bits(vals, width) =~= bits_of_value(vals[0] as nat, width));
        assert(bits_of_value(vals[0] as nat, width) + Seq::<bool>::empty() =~= bits_of_value(
            vals[0] as nat,
            width,
        ));
    } else {
        let dl = vals.drop_last();
        lemma_values_bits_front(dl, width);
        assert(vals.skip(1).drop_last() =~= dl.skip(1));
        assert(values_bits(vals, width) =~= bits_of_value(vals[0] as nat, width) + values_bits(
            vals.skip(1),
            width,
        ));
    }
}

pub proof fn lemma_parse_values_bits(vals: Seq<u16>, width: nat, rest: Seq<bool>)
    requires
        width <= 16,
        forall|j: int| 0 <= j < vals.len() ==> vals[j] < two_pow(width),
    ensures
        parse_values(values_bits(vals, width) + rest, vals.len(), width) == Ok::<
            (Seq<u16>, Seq<bool>),
            DecodeError,
        >((vals, rest)),
    decreases vals.len(),
{
    if vals.len() == 0 {
        assert(values_bits(vals, width) + rest =~= rest);
        assert(vals =~= Seq::<u16>::empty());
    } else {
        lemma_values_bits_front(vals, width);
        let tail = vals.skip(1);
        let a = bits_of_value(vals[0] as nat, width);
        let r2 = values_bits(tail, width) + rest;
        assert(values_bits(vals, width) + rest =~= a + r2);
        lemma_take_bits_of(vals[0] as nat, width, r2);
        lemma_parse_values_bits(tail, width, rest);
        assert(seq![vals[0]] + tail =~= vals);
    }
}

pub proof fn lemma_blocks_bits_front(bs: Seq<BlockView>)
    requires
        bs.len() > 0,
    ensures
        blocks_bits(bs) == block_bits(bs[0]) + blocks_bits(bs.skip(1)),
    decreases bs.len(),
{
    if bs.len() == 1 {
        assert(bs.drop_last() =~= Seq::<BlockView>::empty());
        assert(bs.skip(1) =~= Seq::<BlockView>::empty());
        assert(blocks_bits(bs.drop_last()) == Seq::<bool>::empty());
        assert(blocks_bits(bs.skip(1)) == Seq::<bool>::empty());
        assert(blocks_bits(bs) =~= block_bits(bs[0]));
        assert(block_bits(bs[0]) + Seq::<bool>::empty() =~= block_bits(bs[0]));
    } else {
        let dl = bs.drop_last();
        lemma_blocks_bits_front(dl);
        assert(bs.skip(1).drop_last() =~= dl.skip(1));
        assert(blocks_bits(bs) =~= block_bits(bs[0]) + blocks_bits(bs.skip(1)));
    }
}

pub proof fn lemma_parse_block_bits(b: BlockView, rest: Seq<bool>)
    requires
        block_wf(b),
    ensures
        parse_block(block_bits(b) + rest) == Ok::<(BlockView, Seq<bool>), DecodeError>((b, rest)),
{
    lemma_two_pow_is_pow2(8);
    lemma2_to64();
    let a = bits_of_value(b.level as nat, 8);
    let r2 = values_bits(b.values, element_width(b.level)) + rest;
    assert(block_bits(b) + rest =~= a + r2);
    lemma_take_bits_of(b.level as nat, 8, r2);
    lemma_parse_values_bits(b.values, element_width(b.level), rest);
}

pub proof fn lemma_parse_blocks_bits(bs: Seq<BlockView>, rest: Seq<bool>)
    requires
        forall|i: int| 0 <= i < bs.len() ==> block_wf(#[trigger] bs[i]),
    ensures
        parse_blocks(blocks_bits(bs) + rest, bs.len()) == Ok::<
            (Seq<BlockView>, Seq<bool>),
            DecodeError,
        >((bs, rest)),
    decreases bs.len(),
{
    if bs.len() == 0 {
        assert(blocks_bits(bs) + rest =~= rest);
        assert(bs =~= Seq::<BlockView>::empty());
    } else {
        lemma_blocks_bits_front(bs);
        let tail = bs.skip(1);
        let r2 = blocks_bits(tail) + rest;
        assert(blocks_bits(bs) + rest =~= block_bits(bs[0]) + r2);
        assert(block_wf(bs[0]));
        lemma_parse_block_bits(bs[0], r2);
        assert forall|i: int| 0 <= i < tail.len() implies block_wf(#[trigger] tail[i]) by {
            assert(tail[i] == bs[i + 1]);
        }
        lemma_parse_blocks_bits(tail, rest);
        assert(seq![bs[0]] + tail =~= bs);
    }
}

pub proof fn lemma_parse_el_bits(v: RpuView, rest: Seq<bool>)
    requires
        rpu_wf(v),
    ensures
        parse_el(el_bits(v) + rest, v.profile) == Ok::<(bool, Seq<u16>, Seq<bool>), DecodeError>(
            (v.el_present, v.nlq, rest),
        ),
{
    lemma_two_pow_is_pow2(1);
    lemma_two_pow_is_pow2(8);
    lemma_two_pow_is_pow2(16);
    lemma2_to64();
    if v.profile == Profile::P7 {
        if v.el_present {
            let e1 = bits_of_value(v.nlq.len(), 8) + (values_bits(v.nlq, 16) + rest);
            assert(el_bits(v) + rest =~= bits_of_value(1, 1) + e1);
            lemma_take_bits_of(1, 1, e1);
            lemma_take_bits_of(v.nlq.len(), 8, values_bits(v.nlq, 16) + rest);
            lemma_parse_values_bits(v.nlq, 16, rest);
        } else {
            lemma_take_bits_of(0, 1, rest);
            assert(v.nlq =~= Seq::<u16>::empty());
        }
    } else {
        assert(el_bits(v) + rest =~= rest);
        assert(v.nlq =~= Seq::<u16>::empty());
    }
}

pub proof fn lemma_parse_area_bits(a: ActiveArea, rest: Seq<bool>)
    ensures
        parse_area(values_bits(area_values(a), 16) + rest) == Ok::<
            (ActiveArea, Seq<bool>),
            DecodeError,
        >((a, rest)),
{
    lemma_two_pow_is_pow2(16);
    lemma2_to64();
    lemma_parse_values_bits(area_values(a), 16, rest);
}

proof fn lemma_concat_right(
    a: Seq<bool>,
    b: Seq<bool>,
    c: Seq<bool>,
    d: Seq<bool>,
    e: Seq<bool>,
    f: Seq<bool>,
    g: Seq<bool>,
    h: Seq<bool>,
)
    ensures
        a + b + c + d + e + f + g + h == a + (b + (c + (d + (e + (f + (g + h)))))),
{
    assert(a + b + c + d + e + f + g + h =~= a + (b + (c + (d + (e + (f + (g + h)))))));
}

/// The fields of a well-formed record, followed by any zero padding shorter
/// than a byte, parse back to the record.
#[verifier::rlimit(50)]
pub proof fn lemma_parse_rpu_bits(v: RpuView, k: nat, c: u32)
    requires
        rpu_wf(v),
        k < 8,
    ensures
        parse_rpu(rpu_bits(v) + zeros(k), c) == Ok::<RpuView, DecodeError>(with_checksum(v, c)),
{
    lemma_two_pow_is_pow2(4);
    lemma_two_pow_is_pow2(8);
    lemma2_to64();
    let t7 = zeros(k);
    assert(t7 =~= zeros(t7.len()));
    let t6 = values_bits(area_values(v.active_area), 16) + t7;
    let t5 = blocks_bits(v.blocks) + t6;
    let t4 = bits_of_value(v.blocks.len(), 8) + t5;
    let t3 = el_bits(v) + t4;
    let t2 = bits_of_value(v.compat_id as nat, 4) + t3;
    let t1 = bits_of_value(profile_code(v.profile), 4) + t2;
    let t0 = bits_of_value(RPU_PREFIX as nat, 8) + t1;
    lemma_concat_right(
        bits_of_value(RPU_PREFIX as nat, 8),
        bits_of_value(profile_code(v.profile), 4),
        bits_of_value(v.compat_id as nat, 4),
        el_bits(v),
        bits_of_value(v.blocks.len(), 8),
        blocks_bits(v.blocks),
        values_bits(area_values(v.active_area), 16),
        t7,
    );
    lemma_take_bits_of(RPU_PREFIX as nat, 8, t1);
    lemma_take_bits_of(profile_code(v.profile), 4, t2);
    lemma_take_bits_of(v.compat_id as nat, 4, t3);
    lemma_parse_tail_bits(v, t4, t5, t6, t7, c);
}

proof fn lemma_parse_tail_bits(
    v: RpuView,
    t4: Seq<bool>,
    t5: Seq<bool>,
    t6: Seq<bool>,
    t7: Seq<bool>,
    c: u32,
)
    requires
        rpu_wf(v),
        t7.len() < 8,
        t7 == zeros(t7.len()),
        t6 == values_bits(area_values(v.active_area), 16) + t7,
        t5 == blocks_bits(v.blocks) + t6,
        t4 == bits_of_value(v.blocks.len(), 8) + t5,
    ensures
        parse_tail(el_bits(v) + t4, v.profile, v.compat_id, c) == Ok::<RpuView, DecodeError>(
            with_checksum(v, c),
        ),
{
    lemma_two_pow_is_pow2(8);
    lemma2_to64();
    lemma_parse_el_bits(v, t4);
    lemma_take_bits_of(v.blocks.len(), 8, t5);
    lemma_parse_blocks_bits(v.blocks, t6);
    lemma_parse_area_bits(v.active_area, t7);
}

} // verus!

verus! {

/// Reasons a record cannot be encoded.
#[derive(Debug, Clone, Copy, PartialEq, Eq, Structural)]
pub enum EncodeError {
    /// A field does not fit its width, or an element does not have the layout of its level.
    ValueTooWide,
}

fn write_values(w: &mut BitWriter, vals: &Vec<u16>, width: usize)
    ensures
        final(w).written() == old(w).written() + values_bits(vals@, width as nat),
{
    let ghost start = w.written();
    let mut i: usize = 0;
    while i < vals.len()
        invariant
            i <= vals@.len(),
            w.written() == start + values_bits(vals@.take(i as int), width as nat),
        decreases vals@.len() - i,
    {
        w.write_bits_unchecked(vals[i] as u64, width);
        proof {
            assert(vals@.take(i + 1).drop_last() =~= vals@.take(i as int));
            assert(w.written() =~= start + values_bits(vals@.take(i + 1), width as nat));
        }
        i = i + 1;
    }
    assert(vals@.take(vals@.len() as int) =~= vals@);
}

fn write_blocks(w: &mut BitWriter, bs: &Vec<MetadataBlock>)
    requires
        forall|i: int| 0 <= i < bs@.len() ==> block_wf(#[trigger] bs@[i]@),
    ensures
        final(w).written() == old(w).written() + blocks_bits(blocks_view(bs@)),
{
    let ghost start = w.written();
    let mut i: usize = 0;
    while i < bs.len()
        invariant
            i <= bs@.len(),
            forall|i: int| 0 <= i < bs@.len() ==> block_wf(#[trigger] bs@[i]@),
            w.written() == start + blocks_bits(blocks_view(bs@.take(i as int))),
        decreases bs@.len() - i,
    {
        let b = &bs[i];
        assert(block_wf(bs@[i as int]@));
        let width = match element_layout_of(b.level) {
            Some((_, width)) => width,
            None => 0,
        };
        w.write_bits_unchecked(b.level as u64, 8);
        write_values(w, &b.values, width);
        proof {
            let t = blocks_view(bs@.take(i + 1));
            assert(t.drop_last() =~= blocks_view(bs@.take(i as int)));
            assert(t.last() == b@);
            assert(w.written() =~= start + blocks_bits(t));
        }
        i = i + 1;
    }
    assert(bs@.take(bs@.len() as int) =~= bs@);
}

fn block_is_wf(b: &MetadataBlock) -> (r: bool)
    ensures
        r == block_wf(b@),
{
    proof {
        lemma_two_pow_is_pow2(12);
        lemma_two_pow_is_pow2(16);
        lemma2_to64();
    }
    let (count, width) = match element_layout_of(b.level) {
        None => {
            return false;
        },
        Some(l) => l,
    };
    if b.values.len() != count {
        return false;
    }
    let limit: u32 = if width == 16 { 65536 } else { 4096 };
    let mut j: usize = 0;
    while j < b.values.len()
        invariant
            j <= b.values@.len(),
            limit == two_pow(width as nat),
            element_layout(b.level) == Some((count as nat, width as nat)),
            b.values@.len() == count,
            forall|k: int| 0 <= k < j ==> b.values@[k] < two_pow(width as nat),
        decreases b.values@.len() - j,
    {
        if b.values[j] as u32 >= limit {
            assert(!(b@.values[j as int] < two_pow(width as nat)));
            return false;
        }
        j = j + 1;
    }
    true
}

/// Whether the layout can carry the record.
pub fn is_well_formed(r: &RpuRecord) -> (ok: bool)
    ensures
        ok == rpu_wf(r@),
{
    if r.compat_id >= 16 {
        return false;
    }
    if r.profile != Profile::P7 && r.el_present {
        return false;
    }
    if !r.el_present && r.nlq.len() != 0 {
        return false;
    }
    if r.nlq.len() >= 256 || r.blocks.len() >= 256 {
        return false;
    }
    let mut i: usize = 0;
    while i < r.blocks.len()
        invariant
            i <= r.blocks@.len(),
            forall|k: int| 0 <= k < i ==> block_wf(#[trigger] blocks_view(r.blocks@)[k]),
        decreases r.blocks@.len() - i,
    {
        if !block_is_wf(&r.blocks[i]) {
            assert(blocks_view(r.blocks@)[i as int] == r.blocks@[i as int]@);
            return false;
        }
        i = i + 1;
    }
    true
}

/// Encodes a record: its fields, zero padding to a byte boundary, then a
/// freshly computed big-endian checksum of all of that.
pub fn encode_rpu(r: &RpuRecord) -> (res: Result<Vec<u8>, EncodeError>)
    ensures
        match res {
            Ok(p) => rpu_wf(r@) && is_encoding_of(p@, r@) && p@ == encoding_of(r@),
            Err(e) => e == EncodeError::ValueTooWide && !rpu_wf(r@),
        },
{
    if !is_well_formed(r) {
        return Err(EncodeError::ValueTooWide);
    }
    let mut w = BitWriter::new();
    w.write_bits_unchecked(RPU_PREFIX, 8);
    let code: u64 = match r.profile {
        Profile::P5 => 5,
        Profile::P7 => 7,
        Profile::P8 => 8,
    };
    w.write_bits_unchecked(code, 4);
    w.write_bits_unchecked(r.compat_id as u64, 4);
    let ghost after_compat = w.written();
    if r.profile == Profile::P7 {
        if r.el_present {
            w.write_bits_unchecked(1, 1);
            w.write_bits_unchecked(r.nlq.len() as u64, 8);
            write_values(&mut w, &r.nlq, 16);
        } else {
            w.write_bits_unchecked(0, 1);
        }
    }
    assert(w.written() =~= after_compat + el_bits(r@));
    w.write_bits_unchecked(r.blocks.len() as u64, 8);
    proof {
        assert forall|i: int| 0 <= i < r.blocks@.len() implies block_wf(#[trigger] r.blocks@[i]@) by {
            assert(blocks_view(r.blocks@)[i] == r.blocks@[i]@);
        }
    }
    write_blocks(&mut w, &r.blocks);
    let area = vec![r.active_area.left, r.active_area.right, r.active_area.top, r.active_area.bottom];
    assert(area@ =~= area_values(r.active_area));
    write_values(&mut w, &area, 16);
    let ghost fields = w.written();
    assert(fields =~= rpu_bits(r@));
    w.align_to_byte();
    let bits = w.into_bits();
    assert(bits@ =~= rpu_bits(r@) + zeros(pad_len(rpu_bits(r@).len())));
    let mut p = pack_bits(bits);
    let ghost body = p@;
    let c = compute_checksum(&p, p.len());
    assert(body.take(body.len() as int) =~= body);
    p.push((c >> 24u32) as u8);
    p.push((c >> 16u32) as u8);
    p.push((c >> 8u32) as u8);
    p.push(c as u8);
    p.push(RPU_TERMINATOR);
    assert(payload_body(p@) =~= body);
    assert(p@.skip(p@.len() - 5) =~= checksum_bytes(c).push(RPU_TERMINATOR));
    proof {
        assert(is_encoding_of(p@, r@));
        lemma_encoding_unique(p@, encoding_of(r@), r@);
    }
    Ok(p)
}

} // verus!

verus! {

pub proof fn lemma_be32_of_checksum_bytes(c: u32)
    ensures
        be32(
            checksum_bytes(c)[0],
            checksum_bytes(c)[1],
            checksum_bytes(c)[2],
            checksum_bytes(c)[3],
        ) == c,
{
    assert(((((c >> 24u32) as u8) as u32) << 24u32) | ((((c >> 16u32) as u8) as u32) << 16u32) | (
    (((c >> 8u32) as u8) as u32) << 8u32) | ((c as u8) as u32) == c) by (bit_vector);
}

pub proof fn lemma_parse_values_wf(s: Seq<bool>, count: nat, width: nat)
    requires
        width <= 16,
    ensures
        parse_values(s, count, width) matches Ok((vs, _)) ==> vs.len() == count && forall|j: int|
            0 <= j < vs.len() ==> vs[j] < two_pow(width),
    decreases count,
{
    if count > 0 {
        if let Some((v, rest)) = take_bits(s, width) {
            lemma_parse_values_wf(rest, (count - 1) as nat, width);
            lemma_value_bound(s.take(width as int));
            crate::bits::lemma_two_pow_mono(width, 16);
            lemma_two_pow_is_pow2(16);
            lemma2_to64();
            if let Ok((vs, r2)) = parse_values(rest, (count - 1) as nat, width) {
                let all = seq![v as u16] + vs;
                assert forall|j: int| 0 <= j < all.len() implies all[j] < two_pow(width) by {
                    if j > 0 {
                        assert(all[j] == vs[j - 1]);
                    }
                }
            }
        }
    }
}

pub proof fn lemma_parse_blocks_wf(s: Seq<bool>, count: nat)
    ensures
        parse_blocks(s, count) matches Ok((bs, _)) ==> bs.len() == count && forall|i: int|
            0 <= i < bs.len() ==> block_wf(#[trigger] bs[i]),
    decreases count,
{
    if count > 0 {
        if let Ok((b, rest)) = parse_block(s) {
            lemma_parse_blocks_wf(rest, (count - 1) as nat);
            let (level, r1) = take_bits(s, 8)->0;
            let (c, w) = element_layout(level as u8)->0;
            lemma_parse_values_wf(r1, c, w);
            if let Ok((bs, r2)) = parse_blocks(rest, (count - 1) as nat) {
                let all = seq![b] + bs;
                assert forall|i: int| 0 <= i < all.len() implies block_wf(#[trigger] all[i]) by {
                    if i > 0 {
                        assert(all[i] == bs[i - 1]);
                    }
                }
            }
        }
    }
}

/// Every record that a payload decodes to can be encoded.
pub proof fn lemma_decoded_is_wf(p: Seq<u8>)
    ensures
        decode_spec(p) matches Ok(v) ==> rpu_wf(v),
{
    if let Ok(v) = decode_spec(p) {
        lemma_two_pow_is_pow2(4);
        lemma_two_pow_is_pow2(8);
        lemma2_to64();
        let s = bits_of_bytes(payload_body(p));
        let (_, s1) = take_bits(s, 8)->0;
        let (_, s2) = take_bits(s1, 4)->0;
        let (compat, s3) = take_bits(s2, 4)->0;
        lemma_value_bound(s2.take(4));
        let (el, nlq, s4) = parse_el(s3, v.profile)->Ok_0;
        if v.profile == Profile::P7 && el {
            let (n, s3b) = take_bits(s3.skip(1), 8)->0;
            lemma_value_bound(s3.skip(1).take(8));
            lemma_parse_values_wf(s3b, n, 16);
        }
        let (nb, s5) = take_bits(s4, 8)->0;
        lemma_value_bound(s4.take(8));
        lemma_parse_blocks_wf(s5, nb);
    }
}

/// Round trip: a record decoded from any payload is well formed, so it
/// encodes; and decoding any encoding of it gives the record back, with the
/// checksum freshly computed over the new payload and matching what is stored.
pub proof fn law_round_trip(q: Seq<u8>, v: RpuView, p: Seq<u8>)
    requires
        decode_spec(q) == Ok::<RpuView, DecodeError>(v),
        is_encoding_of(p, v),
    ensures
        rpu_wf(v),
        stored_checksum(p) == checksum_of(payload_body(p)),
        decode_spec(p) == Ok::<RpuView, DecodeError>(
            with_checksum(v, checksum_of(payload_body(p))),
        ),
{
    lemma_decoded_is_wf(q);
    lemma_round_trip_wf(v, p);
}

/// Decoding an encoding of a well-formed record gives the record back.
pub proof fn lemma_round_trip_wf(v: RpuView, p: Seq<u8>)
    requires
        rpu_wf(v),
        is_encoding_of(p, v),
    ensures
        stored_checksum(p) == checksum_of(payload_body(p)),
        decode_spec(p) == Ok::<RpuView, DecodeError>(
            with_checksum(v, checksum_of(payload_body(p))),
        ),
{
    let c = checksum_of(payload_body(p));
    let n = p.len() as int;
    lemma_be32_of_checksum_bytes(c);
    assert(p.skip(n - 5)[0] == p[n - 5]);
    assert(p.skip(n - 5)[1] == p[n - 4]);
    assert(p.skip(n - 5)[2] == p[n - 3]);
    assert(p.skip(n - 5)[3] == p[n - 2]);
    assert(p.skip(n - 5)[4] == p[n - 1]);
    assert(stored_checksum(p) == c);
    let fields = rpu_bits(v);
    lemma_parse_rpu_bits(v, pad_len(fields.len()), c);
}

pub proof fn lemma_byte_sum_update(bs: Seq<u8>, j: int, x: u8)
    requires
        0 <= j < bs.len(),
    ensures
        byte_sum(bs.update(j, x)) + bs[j] == byte_sum(bs) + x,
    decreases bs.len(),
{
    let u = bs.update(j, x);
    if j == bs.len() - 1 {
        assert(u.drop_last() =~= bs.drop_last());
    } else {
        lemma_byte_sum_update(bs.drop_last(), j, x);
        assert(u.drop_last() =~= bs.drop_last().update(j, x));
    }
}

/// A byte with one bit flipped.
pub open spec fn flip_bit(b: u8, k: u8) -> u8 {
    b ^ (1u8 << k)
}

/// Checksum integrity: flipping any single bit of a payload that decodes,
/// outside its checksum field and stop byte, makes decoding report a checksum mismatch.
pub proof fn law_bit_flip_detected(p: Seq<u8>, j: int, k: u8)
    requires
        decode_spec(p) is Ok,
        0 <= j < p.len() - 5,
        k < 8,
    ensures
        decode_spec(p.update(j, flip_bit(p[j], k))) == Err::<RpuView, DecodeError>(
            DecodeError::ChecksumMismatch,
        ),
{
    let b = p[j];
    let x = flip_bit(b, k);
    assert(b ^ (1u8 << k) != b) by (bit_vector)
        requires
            k < 8,
    ;
    let q = p.update(j, x);
    let body = payload_body(p);
    assert(payload_body(q) =~= body.update(j, x));
    assert(stored_checksum(q) == stored_checksum(p));
    lemma_byte_sum_update(body, j, x);
    let s0 = byte_sum(body) as int;
    let s1 = byte_sum(body.update(j, x)) as int;
    let m: int = 0x1_0000_0000;
    assert(s1 != s0);
    assert(-256 < s1 - s0 < 256);
    assert(s0 % m != s1 % m) by {
        vstd::arithmetic::div_mod::lemma_fundamental_div_mod(s0, m);
        vstd::arithmetic::div_mod::lemma_fundamental_div_mod(s1, m);
        if s0 % m == s1 % m {
            assert(s0 - s1 == m * (s0 / m - s1 / m)) by (nonlinear_arith)
                requires
                    s0 == m * (s0 / m) + s0 % m,
                    s1 == m * (s1 / m) + s1 % m,
                    s0 % m == s1 % m,
            ;
            let d = s0 / m - s1 / m;
            assert(d != 0);
            assert(m * d >= m || m * d <= -m) by (nonlinear_arith)
                requires
                    d != 0,
                    m == 0x1_0000_0000,
            ;
        }
    }
    assert(checksum_of(payload_body(q)) != checksum_of(body));
}

} // verus!
