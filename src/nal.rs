use vstd::prelude::*;

verus! {

/// The NAL type of metadata units.
pub const NAL_TYPE_RPU: u8 = 62;

/// The NAL type of units that carry the enhancement layer.
pub const NAL_TYPE_EL: u8 = 63;

/// Why a byte stream cannot be split into units.
#[derive(Debug, Clone, Copy, PartialEq, Eq, Structural)]
pub enum NalError {
    /// No start code was found anywhere in the stream.
    MalformedStream,
}

/// The layer a unit belongs to.
#[derive(Debug, Clone, Copy, PartialEq, Eq, Structural)]
pub enum NalKind {
    Base,
    Enhancement,
    Rpu,
}

pub open spec fn is_start_code_at(d: Seq<u8>, i: int) -> bool {
    0 <= i && i + 3 <= d.len() && d[i] == 0 && d[i + 1] == 0 && d[i + 2] == 1
}

/// The end of a unit that the start code at `i` closes: a zero byte just
/// before it belongs to a four-byte start code.
pub open spec fn unit_end(d: Seq<u8>, start: int, i: int) -> int {
    if i > start && d[i - 1] == 0 {
        i - 1
    } else {
        i
    }
}

/// The units from the one that begins at `start`, scanning from `i`.
pub open spec fn units_from(d: Seq<u8>, i: int, start: int) -> Seq<Seq<u8>>
    decreases d.len() - i,
{
    if i + 3 > d.len() || i < 0 {
        seq![d.subrange(start, d.len() as int)]
    } else if is_start_code_at(d, i) {
        seq![d.subrange(start, unit_end(d, start, i))] + units_from(d, i + 3, i + 3)
    } else {
        units_from(d, i + 1, start)
    }
}

/// The units of a stream, as delimited by start codes, or `None` when the
/// stream holds no start code; what precedes the first start code is dropped.
pub open spec fn stream_units(d: Seq<u8>, i: int) -> Option<Seq<Seq<u8>>>
    decreases d.len() - i,
{
    if i + 3 > d.len() || i < 0 {
        None
    } else if is_start_code_at(d, i) {
        Some(units_from(d, i + 3, i + 3))
    } else {
        stream_units(d, i + 1)
    }
}

/// Removes emulation-prevention bytes: a 3 that follows two zero bytes.
/// The state is what was produced and the number of zero bytes just before.
pub open spec fn unescape_state(raw: Seq<u8>) -> (Seq<u8>, nat)
    decreases raw.len(),
{
    if raw.len() == 0 {
        (Seq::empty(), 0)
    } else {
        let (out, z) = unescape_state(raw.drop_last());
        let b = raw.last();
        if z >= 2 && b == 3 {
            (out, 0)
        } else if b == 0 {
            (out.push(0), z + 1)
        } else {
            (out.push(b), 0)
        }
    }
}

pub open spec fn unescape_spec(raw: Seq<u8>) -> Seq<u8> {
    unescape_state(raw).0
}

/// Inserts emulation-prevention bytes: a 3 before any byte up to 3 that
/// follows two zero bytes.
pub open spec fn escape_state(p: Seq<u8>) -> (Seq<u8>, nat)
    decreases p.len(),
{
    if p.len() == 0 {
        (Seq::empty(), 0)
    } else {
        let (out, z) = escape_state(p.drop_last());
        let b = p.last();
        if z >= 2 && b <= 3 {
            (out.push(3).push(b), if b == 0 { 1nat } else { 0nat })
        } else if b == 0 {
            (out.push(0), z + 1)
        } else {
            (out.push(b), 0)
        }
    }
}

pub open spec fn escape_spec(p: Seq<u8>) -> Seq<u8> {
    escape_state(p).0
}

/// Removing emulation prevention undoes inserting it, and both track the
/// same run of zero bytes.
pub proof fn law_unescape_escape(p: Seq<u8>)
    ensures
        unescape_state(escape_state(p).0) == (p, escape_state(p).1),
    decreases p.len(),
{
    if p.len() > 0 {
        let dl = p.drop_last();
        law_unescape_escape(dl);
        let (out, z) = escape_state(dl);
        let b = p.last();
        assert(dl.push(b) =~= p);
        if z >= 2 && b <= 3 {
            let o1 = out.push(3);
            let o2 = o1.push(b);
            assert(o2.drop_last() =~= o1);
            assert(o1.drop_last() =~= out);
            assert(unescape_state(o1) == (dl, 0nat));
        } else {
            let o1 = out.push(b);
            assert(o1.drop_last() =~= out);
        }
    }
}

/// A unit on the wire: a four-byte start code, then the escaped bytes.
pub open spec fn wrap_spec(p: Seq<u8>) -> Seq<u8> {
    seq![0u8, 0u8, 0u8, 1u8] + escape_spec(p)
}

/// The units written one after another.
pub open spec fn stream_of(units: Seq<Seq<u8>>) -> Seq<u8>
    decreases units.len(),
{
    if units.len() == 0 {
        Seq::empty()
    } else {
        stream_of(units.drop_last()) + wrap_spec(units.last())
    }
}

pub open spec fn nal_type(u: Seq<u8>) -> u8 {
    if u.len() == 0 {
        0
    } else {
        ((u[0] / 2) % 64) as u8
    }
}

pub open spec fn kind_of(u: Seq<u8>) -> NalKind {
    if nal_type(u) == NAL_TYPE_RPU {
        NalKind::Rpu
    } else if nal_type(u) == NAL_TYPE_EL {
        NalKind::Enhancement
    } else {
        NalKind::Base
    }
}

/// The NAL type from the first header byte.
pub fn unit_type(u: &Vec<u8>) -> (t: u8)
    ensures
        t == nal_type(u@),
{
    if u.len() == 0 {
        0
    } else {
        (u[0] / 2) % 64
    }
}

/// Which layer a unit (with emulation prevention removed) belongs to.
pub fn classify(u: &Vec<u8>) -> (k: NalKind)
    ensures
        k == kind_of(u@),
{
    let t = unit_type(u);
    if t == NAL_TYPE_RPU {
        NalKind::Rpu
    } else if t == NAL_TYPE_EL {
        NalKind::Enhancement
    } else {
        NalKind::Base
    }
}

fn is_start_code(d: &Vec<u8>, i: usize) -> (r: bool)
    ensures
        r == is_start_code_at(d@, i as int),
{
    i < d.len() && d.len() - i >= 3 && d[i] == 0 && d[i + 1] == 0 && d[i + 2] == 1
}

fn copy_range(d: &Vec<u8>, from: usize, to: usize) -> (r: Vec<u8>)
    requires
        from <= to <= d@.len(),
    ensures
        r@ == d@.subrange(from as int, to as int),
{
    let mut out: Vec<u8> = Vec::new();
    let mut i: usize = from;
    while i < to
        invariant
            from <= i <= to <= d@.len(),
            out@ == d@.subrange(from as int, i as int),
        decreases to - i,
    {
        out.push(d[i]);
        assert(out@ =~= d@.subrange(from as int, i + 1));
        i = i + 1;
    }
    out
}

pub open spec fn units_view(us: Seq<Vec<u8>>) -> Seq<Seq<u8>> {
    us.map_values(|u: Vec<u8>| u@)
}

/// Splits a stream into its units, as they stand on the wire.
pub fn split_units(d: &Vec<u8>) -> (r: Result<Vec<Vec<u8>>, NalError>)
    ensures
        match r {
            Ok(us) => stream_units(d@, 0) == Some(units_view(us@)),
            Err(e) => e == NalError::MalformedStream && stream_units(d@, 0) is None,
        },
{
    let mut i: usize = 0;
    while !is_start_code(d, i)
        invariant
            stream_units(d@, 0) == stream_units(d@, i as int),
            i <= d@.len(),
        decreases d@.len() - i,
    {
        if d.len() - i < 3 {
            return Err(NalError::MalformedStream);
        }
        i = i + 1;
    }
    let n = d.len();
    assert(i + 3 <= n);
    let mut out: Vec<Vec<u8>> = Vec::new();
    let mut start: usize = i + 3;
    let mut j: usize = i + 3;
    while j < d.len() && d.len() - j >= 3
        invariant
            start <= j <= d@.len(),
            stream_units(d@, 0) == Some(units_view(out@) + units_from(d@, j as int, start as int)),
        decreases d@.len() - j,
    {
        if is_start_code(d, j) {
            let end = if j > start && d[j - 1] == 0 { j - 1 } else { j };
            let u = copy_range(d, start, end);
            proof {
                let rest = units_from(d@, j + 3, j + 3);
                assert(units_view(out@.push(u)) =~= units_view(out@).push(u@));
                assert(units_view(out@) + (seq![u@] + rest) =~= units_view(out@.push(u)) + rest);
            }
            out.push(u);
            j = j + 3;
            start = j;
        } else {
            j = j + 1;
        }
    }
    let u = copy_range(d, start, d.len());
    proof {
        assert(units_view(out@.push(u)) =~= units_view(out@) + seq![u@]);
    }
    out.push(u);
    Ok(out)
}

/// Removes emulation-prevention bytes from a unit.
pub fn unescape(raw: &Vec<u8>) -> (r: Vec<u8>)
    ensures
        r@ == unescape_spec(raw@),
{
    let mut out: Vec<u8> = Vec::new();
    let mut z: usize = 0;
    let mut i: usize = 0;
    while i < raw.len()
        invariant
            i <= raw@.len(),
            z <= i,
            (out@, z as nat) == unescape_state(raw@.take(i as int)),
        decreases raw@.len() - i,
    {
        assert(raw@.take(i + 1).drop_last() =~= raw@.take(i as int));
        let b = raw[i];
        if z >= 2 && b == 3 {
            z = 0;
        } else if b == 0 {
            out.push(0);
            z = z + 1;
        } else {
            out.push(b);
            z = 0;
        }
        i = i + 1;
    }
    assert(raw@.take(raw@.len() as int) =~= raw@);
    out
}

/// Appends a unit to a stream: a four-byte start code, then its bytes with
/// emulation prevention inserted.
pub fn write_unit(out: &mut Vec<u8>, p: &Vec<u8>)
    ensures
        final(out)@ == old(out)@ + wrap_spec(p@),
{
    let ghost start = out@;
    out.push(0);
    out.push(0);
    out.push(0);
    out.push(1);
    let ghost head = out@;
    assert(head =~= start + seq![0u8, 0u8, 0u8, 1u8]);
    let mut z: usize = 0;
    let mut i: usize = 0;
    while i < p.len()
        invariant
            i <= p@.len(),
            z <= i,
            out@ == head + escape_state(p@.take(i as int)).0,
            z as nat == escape_state(p@.take(i as int)).1,
        decreases p@.len() - i,
    {
        assert(p@.take(i + 1).drop_last() =~= p@.take(i as int));
        let b = p[i];
        if z >= 2 && b <= 3 {
            out.push(3);
            out.push(b);
            z = if b == 0 { 1 } else { 0 };
            assert(out@ =~= head + escape_state(p@.take(i as int)).0.push(3).push(b));
        } else if b == 0 {
            out.push(0);
            z = z + 1;
            assert(out@ =~= head + escape_state(p@.take(i as int)).0.push(0));
        } else {
            out.push(b);
            z = 0;
            assert(out@ =~= head + escape_state(p@.take(i as int)).0.push(b));
        }
        i = i + 1;
    }
    assert(p@.take(p@.len() as int) =~= p@);
    assert(out@ =~= start + wrap_spec(p@));
}

/// The units written as a stream.
pub fn write_stream(units: &Vec<Vec<u8>>) -> (r: Vec<u8>)
    ensures
        r@ == stream_of(units_view(units@)),
{
    let mut out: Vec<u8> = Vec::new();
    let mut i: usize = 0;
    while i < units.len()
        invariant
            i <= units@.len(),
            out@ == stream_of(units_view(units@.take(i as int))),
        decreases units@.len() - i,
    {
        write_unit(&mut out, &units[i]);
        assert(units_view(units@.take(i + 1)).drop_last() =~= units_view(units@.take(i as int)));
        i = i + 1;
    }
    assert(units@.take(units@.len() as int) =~= units@);
    out
}

} // verus!
