use crate::convert::{
    convert, convert_spec, lemma_convert_keeps_wf, options_error, validate_options,
    ConvertError, RpuOptions,
};
use crate::nal::{
    classify, kind_of, split_units, stream_of, stream_units, unescape, unescape_spec,
    units_view, write_stream, NalKind,
};
use crate::rpu::{
    decode_rpu, decode_spec, encode_rpu, encoding_of, lemma_decoded_is_wf, DecodeError,
};
use vstd::prelude::*;

verus! {

/// Why splitting a stream into its layers failed.
#[derive(Debug, Clone, Copy, PartialEq, Eq, Structural)]
pub enum DemuxError {
    /// The options cannot be combined.
    Config(ConvertError),
    /// The stream holds no start code.
    MalformedStream,
    /// The metadata unit with this index among all units does not decode.
    Decode(usize, DecodeError),
    /// The metadata unit with this index cannot be converted as asked.
    Convert(usize, ConvertError),
}

/// What the metadata unit `u` becomes: its two header bytes, then the payload
/// of the converted record; or why it cannot be rewritten.
pub open spec fn rewrite_spec(u: Seq<u8>, o: RpuOptions, idx: usize) -> Result<Seq<u8>, DemuxError> {
    if u.len() < 2 {
        Err(DemuxError::Decode(idx, DecodeError::OutOfData))
    } else {
        match decode_spec(u.skip(2)) {
            Err(e) => Err(DemuxError::Decode(idx, e)),
            Ok(v) => match convert_spec(v, o) {
                Err(e) => Err(DemuxError::Convert(idx, e)),
                Ok(c) => Ok(u.take(2) + encoding_of(c)),
            },
        }
    }
}

/// What a unit becomes on its way to a sink, when nothing fails.
pub open spec fn routed(u: Seq<u8>, o: RpuOptions, idx: usize) -> Seq<u8> {
    if kind_of(u) == NalKind::Rpu {
        match rewrite_spec(u, o, idx) {
            Ok(w) => w,
            Err(_) => u,
        }
    } else {
        u
    }
}

/// The base-layer and enhancement-layer sinks after the units, in order, or
/// the first failure.
pub open spec fn demux_spec(us: Seq<Seq<u8>>, o: RpuOptions) -> Result<
    (Seq<Seq<u8>>, Seq<Seq<u8>>),
    DemuxError,
>
    decreases us.len(),
{
    if us.len() == 0 {
        Ok((Seq::empty(), Seq::empty()))
    } else {
        let idx = (us.len() - 1) as usize;
        match demux_spec(us.drop_last(), o) {
            Err(e) => Err(e),
            Ok((bl, el)) => {
                let u = us.last();
                if kind_of(u) == NalKind::Enhancement {
                    Ok((bl, el.push(u)))
                } else if kind_of(u) == NalKind::Rpu {
                    match rewrite_spec(u, o, idx) {
                        Err(e) => Err(e),
                        Ok(w) => Ok((bl.push(w), el)),
                    }
                } else {
                    Ok((bl.push(u), el))
                }
            },
        }
    }
}

pub open spec fn is_el(u: Seq<u8>) -> bool {
    kind_of(u) == NalKind::Enhancement
}

pub open spec fn not_el(u: Seq<u8>) -> bool {
    kind_of(u) != NalKind::Enhancement
}

/// Demultiplexing a whole stream: the two sinks as byte streams.
pub open spec fn demux_stream_spec(d: Seq<u8>, o: RpuOptions) -> Result<
    (Seq<u8>, Seq<u8>),
    DemuxError,
> {
    match options_error(o) {
        Some(e) => Err(DemuxError::Config(e)),
        None => match stream_units(d, 0) {
            None => Err(DemuxError::MalformedStream),
            Some(us) => match demux_spec(us.map_values(|u: Seq<u8>| unescape_spec(u)), o) {
                Err(e) => Err(e),
                Ok((bl, el)) => Ok((stream_of(bl), stream_of(el))),
            },
        },
    }
}

fn copy_unit(u: &Vec<u8>) -> (r: Vec<u8>)
    ensures
        r@ == u@,
{
    let mut out: Vec<u8> = Vec::new();
    let mut i: usize = 0;
    while i < u.len()
        invariant
            i <= u@.len(),
            out@ == u@.take(i as int),
        decreases u@.len() - i,
    {
        out.push(u[i]);
        assert(out@ =~= u@.take(i + 1));
        i = i + 1;
    }
    assert(u@.take(u@.len() as int) =~= u@);
    out
}

/// Rewrites one metadata unit: decode, convert, encode, keeping its header.
pub fn rewrite_rpu_unit(u: &Vec<u8>, opts: &RpuOptions, idx: usize) -> (r: Result<
    Vec<u8>,
    DemuxError,
>)
    ensures
        match r {
            Ok(w) => rewrite_spec(u@, *opts, idx) == Ok::<Seq<u8>, DemuxError>(w@),
            Err(e) => rewrite_spec(u@, *opts, idx) == Err::<Seq<u8>, DemuxError>(e),
        },
{
    if u.len() < 2 {
        return Err(DemuxError::Decode(idx, DecodeError::OutOfData));
    }
    let mut payload: Vec<u8> = Vec::new();
    let mut i: usize = 2;
    while i < u.len()
        invariant
            2 <= i <= u@.len(),
            payload@ == u@.subrange(2, i as int),
        decreases u@.len() - i,
    {
        payload.push(u[i]);
        assert(payload@ =~= u@.subrange(2, i + 1));
        i = i + 1;
    }
    assert(payload@ =~= u@.skip(2));
    let rec = match decode_rpu(&payload) {
        Err(e) => {
            return Err(DemuxError::Decode(idx, e));
        },
        Ok(r) => r,
    };
    let conv = match convert(&rec, opts) {
        Err(e) => {
            return Err(DemuxError::Convert(idx, e));
        },
        Ok(c) => c,
    };
    proof {
        lemma_decoded_is_wf(payload@);
        lemma_convert_keeps_wf(rec@, *opts);
    }
    let bytes = match encode_rpu(&conv) {
        Err(_) => {
            return Err(DemuxError::Decode(idx, DecodeError::OutOfData));
        },
        Ok(b) => b,
    };
    let mut out: Vec<u8> = Vec::new();
    out.push(u[0]);
    out.push(u[1]);
    let mut j: usize = 0;
    while j < bytes.len()
        invariant
            j <= bytes@.len(),
            out@ == u@.take(2) + bytes@.take(j as int),
        decreases bytes@.len() - j,
    {
        out.push(bytes[j]);
        assert(out@ =~= u@.take(2) + bytes@.take(j + 1));
        j = j + 1;
    }
    assert(bytes@.take(bytes@.len() as int) =~= bytes@);
    Ok(out)
}

/// Routes units (emulation prevention removed) to the base-layer sink, with
/// metadata units rewritten, and to the enhancement-layer sink.
pub fn demux_units(units: &Vec<Vec<u8>>, opts: &RpuOptions) -> (r: Result<
    (Vec<Vec<u8>>, Vec<Vec<u8>>),
    DemuxError,
>)
    ensures
        match r {
            Ok((bl, el)) => demux_spec(units_view(units@), *opts) == Ok::<
                (Seq<Seq<u8>>, Seq<Seq<u8>>),
                DemuxError,
            >((units_view(bl@), units_view(el@))),
            Err(e) => demux_spec(units_view(units@), *opts) == Err::<
                (Seq<Seq<u8>>, Seq<Seq<u8>>),
                DemuxError,
            >(e),
        },
{
    let mut bl: Vec<Vec<u8>> = Vec::new();
    let mut el: Vec<Vec<u8>> = Vec::new();
    let mut i: usize = 0;
    assert(units_view(units@.take(0)) =~= Seq::<Seq<u8>>::empty());
    assert(units_view(bl@) =~= Seq::<Seq<u8>>::empty());
    while i < units.len()
        invariant
            i <= units@.len(),
            demux_spec(units_view(units@.take(i as int)), *opts) == Ok::<
                (Seq<Seq<u8>>, Seq<Seq<u8>>),
                DemuxError,
            >((units_view(bl@), units_view(el@))),
        decreases units@.len() - i,
    {
        let u = &units[i];
        let ghost pre = units_view(units@.take(i + 1));
        assert(pre.drop_last() =~= units_view(units@.take(i as int)));
        assert(pre.last() == u@);
        match classify(u) {
            NalKind::Enhancement => {
                let c = copy_unit(u);
                assert(units_view(el@.push(c)) =~= units_view(el@).push(c@));
                el.push(c);
            },
            NalKind::Rpu => {
                let w = match rewrite_rpu_unit(u, opts, i) {
                    Err(e) => {
                        proof {
                            lemma_demux_err_extends(units_view(units@), *opts, i + 1);
                            assert(units_view(units@).take(i + 1) =~= pre);
                        }
                        return Err(e);
                    },
                    Ok(w) => w,
                };
                assert(units_view(bl@.push(w)) =~= units_view(bl@).push(w@));
                bl.push(w);
            },
            NalKind::Base => {
                let c = copy_unit(u);
                assert(units_view(bl@.push(c)) =~= units_view(bl@).push(c@));
                bl.push(c);
            },
        }
        i = i + 1;
    }
    assert(units@.take(units@.len() as int) =~= units@);
    Ok((bl, el))
}

/// Splits a stream into its base layer, with metadata units rewritten as the
/// options ask, and its enhancement layer.
pub fn demux(stream: &Vec<u8>, opts: &RpuOptions) -> (r: Result<(Vec<u8>, Vec<u8>), DemuxError>)
    ensures
        match r {
            Ok((bl, el)) => demux_stream_spec(stream@, *opts) == Ok::<
                (Seq<u8>, Seq<u8>),
                DemuxError,
            >((bl@, el@)),
            Err(e) => demux_stream_spec(stream@, *opts) == Err::<(Seq<u8>, Seq<u8>), DemuxError>(
                e,
            ),
        },
{
    if let Err(e) = validate_options(opts) {
        return Err(DemuxError::Config(e));
    }
    let raw = match split_units(stream) {
        Err(_) => {
            return Err(DemuxError::MalformedStream);
        },
        Ok(us) => us,
    };
    let ghost rawv = units_view(raw@);
    let mut units: Vec<Vec<u8>> = Vec::new();
    let mut i: usize = 0;
    while i < raw.len()
        invariant
            i <= raw@.len(),
            rawv == units_view(raw@),
            units@.len() == i,
            units_view(units@) == rawv.take(i as int).map_values(|u: Seq<u8>| unescape_spec(u)),
        decreases raw@.len() - i,
    {
        let u = unescape(&raw[i]);
        let ghost prev = units@;
        units.push(u);
        proof {
            let lhs = units_view(units@);
            let rhs = rawv.take(i + 1).map_values(|u: Seq<u8>| unescape_spec(u));
            assert forall|k: int| 0 <= k < lhs.len() implies lhs[k] == rhs[k] by {
                if k < i {
                    assert(units@[k] == prev[k]);
                    assert(units_view(prev)[k] == rawv.take(i as int).map_values(
                        |u: Seq<u8>| unescape_spec(u),
                    )[k]);
                } else {
                    assert(rawv[k] == raw@[k]@);
                }
            }
            assert(lhs =~= rhs);
        }
        i = i + 1;
    }
    assert(rawv.take(rawv.len() as int) =~= rawv);
    let (bl, el) = demux_units(&units, opts)?;
    Ok((write_stream(&bl), write_stream(&el)))
}

/// A failure on a prefix of the units is the failure of the whole.
pub proof fn lemma_demux_err_extends(us: Seq<Seq<u8>>, o: RpuOptions, k: int)
    requires
        0 <= k <= us.len(),
        demux_spec(us.take(k), o) is Err,
    ensures
        demux_spec(us, o) == demux_spec(us.take(k), o),
    decreases us.len() - k,
{
    if k < us.len() {
        assert(us.take(k + 1).drop_last() =~= us.take(k));
        assert(demux_spec(us.take(k + 1), o) == demux_spec(us.take(k), o));
        lemma_demux_err_extends(us, o, k + 1);
    } else {
        assert(us.take(k) =~= us);
    }
}

/// Demultiplexing completeness: every unit goes to exactly one sink, in its
/// order. The enhancement-layer sink holds the enhancement-layer units as they
/// were; the base-layer sink holds every other unit, metadata units rewritten;
/// together the sinks hold as many units as the scanner found.
pub proof fn law_demux_complete(us: Seq<Seq<u8>>, o: RpuOptions)
    ensures
        demux_spec(us, o) matches Ok((bl, el)) ==> {
            &&& el == us.filter(|u: Seq<u8>| is_el(u))
            &&& bl.len() == us.filter(|u: Seq<u8>| not_el(u)).len()
            &&& forall|k: int|
                0 <= k < bl.len() ==> (kind_of(us.filter(|u: Seq<u8>| not_el(u))[k])
                    != NalKind::Rpu ==> #[trigger] bl[k] == us.filter(|u: Seq<u8>| not_el(u))[k])
            &&& bl.len() + el.len() == us.len()
        },
    decreases us.len(),
{
    if us.len() > 0 {
        let dl = us.drop_last();
        law_demux_complete(dl, o);
        reveal_with_fuel(Seq::filter, 1);
        assert(us.drop_last() == dl);
    }
}

} // verus!
