use crate::convert::{options_error, validate_options, RpuOptions};
use crate::demux::{rewrite_rpu_unit, rewrite_spec, DemuxError};
use crate::edit::{apply_edits, edit_records, first_edit_error, Edit, EditError};
use crate::nal::{classify, kind_of, units_view, NalKind};
use crate::rpu::{
    decode_rpu, decode_spec, encode_rpu, encoding_of, lemma_decoded_is_wf, rpu_wf, DecodeError,
    RpuRecord, RpuView,
};
use vstd::prelude::*;

verus! {

/// The metadata units among `us`, each rewritten as the options ask, or the
/// first failure.
pub open spec fn extract_spec(us: Seq<Seq<u8>>, o: RpuOptions) -> Result<Seq<Seq<u8>>, DemuxError>
    decreases us.len(),
{
    if us.len() == 0 {
        Ok(Seq::empty())
    } else {
        match extract_spec(us.drop_last(), o) {
            Err(e) => Err(e),
            Ok(out) => if kind_of(us.last()) == NalKind::Rpu {
                match rewrite_spec(us.last(), o, (us.len() - 1) as usize) {
                    Err(e) => Err(e),
                    Ok(w) => Ok(out.push(w)),
                }
            } else {
                Ok(out)
            },
        }
    }
}

pub proof fn lemma_extract_err_extends(us: Seq<Seq<u8>>, o: RpuOptions, k: int)
    requires
        0 <= k <= us.len(),
        extract_spec(us.take(k), o) is Err,
    ensures
        extract_spec(us, o) == extract_spec(us.take(k), o),
    decreases us.len() - k,
{
    if k < us.len() {
        assert(us.take(k + 1).drop_last() =~= us.take(k));
        assert(extract_spec(us.take(k + 1), o) == extract_spec(us.take(k), o));
        lemma_extract_err_extends(us, o, k + 1);
    } else {
        assert(us.take(k) =~= us);
    }
}

/// Pulls the metadata units out of a sequence of units (emulation prevention
/// removed), each decoded, converted as the options ask and encoded again.
pub fn extract_rpus(units: &Vec<Vec<u8>>, opts: &RpuOptions) -> (r: Result<
    Vec<Vec<u8>>,
    DemuxError,
>)
    ensures
        match r {
            Ok(out) => options_error(*opts) is None && extract_spec(units_view(units@), *opts)
                == Ok::<Seq<Seq<u8>>, DemuxError>(units_view(out@)),
            Err(e) => match options_error(*opts) {
                Some(c) => e == DemuxError::Config(c),
                None => extract_spec(units_view(units@), *opts) == Err::<
                    Seq<Seq<u8>>,
                    DemuxError,
                >(e),
            },
        },
{
    if let Err(e) = validate_options(opts) {
        return Err(DemuxError::Config(e));
    }
    let mut out: Vec<Vec<u8>> = Vec::new();
    let mut i: usize = 0;
    assert(units_view(units@.take(0)) =~= Seq::<Seq<u8>>::empty());
    assert(units_view(out@) =~= Seq::<Seq<u8>>::empty());
    while i < units.len()
        invariant
            i <= units@.len(),
            options_error(*opts) is None,
            extract_spec(units_view(units@.take(i as int)), *opts) == Ok::<
                Seq<Seq<u8>>,
                DemuxError,
            >(units_view(out@)),
        decreases units@.len() - i,
    {
        let u = &units[i];
        let ghost pre = units_view(units@.take(i + 1));
        assert(pre.drop_last() =~= units_view(units@.take(i as int)));
        assert(pre.last() == u@);
        if classify(u) == NalKind::Rpu {
            let w = match rewrite_rpu_unit(u, opts, i) {
                Err(e) => {
                    proof {
                        lemma_extract_err_extends(units_view(units@), *opts, i + 1);
                        assert(units_view(units@).take(i + 1) =~= pre);
                    }
                    return Err(e);
                },
                Ok(w) => w,
            };
            assert(units_view(out@.push(w)) =~= units_view(out@).push(w@));
            out.push(w);
        }
        i = i + 1;
    }
    assert(units@.take(units@.len() as int) =~= units@);
    Ok(out)
}

/// Why a sequence of metadata units could not be edited.
#[derive(Debug, Clone, Copy, PartialEq, Eq, Structural)]
pub enum EditUnitsError {
    /// The unit with this index does not decode.
    Decode(usize, DecodeError),
    /// The edit description was rejected.
    Edit(EditError),
}

/// Editing keeps a record encodable.
pub proof fn lemma_edits_keep_wf(edits: Seq<Edit>, v: RpuView, i: int, n: nat)
    requires
        rpu_wf(v),
        first_edit_error(edits, n) is None,
    ensures
        rpu_wf(apply_edits(edits, v, i)),
    decreases edits.len(),
{
    if edits.len() > 0 {
        assert(first_edit_error(edits.drop_last(), n) is None);
        lemma_edits_keep_wf(edits.drop_last(), v, i, n);
    }
}

pub open spec fn unit_record(u: Seq<u8>) -> Result<RpuView, DecodeError> {
    if u.len() < 2 {
        Err(DecodeError::OutOfData)
    } else {
        decode_spec(u.skip(2))
    }
}

/// Applies an edit description to a sequence of metadata units, one per
/// frame: every unit is decoded, the records are edited, and each is encoded
/// again behind its unit's header. Units are neither added, dropped nor reordered.
pub fn edit_units(units: &Vec<Vec<u8>>, edits: &Vec<Edit>) -> (r: Result<
    Vec<Vec<u8>>,
    EditUnitsError,
>)
    ensures
        match r {
            Ok(out) => {
                &&& first_edit_error(edits@, units@.len()) is None
                &&& out@.len() == units@.len()
                &&& forall|i: int|
                    0 <= i < units@.len() ==> (unit_record(units@[i]@) matches Ok(v)
                        && #[trigger] out@[i]@ == units@[i]@.take(2) + encoding_of(
                        apply_edits(edits@, v, i),
                    ))
            },
            Err(EditUnitsError::Decode(i, e)) => {
                &&& i < units@.len()
                &&& unit_record(units@[i as int]@) == Err::<RpuView, DecodeError>(e)
                &&& forall|j: int| 0 <= j < i ==> #[trigger] unit_record(units@[j]@) is Ok
            },
            Err(EditUnitsError::Edit(e)) => {
                &&& forall|j: int|
                    0 <= j < units@.len() ==> #[trigger] unit_record(units@[j]@) is Ok
                &&& first_edit_error(edits@, units@.len()) == Some(e)
            },
        },
{
    let mut records: Vec<RpuRecord> = Vec::new();
    let mut i: usize = 0;
    while i < units.len()
        invariant
            i <= units@.len(),
            records@.len() == i,
            forall|j: int|
                0 <= j < i ==> #[trigger] unit_record(units@[j]@) == Ok::<RpuView, DecodeError>(
                    records@[j]@,
                ),
        decreases units@.len() - i,
    {
        let u = &units[i];
        if u.len() < 2 {
            return Err(EditUnitsError::Decode(i, DecodeError::OutOfData));
        }
        let mut payload: Vec<u8> = Vec::new();
        let mut k: usize = 2;
        while k < u.len()
            invariant
                2 <= k <= u@.len(),
                payload@ == u@.subrange(2, k as int),
            decreases u@.len() - k,
        {
            payload.push(u[k]);
            assert(payload@ =~= u@.subrange(2, k + 1));
            k = k + 1;
        }
        assert(payload@ =~= u@.skip(2));
        match decode_rpu(&payload) {
            Err(e) => {
                return Err(EditUnitsError::Decode(i, e));
            },
            Ok(rec) => {
                records.push(rec);
            },
        }
        i = i + 1;
    }
    let edited = match edit_records(&records, edits) {
        Err(e) => {
            return Err(EditUnitsError::Edit(e));
        },
        Ok(v) => v,
    };
    let mut out: Vec<Vec<u8>> = Vec::new();
    let mut i: usize = 0;
    while i < units.len()
        invariant
            i <= units@.len(),
            edited@.len() == units@.len(),
            records@.len() == units@.len(),
            out@.len() == i,
            first_edit_error(edits@, records@.len()) is None,
            forall|j: int|
                0 <= j < units@.len() ==> #[trigger] unit_record(units@[j]@) == Ok::<
                    RpuView,
                    DecodeError,
                >(records@[j]@),
            forall|j: int|
                0 <= j < units@.len() ==> #[trigger] edited@[j]@ == apply_edits(
                    edits@,
                    records@[j]@,
                    j,
                ),
            forall|j: int|
                0 <= j < i ==> #[trigger] out@[j]@ == units@[j]@.take(2) + encoding_of(
                    apply_edits(edits@, records@[j]@, j),
                ),
        decreases units@.len() - i,
    {
        proof {
            assert(unit_record(units@[i as int]@) is Ok);
            lemma_decoded_is_wf(units@[i as int]@.skip(2));
            lemma_edits_keep_wf(edits@, records@[i as int]@, i as int, records@.len());
            assert(edited@[i as int]@ == apply_edits(edits@, records@[i as int]@, i as int));
        }
        let bytes = match encode_rpu(&edited[i]) {
            Err(_) => {
                return Err(EditUnitsError::Decode(i, DecodeError::OutOfData));
            },
            Ok(b) => b,
        };
        let u = &units[i];
        let mut w: Vec<u8> = Vec::new();
        w.push(u[0]);
        w.push(u[1]);
        let mut k: usize = 0;
        while k < bytes.len()
            invariant
                k <= bytes@.len(),
                u@.len() >= 2,
                w@ == u@.take(2) + bytes@.take(k as int),
            decreases bytes@.len() - k,
        {
            w.push(bytes[k]);
            assert(w@ =~= u@.take(2) + bytes@.take(k + 1));
            k = k + 1;
        }
        assert(bytes@.take(bytes@.len() as int) =~= bytes@);
        out.push(w);
        i = i + 1;
    }
    Ok(out)
}

} // verus!
