use crate::rpu::{
    blocks_view, rpu_wf, ActiveArea, MetadataBlock, Profile, RpuRecord, RpuView,
};
use vstd::prelude::*;

verus! {

/// Why a record cannot be converted, or a conversion cannot be configured.
#[derive(Debug, Clone, Copy, PartialEq, Eq, Structural)]
pub enum ConvertError {
    /// The requested mode has no defined form for the record's profile.
    UnsupportedProfile,
    /// The mode value is not one of the defined modes.
    InvalidMode,
    /// Cropping was asked for together with the mode that leaves records uninterpreted.
    CropWithoutConversion,
}

/// The processing options: an optional mode and an independent crop switch.
/// Mode 0 rewrites records as they are, mode 1 makes them compatible with a
/// minimal enhancement layer, mode 2 makes them profile 8.1 compatible.
#[derive(Debug, Clone, Copy, PartialEq, Eq, Structural)]
pub struct RpuOptions {
    pub mode: Option<u8>,
    pub crop: bool,
}

pub open spec fn options_error(o: RpuOptions) -> Option<ConvertError> {
    if o.mode matches Some(m) && m > 2 {
        Some(ConvertError::InvalidMode)
    } else if o.crop && o.mode == Some(0u8) {
        Some(ConvertError::CropWithoutConversion)
    } else {
        None
    }
}

/// Checks the options before any record is touched.
pub fn validate_options(o: &RpuOptions) -> (r: Result<(), ConvertError>)
    ensures
        match options_error(*o) {
            None => r is Ok,
            Some(e) => r == Err::<(), ConvertError>(e),
        },
{
    match o.mode {
        Some(m) => {
            if m > 2 {
                return Err(ConvertError::InvalidMode);
            }
            if o.crop && m == 0 {
                return Err(ConvertError::CropWithoutConversion);
            }
            Ok(())
        },
        None => Ok(()),
    }
}

pub open spec fn zero_values(n: nat) -> Seq<u16> {
    Seq::new(n, |i: int| 0u16)
}

/// A record needs nothing more to serve a minimal-enhancement-layer consumer:
/// its profile has such a form and its quantization parameters are all zero.
pub open spec fn is_mel_compatible(v: RpuView) -> bool {
    v.profile != Profile::P5 && v.nlq == zero_values(v.nlq.len())
}

pub open spec fn mel_spec(v: RpuView) -> Result<RpuView, ConvertError> {
    if v.profile == Profile::P5 {
        Err(ConvertError::UnsupportedProfile)
    } else {
        Ok(RpuView { nlq: zero_values(v.nlq.len()), ..v })
    }
}

pub open spec fn p81_spec(v: RpuView) -> Result<RpuView, ConvertError> {
    if v.profile == Profile::P5 {
        Err(ConvertError::UnsupportedProfile)
    } else {
        Ok(RpuView { profile: Profile::P8, compat_id: 1, el_present: false, nlq: Seq::empty(), ..v })
    }
}

pub open spec fn crop_spec(v: RpuView) -> RpuView {
    RpuView { active_area: ActiveArea { left: 0, right: 0, top: 0, bottom: 0 }, ..v }
}

/// What the options make of a record.
pub open spec fn convert_spec(v: RpuView, o: RpuOptions) -> Result<RpuView, ConvertError> {
    let moded = if o.mode == Some(1u8) {
        mel_spec(v)
    } else if o.mode == Some(2u8) {
        p81_spec(v)
    } else if o.mode matches Some(m) && m > 2 {
        Err(ConvertError::InvalidMode)
    } else {
        Ok(v)
    };
    match moded {
        Err(e) => Err(e),
        Ok(m) => if o.crop && o.mode != Some(0u8) {
            Ok(crop_spec(m))
        } else {
            Ok(m)
        },
    }
}

fn copy_values(vs: &Vec<u16>) -> (r: Vec<u16>)
    ensures
        r@ == vs@,
{
    let mut out: Vec<u16> = Vec::new();
    let mut i: usize = 0;
    while i < vs.len()
        invariant
            i <= vs@.len(),
            out@ == vs@.take(i as int),
        decreases vs@.len() - i,
    {
        out.push(vs[i]);
        assert(out@ =~= vs@.take(i + 1));
        i = i + 1;
    }
    assert(vs@.take(vs@.len() as int) =~= vs@);
    out
}

fn copy_blocks(bs: &Vec<MetadataBlock>) -> (r: Vec<MetadataBlock>)
    ensures
        blocks_view(r@) == blocks_view(bs@),
{
    let mut out: Vec<MetadataBlock> = Vec::new();
    let mut i: usize = 0;
    while i < bs.len()
        invariant
            i <= bs@.len(),
            out@.len() == i,
            blocks_view(out@) == blocks_view(bs@.take(i as int)),
        decreases bs@.len() - i,
    {
        let b = MetadataBlock { level: bs[i].level, values: copy_values(&bs[i].values) };
        assert(b@ == bs@[i as int]@);
        let ghost prev = out@;
        out.push(b);
        proof {
            let lhs = blocks_view(out@);
            let rhs = blocks_view(bs@.take(i + 1));
            assert(lhs.len() == rhs.len());
            assert forall|j: int| 0 <= j < lhs.len() implies lhs[j] == rhs[j] by {
                if j < i {
                    assert(out@[j] == prev[j]);
                    assert(blocks_view(prev)[j] == blocks_view(bs@.take(i as int))[j]);
                }
            }
            assert(lhs =~= rhs);
        }
        i = i + 1;
    }
    assert(bs@.take(bs@.len() as int) =~= bs@);
    out
}

impl RpuRecord {
    /// A copy of the record.
    pub fn copy(&self) -> (r: RpuRecord)
        ensures
            r@ == self@,
    {
        RpuRecord {
            profile: self.profile,
            compat_id: self.compat_id,
            el_present: self.el_present,
            nlq: copy_values(&self.nlq),
            blocks: copy_blocks(&self.blocks),
            active_area: self.active_area,
            checksum: self.checksum,
        }
    }
}

/// Makes a record compatible with a minimal enhancement layer: the
/// quantization parameters, which only a full enhancement layer uses, become zero.
pub fn convert_mel(r: &RpuRecord) -> (res: Result<RpuRecord, ConvertError>)
    ensures
        match res {
            Ok(o) => mel_spec(r@) == Ok::<RpuView, ConvertError>(o@),
            Err(e) => mel_spec(r@) == Err::<RpuView, ConvertError>(e),
        },
{
    if r.profile == Profile::P5 {
        return Err(ConvertError::UnsupportedProfile);
    }
    let mut nlq: Vec<u16> = Vec::new();
    let mut i: usize = 0;
    while i < r.nlq.len()
        invariant
            i <= r.nlq@.len(),
            nlq@ == zero_values(i as nat),
        decreases r.nlq@.len() - i,
    {
        nlq.push(0);
        assert(nlq@ =~= zero_values((i + 1) as nat));
        i = i + 1;
    }
    let mut o = r.copy();
    o.nlq = nlq;
    assert(o@ == RpuView { nlq: zero_values(r.nlq@.len()), ..r@ });
    Ok(o)
}

/// Rewrites a record in the profile 8.1 layout: no enhancement layer, and
/// compatibility id 1.
pub fn convert_p81(r: &RpuRecord) -> (res: Result<RpuRecord, ConvertError>)
    ensures
        match res {
            Ok(o) => p81_spec(r@) == Ok::<RpuView, ConvertError>(o@),
            Err(e) => p81_spec(r@) == Err::<RpuView, ConvertError>(e),
        },
{
    if r.profile == Profile::P5 {
        return Err(ConvertError::UnsupportedProfile);
    }
    let mut o = r.copy();
    o.profile = Profile::P8;
    o.compat_id = 1;
    o.el_present = false;
    o.nlq = Vec::new();
    assert(o@ =~= RpuView {
        profile: Profile::P8,
        compat_id: 1,
        el_present: false,
        nlq: Seq::empty(),
        ..r@
    });
    Ok(o)
}

/// Sets the four active-area offsets to zero.
pub fn crop(r: &RpuRecord) -> (o: RpuRecord)
    ensures
        o@ == crop_spec(r@),
{
    let mut o = r.copy();
    o.active_area = ActiveArea { left: 0, right: 0, top: 0, bottom: 0 };
    o
}

/// Applies the options to one record: the mode's conversion, then the crop.
pub fn convert(r: &RpuRecord, opts: &RpuOptions) -> (res: Result<RpuRecord, ConvertError>)
    ensures
        match res {
            Ok(o) => convert_spec(r@, *opts) == Ok::<RpuView, ConvertError>(o@),
            Err(e) => convert_spec(r@, *opts) == Err::<RpuView, ConvertError>(e),
        },
{
    let moded = match opts.mode {
        Some(1) => convert_mel(r)?,
        Some(2) => convert_p81(r)?,
        Some(m) => {
            if m > 2 {
                return Err(ConvertError::InvalidMode);
            }
            r.copy()
        },
        None => r.copy(),
    };
    let cropping = opts.crop && opts.mode != Some(0u8);
    if cropping {
        Ok(crop(&moded))
    } else {
        Ok(moded)
    }
}

/// Cropping twice is cropping once.
pub proof fn law_crop_idempotent(v: RpuView)
    ensures
        crop_spec(crop_spec(v)) == crop_spec(v),
{
}

/// The minimal-enhancement-layer conversion leaves a compatible record as it
/// is, and its result is compatible, so applying it twice is applying it once.
pub proof fn law_mel_idempotent(v: RpuView)
    ensures
        is_mel_compatible(v) ==> mel_spec(v) == Ok::<RpuView, ConvertError>(v),
        mel_spec(v) matches Ok(m) ==> is_mel_compatible(m) && mel_spec(m) == Ok::<
            RpuView,
            ConvertError,
        >(m),
{
    if let Ok(m) = mel_spec(v) {
        assert(m.nlq =~= zero_values(m.nlq.len()));
        assert(RpuView { nlq: zero_values(m.nlq.len()), ..m } =~= m);
    }
    if is_mel_compatible(v) {
        assert(RpuView { nlq: zero_values(v.nlq.len()), ..v } =~= v);
    }
}

/// Every conversion keeps a record encodable.
pub proof fn lemma_convert_keeps_wf(v: RpuView, o: RpuOptions)
    requires
        rpu_wf(v),
    ensures
        convert_spec(v, o) matches Ok(c) ==> rpu_wf(c),
{
}

} // verus!
