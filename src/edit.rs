use crate::rpu::{ActiveArea, RpuRecord, RpuView};
use vstd::prelude::*;

verus! {

/// Which records an edit applies to: all of them, one frame, or an inclusive
/// range of frames.
#[derive(Debug, Clone, Copy, PartialEq, Eq, Structural)]
pub enum EditScope {
    Global,
    Frame(usize),
    Range(usize, usize),
}

/// The field an edit overrides, and its new value.
#[derive(Debug, Clone, Copy, PartialEq, Eq, Structural)]
pub enum FieldOverride {
    ActiveArea(ActiveArea),
    CompatId(u8),
}

#[derive(Debug, Clone, Copy, PartialEq, Eq, Structural)]
pub struct Edit {
    pub scope: EditScope,
    pub field: FieldOverride,
}

/// Why an edit description was rejected; each carries the index of the edit.
#[derive(Debug, Clone, Copy, PartialEq, Eq, Structural)]
pub enum EditError {
    /// The scope names a frame outside the sequence, or an empty range.
    Scope(usize),
    /// The value does not fit the field.
    Field(usize),
}

pub open spec fn scope_valid(s: EditScope, n: nat) -> bool {
    match s {
        EditScope::Global => true,
        EditScope::Frame(f) => f < n,
        EditScope::Range(a, b) => a <= b && b < n,
    }
}

pub open spec fn field_valid(f: FieldOverride) -> bool {
    match f {
        FieldOverride::ActiveArea(_) => true,
        FieldOverride::CompatId(c) => c < 16,
    }
}

pub open spec fn in_scope(s: EditScope, i: int) -> bool {
    match s {
        EditScope::Global => true,
        EditScope::Frame(f) => i == f,
        EditScope::Range(a, b) => a <= i <= b,
    }
}

pub open spec fn apply_field(f: FieldOverride, v: RpuView) -> RpuView {
    match f {
        FieldOverride::ActiveArea(a) => RpuView { active_area: a, ..v },
        FieldOverride::CompatId(c) => RpuView { compat_id: c, ..v },
    }
}

/// The record at index `i` after the edits, applied in order.
pub open spec fn apply_edits(edits: Seq<Edit>, v: RpuView, i: int) -> RpuView
    decreases edits.len(),
{
    if edits.len() == 0 {
        v
    } else {
        let w = apply_edits(edits.drop_last(), v, i);
        let e = edits.last();
        if in_scope(e.scope, i) {
            apply_field(e.field, w)
        } else {
            w
        }
    }
}

/// The first invalid edit of the description, if any.
pub open spec fn first_edit_error(edits: Seq<Edit>, n: nat) -> Option<EditError>
    decreases edits.len(),
{
    if edits.len() == 0 {
        None
    } else {
        match first_edit_error(edits.drop_last(), n) {
            Some(e) => Some(e),
            None => {
                let k = (edits.len() - 1) as usize;
                if !scope_valid(edits.last().scope, n) {
                    Some(EditError::Scope(k))
                } else if !field_valid(edits.last().field) {
                    Some(EditError::Field(k))
                } else {
                    None
                }
            },
        }
    }
}

/// Checks every edit against a sequence of `n` records before any is applied.
pub fn validate_edits(edits: &Vec<Edit>, n: usize) -> (r: Result<(), EditError>)
    ensures
        match first_edit_error(edits@, n as nat) {
            None => r is Ok,
            Some(e) => r == Err::<(), EditError>(e),
        },
{
    let mut k: usize = 0;
    while k < edits.len()
        invariant
            k <= edits@.len(),
            first_edit_error(edits@.take(k as int), n as nat) is None,
        decreases edits@.len() - k,
    {
        let e = edits[k];
        assert(edits@.take(k + 1).drop_last() =~= edits@.take(k as int));
        let scope_ok = match e.scope {
            EditScope::Global => true,
            EditScope::Frame(f) => f < n,
            EditScope::Range(a, b) => a <= b && b < n,
        };
        if !scope_ok {
            proof {
                lemma_edit_error_extends(edits@, n as nat, k + 1);
            }
            return Err(EditError::Scope(k));
        }
        let field_ok = match e.field {
            FieldOverride::ActiveArea(_) => true,
            FieldOverride::CompatId(c) => c < 16,
        };
        if !field_ok {
            proof {
                lemma_edit_error_extends(edits@, n as nat, k + 1);
            }
            return Err(EditError::Field(k));
        }
        k = k + 1;
    }
    assert(edits@.take(edits@.len() as int) =~= edits@);
    Ok(())
}

pub proof fn lemma_edit_error_extends(edits: Seq<Edit>, n: nat, k: int)
    requires
        0 <= k <= edits.len(),
        first_edit_error(edits.take(k), n) is Some,
    ensures
        first_edit_error(edits, n) == first_edit_error(edits.take(k), n),
    decreases edits.len() - k,
{
    if k < edits.len() {
        assert(edits.take(k + 1).drop_last() =~= edits.take(k));
        lemma_edit_error_extends(edits, n, k + 1);
    } else {
        assert(edits.take(k) =~= edits);
    }
}

fn apply_edits_to(r: &RpuRecord, edits: &Vec<Edit>, i: usize) -> (o: RpuRecord)
    ensures
        o@ == apply_edits(edits@, r@, i as int),
{
    let mut o = r.copy();
    let mut k: usize = 0;
    while k < edits.len()
        invariant
            k <= edits@.len(),
            o@ == apply_edits(edits@.take(k as int), r@, i as int),
        decreases edits@.len() - k,
    {
        let e = edits[k];
        assert(edits@.take(k + 1).drop_last() =~= edits@.take(k as int));
        let hit = match e.scope {
            EditScope::Global => true,
            EditScope::Frame(f) => i == f,
            EditScope::Range(a, b) => a <= i && i <= b,
        };
        if hit {
            match e.field {
                FieldOverride::ActiveArea(a) => {
                    o.active_area = a;
                },
                FieldOverride::CompatId(c) => {
                    o.compat_id = c;
                },
            }
        }
        k = k + 1;
    }
    assert(edits@.take(edits@.len() as int) =~= edits@);
    o
}

/// Applies an edit description to a sequence of records, one per frame.
/// Every edit is checked first; the result has the same length and order, and
/// each record has the edits whose scope holds its index applied in order.
pub fn edit_records(records: &Vec<RpuRecord>, edits: &Vec<Edit>) -> (r: Result<
    Vec<RpuRecord>,
    EditError,
>)
    ensures
        match r {
            Ok(out) => first_edit_error(edits@, records@.len()) is None && out@.len()
                == records@.len() && forall|i: int|
                0 <= i < out@.len() ==> #[trigger] out@[i]@ == apply_edits(
                    edits@,
                    records@[i]@,
                    i,
                ),
            Err(e) => first_edit_error(edits@, records@.len()) == Some(e),
        },
{
    validate_edits(edits, records.len())?;
    let mut out: Vec<RpuRecord> = Vec::new();
    let mut i: usize = 0;
    while i < records.len()
        invariant
            i <= records@.len(),
            out@.len() == i,
            forall|j: int|
                0 <= j < i ==> #[trigger] out@[j]@ == apply_edits(edits@, records@[j]@, j),
        decreases records@.len() - i,
    {
        let o = apply_edits_to(&records[i], edits, i);
        out.push(o);
        i = i + 1;
    }
    Ok(out)
}

/// Scope isolation: a record whose index no edit's scope holds comes out as
/// it went in.
pub proof fn law_edit_scope_isolation(edits: Seq<Edit>, v: RpuView, i: int)
    requires
        forall|k: int| 0 <= k < edits.len() ==> !in_scope(#[trigger] edits[k].scope, i),
    ensures
        apply_edits(edits, v, i) == v,
    decreases edits.len(),
{
    if edits.len() > 0 {
        let dl = edits.drop_last();
        assert forall|k: int| 0 <= k < dl.len() implies !in_scope(#[trigger] dl[k].scope, i) by {
            assert(dl[k] == edits[k]);
        }
        law_edit_scope_isolation(dl, v, i);
        assert(!in_scope(edits[edits.len() - 1].scope, i));
    }
}

} // verus!
