use vstd::prelude::*;
use crate::error::AnalysisError;

verus! {

/// A record: one categorical value id per field.
pub type Record = Vec<u64>;

/// A generalized record: `None` marks a wildcarded field.
pub type Pattern = Vec<Option<u64>>;

/// Which fields a pattern keeps (`true`) and which it wildcards (`false`).
pub type Mask = Vec<bool>;

/// The pattern that `mask` makes of `record`.
pub open spec fn masked(record: Seq<u64>, mask: Seq<bool>) -> Seq<Option<u64>> {
    Seq::new(record.len(), |i: int| if mask[i] { Some(record[i]) } else { None })
}

pub open spec fn masks_view(masks: Seq<Mask>) -> Seq<Seq<bool>> {
    masks.map_values(|m: Mask| m@)
}

pub open spec fn patterns_view(ps: Seq<Pattern>) -> Seq<Seq<Option<u64>>> {
    ps.map_values(|p: Pattern| p@)
}

pub open spec fn records_view(rs: Seq<Record>) -> Seq<Seq<u64>> {
    rs.map_values(|r: Record| r@)
}

/// No mask occurs twice.
pub open spec fn masks_distinct(masks: Seq<Seq<bool>>) -> bool {
    forall|a: int, b: int| 0 <= a < masks.len() && 0 <= b < masks.len() && a != b ==> #[trigger] masks[a] != #[trigger] masks[b]
}

/// Every mask has the record's width.
pub open spec fn widths_match(width: nat, masks: Seq<Seq<bool>>) -> bool {
    forall|j: int| 0 <= j < masks.len() ==> #[trigger] masks[j].len() == width
}

/// One pattern per mask, in the order of the masks.
pub open spec fn generated(record: Seq<u64>, masks: Seq<Seq<bool>>) -> Seq<Seq<Option<u64>>> {
    masks.map_values(|m: Seq<bool>| masked(record, m))
}

/// Keeps the fields of `record` that `mask` selects and wildcards the others.
pub fn apply_mask(record: &Record, mask: &Mask) -> (r: Pattern)
    requires
        record@.len() == mask@.len(),
    ensures
        r@ == masked(record@, mask@),
{
    let mut r: Pattern = Vec::new();
    let mut i: usize = 0;
    while i < record.len()
        invariant
            i <= record@.len(),
            record@.len() == mask@.len(),
            r@ =~= masked(record@, mask@).subrange(0, i as int),
        decreases record@.len() - i,
    {
        if mask[i] {
            r.push(Some(record[i]));
        } else {
            r.push(None);
        }
        i += 1;
    }
    assert(r@ =~= masked(record@, mask@));
    r
}

/// Expands `record` into one generalized pattern per mask, keeping the order
/// of `masks`; a mask whose width differs from the record's is refused.
pub fn generate(record: &Record, masks: &Vec<Mask>) -> (r: Result<Vec<Pattern>, AnalysisError>)
    ensures
        r is Ok <==> widths_match(record@.len(), masks_view(masks@)),
        r is Err ==> r == Err::<Vec<Pattern>, AnalysisError>(AnalysisError::InvalidWidth),
        r matches Ok(ps) ==> patterns_view(ps@) == generated(record@, masks_view(masks@)),
        r matches Ok(ps) ==> ps@.len() == masks@.len(),
{
    let mut out: Vec<Pattern> = Vec::new();
    let mut j: usize = 0;
    while j < masks.len()
        invariant
            j <= masks@.len(),
            widths_match(record@.len(), masks_view(masks@).subrange(0, j as int)),
            patterns_view(out@) =~= generated(record@, masks_view(masks@)).subrange(0, j as int),
        decreases masks@.len() - j,
    {
        if masks[j].len() != record.len() {
            assert(masks_view(masks@)[j as int].len() != record@.len());
            return Err(AnalysisError::InvalidWidth);
        }
        let p = apply_mask(record, &masks[j]);
        let ghost before = out@;
        out.push(p);
        assert(out@ =~= before.push(p));
        assert(patterns_view(out@) =~= patterns_view(before).push(p@));
        assert(masks_view(masks@).subrange(0, j + 1) =~= masks_view(masks@).subrange(0, j as int).push(masks_view(masks@)[j as int]));
        j += 1;
    }
    assert(masks_view(masks@).subrange(0, j as int) =~= masks_view(masks@));
    assert(patterns_view(out@) =~= generated(record@, masks_view(masks@)));
    Ok(out)
}

/// A copy of `p`.
pub fn copy_pattern(p: &Pattern) -> (r: Pattern)
    ensures
        r@ == p@,
{
    let mut r: Pattern = Vec::new();
    let mut i: usize = 0;
    while i < p.len()
        invariant
            i <= p@.len(),
            r@ =~= p@.subrange(0, i as int),
        decreases p@.len() - i,
    {
        r.push(p[i]);
        i += 1;
    }
    assert(r@ =~= p@);
    r
}

/// The mask of four fields read off the binary digits of `n`, most
/// significant first.
pub open spec fn mask_of(n: int) -> Seq<bool> {
    seq![(n / 8) % 2 == 1, (n / 4) % 2 == 1, (n / 2) % 2 == 1, n % 2 == 1]
}

/// The mask keeps some field and wildcards some field.
pub open spec fn is_proper(m: Seq<bool>) -> bool {
    (exists|i: int| 0 <= i < m.len() && m[i]) && (exists|i: int| 0 <= i < m.len() && !m[i])
}

/// A proper mask wildcards some field of every record of its width, and
/// keeps some other.
pub proof fn lemma_proper_mask_wildcards(record: Seq<u64>, mask: Seq<bool>)
    requires
        is_proper(mask),
        mask.len() == record.len(),
    ensures
        exists|i: int| 0 <= i < record.len() && masked(record, mask)[i] is None,
        exists|i: int| 0 <= i < record.len() && masked(record, mask)[i] is Some,
{
    let i = choose|i: int| 0 <= i < mask.len() && !mask[i];
    let j = choose|j: int| 0 <= j < mask.len() && mask[j];
    assert(masked(record, mask)[i] is None);
    assert(masked(record, mask)[j] is Some);
}

/// The number of masks in the standard configuration.
pub const STANDARD_MASK_COUNT: usize = 14;

/// The standard configuration for records of four fields: every mask other
/// than all-kept and all-wildcarded, in binary counting order from `0001`
/// to `1110`.
pub fn standard_masks() -> (r: Vec<Mask>)
    ensures
        r@.len() == STANDARD_MASK_COUNT,
        forall|j: int| 0 <= j < r@.len() ==> (#[trigger] r@[j])@ == mask_of(j + 1),
        forall|j: int| 0 <= j < r@.len() ==> is_proper(#[trigger] masks_view(r@)[j]),
        widths_match(4, masks_view(r@)),
        masks_distinct(masks_view(r@)),
{
    let mut r: Vec<Mask> = Vec::new();
    let mut n: u64 = 1;
    while n <= 14
        invariant
            1 <= n <= 15,
            r@.len() == n - 1,
            forall|j: int| 0 <= j < r@.len() ==> (#[trigger] r@[j])@ == mask_of(j + 1),
        decreases 15 - n,
    {
        let mut m: Mask = Vec::new();
        m.push((n / 8) % 2 == 1);
        m.push((n / 4) % 2 == 1);
        m.push((n / 2) % 2 == 1);
        m.push(n % 2 == 1);
        assert(m@ =~= mask_of(n as int));
        r.push(m);
        n += 1;
    }
    proof {
        assert forall|j: int| 0 <= j < r@.len() implies is_proper(#[trigger] masks_view(r@)[j]) by {
            let m = mask_of(j + 1);
            assert(masks_view(r@)[j] == m);
            let n = j + 1;
            assert(1 <= n <= 14);
            assert(m[0] || m[1] || m[2] || m[3]);
            assert(!m[0] || !m[1] || !m[2] || !m[3]);
        }
        assert forall|a: int, b: int| 0 <= a < r@.len() && 0 <= b < r@.len() && a != b
            implies #[trigger] masks_view(r@)[a] != #[trigger] masks_view(r@)[b] by {
            let ma = mask_of(a + 1);
            let mb = mask_of(b + 1);
            assert(masks_view(r@)[a] == ma);
            assert(masks_view(r@)[b] == mb);
            if ma == mb {
                assert(ma[0] == mb[0] && ma[1] == mb[1] && ma[2] == mb[2] && ma[3] == mb[3]);
                assert(a + 1 == b + 1);
            }
        }
    }
    r
}

/// A copy of the masks `ms`.
pub fn copy_masks(ms: &Vec<Mask>) -> (r: Vec<Mask>)
    ensures
        masks_view(r@) == masks_view(ms@),
{
    let mut r: Vec<Mask> = Vec::new();
    let mut j: usize = 0;
    while j < ms.len()
        invariant
            j <= ms@.len(),
            masks_view(r@) =~= masks_view(ms@).subrange(0, j as int),
        decreases ms@.len() - j,
    {
        let src = &ms[j];
        let mut m: Mask = Vec::new();
        let mut i: usize = 0;
        while i < src.len()
            invariant
                i <= src@.len(),
                m@ =~= src@.subrange(0, i as int),
            decreases src@.len() - i,
        {
            m.push(src[i]);
            i += 1;
        }
        assert(m@ =~= src@);
        let ghost before = r@;
        r.push(m);
        assert(r@ =~= before.push(m));
        assert(masks_view(r@) =~= masks_view(before).push(m@));
        j += 1;
    }
    assert(masks_view(ms@).subrange(0, j as int) =~= masks_view(ms@));
    r
}

} // verus!
