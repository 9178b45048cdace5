use vstd::prelude::*;

verus! {

/// Statistics about a single field in the dataset.
#[derive(Clone, Copy, Debug, PartialEq, Eq, Structural)]
pub struct FieldStatistics {
    /// Id of the field.
    pub id: u32,
    /// Bytes of the field on disk (after compression, if any); 0 for the
    /// legacy storage version.
    pub bytes_on_disk: u64,
}

/// Statistics about the data in the dataset.
#[derive(Clone, Debug)]
pub struct DataStatistics {
    /// One entry per schema field, in schema order.
    pub fields: Vec<FieldStatistics>,
}

/// The bytes that the probe results `ps` of one fragment report for field `id`.
pub open spec fn bytes_in(ps: Seq<(u32, u64)>, id: u32) -> int
    decreases ps.len(),
{
    if ps.len() == 0 {
        0
    } else {
        bytes_in(ps.drop_last(), id) + if ps.last().0 == id { ps.last().1 as int } else { 0 }
    }
}

/// The bytes that the probe results of all fragments report for field `id`.
pub open spec fn total_bytes(stats: Seq<Seq<(u32, u64)>>, id: u32) -> int
    decreases stats.len(),
{
    if stats.len() == 0 {
        0
    } else {
        total_bytes(stats.drop_last(), id) + bytes_in(stats.last(), id)
    }
}

pub open spec fn pair_lists(v: Seq<Vec<(u32, u64)>>) -> Seq<Seq<(u32, u64)>> {
    v.map_values(|p: Vec<(u32, u64)>| p@)
}

proof fn lemma_bytes_nonneg(ps: Seq<(u32, u64)>, id: u32)
    ensures
        bytes_in(ps, id) >= 0,
    decreases ps.len(),
{
    if ps.len() > 0 {
        lemma_bytes_nonneg(ps.drop_last(), id);
    }
}

proof fn lemma_total_monotone(stats: Seq<Seq<(u32, u64)>>, id: u32, a: int, b: int)
    requires
        0 <= a <= b <= stats.len(),
    ensures
        total_bytes(stats.subrange(0, a), id) <= total_bytes(stats.subrange(0, b), id),
    decreases b - a,
{
    if a < b {
        lemma_total_monotone(stats, id, a, b - 1);
        assert(stats.subrange(0, b).drop_last() =~= stats.subrange(0, b - 1));
        lemma_bytes_nonneg(stats[b - 1], id);
    }
}

proof fn lemma_bytes_prefix(ps: Seq<(u32, u64)>, id: u32, a: int, b: int)
    requires
        0 <= a <= b <= ps.len(),
    ensures
        bytes_in(ps.subrange(0, a), id) <= bytes_in(ps.subrange(0, b), id),
    decreases b - a,
{
    if a < b {
        lemma_bytes_prefix(ps, id, a, b - 1);
        assert(ps.subrange(0, b).drop_last() =~= ps.subrange(0, b - 1));
    }
}

/// The bytes on disk of field `id` over all fragments.
fn field_bytes(id: u32, fragment_stats: &Vec<Vec<(u32, u64)>>) -> (r: u64)
    requires
        total_bytes(pair_lists(fragment_stats@), id) <= u64::MAX,
    ensures
        r as int == total_bytes(pair_lists(fragment_stats@), id),
{
    let ghost all = pair_lists(fragment_stats@);
    let mut sum: u64 = 0;
    let mut i: usize = 0;
    while i < fragment_stats.len()
        invariant
            i <= fragment_stats@.len(),
            all == pair_lists(fragment_stats@),
            total_bytes(all, id) <= u64::MAX,
            sum as int == total_bytes(all.subrange(0, i as int), id),
        decreases fragment_stats.len() - i,
    {
        let ps = &fragment_stats[i];
        let ghost base = sum as int;
        proof {
            assert(all.subrange(0, i + 1).drop_last() =~= all.subrange(0, i as int));
            assert(all.subrange(0, i + 1).last() == ps@);
            lemma_total_monotone(all, id, i + 1, all.len() as int);
            assert(all.subrange(0, all.len() as int) =~= all);
        }
        let mut j: usize = 0;
        while j < ps.len()
            invariant
                j <= ps@.len(),
                sum as int == base + bytes_in(ps@.subrange(0, j as int), id),
                base + bytes_in(ps@, id) <= u64::MAX,
            decreases ps.len() - j,
        {
            proof {
                assert(ps@.subrange(0, j + 1).drop_last() =~= ps@.subrange(0, j as int));
                lemma_bytes_prefix(ps@, id, j + 1, ps@.len() as int);
                assert(ps@.subrange(0, ps@.len() as int) =~= ps@);
            }
            if ps[j].0 == id {
                sum = sum + ps[j].1;
            }
            j = j + 1;
        }
        assert(ps@.subrange(0, j as int) =~= ps@);
        i = i + 1;
    }
    assert(all.subrange(0, i as int) =~= all);
    sum
}

/// Per-field bytes on disk: one entry per id of `field_ids`, in that order,
/// with the bytes that the fragments' probe results report for it (all zero
/// for the legacy storage version, whose files carry no such statistics).
pub fn calculate_data_stats(
    field_ids: &Vec<u32>,
    is_legacy_storage: bool,
    fragment_stats: &Vec<Vec<(u32, u64)>>,
) -> (r: DataStatistics)
    requires
        !is_legacy_storage ==> forall|i: int| 0 <= i < field_ids@.len() ==> total_bytes(pair_lists(fragment_stats@), #[trigger] field_ids@[i]) <= u64::MAX,
    ensures
        r.fields@.len() == field_ids@.len(),
        forall|i: int| 0 <= i < field_ids@.len() ==> (#[trigger] r.fields@[i]).id == field_ids@[i]
            && r.fields@[i].bytes_on_disk as int == if is_legacy_storage {
                0
            } else {
                total_bytes(pair_lists(fragment_stats@), field_ids@[i])
            },
{
    let mut fields: Vec<FieldStatistics> = Vec::new();
    let mut i: usize = 0;
    while i < field_ids.len()
        invariant
            i <= field_ids@.len(),
            fields@.len() == i,
            !is_legacy_storage ==> forall|k: int| 0 <= k < field_ids@.len() ==> total_bytes(pair_lists(fragment_stats@), #[trigger] field_ids@[k]) <= u64::MAX,
            forall|k: int| 0 <= k < i ==> (#[trigger] fields@[k]).id == field_ids@[k]
                && fields@[k].bytes_on_disk as int == if is_legacy_storage {
                    0
                } else {
                    total_bytes(pair_lists(fragment_stats@), field_ids@[k])
                },
        decreases field_ids.len() - i,
    {
        let id = field_ids[i];
        let bytes_on_disk = if is_legacy_storage { 0 } else { field_bytes(id, fragment_stats) };
        fields.push(FieldStatistics { id, bytes_on_disk });
        i = i + 1;
    }
    DataStatistics { fields }
}

/// The bytes on disk of field `id` over all fragments, or `None` where the
/// sum does not fit in 64 bits.
fn field_bytes_checked(id: u32, fragment_stats: &Vec<Vec<(u32, u64)>>) -> (r: Option<u64>)
    ensures
        match r {
            Some(t) => t as int == total_bytes(pair_lists(fragment_stats@), id),
            None => total_bytes(pair_lists(fragment_stats@), id) > u64::MAX,
        },
{
    let ghost all = pair_lists(fragment_stats@);
    let mut sum: u64 = 0;
    let mut i: usize = 0;
    while i < fragment_stats.len()
        invariant
            i <= fragment_stats@.len(),
            all == pair_lists(fragment_stats@),
            sum as int == total_bytes(all.subrange(0, i as int), id),
        decreases fragment_stats.len() - i,
    {
        let ps = &fragment_stats[i];
        let ghost base = sum as int;
        proof {
            assert(all.subrange(0, i + 1).drop_last() =~= all.subrange(0, i as int));
            assert(all.subrange(0, i + 1).last() == ps@);
            lemma_total_monotone(all, id, i + 1, all.len() as int);
            assert(all.subrange(0, all.len() as int) =~= all);
        }
        let mut j: usize = 0;
        while j < ps.len()
            invariant
                j <= ps@.len(),
                i < all.len(),
                all == pair_lists(fragment_stats@),
                all[i as int] == ps@,
                base == total_bytes(all.subrange(0, i as int), id),
                base + bytes_in(ps@, id) <= total_bytes(all, id),
                sum as int == base + bytes_in(ps@.subrange(0, j as int), id),
            decreases ps.len() - j,
        {
            proof {
                assert(ps@.subrange(0, j + 1).drop_last() =~= ps@.subrange(0, j as int));
                lemma_bytes_prefix(ps@, id, j + 1, ps@.len() as int);
                assert(ps@.subrange(0, ps@.len() as int) =~= ps@);
            }
            if ps[j].0 == id {
                if ps[j].1 > u64::MAX - sum {
                    return None;
                }
                sum = sum + ps[j].1;
            }
            j = j + 1;
        }
        assert(ps@.subrange(0, j as int) =~= ps@);
        i = i + 1;
    }
    assert(all.subrange(0, i as int) =~= all);
    Some(sum)
}

/// Per-field bytes on disk as `calculate_data_stats` gives them, or `None`
/// where the bytes of some field do not fit in 64 bits.
pub fn calculate_data_stats_checked(
    field_ids: &Vec<u32>,
    is_legacy_storage: bool,
    fragment_stats: &Vec<Vec<(u32, u64)>>,
) -> (r: Option<DataStatistics>)
    ensures
        r is None <==> !is_legacy_storage && exists|i: int|
            0 <= i < field_ids@.len() && total_bytes(pair_lists(fragment_stats@), #[trigger] field_ids@[i]) > u64::MAX,
        r matches Some(d) ==> d.fields@.len() == field_ids@.len() && forall|i: int| 0 <= i < field_ids@.len() ==> (#[trigger] d.fields@[i]).id == field_ids@[i]
            && d.fields@[i].bytes_on_disk as int == if is_legacy_storage {
                0
            } else {
                total_bytes(pair_lists(fragment_stats@), field_ids@[i])
            },
{
    if !is_legacy_storage {
        let mut i: usize = 0;
        while i < field_ids.len()
            invariant
                !is_legacy_storage,
                i <= field_ids@.len(),
                forall|k: int| 0 <= k < i ==> total_bytes(pair_lists(fragment_stats@), #[trigger] field_ids@[k]) <= u64::MAX,
            decreases field_ids.len() - i,
        {
            match field_bytes_checked(field_ids[i], fragment_stats) {
                Some(_) => {},
                None => {
                    assert(total_bytes(pair_lists(fragment_stats@), field_ids@[i as int]) > u64::MAX);
                    return None;
                },
            }
            i = i + 1;
        }
    }
    Some(calculate_data_stats(field_ids, is_legacy_storage, fragment_stats))
}

} // verus!
