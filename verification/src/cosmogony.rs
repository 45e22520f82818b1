//! The output artefact: the zone catalog with its metadata, and the
//! statistics gathered while typing — counts by zone type, zones
//! whose country stayed unknown, and per-country tallies of missing
//! rules and unhandled admin levels.

use crate::strings::str_eq;
use crate::zone::spec_rank;
use crate::zone::Zone;
use vstd::prelude::*;

verus! {

/// A counter table keyed by country code, seen as plain values.
pub open spec fn counters_view(v: Seq<(String, u64)>) -> Seq<(Seq<char>, u64)> {
    v.map_values(|p: (String, u64)| (p.0@, p.1))
}

/// `m` with the count under `key` one higher, saturating; a missing
/// key is added with count one. Keys already present keep their
/// place and order.
pub open spec fn spec_bump<K>(m: Seq<(K, u64)>, key: K) -> Seq<(K, u64)>
    decreases m.len(),
{
    if m.len() == 0 {
        seq![(key, 1u64)]
    } else if m[0].0 == key {
        seq![(m[0].0, if m[0].1 < u64::MAX { (m[0].1 + 1) as u64 } else { u64::MAX })] + m.skip(1)
    } else {
        seq![m[0]] + spec_bump(m.skip(1), key)
    }
}

/// Adds one, saturating, to the counter under `key` in a table of
/// per-country counts.
pub fn bump_counter(v: &mut Vec<(String, u64)>, key: &str)
    ensures
        counters_view(final(v)@) == spec_bump(counters_view(old(v)@), key@),
{
    let mut i: usize = 0;
    while i < v.len()
        invariant
            i <= v@.len(),
            v@ == old(v)@,
            forall|j: int| 0 <= j < i ==> (#[trigger] counters_view(v@)[j]).0 != key@,
        decreases v@.len() - i,
    {
        if str_eq(v[i].0.as_str(), key) {
            let c = v[i].1;
            let c2 = if c < u64::MAX {
                c + 1
            } else {
                c
            };
            let name = v[i].0.clone();
            let ghost before = counters_view(v@);
            v[i] = (name, c2);
            proof {
                lemma_bump_prefix(before, key@, i as int);
                assert(counters_view(v@) =~= before.update(i as int, (key@, c2)));
                assert(spec_bump(before, key@) =~= before.update(i as int, (key@, c2)));
            }
            return ;
        }
        i = i + 1;
    }
    let ghost before = counters_view(v@);
    v.push((key.to_owned(), 1));
    proof {
        lemma_bump_append(before, key@);
        assert(counters_view(v@) =~= before + seq![(key@, 1u64)]);
    }
}

/// Bumping a key first held at position `i` rewrites that entry and
/// nothing else.
proof fn lemma_bump_prefix<K>(m: Seq<(K, u64)>, key: K, i: int)
    requires
        0 <= i < m.len(),
        forall|j: int| 0 <= j < i ==> (#[trigger] m[j]).0 != key,
        m[i].0 == key,
    ensures
        spec_bump(m, key) == m.update(
            i,
            (key, if m[i].1 < u64::MAX {
                (m[i].1 + 1) as u64
            } else {
                u64::MAX
            }),
        ),
    decreases i,
{
    if i == 0 {
        assert(spec_bump(m, key) =~= m.update(
            0,
            (key, if m[0].1 < u64::MAX {
                (m[0].1 + 1) as u64
            } else {
                u64::MAX
            }),
        ));
    } else {
        assert(forall|j: int| 0 <= j < i - 1 ==> #[trigger] m.skip(1)[j] == m[j + 1]);
        lemma_bump_prefix(m.skip(1), key, i - 1);
        assert(spec_bump(m, key) =~= m.update(
            i,
            (key, if m[i].1 < u64::MAX {
                (m[i].1 + 1) as u64
            } else {
                u64::MAX
            }),
        ));
    }
}

/// Bumping a key that no entry holds appends it with count one.
proof fn lemma_bump_append<K>(m: Seq<(K, u64)>, key: K)
    requires
        forall|j: int| 0 <= j < m.len() ==> (#[trigger] m[j]).0 != key,
    ensures
        spec_bump(m, key) == m + seq![(key, 1u64)],
    decreases m.len(),
{
    if m.len() == 0 {
        assert(spec_bump(m, key) =~= m + seq![(key, 1u64)]);
    } else {
        assert(forall|j: int| 0 <= j < m.len() - 1 ==> #[trigger] m.skip(1)[j] == m[j + 1]);
        lemma_bump_append(m.skip(1), key);
        assert(spec_bump(m, key) =~= m + seq![(key, 1u64)]);
    }
}

/// How many zones of the first `k` carry a type of rank `r`.
pub open spec fn spec_count_rank(zones: Seq<Zone>, r: int, k: int) -> int
    decreases k,
{
    if k <= 0 {
        0
    } else {
        spec_count_rank(zones, r, k - 1) + (match zones[k - 1].zone_type {
            Some(t) => {
                if spec_rank(t) == r {
                    1int
                } else {
                    0int
                }
            },
            None => 0int,
        })
    }
}

/// The statistics of a build: zones counted by type rank, zones
/// whose country stayed unknown, and per-country tallies of missing
/// rule files and of unhandled admin levels.
#[derive(Debug)]
pub struct CosmogonyStats {
    pub zone_count_by_type: Vec<u64>,
    pub zone_without_country: u64,
    pub zone_with_unkwown_country_rules: Vec<(String, u64)>,
    pub unhandled_admin_level: Vec<(String, u32, u64)>,
}

impl CosmogonyStats {
    /// Empty statistics.
    pub fn new() -> (r: CosmogonyStats)
        ensures
            r.zone_count_by_type@.len() == 0,
            r.zone_without_country == 0,
            r.zone_with_unkwown_country_rules@.len() == 0,
            r.unhandled_admin_level@.len() == 0,
    {
        CosmogonyStats {
            zone_count_by_type: Vec::new(),
            zone_without_country: 0,
            zone_with_unkwown_country_rules: Vec::new(),
            unhandled_admin_level: Vec::new(),
        }
    }
}

impl Default for CosmogonyStats {
    fn default() -> (r: CosmogonyStats)
        ensures
            r.zone_count_by_type@.len() == 0,
            r.zone_without_country == 0,
            r.zone_with_unkwown_country_rules@.len() == 0,
            r.unhandled_admin_level@.len() == 0,
    {
        CosmogonyStats::new()
    }
}

impl CosmogonyStats {
    /// Counts the zones by type: afterwards the entry at each rank
    /// holds how many zones carry a type of that rank. Untyped
    /// zones are not counted.
    pub fn compute(&mut self, zones: &Vec<Zone>)
        requires
            zones@.len() < u64::MAX,
        ensures
            final(self).zone_count_by_type@.len() == 8,
            forall|r: int|
                0 <= r < 8 ==> #[trigger] final(self).zone_count_by_type@[r] as int
                    == spec_count_rank(zones@, r, zones@.len() as int),
            *final(self) == (CosmogonyStats {
                zone_count_by_type: final(self).zone_count_by_type,
                ..*old(self)
            }),
    {
        let mut counts: Vec<u64> = Vec::new();
        let mut r: usize = 0;
        while r < 8
            invariant
                counts@.len() == r,
                r <= 8,
                forall|r2: int| 0 <= r2 < r ==> #[trigger] counts@[r2] == 0,
            decreases 8 - r,
        {
            counts.push(0);
            r = r + 1;
        }
        let mut i: usize = 0;
        while i < zones.len()
            invariant
                i <= zones@.len(),
                zones@.len() < u64::MAX,
                counts@.len() == 8,
                forall|r2: int|
                    0 <= r2 < 8 ==> #[trigger] counts@[r2] as int == spec_count_rank(
                        zones@,
                        r2,
                        i as int,
                    ),
                forall|r2: int| 0 <= r2 < 8 ==> #[trigger] counts@[r2] as int <= i as int,
            decreases zones@.len() - i,
        {
            proof {
                assert forall|r2: int| 0 <= r2 < 8 implies spec_count_rank(zones@, r2, i as int)
                    <= i as int by {
                    lemma_count_rank_bound(zones@, r2, i as int);
                }
            }
            match &zones[i].zone_type {
                Some(t) => {
                    let rk = t.rank() as usize;
                    let c = counts[rk];
                    counts[rk] = c + 1;
                },
                None => {},
            }
            i = i + 1;
        }
        self.zone_count_by_type = counts;
    }
}

/// No rank is counted more often than there are zones looked at.
proof fn lemma_count_rank_bound(zones: Seq<Zone>, r: int, k: int)
    requires
        0 <= k <= zones.len(),
    ensures
        0 <= spec_count_rank(zones, r, k) <= k,
    decreases k,
{
    if k > 0 {
        lemma_count_rank_bound(zones, r, k - 1);
    }
}

/// A counter table keyed by country code and admin level.
pub open spec fn level_counters_view(v: Seq<(String, u32, u64)>) -> Seq<((Seq<char>, u32), u64)> {
    v.map_values(|p: (String, u32, u64)| ((p.0@, p.1), p.2))
}

/// Adds one, saturating, to the counter under a country code and
/// admin level.
pub fn bump_level_counter(v: &mut Vec<(String, u32, u64)>, key: &str, level: u32)
    ensures
        level_counters_view(final(v)@) == spec_bump(level_counters_view(old(v)@), (key@, level)),
{
    let mut i: usize = 0;
    while i < v.len()
        invariant
            i <= v@.len(),
            v@ == old(v)@,
            forall|j: int| 0 <= j < i ==> (#[trigger] level_counters_view(v@)[j]).0 != (key@, level),
        decreases v@.len() - i,
    {
        if v[i].1 == level && str_eq(v[i].0.as_str(), key) {
            let c = v[i].2;
            let c2 = if c < u64::MAX {
                c + 1
            } else {
                c
            };
            let name = v[i].0.clone();
            let ghost before = level_counters_view(v@);
            v[i] = (name, level, c2);
            proof {
                lemma_bump_prefix(before, (key@, level), i as int);
                assert(level_counters_view(v@) =~= before.update(i as int, ((key@, level), c2)));
                assert(spec_bump(before, (key@, level)) =~= before.update(
                    i as int,
                    ((key@, level), c2),
                ));
            }
            return ;
        }
        i = i + 1;
    }
    let ghost before = level_counters_view(v@);
    v.push((key.to_owned(), level, 1));
    proof {
        lemma_bump_append(before, (key@, level));
        assert(level_counters_view(v@) =~= before + seq![((key@, level), 1u64)]);
    }
}

/// The metadata written beside the zones: the source file's name
/// and the statistics.
#[derive(Debug)]
pub struct CosmogonyMetadata {
    pub osm_filename: String,
    pub stats: CosmogonyStats,
}

/// The whole output: the typed, labelled, parented zone catalog and
/// its metadata.
#[derive(Debug)]
pub struct Cosmogony {
    pub zones: Vec<Zone>,
    pub meta: CosmogonyMetadata,
}

} // verus!
