//! Wiring zones into a forest: the envelope pre-filter that yields
//! inclusion candidates, the regrouping of confirmed cover answers
//! into inclusion lists, and the choice of each zone's parent.
//!
//! The exact geometric cover test lives with the caller: it answers,
//! for each candidate pair the pre-filter emits, whether the
//! candidate's boundary truly covers the zone's. Everything around
//! those answers is decided here.

use crate::strings::lemma_lex_trans;
use crate::strings::lex_lt;
use crate::strings::str_lt;
use crate::zone::spec_envelope_covers;
use crate::zone::spec_rank;
use crate::zone::Zone;
use crate::zone::ZoneIndex;
use vstd::prelude::*;

verus! {

/// Whether a list of handles holds the index `j`.
pub open spec fn row_has(row: Seq<ZoneIndex>, j: int) -> bool {
    exists|k: int| 0 <= k < row.len() && row[k].index == j
}

/// Whether the handle list holds the index `j`.
pub fn contains_index(row: &Vec<ZoneIndex>, j: usize) -> (r: bool)
    ensures
        r == row_has(row@, j as int),
{
    let mut k: usize = 0;
    while k < row.len()
        invariant
            k <= row@.len(),
            forall|m: int| 0 <= m < k ==> (#[trigger] row@[m]).index != j,
        decreases row@.len() - k,
    {
        if row[k].index == j {
            assert(row_has(row@, j as int));
            return true;
        }
        k = k + 1;
    }
    proof {
        if row_has(row@, j as int) {
            let m = choose|m: int| 0 <= m < row@.len() && (#[trigger] row@[m]).index == j as int;
        }
    }
    false
}

/// Whether zone `j` is an inclusion candidate for zone `i`: another
/// zone, both with boundaries, whose envelope covers `i`'s.
pub open spec fn spec_candidate(zones: Seq<Zone>, i: int, j: int) -> bool {
    &&& 0 <= j < zones.len()
    &&& j != i
    &&& zones[i].bbox is Some
    &&& zones[j].bbox is Some
    &&& spec_envelope_covers(zones[j].bbox.unwrap(), zones[i].bbox.unwrap())
}

/// For every zone, the handles of the zones whose envelope covers
/// its envelope: the candidates that the exact cover test still has
/// to confirm. A zone without boundary gets an empty list.
pub fn find_inclusion_candidates(zones: &Vec<Zone>) -> (r: Vec<Vec<ZoneIndex>>)
    ensures
        r@.len() == zones@.len(),
        forall|i: int, j: int|
            #![trigger row_has(r@[i]@, j)]
            #![trigger spec_candidate(zones@, i, j)]
            0 <= i < zones@.len() ==> (row_has(r@[i]@, j) <==> spec_candidate(zones@, i, j)),
        forall|i: int, a: int, b: int|
            0 <= i < zones@.len() && 0 <= a < b < r@[i]@.len() ==> (#[trigger] r@[i]@[a]).index < (
            #[trigger] r@[i]@[b]).index,
{
    let n = zones.len();
    let mut r: Vec<Vec<ZoneIndex>> = Vec::new();
    let mut i: usize = 0;
    while i < n
        invariant
            n == zones@.len(),
            i <= n,
            r@.len() == i,
            forall|i2: int, j: int|
                #![trigger row_has(r@[i2]@, j)]
                #![trigger spec_candidate(zones@, i2, j)]
                0 <= i2 < i ==> (row_has(r@[i2]@, j) <==> spec_candidate(zones@, i2, j)),
            forall|i2: int, a: int, b: int|
                0 <= i2 < i && 0 <= a < b < r@[i2]@.len() ==> (#[trigger] r@[i2]@[a]).index < (
                #[trigger] r@[i2]@[b]).index,
        decreases n - i,
    {
        let mut row: Vec<ZoneIndex> = Vec::new();
        let mut j: usize = 0;
        while j < n
            invariant
                n == zones@.len(),
                i < n,
                j <= n,
                forall|j2: int| row_has(row@, j2) ==> 0 <= j2 < j,
                forall|j2: int|
                    0 <= j2 < j ==> (row_has(row@, j2) <==> spec_candidate(zones@, i as int, j2)),
                forall|a: int, b: int|
                    0 <= a < b < row@.len() ==> (#[trigger] row@[a]).index < (
                    #[trigger] row@[b]).index,
            decreases n - j,
        {
            let ghost before = row@;
            let cand_ok: bool = if j != i {
                match (&zones[j].bbox, &zones[i].bbox) {
                    (Some(bj), Some(bi)) => bj.covers(bi),
                    _ => false,
                }
            } else {
                false
            };
            proof {
                assert(cand_ok == spec_candidate(zones@, i as int, j as int));
            }
            if cand_ok {
                row.push(ZoneIndex { index: j });
            }
            proof {
                if cand_ok {
                    assert(forall|k: int| 0 <= k < before.len() ==> row@[k] == before[k]);
                    assert(row@[before.len() as int].index == j as int);
                    assert(forall|a: int|
                        0 <= a < before.len() ==> (#[trigger] before[a]).index < j) by {
                        assert(forall|a: int|
                            0 <= a < before.len() ==> row_has(
                                before,
                                (#[trigger] before[a]).index as int,
                            ));
                    }
                }
                assert forall|j2: int| row_has(row@, j2) implies 0 <= j2 < j + 1 by {
                    let k = choose|k: int| 0 <= k < row@.len() && (#[trigger] row@[k]).index == j2;
                    if k < before.len() {
                        assert(row_has(before, j2));
                    }
                }
                assert forall|j2: int| 0 <= j2 < j + 1 implies (row_has(row@, j2)
                    <==> spec_candidate(zones@, i as int, j2)) by {
                    if j2 < j {
                        if row_has(row@, j2) {
                            let k = choose|k: int|
                                0 <= k < row@.len() && (#[trigger] row@[k]).index == j2;
                            if k < before.len() {
                                assert(row_has(before, j2));
                            }
                        }
                        if row_has(before, j2) {
                            let k = choose|k: int|
                                0 <= k < before.len() && (#[trigger] before[k]).index == j2;
                            assert(row@[k].index == j2);
                            assert(row_has(row@, j2));
                        }
                    } else {
                        if cand_ok {
                            assert(row_has(row@, j2));
                        } else {
                            if row_has(row@, j2) {
                                let k = choose|k: int|
                                    0 <= k < row@.len() && (#[trigger] row@[k]).index == j2;
                                assert(row_has(before, j2));
                            }
                        }
                    }
                }
            }
            j = j + 1;
        }
        r.push(row);
        i = i + 1;
    }
    r
}

/// Whether `confirmed` holds the pair `(a, b)`.
pub open spec fn pair_in(confirmed: Seq<(usize, usize)>, a: usize, b: usize) -> bool {
    exists|m: int| 0 <= m < confirmed.len() && confirmed[m] == (a, b)
}

/// Regroups confirmed cover answers into inclusion lists: for each
/// zone `i`, the handles `j` of the zones whose boundary covers it,
/// as the pairs `(i, j)` of `confirmed` say. Pairs out of bounds,
/// naming a zone itself, or repeating an earlier pair are ignored:
/// no handle appears twice in a list. The order within a list
/// carries no meaning.
pub fn build_inclusions(n: usize, confirmed: &Vec<(usize, usize)>) -> (r: Vec<Vec<ZoneIndex>>)
    ensures
        r@.len() == n as int,
        forall|i: int, a: int, b: int|
            0 <= i < n as int && 0 <= a < b < r@[i]@.len() ==> (#[trigger] r@[i]@[a]).index != (
            #[trigger] r@[i]@[b]).index,
        forall|i: int, k: int|
            0 <= i < n as int && 0 <= k < r@[i]@.len() ==> pair_in(
                confirmed@,
                i as usize,
                (#[trigger] r@[i]@[k]).index,
            ),
        forall|m: int|
            0 <= m < confirmed@.len() && (#[trigger] confirmed@[m]).0 < n && confirmed@[m].1 < n
                && confirmed@[m].1 != confirmed@[m].0 ==> row_has(
                r@[confirmed@[m].0 as int]@,
                confirmed@[m].1 as int,
            ),
{
    let mut r: Vec<Vec<ZoneIndex>> = Vec::new();
    let mut i: usize = 0;
    while i < n
        invariant
            i <= n,
            r@.len() == i,
            forall|i2: int, a: int, b: int|
                0 <= i2 < i && 0 <= a < b < r@[i2]@.len() ==> (#[trigger] r@[i2]@[a]).index != (
                #[trigger] r@[i2]@[b]).index,
            forall|i2: int, k: int|
                0 <= i2 < i && 0 <= k < r@[i2]@.len() ==> pair_in(
                    confirmed@,
                    i2 as usize,
                    (#[trigger] r@[i2]@[k]).index,
                ),
            forall|m: int|
                0 <= m < confirmed@.len() && (#[trigger] confirmed@[m]).0 < i && confirmed@[m].1
                    < n && confirmed@[m].1 != confirmed@[m].0 ==> row_has(
                    r@[confirmed@[m].0 as int]@,
                    confirmed@[m].1 as int,
                ),
        decreases n - i,
    {
        let mut row: Vec<ZoneIndex> = Vec::new();
        let mut m: usize = 0;
        while m < confirmed.len()
            invariant
                i < n,
                m <= confirmed@.len(),
                forall|a: int, b: int|
                    0 <= a < b < row@.len() ==> (#[trigger] row@[a]).index != (
                    #[trigger] row@[b]).index,
                forall|k: int|
                    0 <= k < row@.len() ==> pair_in(confirmed@, i, (#[trigger] row@[k]).index),
                forall|m2: int|
                    0 <= m2 < m && (#[trigger] confirmed@[m2]).0 == i && confirmed@[m2].1 < n
                        && confirmed@[m2].1 != i ==> row_has(row@, confirmed@[m2].1 as int),
            decreases confirmed@.len() - m,
        {
            let ghost before = row@;
            let (a, b) = confirmed[m];
            if a == i && b < n && b != i && !contains_index(&row, b) {
                row.push(ZoneIndex { index: b });
                proof {
                    assert(forall|k: int| 0 <= k < before.len() ==> row@[k] == before[k]);
                    assert(row@[before.len() as int].index == b);
                    assert(confirmed@[m as int] == (i, b));
                    assert(pair_in(confirmed@, i, b));
                    assert forall|j2: int| row_has(before, j2) implies #[trigger] row_has(
                        row@,
                        j2,
                    ) by {
                        let k = choose|k: int|
                            0 <= k < before.len() && (#[trigger] before[k]).index == j2;
                        assert(row@[k].index == j2);
                    }
                }
            }
            m = m + 1;
        }
        let ghost rv = row@;
        r.push(row);
        proof {
            assert(r@[i as int]@ == rv);
        }
        i = i + 1;
    }
    r
}

/// The number a zone's `admin_level` counts for when parents are
/// ranked: a missing level counts below every real one.
pub open spec fn spec_level_key(z: Zone) -> int {
    match z.admin_level {
        None => -1,
        Some(l) => l as int,
    }
}

/// Whether candidate `a` makes a strictly better parent than `b`:
/// more specific in type; on equal types, the greater
/// `admin_level`; on equal levels, the smaller `osm_id`.
pub open spec fn spec_beats(zones: Seq<Zone>, a: int, b: int) -> bool {
    let ra = spec_rank(zones[a].zone_type.unwrap());
    let rb = spec_rank(zones[b].zone_type.unwrap());
    ||| ra < rb
    ||| (ra == rb && spec_level_key(zones[a]) > spec_level_key(zones[b]))
    ||| (ra == rb && spec_level_key(zones[a]) == spec_level_key(zones[b]) && lex_lt(
        zones[a].osm_id@,
        zones[b].osm_id@,
    ))
}

/// `spec_beats` orders candidates transitively.
pub(crate) proof fn lemma_beats_trans(zones: Seq<Zone>, a: int, b: int, c: int)
    requires
        spec_beats(zones, a, b),
        spec_beats(zones, b, c),
    ensures
        spec_beats(zones, a, c),
{
    if lex_lt(zones[a].osm_id@, zones[b].osm_id@) && lex_lt(zones[b].osm_id@, zones[c].osm_id@) {
        lemma_lex_trans(zones[a].osm_id@, zones[b].osm_id@, zones[c].osm_id@);
    }
}

/// Whether `c` may become the parent of zone `i`, given `i`'s
/// inclusion list: a zone of the list, both typed, `c`'s type
/// strictly more general than `i`'s.
pub open spec fn spec_eligible(zones: Seq<Zone>, incl: Seq<ZoneIndex>, i: int, c: int) -> bool {
    &&& row_has(incl, c)
    &&& 0 <= c < zones.len()
    &&& zones[i].zone_type is Some
    &&& zones[c].zone_type is Some
    &&& spec_rank(zones[c].zone_type.unwrap()) > spec_rank(zones[i].zone_type.unwrap())
}

/// What a chosen parent satisfies: eligible, and beaten by no other
/// eligible candidate.
pub open spec fn spec_parent_choice(
    zones: Seq<Zone>,
    incl: Seq<ZoneIndex>,
    i: int,
    choice: Option<usize>,
) -> bool {
    match choice {
        None => forall|c: int| !spec_eligible(zones, incl, i, c),
        Some(p) => spec_eligible(zones, incl, i, p as int) && forall|c: int|
            spec_eligible(zones, incl, i, c) ==> !spec_beats(zones, c, p as int),
    }
}

/// Picks the parent of zone `i` out of its inclusion list: the most
/// specific zone whose type is still strictly more general than
/// `i`'s; ties go to the greater `admin_level`, then to the smaller
/// `osm_id`.
pub fn choose_parent(zones: &Vec<Zone>, incl: &Vec<ZoneIndex>, i: usize) -> (r: Option<usize>)
    requires
        i < zones@.len(),
    ensures
        spec_parent_choice(zones@, incl@, i as int, r),
{
    let mut best: Option<usize> = None;
    let mut k: usize = 0;
    proof {
        assert(incl@.take(0) =~= Seq::<ZoneIndex>::empty());
    }
    while k < incl.len()
        invariant
            i < zones@.len(),
            k <= incl@.len(),
            spec_parent_choice(zones@, incl@.take(k as int), i as int, best),
        decreases incl@.len() - k,
    {
        let ghost prefix = incl@.take(k as int);
        let ghost prefix1 = incl@.take(k as int + 1);
        let c = incl[k].index;
        let mut eligible = false;
        if c < zones.len() {
            match (&zones[i].zone_type, &zones[c].zone_type) {
                (Some(ti), Some(tc)) => {
                    if tc.rank() > ti.rank() {
                        eligible = true;
                    }
                },
                _ => {},
            }
        }
        proof {
            assert(prefix1[k as int] == incl@[k as int]);
            assert(prefix1[k as int].index == c as int);
            assert(row_has(prefix1, c as int));
            assert(eligible == spec_eligible(zones@, prefix1, i as int, c as int));
            assert forall|c2: int|
                spec_eligible(zones@, prefix1, i as int, c2) && c2 != c as int implies
                spec_eligible(zones@, prefix, i as int, c2) by {
                let m = choose|m: int|
                    0 <= m < prefix1.len() && (#[trigger] prefix1[m]).index == c2;
                assert(prefix[m] == prefix1[m]);
                assert(row_has(prefix, c2));
            }
            assert forall|c2: int|
                spec_eligible(zones@, prefix, i as int, c2) implies spec_eligible(
                zones@,
                prefix1,
                i as int,
                c2,
            ) by {
                let m = choose|m: int|
                    0 <= m < prefix.len() && (#[trigger] prefix[m]).index == c2;
                assert(prefix1[m] == prefix[m]);
                assert(row_has(prefix1, c2));
            }
        }
        if eligible {
            proof {
                crate::strings::lemma_lex_asym(zones@[c as int].osm_id@, zones@[c as int].osm_id@);
                assert(!spec_beats(zones@, c as int, c as int));
            }
            match best {
                None => {
                    best = Some(c);
                },
                Some(p) => {
                    if beats(zones, c, p) {
                        proof {
                            assert forall|c2: int|
                                spec_eligible(zones@, prefix1, i as int, c2) && spec_beats(
                                    zones@,
                                    c2,
                                    c as int,
                                ) implies false by {
                                if c2 != c as int {
                                    lemma_beats_trans(zones@, c2, c as int, p as int);
                                }
                            }
                        }
                        best = Some(c);
                    }
                },
            }
        }
        proof {
            assert(spec_parent_choice(zones@, prefix1, i as int, best));
            assert(prefix1 == incl@.take(k as int + 1));
        }
        k = k + 1;
    }
    proof {
        assert(incl@.take(incl@.len() as int) =~= incl@);
    }
    best
}

/// Whether candidate `a` makes a strictly better parent than `b`.
pub(crate) fn beats(zones: &Vec<Zone>, a: usize, b: usize) -> (r: bool)
    requires
        a < zones@.len(),
        b < zones@.len(),
        zones@[a as int].zone_type is Some,
        zones@[b as int].zone_type is Some,
    ensures
        r == spec_beats(zones@, a as int, b as int),
{
    let ra = match &zones[a].zone_type {
        Some(t) => t.rank(),
        None => 0,
    };
    let rb = match &zones[b].zone_type {
        Some(t) => t.rank(),
        None => 0,
    };
    if ra < rb {
        return true;
    }
    if ra > rb {
        return false;
    }
    let (la_some, la) = match zones[a].admin_level {
        Some(l) => (true, l),
        None => (false, 0),
    };
    let (lb_some, lb) = match zones[b].admin_level {
        Some(l) => (true, l),
        None => (false, 0),
    };
    if la_some && (!lb_some || la > lb) {
        return true;
    }
    if lb_some && (!la_some || lb > la) {
        return false;
    }
    str_lt(zones[a].osm_id.as_str(), zones[b].osm_id.as_str())
}

/// Sets every zone's parent from its inclusion list: the most
/// specific strictly-more-general typed candidate, ties broken by
/// the greater `admin_level`, then the smaller `osm_id`. A zone
/// with no eligible candidate gets none and roots its tree. Parent
/// types grow strictly more general up every chain, so the forest
/// is acyclic.
pub fn build_hierarchy(zones: &mut Vec<Zone>, inclusions: &Vec<Vec<ZoneIndex>>)
    requires
        inclusions@.len() == old(zones)@.len(),
    ensures
        final(zones)@.len() == old(zones)@.len(),
        forall|i: int|
            0 <= i < old(zones)@.len() ==> #[trigger] final(zones)@[i] == (Zone {
                parent: final(zones)@[i].parent,
                ..old(zones)@[i]
            }),
        forall|i: int|
            0 <= i < old(zones)@.len() ==> spec_parent_choice(
                old(zones)@,
                inclusions@[i]@,
                i,
                match final(zones)@[i].parent {
                    Some(p) => Some(p.index),
                    None => None,
                },
            ),
        spec_parents_rank_increase(final(zones)@),
{
    let n = zones.len();
    let mut parents: Vec<Option<usize>> = Vec::new();
    let mut i: usize = 0;
    while i < n
        invariant
            n == zones@.len(),
            zones@ == old(zones)@,
            inclusions@.len() == n as int,
            i <= n,
            parents@.len() == i,
            forall|i2: int|
                0 <= i2 < i ==> spec_parent_choice(
                    zones@,
                    inclusions@[i2]@,
                    i2,
                    #[trigger] parents@[i2],
                ),
        decreases n - i,
    {
        let p = choose_parent(zones, &inclusions[i], i);
        parents.push(p);
        i = i + 1;
    }
    let mut i: usize = 0;
    while i < n
        invariant
            n == old(zones)@.len(),
            zones@.len() == n,
            parents@.len() == n,
            i <= n,
            forall|i2: int|
                0 <= i2 < n ==> spec_parent_choice(
                    old(zones)@,
                    inclusions@[i2]@,
                    i2,
                    #[trigger] parents@[i2],
                ),
            forall|i2: int|
                0 <= i2 < n ==> #[trigger] zones@[i2] == (Zone {
                    parent: zones@[i2].parent,
                    ..old(zones)@[i2]
                }),
            forall|i2: int|
                0 <= i2 < i ==> #[trigger] zones@[i2].parent == (match parents@[i2] {
                    Some(p) => Some(ZoneIndex { index: p }),
                    None => None::<ZoneIndex>,
                }),
            forall|i2: int| i <= i2 < n ==> #[trigger] zones@[i2] == old(zones)@[i2],
        decreases n - i,
    {
        let p = match parents[i] {
            Some(p) => Some(ZoneIndex { index: p }),
            None => None,
        };
        zones[i].parent = p;
        i = i + 1;
    }
    proof {
        assert forall|i2: int| 0 <= i2 < zones@.len() implies match (#[trigger] zones@[i2]).parent {
            None => true,
            Some(p) => {
                &&& p.index < zones@.len()
                &&& zones@[i2].zone_type is Some
                &&& zones@[p.index as int].zone_type is Some
                &&& spec_rank(zones@[p.index as int].zone_type.unwrap()) > spec_rank(
                    zones@[i2].zone_type.unwrap(),
                )
            },
        } by {
            match zones@[i2].parent {
                None => {},
                Some(p) => {
                    assert(spec_parent_choice(
                        old(zones)@,
                        inclusions@[i2]@,
                        i2,
                        Some(p.index),
                    ));
                    assert(spec_eligible(old(zones)@, inclusions@[i2]@, i2, p.index as int));
                },
            }
        }
    }
}

/// Whether every parent edge climbs the type order: a parent is in
/// bounds, both ends are typed, and the parent's type is strictly
/// more general than the child's. `build_hierarchy` establishes
/// this.
pub open spec fn spec_parents_rank_increase(zones: Seq<Zone>) -> bool {
    forall|i: int|
        0 <= i < zones.len() ==> match (#[trigger] zones[i]).parent {
            None => true,
            Some(p) => {
                &&& p.index < zones.len()
                &&& zones[i].zone_type is Some
                &&& zones[p.index as int].zone_type is Some
                &&& spec_rank(zones[p.index as int].zone_type.unwrap()) > spec_rank(
                    zones[i].zone_type.unwrap(),
                )
            },
        }
}

/// Eligibility and the tie-break read types, levels and ids alone:
/// the parent-choice predicate answers the same over two zone
/// sequences that agree on those fields.
pub proof fn lemma_parent_choice_like(
    z1: Seq<Zone>,
    z2: Seq<Zone>,
    incl: Seq<ZoneIndex>,
    i: int,
    choice: Option<usize>,
)
    requires
        z1.len() == z2.len(),
        0 <= i < z1.len(),
        forall|j: int|
            0 <= j < z1.len() ==> (#[trigger] z1[j]).zone_type == z2[j].zone_type
                && z1[j].admin_level == z2[j].admin_level && z1[j].osm_id@ == z2[j].osm_id@,
    ensures
        spec_parent_choice(z1, incl, i, choice) == spec_parent_choice(z2, incl, i, choice),
{
    assert forall|c: int|
        #![trigger spec_eligible(z1, incl, i, c)]
        #![trigger spec_eligible(z2, incl, i, c)]
        spec_eligible(z1, incl, i, c) == spec_eligible(z2, incl, i, c) by {
        if 0 <= c < z1.len() {
            assert(z1[c].zone_type == z2[c].zone_type);
        }
        assert(z1[i].zone_type == z2[i].zone_type);
    }
    assert forall|a: int, b: int|
        #![trigger spec_beats(z1, a, b), spec_beats(z2, a, b)]
        0 <= a < z1.len() && 0 <= b < z1.len() implies spec_beats(z1, a, b) == spec_beats(
        z2,
        a,
        b,
    ) by {
        assert(z1[a].zone_type == z2[a].zone_type);
        assert(z1[b].zone_type == z2[b].zone_type);
    }
    match choice {
        None => {},
        Some(p) => {
            if spec_parent_choice(z1, incl, i, choice) {
                assert forall|c: int| spec_eligible(z2, incl, i, c) implies !spec_beats(
                    z2,
                    c,
                    p as int,
                ) by {
                    assert(spec_eligible(z1, incl, i, c));
                    assert(spec_beats(z1, c, p as int) == spec_beats(z2, c, p as int));
                }
            }
            if spec_parent_choice(z2, incl, i, choice) {
                assert forall|c: int| spec_eligible(z1, incl, i, c) implies !spec_beats(
                    z1,
                    c,
                    p as int,
                ) by {
                    assert(spec_eligible(z2, incl, i, c));
                    assert(spec_beats(z1, c, p as int) == spec_beats(z2, c, p as int));
                }
            }
        },
    }
}

/// The rank-increase invariant reads types and parents alone: it
/// answers the same over two zone sequences that agree on them.
pub proof fn lemma_rank_increase_like(z1: Seq<Zone>, z2: Seq<Zone>)
    requires
        z1.len() == z2.len(),
        forall|j: int|
            0 <= j < z1.len() ==> (#[trigger] z1[j]).zone_type == z2[j].zone_type && z1[j].parent
                == z2[j].parent,
    ensures
        spec_parents_rank_increase(z1) == spec_parents_rank_increase(z2),
{
    if spec_parents_rank_increase(z1) {
        assert forall|j: int| 0 <= j < z2.len() implies match (#[trigger] z2[j]).parent {
            None => true,
            Some(p) => {
                &&& p.index < z2.len()
                &&& z2[j].zone_type is Some
                &&& z2[p.index as int].zone_type is Some
                &&& spec_rank(z2[p.index as int].zone_type.unwrap()) > spec_rank(
                    z2[j].zone_type.unwrap(),
                )
            },
        } by {
            assert(z1[j].zone_type == z2[j].zone_type && z1[j].parent == z2[j].parent);
            match z1[j].parent {
                None => {},
                Some(p) => {
                    assert(z1[p.index as int].zone_type == z2[p.index as int].zone_type);
                },
            }
        }
    }
    if spec_parents_rank_increase(z2) {
        assert forall|j: int| 0 <= j < z1.len() implies match (#[trigger] z1[j]).parent {
            None => true,
            Some(p) => {
                &&& p.index < z1.len()
                &&& z1[j].zone_type is Some
                &&& z1[p.index as int].zone_type is Some
                &&& spec_rank(z1[p.index as int].zone_type.unwrap()) > spec_rank(
                    z1[j].zone_type.unwrap(),
                )
            },
        } by {
            assert(z1[j].zone_type == z2[j].zone_type && z1[j].parent == z2[j].parent);
            match z2[j].parent {
                None => {},
                Some(p) => {
                    assert(z1[p.index as int].zone_type == z2[p.index as int].zone_type);
                },
            }
        }
    }
}

/// The handle reached after `k` parent steps from zone `i`, if the
/// chain runs that far.
pub open spec fn spec_ancestor(zones: Seq<Zone>, i: int, k: nat) -> Option<int>
    decreases k,
{
    if k == 0 {
        Some(i)
    } else {
        match spec_ancestor(zones, i, (k - 1) as nat) {
            None => None,
            Some(j) => {
                if 0 <= j < zones.len() {
                    match zones[j].parent {
                        Some(p) => Some(p.index as int),
                        None => None,
                    }
                } else {
                    None
                }
            },
        }
    }
}

/// Each parent step climbs at least one rank.
proof fn lemma_ancestor_rank(zones: Seq<Zone>, i: int, k: nat)
    requires
        spec_parents_rank_increase(zones),
        0 <= i < zones.len(),
        k >= 1,
        spec_ancestor(zones, i, k) is Some,
    ensures
        ({
            let j = spec_ancestor(zones, i, k).unwrap();
            &&& 0 <= j < zones.len()
            &&& zones[i].zone_type is Some
            &&& zones[j].zone_type is Some
            &&& spec_rank(zones[j].zone_type.unwrap()) >= spec_rank(zones[i].zone_type.unwrap())
                + k
        }),
    decreases k,
{
    if k == 1 {
        assert(spec_ancestor(zones, i, 0) == Some(i));
    } else {
        assert(spec_ancestor(zones, i, (k - 1) as nat) is Some);
        lemma_ancestor_rank(zones, i, (k - 1) as nat);
    }
}

/// The parent relation is acyclic: because every parent's type is
/// strictly more general than its child's, and there are only eight
/// type ranks, no chain of parents makes eight steps; a walk up or
/// down the forest from any zone terminates.
pub proof fn lemma_hierarchy_acyclic(zones: Seq<Zone>)
    requires
        spec_parents_rank_increase(zones),
    ensures
        forall|i: int| 0 <= i < zones.len() ==> spec_ancestor(zones, i, 8) is None,
{
    assert forall|i: int| 0 <= i < zones.len() implies spec_ancestor(zones, i, 8) is None by {
        if spec_ancestor(zones, i, 8) is Some {
            lemma_ancestor_rank(zones, i, 8);
        }
    }
}

} // verus!
