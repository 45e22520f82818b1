//! Enriching the hierarchy with cities that have no administrative
//! boundary: OSM nodes tagged as places become synthetic city
//! zones, attached under the most specific zone that covers their
//! position. The pass over the OSM source and the point-in-polygon
//! queries stay with the caller, which hands in each node's tags,
//! position, and the handles of the zones covering it.

use crate::strings::lemma_lex_asym;
use crate::strings::spec_decimal;
use crate::strings::strictly_sorted_lex;
use crate::strings::u64_to_dec;
use crate::hierarchy_builder::row_has;
use crate::hierarchy_builder::spec_beats;
use crate::hierarchy_builder::spec_parents_rank_increase;
use crate::zone::spec_rank;
use crate::zone::spec_tag_get;
use crate::zone::spec_zip_set;
use crate::zone::spec_zip_source;
use crate::zone::Coord;
use crate::zone::TagsMap;
use crate::zone::Zone;
use crate::zone::ZoneIndex;
use crate::zone::ZoneType;
use vstd::prelude::*;

verus! {

/// An OSM node that may become a city zone: its tags, its id, its
/// position, and the handles of the zones whose boundary covers
/// that position.
pub struct CityCandidate {
    pub tags: TagsMap,
    pub node_id: u64,
    pub center: Coord,
    pub covering: Vec<ZoneIndex>,
}

/// Whether tags mark a populated place that can stand as a city.
pub open spec fn spec_is_place_city(tags: Seq<(Seq<char>, Seq<char>)>) -> bool {
    match spec_tag_get(tags, "place"@) {
        Some(v) => v == "city"@ || v == "town"@ || v == "village"@ || v == "hamlet"@,
        None => false,
    }
}

/// Whether tags mark a populated place that can stand as a city.
pub fn is_place_city(tags: &TagsMap) -> (r: bool)
    ensures
        r == spec_is_place_city(tags@),
{
    match tags.get("place") {
        Some(v) => {
            let s = v.as_str();
            crate::strings::str_eq(s, "city") || crate::strings::str_eq(s, "town")
                || crate::strings::str_eq(s, "village") || crate::strings::str_eq(s, "hamlet")
        },
        None => false,
    }
}

/// Whether one of the covering zones is already a city.
pub open spec fn spec_covered_by_city(zones: Seq<Zone>, covering: Seq<ZoneIndex>) -> bool {
    exists|k: int|
        0 <= k < covering.len() && (#[trigger] covering[k]).index < zones.len()
            && zones[covering[k].index as int].zone_type == Some(ZoneType::City)
}

/// Whether a place node becomes a zone: a named place, at a
/// position no existing city zone covers.
pub open spec fn spec_city_accept(
    zones: Seq<Zone>,
    tags: Seq<(Seq<char>, Seq<char>)>,
    covering: Seq<ZoneIndex>,
) -> bool {
    spec_is_place_city(tags) && spec_tag_get(tags, "name"@) is Some && !spec_covered_by_city(
        zones,
        covering,
    )
}

/// Whether `c` may become the parent of a synthetic city: a zone of
/// the covering list, typed strictly more general than a city.
pub open spec fn spec_city_eligible(zones: Seq<Zone>, covering: Seq<ZoneIndex>, c: int) -> bool {
    &&& row_has(covering, c)
    &&& 0 <= c < zones.len()
    &&& zones[c].zone_type is Some
    &&& spec_rank(zones[c].zone_type.unwrap()) > spec_rank(ZoneType::City)
}

/// What a synthetic city's chosen parent satisfies: eligible, and
/// beaten by no other eligible candidate.
pub open spec fn spec_city_choice(
    zones: Seq<Zone>,
    covering: Seq<ZoneIndex>,
    choice: Option<usize>,
) -> bool {
    match choice {
        None => forall|c: int| !spec_city_eligible(zones, covering, c),
        Some(p) => spec_city_eligible(zones, covering, p as int) && forall|c: int|
            spec_city_eligible(zones, covering, c) ==> !spec_beats(zones, c, p as int),
    }
}

/// Picks the parent of a synthetic city among the zones covering
/// its position: the most specific type still strictly more general
/// than a city; ties go to the greater `admin_level`, then to the
/// smaller `osm_id`.
pub fn choose_city_parent(zones: &Vec<Zone>, covering: &Vec<ZoneIndex>) -> (r: Option<usize>)
    ensures
        spec_city_choice(zones@, covering@, r),
{
    let mut best: Option<usize> = None;
    let mut k: usize = 0;
    proof {
        assert(covering@.take(0) =~= Seq::<ZoneIndex>::empty());
    }
    while k < covering.len()
        invariant
            k <= covering@.len(),
            spec_city_choice(zones@, covering@.take(k as int), best),
        decreases covering@.len() - k,
    {
        let ghost prefix = covering@.take(k as int);
        let ghost prefix1 = covering@.take(k as int + 1);
        let c = covering[k].index;
        let mut eligible = false;
        if c < zones.len() {
            match &zones[c].zone_type {
                Some(tc) => {
                    if tc.rank() > 2 {
                        eligible = true;
                    }
                },
                None => {},
            }
        }
        proof {
            assert(prefix1[k as int] == covering@[k as int]);
            assert(prefix1[k as int].index == c as int);
            assert(row_has(prefix1, c as int));
            assert(eligible == spec_city_eligible(zones@, prefix1, c as int));
            assert forall|c2: int|
                spec_city_eligible(zones@, prefix1, c2) && c2 != c as int implies
                spec_city_eligible(zones@, prefix, c2) by {
                let m = choose|m: int|
                    0 <= m < prefix1.len() && (#[trigger] prefix1[m]).index == c2;
                assert(prefix[m] == prefix1[m]);
                assert(row_has(prefix, c2));
            }
            assert forall|c2: int|
                spec_city_eligible(zones@, prefix, c2) implies spec_city_eligible(
                zones@,
                prefix1,
                c2,
            ) by {
                let m = choose|m: int|
                    0 <= m < prefix.len() && (#[trigger] prefix[m]).index == c2;
                assert(prefix1[m] == prefix[m]);
                assert(row_has(prefix1, c2));
            }
        }
        if eligible {
            proof {
                lemma_lex_asym(zones@[c as int].osm_id@, zones@[c as int].osm_id@);
                assert(!spec_beats(zones@, c as int, c as int));
            }
            match best {
                None => {
                    best = Some(c);
                },
                Some(p) => {
                    if crate::hierarchy_builder::beats(zones, c, p) {
                        proof {
                            assert forall|c2: int|
                                spec_city_eligible(zones@, prefix1, c2) && spec_beats(
                                    zones@,
                                    c2,
                                    c as int,
                                ) implies false by {
                                if c2 != c as int {
                                    crate::hierarchy_builder::lemma_beats_trans(
                                        zones@,
                                        c2,
                                        c as int,
                                        p as int,
                                    );
                                }
                            }
                        }
                        best = Some(c);
                    }
                },
            }
        }
        proof {
            assert(spec_city_choice(zones@, prefix1, best));
            assert(prefix1 == covering@.take(k as int + 1));
        }
        k = k + 1;
    }
    proof {
        assert(covering@.take(covering@.len() as int) =~= covering@);
    }
    best
}

/// What the zone appended for an accepted place node holds: the
/// next fresh handle, an id written `node:<N>`, the node's name and
/// zip codes, the `City` type, the node's position, and the chosen
/// parent among the covering zones.
pub open spec fn spec_added_city(z: Zone, before: Seq<Zone>, cand: CityCandidate) -> bool {
    &&& z.id == (ZoneIndex { index: before.len() as usize })
    &&& z.osm_id@ == "node:"@ + spec_decimal(cand.node_id as int)
    &&& Some(z.name@) == spec_tag_get(cand.tags@, "name"@)
    &&& z.zone_type == Some(ZoneType::City)
    &&& z.center == Some(cand.center)
    &&& z.bbox is None
    &&& strictly_sorted_lex(z.zip_codes.deep_view())
    &&& z.zip_codes.deep_view().to_set() == spec_zip_set(spec_zip_source(cand.tags@))
    &&& spec_city_choice(
        before,
        cand.covering@,
        match z.parent {
            Some(p) => Some(p.index),
            None => None,
        },
    )
}

/// What taking one place node does to the zone vector: an accepted
/// node (in the sense of `spec_city_accept` at that state) appends
/// exactly one zone with the stated fields; a rejected one leaves
/// the vector as it was.
pub open spec fn spec_city_step(before: Seq<Zone>, after: Seq<Zone>, cand: CityCandidate) -> bool {
    if spec_city_accept(before, cand.tags@, cand.covering@) {
        &&& after.len() == before.len() + 1
        &&& after.take(before.len() as int) == before
        &&& spec_added_city(after.last(), before, cand)
    } else {
        after == before
    }
}

/// What taking every place node in order does: each candidate takes
/// one `spec_city_step` from the state the ones before it left.
pub open spec fn spec_cities_outcome(
    before: Seq<Zone>,
    after: Seq<Zone>,
    cands: Seq<CityCandidate>,
) -> bool
    decreases cands.len(),
{
    if cands.len() == 0 {
        after == before
    } else {
        exists|mid: Seq<Zone>|
            #[trigger] spec_city_step(before, mid, cands[0]) && spec_cities_outcome(
                mid,
                after,
                cands.skip(1),
            )
    }
}

/// A run over some candidates, followed by one more step, is a run
/// over the candidates with that one appended.
proof fn lemma_cities_snoc(
    before: Seq<Zone>,
    mid: Seq<Zone>,
    after: Seq<Zone>,
    cands: Seq<CityCandidate>,
    cand: CityCandidate,
)
    requires
        spec_cities_outcome(before, mid, cands),
        spec_city_step(mid, after, cand),
    ensures
        spec_cities_outcome(before, after, cands.push(cand)),
    decreases cands.len(),
{
    if cands.len() == 0 {
        assert(mid == before);
        assert(cands.push(cand)[0] == cand);
        assert(cands.push(cand).skip(1) =~= Seq::<CityCandidate>::empty());
        assert(spec_city_step(before, after, cands.push(cand)[0]));
        assert(spec_cities_outcome(after, after, cands.push(cand).skip(1)));
    } else {
        let mid1 = choose|mid1: Seq<Zone>|
            #[trigger] spec_city_step(before, mid1, cands[0]) && spec_cities_outcome(
                mid1,
                mid,
                cands.skip(1),
            );
        lemma_cities_snoc(mid1, mid, after, cands.skip(1), cand);
        assert(cands.push(cand)[0] == cands[0]);
        assert(cands.push(cand).skip(1) =~= cands.skip(1).push(cand));
        assert(spec_city_step(before, mid1, cands.push(cand)[0]));
        assert(spec_cities_outcome(mid1, after, cands.push(cand).skip(1)));
    }
}

/// Takes one place node into the catalog, when it is a named place
/// not already covered by a city zone: a city-typed zone under a
/// fresh handle, its id written `node:<N>`, positioned at the
/// node, with the chosen parent; otherwise nothing changes.
pub fn add_city(zones: &mut Vec<Zone>, cand: &CityCandidate)
    ensures
        forall|j: int|
            0 <= j < old(zones)@.len() ==> #[trigger] final(zones)@[j] == old(zones)@[j],
        spec_city_step(old(zones)@, final(zones)@, *cand),
{
    if !is_place_city(&cand.tags) {
        return ;
    }
    let mut k: usize = 0;
    while k < cand.covering.len()
        invariant
            k <= cand.covering@.len(),
            forall|m: int|
                0 <= m < k ==> !((#[trigger] cand.covering@[m]).index < zones@.len()
                    && zones@[cand.covering@[m].index as int].zone_type == Some(ZoneType::City)),
            zones@ == old(zones)@,
        decreases cand.covering@.len() - k,
    {
        let c = cand.covering[k].index;
        if c < zones.len() {
            let is_city = match &zones[c].zone_type {
                Some(t) => t.rank() == 2,
                None => false,
            };
            if is_city {
                proof {
                    assert(spec_covered_by_city(zones@, cand.covering@));
                }
                return ;
            }
        }
        k = k + 1;
    }
    proof {
        if spec_covered_by_city(zones@, cand.covering@) {
            let m = choose|m: int|
                0 <= m < cand.covering@.len() && (#[trigger] cand.covering@[m]).index
                    < zones@.len() && zones@[cand.covering@[m].index as int].zone_type == Some(
                    ZoneType::City,
                );
        }
        assert(!spec_covered_by_city(zones@, cand.covering@));
    }
    let index = ZoneIndex { index: zones.len() };
    let mut id = String::from_str("node:");
    let dec = u64_to_dec(cand.node_id);
    id.append(dec.as_str());
    let z = Zone::from_tags(&cand.tags, index, id);
    let mut z = match z {
        Some(z) => z,
        None => {
            return ;
        },
    };
    z.zone_type = Some(ZoneType::City);
    z.center = Some(cand.center);
    let parent = choose_city_parent(zones, &cand.covering);
    z.parent = match parent {
        Some(p) => Some(ZoneIndex { index: p }),
        None => None,
    };
    zones.push(z);
    proof {
        assert(spec_city_accept(old(zones)@, cand.tags@, cand.covering@));
        assert(zones@.take(old(zones)@.len() as int) =~= old(zones)@);
        assert(spec_added_city(zones@.last(), old(zones)@, *cand));
    }
}

/// Takes every accepted place node into the catalog, in the given
/// order: the final vector is what one `spec_city_step` per
/// candidate, applied from the first to the last, makes of the
/// given one. Zones already present stay as they are; every zone
/// added is a city whose parent, if any, is a strictly more general
/// zone, so a well-formed parent forest stays well-formed.
#[verifier::rlimit(60)]
pub fn compute_additional_cities(zones: &mut Vec<Zone>, candidates: &Vec<CityCandidate>)
    ensures
        spec_cities_outcome(old(zones)@, final(zones)@, candidates@),
        final(zones)@.len() >= old(zones)@.len(),
        forall|j: int|
            0 <= j < old(zones)@.len() ==> #[trigger] final(zones)@[j] == old(zones)@[j],
        forall|j: int|
            old(zones)@.len() <= j < final(zones)@.len() ==> (#[trigger] final(zones)@[j]).zone_type
                == Some(ZoneType::City),
        spec_parents_rank_increase(old(zones)@) ==> spec_parents_rank_increase(final(zones)@),
{
    let n0 = zones.len();
    let mut i: usize = 0;
    proof {
        assert(candidates@.take(0) =~= Seq::<CityCandidate>::empty());
    }
    while i < candidates.len()
        invariant
            n0 == old(zones)@.len(),
            zones@.len() >= n0 as int,
            i <= candidates@.len(),
            spec_cities_outcome(old(zones)@, zones@, candidates@.take(i as int)),
            forall|j: int| 0 <= j < n0 ==> #[trigger] zones@[j] == old(zones)@[j],
            forall|j: int|
                n0 <= j < zones@.len() ==> (#[trigger] zones@[j]).zone_type == Some(
                    ZoneType::City,
                ),
            forall|j: int|
                n0 <= j < zones@.len() ==> (match (#[trigger] zones@[j]).parent {
                    None => true,
                    Some(p) => {
                        &&& p.index < zones@.len()
                        &&& zones@[p.index as int].zone_type is Some
                        &&& spec_rank(zones@[p.index as int].zone_type.unwrap()) > spec_rank(
                            ZoneType::City,
                        )
                    },
                }),
            spec_parents_rank_increase(old(zones)@) ==> spec_parents_rank_increase(zones@),
        decreases candidates@.len() - i,
    {
        let ghost before = zones@;
        add_city(zones, &candidates[i]);
        proof {
            lemma_cities_snoc(
                old(zones)@,
                before,
                zones@,
                candidates@.take(i as int),
                candidates@[i as int],
            );
            assert(candidates@.take(i as int).push(candidates@[i as int]) =~= candidates@.take(
                i as int + 1,
            ));
            if spec_city_accept(before, candidates@[i as int].tags@, candidates@[i as int].covering@) {
                let z = zones@.last();
                match z.parent {
                    None => {},
                    Some(p) => {
                        assert(spec_city_eligible(before, candidates@[i as int].covering@, p.index as int));
                    },
                }
                if spec_parents_rank_increase(old(zones)@) {
                    assert forall|j: int| 0 <= j < zones@.len() implies match (
                    #[trigger] zones@[j]).parent {
                        None => true,
                        Some(p) => {
                            &&& p.index < zones@.len()
                            &&& zones@[j].zone_type is Some
                            &&& zones@[p.index as int].zone_type is Some
                            &&& spec_rank(zones@[p.index as int].zone_type.unwrap()) > spec_rank(
                                zones@[j].zone_type.unwrap(),
                            )
                        },
                    } by {
                        if j < zones@.len() - 1 {
                            assert(zones@[j] == before[j]);
                        }
                    }
                }
            } else {
                assert(zones@ == before);
            }
        }
        i = i + 1;
    }
    proof {
        assert(candidates@.take(candidates@.len() as int) =~= candidates@);
    }
}

} // verus!
