//! Builds a hierarchical catalog of administrative zones out of
//! OpenStreetMap data: zones are typed through per-country rules,
//! wired into a parent forest from geometric inclusions, and given
//! human-readable labels.
//!
//! Geometry itself (boundary reconstruction and the exact cover
//! predicate) lives with the caller; the library works on integer
//! bounding envelopes and on cover answers handed in as plain data.

pub mod additional_zones;
pub mod cosmogony;
pub mod country_finder;
pub mod file_format;
pub mod hierarchy_builder;
pub mod mutable_slice;
pub mod strings;
pub mod zone;
pub mod zone_typer;

pub use cosmogony::Cosmogony;
pub use cosmogony::CosmogonyMetadata;
pub use cosmogony::CosmogonyStats;
pub use zone::Zone;
pub use zone::ZoneIndex;
pub use zone::ZoneType;

use crate::cosmogony::counters_view;
use crate::cosmogony::level_counters_view;
use crate::cosmogony::spec_bump;
use crate::country_finder::spec_country_code_of;
use crate::country_finder::spec_country_entries;
use crate::country_finder::spec_find_country;
use crate::country_finder::CountryFinder;
use crate::mutable_slice::MutableSlice;
use crate::strings::str_eq;
use crate::strings::upper_of;
use crate::zone::spec_label;
use crate::zone::spec_tag_get;
use crate::zone::zone_like_except_label;
use crate::zone::TagsMap;
use crate::zone_typer::spec_type_outcome;
use crate::zone_typer::CountryRules;
use crate::zone_typer::TypeOutcome;
use crate::zone_typer::ZoneTyper;
use crate::zone_typer::ZoneTyperError;
use vstd::prelude::*;

verus! {

/// Whether OSM tags mark an administrative boundary: tagged
/// `boundary=administrative` and carrying an `admin_level`.
pub fn is_admin(tags: &TagsMap) -> (r: bool)
    ensures
        r == (spec_tag_get(tags@, "boundary"@) == Some("administrative"@) && spec_tag_get(
            tags@,
            "admin_level"@,
        ) is Some),
{
    let boundary_ok = match tags.get("boundary") {
        Some(v) => str_eq(v.as_str(), "administrative"),
        None => false,
    };
    if !boundary_ok {
        return false;
    }
    match tags.get("admin_level") {
        Some(_) => true,
        None => false,
    }
}

/// Why a build cannot proceed: no country code was supplied and no
/// zone of the extract types as a country.
#[derive(Debug, PartialEq, Eq, Structural, Clone, Copy)]
pub enum BuildError {
    MissingCountry,
}

/// The country a zone is typed under: the forced code uppercased
/// when one is given, else the first found country among the zones
/// covering it.
pub open spec fn spec_resolved_country(
    entries: Seq<(ZoneIndex, Seq<char>)>,
    forced: Option<Seq<char>>,
    row: Seq<ZoneIndex>,
    self_idx: int,
) -> Option<Seq<char>> {
    match forced {
        Some(c) => Some(upper_of(c)),
        None => spec_find_country(entries, row, self_idx),
    }
}

/// The canonical country code for a zone: the forced `--country-code`
/// uppercased when given, else the code of the country zone covering
/// it.
pub fn get_country_code(
    country_finder: &CountryFinder,
    zone: &Zone,
    country_code: &Option<String>,
    inclusions: &Vec<ZoneIndex>,
) -> (r: Option<String>)
    ensures
        r is Some <==> spec_resolved_country(
            country_finder.spec_entries(),
            country_code.deep_view(),
            inclusions@,
            zone.id.index as int,
        ) is Some,
        r matches Some(c) ==> spec_resolved_country(
            country_finder.spec_entries(),
            country_code.deep_view(),
            inclusions@,
            zone.id.index as int,
        ) == Some(c@),
{
    match country_code {
        Some(c) => Some(crate::strings::to_uppercase(c.as_str())),
        None => country_finder.find_zone_country(zone, inclusions),
    }
}

/// What typing decides for one zone: a type, or the reason none was
/// found — no country covering it, a country without rules, or an
/// unlisted admin level.
pub enum ZoneOutcome {
    Typed(ZoneType),
    NoCountry,
    BadCountry(Seq<char>),
    BadLevel(Option<u32>, Seq<char>),
}

/// The outcome of typing zone `i` of `zones`, given the typer's
/// rules, the forced country code, and the zone's inclusion list.
pub open spec fn spec_zone_outcome(
    countries: Seq<(String, CountryRules)>,
    zones: Seq<Zone>,
    forced: Option<Seq<char>>,
    row: Vec<ZoneIndex>,
    i: int,
) -> ZoneOutcome {
    let entries = spec_country_entries(countries, zones, zones.len() as int);
    match spec_resolved_country(entries, forced, row@, i) {
        None => ZoneOutcome::NoCountry,
        Some(cc) => match spec_type_outcome(countries, zones[i], cc, row@, zones) {
            TypeOutcome::Typed(t) => ZoneOutcome::Typed(t),
            TypeOutcome::NoSuchCountry => ZoneOutcome::BadCountry(cc),
            TypeOutcome::NoSuchLevel => ZoneOutcome::BadLevel(zones[i].admin_level, cc),
        },
    }
}

/// Whether a computed typing answer says what the outcome says.
pub open spec fn outcome_matches(
    o: Option<Result<ZoneType, ZoneTyperError>>,
    oc: ZoneOutcome,
) -> bool {
    match oc {
        ZoneOutcome::Typed(t) => o == Some(Ok::<ZoneType, ZoneTyperError>(t)),
        ZoneOutcome::NoCountry => o is None,
        ZoneOutcome::BadCountry(c) => o matches Some(
            Err(ZoneTyperError::InvalidCountry(s)),
        ) && s@ == c,
        ZoneOutcome::BadLevel(l, c) => o matches Some(
            Err(ZoneTyperError::UnkownLevel(l2, s)),
        ) && l2 == l && s@ == c,
    }
}

/// The statistics touched by typing, as plain values.
pub struct StatsAcc {
    pub without: u64,
    pub rules: Seq<(Seq<char>, u64)>,
    pub levels: Seq<((Seq<char>, u32), u64)>,
}

/// The statistics of a `CosmogonyStats` record, as plain values.
pub open spec fn stats_acc_of(s: CosmogonyStats) -> StatsAcc {
    StatsAcc {
        without: s.zone_without_country,
        rules: counters_view(s.zone_with_unkwown_country_rules@),
        levels: level_counters_view(s.unhandled_admin_level@),
    }
}

/// The bucket an unhandled level is counted under: the level, or
/// zero when it is missing.
pub open spec fn spec_level_bucket(l: Option<u32>) -> u32 {
    match l {
        Some(x) => x,
        None => 0,
    }
}

/// One more, saturating.
pub open spec fn spec_sat_inc(x: u64) -> u64 {
    if x < u64::MAX {
        (x + 1) as u64
    } else {
        x
    }
}

/// How one zone's outcome moves the statistics: an untypable zone
/// bumps the counter its outcome names; a typed zone changes
/// nothing.
pub open spec fn spec_stats_step(acc: StatsAcc, oc: ZoneOutcome) -> StatsAcc {
    match oc {
        ZoneOutcome::Typed(_) => acc,
        ZoneOutcome::NoCountry => StatsAcc { without: spec_sat_inc(acc.without), ..acc },
        ZoneOutcome::BadCountry(c) => StatsAcc { rules: spec_bump(acc.rules, c), ..acc },
        ZoneOutcome::BadLevel(l, c) => StatsAcc {
            levels: spec_bump(acc.levels, (c, spec_level_bucket(l))),
            ..acc
        },
    }
}

/// The statistics after typing the first `k` zones.
pub open spec fn spec_stats_fold(
    acc0: StatsAcc,
    countries: Seq<(String, CountryRules)>,
    zones: Seq<Zone>,
    forced: Option<Seq<char>>,
    incl: Seq<Vec<ZoneIndex>>,
    k: int,
) -> StatsAcc
    decreases k,
{
    if k <= 0 {
        acc0
    } else {
        spec_stats_step(
            spec_stats_fold(acc0, countries, zones, forced, incl, k - 1),
            spec_zone_outcome(countries, zones, forced, incl[k - 1], k - 1),
        )
    }
}

/// No country entry is gathered exactly when no zone types as a
/// country.
proof fn lemma_country_entries_empty(
    countries: Seq<(String, CountryRules)>,
    zones: Seq<Zone>,
    k: int,
)
    requires
        0 <= k <= zones.len(),
    ensures
        (spec_country_entries(countries, zones, k).len() == 0) <==> (forall|i: int|
            0 <= i < k ==> spec_country_code_of(countries, zones, i) is None),
    decreases k,
{
    if k > 0 {
        lemma_country_entries_empty(countries, zones, k - 1);
    }
}

/// Types every zone: each is assigned the type its country's rules
/// give it, while the statistics count the zones left untypable —
/// without a country, with a country that has no rules, or with an
/// unlisted admin level. Fails, changing nothing, exactly when no
/// country code is forced and no zone of the extract types as a
/// country.
pub fn type_zones(
    zones: &mut Vec<Zone>,
    stats: &mut CosmogonyStats,
    typer: &ZoneTyper,
    country_code: &Option<String>,
    inclusions: &Vec<Vec<ZoneIndex>>,
) -> (r: Result<(), BuildError>)
    requires
        inclusions@.len() == old(zones)@.len(),
        forall|i: int|
            0 <= i < old(zones)@.len() ==> (#[trigger] old(zones)@[i]).id.index == i,
    ensures
        r is Err <==> (country_code is None && (forall|i: int|
            0 <= i < old(zones)@.len() ==> spec_country_code_of(
                typer.countries@,
                old(zones)@,
                i,
            ) is None)),
        r is Err ==> final(zones)@ == old(zones)@ && *final(stats) == *old(stats),
        final(zones)@.len() == old(zones)@.len(),
        r is Ok ==> forall|i: int|
            0 <= i < old(zones)@.len() ==> #[trigger] final(zones)@[i] == (Zone {
                zone_type: final(zones)@[i].zone_type,
                ..old(zones)@[i]
            }),
        r is Ok ==> forall|i: int|
            0 <= i < old(zones)@.len() ==> #[trigger] final(zones)@[i].zone_type == (
            match spec_zone_outcome(
                typer.countries@,
                old(zones)@,
                country_code.deep_view(),
                inclusions@[i],
                i,
            ) {
                ZoneOutcome::Typed(t) => Some(t),
                _ => old(zones)@[i].zone_type,
            }),
        r is Ok ==> stats_acc_of(*final(stats)) == spec_stats_fold(
            stats_acc_of(*old(stats)),
            typer.countries@,
            old(zones)@,
            country_code.deep_view(),
            inclusions@,
            old(zones)@.len() as int,
        ) && final(stats).zone_count_by_type == old(stats).zone_count_by_type,
{
    let n = zones.len();
    let country_finder = CountryFinder::init(zones, typer);
    let no_code = match country_code {
        Some(_) => false,
        None => true,
    };
    if no_code && country_finder.is_empty() {
        proof {
            lemma_country_entries_empty(typer.countries@, zones@, zones@.len() as int);
        }
        return Err(BuildError::MissingCountry);
    }
    proof {
        lemma_country_entries_empty(typer.countries@, zones@, zones@.len() as int);
    }
    let ghost entries = spec_country_entries(typer.countries@, zones@, zones@.len() as int);
    let ghost forced = country_code.deep_view();
    let mut outcomes: Vec<Option<Result<ZoneType, ZoneTyperError>>> = Vec::new();
    let mut i: usize = 0;
    while i < n
        invariant
            n == zones@.len(),
            zones@ == old(zones)@,
            inclusions@.len() == n as int,
            forall|j: int| 0 <= j < n ==> (#[trigger] old(zones)@[j]).id.index == j,
            entries == spec_country_entries(typer.countries@, zones@, zones@.len() as int),
            forced == country_code.deep_view(),
            country_finder.spec_entries() == entries,
            i <= n,
            outcomes@.len() == i as int,
            forall|j: int|
                0 <= j < i ==> outcome_matches(
                    #[trigger] outcomes@[j],
                    spec_zone_outcome(typer.countries@, zones@, forced, inclusions@[j], j),
                ),
        decreases n - i,
    {
        proof {
            assert(old(zones)@[i as int].id.index == i as int);
            assert(zones@[i as int].id.index == i as int);
        }
        let country = get_country_code(&country_finder, &zones[i], country_code, &inclusions[i]);
        match country {
            None => {
                outcomes.push(None);
            },
            Some(c) => {
                let t = typer.get_zone_type(&zones[i], c.as_str(), &inclusions[i], zones);
                outcomes.push(Some(t));
            },
        }
        i = i + 1;
    }
    let mut i: usize = 0;
    while i < n
        invariant
            n == old(zones)@.len(),
            zones@.len() == n as int,
            inclusions@.len() == n as int,
            outcomes@.len() == n as int,
            forced == country_code.deep_view(),
            i <= n,
            forall|j: int|
                0 <= j < n ==> outcome_matches(
                    #[trigger] outcomes@[j],
                    spec_zone_outcome(typer.countries@, old(zones)@, forced, inclusions@[j], j),
                ),
            forall|j: int|
                0 <= j < n ==> #[trigger] zones@[j] == (Zone {
                    zone_type: zones@[j].zone_type,
                    ..old(zones)@[j]
                }),
            forall|j: int| i <= j < n ==> #[trigger] zones@[j] == old(zones)@[j],
            forall|j: int|
                0 <= j < i ==> #[trigger] zones@[j].zone_type == (match spec_zone_outcome(
                    typer.countries@,
                    old(zones)@,
                    forced,
                    inclusions@[j],
                    j,
                ) {
                    ZoneOutcome::Typed(t) => Some(t),
                    _ => old(zones)@[j].zone_type,
                }),
            stats_acc_of(*stats) == spec_stats_fold(
                stats_acc_of(*old(stats)),
                typer.countries@,
                old(zones)@,
                forced,
                inclusions@,
                i as int,
            ),
            stats.zone_count_by_type == old(stats).zone_count_by_type,
        decreases n - i,
    {
        match &outcomes[i] {
            None => {
                let w = stats.zone_without_country;
                stats.zone_without_country = if w < u64::MAX {
                    w + 1
                } else {
                    w
                };
            },
            Some(Ok(t)) => {
                zones[i].zone_type = Some(*t);
            },
            Some(Err(ZoneTyperError::InvalidCountry(c))) => {
                crate::cosmogony::bump_counter(
                    &mut stats.zone_with_unkwown_country_rules,
                    c.as_str(),
                );
            },
            Some(Err(ZoneTyperError::UnkownLevel(l, c))) => {
                let bucket = match l {
                    Some(x) => *x,
                    None => 0,
                };
                crate::cosmogony::bump_level_counter(
                    &mut stats.unhandled_admin_level,
                    c.as_str(),
                    bucket,
                );
            },
        }
        i = i + 1;
    }
    Ok(())
}

/// Writes every zone's label, in handle order: its name, the names
/// up its parent chain with runs of equal names collapsed, the
/// zip-code suffix on the first part. Nothing but labels changes.
pub fn compute_labels(zones: &mut Vec<Zone>)
    ensures
        final(zones)@.len() == old(zones)@.len(),
        forall|i: int|
            0 <= i < old(zones)@.len() ==> #[trigger] final(zones)@[i] == (Zone {
                label: final(zones)@[i].label,
                ..old(zones)@[i]
            }),
        forall|i: int|
            0 <= i < old(zones)@.len() ==> #[trigger] final(zones)@[i].label@ == spec_label(
                old(zones)@,
                i,
            ),
{
    let n = zones.len();
    let mut i: usize = 0;
    while i < n
        invariant
            n == old(zones)@.len(),
            zones@.len() == n as int,
            i <= n,
            forall|j: int|
                0 <= j < n ==> #[trigger] zones@[j] == (Zone {
                    label: zones@[j].label,
                    ..old(zones)@[j]
                }),
            forall|j: int| i <= j < n ==> #[trigger] zones@[j] == old(zones)@[j],
            forall|j: int|
                0 <= j < i ==> #[trigger] zones@[j].label@ == spec_label(old(zones)@, j),
        decreases n - i,
    {
        let ghost cur = zones@;
        let (mslice, mut z) = MutableSlice::init(zones, i);
        z.compute_label(&mslice);
        proof {
            assert forall|j: int| 0 <= j < n implies #[trigger] zone_like_except_label(
                cur[j],
                old(zones)@[j],
            ) by {}
            crate::zone::lemma_label_like(cur, old(zones)@, i as int);
            assert(z.label@ == spec_label(old(zones)@, i as int));
        }
        let lbl = z.label;
        zones[i].label = lbl;
        i = i + 1;
    }
}

/// The zones that keep a place in the catalog: those whose type was
/// assigned, in their order.
pub open spec fn spec_retain_typed(s: Seq<Zone>) -> Seq<Zone>
    decreases s.len(),
{
    if s.len() == 0 {
        s
    } else {
        (if s[0].zone_type is Some {
            seq![s[0]]
        } else {
            Seq::empty()
        }) + spec_retain_typed(s.skip(1))
    }
}

/// Every retained zone is typed; each one is a zone of the pruned
/// sequence; and no zone appears out of thin air: the retained
/// sequence is never longer than the one pruned.
pub proof fn lemma_retain_typed(s: Seq<Zone>)
    ensures
        forall|i: int|
            0 <= i < spec_retain_typed(s).len() ==> (#[trigger] spec_retain_typed(s)[i]).zone_type
                is Some,
        spec_retain_typed(s).len() <= s.len(),
        forall|k: int|
            0 <= k < spec_retain_typed(s).len() ==> exists|i: int|
                0 <= i < s.len() && #[trigger] spec_retain_typed(s)[k] == s[i],
    decreases s.len(),
{
    if s.len() > 0 {
        lemma_retain_typed(s.skip(1));
        let r = spec_retain_typed(s);
        let rest = spec_retain_typed(s.skip(1));
        assert(r.len() <= s.len());
        assert forall|i: int| 0 <= i < r.len() implies (#[trigger] r[i]).zone_type is Some by {
            if s[0].zone_type is Some {
                if i > 0 {
                    assert(r[i] == rest[i - 1]);
                }
            } else {
                assert(r[i] == rest[i]);
            }
        }
        assert forall|k: int| 0 <= k < r.len() implies exists|i: int|
            0 <= i < s.len() && #[trigger] r[k] == s[i] by {
            let off: int = if s[0].zone_type is Some {
                1
            } else {
                0
            };
            if s[0].zone_type is Some && k == 0 {
                assert(r[0] == s[0]);
            } else {
                assert(r[k] == rest[k - off]);
                let i2 = choose|i2: int|
                    0 <= i2 < s.skip(1).len() && #[trigger] rest[k - off] == s.skip(1)[i2];
                assert(s.skip(1)[i2] == s[i2 + 1]);
                assert(r[k] == s[i2 + 1]);
            }
        }
    }
}

/// The state a build wires up before its final prune: every zone
/// typed by its country's rules, given the parent the choice rule
/// picks from its inclusions, and carrying its computed label; all
/// other fields as ingested. Parent edges climb the type order, so
/// the forest is acyclic.
pub open spec fn spec_wired(
    before: Seq<Zone>,
    wired: Seq<Zone>,
    countries: Seq<(String, CountryRules)>,
    forced: Option<Seq<char>>,
    incl: Seq<Vec<ZoneIndex>>,
) -> bool {
    &&& wired.len() == before.len()
    &&& (forall|i: int|
        0 <= i < wired.len() ==> #[trigger] wired[i] == (Zone {
            zone_type: wired[i].zone_type,
            parent: wired[i].parent,
            label: wired[i].label,
            ..before[i]
        }))
    &&& (forall|i: int|
        0 <= i < wired.len() ==> (#[trigger] wired[i]).zone_type == (match spec_zone_outcome(
            countries,
            before,
            forced,
            incl[i],
            i,
        ) {
            ZoneOutcome::Typed(t) => Some(t),
            _ => before[i].zone_type,
        }))
    &&& (forall|i: int|
        0 <= i < wired.len() ==> hierarchy_builder::spec_parent_choice(
            wired,
            incl[i]@,
            i,
            match (#[trigger] wired[i]).parent {
                Some(p) => Some(p.index),
                None => None,
            },
        ))
    &&& hierarchy_builder::spec_parents_rank_increase(wired)
    &&& (forall|i: int|
        0 <= i < wired.len() ==> (#[trigger] wired[i]).label@ == spec_label(wired, i))
}

/// What a finished build holds: some wired state, with the zones
/// whose type stayed unassigned pruned away.
pub open spec fn spec_built(
    before: Seq<Zone>,
    result: Seq<Zone>,
    countries: Seq<(String, CountryRules)>,
    forced: Option<Seq<char>>,
    incl: Seq<Vec<ZoneIndex>>,
) -> bool {
    exists|wired: Seq<Zone>|
        #[trigger] spec_wired(before, wired, countries, forced, incl) && result
            == spec_retain_typed(wired)
}

/// Drops the zones whose type was never assigned; every zone left
/// carries a type. Handles into the vector lose their meaning here:
/// from now on zones are identified by `osm_id`.
pub fn clean_untagged_zones(zones: &mut Vec<Zone>)
    ensures
        final(zones)@ == spec_retain_typed(old(zones)@),
        forall|i: int|
            0 <= i < final(zones)@.len() ==> (#[trigger] final(zones)@[i]).zone_type is Some,
{
    let mut i: usize = 0;
    proof {
        assert(zones@.take(0) =~= Seq::<Zone>::empty());
        assert(zones@.skip(0) =~= zones@);
        assert(spec_retain_typed(old(zones)@) =~= zones@.take(0) + spec_retain_typed(
            zones@.skip(0),
        ));
    }
    while i < zones.len()
        invariant
            i <= zones@.len(),
            forall|j: int| 0 <= j < i ==> (#[trigger] zones@[j]).zone_type is Some,
            spec_retain_typed(old(zones)@) == zones@.take(i as int) + spec_retain_typed(
                zones@.skip(i as int),
            ),
        decreases zones@.len() - i,
    {
        let ghost cur = zones@;
        let keep = match &zones[i].zone_type {
            Some(_) => true,
            None => false,
        };
        if keep {
            proof {
                assert(cur.skip(i as int)[0] == cur[i as int]);
                assert(cur.skip(i as int).skip(1) =~= cur.skip(i + 1));
                assert(cur.take(i + 1) =~= cur.take(i as int) + seq![cur[i as int]]);
                assert(spec_retain_typed(old(zones)@) =~= cur.take(i + 1) + spec_retain_typed(
                    cur.skip(i + 1),
                ));
            }
            i = i + 1;
        } else {
            zones.remove(i);
            proof {
                assert(cur.skip(i as int)[0] == cur[i as int]);
                assert(zones@ =~= cur.remove(i as int));
                assert(zones@.take(i as int) =~= cur.take(i as int));
                assert(zones@.skip(i as int) =~= cur.skip(i + 1));
                assert(cur.skip(i as int).skip(1) =~= cur.skip(i + 1));
            }
        }
    }
    proof {
        assert(zones@.take(zones@.len() as int) =~= zones@);
        assert(zones@.skip(zones@.len() as int) =~= Seq::<Zone>::empty());
        assert(spec_retain_typed(old(zones)@) == zones@.take(zones@.len() as int)
            + spec_retain_typed(zones@.skip(zones@.len() as int)));
        assert(spec_retain_typed(Seq::<Zone>::empty()) =~= Seq::<Zone>::empty());
        assert(spec_retain_typed(old(zones)@) =~= zones@);
        lemma_retain_typed(old(zones)@);
    }
}

/// Runs the core of a build on ingested zones: typing through the
/// country rules, parent wiring from the confirmed inclusions,
/// labelling, and the final prune of untypable zones. The result is
/// a wired state — typed, parented by the choice rule, labelled,
/// with parent types climbing every chain — minus the zones whose
/// type stayed unassigned. Enrichment with additional cities, which
/// needs another pass over the OSM source, is sequenced by the
/// caller between the hierarchy and the labels. Fails, changing
/// nothing, exactly when no country code is forced and no zone
/// types as a country.
#[verifier::rlimit(100)]
pub fn create_ontology(
    zones: &mut Vec<Zone>,
    stats: &mut CosmogonyStats,
    typer: &ZoneTyper,
    country_code: &Option<String>,
    inclusions: &Vec<Vec<ZoneIndex>>,
) -> (r: Result<(), BuildError>)
    requires
        inclusions@.len() == old(zones)@.len(),
        forall|i: int|
            0 <= i < old(zones)@.len() ==> (#[trigger] old(zones)@[i]).id.index == i,
    ensures
        r is Err <==> (country_code is None && (forall|i: int|
            0 <= i < old(zones)@.len() ==> spec_country_code_of(
                typer.countries@,
                old(zones)@,
                i,
            ) is None)),
        r is Err ==> final(zones)@ == old(zones)@,
        final(zones)@.len() <= old(zones)@.len(),
        r is Ok ==> spec_built(
            old(zones)@,
            final(zones)@,
            typer.countries@,
            country_code.deep_view(),
            inclusions@,
        ),
        r is Ok ==> forall|i: int|
            0 <= i < final(zones)@.len() ==> (#[trigger] final(zones)@[i]).zone_type is Some,
        r is Ok ==> (forall|i: int|
            0 <= i < old(zones)@.len() ==> (#[trigger] old(zones)@[i]).name@.len() > 0)
            ==> (forall|k: int|
            0 <= k < final(zones)@.len() ==> (#[trigger] final(zones)@[k]).label@.len() > 0),
{
    match type_zones(zones, stats, typer, country_code, inclusions) {
        Err(e) => {
            return Err(e);
        },
        Ok(()) => {},
    }
    let ghost typed = zones@;
    hierarchy_builder::build_hierarchy(zones, inclusions);
    let ghost hier = zones@;
    compute_labels(zones);
    let ghost mid = zones@;
    clean_untagged_zones(zones);
    proof {
        lemma_retain_typed(mid);
        assert forall|j: int| 0 <= j < mid.len() implies #[trigger] mid[j] == (Zone {
            zone_type: mid[j].zone_type,
            parent: mid[j].parent,
            label: mid[j].label,
            ..old(zones)@[j]
        }) by {
            assert(typed[j] == (Zone { zone_type: typed[j].zone_type, ..old(zones)@[j] }));
            assert(hier[j] == (Zone { parent: hier[j].parent, ..typed[j] }));
            assert(mid[j] == (Zone { label: mid[j].label, ..hier[j] }));
        }
        assert forall|j: int| 0 <= j < mid.len() implies (#[trigger] typed[j]).zone_type
            == mid[j].zone_type && typed[j].admin_level == mid[j].admin_level && typed[j].osm_id@
            == mid[j].osm_id@ && hier[j].zone_type == mid[j].zone_type && hier[j].parent
            == mid[j].parent by {
            assert(typed[j] == (Zone { zone_type: typed[j].zone_type, ..old(zones)@[j] }));
            assert(hier[j] == (Zone { parent: hier[j].parent, ..typed[j] }));
            assert(mid[j] == (Zone { label: mid[j].label, ..hier[j] }));
        }
        assert forall|i: int| 0 <= i < mid.len() implies (#[trigger] mid[i]).zone_type == (
        match spec_zone_outcome(
            typer.countries@,
            old(zones)@,
            country_code.deep_view(),
            inclusions@[i],
            i,
        ) {
            ZoneOutcome::Typed(t) => Some(t),
            _ => old(zones)@[i].zone_type,
        }) by {
            assert(typed[i].zone_type == (match spec_zone_outcome(
                typer.countries@,
                old(zones)@,
                country_code.deep_view(),
                inclusions@[i],
                i,
            ) {
                ZoneOutcome::Typed(t) => Some(t),
                _ => old(zones)@[i].zone_type,
            }));
        }
        assert forall|i: int| 0 <= i < mid.len() implies hierarchy_builder::spec_parent_choice(
            mid,
            inclusions@[i]@,
            i,
            match (#[trigger] mid[i]).parent {
                Some(p) => Some(p.index),
                None => None,
            },
        ) by {
            assert(hierarchy_builder::spec_parent_choice(
                typed,
                inclusions@[i]@,
                i,
                match hier[i].parent {
                    Some(p) => Some(p.index),
                    None => None,
                },
            ));
            hierarchy_builder::lemma_parent_choice_like(
                typed,
                mid,
                inclusions@[i]@,
                i,
                match mid[i].parent {
                    Some(p) => Some(p.index),
                    None => None,
                },
            );
        }
        assert forall|j: int| 0 <= j < hier.len() implies (#[trigger] hier[j]).zone_type
            == mid[j].zone_type && hier[j].parent == mid[j].parent by {}
        hierarchy_builder::lemma_rank_increase_like(hier, mid);
        assert forall|j: int| 0 <= j < hier.len() implies #[trigger] zone_like_except_label(
            hier[j],
            mid[j],
        ) by {
            assert(mid[j] == (Zone { label: mid[j].label, ..hier[j] }));
        }
        assert forall|i: int| 0 <= i < mid.len() implies (#[trigger] mid[i]).label@ == spec_label(
            mid,
            i,
        ) by {
            assert(mid[i].label@ == spec_label(hier, i));
            crate::zone::lemma_label_like(hier, mid, i);
        }
        assert(spec_wired(
            old(zones)@,
            mid,
            typer.countries@,
            country_code.deep_view(),
            inclusions@,
        ));
        assert(spec_built(
            old(zones)@,
            zones@,
            typer.countries@,
            country_code.deep_view(),
            inclusions@,
        ));
        if forall|i: int|
            0 <= i < old(zones)@.len() ==> (#[trigger] old(zones)@[i]).name@.len() > 0 {
            assert forall|k: int| 0 <= k < zones@.len() implies (#[trigger] zones@[k]).label@.len()
                > 0 by {
                assert(zones@[k] == spec_retain_typed(mid)[k]);
                let i = choose|i: int|
                    0 <= i < mid.len() && #[trigger] spec_retain_typed(mid)[k] == mid[i];
                assert(mid[i] == (Zone {
                    zone_type: mid[i].zone_type,
                    parent: mid[i].parent,
                    label: mid[i].label,
                    ..old(zones)@[i]
                }));
                assert(old(zones)@[i].name@.len() > 0);
                assert(mid[i].name@ == old(zones)@[i].name@);
                crate::zone::lemma_label_nonempty(mid, i);
                assert(zones@[k].label@ == mid[i].label@);
            }
        }
    }
    Ok(())
}

} // verus!
