//! Typing zones through per-country rules: each country maps OSM
//! `admin_level` values to zone types, and may override the type of
//! a zone by its own OSM id or by the id of one of its geometric
//! ancestors. The rule files themselves are parsed by the caller;
//! the tables arrive here as plain values.

use crate::strings::str_eq;
use crate::zone::Zone;
use crate::zone::ZoneIndex;
use crate::zone::ZoneType;
use vstd::prelude::*;

verus! {

/// Why a zone could not be typed: no rules for its country, or an
/// `admin_level` (possibly missing) that its country's rules do not
/// list.
#[derive(Debug, PartialEq, Eq)]
pub enum ZoneTyperError {
    InvalidCountry(String),
    UnkownLevel(Option<u32>, String),
}

/// The rules of one country: its `admin_level` table, and the
/// overrides by a zone's own OSM id and by an ancestor's OSM id.
#[derive(Debug)]
pub struct CountryRules {
    pub level_types: Vec<(u32, ZoneType)>,
    pub id_overrides: Vec<(String, ZoneType)>,
    pub ancestor_overrides: Vec<(String, ZoneType)>,
}

/// The rule tables of every known country, keyed by ISO country
/// code.
#[derive(Debug)]
pub struct ZoneTyper {
    pub countries: Vec<(String, CountryRules)>,
}

/// The value under the first entry whose string key reads `key`.
pub open spec fn assoc_get<T>(m: Seq<(String, T)>, key: Seq<char>) -> Option<T>
    decreases m.len(),
{
    if m.len() == 0 {
        None
    } else if m[0].0@ == key {
        Some(m[0].1)
    } else {
        assoc_get(m.skip(1), key)
    }
}

/// Looking a key up past entries that do not hold it.
pub proof fn lemma_assoc_get_skip<T>(m: Seq<(String, T)>, key: Seq<char>, i: int)
    requires
        0 <= i <= m.len(),
        forall|j: int| 0 <= j < i ==> (#[trigger] m[j]).0@ != key,
    ensures
        assoc_get(m, key) == assoc_get(m.skip(i), key),
    decreases i,
{
    if i == 0 {
        assert(m.skip(0) =~= m);
    } else {
        assert(forall|j: int| 0 <= j < i - 1 ==> #[trigger] m.skip(1)[j] == m[j + 1]);
        lemma_assoc_get_skip(m.skip(1), key, i - 1);
        assert(m.skip(1).skip(i - 1) =~= m.skip(i));
    }
}

/// The first entry of `m` whose string key reads `key`, if any.
pub fn assoc_find<'a, T>(m: &'a Vec<(String, T)>, key: &str) -> (r: Option<&'a T>)
    ensures
        r is Some <==> assoc_get(m@, key@) is Some,
        r matches Some(v) ==> assoc_get(m@, key@) == Some(*v),
{
    let mut i: usize = 0;
    while i < m.len()
        invariant
            i <= m@.len(),
            forall|j: int| 0 <= j < i ==> (#[trigger] m@[j]).0@ != key@,
        decreases m@.len() - i,
    {
        if str_eq(m[i].0.as_str(), key) {
            proof {
                lemma_assoc_get_skip(m@, key@, i as int);
            }
            return Some(&m[i].1);
        }
        i = i + 1;
    }
    proof {
        lemma_assoc_get_skip(m@, key@, i as int);
    }
    None
}

/// The zone type under an `admin_level` value, if the table lists
/// it.
pub open spec fn level_get(m: Seq<(u32, ZoneType)>, level: u32) -> Option<ZoneType>
    decreases m.len(),
{
    if m.len() == 0 {
        None
    } else if m[0].0 == level {
        Some(m[0].1)
    } else {
        level_get(m.skip(1), level)
    }
}

/// Looking a level up past entries that do not hold it.
proof fn lemma_level_get_skip(m: Seq<(u32, ZoneType)>, level: u32, i: int)
    requires
        0 <= i <= m.len(),
        forall|j: int| 0 <= j < i ==> (#[trigger] m[j]).0 != level,
    ensures
        level_get(m, level) == level_get(m.skip(i), level),
    decreases i,
{
    if i == 0 {
        assert(m.skip(0) =~= m);
    } else {
        assert(forall|j: int| 0 <= j < i - 1 ==> #[trigger] m.skip(1)[j] == m[j + 1]);
        lemma_level_get_skip(m.skip(1), level, i - 1);
        assert(m.skip(1).skip(i - 1) =~= m.skip(i));
    }
}

/// The level table entry for `level`, if any.
fn level_find(m: &Vec<(u32, ZoneType)>, level: u32) -> (r: Option<ZoneType>)
    ensures
        r == level_get(m@, level),
{
    let mut i: usize = 0;
    while i < m.len()
        invariant
            i <= m@.len(),
            forall|j: int| 0 <= j < i ==> (#[trigger] m@[j]).0 != level,
        decreases m@.len() - i,
    {
        if m[i].0 == level {
            proof {
                lemma_level_get_skip(m@, level, i as int);
            }
            return Some(m[i].1);
        }
        i = i + 1;
    }
    proof {
        lemma_level_get_skip(m@, level, i as int);
    }
    None
}

/// The type set by the first ancestor in `inclusions`, in list
/// order, whose OSM id the override table lists. Handles out of
/// bounds are passed over.
pub open spec fn spec_ancestor_override(
    overrides: Seq<(String, ZoneType)>,
    inclusions: Seq<ZoneIndex>,
    zones: Seq<Zone>,
) -> Option<ZoneType>
    decreases inclusions.len(),
{
    if inclusions.len() == 0 {
        None
    } else {
        let h = inclusions[0];
        if h.index < zones.len() && assoc_get(overrides, zones[h.index as int].osm_id@) is Some {
            assoc_get(overrides, zones[h.index as int].osm_id@)
        } else {
            spec_ancestor_override(overrides, inclusions.skip(1), zones)
        }
    }
}

/// Passing over inclusions that set nothing.
proof fn lemma_ancestor_override_skip(
    overrides: Seq<(String, ZoneType)>,
    inclusions: Seq<ZoneIndex>,
    zones: Seq<Zone>,
    i: int,
)
    requires
        0 <= i <= inclusions.len(),
        forall|j: int|
            0 <= j < i ==> !((#[trigger] inclusions[j]).index < zones.len() && assoc_get(
                overrides,
                zones[inclusions[j].index as int].osm_id@,
            ) is Some),
    ensures
        spec_ancestor_override(overrides, inclusions, zones) == spec_ancestor_override(
            overrides,
            inclusions.skip(i),
            zones,
        ),
    decreases i,
{
    if i == 0 {
        assert(inclusions.skip(0) =~= inclusions);
    } else {
        assert(forall|j: int|
            0 <= j < i - 1 ==> #[trigger] inclusions.skip(1)[j] == inclusions[j + 1]);
        lemma_ancestor_override_skip(overrides, inclusions.skip(1), zones, i - 1);
        assert(inclusions.skip(1).skip(i - 1) =~= inclusions.skip(i));
    }
}

/// What typing decides for a zone under given rule tables: the
/// override by the zone's own id wins, then the override by the
/// first listed ancestor, then the `admin_level` table; missing
/// rules or an unlisted level leave the zone untypable.
pub enum TypeOutcome {
    Typed(ZoneType),
    NoSuchCountry,
    NoSuchLevel,
}

/// The outcome of typing `zone` as belonging to `country`.
pub open spec fn spec_type_outcome(
    countries: Seq<(String, CountryRules)>,
    zone: Zone,
    country: Seq<char>,
    inclusions: Seq<ZoneIndex>,
    all_zones: Seq<Zone>,
) -> TypeOutcome {
    match assoc_get(countries, country) {
        None => TypeOutcome::NoSuchCountry,
        Some(rules) => match assoc_get(rules.id_overrides@, zone.osm_id@) {
            Some(t) => TypeOutcome::Typed(t),
            None => match spec_ancestor_override(
                rules.ancestor_overrides@,
                inclusions,
                all_zones,
            ) {
                Some(t) => TypeOutcome::Typed(t),
                None => match zone.admin_level {
                    None => TypeOutcome::NoSuchLevel,
                    Some(l) => match level_get(rules.level_types@, l) {
                        Some(t) => TypeOutcome::Typed(t),
                        None => TypeOutcome::NoSuchLevel,
                    },
                },
            },
        },
    }
}

impl ZoneTyper {
    /// A typer over the given per-country rule tables.
    pub fn new(countries: Vec<(String, CountryRules)>) -> (r: ZoneTyper)
        ensures
            r.countries == countries,
    {
        ZoneTyper { countries }
    }

    /// Types a zone as belonging to `country`: the override by the
    /// zone's own OSM id wins, then the override by the first listed
    /// ancestor among its inclusions, then the country's
    /// `admin_level` table. An unknown country, or a missing or
    /// unlisted level, is answered with the matching error.
    pub fn get_zone_type(
        &self,
        zone: &Zone,
        country: &str,
        inclusions: &Vec<ZoneIndex>,
        all_zones: &Vec<Zone>,
    ) -> (r: Result<ZoneType, ZoneTyperError>)
        ensures
            match spec_type_outcome(self.countries@, *zone, country@, inclusions@, all_zones@) {
                TypeOutcome::Typed(t) => r == Ok::<ZoneType, ZoneTyperError>(t),
                TypeOutcome::NoSuchCountry => r matches Err(ZoneTyperError::InvalidCountry(c))
                    && c@ == country@,
                TypeOutcome::NoSuchLevel => r matches Err(ZoneTyperError::UnkownLevel(l, c))
                    && l == zone.admin_level && c@ == country@,
            },
    {
        let rules = match assoc_find(&self.countries, country) {
            Some(rules) => rules,
            None => {
                return Err(ZoneTyperError::InvalidCountry(country.to_owned()));
            },
        };
        match assoc_find(&rules.id_overrides, self_osm_id(zone)) {
            Some(t) => {
                return Ok(*t);
            },
            None => {},
        }
        match ancestor_override(&rules.ancestor_overrides, inclusions, all_zones) {
            Some(t) => {
                return Ok(t);
            },
            None => {},
        }
        match zone.admin_level {
            None => Err(ZoneTyperError::UnkownLevel(None, country.to_owned())),
            Some(l) => match level_find(&rules.level_types, l) {
                Some(t) => Ok(t),
                None => Err(ZoneTyperError::UnkownLevel(Some(l), country.to_owned())),
            },
        }
    }
}

/// The zone's OSM id as a string slice.
fn self_osm_id(zone: &Zone) -> (r: &str)
    ensures
        r@ == zone.osm_id@,
{
    zone.osm_id.as_str()
}

/// The type set by the first listed ancestor among `inclusions`,
/// if any.
fn ancestor_override(
    overrides: &Vec<(String, ZoneType)>,
    inclusions: &Vec<ZoneIndex>,
    zones: &Vec<Zone>,
) -> (r: Option<ZoneType>)
    ensures
        r == spec_ancestor_override(overrides@, inclusions@, zones@),
{
    let mut i: usize = 0;
    while i < inclusions.len()
        invariant
            i <= inclusions@.len(),
            forall|j: int|
                0 <= j < i ==> !((#[trigger] inclusions@[j]).index < zones@.len() && assoc_get(
                    overrides@,
                    zones@[inclusions@[j].index as int].osm_id@,
                ) is Some),
        decreases inclusions@.len() - i,
    {
        let h = inclusions[i];
        if h.index < zones.len() {
            match assoc_find(overrides, zones[h.index].osm_id.as_str()) {
                Some(t) => {
                    proof {
                        lemma_ancestor_override_skip(overrides@, inclusions@, zones@, i as int);
                        assert(inclusions@.skip(i as int)[0] == inclusions@[i as int]);
                    }
                    return Some(*t);
                },
                None => {},
            }
        }
        i = i + 1;
    }
    proof {
        lemma_ancestor_override_skip(overrides@, inclusions@, zones@, i as int);
    }
    None
}

} // verus!
