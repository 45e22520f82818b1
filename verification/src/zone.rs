//! The zone record and what belongs to it: the closed set of zone
//! types with their generality order, dense zone handles, integer
//! coordinates and bounding envelopes, OSM tag maps, ingestion of a
//! zone from its tags, and the label machinery.
//!
//! Geometry is kept abstract: a zone carries the integer envelope of
//! its boundary; the exact boundary and the cover predicate stay
//! with the caller.

use crate::strings::lex_lt;
use crate::strings::parse_u32;
use crate::strings::sort_unique;
use crate::strings::spec_decimal;
use crate::strings::spec_parse_u32;
use crate::strings::spec_split;
use crate::strings::split_char;
use crate::strings::str_eq;
use crate::strings::strictly_sorted_lex;
use crate::strings::u64_to_dec;
use vstd::prelude::*;

verus! {

/// The semantic type of a zone, from the most specific to the most
/// general kind of administrative area.
#[derive(Copy, Clone, Debug, PartialEq, Eq, Structural)]
pub enum ZoneType {
    Suburb,
    CityDistrict,
    City,
    StateDistrict,
    State,
    CountryRegion,
    Country,
    NonAdministrative,
}

/// Where a zone type stands in the generality order: a greater rank
/// means a more general kind of area.
pub open spec fn spec_rank(t: ZoneType) -> int {
    match t {
        ZoneType::Suburb => 0,
        ZoneType::CityDistrict => 1,
        ZoneType::City => 2,
        ZoneType::StateDistrict => 3,
        ZoneType::State => 4,
        ZoneType::CountryRegion => 5,
        ZoneType::Country => 6,
        ZoneType::NonAdministrative => 7,
    }
}

impl ZoneType {
    /// The rank of this type in the generality order.
    pub fn rank(&self) -> (r: u32)
        ensures
            r as int == spec_rank(*self),
    {
        match self {
            ZoneType::Suburb => 0,
            ZoneType::CityDistrict => 1,
            ZoneType::City => 2,
            ZoneType::StateDistrict => 3,
            ZoneType::State => 4,
            ZoneType::CountryRegion => 5,
            ZoneType::Country => 6,
            ZoneType::NonAdministrative => 7,
        }
    }
}

/// A dense handle into the zone vector. Handles stay valid until the
/// final prune; after it zones are identified by their `osm_id`.
#[derive(Copy, Clone, Debug, PartialEq, Eq, Structural)]
pub struct ZoneIndex {
    pub index: usize,
}

/// A point on the globe, in ten-millionths of a degree, as OSM
/// stores node positions.
#[derive(Copy, Clone, Debug, PartialEq, Eq, Structural)]
pub struct Coord {
    pub lon: i64,
    pub lat: i64,
}

/// The axis-aligned envelope of a boundary, in ten-millionths of a
/// degree.
#[derive(Copy, Clone, Debug, PartialEq, Eq, Structural)]
pub struct BoundingBox {
    pub min_lon: i64,
    pub min_lat: i64,
    pub max_lon: i64,
    pub max_lat: i64,
}

/// Whether envelope `a` covers envelope `b`: every point of `b` lies
/// inside `a`.
pub open spec fn spec_envelope_covers(a: BoundingBox, b: BoundingBox) -> bool {
    a.min_lon <= b.min_lon && a.min_lat <= b.min_lat && b.max_lon <= a.max_lon && b.max_lat
        <= a.max_lat
}

impl BoundingBox {
    /// Whether this envelope covers `other`.
    pub fn covers(&self, other: &BoundingBox) -> (r: bool)
        ensures
            r == spec_envelope_covers(*self, *other),
    {
        self.min_lon <= other.min_lon && self.min_lat <= other.min_lat && other.max_lon
            <= self.max_lon && other.max_lat <= self.max_lat
    }
}

/// The value held by the first entry of `m` whose key is `key`.
pub open spec fn spec_tag_get(m: Seq<(Seq<char>, Seq<char>)>, key: Seq<char>) -> Option<Seq<char>>
    decreases m.len(),
{
    if m.len() == 0 {
        None
    } else if m[0].0 == key {
        Some(m[0].1)
    } else {
        spec_tag_get(m.skip(1), key)
    }
}

/// Looking a key up in entries that do not hold it in their first
/// `i` positions comes down to looking it up in what follows.
proof fn lemma_tag_get_skip(m: Seq<(Seq<char>, Seq<char>)>, key: Seq<char>, i: int)
    requires
        0 <= i <= m.len(),
        forall|j: int| 0 <= j < i ==> (#[trigger] m[j]).0 != key,
    ensures
        spec_tag_get(m, key) == spec_tag_get(m.skip(i), key),
    decreases i,
{
    if i == 0 {
        assert(m.skip(0) =~= m);
    } else {
        assert(forall|j: int| 0 <= j < i - 1 ==> #[trigger] m.skip(1)[j] == m[j + 1]);
        lemma_tag_get_skip(m.skip(1), key, i - 1);
        assert(m.skip(1).skip(i - 1) =~= m.skip(i));
    }
}

/// The OSM tags of an object: keys mapped to values, kept verbatim.
/// A lookup answers with the first entry holding the key; OSM tags
/// carry each key once.
#[derive(Debug)]
pub struct TagsMap {
    entries: Vec<(String, String)>,
}

impl View for TagsMap {
    type V = Seq<(Seq<char>, Seq<char>)>;

    closed spec fn view(&self) -> Seq<(Seq<char>, Seq<char>)> {
        self.entries.deep_view()
    }
}

impl TagsMap {
    /// An empty tag map.
    pub fn new() -> (r: TagsMap)
        ensures
            r@ == Seq::<(Seq<char>, Seq<char>)>::empty(),
    {
        let r = TagsMap { entries: Vec::new() };
        proof {
            assert(r@ =~= Seq::<(Seq<char>, Seq<char>)>::empty());
        }
        r
    }

    /// Adds an entry.
    pub fn insert(&mut self, key: String, value: String)
        ensures
            final(self)@ == old(self)@.push((key@, value@)),
    {
        let ghost before = self@;
        self.entries.push((key, value));
        proof {
            assert(self@ =~= before.push((key@, value@)));
        }
    }

    /// The value under `key`, if any.
    pub fn get(&self, key: &str) -> (r: Option<String>)
        ensures
            r is Some <==> spec_tag_get(self@, key@) is Some,
            r matches Some(v) ==> spec_tag_get(self@, key@) == Some(v@),
    {
        let mut i: usize = 0;
        while i < self.entries.len()
            invariant
                i <= self.entries.len(),
                self@ == self.entries.deep_view(),
                forall|j: int| 0 <= j < i ==> (#[trigger] self@[j]).0 != key@,
            decreases self.entries.len() - i,
        {
            if str_eq(self.entries[i].0.as_str(), key) {
                proof {
                    lemma_tag_get_skip(self@, key@, i as int);
                }
                return Some(self.entries[i].1.clone());
            }
            i = i + 1;
        }
        proof {
            lemma_tag_get_skip(self@, key@, i as int);
        }
        None
    }

    /// How many entries the map holds.
    pub fn len(&self) -> (n: usize)
        ensures
            n as int == self@.len(),
    {
        self.entries.len()
    }

    /// The key of the entry at `i`.
    pub fn key_at(&self, i: usize) -> (r: &String)
        requires
            i < self@.len(),
        ensures
            r@ == self@[i as int].0,
    {
        &self.entries[i].0
    }

    /// The value of the entry at `i`.
    pub fn value_at(&self, i: usize) -> (r: &String)
        requires
            i < self@.len(),
        ensures
            r@ == self@[i as int].1,
    {
        &self.entries[i].1
    }

    /// A copy holding the same entries.
    pub fn duplicate(&self) -> (r: TagsMap)
        ensures
            r@ == self@,
    {
        let mut entries: Vec<(String, String)> = Vec::new();
        let mut i: usize = 0;
        while i < self.entries.len()
            invariant
                i <= self.entries.len(),
                entries.deep_view() =~= self.entries.deep_view().take(i as int),
            decreases self.entries.len() - i,
        {
            let ghost before = entries.deep_view();
            let k = self.entries[i].0.clone();
            let v = self.entries[i].1.clone();
            entries.push((k, v));
            proof {
                assert(entries.deep_view() =~= before.push((k@, v@)));
                assert(entries.deep_view() =~= self.entries.deep_view().take(i + 1));
            }
            i = i + 1;
        }
        let r = TagsMap { entries };
        proof {
            assert(r@ =~= self@);
        }
        r
    }
}

impl Clone for TagsMap {
    fn clone(&self) -> (r: Self)
        ensures
            r@ == self@,
    {
        self.duplicate()
    }
}

/// An administrative zone: a typed, labelled region with an
/// optional parent in the zone forest.
#[derive(Debug)]
pub struct Zone {
    pub id: ZoneIndex,
    pub osm_id: String,
    pub admin_level: Option<u32>,
    pub zone_type: Option<ZoneType>,
    pub name: String,
    pub label: String,
    pub zip_codes: Vec<String>,
    pub center: Option<Coord>,
    pub bbox: Option<BoundingBox>,
    pub tags: TagsMap,
    pub parent: Option<ZoneIndex>,
    pub wikidata: Option<String>,
}

/// Whether two zones hold the same values in every field but the
/// label.
pub open spec fn zone_like_except_label(a: Zone, b: Zone) -> bool {
    &&& a.id == b.id
    &&& a.osm_id@ == b.osm_id@
    &&& a.admin_level == b.admin_level
    &&& a.zone_type == b.zone_type
    &&& a.name@ == b.name@
    &&& a.zip_codes.deep_view() == b.zip_codes.deep_view()
    &&& a.center == b.center
    &&& a.bbox == b.bbox
    &&& a.tags@ == b.tags@
    &&& a.parent == b.parent
    &&& a.wikidata.deep_view() == b.wikidata.deep_view()
}

/// Whether two zones hold the same values in every field.
pub open spec fn zone_like(a: Zone, b: Zone) -> bool {
    zone_like_except_label(a, b) && a.label@ == b.label@
}

impl Clone for Zone {
    fn clone(&self) -> (r: Self)
        ensures
            zone_like(r, *self),
    {
        let zip_codes = self.zip_codes.clone();
        proof {
            assert forall|i: int| 0 <= i < self.zip_codes@.len() implies zip_codes@[i]@
                == self.zip_codes@[i]@ by {
                assert(cloned::<String>(self.zip_codes@[i], zip_codes@[i]));
            }
            assert(zip_codes.deep_view() =~= self.zip_codes.deep_view());
        }
        let wikidata = match &self.wikidata {
            Some(w) => Some(w.clone()),
            None => None,
        };
        Zone {
            id: self.id,
            osm_id: self.osm_id.clone(),
            admin_level: self.admin_level,
            zone_type: self.zone_type,
            name: self.name.clone(),
            label: self.label.clone(),
            zip_codes,
            center: self.center,
            bbox: self.bbox,
            tags: self.tags.clone(),
            parent: self.parent,
            wikidata,
        }
    }
}

/// The tag value that zip codes are read from: `addr:postcode`,
/// with `postal_code` as fallback, or nothing.
pub open spec fn spec_zip_source(tags: Seq<(Seq<char>, Seq<char>)>) -> Seq<char> {
    match spec_tag_get(tags, "addr:postcode"@) {
        Some(v) => v,
        None => match spec_tag_get(tags, "postal_code"@) {
            Some(v) => v,
            None => Seq::empty(),
        },
    }
}

/// The set of zip codes named by a raw tag value: the non-empty
/// pieces between semicolons.
pub open spec fn spec_zip_set(raw: Seq<char>) -> Set<Seq<char>> {
    spec_split(raw, ';').to_set().remove(Seq::empty())
}

impl Zone {
    /// Whether this zone is a typed administrative area.
    pub fn is_admin(&self) -> (r: bool)
        ensures
            r == (self.zone_type is Some && self.zone_type != Some(ZoneType::NonAdministrative)),
    {
        match self.zone_type {
            None => false,
            Some(ZoneType::NonAdministrative) => false,
            Some(_) => true,
        }
    }

    /// Sets the parent handle.
    pub fn set_parent(&mut self, idx: Option<ZoneIndex>)
        ensures
            *final(self) == (Zone { parent: idx, ..*old(self) }),
    {
        self.parent = idx;
    }

    /// Reads a zone out of OSM tags under a ready-made id: nothing
    /// when there is no `name` tag; otherwise a zone with the parsed
    /// `admin_level`, the sorted unique zip codes, the `wikidata`
    /// entry, and no type, geometry, parent or label yet.
    pub fn from_tags(tags: &TagsMap, index: ZoneIndex, osm_id: String) -> (r: Option<Zone>)
        ensures
            r is Some <==> spec_tag_get(tags@, "name"@) is Some,
            r matches Some(z) ==> {
                &&& z.id == index
                &&& z.osm_id@ == osm_id@
                &&& Some(z.name@) == spec_tag_get(tags@, "name"@)
                &&& z.admin_level == (match spec_tag_get(tags@, "admin_level"@) {
                    Some(v) => spec_parse_u32(v),
                    None => None,
                })
                &&& strictly_sorted_lex(z.zip_codes.deep_view())
                &&& z.zip_codes.deep_view().to_set() == spec_zip_set(spec_zip_source(tags@))
                &&& z.zone_type is None
                &&& z.label@ == Seq::<char>::empty()
                &&& z.center is None
                &&& z.bbox is None
                &&& z.parent is None
                &&& z.tags@ == tags@
                &&& z.wikidata.deep_view() == spec_tag_get(tags@, "wikidata"@)
            },
    {
        let name = match tags.get("name") {
            Some(n) => n,
            None => {
                return None;
            },
        };
        let admin_level = match tags.get("admin_level") {
            Some(v) => parse_u32(v.as_str()),
            None => None,
        };
        let raw = match tags.get("addr:postcode") {
            Some(v) => v,
            None => match tags.get("postal_code") {
                Some(v) => v,
                None => String::new(),
            },
        };
        let pieces = split_char(raw.as_str(), ';');
        let kept = drop_empty(pieces);
        let zip_codes = sort_unique(kept);
        let wikidata = tags.get("wikidata");
        Some(
            Zone {
                id: index,
                osm_id,
                admin_level,
                zone_type: None,
                name,
                label: String::new(),
                zip_codes,
                center: None,
                bbox: None,
                tags: tags.duplicate(),
                parent: None,
                wikidata,
            },
        )
    }

    /// Reads a zone out of an OSM relation together with its
    /// reconstructed geometry, handed in as plain values: the
    /// boundary's envelope, the position of an `admin_centre`
    /// member node if the relation has one, and the boundary's
    /// centroid. The centre is the `admin_centre` node when
    /// present, else the centroid.
    pub fn from_osm_with_geom(
        tags: &TagsMap,
        index: ZoneIndex,
        relation_id: u64,
        bbox: BoundingBox,
        admin_centre: Option<Coord>,
        centroid: Option<Coord>,
    ) -> (r: Option<Zone>)
        ensures
            r is Some <==> spec_tag_get(tags@, "name"@) is Some,
            r matches Some(z) ==> {
                &&& z.id == index
                &&& z.osm_id@ == "relation:"@ + spec_decimal(relation_id as int)
                &&& Some(z.name@) == spec_tag_get(tags@, "name"@)
                &&& z.admin_level == (match spec_tag_get(tags@, "admin_level"@) {
                    Some(v) => spec_parse_u32(v),
                    None => None,
                })
                &&& strictly_sorted_lex(z.zip_codes.deep_view())
                &&& z.zip_codes.deep_view().to_set() == spec_zip_set(spec_zip_source(tags@))
                &&& z.zone_type is None
                &&& z.label@ == Seq::<char>::empty()
                &&& z.bbox == Some(bbox)
                &&& z.center == (if admin_centre is Some {
                    admin_centre
                } else {
                    centroid
                })
                &&& z.parent is None
                &&& z.tags@ == tags@
                &&& z.wikidata.deep_view() == spec_tag_get(tags@, "wikidata"@)
            },
    {
        let z = Self::from_osm(tags, index, relation_id);
        match z {
            None => None,
            Some(mut z) => {
                z.bbox = Some(bbox);
                z.center = match admin_centre {
                    Some(c) => Some(c),
                    None => centroid,
                };
                Some(z)
            },
        }
    }

    /// Reads a zone out of the tags of an OSM relation: nothing when
    /// the relation has no name; otherwise a zone with the parsed
    /// `admin_level`, the sorted unique zip codes, the `wikidata`
    /// entry, and no type, geometry, parent or label yet.
    pub fn from_osm(tags: &TagsMap, index: ZoneIndex, relation_id: u64) -> (r: Option<Zone>)
        ensures
            r is Some <==> spec_tag_get(tags@, "name"@) is Some,
            r matches Some(z) ==> {
                &&& z.id == index
                &&& z.osm_id@ == "relation:"@ + spec_decimal(relation_id as int)
                &&& Some(z.name@) == spec_tag_get(tags@, "name"@)
                &&& z.admin_level == (match spec_tag_get(tags@, "admin_level"@) {
                    Some(v) => spec_parse_u32(v),
                    None => None,
                })
                &&& strictly_sorted_lex(z.zip_codes.deep_view())
                &&& z.zip_codes.deep_view().to_set() == spec_zip_set(spec_zip_source(tags@))
                &&& z.zone_type is None
                &&& z.label@ == Seq::<char>::empty()
                &&& z.center is None
                &&& z.bbox is None
                &&& z.parent is None
                &&& z.tags@ == tags@
                &&& z.wikidata.deep_view() == spec_tag_get(tags@, "wikidata"@)
            },
    {
        let mut osm_id = String::from_str("relation:");
        let dec = u64_to_dec(relation_id);
        osm_id.append(dec.as_str());
        Self::from_tags(tags, index, osm_id)
    }
}

/// Keeps the non-empty strings, in order.
fn drop_empty(v: Vec<String>) -> (r: Vec<String>)
    ensures
        r.deep_view().to_set() == v.deep_view().to_set().remove(Seq::<char>::empty()),
{
    let mut r: Vec<String> = Vec::new();
    let mut i: usize = 0;
    proof {
        assert(r.deep_view().to_set() =~= v.deep_view().take(0).to_set().remove(
            Seq::<char>::empty(),
        ));
    }
    while i < v.len()
        invariant
            i <= v.len(),
            r.deep_view().to_set() == v.deep_view().take(i as int).to_set().remove(
                Seq::<char>::empty(),
            ),
        decreases v.len() - i,
    {
        let ghost before = r.deep_view();
        let ghost x = v.deep_view()[i as int];
        proof {
            crate::strings::seq_to_set_insert_last(v.deep_view().take(i + 1));
            assert(v.deep_view().take(i + 1).drop_last() =~= v.deep_view().take(i as int));
            assert(v.deep_view().take(i + 1).last() == x);
        }
        if v[i].unicode_len() > 0 {
            let s = v[i].clone();
            r.push(s);
            proof {
                assert(r.deep_view() =~= before.push(x));
                crate::strings::seq_to_set_insert_last(r.deep_view());
                assert(r.deep_view().drop_last() =~= before);
                assert(x.len() > 0);
                assert(r.deep_view().to_set() =~= v.deep_view().take(i + 1).to_set().remove(
                    Seq::<char>::empty(),
                ));
            }
        } else {
            proof {
                assert(x =~= Seq::<char>::empty());
                assert(r.deep_view().to_set() =~= v.deep_view().take(i + 1).to_set().remove(
                    Seq::<char>::empty(),
                ));
            }
        }
        i = i + 1;
    }
    proof {
        assert(v.deep_view().take(v@.len() as int) =~= v.deep_view());
    }
    r
}

/// The chain of ancestors reached by following `parent` handles
/// from `cur`: each handle's index, then its parent's, and so on.
/// The walk stops at a missing parent, at a handle out of bounds or
/// equal to `focus` (the zone being worked on, which the read view
/// withholds), or when the fuel runs out; a well-formed forest never
/// exhausts fuel equal to the number of zones.
pub open spec fn chain_indices_from(
    zones: Seq<Zone>,
    cur: Option<ZoneIndex>,
    focus: int,
    fuel: nat,
) -> Seq<int>
    decreases fuel,
{
    match cur {
        None => Seq::empty(),
        Some(p) => {
            if p.index < zones.len() && p.index != focus && fuel > 0 {
                seq![p.index as int] + chain_indices_from(
                    zones,
                    zones[p.index as int].parent,
                    focus,
                    (fuel - 1) as nat,
                )
            } else {
                Seq::empty()
            }
        },
    }
}

/// The names of the zones under the given indices.
pub open spec fn names_of(zones: Seq<Zone>, ids: Seq<int>) -> Seq<Seq<char>> {
    ids.map_values(|id: int| zones[id].name@)
}

/// The sequence with every run of equal neighbours collapsed to one
/// element.
pub open spec fn spec_dedup(s: Seq<Seq<char>>) -> Seq<Seq<char>>
    decreases s.len(),
{
    if s.len() == 0 {
        s
    } else {
        let rest = spec_dedup(s.drop_last());
        if s.len() >= 2 && s.last() == s[s.len() - 2] {
            rest
        } else {
            rest + seq![s.last()]
        }
    }
}

/// Collapsing runs keeps the last element, and keeps the sequence
/// non-empty.
pub proof fn lemma_dedup_last(s: Seq<Seq<char>>)
    requires
        s.len() > 0,
    ensures
        spec_dedup(s).len() > 0,
        spec_dedup(s).last() == s.last(),
    decreases s.len(),
{
    if s.len() >= 2 && s.last() == s[s.len() - 2] {
        lemma_dedup_last(s.drop_last());
    }
}

/// Labels collapse only consecutive duplicates: after collapsing,
/// no two neighbours are equal; and a sequence without equal
/// neighbours is left exactly as it is, so repeats that are not
/// consecutive survive.
pub proof fn lemma_dedup_collapses_only_consecutive(s: Seq<Seq<char>>)
    ensures
        forall|i: int|
            0 <= i < spec_dedup(s).len() - 1 ==> #[trigger] spec_dedup(s)[i] != spec_dedup(s)[i
                + 1],
        (forall|i: int| 0 <= i < s.len() - 1 ==> #[trigger] s[i] != s[i + 1]) ==> spec_dedup(s)
            == s,
    decreases s.len(),
{
    if s.len() > 0 {
        lemma_dedup_collapses_only_consecutive(s.drop_last());
        let rest = spec_dedup(s.drop_last());
        if s.len() >= 2 && s.last() == s[s.len() - 2] {
        } else {
            if s.len() >= 2 {
                lemma_dedup_last(s.drop_last());
                assert(rest.last() == s[s.len() - 2]);
            }
            assert(forall|i: int|
                0 <= i < rest.len() - 1 ==> #[trigger] (rest + seq![s.last()])[i] == rest[i]);
        }
        if forall|i: int| 0 <= i < s.len() - 1 ==> #[trigger] s[i] != s[i + 1] {
            assert(forall|i: int|
                0 <= i < s.drop_last().len() - 1 ==> #[trigger] s.drop_last()[i]
                    != s.drop_last()[i + 1]);
            assert(spec_dedup(s) =~= s);
        }
    }
}

/// The pieces joined with a comma and a space between them.
pub open spec fn spec_join_comma(s: Seq<Seq<char>>) -> Seq<char>
    decreases s.len(),
{
    if s.len() == 0 {
        Seq::empty()
    } else if s.len() == 1 {
        s[0]
    } else {
        spec_join_comma(s.drop_last()) + ", "@ + s.last()
    }
}

/// The label written for a zone with the given name, zip codes and
/// parent handle: its name, then the names up its parent chain,
/// runs of equal names collapsed, the zip-code suffix appended to
/// the first part, all joined with commas.
pub open spec fn spec_label_parts(
    name: Seq<char>,
    zips: Seq<Seq<char>>,
    parent: Option<ZoneIndex>,
    zones: Seq<Zone>,
    focus: int,
) -> Seq<char> {
    let names = seq![name] + names_of(
        zones,
        chain_indices_from(zones, parent, focus, zones.len() as nat),
    );
    let hierarchy = spec_dedup(names);
    spec_join_comma(hierarchy.update(0, hierarchy[0] + spec_zip_suffix(zips)))
}

/// The label of the zone at `focus`.
pub open spec fn spec_label(zones: Seq<Zone>, focus: int) -> Seq<char> {
    spec_label_parts(
        zones[focus].name@,
        zones[focus].zip_codes.deep_view(),
        zones[focus].parent,
        zones,
        focus,
    )
}

/// Collapsing runs keeps the first element in first place.
pub proof fn lemma_dedup_first(s: Seq<Seq<char>>)
    requires
        s.len() > 0,
    ensures
        spec_dedup(s).len() > 0,
        spec_dedup(s)[0] == s[0],
    decreases s.len(),
{
    lemma_dedup_last(s);
    if s.len() >= 2 {
        lemma_dedup_first(s.drop_last());
        assert(s.drop_last()[0] == s[0]);
        let rest = spec_dedup(s.drop_last());
        if s.last() == s[s.len() - 2] {
        } else {
            assert((rest + seq![s.last()])[0] == rest[0]);
        }
    }
}

/// A joined string is at least as long as its first piece.
pub proof fn lemma_join_first(s: Seq<Seq<char>>)
    requires
        s.len() > 0,
    ensures
        spec_join_comma(s).len() >= s[0].len(),
    decreases s.len(),
{
    if s.len() >= 2 {
        lemma_join_first(s.drop_last());
        assert(s.drop_last()[0] == s[0]);
    }
}

/// A zone with a name gets a label: the label starts from the
/// zone's name, so it is empty only for an empty name.
pub proof fn lemma_label_nonempty(zones: Seq<Zone>, focus: int)
    requires
        0 <= focus < zones.len(),
        zones[focus].name@.len() > 0,
    ensures
        spec_label(zones, focus).len() > 0,
{
    let names = seq![zones[focus].name@] + names_of(
        zones,
        chain_indices_from(zones, zones[focus].parent, focus, zones.len() as nat),
    );
    assert(names[0] == zones[focus].name@);
    lemma_dedup_first(names);
    let hierarchy = spec_dedup(names);
    let first = hierarchy[0] + spec_zip_suffix(zones[focus].zip_codes.deep_view());
    let updated = hierarchy.update(0, first);
    assert(updated[0] == first);
    assert(first.len() >= zones[focus].name@.len());
    lemma_join_first(updated);
}

/// The parent chain, and the names along it, read nothing but
/// parents and names: they are the same over two zone sequences
/// that agree on everything but labels.
pub proof fn lemma_chain_like(
    z1: Seq<Zone>,
    z2: Seq<Zone>,
    cur: Option<ZoneIndex>,
    focus: int,
    fuel: nat,
)
    requires
        z1.len() == z2.len(),
        forall|i: int| 0 <= i < z1.len() ==> #[trigger] zone_like_except_label(z1[i], z2[i]),
    ensures
        chain_indices_from(z1, cur, focus, fuel) == chain_indices_from(z2, cur, focus, fuel),
        names_of(z1, chain_indices_from(z1, cur, focus, fuel)) == names_of(
            z2,
            chain_indices_from(z2, cur, focus, fuel),
        ),
    decreases fuel,
{
    match cur {
        None => {
            assert(names_of(z1, Seq::empty()) =~= names_of(z2, Seq::empty()));
        },
        Some(p) => {
            if p.index < z1.len() && p.index != focus && fuel > 0 {
                assert(zone_like_except_label(z1[p.index as int], z2[p.index as int]));
                lemma_chain_like(
                    z1,
                    z2,
                    z1[p.index as int].parent,
                    focus,
                    (fuel - 1) as nat,
                );
                let ids1 = chain_indices_from(z1, cur, focus, fuel);
                let ids2 = chain_indices_from(z2, cur, focus, fuel);
                assert(ids1 == ids2);
                assert forall|k: int| 0 <= k < ids1.len() implies names_of(z1, ids1)[k]
                    == names_of(z2, ids2)[k] by {
                    let rec1 = chain_indices_from(
                        z1,
                        z1[p.index as int].parent,
                        focus,
                        (fuel - 1) as nat,
                    );
                    if k > 0 {
                        assert(ids1[k] == rec1[k - 1]);
                    }
                    assert(0 <= ids1[k] < z1.len()) by {
                        lemma_chain_bounds(z1, cur, focus, fuel);
                    }
                    assert(zone_like_except_label(z1[ids1[k]], z2[ids1[k]]));
                }
                assert(names_of(z1, ids1) =~= names_of(z2, ids2));
            } else {
                assert(names_of(z1, Seq::empty()) =~= names_of(z2, Seq::empty()));
            }
        },
    }
}

/// Every index in a parent chain is in bounds and avoids the focus.
pub proof fn lemma_chain_bounds(zones: Seq<Zone>, cur: Option<ZoneIndex>, focus: int, fuel: nat)
    ensures
        forall|k: int|
            0 <= k < chain_indices_from(zones, cur, focus, fuel).len() ==> 0 <= #[trigger]
            chain_indices_from(zones, cur, focus, fuel)[k] < zones.len() && chain_indices_from(
                zones,
                cur,
                focus,
                fuel,
            )[k] != focus,
    decreases fuel,
{
    match cur {
        None => {},
        Some(p) => {
            if p.index < zones.len() && p.index != focus && fuel > 0 {
                lemma_chain_bounds(zones, zones[p.index as int].parent, focus, (fuel - 1) as nat);
                let ids = chain_indices_from(zones, cur, focus, fuel);
                let rec = chain_indices_from(
                    zones,
                    zones[p.index as int].parent,
                    focus,
                    (fuel - 1) as nat,
                );
                assert forall|k: int| 0 <= k < ids.len() implies 0 <= #[trigger] ids[k]
                    < zones.len() && ids[k] != focus by {
                    if k > 0 {
                        assert(ids[k] == rec[k - 1]);
                    }
                }
            }
        },
    }
}

/// The label depends on names, parents and zip codes alone: it is
/// the same over two zone sequences that agree on everything but
/// labels.
pub proof fn lemma_label_like(z1: Seq<Zone>, z2: Seq<Zone>, focus: int)
    requires
        z1.len() == z2.len(),
        0 <= focus < z1.len(),
        forall|i: int| 0 <= i < z1.len() ==> #[trigger] zone_like_except_label(z1[i], z2[i]),
    ensures
        spec_label(z1, focus) == spec_label(z2, focus),
{
    assert(zone_like_except_label(z1[focus], z2[focus]));
    lemma_chain_like(z1, z2, z1[focus].parent, focus, z1.len() as nat);
}

/// Collapses runs of equal neighbouring strings.
pub fn dedup_consecutive(v: &Vec<String>) -> (r: Vec<String>)
    ensures
        r.deep_view() == spec_dedup(v.deep_view()),
{
    let mut r: Vec<String> = Vec::new();
    let mut i: usize = 0;
    proof {
        assert(v.deep_view().take(0) =~= Seq::<Seq<char>>::empty());
    }
    while i < v.len()
        invariant
            i <= v.len(),
            r.deep_view() == spec_dedup(v.deep_view().take(i as int)),
        decreases v.len() - i,
    {
        let ghost before = r.deep_view();
        proof {
            assert(v.deep_view().take(i + 1).drop_last() =~= v.deep_view().take(i as int));
            assert(v.deep_view().take(i + 1).last() == v.deep_view()[i as int]);
        }
        if i == 0 || !str_eq(v[i].as_str(), v[i - 1].as_str()) {
            let s = v[i].clone();
            r.push(s);
            proof {
                assert(r.deep_view() =~= before + seq![v.deep_view()[i as int]]);
            }
        }
        i = i + 1;
    }
    proof {
        assert(v.deep_view().take(v@.len() as int) =~= v.deep_view());
    }
    r
}

/// Joins the strings with `", "` between them.
pub fn join_comma(v: &Vec<String>) -> (r: String)
    ensures
        r@ == spec_join_comma(v.deep_view()),
{
    if v.len() == 0 {
        return String::new();
    }
    let mut r = v[0].clone();
    let mut i: usize = 1;
    while i < v.len()
        invariant
            1 <= i <= v.len(),
            v@.len() > 0,
            r@ == spec_join_comma(v.deep_view().take(i as int)),
        decreases v.len() - i,
    {
        r.append(", ");
        r.append(v[i].as_str());
        proof {
            assert(v.deep_view().take(i + 1).drop_last() =~= v.deep_view().take(i as int));
            assert(v.deep_view().take(i + 1).last() == v.deep_view()[i as int]);
        }
        i = i + 1;
    }
    proof {
        assert(v.deep_view().take(v@.len() as int) =~= v.deep_view());
        assert(v.deep_view().take(1)[0] == v.deep_view()[0]);
    }
    r
}

/// The zip-code suffix of a label: nothing without zip codes, the
/// single code in parentheses, or the range from the first to the
/// last.
pub open spec fn spec_zip_suffix(zips: Seq<Seq<char>>) -> Seq<char> {
    if zips.len() == 0 {
        Seq::empty()
    } else if zips.len() == 1 {
        " ("@ + zips[0] + ")"@
    } else {
        " ("@ + zips[0] + "-"@ + zips.last() + ")"@
    }
}

/// Writes the zip codes of a zone for its label: nothing, ` (Z)`,
/// or ` (FIRST-LAST)`.
pub fn format_zip_code(zip_codes: &Vec<String>) -> (r: String)
    ensures
        r@ == spec_zip_suffix(zip_codes.deep_view()),
{
    if zip_codes.len() == 0 {
        let r = String::new();
        proof {
            assert(r@ =~= spec_zip_suffix(zip_codes.deep_view()));
        }
        r
    } else if zip_codes.len() == 1 {
        let mut r = String::from_str(" (");
        r.append(zip_codes[0].as_str());
        r.append(")");
        r
    } else {
        let mut r = String::from_str(" (");
        r.append(zip_codes[0].as_str());
        r.append("-");
        r.append(zip_codes[zip_codes.len() - 1].as_str());
        r.append(")");
        r
    }
}

} // verus!
