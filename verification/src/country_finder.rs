//! Finding the country a zone belongs to: the zones that type as
//! countries are gathered once, each with its ISO code read from
//! its `ISO3166-1:alpha2` tag; a zone's country is then the first
//! gathered country among the zones that cover it.

use crate::hierarchy_builder::contains_index;
use crate::hierarchy_builder::row_has;
use crate::zone::spec_tag_get;
use crate::zone::Zone;
use crate::zone::ZoneIndex;
use crate::zone_typer::spec_type_outcome;
use crate::zone_typer::TypeOutcome;
use crate::zone_typer::ZoneTyper;
use vstd::prelude::*;

verus! {

/// The ISO code under which zone `i` types as a country, if it
/// does: the zone must carry the `ISO3166-1:alpha2` tag, and the
/// typer must map it, under that code, to the `Country` type.
pub open spec fn spec_country_code_of(
    countries: Seq<(String, crate::zone_typer::CountryRules)>,
    zones: Seq<Zone>,
    i: int,
) -> Option<Seq<char>> {
    match spec_tag_get(zones[i].tags@, "ISO3166-1:alpha2"@) {
        None => None,
        Some(cc) => {
            if spec_type_outcome(countries, zones[i], cc, Seq::empty(), zones)
                == TypeOutcome::Typed(crate::zone::ZoneType::Country) {
                Some(cc)
            } else {
                None
            }
        },
    }
}

/// The zones that type as countries, each under its handle and ISO
/// code, in ascending handle order.
pub struct CountryFinder {
    countries: Vec<(ZoneIndex, String)>,
}

/// Country entries seen as plain values.
pub open spec fn entries_view(v: Seq<(ZoneIndex, String)>) -> Seq<(ZoneIndex, Seq<char>)> {
    v.map_values(|p: (ZoneIndex, String)| (p.0, p.1@))
}

/// The entries gathered from the first `k` zones: for each zone
/// that types as a country, its handle and code, in handle order.
pub open spec fn spec_country_entries(
    countries: Seq<(String, crate::zone_typer::CountryRules)>,
    zones: Seq<Zone>,
    k: int,
) -> Seq<(ZoneIndex, Seq<char>)>
    decreases k,
{
    if k <= 0 {
        Seq::empty()
    } else {
        spec_country_entries(countries, zones, k - 1) + (match spec_country_code_of(
            countries,
            zones,
            k - 1,
        ) {
            Some(cc) => seq![(ZoneIndex { index: (k - 1) as usize }, cc)],
            None => Seq::empty(),
        })
    }
}

impl CountryFinder {
    /// The gathered country entries.
    pub closed spec fn spec_entries(&self) -> Seq<(ZoneIndex, Seq<char>)> {
        entries_view(self.countries@)
    }

    /// Gathers the country-typed zones: exactly those whose
    /// `ISO3166-1:alpha2` tag names rules that make them a
    /// `Country`, in ascending handle order.
    pub fn init(zones: &Vec<Zone>, typer: &ZoneTyper) -> (r: CountryFinder)
        ensures
            r.spec_entries() == spec_country_entries(typer.countries@, zones@, zones@.len() as int),
    {
        let mut countries: Vec<(ZoneIndex, String)> = Vec::new();
        let mut i: usize = 0;
        proof {
            assert(entries_view(countries@) =~= spec_country_entries(typer.countries@, zones@, 0));
        }
        while i < zones.len()
            invariant
                i <= zones@.len(),
                entries_view(countries@) == spec_country_entries(typer.countries@, zones@, i as int),
            decreases zones@.len() - i,
        {
            let ghost before = entries_view(countries@);
            let ghost code_i = spec_country_code_of(typer.countries@, zones@, i as int);
            match zones[i].tags.get("ISO3166-1:alpha2") {
                None => {
                    proof {
                        assert(code_i is None);
                    }
                },
                Some(cc) => {
                    let empty: Vec<ZoneIndex> = Vec::new();
                    proof {
                        assert(empty@ =~= Seq::<ZoneIndex>::empty());
                    }
                    let r = typer.get_zone_type(&zones[i], cc.as_str(), &empty, zones);
                    let push_it = match &r {
                        Ok(t) => t.rank() == 6,
                        Err(_) => false,
                    };
                    proof {
                        if push_it {
                            assert(code_i == Some(cc@));
                        } else {
                            assert(code_i is None);
                        }
                    }
                    if push_it {
                        countries.push((ZoneIndex { index: i }, cc));
                    }
                },
            }
            proof {
                let now = entries_view(countries@);
                if code_i is Some {
                    assert(now =~= before + seq![
                        (ZoneIndex { index: i }, code_i.unwrap()),
                    ]);
                } else {
                    assert(now =~= before);
                }
                assert(now =~= spec_country_entries(typer.countries@, zones@, i + 1));
            }
            i = i + 1;
        }
        CountryFinder { countries }
    }

    /// Whether no country-typed zone was found.
    pub fn is_empty(&self) -> (r: bool)
        ensures
            r == (self.spec_entries().len() == 0),
    {
        self.countries.len() == 0
    }

    /// The ISO code of the country that covers the zone: the first
    /// gathered country, in ascending handle order, whose handle
    /// appears among the zone's inclusions or is the zone itself — a
    /// country covers its own ground. Nothing when no country covers
    /// the zone.
    pub fn find_zone_country(&self, zone: &Zone, inclusions: &Vec<ZoneIndex>) -> (r: Option<
        String,
    >)
        ensures
            r is Some <==> spec_find_country(
                self.spec_entries(),
                inclusions@,
                zone.id.index as int,
            ) is Some,
            r matches Some(cc) ==> spec_find_country(
                self.spec_entries(),
                inclusions@,
                zone.id.index as int,
            ) == Some(cc@),
    {
        let mut k: usize = 0;
        while k < self.countries.len()
            invariant
                k <= self.countries@.len(),
                forall|j: int|
                    0 <= j < k ==> !(row_has(
                        inclusions@,
                        (#[trigger] self.spec_entries()[j]).0.index as int,
                    ) || self.spec_entries()[j].0.index == zone.id.index),
            decreases self.countries@.len() - k,
        {
            if contains_index(inclusions, self.countries[k].0.index) || self.countries[k].0.index
                == zone.id.index {
                proof {
                    lemma_find_country_skip(
                        self.spec_entries(),
                        inclusions@,
                        zone.id.index as int,
                        k as int,
                    );
                    assert(self.spec_entries().skip(k as int)[0] == self.spec_entries()[k as int]);
                }
                return Some(self.countries[k].1.clone());
            }
            k = k + 1;
        }
        proof {
            lemma_find_country_skip(
                self.spec_entries(),
                inclusions@,
                zone.id.index as int,
                k as int,
            );
        }
        None
    }
}

/// Whether the entries hold a handle with index `i`.
pub open spec fn row_entry_has(entries: Seq<(ZoneIndex, Seq<char>)>, i: int) -> bool {
    exists|k: int| 0 <= k < entries.len() && (#[trigger] entries[k]).0.index == i
}

/// The code of the first entry whose handle appears among the
/// inclusions, or is the looked-up zone itself.
pub open spec fn spec_find_country(
    entries: Seq<(ZoneIndex, Seq<char>)>,
    incl: Seq<ZoneIndex>,
    self_idx: int,
) -> Option<Seq<char>>
    decreases entries.len(),
{
    if entries.len() == 0 {
        None
    } else if row_has(incl, entries[0].0.index as int) || entries[0].0.index == self_idx {
        Some(entries[0].1)
    } else {
        spec_find_country(entries.skip(1), incl, self_idx)
    }
}

/// Passing over entries that the inclusions do not name.
proof fn lemma_find_country_skip(
    entries: Seq<(ZoneIndex, Seq<char>)>,
    incl: Seq<ZoneIndex>,
    self_idx: int,
    i: int,
)
    requires
        0 <= i <= entries.len(),
        forall|j: int|
            0 <= j < i ==> !(row_has(incl, (#[trigger] entries[j]).0.index as int)
                || entries[j].0.index == self_idx),
    ensures
        spec_find_country(entries, incl, self_idx) == spec_find_country(
            entries.skip(i),
            incl,
            self_idx,
        ),
    decreases i,
{
    if i == 0 {
        assert(entries.skip(0) =~= entries);
    } else {
        assert(forall|j: int| 0 <= j < i - 1 ==> #[trigger] entries.skip(1)[j] == entries[j + 1]);
        lemma_find_country_skip(entries.skip(1), incl, self_idx, i - 1);
        assert(entries.skip(1).skip(i - 1) =~= entries.skip(i));
    }
}

} // verus!
