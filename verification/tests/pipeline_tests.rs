//! Inclusions, typing, hierarchy wiring, enrichment, pruning, and
//! output formats, driven end to end on small scenarios.

use cosmogony::additional_zones::compute_additional_cities;
use cosmogony::additional_zones::CityCandidate;
use cosmogony::cosmogony::CosmogonyStats;
use cosmogony::country_finder::CountryFinder;
use cosmogony::file_format::FileFormatError;
use cosmogony::file_format::OutputFormat;
use cosmogony::hierarchy_builder::build_hierarchy;
use cosmogony::hierarchy_builder::build_inclusions;
use cosmogony::hierarchy_builder::find_inclusion_candidates;
use cosmogony::zone::BoundingBox;
use cosmogony::zone::Coord;
use cosmogony::zone::TagsMap;
use cosmogony::zone::Zone;
use cosmogony::zone::ZoneIndex;
use cosmogony::zone::ZoneType;
use cosmogony::zone_typer::CountryRules;
use cosmogony::zone_typer::ZoneTyper;
use cosmogony::zone_typer::ZoneTyperError;
use geo::Relate;

fn tags_of(pairs: Vec<(&str, &str)>) -> TagsMap {
    let mut t = TagsMap::new();
    for (k, v) in pairs {
        t.insert(k.to_string(), v.to_string());
    }
    t
}

fn plain_zone(name: &str, id: usize, osm_id: &str) -> Zone {
    Zone {
        id: ZoneIndex { index: id },
        osm_id: osm_id.into(),
        admin_level: None,
        zone_type: None,
        name: name.into(),
        label: "".into(),
        center: None,
        bbox: None,
        parent: None,
        tags: TagsMap::new(),
        wikidata: None,
        zip_codes: vec![],
    }
}

fn boxed_zone(name: &str, id: usize, bbox: (i64, i64, i64, i64)) -> Zone {
    let mut z = plain_zone(name, id, "");
    z.bbox = Some(BoundingBox {
        min_lon: bbox.0,
        min_lat: bbox.1,
        max_lon: bbox.2,
        max_lat: bbox.3,
    });
    z
}

fn square(min: f64, max: f64) -> geo::MultiPolygon<f64> {
    geo::MultiPolygon(vec![geo::Polygon::new(
        geo::LineString::from(vec![(min, min), (max, min), (max, max), (min, max), (min, min)]),
        vec![],
    )])
}

#[test]
fn inclusion_of_nested_squares() {
    // An outer square, an inner square it covers, and a third square
    // inside both.
    let zones = vec![
        boxed_zone("S", 0, (0, 0, 100, 100)),
        boxed_zone("C", 1, (10, 10, 90, 90)),
        boxed_zone("I", 2, (20, 20, 80, 80)),
    ];
    let polys = vec![square(0.0, 100.0), square(10.0, 90.0), square(20.0, 80.0)];

    let candidates = find_inclusion_candidates(&zones);
    assert_eq!(candidates[0], vec![]);
    assert_eq!(candidates[1], vec![ZoneIndex { index: 0 }]);
    assert_eq!(
        candidates[2],
        vec![ZoneIndex { index: 0 }, ZoneIndex { index: 1 }]
    );

    // Confirm each candidate pair with the exact cover test.
    let mut confirmed: Vec<(usize, usize)> = vec![];
    for (i, row) in candidates.iter().enumerate() {
        for c in row {
            if polys[c.index].relate(&polys[i]).is_covers() {
                confirmed.push((i, c.index));
            }
        }
    }
    assert_eq!(confirmed, vec![(1, 0), (2, 0), (2, 1)]);

    let inclusions = build_inclusions(zones.len(), &confirmed);
    assert_eq!(inclusions[0], vec![]);
    assert_eq!(inclusions[1], vec![ZoneIndex { index: 0 }]);
    assert_eq!(
        inclusions[2],
        vec![ZoneIndex { index: 0 }, ZoneIndex { index: 1 }]
    );
}

#[test]
fn envelope_must_cover_to_be_a_candidate() {
    let zones = vec![
        boxed_zone("left", 0, (0, 0, 50, 100)),
        boxed_zone("right", 1, (40, 0, 100, 100)),
    ];
    let candidates = find_inclusion_candidates(&zones);
    assert_eq!(candidates[0], vec![]);
    assert_eq!(candidates[1], vec![]);
}

#[test]
fn hierarchy_prefers_the_higher_admin_level() {
    // Two country-typed zones cover a city; the more specific one
    // (the greater admin_level) becomes the parent.
    let mut city = plain_zone("city", 0, "relation:10");
    city.zone_type = Some(ZoneType::City);
    city.admin_level = Some(8);
    let mut a = plain_zone("A", 1, "relation:1");
    a.zone_type = Some(ZoneType::Country);
    a.admin_level = Some(2);
    let mut b = plain_zone("B", 2, "relation:2");
    b.zone_type = Some(ZoneType::Country);
    b.admin_level = Some(3);
    let mut zones = vec![city, a, b];
    let inclusions = vec![
        vec![ZoneIndex { index: 1 }, ZoneIndex { index: 2 }],
        vec![],
        vec![],
    ];
    build_hierarchy(&mut zones, &inclusions);
    assert_eq!(zones[0].parent, Some(ZoneIndex { index: 2 }));
    assert_eq!(zones[1].parent, None);
    assert_eq!(zones[2].parent, None);
}

#[test]
fn hierarchy_breaks_level_ties_by_smallest_osm_id() {
    let mut city = plain_zone("city", 0, "relation:10");
    city.zone_type = Some(ZoneType::City);
    let mut a = plain_zone("A", 1, "relation:2");
    a.zone_type = Some(ZoneType::Country);
    a.admin_level = Some(2);
    let mut b = plain_zone("B", 2, "relation:1");
    b.zone_type = Some(ZoneType::Country);
    b.admin_level = Some(2);
    let mut zones = vec![city, a, b];
    let inclusions = vec![
        vec![ZoneIndex { index: 1 }, ZoneIndex { index: 2 }],
        vec![],
        vec![],
    ];
    build_hierarchy(&mut zones, &inclusions);
    assert_eq!(zones[0].parent, Some(ZoneIndex { index: 2 }));
}

#[test]
fn hierarchy_picks_the_most_specific_type() {
    let mut suburb = plain_zone("s", 0, "relation:5");
    suburb.zone_type = Some(ZoneType::Suburb);
    let mut city = plain_zone("c", 1, "relation:6");
    city.zone_type = Some(ZoneType::City);
    let mut state = plain_zone("st", 2, "relation:7");
    state.zone_type = Some(ZoneType::State);
    let mut zones = vec![suburb, city, state];
    let inclusions = vec![
        vec![ZoneIndex { index: 1 }, ZoneIndex { index: 2 }],
        vec![ZoneIndex { index: 2 }],
        vec![],
    ];
    build_hierarchy(&mut zones, &inclusions);
    assert_eq!(zones[0].parent, Some(ZoneIndex { index: 1 }));
    assert_eq!(zones[1].parent, Some(ZoneIndex { index: 2 }));
    assert_eq!(zones[2].parent, None);
}

fn french_typer() -> ZoneTyper {
    ZoneTyper::new(vec![(
        "FR".to_string(),
        CountryRules {
            level_types: vec![(2, ZoneType::Country), (8, ZoneType::City)],
            id_overrides: vec![],
            ancestor_overrides: vec![],
        },
    )])
}

fn france(id: usize) -> Zone {
    let mut z = plain_zone("France", id, "relation:100");
    z.admin_level = Some(2);
    z.tags = tags_of(vec![("ISO3166-1:alpha2", "FR")]);
    z
}

#[test]
fn typer_answers_by_level_and_errors() {
    let typer = french_typer();
    let zones: Vec<Zone> = vec![];
    let empty: Vec<ZoneIndex> = vec![];
    let mut z = plain_zone("Paris", 0, "relation:71525");
    z.admin_level = Some(8);
    assert_eq!(
        typer.get_zone_type(&z, "FR", &empty, &zones),
        Ok(ZoneType::City)
    );
    match typer.get_zone_type(&z, "DE", &empty, &zones) {
        Err(ZoneTyperError::InvalidCountry(c)) => assert_eq!(c, "DE"),
        _ => panic!("expected an invalid-country error"),
    }
    z.admin_level = Some(5);
    match typer.get_zone_type(&z, "FR", &empty, &zones) {
        Err(ZoneTyperError::UnkownLevel(l, c)) => {
            assert_eq!(l, Some(5));
            assert_eq!(c, "FR");
        },
        _ => panic!("expected an unknown-level error"),
    }
    z.admin_level = None;
    match typer.get_zone_type(&z, "FR", &empty, &zones) {
        Err(ZoneTyperError::UnkownLevel(l, c)) => {
            assert_eq!(l, None);
            assert_eq!(c, "FR");
        },
        _ => panic!("expected an unknown-level error"),
    }
}

#[test]
fn typer_overrides_win_over_levels() {
    let typer = ZoneTyper::new(vec![(
        "FR".to_string(),
        CountryRules {
            level_types: vec![(8, ZoneType::City)],
            id_overrides: vec![("relation:9".to_string(), ZoneType::StateDistrict)],
            ancestor_overrides: vec![("relation:77".to_string(), ZoneType::CityDistrict)],
        },
    )]);
    let mut ancestor = plain_zone("anc", 0, "relation:77");
    ancestor.admin_level = Some(2);
    let zones = vec![ancestor];
    let empty: Vec<ZoneIndex> = vec![];
    let mut z = plain_zone("z", 1, "relation:9");
    z.admin_level = Some(8);
    // The zone's own id wins.
    assert_eq!(
        typer.get_zone_type(&z, "FR", &empty, &zones),
        Ok(ZoneType::StateDistrict)
    );
    // An ancestor's id wins over the level.
    let mut z2 = plain_zone("z2", 1, "relation:8");
    z2.admin_level = Some(8);
    let incl = vec![ZoneIndex { index: 0 }];
    assert_eq!(
        typer.get_zone_type(&z2, "FR", &incl, &zones),
        Ok(ZoneType::CityDistrict)
    );
    // Without a matching override the level decides.
    assert_eq!(
        typer.get_zone_type(&z2, "FR", &empty, &zones),
        Ok(ZoneType::City)
    );
}

#[test]
fn country_finder_gathers_country_zones() {
    let typer = french_typer();
    let zones = vec![france(0), plain_zone("other", 1, "relation:5")];
    let finder = CountryFinder::init(&zones, &typer);
    assert!(!finder.is_empty());
    let incl = vec![ZoneIndex { index: 0 }];
    let noincl: Vec<ZoneIndex> = vec![];
    assert_eq!(
        finder.find_zone_country(&zones[1], &incl),
        Some("FR".to_string())
    );
    assert_eq!(finder.find_zone_country(&zones[1], &noincl), None);

    let empty_finder = CountryFinder::init(&vec![], &typer);
    assert!(empty_finder.is_empty());
}

#[test]
fn get_country_code_uppercases_the_forced_code() {
    let typer = french_typer();
    let no_zones: Vec<Zone> = vec![];
    let finder = CountryFinder::init(&no_zones, &typer);
    let z = plain_zone("z", 0, "relation:1");
    let incl: Vec<ZoneIndex> = vec![];
    let code = cosmogony::get_country_code(&finder, &z, &Some("fr".to_string()), &incl);
    assert_eq!(code, Some("FR".to_string()));
    let none = cosmogony::get_country_code(&finder, &z, &None, &incl);
    assert_eq!(none, None);
}

#[test]
fn type_zones_assigns_types_and_counts_failures() {
    let typer = french_typer();
    let mut paris = plain_zone("Paris", 1, "relation:71525");
    paris.admin_level = Some(8);
    let mut odd = plain_zone("odd", 2, "relation:3");
    odd.admin_level = Some(5);
    let lost = plain_zone("lost", 3, "relation:4");
    let mut zones = vec![france(0), paris, odd, lost];
    let inclusions = vec![
        vec![],
        vec![ZoneIndex { index: 0 }],
        vec![ZoneIndex { index: 0 }],
        vec![],
    ];
    let mut stats = CosmogonyStats::new();
    let r = cosmogony::type_zones(&mut zones, &mut stats, &typer, &None, &inclusions);
    assert!(r.is_ok());
    assert_eq!(zones[0].zone_type, Some(ZoneType::Country));
    assert_eq!(zones[1].zone_type, Some(ZoneType::City));
    assert_eq!(zones[2].zone_type, None);
    assert_eq!(zones[3].zone_type, None);
    assert_eq!(stats.zone_without_country, 1);
    assert_eq!(stats.unhandled_admin_level, vec![("FR".to_string(), 5, 1)]);
    assert_eq!(stats.zone_with_unkwown_country_rules, vec![]);
}

#[test]
fn type_zones_counts_unknown_country_rules() {
    let typer = french_typer();
    let mut a = plain_zone("a", 0, "relation:1");
    a.admin_level = Some(8);
    let mut b = plain_zone("b", 1, "relation:2");
    b.admin_level = Some(8);
    let mut zones = vec![a, b];
    let inclusions = vec![vec![], vec![]];
    let mut stats = CosmogonyStats::new();
    let r = cosmogony::type_zones(
        &mut zones,
        &mut stats,
        &typer,
        &Some("de".to_string()),
        &inclusions,
    );
    assert!(r.is_ok());
    assert_eq!(zones[0].zone_type, None);
    assert_eq!(zones[1].zone_type, None);
    assert_eq!(stats.zone_with_unkwown_country_rules, vec![("DE".to_string(), 2)]);
}

#[test]
fn type_zones_fails_without_any_country() {
    let typer = french_typer();
    let mut zones = vec![plain_zone("a", 0, "relation:1")];
    let inclusions = vec![vec![]];
    let mut stats = CosmogonyStats::new();
    let r = cosmogony::type_zones(&mut zones, &mut stats, &typer, &None, &inclusions);
    assert_eq!(r, Err(cosmogony::BuildError::MissingCountry));
    assert_eq!(zones[0].zone_type, None);
}

#[test]
fn additional_cities_join_the_hierarchy() {
    let mut brittany = plain_zone("Brittany", 0, "relation:20");
    brittany.zone_type = Some(ZoneType::State);
    let mut old_city = plain_zone("Old", 1, "relation:21");
    old_city.zone_type = Some(ZoneType::City);
    let mut zones = vec![brittany, old_city];
    let candidates = vec![
        CityCandidate {
            tags: tags_of(vec![("place", "city"), ("name", "Rennes")]),
            node_id: 42,
            center: Coord { lon: 10, lat: 20 },
            covering: vec![ZoneIndex { index: 0 }],
        },
        // already covered by a city: skipped
        CityCandidate {
            tags: tags_of(vec![("place", "town"), ("name", "Skipped")]),
            node_id: 43,
            center: Coord { lon: 11, lat: 21 },
            covering: vec![ZoneIndex { index: 1 }],
        },
        // not a place: skipped
        CityCandidate {
            tags: tags_of(vec![("place", "farm"), ("name", "NoPlace")]),
            node_id: 44,
            center: Coord { lon: 12, lat: 22 },
            covering: vec![ZoneIndex { index: 0 }],
        },
        // no name: skipped
        CityCandidate {
            tags: tags_of(vec![("place", "village")]),
            node_id: 45,
            center: Coord { lon: 13, lat: 23 },
            covering: vec![ZoneIndex { index: 0 }],
        },
    ];
    compute_additional_cities(&mut zones, &candidates);
    assert_eq!(zones.len(), 3);
    let added = &zones[2];
    assert_eq!(added.name, "Rennes");
    assert_eq!(added.osm_id, "node:42");
    assert_eq!(added.zone_type, Some(ZoneType::City));
    assert_eq!(added.center, Some(Coord { lon: 10, lat: 20 }));
    assert_eq!(added.parent, Some(ZoneIndex { index: 0 }));
    assert_eq!(added.id, ZoneIndex { index: 2 });
}

#[test]
fn clean_untagged_zones_keeps_only_typed_zones() {
    let mut a = plain_zone("a", 0, "relation:1");
    a.zone_type = Some(ZoneType::City);
    let b = plain_zone("b", 1, "relation:2");
    let mut c = plain_zone("c", 2, "relation:3");
    c.zone_type = Some(ZoneType::NonAdministrative);
    let mut zones = vec![a, b, c];
    cosmogony::clean_untagged_zones(&mut zones);
    assert_eq!(zones.len(), 2);
    assert_eq!(zones[0].name, "a");
    // a non-administrative type survives the prune
    assert_eq!(zones[1].name, "c");
}

#[test]
fn create_ontology_types_wires_and_prunes() {
    let typer = french_typer();
    let mut paris = plain_zone("Paris", 1, "relation:71525");
    paris.admin_level = Some(8);
    let lost = plain_zone("lost", 2, "relation:4");
    let mut zones = vec![france(0), paris, lost];
    let inclusions = vec![vec![], vec![ZoneIndex { index: 0 }], vec![]];
    let mut stats = CosmogonyStats::new();
    let r = cosmogony::create_ontology(&mut zones, &mut stats, &typer, &None, &inclusions);
    assert!(r.is_ok());
    assert_eq!(zones.len(), 2);
    assert_eq!(zones[0].name, "France");
    assert_eq!(zones[0].label, "France");
    assert_eq!(zones[1].name, "Paris");
    assert_eq!(zones[1].label, "Paris, France");
    assert_eq!(zones[1].zone_type, Some(ZoneType::City));
    for z in &zones {
        assert!(z.zone_type.is_some());
        assert!(!z.label.is_empty());
    }
}

#[test]
fn stats_compute_counts_by_type() {
    let mut a = plain_zone("a", 0, "relation:1");
    a.zone_type = Some(ZoneType::City);
    let mut b = plain_zone("b", 1, "relation:2");
    b.zone_type = Some(ZoneType::City);
    let mut c = plain_zone("c", 2, "relation:3");
    c.zone_type = Some(ZoneType::Country);
    let d = plain_zone("d", 3, "relation:4");
    let zones = vec![a, b, c, d];
    let mut stats = CosmogonyStats::new();
    stats.compute(&zones);
    assert_eq!(stats.zone_count_by_type.len(), 8);
    assert_eq!(stats.zone_count_by_type[2], 2); // cities
    assert_eq!(stats.zone_count_by_type[6], 1); // countries
    assert_eq!(stats.zone_count_by_type[0], 0);
}

#[test]
fn output_format_from_filename() {
    assert_eq!(OutputFormat::from_filename("out.json"), Ok(OutputFormat::Json));
    assert_eq!(OutputFormat::from_filename("out.jsonl"), Ok(OutputFormat::JsonStream));
    assert_eq!(OutputFormat::from_filename("out.json.gz"), Ok(OutputFormat::JsonGz));
    assert_eq!(OutputFormat::from_filename("out.jsonl.gz"), Ok(OutputFormat::JsonStreamGz));
    assert_eq!(
        OutputFormat::from_filename("out.json.snappy"),
        Ok(OutputFormat::JsonSnappy)
    );
    assert_eq!(
        OutputFormat::from_filename("out.jsonl.snappy"),
        Ok(OutputFormat::JsonStreamSnappy)
    );
    assert_eq!(
        OutputFormat::from_filename("out.txt"),
        Err(FileFormatError::UnknownExtension)
    );
}

#[test]
fn output_format_extensions() {
    let all = OutputFormat::all();
    assert_eq!(all.len(), 6);
    assert_eq!(all[0].get_extension(), ".json");
    assert_eq!(all[1].get_extension(), ".jsonl");
    assert_eq!(all[2].get_extension(), ".json.gz");
    for f in &all {
        assert_eq!(OutputFormat::from_filename(&format!("x{}", f.get_extension())), Ok(*f));
    }
}

#[test]
fn parent_chains_reach_a_root_quickly() {
    // After wiring, parent types grow strictly more general, so no
    // chain makes eight steps.
    let mut suburb = plain_zone("s", 0, "relation:5");
    suburb.zone_type = Some(ZoneType::Suburb);
    let mut city = plain_zone("c", 1, "relation:6");
    city.zone_type = Some(ZoneType::City);
    let mut state = plain_zone("st", 2, "relation:7");
    state.zone_type = Some(ZoneType::State);
    let mut country = plain_zone("co", 3, "relation:8");
    country.zone_type = Some(ZoneType::Country);
    let mut zones = vec![suburb, city, state, country];
    let inclusions = vec![
        vec![ZoneIndex { index: 1 }, ZoneIndex { index: 2 }, ZoneIndex { index: 3 }],
        vec![ZoneIndex { index: 2 }, ZoneIndex { index: 3 }],
        vec![ZoneIndex { index: 3 }],
        vec![],
    ];
    build_hierarchy(&mut zones, &inclusions);
    for start in 0..zones.len() {
        let mut cur = Some(ZoneIndex { index: start });
        let mut steps = 0;
        while let Some(p) = cur {
            cur = zones[p.index].parent;
            steps += 1;
            assert!(steps <= 8, "a parent chain did not terminate");
        }
    }
}

#[test]
fn create_ontology_fails_without_any_country() {
    let typer = french_typer();
    let mut zones = vec![plain_zone("a", 0, "relation:1")];
    let inclusions = vec![vec![]];
    let mut stats = CosmogonyStats::new();
    let r = cosmogony::create_ontology(&mut zones, &mut stats, &typer, &None, &inclusions);
    assert_eq!(r, Err(cosmogony::BuildError::MissingCountry));
    assert_eq!(zones.len(), 1);
}

#[test]
fn from_osm_with_geom_prefers_the_admin_centre() {
    let mut t = TagsMap::new();
    t.insert("name".to_string(), "X".to_string());
    let bbox = BoundingBox { min_lon: 0, min_lat: 0, max_lon: 10, max_lat: 10 };
    let centre = Coord { lon: 3, lat: 4 };
    let centroid = Coord { lon: 5, lat: 5 };
    let z = Zone::from_osm_with_geom(&t, ZoneIndex { index: 0 }, 9, bbox, Some(centre), Some(centroid))
        .unwrap();
    assert_eq!(z.center, Some(centre));
    assert_eq!(z.bbox, Some(bbox));
    assert_eq!(z.osm_id, "relation:9");
    let z2 = Zone::from_osm_with_geom(&t, ZoneIndex { index: 0 }, 9, bbox, None, Some(centroid))
        .unwrap();
    assert_eq!(z2.center, Some(centroid));
}

#[test]
fn build_inclusions_ignores_repeated_pairs() {
    let confirmed = vec![(1usize, 0usize), (1, 0), (2, 0), (2, 2), (5, 0)];
    let incl = build_inclusions(3, &confirmed);
    assert_eq!(incl[0], vec![]);
    assert_eq!(incl[1], vec![ZoneIndex { index: 0 }]);
    assert_eq!(incl[2], vec![ZoneIndex { index: 0 }]);
}

#[test]
fn tags_map_enumerates_entries() {
    let t = tags_of(vec![("name", "X"), ("place", "city")]);
    assert_eq!(t.len(), 2);
    assert_eq!(t.key_at(0), "name");
    assert_eq!(t.value_at(0), "X");
    assert_eq!(t.key_at(1), "place");
    assert_eq!(t.value_at(1), "city");
}
