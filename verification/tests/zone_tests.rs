//! Labels, ingestion from tags, and zip-code formatting.

use cosmogony::mutable_slice::MutableSlice;
use cosmogony::strings::parse_u32;
use cosmogony::strings::str_ends_with;
use cosmogony::strings::str_lt;
use cosmogony::strings::u64_to_dec;
use cosmogony::zone::format_zip_code;
use cosmogony::zone::TagsMap;
use cosmogony::zone::Zone;
use cosmogony::zone::ZoneIndex;
use cosmogony::zone::ZoneType;

fn make_zone(name: &str, id: usize) -> Zone {
    make_zone_and_zip(name, id, vec![], None)
}

fn make_zone_and_zip(name: &str, id: usize, zips: Vec<&str>, parent: Option<usize>) -> Zone {
    Zone {
        id: ZoneIndex { index: id },
        osm_id: "".into(),
        admin_level: None,
        zone_type: Some(ZoneType::City),
        name: name.into(),
        label: "".into(),
        center: None,
        bbox: None,
        parent: parent.map(|p| ZoneIndex { index: p }),
        tags: TagsMap::new(),
        wikidata: None,
        zip_codes: zips.iter().map(|s| s.to_string()).collect(),
    }
}

#[test]
fn simple_label_test() {
    let zones = vec![make_zone("toto", 0)];

    let (mslice, mut z) = MutableSlice::init(&zones, 0);
    z.compute_label(&mslice);
    assert_eq!(z.label, "toto");
}

#[test]
fn label_with_zip_and_parent() {
    let zones = vec![
        make_zone_and_zip("bob", 0, vec!["75020", "75021", "75022"], Some(1)),
        make_zone_and_zip("bob sur mer", 1, vec!["75"], Some(2)), // it's zip code shouldn't be used
        make_zone("bobette's land", 2),
    ];

    let (mslice, mut z) = MutableSlice::init(&zones, 0);
    z.compute_label(&mslice);
    assert_eq!(z.label, "bob (75020-75022), bob sur mer, bobette's land");
}

#[test]
fn label_with_zip_and_double_parent() {
    // we should not have any double in the label
    let zones = vec![
        make_zone_and_zip("bob", 0, vec!["75020"], Some(1)),
        make_zone_and_zip("bob", 1, vec![], Some(2)),
        make_zone_and_zip("bob", 2, vec![], Some(3)),
        make_zone_and_zip("bob sur mer", 3, vec!["75"], Some(4)),
        make_zone_and_zip("bob sur mer", 4, vec!["75"], Some(5)),
        make_zone("bobette's land", 5),
    ];

    let (mslice, mut z) = MutableSlice::init(&zones, 0);
    z.compute_label(&mslice);
    assert_eq!(z.label, "bob (75020), bob sur mer, bobette's land");
}

#[test]
fn label_with_zip_and_parent_named_as_zone() {
    // we should not have any consecutive double in the labl
    // but non consecutive double should not be cleaned
    let zones = vec![
        make_zone_and_zip("bob", 0, vec!["75020"], Some(1)),
        make_zone_and_zip("bob sur mer", 1, vec!["75"], Some(2)),
        make_zone("bob", 2),
    ];

    let (mslice, mut z) = MutableSlice::init(&zones, 0);
    z.compute_label(&mslice);
    assert_eq!(z.label, "bob (75020), bob sur mer, bob");
}

#[test]
fn compute_labels_writes_every_zone() {
    let mut zones = vec![
        make_zone_and_zip("bob", 0, vec!["75020"], Some(1)),
        make_zone_and_zip("bob sur mer", 1, vec!["75"], None),
    ];
    cosmogony::compute_labels(&mut zones);
    assert_eq!(zones[0].label, "bob (75020), bob sur mer");
    assert_eq!(zones[1].label, "bob sur mer (75)");
}

#[test]
fn format_zip_code_cases() {
    let none: Vec<String> = vec![];
    assert_eq!(format_zip_code(&none), "");
    let one = vec!["75000".to_string()];
    assert_eq!(format_zip_code(&one), " (75000)");
    let several = vec!["75000".to_string(), "75116".to_string()];
    assert_eq!(format_zip_code(&several), " (75000-75116)");
    let three = vec!["75000".to_string(), "75010".to_string(), "75116".to_string()];
    assert_eq!(format_zip_code(&three), " (75000-75116)");
}

fn tags_of(pairs: Vec<(&str, &str)>) -> TagsMap {
    let mut t = TagsMap::new();
    for (k, v) in pairs {
        t.insert(k.to_string(), v.to_string());
    }
    t
}

#[test]
fn from_osm_reads_the_tags() {
    let tags = tags_of(vec![
        ("name", "Paris"),
        ("admin_level", "8"),
        ("addr:postcode", "75021;75020;;75020;75022"),
        ("wikidata", "Q90"),
    ]);
    let z = Zone::from_osm(&tags, ZoneIndex { index: 3 }, 7444).unwrap();
    assert_eq!(z.id, ZoneIndex { index: 3 });
    assert_eq!(z.osm_id, "relation:7444");
    assert_eq!(z.name, "Paris");
    assert_eq!(z.admin_level, Some(8));
    assert_eq!(z.zip_codes, vec!["75020", "75021", "75022"]);
    assert_eq!(z.wikidata, Some("Q90".to_string()));
    assert_eq!(z.zone_type, None);
    assert_eq!(z.parent, None);
    assert_eq!(z.label, "");
    assert!(z.center.is_none());
    assert!(z.bbox.is_none());
}

#[test]
fn from_osm_without_name_is_rejected() {
    let tags = tags_of(vec![("admin_level", "8")]);
    assert!(Zone::from_osm(&tags, ZoneIndex { index: 0 }, 1).is_none());
}

#[test]
fn from_osm_falls_back_to_postal_code() {
    let tags = tags_of(vec![("name", "Lyon"), ("postal_code", "69001")]);
    let z = Zone::from_osm(&tags, ZoneIndex { index: 0 }, 2).unwrap();
    assert_eq!(z.zip_codes, vec!["69001"]);
}

#[test]
fn from_osm_keeps_unparseable_level_empty() {
    let tags = tags_of(vec![("name", "X"), ("admin_level", "eight")]);
    let z = Zone::from_osm(&tags, ZoneIndex { index: 0 }, 3).unwrap();
    assert_eq!(z.admin_level, None);
}

#[test]
fn is_admin_needs_boundary_and_level() {
    let t = tags_of(vec![("boundary", "administrative"), ("admin_level", "4")]);
    assert!(cosmogony::is_admin(&t));
    let t = tags_of(vec![("boundary", "administrative")]);
    assert!(!cosmogony::is_admin(&t));
    let t = tags_of(vec![("boundary", "maritime"), ("admin_level", "4")]);
    assert!(!cosmogony::is_admin(&t));
    let t = tags_of(vec![("admin_level", "4")]);
    assert!(!cosmogony::is_admin(&t));
}

#[test]
fn zone_is_admin_depends_on_the_type() {
    let mut z = make_zone("a", 0);
    assert!(z.is_admin());
    z.zone_type = Some(ZoneType::NonAdministrative);
    assert!(!z.is_admin());
    z.zone_type = None;
    assert!(!z.is_admin());
}

#[test]
fn set_parent_writes_the_handle() {
    let mut z = make_zone("a", 0);
    z.set_parent(Some(ZoneIndex { index: 5 }));
    assert_eq!(z.parent, Some(ZoneIndex { index: 5 }));
    z.set_parent(None);
    assert_eq!(z.parent, None);
}

#[test]
fn iter_parents_walks_the_chain() {
    let zones = vec![
        make_zone_and_zip("a", 0, vec![], Some(1)),
        make_zone_and_zip("b", 1, vec![], Some(2)),
        make_zone("c", 2),
    ];
    let (mslice, z) = MutableSlice::init(&zones, 0);
    let chain = z.iter_parents(&mslice);
    assert_eq!(chain, vec![ZoneIndex { index: 1 }, ZoneIndex { index: 2 }]);
}

#[test]
fn parse_u32_reads_decimal() {
    assert_eq!(parse_u32("8"), Some(8));
    assert_eq!(parse_u32("+12"), Some(12));
    assert_eq!(parse_u32("4294967295"), Some(u32::MAX));
    assert_eq!(parse_u32("4294967296"), None);
    assert_eq!(parse_u32(""), None);
    assert_eq!(parse_u32("+"), None);
    assert_eq!(parse_u32("1a"), None);
    assert_eq!(parse_u32("-1"), None);
}

#[test]
fn u64_to_dec_writes_decimal() {
    assert_eq!(u64_to_dec(0), "0");
    assert_eq!(u64_to_dec(7), "7");
    assert_eq!(u64_to_dec(1234567890), "1234567890");
}

#[test]
fn string_order_and_suffix() {
    assert!(str_lt("75", "75000"));
    assert!(str_lt("abc", "abd"));
    assert!(!str_lt("abc", "abc"));
    assert!(str_ends_with("file.json.gz", ".gz"));
    assert!(!str_ends_with("file.json", ".gz"));
    assert!(str_ends_with("x", "x"));
    assert!(!str_ends_with("", "x"));
}
