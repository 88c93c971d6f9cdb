use omacal::geocode::{
    demo_canned, format_label, may_fetch_photon, merge_places, percent_encode, photon_url, plan_search,
    query_has_url, query_is_searchable, PlaceProps, PlaceRef, SearchPlan,
};

fn props(pairs: &[(&str, &str)]) -> PlaceProps {
    let get = |k: &str| pairs.iter().find(|(key, _)| *key == k).map(|(_, v)| v.to_string());
    PlaceProps {
        name: get("name"),
        housenumber: get("housenumber"),
        street: get("street"),
        city: get("city"),
        state: get("state"),
        postcode: get("postcode"),
        country: get("country"),
    }
}

#[test]
fn banbury_formats_as_name_and_street_address() {
    let p = props(&[
        ("housenumber", "2626"),
        ("name", "Banbury Golf Course"),
        ("street", "South Marypost Place"),
        ("city", "Eagle"),
        ("state", "Idaho"),
        ("country", "United States"),
        ("postcode", "83616"),
    ]);
    assert_eq!(
        format_label(&p).as_deref(),
        Some("Banbury Golf Course, 2626 South Marypost Place, Eagle, Idaho 83616, United States")
    );
}

#[test]
fn empty_parts_are_omitted_not_comma_runs() {
    let p = props(&[("name", "Room 4A"), ("city", "Sofia"), ("country", "Bulgaria")]);
    assert_eq!(format_label(&p).as_deref(), Some("Room 4A, Sofia, Bulgaria"));
}

#[test]
fn may_fetch_photon_is_off_until_opted_in_and_off_in_demo() {
    assert!(!may_fetch_photon(false, false));
    assert!(may_fetch_photon(false, true));
    assert!(!may_fetch_photon(true, true));
    assert!(!may_fetch_photon(true, false));
}

#[test]
fn a_url_in_the_query_never_goes_to_photon() {
    assert!(query_has_url("https://us02web.zoom.us/j/123?pwd=secret"));
    assert!(query_has_url("Join at HTTP://meet.google.com/abc"));
    assert!(query_has_url("Room 4A, https://maps.example.com/pin"));
    assert!(!query_has_url("Room 4A"));
    assert!(!query_has_url("http"));
    assert!(!query_has_url("zoom.us/j/123"));
}

fn labels(prefix: &str) -> Vec<String> {
    (0..10).map(|i| format!("{prefix} {i} Place")).collect()
}

#[test]
fn history_matches_come_first_and_photon_does_not_duplicate_them() {
    let history = vec!["Room 4A, Sofia, Bulgaria".to_string()];
    let remote = vec![
        "Room 4A, Sofia, Bulgaria".to_string(),
        "Banbury Golf Course, 2626 South Marypost Place, Eagle, Idaho 83616, United States".to_string(),
    ];
    let merged = merge_places("room", &history, &remote, 8);
    assert_eq!(merged[0], PlaceRef::History(0));
    assert_eq!(merged.len(), 2);
}

#[test]
fn short_queries_do_not_search() {
    assert!(!query_is_searchable("B"));
    assert!(query_is_searchable("Ba"));
}

#[test]
fn merge_caps_at_limit() {
    let history = labels("History");
    let remote = labels("Search");
    let merged = merge_places("place", &history, &remote, 8);
    assert_eq!(merged.len(), 8);
    assert!(merged.iter().all(|h| matches!(h, PlaceRef::History(_))));
}

#[test]
fn photon_url_encodes_the_query_and_pins_limit_without_a_location_bias() {
    let url = photon_url("Banbury Golf Course");
    assert_eq!(url, "https://photon.komoot.io/api?q=Banbury%20Golf%20Course&limit=8&lang=en");
    assert!(!url.contains("lat="));
    assert!(!url.contains("lon="));
}

#[test]
fn demo_canned_filters_by_substring_and_includes_banbury() {
    let hits = demo_canned("banbury");
    assert_eq!(hits.len(), 1);
    assert_eq!(hits[0], "Banbury Golf Course, 2626 South Marypost Place, Eagle, Idaho 83616, United States");
    assert!(demo_canned("zzzz").is_empty());
    assert!(demo_canned("room").iter().any(|h| h.contains("Room 4A")));
}

// ---------------------------------------------------------------- more

#[test]
fn percent_encoding_is_per_utf8_byte_in_upper_hex() {
    assert_eq!(percent_encode("a-b_c.d~e"), "a-b_c.d~e");
    assert_eq!(percent_encode("é"), "%C3%A9");
    assert_eq!(percent_encode("a&b=c"), "a%26b%3Dc");
    assert_eq!(percent_encode("€"), "%E2%82%AC");
    assert_eq!(percent_encode("😀"), "%F0%9F%98%80");
    assert_eq!(photon_url("lat=1"), "https://photon.komoot.io/api?q=lat%3D1&limit=8&lang=en");
}

#[test]
fn a_part_that_repeats_the_one_before_is_dropped() {
    let p = props(&[("name", "Main Street"), ("street", "MAIN STREET"), ("city", "Town")]);
    assert_eq!(format_label(&p).as_deref(), Some("Main Street, Town"));
    let blank = props(&[("name", "   "), ("city", "")]);
    assert_eq!(format_label(&blank), None);
    let pc = props(&[("postcode", " 1000 ")]);
    assert_eq!(format_label(&pc).as_deref(), Some("1000"));
}

#[test]
fn remote_rows_never_repeat_a_listed_label() {
    let history: Vec<String> = vec![];
    let remote = vec!["Sofia".to_string(), "SOFIA".to_string(), "Plovdiv".to_string()];
    let merged = merge_places("x", &history, &remote, 8);
    assert_eq!(merged, vec![PlaceRef::Remote(0), PlaceRef::Remote(2)]);
    assert!(merge_places("x", &history, &remote, 0).is_empty());
}

#[test]
fn history_must_hold_the_trimmed_query() {
    let history = vec!["Room 4A".to_string(), "Office".to_string()];
    let merged = merge_places("  ROOM ", &history, &[], 8);
    assert_eq!(merged, vec![PlaceRef::History(0)]);
}

#[test]
fn the_search_plan_follows_the_two_gates() {
    assert_eq!(plan_search(" B ", false, true), SearchPlan::Nothing);
    assert_eq!(
        plan_search(" Room 4A ", false, true),
        SearchPlan::Fetch {
            query: "Room 4A".into(),
            url: "https://photon.komoot.io/api?q=Room%204A&limit=8&lang=en".into()
        }
    );
    assert_eq!(plan_search("Room", false, false), SearchPlan::Local { query: "Room".into(), demo_remote: false });
    assert_eq!(plan_search("Room", true, true), SearchPlan::Local { query: "Room".into(), demo_remote: true });
    assert_eq!(
        plan_search("https://x.y", true, true),
        SearchPlan::Local { query: "https://x.y".into(), demo_remote: false }
    );
    assert_eq!(
        plan_search("https://x.y", false, true),
        SearchPlan::Local { query: "https://x.y".into(), demo_remote: false }
    );
}
