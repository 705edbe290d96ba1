use terrain_sync::{is_map_file, json_maps, list_maps, map_precedes, number_of_map, sort_maps};

fn names(v: &[&str]) -> Vec<String> {
    v.iter().map(|s| s.to_string()).collect()
}

#[test]
fn numbered_maps_come_first_by_number() {
    let got = list_maps(names(&["overview.json", "tile_10.json", "tile_2.json"]));
    assert_eq!(got, names(&["tile_2.json", "tile_10.json", "overview.json"]));
    let got = list_maps(names(&["tile_10.json", "tile_2.json", "overview.json"]));
    assert_eq!(got, names(&["tile_2.json", "tile_10.json", "overview.json"]));
}

#[test]
fn listing_keeps_only_json_files() {
    let got = list_maps(names(&["readme.md", "b.json", "a.json", "tile_1.png", "tile_3_x.json"]));
    assert_eq!(got, names(&["tile_3_x.json", "a.json", "b.json"]));
    assert!(list_maps(vec![]).is_empty());
}

#[test]
fn unnumbered_maps_sort_by_text() {
    let got = sort_maps(names(&["zeta", "alpha_x", "Beta", "alpha"]));
    assert_eq!(got, names(&["Beta", "alpha", "alpha_x", "zeta"]));
}

#[test]
fn map_number_reads_second_field() {
    assert_eq!(number_of_map(&"tile_12_b.json".to_string()), Some(12));
    assert_eq!(number_of_map(&"a_7".to_string()), Some(7));
    assert_eq!(number_of_map(&"tile_+7_x".to_string()), Some(7));
    assert_eq!(number_of_map(&"tile_007_x".to_string()), Some(7));
    assert_eq!(number_of_map(&"tile_4294967295_x".to_string()), Some(u32::MAX));
    assert_eq!(number_of_map(&"tile_4294967296_x".to_string()), None);
    assert_eq!(number_of_map(&"tile_2.json".to_string()), Some(2));
    assert_eq!(number_of_map(&"tile_2.json.json".to_string()), None);
    assert_eq!(number_of_map(&"overview.json".to_string()), None);
    assert_eq!(number_of_map(&"tile_".to_string()), None);
    assert_eq!(number_of_map(&"tile_+_x".to_string()), None);
    assert_eq!(number_of_map(&"tile_-3_x".to_string()), None);
}

#[test]
fn map_precedence_rules() {
    let s = |v: &str| v.to_string();
    assert!(map_precedes(&s("a_2_"), &s("a_10_")));
    assert!(!map_precedes(&s("a_10_"), &s("a_2_")));
    assert!(map_precedes(&s("a_3_"), &s("a_3_")));
    assert!(map_precedes(&s("a_99_"), &s("aaa")));
    assert!(!map_precedes(&s("aaa"), &s("a_99_")));
    assert!(map_precedes(&s("abc"), &s("abd")));
    assert!(map_precedes(&s("ab"), &s("abc")));
    assert!(!map_precedes(&s("abc"), &s("ab")));
}

#[test]
fn json_suffix_is_required() {
    assert!(is_map_file(&"a.json".to_string()));
    assert!(is_map_file(&".json".to_string()));
    assert!(!is_map_file(&"json".to_string()));
    assert!(!is_map_file(&"a.json.bak".to_string()));
    assert!(!is_map_file(&"a.JSON".to_string()));
    assert_eq!(json_maps(&names(&["x.txt", "b.json", "a.json"])), names(&["b.json", "a.json"]));
}
