use srenamer::ambiguity::{ambiguity_count, representative_name};
use srenamer::cache::TemplateCache;
use srenamer::rename::{duplicate_destinations, get_rename_str, rename_map, rewrite_rule, text_le, RulePiece};
use srenamer::text::is_number_text;
use srenamer::templates::{extract_rule, templates, tokenize, TemplateGroup};
use srenamer::text_histo::{text_histo, TextHisto};

fn names(v: &[&str]) -> Vec<String> {
    v.iter().map(|s| s.to_string()).collect()
}

fn episodes(n: usize) -> Vec<String> {
    (1..=n).map(|e| format!("Episode {}.mp4", e)).collect()
}

#[test]
fn tokens_cover_the_name() {
    assert_eq!(tokenize("Episode 12 - Foo.mp4"), names(&["Episode", " ", "12", " - ", "Foo", ".", "mp", "4"]));
}

#[test]
fn extract_rule_numeric_slot() {
    let a = tokenize("Episode 1.mp4");
    let b = tokenize("Episode 2.mp4");
    assert_eq!(extract_rule(&a, &b), Some(String::from(r"Episode (\d+)\.mp4")));
}

#[test]
fn extract_rule_free_text_slot() {
    let a = tokenize("Episode EN 1.mp4");
    let b = tokenize("Episode FR 1.mp4");
    assert_eq!(extract_rule(&a, &b), Some(String::from(r"Episode (.+) 1\.mp4")));
}

#[test]
fn dissimilar_names_share_no_template() {
    let a = tokenize("README.txt");
    let b = tokenize("Fantastic Beasts and Where to Find Them 1.mp4");
    assert_eq!(extract_rule(&a, &b), None);
    let res = templates(&names(&["README.txt", "Fantastic Beasts and Where to Find Them 1.mp4"]));
    assert!(res.is_empty());
}

#[test]
fn empty_listing_has_no_template() {
    assert!(templates(&Vec::new()).is_empty());
    assert!(templates(&names(&["alone.txt"])).is_empty());
}

#[test]
fn group_members_are_the_listing() {
    let res = templates(&episodes(20));
    assert_eq!(res.len(), 1);
    assert_eq!(res[0].members, episodes(20));
}

#[test]
fn multi_template_leaves_readme_out() {
    let mut filenames: Vec<String> = (1..=9).map(|e| format!("Harry Potter {}.mp4", e)).collect();
    filenames.extend((1..=4).map(|e| format!("Fantastic Beasts and Where to Find Them {}.mp4", e)));
    filenames.push(String::from("README.txt"));
    let res = templates(&filenames);
    assert_eq!(res.len(), 2);
    let total: usize = res.iter().map(|g| g.members.len()).sum();
    assert_eq!(total, 13);
    assert!(res.iter().all(|g| !g.members.contains(&String::from("README.txt"))));
}

#[test]
fn histogram_counts_characters() {
    let h = text_histo("hello");
    assert_eq!(h.count(&'l'), 2);
    assert_eq!(h.count(&'h'), 1);
    assert_eq!(h.count(&'z'), 0);
}

#[test]
fn histogram_distance() {
    assert_eq!(text_histo("ab").dist(&text_histo("bc")), 2);
    assert_eq!(text_histo("aab").dist(&text_histo("b")), 2);
    assert_eq!(text_histo("").dist(&text_histo("")), 0);
    assert_eq!(text_histo("abc").dist(&text_histo("cab")), 0);
}

#[test]
fn rule_places_the_value() {
    let rule = get_rename_str(&String::from(r"Episode (\d+)\.mp4"), &String::from("Episode 7.mp4"), &String::from("Show - 7.mkv"));
    assert_eq!(rule, Some(String::from("Show - ${1}.mkv")));
    let pieces = rewrite_rule(&String::from(r"Episode (\d+)\.mp4"), &String::from("Episode 7.mp4"), &String::from("E7"));
    assert_eq!(pieces, Some(vec![RulePiece::Text('E'), RulePiece::Slot(1)]));
}

#[test]
fn rule_without_match_is_none() {
    let rule = get_rename_str(&String::from(r"Episode (\d+)\.mp4"), &String::from("Other.txt"), &String::from("x"));
    assert_eq!(rule, None);
}

#[test]
fn dropped_value_gets_no_slot() {
    let rule = get_rename_str(&String::from(r"(\d+)\-(\d+)\.jpg"), &String::from("2014-3.jpg"), &String::from("photo 3.jpg"));
    assert_eq!(rule, Some(String::from("photo ${2}.jpg")));
}

#[test]
fn closest_occurrence_is_not_always_the_first() {
    let t = String::from(r"ab(\d+)\.txt");
    let old = String::from("ab5.txt");
    assert_eq!(get_rename_str(&t, &old, &String::from("5ab5.txt")), Some(String::from("5ab${1}.txt")));
    assert_eq!(get_rename_str(&t, &old, &String::from("ab5 5.txt")), Some(String::from("ab${1} 5.txt")));
}

#[test]
fn later_slot_skips_taken_text() {
    let t = String::from(r"(\d+)x(\d+)\.txt");
    let rule = get_rename_str(&t, &String::from("1x1.txt"), &String::from("1-1.txt"));
    assert_eq!(rule, Some(String::from("${1}-${2}.txt")));
}

#[test]
fn plan_renames_every_member_in_order() {
    let listing = episodes(10);
    let groups = templates(&listing);
    let plan = rename_map(&groups, &String::from("Episode 1.mp4"), &String::from("Show 1.mkv"));
    let mut expected: Vec<(String, String)> =
        (1..=10).map(|e| (format!("Episode {}.mp4", e), format!("Show {}.mkv", e))).collect();
    expected.sort();
    assert_eq!(plan, expected);
}

#[test]
fn plan_for_unmatched_sample_is_empty() {
    let groups = templates(&episodes(5));
    assert!(rename_map(&groups, &String::from("README.txt"), &String::from("x.txt")).is_empty());
}

#[test]
fn rename_round_trip_keeps_template_shape() {
    let listing = episodes(12);
    let groups = templates(&listing);
    let plan = rename_map(&groups, &String::from("Episode 3.mp4"), &String::from("Show - 3 (HD).mkv"));
    assert_eq!(plan.len(), 12);
    let renamed: Vec<String> = plan.iter().map(|p| p.1.clone()).collect();
    let again = templates(&renamed);
    assert_eq!(again.len(), 1);
    assert_eq!(again[0].template.matches(r"(\d+)").count(), 1);
    assert_eq!(again[0].template.matches("(.+)").count(), 0);
    assert_eq!(groups[0].template.matches(r"(\d+)").count(), 1);
}

#[test]
fn ambiguity_counts_recurring_values() {
    let t = String::from(r"Episode (\d+)\.mp4");
    assert_eq!(ambiguity_count(&t, &String::from("Episode 4.mp4")), Some(1));
    assert_eq!(ambiguity_count(&t, &String::from("Episode 3.mp4")), Some(0));
    assert_eq!(ambiguity_count(&t, &String::from("Other")), None);
}

#[test]
fn representative_prefers_unambiguous_member() {
    let groups = vec![TemplateGroup {
        template: String::from(r"Episode (\d+)\.mp4"),
        members: names(&["Episode 4.mp4", "Episode 14.mp4", "Episode 3.mp4", "Episode 2.mp4"]),
    }];
    assert_eq!(representative_name(&groups, &String::from("Episode 4.mp4")), "Episode 14.mp4");
}

#[test]
fn representative_keeps_sample_without_better_member() {
    let groups = vec![TemplateGroup {
        template: String::from(r"Episode (.+)\.mp4"),
        members: names(&["Episode e.mp4", "Episode s.mp4"]),
    }];
    assert_eq!(ambiguity_count(&groups[0].template, &String::from("Episode s.mp4")), Some(1));
    assert_eq!(representative_name(&groups, &String::from("Episode e.mp4")), "Episode e.mp4");
    assert_eq!(representative_name(&groups, &String::from("README.txt")), "README.txt");
}

#[test]
fn plan_twice_is_identical() {
    let mut cache = TemplateCache::new();
    let dir = String::from("/videos");
    let listing = episodes(8);
    let a = String::from("Episode 2.mp4");
    let b = String::from("Ep 2.mkv");
    let first = cache.plan_rename(&dir, &listing, &a, &b);
    let second = cache.plan_rename(&dir, &listing, &a, &b);
    assert_eq!(first, second);
    assert_eq!(first.len(), 8);
}

#[test]
fn cache_keeps_one_directory() {
    let mut cache = TemplateCache::new();
    let d1 = String::from("/one");
    let d2 = String::from("/two");
    assert!(cache.cached(&d1).is_none());
    let g1 = cache.templates_in(&d1, &episodes(4));
    assert_eq!(g1.len(), 1);
    let again = cache.templates_in(&d1, &Vec::new());
    assert_eq!(again[0].members, episodes(4));
    cache.templates_in(&d2, &Vec::new());
    assert!(cache.cached(&d1).is_none());
    assert!(cache.cached(&d2).unwrap().is_empty());
}

#[test]
fn duplicate_destinations_are_counted() {
    let plan = vec![
        (String::from("a1"), String::from("x")),
        (String::from("a2"), String::from("y")),
        (String::from("a3"), String::from("x")),
        (String::from("a4"), String::from("x")),
    ];
    assert_eq!(duplicate_destinations(&plan), 2);
    assert_eq!(duplicate_destinations(&Vec::new()), 0);
}

#[test]
fn number_texts() {
    assert!(is_number_text("12"));
    assert!(is_number_text("65536"));
    assert!(is_number_text("0123456789012345678901234567890"));
    assert!(!is_number_text(""));
    assert!(!is_number_text("+12"));
    assert!(!is_number_text("1a"));
    assert!(!is_number_text("-1"));
}

#[test]
fn large_counters_get_a_numeric_slot() {
    let a = tokenize("Clip 100000.mp4");
    let b = tokenize("Clip 100001.mp4");
    assert_eq!(extract_rule(&a, &b), Some(String::from(r"Clip (\d+)\.mp4")));
    let listing: Vec<String> = (99998..=100003).map(|e| format!("Clip {}.mp4", e)).collect();
    let res = templates(&listing);
    assert_eq!(res.len(), 1);
    assert_eq!(res[0].template, r"Clip (\d+)\.mp4");
    assert_eq!(res[0].members, listing);
}

#[test]
fn trailing_region_gets_a_slot() {
    let a = tokenize("photo a");
    let b = tokenize("photo b");
    assert_eq!(extract_rule(&a, &b), Some(String::from("photo (.+)")));
    let res = templates(&names(&["photo a", "photo b"]));
    assert_eq!(res.len(), 1);
    assert_eq!(res[0].template, "photo (.+)");
    assert_eq!(res[0].members, names(&["photo a", "photo b"]));
}

#[test]
fn punctuation_between_regions_stays_in_one_slot() {
    let a = tokenize("alpha - beta");
    let b = tokenize("gamma - delta");
    assert_eq!(extract_rule(&a, &b), None);
    let a = tokenize("Show alpha - beta");
    let b = tokenize("Show gamma - delta");
    assert_eq!(extract_rule(&a, &b), Some(String::from("Show (.+)")));
}

#[test]
fn text_order_is_by_code_point() {
    assert!(text_le(&String::from("Episode 10"), &String::from("Episode 2")));
    assert!(!text_le(&String::from("b"), &String::from("a")));
    assert!(text_le(&String::from("a"), &String::from("a")));
    assert!(text_le(&String::from(""), &String::from("a")));
    assert!(!text_le(&String::from("ab"), &String::from("a")));
}

#[test]
fn representative_from_inferred_groups() {
    let listing = episodes(6);
    let groups = templates(&listing);
    assert_eq!(representative_name(&groups, &String::from("Episode 4.mp4")), "Episode 1.mp4");
    assert_eq!(representative_name(&groups, &String::from("Episode 2.mp4")), "Episode 2.mp4");
}
