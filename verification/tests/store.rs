use tagger::codec::FormatError;
use tagger::completer::TagCompleter;
use tagger::infix::parse_infix;
use tagger::list::List;
use tagger::tagger_map::TaggerMap;
use tagger::tagmap::{MatchRule, TagMap};

fn store_abc() -> TagMap {
    // {a: [x, y], b: [x], c: [y]}
    let mut m = TagMap::new();
    m.insert("a".into(), vec!["x".into(), "y".into()]);
    m.insert("b".into(), vec!["x".into()]);
    m.insert("c".into(), vec!["y".into()]);
    m
}

fn ids(m: &TagMap) -> Vec<String> {
    let mut out = Vec::new();
    let mut i = 0;
    while i < m.len() {
        out.push(m.id_at(i).clone());
        i += 1;
    }
    out
}

#[test]
fn save_format_exact() {
    let mut m = TagMap::new();
    m.insert("holiday.png".into(), vec!["beach".into(), "sunset".into()]);
    m.insert("todo.txt".into(), vec![]);
    assert_eq!(
        m.to_list_string(),
        "\"holiday.png\" beach sunset \n\"todo.txt\" \n"
    );
}

#[test]
fn load_parses_lines() {
    let m = TagMap::from_list_string("\"a\" x y \n\"b\" \n").unwrap();
    assert_eq!(m.len(), 2);
    assert_eq!(m.get("a"), Some(&vec!["x".to_string(), "y".to_string()]));
    assert_eq!(m.get("b"), Some(&vec![]));
    assert_eq!(m.get("c"), None);
}

#[test]
fn save_then_load_round_trips() {
    let m = store_abc();
    let text = m.to_list_string();
    let back = TagMap::from_list_string(&text).unwrap();
    assert_eq!(ids(&back), vec!["a", "b", "c"]);
    assert_eq!(back.get("a"), Some(&vec!["x".to_string(), "y".to_string()]));
    assert_eq!(back.get("b"), Some(&vec!["x".to_string()]));
    assert_eq!(back.get("c"), Some(&vec!["y".to_string()]));
}

#[test]
fn load_reports_first_malformed_line() {
    let err = TagMap::from_list_string("\"a\" x \nno quotes here\n").unwrap_err();
    assert_eq!(err, FormatError { line: 1 });
    let err = TagMap::from_list_string("\"only one quote\n").unwrap_err();
    assert_eq!(err, FormatError { line: 0 });
}

#[test]
fn load_later_duplicate_replaces_tags() {
    let m = TagMap::from_list_string("\"a\" x \n\"a\" y \n").unwrap();
    assert_eq!(m.len(), 1);
    assert_eq!(m.get("a"), Some(&vec!["y".to_string()]));
}

#[test]
fn matching_with_empty_rule_yields_every_entry_once() {
    let m = store_abc();
    let rule = MatchRule::Conjunction(vec![]);
    let all = m.matching(&rule).take(10);
    let names: Vec<String> = all.into_iter().map(|p| p.0).collect();
    assert_eq!(names, vec!["a", "b", "c"]);
}

#[test]
fn matching_require_all() {
    let m = store_abc();
    let rule = MatchRule::RequireAll(vec!["x".into()]);
    let names: Vec<String> = m.matching(&rule).take(10).into_iter().map(|p| p.0).collect();
    assert_eq!(names, vec!["a", "b"]);
}

#[test]
fn matching_conjunction_with_exclusion() {
    let m = store_abc();
    let rule = MatchRule::Conjunction(vec![
        MatchRule::RequireAll(vec!["x".into()]),
        MatchRule::ExcludeAny(vec!["y".into()]),
    ]);
    let names: Vec<String> = m.matching(&rule).take(10).into_iter().map(|p| p.0).collect();
    assert_eq!(names, vec!["b"]);
}

#[test]
fn matching_parsed_query() {
    let m = store_abc();
    let rule = parse_infix("x !y").unwrap();
    let names: Vec<String> = m.matching(&rule).take(10).into_iter().map(|p| p.0).collect();
    assert_eq!(names, vec!["b"]);
}

#[test]
fn match_sequence_is_lazy_and_restartable() {
    let m = store_abc();
    let rule = MatchRule::RequireAll(vec!["x".into()]);
    let mut cursor = m.matching(&rule);
    let first = cursor.next().unwrap();
    assert_eq!(first.0, "a");
    // a copied cursor continues independently
    let copy = cursor;
    let names: Vec<String> = copy.take(10).into_iter().map(|p| p.0).collect();
    assert_eq!(names, vec!["b"]);
    assert_eq!(cursor.next().unwrap().0, "b");
    assert_eq!(cursor.next(), None);
    // a fresh call restarts from the beginning
    let names: Vec<String> = m.matching(&rule).take(10).into_iter().map(|p| p.0).collect();
    assert_eq!(names, vec!["a", "b"]);
}

#[test]
fn pagination_is_a_contiguous_slice() {
    let m = store_abc();
    let rule = MatchRule::Conjunction(vec![]);
    let full: Vec<String> = m.matching(&rule).take(10).into_iter().map(|p| p.0).collect();
    assert_eq!(full, vec!["a", "b", "c"]);
    for k in 0..5usize {
        for n in 0..5usize {
            let page: Vec<String> = m
                .matching(&rule)
                .skip(k)
                .take(n)
                .into_iter()
                .map(|p| p.0)
                .collect();
            let lo = k.min(full.len());
            let hi = (k + n).min(full.len());
            assert_eq!(page, full[lo..hi].to_vec());
        }
    }
}

#[test]
fn entries_matching_tags_requires_every_tag() {
    let m = store_abc();
    let both: Vec<String> = m
        .entries_matching_tags(&["x".to_string(), "y".to_string()])
        .into_iter()
        .cloned()
        .collect();
    assert_eq!(both, vec!["a"]);
    let none: Vec<&String> = m.entries_matching_tags(&["z".to_string()]);
    assert!(none.is_empty());
    let all: Vec<String> = m.entries_matching_tags(&[]).into_iter().cloned().collect();
    assert_eq!(all, vec!["a", "b", "c"]);
}

#[test]
fn insert_replaces_in_place_and_remove_deletes() {
    let mut m = store_abc();
    m.insert("b".into(), vec!["z".into()]);
    assert_eq!(ids(&m), vec!["a", "b", "c"]);
    assert_eq!(m.get("b"), Some(&vec!["z".to_string()]));
    assert_eq!(m.remove("b"), Some(vec!["z".to_string()]));
    assert_eq!(m.remove("b"), None);
    assert_eq!(ids(&m), vec!["a", "c"]);
    assert!(!m.contains_id("b"));
}

#[test]
fn sync_adds_missing_and_skips_reserved() {
    let mut m = TaggerMap::new();
    let names: Vec<String> = vec![
        "one.png".into(),
        "tagger.list".into(),
        "two.png".into(),
    ];
    let added = m.update_from_listing(&names, "tagger.list");
    assert_eq!(added, 2);
    assert!(m.tag_map.contains_id("one.png"));
    assert!(m.tag_map.contains_id("two.png"));
    assert!(!m.tag_map.contains_id("tagger.list"));
    assert_eq!(m.tag_map.get("one.png"), Some(&vec![]));
}

#[test]
fn sync_twice_adds_nothing_the_second_time() {
    let mut m = TaggerMap::new();
    m.tag_map.insert("kept.png".into(), vec!["tag".into()]);
    let names: Vec<String> = vec!["kept.png".into(), "new.png".into()];
    let first = m.update_from_listing(&names, "tagger.list");
    assert_eq!(first, 1);
    let second = m.update_from_listing(&names, "tagger.list");
    assert_eq!(second, 0);
    assert!(m.tag_map.contains_id("kept.png"));
    assert_eq!(m.tag_map.get("kept.png"), Some(&vec!["tag".to_string()]));
    assert!(m.tag_map.contains_id("new.png"));
    assert_eq!(m.tag_map.len(), 2);
}

#[test]
fn sync_removes_entries_without_backing_file() {
    let mut m = TaggerMap::new();
    let names1: Vec<String> = vec!["stays.png".into(), "goes.png".into()];
    m.update_from_listing(&names1, "tagger.list");
    assert!(m.tag_map.contains_id("goes.png"));
    let names2: Vec<String> = vec!["stays.png".into()];
    let added = m.update_from_listing(&names2, "tagger.list");
    assert_eq!(added, 0);
    assert!(m.tag_map.contains_id("stays.png"));
    assert!(!m.tag_map.contains_id("goes.png"));
}

#[test]
fn tags_are_sorted_and_distinct() {
    let mut m = TaggerMap::new();
    m.tag_map
        .insert("a".into(), vec!["zebra".into(), "ant".into()]);
    m.tag_map
        .insert("b".into(), vec!["ant".into(), "bee".into()]);
    assert_eq!(m.tags(), vec!["ant", "bee", "zebra"]);
}

#[test]
fn tagger_map_round_trip() {
    let mut m = TaggerMap::new();
    m.tag_map.insert("pic one.png".into(), vec!["cat".into()]);
    let text = m.to_list_string();
    assert_eq!(text, "\"pic one.png\" cat \n");
    let back = TaggerMap::from_list_string(&text).unwrap();
    assert_eq!(back.tag_map.get("pic one.png"), Some(&vec!["cat".to_string()]));
}

#[test]
fn completer_offers_tags_with_the_word_as_prefix() {
    let c = TagCompleter::new(vec!["ant".into(), "bee".into(), "begin".into()]);
    let (begin, found) = c.complete("ant be", 6);
    assert_eq!(begin, 4);
    assert_eq!(found, vec!["bee", "begin"]);
    let (begin, found) = c.complete("be", 2);
    assert_eq!(begin, 0);
    assert_eq!(found, vec!["bee", "begin"]);
    // an empty word matches everything
    let (begin, found) = c.complete("x ", 2);
    assert_eq!(begin, 2);
    assert_eq!(found, vec!["ant", "bee", "begin"]);
}

#[test]
fn list_matching_was_never_implemented() {
    let l = List::from_list_string("\"a\" x \n").unwrap();
    let hits: Vec<&str> = l.entries_matching_tags(&["x".to_string()]);
    assert!(hits.is_empty());
}

#[test]
fn list_shares_the_persisted_format() {
    let mut l = List::new();
    let names: Vec<String> = vec!["f.png".into()];
    l.update_from_listing(&names);
    assert_eq!(l.to_list_string(), "\"f.png\" \n");
}
