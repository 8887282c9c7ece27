use coursehku::course::{Conflict, Course, InvalidSelection};
use coursehku::course_map::CourseMap;

fn sections(list: &[(&str, u64)]) -> Vec<(String, u64)> {
    list.iter().map(|(s, m)| (s.to_string(), *m)).collect()
}

fn course(code: &str, title: &str, list: &[(&str, u64)]) -> Course {
    Course::new(code.to_string(), title.to_string(), sections(list), "".to_string())
}

fn contents(map: &CourseMap) -> Vec<(String, String, Vec<(String, u64)>)> {
    (0..map.len())
        .map(|i| {
            (map.code_at(i).clone(), map.course_at(i).title().clone(), map.course_at(i).sections())
        })
        .collect()
}

fn entry(code: &str, title: &str, list: &[(&str, u64)]) -> (String, String, Vec<(String, u64)>) {
    (code.to_string(), title.to_string(), sections(list))
}

#[test]
fn a_new_selection_is_empty() {
    let map = CourseMap::new(Vec::new());
    assert!(map.is_empty());
    assert_eq!(map.len(), 0);
    assert_eq!(map.keys(), Vec::<String>::new());
    assert_eq!(map.occupancy(), 0);
    assert!(!map.conflict_with(u64::MAX));
}

#[test]
fn new_stores_entries_in_order_and_the_later_of_two_under_one_code() {
    let map = CourseMap::new(vec![
        ("A".to_string(), course("A", "first", &[("1", 1)])),
        ("B".to_string(), course("B", "b", &[("1", 2)])),
        ("A".to_string(), course("A", "second", &[("2", 4)])),
    ]);
    assert_eq!(contents(&map), vec![entry("A", "second", &[("2", 4)]), entry("B", "b", &[("1", 2)])]);
}

#[test]
fn add_inserts_a_new_code_at_the_end() {
    let mut map = CourseMap::new(Vec::new());
    map.add("A".to_string(), course("A", "a", &[("1", 1)]));
    map.add("B".to_string(), course("B", "b", &[("1", 2), ("2", 4)]));
    assert_eq!(map.keys(), vec!["A".to_string(), "B".to_string()]);
    assert_eq!(
        contents(&map),
        vec![entry("A", "a", &[("1", 1)]), entry("B", "b", &[("1", 2), ("2", 4)])]
    );
}

#[test]
fn add_merges_sections_and_keeps_the_first_title() {
    let mut map = CourseMap::new(Vec::new());
    map.add("A".to_string(), course("A", "first", &[("1", 1), ("2", 2)]));
    map.add("B".to_string(), course("B", "b", &[("1", 8)]));
    map.add("A".to_string(), course("A", "second", &[("2", 4), ("3", 16)]));
    assert_eq!(
        contents(&map),
        vec![entry("A", "first", &[("1", 1), ("2", 4), ("3", 16)]), entry("B", "b", &[("1", 8)])]
    );
}

#[test]
fn adding_a_course_twice_is_adding_it_once() {
    let c = course("A", "a", &[("1", 1), ("2", 2)]);
    let mut once = CourseMap::new(Vec::new());
    once.add("B".to_string(), course("B", "b", &[("1", 8)]));
    once.add("A".to_string(), c.clone());
    let mut twice = once.clone();
    twice.add("A".to_string(), c.clone());
    assert_eq!(contents(&twice), contents(&once));

    let mut merged = CourseMap::new(Vec::new());
    merged.add("A".to_string(), course("A", "a", &[("0", 32)]));
    merged.add("A".to_string(), c.clone());
    let after_one = contents(&merged);
    merged.add("A".to_string(), c);
    assert_eq!(contents(&merged), after_one);
    assert_eq!(after_one, vec![entry("A", "a", &[("0", 32), ("1", 1), ("2", 2)])]);
}

#[test]
fn extend_replaces_known_codes_in_place_and_appends_new_ones() {
    let mut map = CourseMap::new(Vec::new());
    map.add("A".to_string(), course("A", "old", &[("1", 1)]));
    map.add("B".to_string(), course("B", "b", &[("1", 2)]));
    let mut other = CourseMap::new(Vec::new());
    other.add("C".to_string(), course("C", "c", &[("1", 4)]));
    other.add("A".to_string(), course("A", "new", &[("9", 8)]));
    map.extend(other);
    assert_eq!(
        contents(&map),
        vec![
            entry("A", "new", &[("9", 8)]),
            entry("B", "b", &[("1", 2)]),
            entry("C", "c", &[("1", 4)]),
        ]
    );
}

#[test]
fn remove_takes_an_entry_out_and_keeps_the_order_of_the_rest() {
    let mut map = CourseMap::new(Vec::new());
    map.add("A".to_string(), course("A", "a", &[("1", 1)]));
    map.add("B".to_string(), course("B", "b", &[("1", 2)]));
    map.add("C".to_string(), course("C", "c", &[("1", 4)]));
    let gone = map.remove("B").unwrap();
    assert_eq!(gone.title(), "b");
    assert_eq!(map.keys(), vec!["A".to_string(), "C".to_string()]);
    assert!(!map.contains_key("B"));
}

#[test]
fn removing_an_unknown_code_changes_nothing() {
    let mut map = CourseMap::new(Vec::new());
    map.add("A".to_string(), course("A", "a", &[("1", 1)]));
    let before = contents(&map);
    assert!(map.remove("Z").is_none());
    assert_eq!(contents(&map), before);
}

#[test]
fn clear_empties_the_selection() {
    let mut map = CourseMap::new(Vec::new());
    map.add("A".to_string(), course("A", "a", &[("1", 1)]));
    map.add("B".to_string(), course("B", "b", &[("1", 2)]));
    map.clear();
    assert!(map.is_empty());
    assert_eq!(map.keys(), Vec::<String>::new());
}

#[test]
fn get_and_get_session_look_up_by_code_and_section() {
    let mut map = CourseMap::new(Vec::new());
    map.add("COMP1117".to_string(), course("COMP1117", "cp", &[("1A", 3), ("1B", 12)]));
    map.add("COMP2113".to_string(), course("COMP2113", "pt", &[("1A", 48)]));
    assert_eq!(map.get("COMP2113").unwrap().title(), "pt");
    assert!(map.get("COMP9999").is_none());
    assert!(map.contains_key("COMP1117"));
    assert_eq!(map.get_session("COMP1117", "1B"), Some(12));
    assert_eq!(map.get_session("COMP2113", "1A"), Some(48));
    assert_eq!(map.get_session("COMP1117", "2A"), None);
    assert_eq!(map.get_session("COMP9999", "1A"), None);
}

#[test]
fn a_selection_conflicts_as_soon_as_one_section_of_one_course_does() {
    let mut map = CourseMap::new(Vec::new());
    map.add("A".to_string(), course("A", "a", &[("1", 1), ("2", 2)]));
    map.add("B".to_string(), course("B", "b", &[("1", 8)]));
    assert!(map.conflict_with(2));
    assert!(map.conflict_with(8));
    assert!(!map.conflict_with(4));
    assert_eq!(map.occupancy(), 11);
    for x in 0..32u64 {
        assert_eq!(map.conflict_with(x), map.occupancy() & x != 0);
    }
}

#[test]
fn from_holds_the_course_under_its_own_code() {
    let map = CourseMap::from(course("COMP1117", "cp", &[("1A", 3)]));
    assert_eq!(contents(&map), vec![entry("COMP1117", "cp", &[("1A", 3)])]);
}

#[test]
fn try_from_reads_a_selection_of_one_course() {
    let map = CourseMap::from(course("COMP1117", "cp", &[("1A", 3), ("1B", 12)]));
    let c = Course::try_from(map).unwrap();
    assert_eq!(c.code(), "COMP1117");
    assert_eq!(c.sections(), sections(&[("1A", 3), ("1B", 12)]));
}

#[test]
fn try_from_refuses_an_empty_selection() {
    let err = Course::try_from(CourseMap::new(Vec::new())).unwrap_err();
    assert_eq!(err, InvalidSelection { courses: 0 });
    assert_eq!(err.message(), "CourseMap must have exactly one course");
}

#[test]
fn try_from_refuses_a_selection_of_several_courses() {
    let mut map = CourseMap::new(Vec::new());
    map.add("A".to_string(), course("A", "a", &[("1", 1)]));
    map.add("B".to_string(), course("B", "b", &[("1", 2)]));
    assert_eq!(Course::try_from(map).unwrap_err(), InvalidSelection { courses: 2 });
}

#[test]
fn insert_replaces_the_whole_course() {
    let mut map = CourseMap::new(Vec::new());
    map.insert("A".to_string(), course("A", "old", &[("1", 1), ("2", 2)]));
    map.insert("A".to_string(), course("A", "new", &[("3", 4)]));
    assert_eq!(contents(&map), vec![entry("A", "new", &[("3", 4)])]);
}
