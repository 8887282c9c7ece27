use coursehku::course::{Conflict, Course};

fn sections(list: &[(&str, u64)]) -> Vec<(String, u64)> {
    list.iter().map(|(s, m)| (s.to_string(), *m)).collect()
}

fn comp1117() -> Course {
    Course::new(
        "COMP1117".to_string(),
        "Computer programming".to_string(),
        sections(&[("1A", 0b0011), ("1B", 0b1100), ("2A", 0b0001_0000)]),
        "".to_string(),
    )
}

#[test]
fn a_new_course_keeps_its_fields_and_the_order_of_its_sections() {
    let c = comp1117();
    assert_eq!(c.code(), "COMP1117");
    assert_eq!(c.title(), "Computer programming");
    assert_eq!(c.prereq(), "");
    assert_eq!(c.len(), 3);
    assert!(!c.is_empty());
    assert_eq!(c.section_at(0), "1A");
    assert_eq!(c.session_at(0), 0b0011);
    assert_eq!(c.section_at(2), "2A");
    assert_eq!(c.session_at(2), 0b0001_0000);
    assert_eq!(c.sections(), sections(&[("1A", 3), ("1B", 12), ("2A", 16)]));
}

#[test]
fn a_repeated_section_keeps_its_place_and_takes_the_later_mask() {
    let c = Course::new(
        "X".to_string(),
        "x".to_string(),
        sections(&[("1A", 1), ("1B", 2), ("1A", 4)]),
        "".to_string(),
    );
    assert_eq!(c.sections(), sections(&[("1A", 4), ("1B", 2)]));
}

#[test]
fn a_course_without_sections_is_empty() {
    let c = Course::new("X".to_string(), "x".to_string(), Vec::new(), "Y&Z".to_string());
    assert!(c.is_empty());
    assert_eq!(c.len(), 0);
    assert_eq!(c.occupancy(), 0);
    assert!(!c.conflict_with(u64::MAX));
    assert_eq!(c.prereq(), "Y&Z");
}

#[test]
fn get_finds_a_section_by_its_identifier() {
    let c = comp1117();
    assert_eq!(c.get("1B"), Some(0b1100));
    assert_eq!(c.get("2A"), Some(0b0001_0000));
    assert_eq!(c.get("1C"), None);
    assert_eq!(c.get(""), None);
}

#[test]
fn a_course_conflicts_as_soon_as_one_section_does() {
    let c = comp1117();
    assert!(c.conflict_with(0b0001));
    assert!(c.conflict_with(0b1000));
    assert!(c.conflict_with(0b0001_0000));
    assert!(!c.conflict_with(0b0010_0000));
    assert!(!c.conflict_with(0));
}

#[test]
fn occupancy_is_the_union_of_the_sections() {
    assert_eq!(comp1117().occupancy(), 0b0001_1111);
}

#[test]
fn only_keeps_one_section_and_the_identity() {
    let c = comp1117().only(1);
    assert_eq!(c.code(), "COMP1117");
    assert_eq!(c.title(), "Computer programming");
    assert_eq!(c.sections(), sections(&[("1B", 0b1100)]));
}

#[test]
fn extend_adds_new_sections_and_replaces_known_masks() {
    let mut c = comp1117();
    c.extend(sections(&[("1B", 0b1000_0000), ("3A", 1)]));
    assert_eq!(c.sections(), sections(&[("1A", 3), ("1B", 128), ("2A", 16), ("3A", 1)]));
    assert_eq!(c.title(), "Computer programming");
}

#[test]
fn a_clone_is_equal_in_every_field() {
    let c = comp1117();
    let d = c.clone();
    assert_eq!(d.code(), c.code());
    assert_eq!(d.title(), c.title());
    assert_eq!(d.prereq(), c.prereq());
    assert_eq!(d.sections(), c.sections());
}

#[test]
fn into_sections_gives_the_sections_up_in_order() {
    assert_eq!(comp1117().into_sections(), sections(&[("1A", 3), ("1B", 12), ("2A", 16)]));
}
