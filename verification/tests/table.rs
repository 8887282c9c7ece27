use coursehku::course::{Conflict, Course};
use coursehku::course_map::CourseMap;
use coursehku::serilize::{CourseInfo, CourseList};
use coursehku::table::{contains_pattern, no_conflict_flags, Row};

fn row(code: &str, title: &str, section: &str, session: u64, prereq: &str) -> Row {
    Row {
        code: code.to_string(),
        title: title.to_string(),
        section: section.to_string(),
        session,
        prereq: prereq.to_string(),
    }
}

fn catalogue() -> Vec<Row> {
    vec![
        row("COMP1117", "Computer programming", "1A", 0b0000_0011, ""),
        row("COMP1117", "Computer programming", "1B", 0b0000_1100, ""),
        row("COMP2113", "Programming technologies", "1A", 0b0011_0000, "COMP1117"),
        row("COMP1117", "Computer programming", "2A", 0b0000_0011, ""),
        row("MATH1013", "University mathematics II", "1A", 0b0000_0110, ""),
        row("COMP2113", "Programming technologies", "2B", 0b1100_0000, "COMP1117"),
        row("ENGG1340", "Computer programming II", "2A", 0b0000_1000, "COMP1117&MATH1013"),
    ]
}

fn pairs(list: &[(&str, u64)]) -> Vec<(String, u64)> {
    list.iter().map(|(s, m)| (s.to_string(), *m)).collect()
}

#[test]
fn rows_are_grouped_by_course_in_the_order_of_their_first_row() {
    let map = CourseMap::from_df(&catalogue());
    assert_eq!(
        map.keys(),
        vec![
            "COMP1117".to_string(),
            "COMP2113".to_string(),
            "MATH1013".to_string(),
            "ENGG1340".to_string()
        ]
    );
    assert_eq!(map.course_at(0).sections(), pairs(&[("1A", 3), ("1B", 12), ("2A", 3)]));
    assert_eq!(map.course_at(1).sections(), pairs(&[("1A", 48), ("2B", 192)]));
    assert_eq!(map.course_at(3).prereq(), "COMP1117&MATH1013");
}

#[test]
fn no_rows_give_the_empty_selection() {
    assert!(CourseMap::from_df(&Vec::new()).is_empty());
}

#[test]
fn a_course_takes_title_and_prerequisites_from_its_first_row() {
    let rows = vec![
        row("A", "first", "1", 1, "P"),
        row("A", "second", "2", 2, "Q"),
        row("A", "third", "1", 4, "R"),
    ];
    let map = CourseMap::from_df(&rows);
    assert_eq!(map.len(), 1);
    let a = map.get("A").unwrap();
    assert_eq!(a.code(), "A");
    assert_eq!(a.title(), "first");
    assert_eq!(a.prereq(), "P");
    assert_eq!(a.sections(), pairs(&[("1", 4), ("2", 2)]));
}

#[test]
fn test_course_map() {
    let map = CourseMap::from_df(&catalogue());
    let course = map.get("COMP1117").unwrap();
    assert_eq!(course.title(), "Computer programming");
    assert_eq!(course.len(), 3);
    assert_eq!(map.get_session("COMP1117", "1A"), Some(3));
    assert_eq!(map.get_session("COMP1117", "1B"), Some(12));
}

#[test]
fn test_session() {
    let rows = catalogue();
    let sessions: Vec<u64> = rows.iter().map(|r| r.session).collect();
    let map = CourseMap::from_df(&rows);

    let course = map.get("COMP1117").unwrap().clone();
    assert_eq!(
        no_conflict_flags(&course, &sessions),
        vec![false, false, true, false, false, true, false]
    );

    let mut courses = CourseMap::new(Vec::new());
    courses.add("COMP1117".to_string(), map.get("COMP1117").unwrap().clone());
    courses.add("COMP2113".to_string(), map.get("COMP2113").unwrap().clone());
    assert_eq!(
        no_conflict_flags(&courses, &sessions),
        vec![false, false, false, false, false, false, false]
    );
}

#[test]
fn test_course_code_session() {
    let rows = catalogue();
    let sessions: Vec<u64> = rows.iter().map(|r| r.session).collect();
    let map = CourseMap::from_df(&rows);
    let mut courses = CourseMap::new(Vec::new());
    courses.add("COMP1117".to_string(), map.get("COMP1117").unwrap().only(0));
    assert_eq!(courses.get_session("COMP1117", "1A"), Some(3));
    assert_eq!(courses.get_session("COMP1117", "1B"), None);
    assert_eq!(
        no_conflict_flags(&courses, &sessions),
        vec![false, true, true, false, false, true, true]
    );
    assert_eq!(contains_pattern(&vec!["COMP".to_string()]), "(?i)COMP");
}

#[test]
fn test_course_code() {
    assert_eq!(contains_pattern(&vec!["COMP".to_string()]), "(?i)COMP");
}

#[test]
fn test_get_courses() {
    assert_eq!(
        contains_pattern(&vec!["COMP1117".to_string(), "COMP2113".to_string()]),
        "(?i)COMP1117|COMP2113"
    );
}

#[test]
fn test_lazy() {
    let rows = catalogue();
    let sessions: Vec<u64> = rows.iter().map(|r| r.session).collect();
    assert_eq!(
        contains_pattern(&vec!["COMP".to_string(), "MATH".to_string(), "ENGG".to_string()]),
        "(?i)COMP|MATH|ENGG"
    );
    let course = Course::try_from(CourseMap::from(
        CourseMap::from_df(&rows).get("COMP1117").unwrap().clone(),
    ))
    .unwrap();
    let flags = no_conflict_flags(&course, &sessions);
    for (flag, session) in flags.iter().zip(&sessions) {
        assert_eq!(*flag, !course.conflict_with(*session));
    }
}

#[test]
fn test_serilize() {
    let map = CourseMap::from_df(&catalogue());
    let list = CourseList::from(map);
    assert_eq!(list.courses.len(), 4);
    assert_eq!(list.courses[0].code, "COMP1117");
    assert_eq!(list.courses[0].title, "Computer programming");
    assert_eq!(list.courses[0].sections.len(), 3);
    assert_eq!(list.courses[0].sections[1].section, "1B");
    assert_eq!(list.courses[0].sections[1].session, 12);
    assert_eq!(list.courses[3].code, "ENGG1340");
    assert_eq!(list.courses[3].prereq, "COMP1117&MATH1013");
    assert_eq!(list.courses[3].sections[0].section, "2A");
}

#[test]
fn the_pattern_of_no_code_is_the_bare_flag() {
    assert_eq!(contains_pattern(&Vec::new()), "(?i)");
}

#[test]
fn the_pattern_keeps_empty_codes_as_empty_alternatives() {
    assert_eq!(contains_pattern(&vec!["".to_string(), "A".to_string(), "".to_string()]), "(?i)|A|");
}

#[test]
fn flags_of_no_mask_are_empty() {
    let course = Course::new("A".to_string(), "a".to_string(), pairs(&[("1", 1)]), String::new());
    assert_eq!(no_conflict_flags(&course, &Vec::new()), Vec::<bool>::new());
}

#[test]
fn a_record_holds_the_fields_of_its_course() {
    let course = Course::new(
        "COMP1117".to_string(),
        "Computer programming".to_string(),
        pairs(&[("1A", 3), ("1B", 12)]),
        "NONE".to_string(),
    );
    let info = CourseInfo::from(course);
    assert_eq!(info.code, "COMP1117");
    assert_eq!(info.title, "Computer programming");
    assert_eq!(info.prereq, "NONE");
    let got: Vec<(String, u64)> =
        info.sections.iter().map(|s| (s.section.clone(), s.session)).collect();
    assert_eq!(got, pairs(&[("1A", 3), ("1B", 12)]));
}

#[test]
fn the_list_of_an_empty_selection_is_empty() {
    assert!(CourseList::from(CourseMap::new(Vec::new())).courses.is_empty());
}
