use coursehku::course::Course;
use coursehku::course_map::CourseMap;

fn course(code: &str, sections: &[(&str, u64)]) -> Course {
    Course::new(
        code.to_string(),
        format!("{} title", code),
        sections.iter().map(|(s, m)| (s.to_string(), *m)).collect(),
        String::new(),
    )
}

fn two_courses() -> CourseMap {
    let mut map = CourseMap::new(Vec::new());
    map.add("A".to_string(), course("A", &[("A1", 0b0001), ("A2", 0b0010)]));
    map.add("B".to_string(), course("B", &[("B1", 0b0001), ("B2", 0b0100)]));
    map
}

fn picks(map: &CourseMap) -> Vec<(String, String, u64)> {
    let mut out = Vec::new();
    for i in 0..map.len() {
        let c = map.course_at(i);
        for j in 0..c.len() {
            out.push((map.code_at(i).clone(), c.section_at(j).clone(), c.session_at(j)));
        }
    }
    out
}

fn pick(code: &str, section: &str, mask: u64) -> (String, String, u64) {
    (code.to_string(), section.to_string(), mask)
}

#[test]
fn two_courses_give_three_timetables_in_search_order() {
    let found = two_courses().keep_no_conflict().unwrap();
    assert_eq!(found.len(), 3);
    assert_eq!(picks(&found[0]), vec![pick("A", "A1", 1), pick("B", "B2", 4)]);
    assert_eq!(picks(&found[1]), vec![pick("A", "A2", 2), pick("B", "B1", 1)]);
    assert_eq!(picks(&found[2]), vec![pick("A", "A2", 2), pick("B", "B2", 4)]);
}

#[test]
fn seeded_search_keeps_only_what_fits_the_seed() {
    let mut seed = CourseMap::new(Vec::new());
    seed.add("Z".to_string(), course("Z", &[("Z1", 0b0010)]));
    let found = two_courses().keep_no_conflict_with(&seed).unwrap();
    assert_eq!(found.len(), 1);
    assert_eq!(
        picks(&found[0]),
        vec![pick("Z", "Z1", 2), pick("A", "A1", 1), pick("B", "B2", 4)]
    );
}

#[test]
fn the_conflicting_pair_is_not_among_the_timetables() {
    let found = two_courses().keep_no_conflict().unwrap();
    let bad = vec![pick("A", "A1", 1), pick("B", "B1", 1)];
    assert!(found.iter().all(|m| picks(m) != bad));
}

#[test]
fn no_course_gives_the_empty_list() {
    let found = CourseMap::new(Vec::new()).keep_no_conflict();
    assert_eq!(found.map(|v| v.len()), Some(0));
    let mut seed = CourseMap::new(Vec::new());
    seed.add("Z".to_string(), course("Z", &[("Z1", 1)]));
    let found = CourseMap::new(Vec::new()).keep_no_conflict_with(&seed);
    assert_eq!(found.map(|v| v.len()), Some(0));
}

#[test]
fn one_course_gives_one_timetable_per_section() {
    let mut map = CourseMap::new(Vec::new());
    map.add("A".to_string(), course("A", &[("A1", 1), ("A2", 1), ("A3", 6)]));
    let found = map.keep_no_conflict().unwrap();
    assert_eq!(found.len(), 3);
    assert_eq!(picks(&found[0]), vec![pick("A", "A1", 1)]);
    assert_eq!(picks(&found[1]), vec![pick("A", "A2", 1)]);
    assert_eq!(picks(&found[2]), vec![pick("A", "A3", 6)]);
}

#[test]
fn courses_that_always_collide_are_infeasible() {
    let mut map = CourseMap::new(Vec::new());
    map.add("A".to_string(), course("A", &[("A1", 0b011), ("A2", 0b110)]));
    map.add("B".to_string(), course("B", &[("B1", 0b010)]));
    assert!(map.keep_no_conflict().is_none());
}

#[test]
fn a_course_without_sections_is_infeasible() {
    let mut map = CourseMap::new(Vec::new());
    map.add("A".to_string(), course("A", &[("A1", 1)]));
    map.add("B".to_string(), course("B", &[]));
    map.add("C".to_string(), course("C", &[("C1", 2)]));
    assert!(map.keep_no_conflict().is_none());
}

#[test]
fn a_seed_that_blocks_every_section_is_infeasible() {
    let mut seed = CourseMap::new(Vec::new());
    seed.add("Z".to_string(), course("Z", &[("Z1", 0b0001), ("Z2", 0b0010)]));
    let mut map = CourseMap::new(Vec::new());
    map.add("A".to_string(), course("A", &[("A1", 0b0001), ("A2", 0b0010)]));
    assert!(map.keep_no_conflict_with(&seed).is_none());
}

#[test]
fn an_early_dead_end_makes_the_whole_search_infeasible() {
    let mut map = CourseMap::new(Vec::new());
    map.add("A".to_string(), course("A", &[("A1", 1)]));
    map.add("B".to_string(), course("B", &[("B1", 1)]));
    for i in 0..40 {
        let code = format!("C{}", i);
        let many: Vec<(String, u64)> = (0..60).map(|j| (format!("S{}", j), 0)).collect();
        map.add(code.clone(), Course::new(code, String::new(), many, String::new()));
    }
    assert!(map.keep_no_conflict().is_none());
}

#[test]
fn the_seed_stays_at_the_front_of_every_timetable() {
    let mut seed = CourseMap::new(Vec::new());
    seed.add("Y".to_string(), course("Y", &[("Y1", 0b1000_0000), ("Y2", 0b0100_0000)]));
    let found = two_courses().keep_no_conflict_with(&seed).unwrap();
    assert_eq!(found.len(), 3);
    for m in &found {
        assert_eq!(m.len(), 3);
        assert_eq!(m.code_at(0), "Y");
        assert_eq!(m.course_at(0).len(), 2);
        assert_eq!(m.code_at(1), "A");
        assert_eq!(m.code_at(2), "B");
    }
}

#[test]
fn a_seed_with_the_code_of_a_course_takes_the_pick_in() {
    let mut seed = CourseMap::new(Vec::new());
    seed.add("A".to_string(), course("A", &[("A0", 0b1000)]));
    let mut map = CourseMap::new(Vec::new());
    map.add("A".to_string(), course("A", &[("A1", 0b0001), ("A2", 0b1000)]));
    let found = map.keep_no_conflict_with(&seed).unwrap();
    assert_eq!(found.len(), 1);
    assert_eq!(picks(&found[0]), vec![pick("A", "A0", 8), pick("A", "A1", 1)]);
}

fn fixture() -> Vec<(String, Vec<(String, u64)>)> {
    let rows: Vec<(&str, Vec<(&str, u64)>)> = vec![
        ("M", vec![("M1", 0b000011), ("M2", 0b001100), ("M3", 0b110000)]),
        ("N", vec![("N1", 0b000001), ("N2", 0b010000), ("N3", 0b000110)]),
        ("Q", vec![("Q1", 0b100000), ("Q2", 0b001000)]),
        ("R", vec![("R1", 0b000010), ("R2", 0b000100), ("R3", 0b1000000)]),
    ];
    rows.into_iter()
        .map(|(c, s)| (c.to_string(), s.into_iter().map(|(n, m)| (n.to_string(), m)).collect()))
        .collect()
}

fn brute_force(courses: &[(String, Vec<(String, u64)>)], seed: u64) -> Vec<Vec<(String, String, u64)>> {
    let mut all: Vec<Vec<(String, String, u64)>> = vec![Vec::new()];
    for (code, sections) in courses {
        let mut next = Vec::new();
        for partial in &all {
            for (name, mask) in sections {
                let mut longer = partial.clone();
                longer.push((code.clone(), name.clone(), *mask));
                next.push(longer);
            }
        }
        all = next;
    }
    all.into_iter()
        .filter(|choice| {
            choice.iter().all(|p| p.2 & seed == 0)
                && (0..choice.len())
                    .all(|i| (i + 1..choice.len()).all(|j| choice[i].2 & choice[j].2 == 0))
        })
        .collect()
}

fn selection(courses: &[(String, Vec<(String, u64)>)]) -> CourseMap {
    let mut map = CourseMap::new(Vec::new());
    for (code, sections) in courses {
        map.add(
            code.clone(),
            Course::new(code.clone(), String::new(), sections.clone(), String::new()),
        );
    }
    map
}

#[test]
fn the_engine_finds_what_brute_force_finds_in_the_same_order() {
    let courses = fixture();
    let expected = brute_force(&courses, 0);
    assert_eq!(expected.len(), 12);
    let found = selection(&courses).keep_no_conflict().unwrap();
    let got: Vec<_> = found.iter().map(picks).collect();
    assert_eq!(got, expected);
}

#[test]
fn the_engine_agrees_with_brute_force_on_every_prefix_and_seed() {
    let courses = fixture();
    for n in 1..=courses.len() {
        for seed_mask in [0u64, 0b000001, 0b001100, 0b111111, 0b1111111] {
            let expected = brute_force(&courses[..n], seed_mask);
            let mut seed = CourseMap::new(Vec::new());
            if seed_mask != 0 {
                seed.add("SEED".to_string(), course("SEED", &[("S", seed_mask)]));
            }
            let found = selection(&courses[..n]).keep_no_conflict_with(&seed);
            match found {
                None => assert!(expected.is_empty()),
                Some(list) => {
                    assert!(!expected.is_empty());
                    let skip = if seed_mask != 0 { 1 } else { 0 };
                    let got: Vec<_> = list.iter().map(|m| picks(m)[skip..].to_vec()).collect();
                    assert_eq!(got, expected);
                }
            }
        }
    }
}

#[test]
fn every_timetable_holds_one_section_per_course_without_overlap() {
    let courses = fixture();
    let found = selection(&courses).keep_no_conflict().unwrap();
    for m in &found {
        assert_eq!(m.len(), courses.len());
        let mut taken = 0u64;
        for (i, (code, sections)) in courses.iter().enumerate() {
            assert_eq!(m.code_at(i), code);
            let c = m.course_at(i);
            assert_eq!(c.len(), 1);
            assert!(sections.contains(&(c.section_at(0).clone(), c.session_at(0))));
            assert_eq!(taken & c.session_at(0), 0);
            taken |= c.session_at(0);
        }
        assert_eq!(m.occupancy(), taken);
        assert_eq!(
            taken.count_ones(),
            (0..m.len()).map(|i| m.course_at(i).session_at(0).count_ones()).sum::<u32>()
        );
    }
}

#[test]
fn no_timetable_is_listed_twice() {
    let found = selection(&fixture()).keep_no_conflict().unwrap();
    let got: Vec<_> = found.iter().map(picks).collect();
    for i in 0..got.len() {
        for j in i + 1..got.len() {
            assert_ne!(got[i], got[j]);
        }
    }
}

#[test]
fn the_search_gives_the_same_list_every_time() {
    let first: Vec<_> = selection(&fixture()).keep_no_conflict().unwrap().iter().map(picks).collect();
    let second: Vec<_> = selection(&fixture()).keep_no_conflict().unwrap().iter().map(picks).collect();
    assert_eq!(first, second);
}

#[test]
fn a_pick_keeps_the_title_and_prerequisites_of_its_course() {
    let mut map = CourseMap::new(Vec::new());
    map.add(
        "COMP2113".to_string(),
        Course::new(
            "COMP2113".to_string(),
            "Programming technologies".to_string(),
            vec![("1A".to_string(), 3), ("2A".to_string(), 12)],
            "COMP1117".to_string(),
        ),
    );
    let found = map.keep_no_conflict().unwrap();
    assert_eq!(found.len(), 2);
    let c = found[1].get("COMP2113").unwrap();
    assert_eq!(c.title(), "Programming technologies");
    assert_eq!(c.prereq(), "COMP1117");
    assert_eq!(c.sections(), vec![("2A".to_string(), 12)]);
}
