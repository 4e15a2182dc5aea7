use timetable_search::search::search;
use timetable_search::session::{default_session, session_path, sessions, SessionIndex};
use timetable_search::timetable::{Activity, Class, Course, Timetable};

fn class(occurrence: u8, day: u8, start: u16, end: u16) -> Class {
    Class { occurrence, day, start, end }
}

fn activity(name: &str, classes: Vec<Class>) -> Activity {
    Activity { name: name.to_string(), classes }
}

fn comp() -> Course {
    Course {
        code: "COMP1100".to_string(),
        name: "Programming".to_string(),
        activities: vec![
            activity("LecA", vec![class(1, 0, 600, 720)]),
            activity("ComA", vec![class(1, 0, 660, 780), class(2, 1, 600, 720), class(3, 2, 600, 720)]),
        ],
    }
}

fn math() -> Course {
    Course {
        code: "MATH1013".to_string(),
        name: "Mathematics".to_string(),
        activities: vec![
            activity("LecA", vec![class(1, 1, 600, 660), class(2, 1, 660, 720)]),
            activity("TutA", vec![class(4, 3, 840, 900)]),
        ],
    }
}

#[test]
fn nothing_selected_gives_nothing() {
    let c = comp();
    let (results, searched, total) = search(&[(&c, vec![false, false])]);
    assert!(results.is_empty());
    assert_eq!(searched, 0);
    assert_eq!(total, 0);
    let (results, searched, total) = search(&[]);
    assert!(results.is_empty());
    assert_eq!((searched, total), (0, 0));
}

#[test]
fn results_are_listed_by_course() {
    let c = comp();
    let m = math();
    let (results, searched, total) = search(&[(&c, vec![true, true]), (&m, vec![true, false])]);
    assert_eq!(total, 6);
    assert!(searched <= total);
    assert!(!results.is_empty());
    let best = &results[0];
    assert_eq!(best.courses.len(), 2);
    assert_eq!(best.courses[0].0, "COMP1100");
    assert_eq!(best.courses[1].0, "MATH1013");
    assert_eq!(best.courses[0].1.len(), 2);
    assert_eq!(best.courses[1].1.len(), 1);
    assert_eq!(best.courses[1].1[0].0, "LecA");
    // Listed by activity name, though LecA (one option) is searched first.
    assert_eq!(best.courses[0].1[0].0, "ComA");
    assert_eq!(best.courses[0].1[1].0, "LecA");
    for w in results.windows(2) {
        assert!(w[0].score > w[1].score || (w[0].score == w[1].score && w[0].number < w[1].number));
    }
}

#[test]
fn unselected_course_is_listed_empty() {
    let c = comp();
    let m = math();
    let (results, _, total) = search(&[(&c, vec![true]), (&m, vec![])]);
    assert_eq!(total, 1);
    assert_eq!(results.len(), 1);
    assert_eq!(results[0].courses[1].0, "MATH1013");
    assert!(results[0].courses[1].1.is_empty());
}

#[test]
fn url_lists_chosen_classes() {
    let t = Timetable {
        number: 0,
        score: 80,
        courses: vec![
            ("COMP1100".to_string(), vec![("LecA".to_string(), class(1, 0, 600, 720)), ("ComA".to_string(), class(12, 1, 600, 720))]),
            ("ENGN1211".to_string(), vec![]),
            ("MATH1013".to_string(), vec![("TutA".to_string(), class(105, 3, 840, 900))]),
        ],
    };
    assert_eq!(
        t.url("2025", "S1"),
        "https://timetable.cssa.club/?y=2025&s=S1&COMP1100=LecA1,ComA12&MATH1013=TutA105"
    );
}

#[test]
fn url_of_empty_timetable_has_no_query() {
    let t = Timetable { number: 3, score: 100, courses: vec![] };
    assert_eq!(t.url("2024", "S2"), "https://timetable.cssa.club/?y=2024&s=S2");
}

fn index_bytes() -> Vec<u8> {
    let entries = vec![
        ("Semester 1 2025".to_string(), "/timetable_data/2025-S1.bin".to_string()),
        ("Semester 2 2024".to_string(), "/timetable_data/2024-S2.bin".to_string()),
    ];
    postcard::to_allocvec(&entries).unwrap()
}

#[test]
fn index_decodes_and_lists_sessions() {
    let index = SessionIndex::from_bytes(&index_bytes()).unwrap();
    assert_eq!(sessions(&index), vec!["Semester 1 2025".to_string(), "Semester 2 2024".to_string()]);
    assert_eq!(default_session(&index), "Semester 1 2025");
    assert_eq!(session_path(&index, "Semester 2 2024"), "/timetable_data/2024-S2.bin");
    assert_eq!(session_path(&index, "Semester 1 2025"), "/timetable_data/2025-S1.bin");
}

#[test]
fn truncated_index_is_refused() {
    let bytes = index_bytes();
    assert!(SessionIndex::from_bytes(&bytes[..5]).is_none());
}

#[test]
fn empty_index_lists_no_sessions() {
    let index = SessionIndex::from_bytes(&[0]).unwrap();
    assert!(sessions(&index).is_empty());
}

#[test]
fn first_of_equal_names_is_found() {
    let entries = vec![
        ("S1".to_string(), "/a.bin".to_string()),
        ("S1".to_string(), "/b.bin".to_string()),
    ];
    let index = SessionIndex::from_bytes(&postcard::to_allocvec(&entries).unwrap()).unwrap();
    assert_eq!(session_path(&index, "S1"), "/a.bin");
}

#[test]
fn pairs_sorted_by_name_not_option_count() {
    let c = Course {
        code: "ENGN1211".to_string(),
        name: "Engineering".to_string(),
        activities: vec![
            activity("A", vec![class(1, 0, 600, 660), class(2, 1, 600, 660)]),
            activity("B", vec![class(7, 2, 600, 660)]),
        ],
    };
    let (results, searched, total) = search(&[(&c, vec![true, true])]);
    assert_eq!(total, 2);
    assert_eq!(searched, 2);
    for t in &results {
        let names: Vec<&str> = t.courses[0].1.iter().map(|(n, _)| n.as_str()).collect();
        assert_eq!(names, vec!["A", "B"]);
    }
    assert!(results[0].url("2025", "S1").starts_with("https://timetable.cssa.club/?y=2025&s=S1&ENGN1211=A"));
}

#[test]
fn single_options_list_each_class() {
    let c = comp();
    let m = math();
    let (results, searched, total) = search(&[(&c, vec![true, false]), (&m, vec![false, true])]);
    assert_eq!((results.len(), searched, total), (1, 1, 1));
    assert_eq!(results[0].courses[0].1, vec![("LecA".to_string(), class(1, 0, 600, 720))]);
    assert_eq!(results[0].courses[1].1, vec![("TutA".to_string(), class(4, 3, 840, 900))]);
}

#[test]
fn unselected_malformed_activity_is_ignored() {
    let c = Course {
        code: "COMP2100".to_string(),
        name: "Software".to_string(),
        activities: vec![activity("LecA", vec![class(1, 0, 600, 660)]), activity("Dro", vec![])],
    };
    let (results, _, total) = search(&[(&c, vec![true, false])]);
    assert_eq!(total, 1);
    assert_eq!(results.len(), 1);
}
