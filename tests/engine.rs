use timetable_search::score::eval;
use timetable_search::engine::{search_options, Ranked, KEEP};
use timetable_search::timetable::Class;

fn class(occurrence: u8, day: u8, start: u16, end: u16) -> Class {
    Class { occurrence, day, start, end }
}

fn assert_ranked(results: &[Ranked]) {
    for w in results.windows(2) {
        assert!(
            w[0].score > w[1].score || (w[0].score == w[1].score && w[0].number < w[1].number),
            "results out of order"
        );
    }
}

#[test]
fn no_activities_no_search() {
    let (results, searched, total) = search_options(&vec![]);
    assert!(results.is_empty());
    assert_eq!(searched, 0);
    assert_eq!(total, 0);
}

#[test]
fn single_options_give_single_result() {
    let a = class(1, 0, 9 * 60, 10 * 60);
    let b = class(2, 3, 14 * 60, 16 * 60);
    let c = class(3, 0, 9 * 60 + 30, 10 * 60 + 30);
    let (results, searched, total) = search_options(&vec![vec![a], vec![b], vec![c]]);
    assert_eq!(results.len(), 1);
    assert_eq!(searched, 1);
    assert_eq!(total, 1);
    assert_eq!(results[0].number, 0);
    assert_eq!(results[0].classes, vec![a, b, c]);
    assert_eq!(results[0].score, eval(&[a, b, c]));
}

#[test]
fn total_is_product_of_option_counts() {
    let opts = vec![
        vec![class(1, 0, 600, 660), class(2, 1, 600, 660)],
        vec![class(1, 0, 660, 720), class(2, 2, 660, 720), class(3, 3, 660, 720)],
        vec![class(1, 4, 900, 960)],
    ];
    let (results, searched, total) = search_options(&opts);
    assert_eq!(total, 6);
    assert_eq!(searched, 6);
    assert_eq!(results.len(), 6);
    assert_ranked(&results);
}

#[test]
fn best_assignment_avoids_clash() {
    let lecture = vec![class(1, 0, 600, 660)];
    let tutorial = vec![class(1, 0, 600, 660), class(2, 0, 660, 720)];
    let (results, _, _) = search_options(&vec![lecture, tutorial]);
    assert_eq!(results.len(), 2);
    assert_eq!(results[0].classes[1].occurrence, 2);
    assert_eq!(results[0].score, 80);
    assert_eq!(results[1].score, 80 - 60);
}

#[test]
fn equal_scores_keep_discovery_order() {
    // Both options of the second activity score alike: order follows discovery.
    let first = vec![class(1, 0, 600, 660)];
    let second = vec![class(1, 0, 720, 780), class(2, 0, 780, 840)];
    let (results, _, _) = search_options(&vec![first, second]);
    assert_eq!(results.len(), 2);
    assert_eq!(results[0].score, results[1].score);
    assert_eq!(results[0].number, 0);
    assert_eq!(results[1].number, 1);
    assert_eq!(results[0].classes[1].occurrence, 1);
}

fn many_options() -> Vec<Vec<Class>> {
    let mut opts = Vec::new();
    for a in 0..4u8 {
        let mut o = Vec::new();
        for k in 0..5u16 {
            o.push(class(k as u8 + 1, (a + k as u8) % 5, 480 + 60 * k + 30 * a as u16, 540 + 60 * k + 30 * a as u16));
        }
        opts.push(o);
    }
    opts
}

#[test]
fn results_are_bounded_ranked_and_rescored() {
    let opts = many_options();
    let (results, searched, total) = search_options(&opts);
    assert_eq!(total, 625);
    assert!(searched <= total);
    assert!(results.len() <= KEEP);
    assert!(results.len() <= total);
    assert_eq!(results.len(), KEEP);
    assert_ranked(&results);
    for r in &results {
        assert_eq!(r.classes.len(), opts.len());
        for (i, c) in r.classes.iter().enumerate() {
            assert!(opts[i].contains(c));
        }
        assert_eq!(eval(&r.classes), r.score);
        assert!(r.number < searched);
    }
}

#[test]
fn search_is_deterministic() {
    let opts = many_options();
    let (a, sa, ta) = search_options(&opts);
    let (b, sb, tb) = search_options(&opts);
    assert_eq!((sa, ta), (sb, tb));
    assert_eq!(a.len(), b.len());
    for (x, y) in a.iter().zip(b.iter()) {
        assert_eq!(x.number, y.number);
        assert_eq!(x.score, y.score);
        assert_eq!(x.classes, y.classes);
    }
}
