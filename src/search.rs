use vstd::prelude::*;

use crate::engine::{
    Found, lemma_single_option, only_choice, Ranked, copy_classes, found_of, lemma_results_scored, leaves, options_of, outcome, search_options, total,
};
use crate::score::score;
use crate::select::{
    activity_at, by_count, count, count_product, lemma_by_count_len, lemma_by_count_sorted, lemma_product_by_count, pick_activities,
    picked, sort_by_count, valid_pick,
};
use crate::timetable::{Class, Course, Timetable, TimetableView, classes_wf, entries_view};

verus! {

/// Every selected activity has options, and they are well formed.
pub open spec fn courses_wf(cs: Seq<(&Course, Vec<bool>)>) -> bool {
    forall|k: int|
        0 <= k < selection(cs).len() ==> {
            let a = activity_at(cs, #[trigger] selection(cs)[k]);
            classes_wf(a.classes@) && a.classes@.len() > 0
        }
}

/// The selected activities of all courses.
pub open spec fn selection(cs: Seq<(&Course, Vec<bool>)>) -> Seq<(usize, usize)> {
    picked(cs, cs.len() as int)
}

/// The order in which the search takes the selected activities: fewest
/// options first, ties in course order.
pub open spec fn search_order(cs: Seq<(&Course, Vec<bool>)>) -> Seq<(usize, usize)> {
    by_count(cs, selection(cs))
}

/// The options of the picks in `order`.
pub open spec fn options_for(cs: Seq<(&Course, Vec<bool>)>, order: Seq<(usize, usize)>) -> Seq<Seq<Class>> {
    order.map_values(|x: (usize, usize)| activity_at(cs, x).classes@)
}

/// `a` is at most `b` in lexicographic order of characters, compared from
/// position `i` on.
pub open spec fn chars_le_from(a: Seq<char>, b: Seq<char>, i: int) -> bool
    decreases a.len() - i,
{
    if i < 0 || i >= a.len() {
        true
    } else if i >= b.len() {
        false
    } else if a[i] != b[i] {
        (a[i] as u32) < (b[i] as u32)
    } else {
        chars_le_from(a, b, i + 1)
    }
}

/// `a` sorts before `b` or equals it, as `str` ordering has it.
pub open spec fn chars_le(a: Seq<char>, b: Seq<char>) -> bool {
    chars_le_from(a, b, 0)
}

/// Puts `x` after every entry whose activity name sorts at or before its own.
pub open spec fn insert_by_name(t: Seq<(Seq<char>, Class)>, x: (Seq<char>, Class)) -> Seq<(Seq<char>, Class)>
    decreases t.len(),
{
    if t.len() == 0 {
        seq![x]
    } else if chars_le(t[0].0, x.0) {
        seq![t[0]] + insert_by_name(t.drop_first(), x)
    } else {
        seq![x] + t
    }
}

/// The (activity name, class) pairs that `chosen` gives the activities of
/// course `ci` among the first `p` picks of `order`, sorted by activity name;
/// pairs with equal names keep search order.
pub open spec fn course_entries(
    cs: Seq<(&Course, Vec<bool>)>,
    order: Seq<(usize, usize)>,
    chosen: Seq<Class>,
    ci: int,
    p: int,
) -> Seq<(Seq<char>, Class)>
    decreases p,
{
    if p <= 0 {
        Seq::empty()
    } else if order[p - 1].0 == ci {
        insert_by_name(
            course_entries(cs, order, chosen, ci, p - 1),
            (activity_at(cs, order[p - 1]).name@, chosen[p - 1]),
        )
    } else {
        course_entries(cs, order, chosen, ci, p - 1)
    }
}

/// Whether `a` sorts at or before `b`.
fn name_le(a: &str, b: &str) -> (r: bool)
    ensures
        r == chars_le(a@, b@),
{
    let n = a.unicode_len();
    let m = b.unicode_len();
    let mut i: usize = 0;
    while i < n
        invariant
            n == a@.len(),
            m == b@.len(),
            i <= n,
            chars_le_from(a@, b@, i as int) == chars_le(a@, b@),
        decreases n - i,
    {
        if i >= m {
            return false;
        }
        let x = a.get_char(i);
        let y = b.get_char(i);
        if x != y {
            return (x as u32) < (y as u32);
        }
        i = i + 1;
    }
    true
}

proof fn lemma_insert_by_name_at(t: Seq<(Seq<char>, Class)>, x: (Seq<char>, Class), p: int)
    requires
        0 <= p <= t.len(),
        forall|i: int| 0 <= i < p ==> chars_le((#[trigger] t[i]).0, x.0),
        p == t.len() || !chars_le(t[p].0, x.0),
    ensures
        insert_by_name(t, x) == t.take(p) + seq![x] + t.skip(p),
    decreases p,
{
    if p == 0 {
        if t.len() == 0 {
            assert(t.take(0) + seq![x] + t.skip(0) =~= seq![x]);
        } else {
            assert(t.take(0) + seq![x] + t.skip(0) =~= seq![x] + t);
        }
    } else {
        let rest = t.drop_first();
        assert forall|i: int| 0 <= i < p - 1 implies chars_le((#[trigger] rest[i]).0, x.0) by {
            assert(rest[i] == t[i + 1]);
        }
        lemma_insert_by_name_at(rest, x, p - 1);
        assert(seq![t[0]] + (rest.take(p - 1) + seq![x] + rest.skip(p - 1)) =~= t.take(p) + seq![x] + t.skip(p));
    }
}

/// A result laid out by course: every course in input order, with its code
/// and the classes chosen for its selected activities, by activity name.
pub open spec fn layout(cs: Seq<(&Course, Vec<bool>)>, order: Seq<(usize, usize)>, f: Found) -> TimetableView {
    TimetableView {
        number: f.number,
        score: f.score,
        courses: Seq::new(
            cs.len(),
            |ci: int| (cs[ci].0.code@, course_entries(cs, order, f.classes, ci, order.len() as int)),
        ),
    }
}

fn course_classes(
    courses: &[(&Course, Vec<bool>)],
    order: &Vec<(usize, usize)>,
    chosen: &Vec<Class>,
    ci: usize,
) -> (r: Vec<(String, Class)>)
    requires
        order@.len() == chosen@.len(),
        forall|k: int| 0 <= k < order@.len() ==> valid_pick(courses@, #[trigger] order@[k]),
    ensures
        entries_view(r@) == course_entries(courses@, order@, chosen@, ci as int, order@.len() as int),
{
    let mut r: Vec<(String, Class)> = Vec::new();
    let mut p: usize = 0;
    while p < order.len()
        invariant
            p <= order@.len(),
            order@.len() == chosen@.len(),
            forall|k: int| 0 <= k < order@.len() ==> valid_pick(courses@, #[trigger] order@[k]),
            entries_view(r@) == course_entries(courses@, order@, chosen@, ci as int, p as int),
        decreases order@.len() - p,
    {
        let x = order[p];
        if x.0 == ci {
            assert(valid_pick(courses@, x));
            let name = courses[x.0].0.activities[x.1].name.clone();
            let ghost t = entries_view(r@);
            let ghost e = (name@, chosen@[p as int]);
            let mut q: usize = 0;
            while q < r.len() && name_le(r[q].0.as_str(), name.as_str())
                invariant
                    q <= r@.len(),
                    t == entries_view(r@),
                    forall|k: int| 0 <= k < q ==> chars_le((#[trigger] t[k]).0, name@),
                decreases r@.len() - q,
            {
                q = q + 1;
            }
            proof {
                lemma_insert_by_name_at(t, e, q as int);
            }
            r.insert(q, (name, chosen[p]));
            proof {
                assert(entries_view(r@) =~= t.take(q as int) + seq![e] + t.skip(q as int));
            }
        }
        proof {
            assert(entries_view(r@) =~= course_entries(courses@, order@, chosen@, ci as int, p + 1));
        }
        p = p + 1;
    }
    r
}

fn lay_out(courses: &[(&Course, Vec<bool>)], order: &Vec<(usize, usize)>, found: &Ranked) -> (r: Timetable)
    requires
        order@.len() == found.classes@.len(),
        forall|k: int| 0 <= k < order@.len() ==> valid_pick(courses@, #[trigger] order@[k]),
    ensures
        r@ == layout(courses@, order@, found@),
{
    let mut listed: Vec<(String, Vec<(String, Class)>)> = Vec::new();
    let mut ci: usize = 0;
    while ci < courses.len()
        invariant
            ci <= courses@.len(),
            order@.len() == found.classes@.len(),
            forall|k: int| 0 <= k < order@.len() ==> valid_pick(courses@, #[trigger] order@[k]),
            listed@.len() == ci,
            forall|k: int|
                0 <= k < ci ==> (#[trigger] listed@[k]).0@ == courses@[k].0.code@ && entries_view(listed@[k].1@)
                    == course_entries(courses@, order@, found.classes@, k, order@.len() as int),
        decreases courses@.len() - ci,
    {
        let code = courses[ci].0.code.clone();
        let entries = course_classes(courses, order, &found.classes, ci);
        listed.push((code, entries));
        ci = ci + 1;
    }
    let r = Timetable { number: found.number, score: found.score, courses: listed };
    proof {
        assert(r@.courses =~= layout(courses@, order@, found@).courses);
    }
    r
}

proof fn lemma_leaves_product(cs: Seq<(&Course, Vec<bool>)>, order: Seq<(usize, usize)>, opts: Seq<Seq<Class>>, d: int)
    requires
        opts.len() == order.len(),
        forall|p: int| 0 <= p < opts.len() ==> (#[trigger] opts[p]).len() == count(cs, order[p]),
        0 <= d <= opts.len(),
    ensures
        leaves(opts, d) == count_product(cs, order.skip(d)),
    decreases opts.len() - d,
{
    if d < opts.len() {
        lemma_leaves_product(cs, order, opts, d + 1);
        assert(order.skip(d).drop_first() =~= order.skip(d + 1));
        assert(order.skip(d)[0] == order[d]);
    } else {
        assert(order.skip(d) =~= Seq::<(usize, usize)>::empty());
    }
}

/// Searches the selected activities of the courses (those whose flag is set)
/// and lays each kept result out by course. Returns the results, best first,
/// the number of complete assignments reached, and the number there are.
pub fn search(courses: &[(&Course, Vec<bool>)]) -> (r: (Vec<Timetable>, usize, usize))
    requires
        courses_wf(courses@),
        selection(courses@).len() <= u32::MAX,
        count_product(courses@, selection(courses@)) <= usize::MAX,
    ensures
        r.0@.len() == outcome(options_for(courses@, search_order(courses@))).kept.len(),
        forall|i: int|
            0 <= i < r.0@.len() ==> (#[trigger] r.0@[i])@ == layout(
                courses@,
                search_order(courses@),
                outcome(options_for(courses@, search_order(courses@))).kept[i],
            ),
        r.1 == outcome(options_for(courses@, search_order(courses@))).searched,
        r.2 == total(options_for(courses@, search_order(courses@))),
        selection(courses@).len() == 0 ==> r.0@.len() == 0 && r.1 == 0 && r.2 == 0,
        selection(courses@).len() > 0 ==> r.2 == count_product(courses@, selection(courses@)),
{
    let ghost cs = courses@;
    let picks = pick_activities(courses);
    let order = sort_by_count(courses, &picks);
    proof {
        lemma_by_count_len(cs, picks@);
        lemma_by_count_sorted(cs, picks@);
        lemma_product_by_count(cs, picks@);
    }
    let ghost opts = options_for(cs, order@);
    let mut options: Vec<Vec<Class>> = Vec::new();
    let mut p: usize = 0;
    while p < order.len()
        invariant
            cs == courses@,
            p <= order@.len(),
            forall|k: int| 0 <= k < order@.len() ==> valid_pick(cs, #[trigger] order@[k]),
            opts == options_for(cs, order@),
            opts.len() == order@.len(),
            options@.len() == p,
            forall|k: int| 0 <= k < p ==> (#[trigger] options@[k])@ == opts[k],
        decreases order@.len() - p,
    {
        let x = order[p];
        assert(valid_pick(cs, x));
        let copied = copy_classes(&courses[x.0].0.activities[x.1].classes);
        let ghost before = options@;
        options.push(copied);
        proof {
            assert(opts[p as int] == copied@);
            assert(options@[p as int] == copied);
        }
        p = p + 1;
    }
    proof {
        assert(options_of(options@) =~= opts);
        assert(options_of(options@) == opts);
        assert forall|k: int| 0 <= k < opts.len() implies classes_wf(#[trigger] opts[k]) && opts[k].len() > 0 by {
            let x = order@[k];
            assert(picks@.contains(x));
            let j = choose|j: int| 0 <= j < picks@.len() && picks@[j] == x;
            assert(selection(cs)[j] == x);
            let a = activity_at(cs, x);
            assert(classes_wf(a.classes@) && a.classes@.len() > 0);
        }
        lemma_leaves_product(cs, order@, opts, 0);
        assert(order@.skip(0) =~= order@);
    }
    let (kept, searched, combinations) = search_options(&options);
    let mut laid: Vec<Timetable> = Vec::new();
    let mut i: usize = 0;
    proof {
        lemma_results_scored(opts);
    }
    while i < kept.len()
        invariant
            cs == courses@,
            i <= kept@.len(),
            forall|k: int| 0 <= k < order@.len() ==> valid_pick(cs, #[trigger] order@[k]),
            found_of(kept@) == outcome(opts).kept,
            forall|k: int| 0 <= k < outcome(opts).kept.len() ==> (#[trigger] outcome(opts).kept[k]).classes.len() == opts.len(),
            opts.len() == order@.len(),
            laid@.len() == i,
            forall|k: int| 0 <= k < i ==> (#[trigger] laid@[k])@ == layout(cs, order@, outcome(opts).kept[k]),
        decreases kept@.len() - i,
    {
        assert(kept@[i as int]@ == outcome(opts).kept[i as int]);
        let t = lay_out(courses, &order, &kept[i]);
        laid.push(t);
        i = i + 1;
    }
    (laid, searched, combinations)
}

/// When every selected activity has a single class, the search keeps exactly
/// one result, reached first: the assignment that takes each of those
/// classes, in search order.
pub proof fn lemma_search_single_option(cs: Seq<(&Course, Vec<bool>)>)
    requires
        selection(cs).len() > 0,
        forall|k: int| 0 <= k < selection(cs).len() ==> activity_at(cs, #[trigger] selection(cs)[k]).classes@.len() == 1,
    ensures
        ({
            let order = search_order(cs);
            let c = Seq::new(order.len(), |p: int| activity_at(cs, order[p]).classes@[0]);
            &&& outcome(options_for(cs, order)).kept == seq![Found { number: 0, score: score(c), classes: c }]
            &&& outcome(options_for(cs, order)).searched == 1
            &&& total(options_for(cs, order)) == 1
        }),
{
    let picks = selection(cs);
    let order = search_order(cs);
    let opts = options_for(cs, order);
    lemma_by_count_len(cs, picks);
    lemma_by_count_sorted(cs, picks);
    assert forall|i: int| 0 <= i < opts.len() implies (#[trigger] opts[i]).len() == 1 by {
        let x = order[i];
        assert(picks.contains(x));
        let j = choose|j: int| 0 <= j < picks.len() && picks[j] == x;
    }
    lemma_single_option(opts);
    let c = Seq::new(order.len(), |p: int| activity_at(cs, order[p]).classes@[0]);
    assert(only_choice(opts) =~= c);
}

} // verus!
