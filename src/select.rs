use vstd::prelude::*;

use crate::timetable::{Activity, Class, Course};

verus! {

/// A pick is a (course index, activity index) pair.
pub open spec fn activity_at(cs: Seq<(&Course, Vec<bool>)>, x: (usize, usize)) -> Activity {
    cs[x.0 as int].0.activities@[x.1 as int]
}

pub open spec fn count(cs: Seq<(&Course, Vec<bool>)>, x: (usize, usize)) -> nat {
    activity_at(cs, x).classes@.len()
}

/// The number of activities of course `i` that its selection flags speak of.
pub open spec fn flagged(cs: Seq<(&Course, Vec<bool>)>, i: int) -> int {
    let a = cs[i].0.activities@.len() as int;
    let f = cs[i].1@.len() as int;
    if a < f {
        a
    } else {
        f
    }
}

/// The selected activities of course `i` among its first `j`.
pub open spec fn picked_in(cs: Seq<(&Course, Vec<bool>)>, i: int, j: int) -> Seq<(usize, usize)>
    decreases j,
{
    if j <= 0 {
        Seq::empty()
    } else if cs[i].1@[j - 1] {
        picked_in(cs, i, j - 1).push((i as usize, (j - 1) as usize))
    } else {
        picked_in(cs, i, j - 1)
    }
}

/// The selected activities of the first `i` courses, in order.
pub open spec fn picked(cs: Seq<(&Course, Vec<bool>)>, i: int) -> Seq<(usize, usize)>
    decreases i,
{
    if i <= 0 {
        Seq::empty()
    } else {
        picked(cs, i - 1) + picked_in(cs, i - 1, flagged(cs, i - 1))
    }
}

/// `x` names an activity of a course of `cs`.
pub open spec fn valid_pick(cs: Seq<(&Course, Vec<bool>)>, x: (usize, usize)) -> bool {
    x.0 < cs.len() && x.1 < cs[x.0 as int].0.activities@.len()
}

/// Puts `x` after every pick with as many options or fewer.
pub open spec fn insert_by_count(cs: Seq<(&Course, Vec<bool>)>, t: Seq<(usize, usize)>, x: (usize, usize)) -> Seq<
    (usize, usize),
>
    decreases t.len(),
{
    if t.len() == 0 {
        seq![x]
    } else if count(cs, t[0]) <= count(cs, x) {
        seq![t[0]] + insert_by_count(cs, t.drop_first(), x)
    } else {
        seq![x] + t
    }
}

/// `s` sorted by option count, picks with equal counts kept in their order.
pub open spec fn by_count(cs: Seq<(&Course, Vec<bool>)>, s: Seq<(usize, usize)>) -> Seq<(usize, usize)>
    decreases s.len(),
{
    if s.len() == 0 {
        Seq::empty()
    } else {
        insert_by_count(cs, by_count(cs, s.drop_last()), s.last())
    }
}

/// The selected activities, in the order of their courses.
pub fn pick_activities(courses: &[(&Course, Vec<bool>)]) -> (r: Vec<(usize, usize)>)
    ensures
        r@ == picked(courses@, courses@.len() as int),
        forall|k: int| 0 <= k < r@.len() ==> valid_pick(courses@, #[trigger] r@[k]),
{
    let mut r: Vec<(usize, usize)> = Vec::new();
    let mut i: usize = 0;
    while i < courses.len()
        invariant
            i <= courses@.len(),
            r@ == picked(courses@, i as int),
            forall|k: int| 0 <= k < r@.len() ==> valid_pick(courses@, #[trigger] r@[k]),
        decreases courses@.len() - i,
    {
        let course: &Course = courses[i].0;
        let flags: &Vec<bool> = &courses[i].1;
        let n: usize = if course.activities.len() < flags.len() {
            course.activities.len()
        } else {
            flags.len()
        };
        let ghost before = r@;
        let mut j: usize = 0;
        while j < n
            invariant
                i < courses@.len(),
                j <= n,
                n == flagged(courses@, i as int),
                *course == *courses@[i as int].0,
                flags@ == courses@[i as int].1@,
                r@ == before + picked_in(courses@, i as int, j as int),
                before == picked(courses@, i as int),
                forall|k: int| 0 <= k < r@.len() ==> valid_pick(courses@, #[trigger] r@[k]),
            decreases n - j,
        {
            if flags[j] {
                r.push((i, j));
            }
            proof {
                assert(r@ =~= before + picked_in(courses@, i as int, j + 1));
            }
            j = j + 1;
        }
        i = i + 1;
    }
    r
}

proof fn lemma_insert_by_count_at(cs: Seq<(&Course, Vec<bool>)>, t: Seq<(usize, usize)>, x: (usize, usize), p: int)
    requires
        0 <= p <= t.len(),
        forall|i: int| 0 <= i < p ==> count(cs, #[trigger] t[i]) <= count(cs, x),
        p == t.len() || count(cs, t[p]) > count(cs, x),
    ensures
        insert_by_count(cs, t, x) == t.take(p) + seq![x] + t.skip(p),
    decreases p,
{
    if p == 0 {
        if t.len() == 0 {
            assert(t.take(0) + seq![x] + t.skip(0) =~= seq![x]);
        } else {
            assert(t.take(0) + seq![x] + t.skip(0) =~= seq![x] + t);
        }
    } else {
        let rest = t.drop_first();
        assert forall|i: int| 0 <= i < p - 1 implies count(cs, #[trigger] rest[i]) <= count(cs, x) by {
            assert(rest[i] == t[i + 1]);
        }
        lemma_insert_by_count_at(cs, rest, x, p - 1);
        assert(seq![t[0]] + (rest.take(p - 1) + seq![x] + rest.skip(p - 1)) =~= t.take(p) + seq![x] + t.skip(p));
    }
}

/// The picks sorted by how many options their activities have; picks with
/// equal counts keep their order.
pub fn sort_by_count(courses: &[(&Course, Vec<bool>)], picks: &Vec<(usize, usize)>) -> (r: Vec<(usize, usize)>)
    requires
        forall|k: int| 0 <= k < picks@.len() ==> valid_pick(courses@, #[trigger] picks@[k]),
    ensures
        r@ == by_count(courses@, picks@),
        forall|k: int| 0 <= k < r@.len() ==> valid_pick(courses@, #[trigger] r@[k]),
{
    let ghost cs = courses@;
    let mut r: Vec<(usize, usize)> = Vec::new();
    let mut i: usize = 0;
    proof {
        assert(picks@.take(0) =~= Seq::<(usize, usize)>::empty());
    }
    while i < picks.len()
        invariant
            cs == courses@,
            i <= picks@.len(),
            forall|k: int| 0 <= k < picks@.len() ==> valid_pick(cs, #[trigger] picks@[k]),
            r@ == by_count(cs, picks@.take(i as int)),
            forall|k: int| 0 <= k < r@.len() ==> valid_pick(cs, #[trigger] r@[k]),
        decreases picks@.len() - i,
    {
        let x = picks[i];
        assert(valid_pick(cs, x));
        let n = courses[x.0].0.activities[x.1].classes.len();
        let mut p: usize = 0;
        while p < r.len() && courses[r[p].0].0.activities[r[p].1].classes.len() <= n
            invariant
                cs == courses@,
                p <= r@.len(),
                n == count(cs, x),
                forall|k: int| 0 <= k < r@.len() ==> valid_pick(cs, #[trigger] r@[k]),
                forall|k: int| 0 <= k < p ==> count(cs, #[trigger] r@[k]) <= n,
            decreases r@.len() - p,
        {
            assert(valid_pick(cs, r@[p as int]));
            p = p + 1;
        }
        proof {
            lemma_insert_by_count_at(cs, r@, x, p as int);
            let t = picks@.take(i as int + 1);
            assert(t.drop_last() =~= picks@.take(i as int));
            assert(t.last() == x);
        }
        let ghost old_r = r@;
        r.insert(p, x);
        proof {
            assert(r@ =~= old_r.take(p as int) + seq![x] + old_r.skip(p as int));
            assert forall|k: int| 0 <= k < r@.len() implies valid_pick(cs, #[trigger] r@[k]) by {
                if k < p {
                    assert(r@[k] == old_r[k]);
                } else if k > p {
                    assert(r@[k] == old_r[k - 1]);
                }
            }
        }
        i = i + 1;
    }
    proof {
        assert(picks@.take(i as int) =~= picks@);
    }
    r
}

/// The product of the option counts of the picks in `s`.
pub open spec fn count_product(cs: Seq<(&Course, Vec<bool>)>, s: Seq<(usize, usize)>) -> nat
    decreases s.len(),
{
    if s.len() == 0 {
        1
    } else {
        count(cs, s[0]) * count_product(cs, s.drop_first())
    }
}

proof fn lemma_product_push(cs: Seq<(&Course, Vec<bool>)>, s: Seq<(usize, usize)>, x: (usize, usize))
    ensures
        count_product(cs, s.push(x)) == count_product(cs, s) * count(cs, x),
    decreases s.len(),
{
    if s.len() == 0 {
        assert(s.push(x).drop_first() =~= Seq::<(usize, usize)>::empty());
        assert(s.push(x)[0] == x);
        assert(count_product(cs, s.push(x).drop_first()) == 1);
        assert(count_product(cs, s) == 1);
        assert(count_product(cs, s.push(x)) == count(cs, x) * count_product(cs, s.push(x).drop_first()));
        assert(count(cs, x) * 1 == 1 * count(cs, x)) by (nonlinear_arith);
    } else {
        assert(s.push(x).drop_first() =~= s.drop_first().push(x));
        assert(s.push(x)[0] == s[0]);
        lemma_product_push(cs, s.drop_first(), x);
        let a = count(cs, s[0]) as int;
        let b = count_product(cs, s.drop_first()) as int;
        let c = count(cs, x) as int;
        assert(a * (b * c) == (a * b) * c) by (nonlinear_arith);
        assert(count_product(cs, s.push(x)) == a * count_product(cs, s.drop_first().push(x)));
        assert(count_product(cs, s) == a * b);
        assert(count_product(cs, s.push(x)) == count_product(cs, s) * count(cs, x));
    }
}

proof fn lemma_product_insert(cs: Seq<(&Course, Vec<bool>)>, t: Seq<(usize, usize)>, x: (usize, usize))
    ensures
        count_product(cs, insert_by_count(cs, t, x)) == count(cs, x) * count_product(cs, t),
    decreases t.len(),
{
    let r = insert_by_count(cs, t, x);
    if t.len() == 0 {
        assert(r.drop_first() =~= Seq::<(usize, usize)>::empty());
        assert(r[0] == x);
        assert(count_product(cs, r.drop_first()) == 1);
    } else if count(cs, t[0]) <= count(cs, x) {
        lemma_product_insert(cs, t.drop_first(), x);
        assert(r.drop_first() =~= insert_by_count(cs, t.drop_first(), x));
        assert(r[0] == t[0]);
        let a = count(cs, t[0]) as int;
        let b = count_product(cs, t.drop_first()) as int;
        let c = count(cs, x) as int;
        assert(a * (c * b) == c * (a * b)) by (nonlinear_arith);
    } else {
        assert(r.drop_first() =~= t);
        assert(r[0] == x);
    }
}

/// Sorting by count keeps the product of the counts.
pub proof fn lemma_product_by_count(cs: Seq<(&Course, Vec<bool>)>, s: Seq<(usize, usize)>)
    ensures
        count_product(cs, by_count(cs, s)) == count_product(cs, s),
    decreases s.len(),
{
    if s.len() > 0 {
        lemma_product_by_count(cs, s.drop_last());
        lemma_product_insert(cs, by_count(cs, s.drop_last()), s.last());
        lemma_product_push(cs, s.drop_last(), s.last());
        assert(s.drop_last().push(s.last()) =~= s);
        let a = count(cs, s.last()) as int;
        let b = count_product(cs, s.drop_last()) as int;
        assert(a * b == b * a) by (nonlinear_arith);
    }
}

proof fn lemma_insert_by_count_len(cs: Seq<(&Course, Vec<bool>)>, t: Seq<(usize, usize)>, x: (usize, usize))
    ensures
        insert_by_count(cs, t, x).len() == t.len() + 1,
    decreases t.len(),
{
    if t.len() > 0 {
        lemma_insert_by_count_len(cs, t.drop_first(), x);
    }
}

/// Sorting by count keeps the number of picks.
pub proof fn lemma_by_count_len(cs: Seq<(&Course, Vec<bool>)>, s: Seq<(usize, usize)>)
    ensures
        by_count(cs, s).len() == s.len(),
    decreases s.len(),
{
    if s.len() > 0 {
        lemma_by_count_len(cs, s.drop_last());
        lemma_insert_by_count_len(cs, by_count(cs, s.drop_last()), s.last());
    }
}

pub open spec fn count_sorted(cs: Seq<(&Course, Vec<bool>)>, t: Seq<(usize, usize)>) -> bool {
    forall|i: int, j: int| 0 <= i < j < t.len() ==> count(cs, #[trigger] t[i]) <= count(cs, #[trigger] t[j])
}

proof fn lemma_insert_by_count_sorted(
    cs: Seq<(&Course, Vec<bool>)>,
    t: Seq<(usize, usize)>,
    x: (usize, usize),
    pred: spec_fn((usize, usize)) -> bool,
)
    requires
        count_sorted(cs, t),
        forall|i: int| 0 <= i < t.len() ==> pred(#[trigger] t[i]),
        pred(x),
    ensures
        count_sorted(cs, insert_by_count(cs, t, x)),
        forall|i: int| 0 <= i < insert_by_count(cs, t, x).len() ==> pred(#[trigger] insert_by_count(cs, t, x)[i]),
    decreases t.len(),
{
    let r = insert_by_count(cs, t, x);
    lemma_insert_by_count_len(cs, t, x);
    if t.len() == 0 {
        assert(r =~= seq![x]);
    } else if count(cs, t[0]) <= count(cs, x) {
        let rest = t.drop_first();
        let head = t[0];
        let pred2 = |y: (usize, usize)| pred(y) && count(cs, head) <= count(cs, y);
        assert forall|i: int| 0 <= i < rest.len() implies pred2(#[trigger] rest[i]) by {
            assert(rest[i] == t[i + 1]);
        }
        assert forall|i: int, j: int| 0 <= i < j < rest.len() implies count(cs, #[trigger] rest[i]) <= count(
            cs,
            #[trigger] rest[j],
        ) by {
            assert(rest[i] == t[i + 1] && rest[j] == t[j + 1]);
        }
        lemma_insert_by_count_sorted(cs, rest, x, pred2);
        let u = insert_by_count(cs, rest, x);
        assert(r == seq![head] + u);
        assert forall|i: int, j: int| 0 <= i < j < r.len() implies count(cs, #[trigger] r[i]) <= count(
            cs,
            #[trigger] r[j],
        ) by {
            assert(r[j] == u[j - 1]);
            assert(pred2(u[j - 1]));
            if i > 0 {
                assert(r[i] == u[i - 1]);
            }
        }
        assert forall|i: int| 0 <= i < r.len() implies pred(#[trigger] r[i]) by {
            if i > 0 {
                assert(r[i] == u[i - 1]);
                assert(pred2(u[i - 1]));
            }
        }
    } else {
        assert(r == seq![x] + t);
        assert forall|i: int, j: int| 0 <= i < j < r.len() implies count(cs, #[trigger] r[i]) <= count(
            cs,
            #[trigger] r[j],
        ) by {
            assert(r[j] == t[j - 1]);
            if i > 0 {
                assert(r[i] == t[i - 1]);
            } else if j - 1 > 0 {
                assert(count(cs, t[0]) <= count(cs, t[j - 1]));
            }
        }
        assert forall|i: int| 0 <= i < r.len() implies pred(#[trigger] r[i]) by {
            if i > 0 {
                assert(r[i] == t[i - 1]);
            }
        }
    }
}

/// The search order is ascending in option count, and takes its picks from
/// the selection.
pub proof fn lemma_by_count_sorted(cs: Seq<(&Course, Vec<bool>)>, s: Seq<(usize, usize)>)
    ensures
        count_sorted(cs, by_count(cs, s)),
        forall|i: int| 0 <= i < by_count(cs, s).len() ==> s.contains(#[trigger] by_count(cs, s)[i]),
    decreases s.len(),
{
    if s.len() > 0 {
        let init = s.drop_last();
        lemma_by_count_sorted(cs, init);
        let t = by_count(cs, init);
        let pred = |y: (usize, usize)| s.contains(y);
        assert forall|i: int| 0 <= i < t.len() implies pred(#[trigger] t[i]) by {
            let k = choose|k: int| 0 <= k < init.len() && init[k] == t[i];
            assert(s[k] == init[k]);
        }
        assert(s[s.len() - 1] == s.last());
        lemma_insert_by_count_sorted(cs, t, s.last(), pred);
    }
}

} // verus!
