use vstd::prelude::*;

use crate::score::{eval, lemma_score_bound, score};
use crate::timetable::{Class, classes_wf};

verus! {

/// How many of the best complete assignments a search keeps.
pub const KEEP: usize = 25;

/// A partial assignment is dropped once it trails the worst kept result by
/// more than this many points.
pub const MARGIN: i64 = 10;

/// A complete assignment that a search kept.
pub struct Ranked {
    /// Position of the assignment among all complete ones that the search
    /// reached, counting from 0.
    pub number: usize,
    pub score: i64,
    /// One class per activity, in the order of the activities searched.
    pub classes: Vec<Class>,
}

/// What a kept result stands for.
pub struct Found {
    pub number: nat,
    pub score: int,
    pub classes: Seq<Class>,
}

impl View for Ranked {
    type V = Found;

    open spec fn view(&self) -> Found {
        Found { number: self.number as nat, score: self.score as int, classes: self.classes@ }
    }
}

/// The state of a search: the results kept, best first, and how many
/// complete assignments were reached.
pub struct Progress {
    pub kept: Seq<Found>,
    pub searched: nat,
}

pub open spec fn found_of(v: Seq<Ranked>) -> Seq<Found> {
    v.map_values(|r: Ranked| r@)
}

pub open spec fn options_of(v: Seq<Vec<Class>>) -> Seq<Seq<Class>> {
    v.map_values(|o: Vec<Class>| o@)
}

/// Puts `f` after every kept result that scores at least as much.
pub open spec fn insert_found(kept: Seq<Found>, f: Found) -> Seq<Found>
    decreases kept.len(),
{
    if kept.len() == 0 {
        seq![f]
    } else if kept[0].score >= f.score {
        seq![kept[0]] + insert_found(kept.drop_first(), f)
    } else {
        seq![f] + kept
    }
}

/// Keeps the first `KEEP` results.
pub open spec fn retain(kept: Seq<Found>) -> Seq<Found> {
    if kept.len() > KEEP {
        kept.take(KEEP as int)
    } else {
        kept
    }
}

/// A partial assignment scoring `s` is abandoned when the kept results are
/// full and the worst of them is more than `MARGIN` ahead.
pub open spec fn pruned(kept: Seq<Found>, s: int) -> bool {
    kept.len() >= KEEP && kept.last().score > s + MARGIN
}

/// Records the complete assignment `chosen`.
pub open spec fn record(st: Progress, chosen: Seq<Class>) -> Progress {
    Progress {
        kept: retain(
            insert_found(st.kept, Found { number: st.searched, score: score(chosen), classes: chosen }),
        ),
        searched: st.searched + 1,
    }
}

/// Depth-first search below the partial assignment `prefix`.
pub open spec fn explore(opts: Seq<Seq<Class>>, prefix: Seq<Class>, st: Progress) -> Progress
    decreases opts.len() - prefix.len(), 1nat, 0int,
{
    if pruned(st.kept, score(prefix)) {
        st
    } else if prefix.len() >= opts.len() {
        record(st, prefix)
    } else {
        explore_from(opts, prefix, 0, st)
    }
}

/// Tries the options of the next activity from the `j`-th on, in order.
pub open spec fn explore_from(opts: Seq<Seq<Class>>, prefix: Seq<Class>, j: int, st: Progress) -> Progress
    decreases opts.len() - prefix.len(), 0nat, opts[prefix.len() as int].len() - j,
    when prefix.len() < opts.len() && 0 <= j
{
    if j >= opts[prefix.len() as int].len() {
        st
    } else {
        explore_from(opts, prefix, j + 1, explore(opts, prefix.push(opts[prefix.len() as int][j]), st))
    }
}

/// Number of complete assignments below depth `d`: the product of the option
/// counts of the activities from the `d`-th on.
pub open spec fn leaves(opts: Seq<Seq<Class>>, d: int) -> nat
    decreases opts.len() - d,
{
    if 0 <= d < opts.len() {
        opts[d].len() * leaves(opts, d + 1int)
    } else {
        1
    }
}

/// All options of every activity are well formed.
pub open spec fn options_wf(opts: Seq<Seq<Class>>) -> bool {
    forall|i: int| 0 <= i < opts.len() ==> classes_wf(#[trigger] opts[i])
}

proof fn lemma_explore_count(opts: Seq<Seq<Class>>, prefix: Seq<Class>, st: Progress)
    requires
        prefix.len() <= opts.len(),
    ensures
        st.searched <= explore(opts, prefix, st).searched <= st.searched + leaves(opts, prefix.len() as int),
    decreases opts.len() - prefix.len(), 1nat, 0int,
{
    if pruned(st.kept, score(prefix)) {
    } else if prefix.len() >= opts.len() {
    } else {
        lemma_explore_from_count(opts, prefix, 0, st);
    }
}

proof fn lemma_explore_from_count(opts: Seq<Seq<Class>>, prefix: Seq<Class>, j: int, st: Progress)
    requires
        prefix.len() < opts.len(),
        0 <= j <= opts[prefix.len() as int].len(),
    ensures
        st.searched <= explore_from(opts, prefix, j, st).searched,
        explore_from(opts, prefix, j, st).searched <= st.searched + (opts[prefix.len() as int].len() - j)
            * leaves(opts, prefix.len() + 1int),
    decreases opts.len() - prefix.len(), 0nat, opts[prefix.len() as int].len() - j,
{
    let d = prefix.len() as int;
    let n = opts[d].len() as int;
    let l = leaves(opts, d + 1int) as int;
    if j < n {
        let next = prefix.push(opts[d][j]);
        lemma_explore_count(opts, next, st);
        let mid = explore(opts, next, st);
        lemma_explore_from_count(opts, prefix, j + 1, mid);
        assert((n - j) * l == (n - (j + 1)) * l + l) by (nonlinear_arith);
    }
}

/// A copy of `v`.
pub(crate) fn copy_classes(v: &Vec<Class>) -> (r: Vec<Class>)
    ensures
        r@ == v@,
{
    let mut r: Vec<Class> = Vec::new();
    let mut i: usize = 0;
    while i < v.len()
        invariant
            i <= v@.len(),
            r@ == v@.take(i as int),
        decreases v@.len() - i,
    {
        proof {
            assert(v@.take(i as int + 1) =~= v@.take(i as int).push(v@[i as int]));
        }
        r.push(v[i]);
        i = i + 1;
    }
    proof {
        assert(v@.take(i as int) =~= v@);
    }
    r
}

proof fn lemma_insert_at(kept: Seq<Found>, f: Found, p: int)
    requires
        0 <= p <= kept.len(),
        forall|i: int| 0 <= i < p ==> kept[i].score >= f.score,
        p == kept.len() || kept[p].score < f.score,
    ensures
        insert_found(kept, f) == kept.take(p) + seq![f] + kept.skip(p),
    decreases p,
{
    if p == 0 {
        if kept.len() == 0 {
            assert(kept.take(0) + seq![f] + kept.skip(0) =~= seq![f]);
        } else {
            assert(kept.take(0) + seq![f] + kept.skip(0) =~= seq![f] + kept);
        }
    } else {
        let rest = kept.drop_first();
        assert forall|i: int| 0 <= i < p - 1 implies rest[i].score >= f.score by {
            assert(kept[i + 1].score >= f.score);
        }
        lemma_insert_at(rest, f, p - 1);
        assert(seq![kept[0]] + (rest.take(p - 1) + seq![f] + rest.skip(p - 1)) =~= kept.take(p) + seq![f]
            + kept.skip(p));
    }
}

/// Records the complete assignment `current`, which scores `s`.
fn record_found(current: &Vec<Class>, s: i64, kept: &mut Vec<Ranked>, searched: &mut usize)
    requires
        s == score(current@),
        *old(searched) < usize::MAX,
    ensures
        (Progress { kept: found_of(final(kept)@), searched: *final(searched) as nat }) == record(
            Progress { kept: found_of(old(kept)@), searched: *old(searched) as nat },
            current@,
        ),
{
    let ghost f = Found { number: *searched as nat, score: s as int, classes: current@ };
    let ghost before = found_of(kept@);
    let mut p: usize = 0;
    while p < kept.len() && kept[p].score >= s
        invariant
            p <= kept@.len(),
            before == found_of(kept@),
            forall|i: int| 0 <= i < p ==> #[trigger] kept@[i].score >= s,
        decreases kept@.len() - p,
    {
        p = p + 1;
    }
    proof {
        lemma_insert_at(before, f, p as int);
    }
    let r = Ranked { number: *searched, score: s, classes: copy_classes(current) };
    assert(r@ == f);
    kept.insert(p, r);
    assert(found_of(kept@) =~= insert_found(before, f));
    kept.truncate(KEEP);
    assert(found_of(kept@) =~= retain(insert_found(before, f)));
    *searched = *searched + 1;
}

/// Searches below the partial assignment `current`.
fn descend(options: &Vec<Vec<Class>>, current: &mut Vec<Class>, kept: &mut Vec<Ranked>, searched: &mut usize)
    requires
        old(current)@.len() <= options@.len(),
        options@.len() <= u32::MAX,
        options_wf(options_of(options@)),
        classes_wf(old(current)@),
        *old(searched) + leaves(options_of(options@), old(current)@.len() as int) <= usize::MAX,
    ensures
        final(current)@ == old(current)@,
        (Progress { kept: found_of(final(kept)@), searched: *final(searched) as nat }) == explore(
            options_of(options@),
            old(current)@,
            Progress { kept: found_of(old(kept)@), searched: *old(searched) as nat },
        ),
    decreases options@.len() - old(current)@.len(),
{
    let ghost opts = options_of(options@);
    let ghost prefix = current@;
    let ghost st0 = Progress { kept: found_of(kept@), searched: *searched as nat };
    let s = eval(current.as_slice());
    proof {
        lemma_score_bound(current@);
    }
    let n = kept.len();
    if n >= KEEP && kept[n - 1].score > s + MARGIN {
        return;
    }
    if current.len() >= options.len() {
        record_found(current, s, kept, searched);
        return;
    }
    let d = current.len();
    proof {
        assert(opts[d as int] == options@[d as int]@);
    }
    let mut j: usize = 0;
    while j < options[d].len()
        invariant
            opts == options_of(options@),
            options_wf(opts),
            options@.len() <= u32::MAX,
            d < options@.len(),
            prefix.len() == d,
            old(current)@ == prefix,
            current@ == prefix,
            classes_wf(prefix),
            !pruned(st0.kept, score(prefix)),
            j <= options@[d as int]@.len(),
            opts[d as int] == options@[d as int]@,
            explore_from(opts, prefix, j as int, Progress { kept: found_of(kept@), searched: *searched as nat })
                == explore_from(opts, prefix, 0, st0),
            *searched + (opts[d as int].len() - j) * leaves(opts, d + 1int) <= usize::MAX,
        decreases options@[d as int]@.len() - j,
    {
        let ghost st = Progress { kept: found_of(kept@), searched: *searched as nat };
        let c = options[d][j];
        proof {
            assert(classes_wf(opts[d as int]));
            assert(opts[d as int][j as int] == c);
        }
        current.push(c);
        proof {
            let l = leaves(opts, d + 1int) as int;
            let m = opts[d as int].len() as int;
            assert((m - j) * l == (m - (j + 1)) * l + l) by (nonlinear_arith);
            assert((m - (j + 1)) * l >= 0) by (nonlinear_arith)
                requires
                    m - (j + 1) >= 0,
                    l >= 0,
            ;
            assert(current@ =~= prefix.push(c));
            assert(options@.len() - current@.len() < options@.len() - prefix.len());
        }
        descend(options, current, kept, searched);
        proof {
            lemma_explore_count(opts, prefix.push(c), st);
        }
        current.pop();
        proof {
            assert(current@ =~= prefix);
        }
        j = j + 1;
    }
}

/// `a` comes before `b`: it scores more, or as much and was reached first.
pub open spec fn ranked_before(a: Found, b: Found) -> bool {
    a.score > b.score || (a.score == b.score && a.number < b.number)
}

pub open spec fn ranked(kept: Seq<Found>) -> bool {
    forall|i: int, j: int| 0 <= i < j < kept.len() ==> ranked_before(#[trigger] kept[i], #[trigger] kept[j])
}

/// `c` takes one of its options for each of the first `c.len()` activities.
pub open spec fn is_partial(opts: Seq<Seq<Class>>, c: Seq<Class>) -> bool {
    &&& c.len() <= opts.len()
    &&& forall|i: int| 0 <= i < c.len() ==> opts[i].contains(#[trigger] c[i])
}

/// `c` takes one of its options for every activity.
pub open spec fn is_choice(opts: Seq<Seq<Class>>, c: Seq<Class>) -> bool {
    c.len() == opts.len() && is_partial(opts, c)
}

/// A kept result: reached before the `searched`-th, scored as its classes
/// score, and a complete assignment.
pub open spec fn found_ok(opts: Seq<Seq<Class>>, searched: nat, f: Found) -> bool {
    &&& f.number < searched
    &&& f.score == score(f.classes)
    &&& is_choice(opts, f.classes)
}

/// What holds of the state at every step of a search.
pub open spec fn progress_ok(opts: Seq<Seq<Class>>, st: Progress) -> bool {
    &&& st.kept.len() <= KEEP
    &&& st.kept.len() <= st.searched
    &&& ranked(st.kept)
    &&& forall|i: int| 0 <= i < st.kept.len() ==> found_ok(opts, st.searched, #[trigger] st.kept[i])
}

proof fn lemma_insert_found(kept: Seq<Found>, f: Found, pred: spec_fn(Found) -> bool)
    requires
        ranked(kept),
        forall|i: int| 0 <= i < kept.len() ==> (#[trigger] kept[i]).number < f.number,
        forall|i: int| 0 <= i < kept.len() ==> pred(#[trigger] kept[i]),
        pred(f),
    ensures
        insert_found(kept, f).len() == kept.len() + 1,
        ranked(insert_found(kept, f)),
        forall|i: int| 0 <= i < insert_found(kept, f).len() ==> pred(#[trigger] insert_found(kept, f)[i]),
    decreases kept.len(),
{
    let r = insert_found(kept, f);
    if kept.len() == 0 {
        assert(r =~= seq![f]);
    } else if kept[0].score >= f.score {
        let rest = kept.drop_first();
        assert forall|i: int, j: int| 0 <= i < j < rest.len() implies ranked_before(#[trigger] rest[i], #[trigger] rest[j]) by {
            assert(ranked_before(kept[i + 1], kept[j + 1]));
        }
        let head = kept[0];
        let pred2 = |x: Found| pred(x) && ranked_before(head, x);
        assert forall|i: int| 0 <= i < rest.len() implies (#[trigger] rest[i]).number < f.number && pred2(rest[i]) by {
            assert(kept[i + 1] == rest[i]);
            assert(ranked_before(kept[0], kept[i + 1]));
        }
        lemma_insert_found(rest, f, pred2);
        let t = insert_found(rest, f);
        assert(r == seq![kept[0]] + t);
        assert forall|i: int| 0 <= i < t.len() implies ranked_before(kept[0], #[trigger] t[i]) by {
            assert(pred2(t[i]));
        }
        assert forall|i: int, j: int| 0 <= i < j < r.len() implies ranked_before(#[trigger] r[i], #[trigger] r[j]) by {
            if i == 0 {
                assert(r[j] == t[j - 1]);
            } else {
                assert(r[i] == t[i - 1] && r[j] == t[j - 1]);
            }
        }
        assert forall|i: int| 0 <= i < r.len() implies pred(#[trigger] r[i]) by {
            if i > 0 {
                assert(r[i] == t[i - 1]);
            }
        }
    } else {
        assert(r == seq![f] + kept);
        assert forall|i: int, j: int| 0 <= i < j < r.len() implies ranked_before(#[trigger] r[i], #[trigger] r[j]) by {
            if i == 0 {
                assert(r[j] == kept[j - 1]);
                if j - 1 > 0 {
                    assert(ranked_before(kept[0], kept[j - 1]));
                }
            } else {
                assert(r[i] == kept[i - 1] && r[j] == kept[j - 1]);
            }
        }
        assert forall|i: int| 0 <= i < r.len() implies pred(#[trigger] r[i]) by {
            if i > 0 {
                assert(r[i] == kept[i - 1]);
            }
        }
    }
}

proof fn lemma_record_ok(opts: Seq<Seq<Class>>, st: Progress, c: Seq<Class>)
    requires
        progress_ok(opts, st),
        is_choice(opts, c),
    ensures
        progress_ok(opts, record(st, c)),
{
    let f = Found { number: st.searched, score: score(c), classes: c };
    let n = st.searched + 1;
    let pred = |x: Found| found_ok(opts, n, x);
    assert forall|i: int| 0 <= i < st.kept.len() implies pred(#[trigger] st.kept[i]) by {
        assert(found_ok(opts, st.searched, st.kept[i]));
    }
    lemma_insert_found(st.kept, f, pred);
    let ins = insert_found(st.kept, f);
    let r = record(st, c);
    assert(r.kept == retain(ins));
    assert forall|i: int| 0 <= i < r.kept.len() implies found_ok(opts, r.searched, #[trigger] r.kept[i]) by {
        assert(r.kept[i] == ins[i]);
        assert(pred(ins[i]));
    }
    assert forall|i: int, j: int| 0 <= i < j < r.kept.len() implies ranked_before(#[trigger] r.kept[i], #[trigger] r.kept[j]) by {
        assert(r.kept[i] == ins[i] && r.kept[j] == ins[j]);
    }
}

proof fn lemma_explore_ok(opts: Seq<Seq<Class>>, prefix: Seq<Class>, st: Progress)
    requires
        is_partial(opts, prefix),
        progress_ok(opts, st),
    ensures
        progress_ok(opts, explore(opts, prefix, st)),
    decreases opts.len() - prefix.len(), 1nat, 0int,
{
    if pruned(st.kept, score(prefix)) {
    } else if prefix.len() >= opts.len() {
        lemma_record_ok(opts, st, prefix);
    } else {
        lemma_explore_from_ok(opts, prefix, 0, st);
    }
}

proof fn lemma_explore_from_ok(opts: Seq<Seq<Class>>, prefix: Seq<Class>, j: int, st: Progress)
    requires
        is_partial(opts, prefix),
        prefix.len() < opts.len(),
        0 <= j <= opts[prefix.len() as int].len(),
        progress_ok(opts, st),
    ensures
        progress_ok(opts, explore_from(opts, prefix, j, st)),
    decreases opts.len() - prefix.len(), 0nat, opts[prefix.len() as int].len() - j,
{
    let d = prefix.len() as int;
    if j < opts[d].len() {
        let next = prefix.push(opts[d][j]);
        assert forall|i: int| 0 <= i < next.len() implies opts[i].contains(#[trigger] next[i]) by {
            if i < d {
                assert(next[i] == prefix[i]);
            } else {
                assert(next[i] == opts[d][j]);
            }
        }
        lemma_explore_ok(opts, next, st);
        lemma_explore_from_ok(opts, prefix, j + 1, explore(opts, next, st));
    }
}

/// No activity is without options.
pub open spec fn options_nonempty(opts: Seq<Seq<Class>>) -> bool {
    forall|i: int| 0 <= i < opts.len() ==> (#[trigger] opts[i]).len() > 0
}

/// The number of complete assignments: the product of the option counts, or 0
/// when there are no activities.
pub open spec fn total(opts: Seq<Seq<Class>>) -> nat {
    if opts.len() == 0 {
        0
    } else {
        leaves(opts, 0)
    }
}

pub open spec fn start() -> Progress {
    Progress { kept: Seq::empty(), searched: 0 }
}

/// The search over `opts`: nothing when there are no activities, else the
/// depth-first search from the empty assignment.
pub open spec fn outcome(opts: Seq<Seq<Class>>) -> Progress {
    if opts.len() == 0 {
        start()
    } else {
        explore(opts, Seq::empty(), start())
    }
}

proof fn lemma_leaves_positive(opts: Seq<Seq<Class>>, d: int)
    requires
        options_nonempty(opts),
    ensures
        leaves(opts, d) >= 1,
    decreases opts.len() - d,
{
    if 0 <= d < opts.len() {
        lemma_leaves_positive(opts, d + 1);
        assert(opts[d].len() * leaves(opts, d + 1) >= 1) by (nonlinear_arith)
            requires
                opts[d].len() >= 1,
                leaves(opts, d + 1) >= 1,
        ;
    }
}

proof fn lemma_leaves_shrink(opts: Seq<Seq<Class>>, d: int)
    requires
        options_nonempty(opts),
        0 <= d <= opts.len(),
    ensures
        leaves(opts, d) <= leaves(opts, 0),
    decreases d,
{
    if d > 0 {
        lemma_leaves_shrink(opts, d - 1);
        lemma_leaves_positive(opts, d);
        assert(opts[d - 1].len() * leaves(opts, d) >= leaves(opts, d)) by (nonlinear_arith)
            requires
                opts[d - 1].len() >= 1,
                leaves(opts, d) >= 1,
        ;
    }
}

/// Searches the assignments of one option per activity, taking the activities
/// in the order given, and returns the best ones kept, best first, with the
/// number of complete assignments reached and the number there are.
pub fn search_options(options: &Vec<Vec<Class>>) -> (r: (Vec<Ranked>, usize, usize))
    requires
        options_wf(options_of(options@)),
        options_nonempty(options_of(options@)),
        options@.len() <= u32::MAX,
        leaves(options_of(options@), 0) <= usize::MAX,
    ensures
        found_of(r.0@) == outcome(options_of(options@)).kept,
        r.1 == outcome(options_of(options@)).searched,
        r.2 == total(options_of(options@)),
        options@.len() == 0 ==> r.0@.len() == 0 && r.1 == 0 && r.2 == 0,
{
    let ghost opts = options_of(options@);
    if options.len() == 0 {
        let kept: Vec<Ranked> = Vec::new();
        proof {
            assert(found_of(kept@) =~= Seq::<Found>::empty());
        }
        return (kept, 0, 0);
    }
    let mut combinations: usize = 1;
    let mut i: usize = options.len();
    while i > 0
        invariant
            i <= options@.len(),
            opts == options_of(options@),
            options_nonempty(opts),
            leaves(opts, 0) <= usize::MAX,
            combinations == leaves(opts, i as int),
        decreases i,
    {
        proof {
            lemma_leaves_shrink(opts, i - 1);
            assert(opts[i - 1] == options@[i - 1]@);
        }
        combinations = options[i - 1].len() * combinations;
        i = i - 1;
    }
    let mut kept: Vec<Ranked> = Vec::new();
    let mut searched: usize = 0;
    let mut current: Vec<Class> = Vec::new();
    proof {
        assert(found_of(kept@) =~= Seq::<Found>::empty());
        assert(current@ =~= Seq::<Class>::empty());
    }
    descend(options, &mut current, &mut kept, &mut searched);
    (kept, searched, combinations)
}

/// The kept results are at most `KEEP`, and no more than there are complete
/// assignments.
pub proof fn lemma_results_bounded(opts: Seq<Seq<Class>>)
    requires
        options_nonempty(opts),
    ensures
        outcome(opts).kept.len() <= KEEP,
        outcome(opts).kept.len() <= outcome(opts).searched,
        outcome(opts).searched <= total(opts),
        outcome(opts).kept.len() <= total(opts),
{
    lemma_outcome_ok(opts);
    if opts.len() > 0 {
        lemma_explore_count(opts, Seq::empty(), start());
    }
}

proof fn lemma_outcome_ok(opts: Seq<Seq<Class>>)
    ensures
        progress_ok(opts, outcome(opts)),
{
    if opts.len() > 0 {
        lemma_explore_ok(opts, Seq::empty(), start());
    }
}

/// The results come best score first, and among equal scores in the order in
/// which the search reached them.
pub proof fn lemma_results_ranked(opts: Seq<Seq<Class>>)
    ensures
        forall|i: int, j: int|
            0 <= i < j < outcome(opts).kept.len() ==> {
                let a = #[trigger] outcome(opts).kept[i];
                let b = #[trigger] outcome(opts).kept[j];
                a.score > b.score || (a.score == b.score && a.number < b.number)
            },
{
    lemma_outcome_ok(opts);
}

/// Each result's score is the score of its classes, and its classes take one
/// option of each activity, in order.
pub proof fn lemma_results_scored(opts: Seq<Seq<Class>>)
    ensures
        forall|i: int|
            0 <= i < outcome(opts).kept.len() ==> {
                let f = #[trigger] outcome(opts).kept[i];
                &&& f.score == score(f.classes)
                &&& f.classes.len() == opts.len()
                &&& forall|k: int| 0 <= k < opts.len() ==> opts[k].contains(#[trigger] f.classes[k])
            },
{
    lemma_outcome_ok(opts);
    assert forall|i: int| 0 <= i < outcome(opts).kept.len() implies {
        let f = #[trigger] outcome(opts).kept[i];
        &&& f.score == score(f.classes)
        &&& f.classes.len() == opts.len()
        &&& forall|k: int| 0 <= k < opts.len() ==> opts[k].contains(#[trigger] f.classes[k])
    } by {
        assert(found_ok(opts, outcome(opts).searched, outcome(opts).kept[i]));
    }
}

/// The only assignment when every activity has a single option.
pub open spec fn only_choice(opts: Seq<Seq<Class>>) -> Seq<Class> {
    Seq::new(opts.len(), |i: int| opts[i][0])
}

proof fn lemma_single_explore(opts: Seq<Seq<Class>>, prefix: Seq<Class>, st: Progress)
    requires
        forall|i: int| 0 <= i < opts.len() ==> (#[trigger] opts[i]).len() == 1,
        prefix.len() <= opts.len(),
        forall|i: int| 0 <= i < prefix.len() ==> #[trigger] prefix[i] == opts[i][0],
        st.kept.len() == 0,
    ensures
        explore(opts, prefix, st) == (Progress {
            kept: seq![Found { number: st.searched, score: score(only_choice(opts)), classes: only_choice(opts) }],
            searched: st.searched + 1,
        }),
    decreases opts.len() - prefix.len(),
{
    if prefix.len() >= opts.len() {
        assert(prefix =~= only_choice(opts));
        let f = Found { number: st.searched, score: score(prefix), classes: prefix };
        assert(insert_found(st.kept, f) == seq![f]);
    } else {
        let d = prefix.len() as int;
        let next = prefix.push(opts[d][0]);
        assert forall|i: int| 0 <= i < next.len() implies #[trigger] next[i] == opts[i][0] by {
            if i < d {
                assert(next[i] == prefix[i]);
            }
        }
        lemma_single_explore(opts, next, st);
        let mid = explore(opts, next, st);
        assert(explore_from(opts, prefix, 1, mid) == mid);
        assert(explore_from(opts, prefix, 0, st) == explore_from(opts, prefix, 1, mid));
    }
}

/// With a single option per activity there is exactly one result: that
/// assignment, reached first and alone.
pub proof fn lemma_single_option(opts: Seq<Seq<Class>>)
    requires
        opts.len() > 0,
        forall|i: int| 0 <= i < opts.len() ==> (#[trigger] opts[i]).len() == 1,
    ensures
        outcome(opts).kept == seq![Found { number: 0, score: score(only_choice(opts)), classes: only_choice(opts) }],
        outcome(opts).searched == 1,
        total(opts) == 1,
{
    lemma_single_explore(opts, Seq::empty(), start());
    lemma_single_leaves(opts, 0);
}

proof fn lemma_single_leaves(opts: Seq<Seq<Class>>, d: int)
    requires
        forall|i: int| 0 <= i < opts.len() ==> (#[trigger] opts[i]).len() == 1,
    ensures
        leaves(opts, d) == 1,
    decreases opts.len() - d,
{
    if 0 <= d < opts.len() {
        lemma_single_leaves(opts, d + 1);
    }
}

} // verus!
