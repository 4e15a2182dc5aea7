use vstd::prelude::*;

use crate::timetable::{Class, class_wf, classes_wf};

verus! {

/// Number of set bits among the lowest `n` bits of `x`.
pub open spec fn ones_below(x: u128, n: nat) -> nat
    decreases n,
{
    if n == 0 {
        0
    } else {
        (x % 2) as nat + ones_below(x / 2, (n - 1) as nat)
    }
}

/// Number of set bits of `x`.
pub open spec fn ones(x: u128) -> nat {
    ones_below(x, 128)
}

/// Bit `i` of a day's mask stands for the ten minutes from `240 + 10 * i`.
pub open spec fn run_len(c: Class) -> u32 {
    ((c.end - c.start) / 10) as u32
}

pub open spec fn run_offset(c: Class) -> u32 {
    ((c.start - 240) / 10) as u32
}

/// The bits of the ten-minute blocks that `c` occupies on its day.
pub open spec fn run_mask(c: Class) -> u128 {
    (u128::MAX >> (128 - run_len(c)) as u32) << run_offset(c)
}

/// Occupancy of day `d` once the classes of `s` are placed.
pub open spec fn day_mask(s: Seq<Class>, d: int) -> u128
    decreases s.len(),
{
    if s.len() == 0 {
        0
    } else if s.last().day == d {
        day_mask(s.drop_last(), d) | run_mask(s.last())
    } else {
        day_mask(s.drop_last(), d)
    }
}

/// Blocks that each class of `s` shares with the classes before it.
pub open spec fn collisions(s: Seq<Class>) -> int
    decreases s.len(),
{
    if s.len() == 0 {
        0
    } else {
        collisions(s.drop_last()) + ones(
            run_mask(s.last()) & day_mask(s.drop_last(), s.last().day as int),
        )
    }
}

/// Blocks before 10:00 or from 17:00 on.
pub open spec fn outside_hours() -> u128 {
    !(u128::MAX << 36u32) | (u128::MAX << 78u32)
}

/// A free day earns 20; a busy one loses a point per block outside the
/// preferred hours.
pub open spec fn day_score(m: u128) -> int {
    if m == 0 {
        20
    } else {
        -(ones(m & outside_hours()) as int)
    }
}

pub open spec fn days_score(s: Seq<Class>, n: int) -> int
    decreases n,
{
    if n <= 0 {
        0
    } else {
        days_score(s, n - 1) + day_score(day_mask(s, n - 1))
    }
}

/// The score of a (possibly partial) list of chosen classes.
pub open spec fn score(s: Seq<Class>) -> int {
    -10 * collisions(s) + days_score(s, 5)
}

/// Counts the set bits of `x`.
pub fn count_ones(x: u128) -> (r: u32)
    ensures
        r as nat == ones(x),
        r <= 128,
{
    let mut v: u128 = x;
    let mut c: u32 = 0;
    let mut i: u32 = 0;
    while i < 128
        invariant
            i <= 128,
            c <= i,
            c + ones_below(v, (128 - i) as nat) == ones(x),
        decreases 128 - i,
    {
        assert(v & 1 == v % 2) by (bit_vector);
        assert(v >> 1 == v / 2) by (bit_vector);
        c = c + (v & 1) as u32;
        v = v >> 1;
        i = i + 1;
    }
    c
}

proof fn lemma_ones_bound(x: u128, n: nat)
    ensures
        ones_below(x, n) <= n,
    decreases n,
{
    if n > 0 {
        lemma_ones_bound(x / 2, (n - 1) as nat);
    }
}

proof fn lemma_collisions_bound(s: Seq<Class>)
    ensures
        0 <= collisions(s) <= 128 * s.len(),
    decreases s.len(),
{
    if s.len() > 0 {
        lemma_collisions_bound(s.drop_last());
        lemma_ones_bound(run_mask(s.last()) & day_mask(s.drop_last(), s.last().day as int), 128);
    }
}

proof fn lemma_days_score_bound(s: Seq<Class>, n: int)
    requires
        0 <= n,
    ensures
        -128 * n <= days_score(s, n) <= 20 * n,
    decreases n,
{
    if n > 0 {
        lemma_days_score_bound(s, n - 1);
        let m = day_mask(s, n - 1);
        lemma_ones_bound(m & outside_hours(), 128);
    }
}

/// Bounds on the score of `s`.
pub proof fn lemma_score_bound(s: Seq<Class>)
    ensures
        -1280 * s.len() - 640 <= score(s) <= 100,
{
    lemma_collisions_bound(s);
    lemma_days_score_bound(s, 5);
}

/// Scores the classes chosen so far.
pub fn eval(classes: &[Class]) -> (r: i64)
    requires
        classes_wf(classes@),
        classes@.len() <= u32::MAX,
    ensures
        r == score(classes@),
{
    let mut timetable: Vec<u128> = Vec::new();
    let mut d: usize = 0;
    while d < 5
        invariant
            d <= 5,
            timetable@.len() == d,
            forall|k: int| 0 <= k < d ==> timetable@[k] == 0,
        decreases 5 - d,
    {
        timetable.push(0);
        d = d + 1;
    }
    proof {
        assert(classes@.take(0) =~= Seq::<Class>::empty());
    }
    let mut collided: i64 = 0;
    let mut i: usize = 0;
    while i < classes.len()
        invariant
            i <= classes@.len(),
            classes@.len() <= u32::MAX,
            classes_wf(classes@),
            timetable@.len() == 5,
            forall|k: int| 0 <= k < 5 ==> timetable@[k] == day_mask(#[trigger] classes@.take(i as int), k),
            collided == collisions(classes@.take(i as int)),
            0 <= collided <= 128 * i,
        decreases classes@.len() - i,
    {
        let class = classes[i];
        assert(class_wf(class));
        let num_bits: u32 = ((class.end - class.start) / 10) as u32;
        let start_offset: u32 = ((class.start - 240) / 10) as u32;
        let mask: u128 = (u128::MAX >> (128 - num_bits)) << start_offset;
        let day: usize = class.day as usize;
        let hit: u32 = count_ones(mask & timetable[day]);
        proof {
            let t = classes@.take(i as int + 1);
            assert(t.drop_last() =~= classes@.take(i as int));
            assert(t.last() == class);
        }
        collided = collided + hit as i64;
        let updated: u128 = timetable[day] | mask;
        timetable.set(day, updated);
        i = i + 1;
    }
    proof {
        assert(classes@.take(i as int) =~= classes@);
    }
    let mut r: i64 = -collided * 10;
    let mut e: usize = 0;
    while e < 5
        invariant
            e <= 5,
            timetable@.len() == 5,
            forall|k: int| 0 <= k < 5 ==> timetable@[k] == day_mask(classes@, k),
            r == -10 * collisions(classes@) + days_score(classes@, e as int),
            0 <= collisions(classes@) <= 128 * classes@.len(),
            classes@.len() <= u32::MAX,
        decreases 5 - e,
    {
        let day = timetable[e];
        proof {
            lemma_days_score_bound(classes@, e as int);
        }
        if day == 0 {
            r = r + 20;
        } else {
            let before_preferred: u128 = !(u128::MAX << 36u32);
            let after_preferred: u128 = u128::MAX << 78u32;
            let late_or_early: u32 = count_ones(day & (before_preferred | after_preferred));
            r = r - late_or_early as i64;
        }
        e = e + 1;
    }
    r
}

} // verus!
