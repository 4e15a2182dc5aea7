use vstd::prelude::*;

verus! {

/// One offered weekly time of an activity.
///
/// `day` counts weekdays from Monday (0) to Friday (4); `start` and `end` are
/// minutes after midnight; `occurrence` tells apart sections of one activity.
#[derive(Copy, Clone, Debug, PartialEq, Eq, Structural)]
pub struct Class {
    pub occurrence: u8,
    pub day: u8,
    pub start: u16,
    pub end: u16,
}

/// A class lies on a weekday, inside 04:00 to 24:00, and lasts at least ten
/// minutes.
pub open spec fn class_wf(c: Class) -> bool {
    &&& c.day < 5
    &&& 240 <= c.start
    &&& c.start + 10 <= c.end
    &&& c.end <= 1440
}

pub open spec fn classes_wf(s: Seq<Class>) -> bool {
    forall|i: int| 0 <= i < s.len() ==> class_wf(#[trigger] s[i])
}

/// An activity of a course (a lecture, a tutorial, ...) and the times it is
/// offered at.
pub struct Activity {
    pub name: String,
    pub classes: Vec<Class>,
}

/// A course and its activities.
pub struct Course {
    pub code: String,
    pub name: String,
    pub activities: Vec<Activity>,
}

/// A ranked assignment, with the chosen classes listed under their courses.
pub struct Timetable {
    /// The position at which the search reached this assignment.
    pub number: usize,
    pub score: i64,
    /// For each course, its code and the (activity name, class) pairs chosen
    /// for its selected activities.
    pub courses: Vec<(String, Vec<(String, Class)>)>,
}

/// What a timetable holds, with strings as character sequences.
pub struct TimetableView {
    pub number: nat,
    pub score: int,
    pub courses: Seq<(Seq<char>, Seq<(Seq<char>, Class)>)>,
}

pub open spec fn entries_view(v: Seq<(String, Class)>) -> Seq<(Seq<char>, Class)> {
    v.map_values(|e: (String, Class)| (e.0@, e.1))
}

impl View for Timetable {
    type V = TimetableView;

    open spec fn view(&self) -> TimetableView {
        TimetableView {
            number: self.number as nat,
            score: self.score as int,
            courses: self.courses@.map_values(|c: (String, Vec<(String, Class)>)| (c.0@, entries_view(c.1@))),
        }
    }
}

/// Address of the timetable site that a link opens, up to the year.
pub const SITE: &'static str = "https://timetable.cssa.club/?y=";

pub open spec fn digit_char(d: int) -> char {
    if d == 0 {
        '0'
    } else if d == 1 {
        '1'
    } else if d == 2 {
        '2'
    } else if d == 3 {
        '3'
    } else if d == 4 {
        '4'
    } else if d == 5 {
        '5'
    } else if d == 6 {
        '6'
    } else if d == 7 {
        '7'
    } else if d == 8 {
        '8'
    } else {
        '9'
    }
}

/// `n` in decimal, without leading zeros.
pub open spec fn decimal(n: nat) -> Seq<char>
    decreases n,
{
    if n < 10 {
        seq![digit_char(n as int)]
    } else {
        decimal(n / 10).push(digit_char((n % 10) as int))
    }
}

/// An activity's name followed by the occurrence of its class.
pub open spec fn entry_text(e: (Seq<char>, Class)) -> Seq<char> {
    e.0 + decimal(e.1.occurrence as nat)
}

/// The entries' texts joined by commas.
pub open spec fn joined(es: Seq<(Seq<char>, Class)>) -> Seq<char>
    decreases es.len(),
{
    if es.len() == 0 {
        Seq::empty()
    } else if es.len() == 1 {
        entry_text(es[0])
    } else {
        joined(es.drop_last()).push(',') + entry_text(es.last())
    }
}

/// `&<code>=<entries>` for each course with at least one entry, in order.
pub open spec fn query(cs: Seq<(Seq<char>, Seq<(Seq<char>, Class)>)>) -> Seq<char>
    decreases cs.len(),
{
    if cs.len() == 0 {
        Seq::empty()
    } else if cs.last().1.len() == 0 {
        query(cs.drop_last())
    } else {
        query(cs.drop_last()).push('&') + cs.last().0 + seq!['='] + joined(cs.last().1)
    }
}

/// The link that opens timetable `t` of `year` and `session` on the site.
pub open spec fn link(t: TimetableView, year: Seq<char>, session: Seq<char>) -> Seq<char> {
    SITE@ + year + seq!['&', 's', '='] + session + query(t.courses)
}

fn digit(d: u8) -> (r: &'static str)
    requires
        d < 10,
    ensures
        r@ == seq![digit_char(d as int)],
{
    let r: &'static str = if d == 0 {
        "0"
    } else if d == 1 {
        "1"
    } else if d == 2 {
        "2"
    } else if d == 3 {
        "3"
    } else if d == 4 {
        "4"
    } else if d == 5 {
        "5"
    } else if d == 6 {
        "6"
    } else if d == 7 {
        "7"
    } else if d == 8 {
        "8"
    } else {
        "9"
    };
    proof {
        reveal_strlit("0");
        reveal_strlit("1");
        reveal_strlit("2");
        reveal_strlit("3");
        reveal_strlit("4");
        reveal_strlit("5");
        reveal_strlit("6");
        reveal_strlit("7");
        reveal_strlit("8");
        reveal_strlit("9");
    }
    assert(r@ =~= seq![digit_char(d as int)]);
    r
}

/// Appends `n` in decimal.
fn push_decimal(out: &mut String, n: u8)
    ensures
        final(out)@ == old(out)@ + decimal(n as nat),
{
    if n >= 100 {
        out.append(digit(n / 100));
        out.append(digit(n / 10 % 10));
        out.append(digit(n % 10));
        let ghost m: nat = (n / 10) as nat;
        assert(m / 10 == n / 100 && m % 10 == n / 10 % 10);
        assert(decimal(m / 10) == seq![digit_char((n / 100) as int)]);
        assert(decimal(m) == decimal(m / 10).push(digit_char((m % 10) as int)));
        assert(decimal(n as nat) == decimal(m).push(digit_char((n % 10) as int)));
    } else if n >= 10 {
        out.append(digit(n / 10));
        out.append(digit(n % 10));
        assert(decimal((n / 10) as nat) == seq![digit_char((n / 10) as int)]);
        assert(decimal(n as nat) == decimal((n / 10) as nat).push(digit_char((n % 10) as int)));
    } else {
        out.append(digit(n));
    }
    assert(final(out)@ =~= old(out)@ + decimal(n as nat));
}

impl Timetable {
    /// The link that opens this timetable on the timetable site, for `year`
    /// and `session`.
    pub fn url(&self, year: &str, session: &str) -> (r: String)
        ensures
            r@ == link(self@, year@, session@),
    {
        let mut acc = String::from_str(SITE);
        acc.append(year);
        acc.append("&s=");
        proof {
            reveal_strlit("&s=");
        }
        acc.append(session);
        let ghost head = acc@;
        assert(head =~= SITE@ + year@ + seq!['&', 's', '='] + session@);
        let mut i: usize = 0;
        while i < self.courses.len()
            invariant
                i <= self@.courses.len(),
                self@.courses.len() == self.courses@.len(),
                acc@ == head + query(self@.courses.take(i as int)),
            decreases self.courses@.len() - i,
        {
            let code: &String = &self.courses[i].0;
            let entries: &Vec<(String, Class)> = &self.courses[i].1;
            let ghost c = self@.courses[i as int];
            assert(c.0 == code@ && c.1 == entries_view(entries@));
            let ghost prev = acc@;
            let ghost t = self@.courses.take(i as int + 1);
            assert(t.drop_last() =~= self@.courses.take(i as int));
            assert(t.last() == c);
            if entries.len() > 0 {
                acc.append("&");
                acc.append(code.as_str());
                acc.append("=");
                proof {
                    reveal_strlit("&");
                    reveal_strlit("=");
                }
                let mut j: usize = 0;
                let ghost mid = acc@;
                assert(mid =~= prev.push('&') + code@ + seq!['=']);
                while j < entries.len()
                    invariant
                        j <= entries@.len(),
                        entries@.len() > 0,
                        acc@ == mid + joined(entries_view(entries@).take(j as int)),
                    decreases entries@.len() - j,
                {
                    let ghost es = entries_view(entries@).take(j as int + 1);
                    assert(es.drop_last() =~= entries_view(entries@).take(j as int));
                    let ghost before = acc@;
                    if j > 0 {
                        acc.append(",");
                        proof {
                            reveal_strlit(",");
                        }
                    }
                    acc.append(entries[j].0.as_str());
                    push_decimal(&mut acc, entries[j].1.occurrence);
                    proof {
                        assert(es.last() == (entries@[j as int].0@, entries@[j as int].1));
                        if j == 0 {
                            assert(entries_view(entries@).take(0) =~= Seq::<(Seq<char>, Class)>::empty());
                            assert(acc@ =~= mid + joined(es));
                        } else {
                            assert(acc@ =~= mid + joined(es));
                        }
                    }
                    j = j + 1;
                }
                proof {
                    assert(entries_view(entries@).take(j as int) =~= entries_view(entries@));
                    assert(acc@ =~= head + query(t));
                }
            }
            i = i + 1;
        }
        proof {
            assert(self@.courses.take(i as int) =~= self@.courses);
        }
        acc
    }
}

} // verus!
