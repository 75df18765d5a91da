use vstd::prelude::*;
use crate::date::Date;
use crate::strings::{lex_lt, lemma_lex_connected, lemma_lex_irreflexive, lemma_lex_transitive,
    str_eq, str_lt, views};

verus! {

/// The crags visited on one day, as a sorted set of names.
#[derive(Debug)]
pub struct LogDay {
    pub date: Date,
    pub crags: Vec<String>,
}

/// The canonical representation both sources converge to: for each
/// date, the set of crag names, held in ascending date order.
#[derive(Debug)]
pub struct Logbook {
    pub days: Vec<LogDay>,
}

/// The mathematical content of one day: its date and the views of its
/// crag names.
pub open spec fn day_view(d: LogDay) -> (Date, Seq<Seq<char>>) {
    (d.date, views(d.crags@))
}

impl View for Logbook {
    type V = Seq<(Date, Seq<Seq<char>>)>;

    open spec fn view(&self) -> Seq<(Date, Seq<Seq<char>>)> {
        self.days@.map_values(|d: LogDay| day_view(d))
    }
}

/// A strictly ascending sequence of names: sorted, hence free of
/// duplicates — the canonical form of a set of crag names.
pub open spec fn sorted_names(s: Seq<Seq<char>>) -> bool {
    forall|i: int, j: int| 0 <= i < j < s.len() ==> lex_lt(#[trigger] s[i], #[trigger] s[j])
}

pub open spec fn wf_day(d: (Date, Seq<Seq<char>>)) -> bool {
    &&& d.0.valid()
    &&& sorted_names(d.1)
    &&& d.1.len() >= 1
}

/// Days strictly ascending by date, each day well formed.
pub open spec fn wf_days(m: Seq<(Date, Seq<Seq<char>>)>) -> bool {
    &&& forall|i: int, j: int|
        0 <= i < j < m.len() ==> (#[trigger] m[i]).0.key() < (#[trigger] m[j]).0.key()
    &&& forall|i: int| 0 <= i < m.len() ==> wf_day(#[trigger] m[i])
}

impl Logbook {
    pub open spec fn wf(self) -> bool {
        wf_days(self@)
    }

    /// An empty logbook.
    pub fn new() -> (r: Logbook)
        ensures
            r@ == Seq::<(Date, Seq<Seq<char>>)>::empty(),
            r.wf(),
    {
        let r = Logbook { days: Vec::new() };
        proof {
            assert(r@ =~= Seq::<(Date, Seq<Seq<char>>)>::empty());
        }
        r
    }

    /// Records one ascent: unions the crag name into the set kept for
    /// its date.
    pub fn add_ascent(&mut self, date: Date, name: String)
        requires
            date.valid(),
            old(self).wf(),
        ensures
            final(self)@ == lb_insert_crag(old(self)@, date, name@),
            final(self).wf(),
    {
        proof {
            lemma_lb_insert_crag(self@, date, name@);
            assert forall|i: int| 0 <= i < self.days@.len() implies (
            #[trigger] self.days@[i]).date.valid() by {
                assert(self@[i] == day_view(self.days@[i]));
                assert(wf_day(self@[i]));
            }
        }
        let mut days: Vec<LogDay> = Vec::new();
        core::mem::swap(&mut days, &mut self.days);
        let days = days_insert_crag(days, date, name);
        self.days = days;
    }

    /// Records one day of the manual log: replaces the whole crag set
    /// kept for its date.
    pub fn set_day(&mut self, date: Date, crags: Vec<String>)
        requires
            date.valid(),
            old(self).wf(),
            sorted_names(views(crags@)),
            crags@.len() >= 1,
        ensures
            final(self)@ == lb_set_day(old(self)@, date, views(crags@)),
            final(self).wf(),
    {
        proof {
            lemma_lb_set_day(self@, date, views(crags@));
            assert forall|i: int| 0 <= i < self.days@.len() implies (
            #[trigger] self.days@[i]).date.valid() by {
                assert(self@[i] == day_view(self.days@[i]));
                assert(wf_day(self@[i]));
            }
        }
        let mut days: Vec<LogDay> = Vec::new();
        core::mem::swap(&mut days, &mut self.days);
        let days = days_set_day(days, date, crags);
        self.days = days;
    }
}

/// Insertion into a sorted set of names.
pub open spec fn names_insert(s: Seq<Seq<char>>, x: Seq<char>) -> Seq<Seq<char>>
    decreases s.len(),
{
    if s.len() == 0 {
        seq![x]
    } else if x == s[0] {
        s
    } else if lex_lt(x, s[0]) {
        seq![x] + s
    } else {
        seq![s[0]] + names_insert(s.drop_first(), x)
    }
}

/// Inserting into a sorted set keeps it sorted and adds exactly the
/// one member.
pub proof fn lemma_names_insert(s: Seq<Seq<char>>, x: Seq<char>)
    requires
        sorted_names(s),
    ensures
        sorted_names(names_insert(s, x)),
        forall|y: Seq<char>| names_insert(s, x).contains(y) <==> (s.contains(y) || y == x),
        names_insert(s, x).contains(x),
        names_insert(s, x).len() >= 1,
        names_insert(s, x).len() >= s.len(),
    decreases s.len(),
{
    let r = names_insert(s, x);
    if s.len() == 0 {
        assert(r[0] == x);
        assert(r.contains(x));
        assert forall|y: Seq<char>| r.contains(y) implies (s.contains(y) || y == x) by {
            let i = choose|i: int| 0 <= i < r.len() && r[i] == y;
            assert(i == 0);
        }
    } else if x == s[0] {
        assert(s.contains(x)) by {
            assert(s[0] == x);
        }
        assert(r.contains(x));
    } else if lex_lt(x, s[0]) {
        assert(r[0] == x);
        assert(r.contains(x));
        assert forall|i: int, j: int| 0 <= i < j < r.len() implies lex_lt(
            #[trigger] r[i],
            #[trigger] r[j],
        ) by {
            if i == 0 {
                if j == 1 {
                } else {
                    lemma_lex_transitive(x, s[0], s[j - 1]);
                }
            }
        }
        assert forall|y: Seq<char>| r.contains(y) implies (s.contains(y) || y == x) by {
            let i = choose|i: int| 0 <= i < r.len() && r[i] == y;
            if i > 0 {
                assert(s[i - 1] == y);
            }
        }
        assert forall|y: Seq<char>| (s.contains(y) || y == x) implies r.contains(y) by {
            if y == x {
                assert(r[0] == y);
            } else {
                let i = choose|i: int| 0 <= i < s.len() && s[i] == y;
                assert(r[i + 1] == y);
            }
        }
    } else {
        let rest = s.drop_first();
        assert(sorted_names(rest));
        lemma_names_insert(rest, x);
        lemma_lex_connected(x, s[0]);
        assert(lex_lt(s[0], x));
        let rr = names_insert(rest, x);
        assert(r.contains(x)) by {
            let k = choose|k: int| 0 <= k < rr.len() && rr[k] == x;
            assert(r[k + 1] == x);
        }
        assert forall|i: int, j: int| 0 <= i < j < r.len() implies lex_lt(
            #[trigger] r[i],
            #[trigger] r[j],
        ) by {
            if i == 0 {
                assert(rr.contains(r[j])) by {
                    assert(rr[j - 1] == r[j]);
                }
                if r[j] == x {
                } else {
                    assert(rest.contains(r[j]));
                    let k = choose|k: int| 0 <= k < rest.len() && rest[k] == r[j];
                    assert(rest[k] == s[k + 1]);
                    assert(lex_lt(s[0], s[k + 1]));
                }
            } else {
                assert(rr[i - 1] == r[i]);
                assert(rr[j - 1] == r[j]);
            }
        }
        assert forall|y: Seq<char>| r.contains(y) implies (s.contains(y) || y == x) by {
            let i = choose|i: int| 0 <= i < r.len() && r[i] == y;
            if i == 0 {
                assert(s.contains(y)) by {
                    assert(s[0] == y);
                }
            } else {
                assert(rr[i - 1] == y);
                assert(rr.contains(y));
                if y != x {
                    assert(rest.contains(y));
                    let k = choose|k: int| 0 <= k < rest.len() && rest[k] == y;
                    assert(rest[k] == s[k + 1]);
                    assert(s.contains(y)) by {
                        assert(s[k + 1] == y);
                    }
                }
            }
        }
        assert forall|y: Seq<char>| (s.contains(y) || y == x) implies r.contains(y) by {
            if y == x {
                assert(rr.contains(y));
                let k = choose|k: int| 0 <= k < rr.len() && rr[k] == y;
                assert(r.contains(y)) by {
                    assert(r[k + 1] == y);
                }
            } else {
                let i = choose|i: int| 0 <= i < s.len() && s[i] == y;
                if i == 0 {
                    assert(r[0] == y);
                } else {
                    assert(rest[i - 1] == s[i]);
                    assert(rest.contains(y)) by {
                        assert(rest[i - 1] == y);
                    }
                    assert(rr.contains(y));
                    let k = choose|k: int| 0 <= k < rr.len() && rr[k] == y;
                    assert(r.contains(y)) by {
                        assert(r[k + 1] == y);
                    }
                }
            }
        }
    }
}

fn crags_insert(v: Vec<String>, x: String) -> (r: Vec<String>)
    ensures
        views(r@) == names_insert(views(v@), x@),
    decreases v@.len(),
{
    let ghost s = views(v@);
    let mut v = v;
    if v.len() == 0 {
        v.push(x);
        proof {
            assert(views(v@) =~= names_insert(s, x@));
        }
        v
    } else if str_eq(x.as_str(), v[0].as_str()) {
        proof {
            assert(x@ == s[0]);
            assert(views(v@) =~= names_insert(s, x@));
        }
        v
    } else if str_lt(x.as_str(), v[0].as_str()) {
        v.insert(0, x);
        proof {
            assert(views(v@) =~= names_insert(s, x@));
        }
        v
    } else {
        let h = v.remove(0);
        proof {
            assert(views(v@) =~= s.drop_first());
        }
        let mut r = crags_insert(v, x);
        r.insert(0, h);
        proof {
            assert(views(r@) =~= names_insert(s, x@));
        }
        r
    }
}

/// Union-insertion of one crag name under a date.
pub open spec fn lb_insert_crag(m: Seq<(Date, Seq<Seq<char>>)>, dt: Date, x: Seq<char>) -> Seq<
    (Date, Seq<Seq<char>>),
>
    decreases m.len(),
{
    if m.len() == 0 {
        seq![(dt, seq![x])]
    } else if dt.key() == m[0].0.key() {
        seq![(m[0].0, names_insert(m[0].1, x))] + m.drop_first()
    } else if dt.key() < m[0].0.key() {
        seq![(dt, seq![x])] + m
    } else {
        seq![m[0]] + lb_insert_crag(m.drop_first(), dt, x)
    }
}

/// Replacement of the whole crag set under a date.
pub open spec fn lb_set_day(m: Seq<(Date, Seq<Seq<char>>)>, dt: Date, names: Seq<Seq<char>>) -> Seq<
    (Date, Seq<Seq<char>>),
>
    decreases m.len(),
{
    if m.len() == 0 {
        seq![(dt, names)]
    } else if dt.key() == m[0].0.key() {
        seq![(dt, names)] + m.drop_first()
    } else if dt.key() < m[0].0.key() {
        seq![(dt, names)] + m
    } else {
        seq![m[0]] + lb_set_day(m.drop_first(), dt, names)
    }
}

/// Union-insertion keeps a logbook well formed.
pub proof fn lemma_lb_insert_crag(m: Seq<(Date, Seq<Seq<char>>)>, dt: Date, x: Seq<char>)
    requires
        wf_days(m),
        dt.valid(),
    ensures
        wf_days(lb_insert_crag(m, dt, x)),
        forall|i: int|
            0 <= i < lb_insert_crag(m, dt, x).len() ==> (#[trigger] lb_insert_crag(m, dt, x)[i]).0
                == dt || m.map_values(|d: (Date, Seq<Seq<char>>)| d.0).contains(
                lb_insert_crag(m, dt, x)[i].0,
            ),
    decreases m.len(),
{
    let r = lb_insert_crag(m, dt, x);
    let dates = m.map_values(|d: (Date, Seq<Seq<char>>)| d.0);
    if m.len() == 0 {
        assert(r[0] == (dt, seq![x]));
        assert(wf_day(r[0]));
    } else if dt.key() == m[0].0.key() {
        lemma_names_insert(m[0].1, x);
        assert(r[0] == (m[0].0, names_insert(m[0].1, x)));
        assert forall|i: int, j: int| 0 <= i < j < r.len() implies (#[trigger] r[i]).0.key() < (
        #[trigger] r[j]).0.key() by {
            if i > 0 {
                assert(r[i] == m[i]);
            }
            assert(r[j] == m[j]);
        }
        assert forall|i: int| 0 <= i < r.len() implies wf_day(#[trigger] r[i]) by {
            if i > 0 {
                assert(r[i] == m[i]);
            }
        }
        assert forall|i: int| 0 <= i < r.len() implies (#[trigger] r[i]).0 == dt || dates.contains(
            r[i].0,
        ) by {
            if i == 0 {
                assert(dates[0] == m[0].0);
            } else {
                assert(dates[i] == m[i].0);
                assert(r[i] == m[i]);
            }
        }
    } else if dt.key() < m[0].0.key() {
        assert(r[0] == (dt, seq![x]));
        assert(wf_day(r[0]));
        assert forall|i: int, j: int| 0 <= i < j < r.len() implies (#[trigger] r[i]).0.key() < (
        #[trigger] r[j]).0.key() by {
            if i > 0 {
                assert(r[i] == m[i - 1]);
            }
            assert(r[j] == m[j - 1]);
        }
        assert forall|i: int| 0 <= i < r.len() implies wf_day(#[trigger] r[i]) by {
            if i > 0 {
                assert(r[i] == m[i - 1]);
            }
        }
        assert forall|i: int| 0 <= i < r.len() implies (#[trigger] r[i]).0 == dt || dates.contains(
            r[i].0,
        ) by {
            if i > 0 {
                assert(dates[i - 1] == m[i - 1].0);
                assert(r[i] == m[i - 1]);
            }
        }
    } else {
        let rest = m.drop_first();
        assert(wf_days(rest)) by {
            assert forall|i: int, j: int| 0 <= i < j < rest.len() implies (
            #[trigger] rest[i]).0.key() < (#[trigger] rest[j]).0.key() by {
                assert(rest[i] == m[i + 1]);
                assert(rest[j] == m[j + 1]);
            }
            assert forall|i: int| 0 <= i < rest.len() implies wf_day(#[trigger] rest[i]) by {
                assert(rest[i] == m[i + 1]);
            }
        }
        lemma_lb_insert_crag(rest, dt, x);
        let rr = lb_insert_crag(rest, dt, x);
        let rest_dates = rest.map_values(|d: (Date, Seq<Seq<char>>)| d.0);
        assert forall|i: int, j: int| 0 <= i < j < r.len() implies (#[trigger] r[i]).0.key() < (
        #[trigger] r[j]).0.key() by {
            if i == 0 {
                assert(r[j] == rr[j - 1]);
                if rr[j - 1].0 == dt {
                } else {
                    assert(rest_dates.contains(rr[j - 1].0));
                    let k = choose|k: int|
                        0 <= k < rest_dates.len() && rest_dates[k] == rr[j - 1].0;
                    assert(rest[k].0 == rr[j - 1].0);
                    assert(rest[k] == m[k + 1]);
                    assert(m[0].0.key() < m[k + 1].0.key());
                }
            } else {
                assert(r[i] == rr[i - 1]);
                assert(r[j] == rr[j - 1]);
            }
        }
        assert forall|i: int| 0 <= i < r.len() implies wf_day(#[trigger] r[i]) by {
            if i > 0 {
                assert(r[i] == rr[i - 1]);
            }
        }
        assert forall|i: int| 0 <= i < r.len() implies (#[trigger] r[i]).0 == dt || dates.contains(
            r[i].0,
        ) by {
            if i == 0 {
                assert(dates[0] == m[0].0);
            } else {
                assert(r[i] == rr[i - 1]);
                if rr[i - 1].0 == dt {
                } else {
                    assert(rest_dates.contains(rr[i - 1].0));
                    let k = choose|k: int|
                        0 <= k < rest_dates.len() && rest_dates[k] == rr[i - 1].0;
                    assert(rest[k].0 == rr[i - 1].0);
                    assert(rest[k] == m[k + 1]);
                    assert(dates[k + 1] == m[k + 1].0);
                }
            }
        }
    }
}

/// Replacement keeps a logbook well formed.
pub proof fn lemma_lb_set_day(m: Seq<(Date, Seq<Seq<char>>)>, dt: Date, names: Seq<Seq<char>>)
    requires
        wf_days(m),
        dt.valid(),
        sorted_names(names),
        names.len() >= 1,
    ensures
        wf_days(lb_set_day(m, dt, names)),
        forall|i: int|
            0 <= i < lb_set_day(m, dt, names).len() ==> (#[trigger] lb_set_day(m, dt, names)[i]).0
                == dt || m.map_values(|d: (Date, Seq<Seq<char>>)| d.0).contains(
                lb_set_day(m, dt, names)[i].0,
            ),
    decreases m.len(),
{
    let r = lb_set_day(m, dt, names);
    let dates = m.map_values(|d: (Date, Seq<Seq<char>>)| d.0);
    if m.len() == 0 {
        assert(r[0] == (dt, names));
    } else if dt.key() == m[0].0.key() {
        assert(r[0] == (dt, names));
        assert forall|i: int, j: int| 0 <= i < j < r.len() implies (#[trigger] r[i]).0.key() < (
        #[trigger] r[j]).0.key() by {
            if i > 0 {
                assert(r[i] == m[i]);
            }
            assert(r[j] == m[j]);
        }
        assert forall|i: int| 0 <= i < r.len() implies wf_day(#[trigger] r[i]) by {
            if i > 0 {
                assert(r[i] == m[i]);
            }
        }
        assert forall|i: int| 0 <= i < r.len() implies (#[trigger] r[i]).0 == dt || dates.contains(
            r[i].0,
        ) by {
            if i > 0 {
                assert(dates[i] == m[i].0);
                assert(r[i] == m[i]);
            }
        }
    } else if dt.key() < m[0].0.key() {
        assert(r[0] == (dt, names));
        assert forall|i: int, j: int| 0 <= i < j < r.len() implies (#[trigger] r[i]).0.key() < (
        #[trigger] r[j]).0.key() by {
            if i > 0 {
                assert(r[i] == m[i - 1]);
            }
            assert(r[j] == m[j - 1]);
        }
        assert forall|i: int| 0 <= i < r.len() implies wf_day(#[trigger] r[i]) by {
            if i > 0 {
                assert(r[i] == m[i - 1]);
            }
        }
        assert forall|i: int| 0 <= i < r.len() implies (#[trigger] r[i]).0 == dt || dates.contains(
            r[i].0,
        ) by {
            if i > 0 {
                assert(dates[i - 1] == m[i - 1].0);
                assert(r[i] == m[i - 1]);
            }
        }
    } else {
        let rest = m.drop_first();
        assert(wf_days(rest)) by {
            assert forall|i: int, j: int| 0 <= i < j < rest.len() implies (
            #[trigger] rest[i]).0.key() < (#[trigger] rest[j]).0.key() by {
                assert(rest[i] == m[i + 1]);
                assert(rest[j] == m[j + 1]);
            }
            assert forall|i: int| 0 <= i < rest.len() implies wf_day(#[trigger] rest[i]) by {
                assert(rest[i] == m[i + 1]);
            }
        }
        lemma_lb_set_day(rest, dt, names);
        let rr = lb_set_day(rest, dt, names);
        let rest_dates = rest.map_values(|d: (Date, Seq<Seq<char>>)| d.0);
        assert forall|i: int, j: int| 0 <= i < j < r.len() implies (#[trigger] r[i]).0.key() < (
        #[trigger] r[j]).0.key() by {
            if i == 0 {
                assert(r[j] == rr[j - 1]);
                if rr[j - 1].0 == dt {
                } else {
                    assert(rest_dates.contains(rr[j - 1].0));
                    let k = choose|k: int|
                        0 <= k < rest_dates.len() && rest_dates[k] == rr[j - 1].0;
                    assert(rest[k].0 == rr[j - 1].0);
                    assert(rest[k] == m[k + 1]);
                    assert(m[0].0.key() < m[k + 1].0.key());
                }
            } else {
                assert(r[i] == rr[i - 1]);
                assert(r[j] == rr[j - 1]);
            }
        }
        assert forall|i: int| 0 <= i < r.len() implies wf_day(#[trigger] r[i]) by {
            if i > 0 {
                assert(r[i] == rr[i - 1]);
            }
        }
        assert forall|i: int| 0 <= i < r.len() implies (#[trigger] r[i]).0 == dt || dates.contains(
            r[i].0,
        ) by {
            if i == 0 {
                assert(dates[0] == m[0].0);
            } else {
                assert(r[i] == rr[i - 1]);
                if rr[i - 1].0 == dt {
                } else {
                    assert(rest_dates.contains(rr[i - 1].0));
                    let k = choose|k: int|
                        0 <= k < rest_dates.len() && rest_dates[k] == rr[i - 1].0;
                    assert(rest[k].0 == rr[i - 1].0);
                    assert(rest[k] == m[k + 1]);
                    assert(dates[k + 1] == m[k + 1].0);
                }
            }
        }
    }
}

fn days_insert_crag(days: Vec<LogDay>, dt: Date, name: String) -> (r: Vec<LogDay>)
    requires
        dt.valid(),
        forall|i: int| 0 <= i < days@.len() ==> (#[trigger] days@[i]).date.valid(),
    ensures
        r@.map_values(|d: LogDay| day_view(d)) == lb_insert_crag(
            days@.map_values(|d: LogDay| day_view(d)),
            dt,
            name@,
        ),
    decreases days@.len(),
{
    let ghost m = days@.map_values(|d: LogDay| day_view(d));
    let mut days = days;
    if days.len() == 0 {
        let mut crags: Vec<String> = Vec::new();
        crags.push(name);
        days.push(LogDay { date: dt, crags });
        proof {
            assert(views(days@[0].crags@) =~= seq![name@]);
            assert(days@.map_values(|d: LogDay| day_view(d)) =~= lb_insert_crag(m, dt, name@));
        }
        days
    } else {
        proof {
            assert(m[0] == day_view(days@[0]));
        }
        let first_date = days[0].date;
        if dt.year == first_date.year && dt.month == first_date.month && dt.day == first_date.day {
            proof {
                assert(dt.key() == m[0].0.key());
            }
            let mut h = days.remove(0);
            let mut crags: Vec<String> = Vec::new();
            core::mem::swap(&mut crags, &mut h.crags);
            h.crags = crags_insert(crags, name);
            days.insert(0, h);
            proof {
                assert(day_view(days@[0]) == (m[0].0, names_insert(m[0].1, name@)));
                assert(days@.map_values(|d: LogDay| day_view(d)) =~= lb_insert_crag(m, dt, name@));
            }
            days
        } else if crate::date::date_lt(&dt, &first_date) {
            let mut crags: Vec<String> = Vec::new();
            crags.push(name);
            days.insert(0, LogDay { date: dt, crags });
            proof {
                assert(views(days@[0].crags@) =~= seq![name@]);
                assert(days@.map_values(|d: LogDay| day_view(d)) =~= lb_insert_crag(m, dt, name@));
            }
            days
        } else {
            proof {
                if dt.key() == m[0].0.key() {
                    crate::date::lemma_key_injective(dt, first_date);
                }
            }
            let h = days.remove(0);
            proof {
                assert(days@.map_values(|d: LogDay| day_view(d)) =~= m.drop_first());
                assert forall|i: int| 0 <= i < days@.len() implies (
                #[trigger] days@[i]).date.valid() by {
                    assert(days@.map_values(|d: LogDay| day_view(d))[i] == day_view(days@[i]));
                    assert(m.drop_first()[i] == m[i + 1]);
                }
            }
            let mut r = days_insert_crag(days, dt, name);
            r.insert(0, h);
            proof {
                assert(r@.map_values(|d: LogDay| day_view(d)) =~= lb_insert_crag(m, dt, name@));
            }
            r
        }
    }
}

fn days_set_day(days: Vec<LogDay>, dt: Date, crags: Vec<String>) -> (r: Vec<LogDay>)
    requires
        dt.valid(),
        forall|i: int| 0 <= i < days@.len() ==> (#[trigger] days@[i]).date.valid(),
    ensures
        r@.map_values(|d: LogDay| day_view(d)) == lb_set_day(
            days@.map_values(|d: LogDay| day_view(d)),
            dt,
            views(crags@),
        ),
    decreases days@.len(),
{
    let ghost m = days@.map_values(|d: LogDay| day_view(d));
    let ghost cv = views(crags@);
    let mut days = days;
    if days.len() == 0 {
        days.push(LogDay { date: dt, crags });
        proof {
            assert(days@.map_values(|d: LogDay| day_view(d)) =~= lb_set_day(
                m,
                dt,
                views(days@[0].crags@),
            ));
        }
        days
    } else {
        proof {
            assert(m[0] == day_view(days@[0]));
        }
        let first_date = days[0].date;
        if dt.year == first_date.year && dt.month == first_date.month && dt.day == first_date.day {
            proof {
                assert(dt.key() == m[0].0.key());
            }
            let _old = days.remove(0);
            days.insert(0, LogDay { date: dt, crags });
            proof {
                assert(days@.map_values(|d: LogDay| day_view(d)) =~= lb_set_day(
                    m,
                    dt,
                    views(days@[0].crags@),
                ));
            }
            days
        } else if crate::date::date_lt(&dt, &first_date) {
            days.insert(0, LogDay { date: dt, crags });
            proof {
                assert(days@.map_values(|d: LogDay| day_view(d)) =~= lb_set_day(
                    m,
                    dt,
                    views(days@[0].crags@),
                ));
            }
            days
        } else {
            proof {
                if dt.key() == m[0].0.key() {
                    crate::date::lemma_key_injective(dt, first_date);
                }
            }
            let h = days.remove(0);
            proof {
                assert(days@.map_values(|d: LogDay| day_view(d)) =~= m.drop_first());
                assert forall|i: int| 0 <= i < days@.len() implies (
                #[trigger] days@[i]).date.valid() by {
                    assert(days@.map_values(|d: LogDay| day_view(d))[i] == day_view(days@[i]));
                    assert(m.drop_first()[i] == m[i + 1]);
                }
            }
            let mut r = days_set_day(days, dt, crags);
            r.insert(0, h);
            proof {
                assert(r@.map_values(|d: LogDay| day_view(d)) =~= lb_set_day(m, dt, cv));
            }
            r
        }
    }
}


/// The canonical sorted set built from raw names in order.
pub open spec fn set_of_names(s: Seq<Seq<char>>) -> Seq<Seq<char>>
    decreases s.len(),
{
    if s.len() == 0 {
        Seq::empty()
    } else {
        names_insert(set_of_names(s.drop_last()), s.last())
    }
}

/// The canonical set holds exactly the names that were fed in.
pub proof fn lemma_set_of_names(s: Seq<Seq<char>>)
    ensures
        sorted_names(set_of_names(s)),
        forall|y: Seq<char>| set_of_names(s).contains(y) <==> s.contains(y),
        s.len() >= 1 ==> set_of_names(s).len() >= 1,
    decreases s.len(),
{
    if s.len() > 0 {
        let prev = s.drop_last();
        lemma_set_of_names(prev);
        lemma_names_insert(set_of_names(prev), s.last());
        assert forall|y: Seq<char>| s.contains(y) implies set_of_names(s).contains(y) by {
            let i = choose|i: int| 0 <= i < s.len() && s[i] == y;
            if i < s.len() - 1 {
                assert(prev.contains(y)) by {
                    assert(prev[i] == y);
                }
            } else {
                assert(y == s.last());
            }
        }
        assert forall|y: Seq<char>| set_of_names(s).contains(y) implies s.contains(y) by {
            if y == s.last() {
                assert(s[s.len() - 1] == y);
            } else {
                assert(prev.contains(y));
                let i = choose|i: int| 0 <= i < prev.len() && prev[i] == y;
                assert(s[i] == y);
            }
        }
    }
}

/// Sorts and deduplicates raw crag names into the canonical set form.
pub fn crags_to_set(names: &Vec<String>) -> (r: Vec<String>)
    ensures
        views(r@) == set_of_names(views(names@)),
        sorted_names(views(r@)),
        names@.len() >= 1 ==> views(r@).len() >= 1,
{
    let ghost nv = views(names@);
    let mut acc: Vec<String> = Vec::new();
    let n = names.len();
    let mut i: usize = 0;
    proof {
        assert(views(acc@) =~= set_of_names(nv.take(0)));
    }
    while i < n
        invariant
            i <= n,
            n == names@.len(),
            nv == views(names@),
            nv.len() == n,
            views(acc@) == set_of_names(nv.take(i as int)),
        decreases n - i,
    {
        acc = crags_insert(acc, names[i].clone());
        proof {
            assert(nv.take(i + 1).drop_last() =~= nv.take(i as int));
            assert(nv.take(i + 1).last() == nv[i as int]);
        }
        i = i + 1;
    }
    proof {
        assert(nv.take(n as int) =~= nv);
        lemma_set_of_names(nv);
    }
    acc
}


/// Inserting a name greater than everything present appends it.
pub proof fn lemma_names_insert_append(s: Seq<Seq<char>>, x: Seq<char>)
    requires
        forall|i: int| 0 <= i < s.len() ==> lex_lt(#[trigger] s[i], x),
    ensures
        names_insert(s, x) == s.push(x),
    decreases s.len(),
{
    if s.len() == 0 {
        assert(names_insert(s, x) =~= s.push(x));
    } else {
        assert(lex_lt(s[0], x));
        if x == s[0] {
            lemma_lex_irreflexive(x);
        }
        if lex_lt(x, s[0]) {
            lemma_lex_transitive(s[0], x, s[0]);
            lemma_lex_irreflexive(s[0]);
        }
        assert forall|i: int| 0 <= i < s.drop_first().len() implies lex_lt(
            #[trigger] s.drop_first()[i],
            x,
        ) by {
            assert(s.drop_first()[i] == s[i + 1]);
        }
        lemma_names_insert_append(s.drop_first(), x);
        assert(names_insert(s, x) =~= s.push(x));
    }
}

/// A sorted set of names is already in canonical form.
pub proof fn lemma_set_of_sorted(s: Seq<Seq<char>>)
    requires
        sorted_names(s),
    ensures
        set_of_names(s) == s,
    decreases s.len(),
{
    if s.len() > 0 {
        let prev = s.drop_last();
        assert(sorted_names(prev));
        lemma_set_of_sorted(prev);
        assert forall|i: int| 0 <= i < prev.len() implies lex_lt(#[trigger] prev[i], s.last()) by {
            assert(prev[i] == s[i]);
            assert(lex_lt(s[i], s[s.len() - 1]));
        }
        lemma_names_insert_append(prev, s.last());
        assert(prev.push(s.last()) =~= s);
    }
}

/// Replacing under a date later than everything present appends the
/// day at the end.
pub proof fn lemma_set_day_append(
    m: Seq<(Date, Seq<Seq<char>>)>,
    dt: Date,
    names: Seq<Seq<char>>,
)
    requires
        forall|j: int| 0 <= j < m.len() ==> (#[trigger] m[j]).0.key() < dt.key(),
    ensures
        lb_set_day(m, dt, names) == m.push((dt, names)),
    decreases m.len(),
{
    if m.len() == 0 {
        assert(lb_set_day(m, dt, names) =~= m.push((dt, names)));
    } else {
        assert(m[0].0.key() < dt.key());
        assert forall|j: int| 0 <= j < m.drop_first().len() implies (
        #[trigger] m.drop_first()[j]).0.key() < dt.key() by {
            assert(m.drop_first()[j] == m[j + 1]);
        }
        lemma_set_day_append(m.drop_first(), dt, names);
        assert(lb_set_day(m, dt, names) =~= m.push((dt, names)));
    }
}

} // verus!
