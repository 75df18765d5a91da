use vstd::prelude::*;
use vstd::string::StringExecFns;
use crate::date::{date_seq_of, format_date, Date};
use crate::errors::LogbookError;
use crate::logbook::{crags_to_set, day_view, set_of_names, wf_day, wf_days, LogDay, Logbook};
use crate::normalize::{normalized, transliterate_crag_name};
use crate::strings::{join_strs, spec_join, views};
use crate::tabular::{csv_cells_of, csv_wf, fold_ticks, get_logbook_from_thecrag,
    table_ticks_spec};

verus! {

/// One line of the canonical printout: the very shape the manual log
/// uses, so that printed output can be read back.
pub open spec fn render_day(d: (Date, Seq<Seq<char>>)) -> Seq<char> {
    date_seq_of(d.0) + ": Felsklettern ("@ + spec_join(d.1, ", "@) + ")"@
}

pub open spec fn render_lines(m: Seq<(Date, Seq<Seq<char>>)>) -> Seq<Seq<char>> {
    m.map_values(|d: (Date, Seq<Seq<char>>)| render_day(d))
}

/// The whole printout: one line per day, dates ascending.
pub open spec fn spec_print(m: Seq<(Date, Seq<Seq<char>>)>) -> Seq<char> {
    spec_join(render_lines(m), "\n"@)
}

/// A day with every crag name in canonical ASCII form.
pub open spec fn normalize_day(d: (Date, Seq<Seq<char>>)) -> (Date, Seq<Seq<char>>) {
    (d.0, set_of_names(d.1.map_values(|n: Seq<char>| normalized(n))))
}

pub open spec fn normalize_days(m: Seq<(Date, Seq<Seq<char>>)>) -> Seq<(Date, Seq<Seq<char>>)> {
    m.map_values(|d: (Date, Seq<Seq<char>>)| normalize_day(d))
}

fn normalize_names(v: &Vec<String>) -> (r: Vec<String>)
    ensures
        views(r@) == views(v@).map_values(|n: Seq<char>| normalized(n)),
{
    let ghost nv = views(v@);
    let mut r: Vec<String> = Vec::new();
    let n = v.len();
    let mut i: usize = 0;
    while i < n
        invariant
            i <= n,
            n == v@.len(),
            nv == views(v@),
            nv.len() == n,
            views(r@) =~= nv.take(i as int).map_values(|n0: Seq<char>| normalized(n0)),
        decreases n - i,
    {
        let ghost prev = views(r@);
        r.push(transliterate_crag_name(v[i].as_str()));
        proof {
            assert(views(r@) =~= prev.push(normalized(nv[i as int])));
            assert(views(r@) =~= nv.take(i + 1).map_values(|n0: Seq<char>| normalized(n0)));
        }
        i = i + 1;
    }
    proof {
        assert(nv.take(n as int) =~= nv);
    }
    r
}

/// Passes every crag name of a logbook through the normalizer,
/// keeping each day's names a canonical sorted set.
pub fn normalize_logbook(lb: &Logbook) -> (r: Logbook)
    requires
        lb.wf(),
    ensures
        r@ == normalize_days(lb@),
        r.wf(),
{
    let ghost mv = lb@;
    let mut out: Vec<LogDay> = Vec::new();
    let n = lb.days.len();
    let mut i: usize = 0;
    proof {
        assert(mv.len() == n);
    }
    while i < n
        invariant
            i <= n,
            n == lb.days@.len(),
            mv == lb@,
            lb.wf(),
            mv.len() == n,
            out@.map_values(|d: LogDay| day_view(d)) =~= normalize_days(mv).take(i as int),
            forall|p: int| 0 <= p < out@.len() ==> wf_day(day_view(#[trigger] out@[p])),
        decreases n - i,
    {
        let ghost prev = out@.map_values(|d: LogDay| day_view(d));
        proof {
            assert(mv[i as int] == day_view(lb.days@[i as int]));
            assert(wf_day(mv[i as int]));
        }
        let mapped = normalize_names(&lb.days[i].crags);
        let setv = crags_to_set(&mapped);
        let nd = LogDay { date: lb.days[i].date, crags: setv };
        proof {
            assert(day_view(nd) == normalize_day(mv[i as int])) by {
                assert(views(nd.crags@) == set_of_names(views(mapped@)));
            }
            assert(wf_day(day_view(nd))) by {
                assert(views(mapped@).len() == mv[i as int].1.len());
                crate::logbook::lemma_set_of_names(views(mapped@));
            }
        }
        out.push(nd);
        proof {
            assert(out@.map_values(|d: LogDay| day_view(d)) =~= prev.push(day_view(nd)));
            assert(out@.map_values(|d: LogDay| day_view(d)) =~= normalize_days(mv).take(i + 1));
        }
        i = i + 1;
    }
    proof {
        assert(normalize_days(mv).take(n as int) =~= normalize_days(mv));
    }
    let r = Logbook { days: out };
    proof {
        assert(r.wf()) by {
            assert forall|p: int, q: int| 0 <= p < q < r@.len() implies (#[trigger] r@[p]).0.key()
                < (#[trigger] r@[q]).0.key() by {
                assert(r@[p].0 == mv[p].0);
                assert(r@[q].0 == mv[q].0);
            }
        }
    }
    r
}

/// Renders one day in the manual-log line shape.
fn render_day_exec(d: &LogDay) -> (r: String)
    requires
        d.date.valid(),
    ensures
        r@ == render_day(day_view(*d)),
{
    let mut s = format_date(&d.date);
    s.append(": Felsklettern (");
    let joined = join_strs(&d.crags, ", ");
    s.append(joined.as_str());
    s.append(")");
    proof {
        reveal_strlit(", ");
        assert(s@ == render_day(day_view(*d)));
    }
    s
}

/// Renders the normalized canonical logbook, one line per day, in
/// ascending date order — the same shape the manual log uses.
pub fn print_logbook(lb: &Logbook) -> (r: String)
    requires
        lb.wf(),
    ensures
        r@ == spec_print(normalize_days(lb@)),
{
    let nlb = normalize_logbook(lb);
    let ghost nv = nlb@;
    let mut lines: Vec<String> = Vec::new();
    let n = nlb.days.len();
    let mut i: usize = 0;
    while i < n
        invariant
            i <= n,
            n == nlb.days@.len(),
            nv == nlb@,
            nlb.wf(),
            nv.len() == n,
            views(lines@) =~= render_lines(nv).take(i as int),
        decreases n - i,
    {
        let ghost prev = views(lines@);
        proof {
            assert(nv[i as int] == day_view(nlb.days@[i as int]));
            assert(wf_day(nv[i as int]));
        }
        let line = render_day_exec(&nlb.days[i]);
        lines.push(line);
        proof {
            assert(views(lines@) =~= prev.push(render_day(nv[i as int])));
            assert(views(lines@) =~= render_lines(nv).take(i + 1));
        }
        i = i + 1;
    }
    proof {
        assert(render_lines(nv).take(n as int) =~= render_lines(nv));
    }
    let r = join_strs(&lines, "\n");
    r
}

/// Builds, normalizes and renders the logbook of the tabular export.
/// It succeeds exactly when the tabular parse does.
pub fn get_thecrag_logbook_as_string(csv_string: &str) -> (r: Result<String, LogbookError>)
    ensures
        (r is Ok) <==> (csv_wf(csv_string@) && table_ticks_spec(csv_cells_of(csv_string@)) is Ok),
        match r {
            Ok(out) => (table_ticks_spec(csv_cells_of(csv_string@)) matches Ok(ts) && out@
                == spec_print(normalize_days(fold_ticks(ts)))),
            Err(e) => {
                &&& csv_wf(csv_string@) ==> table_ticks_spec(csv_cells_of(csv_string@)) == Err::<
                    Seq<(Seq<char>, Seq<char>, Date)>,
                    _,
                >(e@)
                &&& !csv_wf(csv_string@) ==> e is MalformedRow
            },
        },
{
    match get_logbook_from_thecrag(csv_string) {
        Err(e) => Err(e),
        Ok(lb) => Ok(print_logbook(&lb)),
    }
}


/// Normalization keeps a logbook well formed: the dates are untouched
/// and each day's names come back as a canonical non-empty sorted set.
pub proof fn lemma_normalize_days_wf(m: Seq<(Date, Seq<Seq<char>>)>)
    requires
        wf_days(m),
    ensures
        wf_days(normalize_days(m)),
{
    let r = normalize_days(m);
    assert forall|i: int| 0 <= i < r.len() implies wf_day(#[trigger] r[i]) by {
        assert(r[i] == normalize_day(m[i]));
        assert(wf_day(m[i]));
        let mapped = m[i].1.map_values(|n: Seq<char>| normalized(n));
        assert(mapped.len() == m[i].1.len());
        crate::logbook::lemma_set_of_names(mapped);
    }
    assert forall|i: int, j: int| 0 <= i < j < r.len() implies (#[trigger] r[i]).0.key() < (
    #[trigger] r[j]).0.key() by {
        assert(r[i].0 == m[i].0);
        assert(r[j].0 == m[j].0);
    }
}

} // verus!
