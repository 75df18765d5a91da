use vstd::prelude::*;
use crate::date::{parse_timestamp, parse_timestamp_spec, Date};
use crate::errors::{ErrView, LogbookError};
use crate::logbook::{lb_insert_crag, Logbook};
use crate::path::{crag_from_path, get_crag_name_from_path};
use crate::strings::{str_eq, views};

verus! {

/// One ascent of the tabular export: the route, the resolved crag and
/// the calendar date.
#[derive(Debug)]
pub struct Tick {
    pub route_name: String,
    pub crag_name: String,
    pub date: Date,
}

pub open spec fn tick_view(t: Tick) -> (Seq<char>, Seq<char>, Date) {
    (t.route_name@, t.crag_name@, t.date)
}

pub open spec fn ticks_view(ts: Seq<Tick>) -> Seq<(Seq<char>, Seq<char>, Date)> {
    ts.map_values(|t: Tick| tick_view(t))
}

pub open spec fn table_view(t: Seq<Vec<String>>) -> Seq<Seq<Seq<char>>> {
    t.map_values(|row: Vec<String>| views(row@))
}

/// What the csv crate makes of the input text: the header row followed
/// by the data rows, a function of the text alone.
pub uninterp spec fn csv_cells_of(s: Seq<char>) -> Seq<Seq<Seq<char>>>;

/// Whether the csv crate accepts the input text as delimited data:
/// a function of the text alone.
pub uninterp spec fn csv_wf(s: Seq<char>) -> bool;

/// Relies on csv::Reader, headers and records: parsing a string is
/// deterministic, so whether it succeeds is a function of the text
/// alone, and with the strict default every record that comes back
/// has as many fields as the header row.
#[verifier::external_body]
fn read_csv_table(s: &str) -> (r: Result<Vec<Vec<String>>, String>)
    ensures
        (r is Ok) == csv_wf(s@),
        match r {
            Ok(t) => {
                &&& table_view(t@) == csv_cells_of(s@)
                &&& t@.len() >= 1
                &&& forall|i: int| 0 <= i < t@.len() ==> (#[trigger] t@[i])@.len() == t@[0]@.len()
            },
            Err(_) => true,
        },
{
    let mut rdr = csv::Reader::from_reader(s.as_bytes());
    let mut out: Vec<Vec<String>> = Vec::new();
    match rdr.headers() {
        Ok(h) => out.push(h.iter().map(|f| f.to_string()).collect()),
        Err(e) => return Err(e.to_string()),
    }
    for rec in rdr.records() {
        match rec {
            Ok(rw) => out.push(rw.iter().map(|f| f.to_string()).collect()),
            Err(e) => return Err(e.to_string()),
        }
    }
    Ok(out)
}

/// The first column of the header bearing the wanted name.
pub open spec fn find_col(h: Seq<Seq<char>>, name: Seq<char>) -> Option<int>
    decreases h.len(),
{
    if h.len() == 0 {
        None
    } else if h[0] == name {
        Some(0int)
    } else {
        match find_col(h.drop_first(), name) {
            Some(i) => Some(i + 1),
            None => None,
        }
    }
}

pub proof fn lemma_find_col(h: Seq<Seq<char>>, name: Seq<char>)
    ensures
        match find_col(h, name) {
            Some(i) => 0 <= i < h.len() && h[i] == name && forall|j: int|
                0 <= j < i ==> h[j] != name,
            None => forall|j: int| 0 <= j < h.len() ==> h[j] != name,
        },
    decreases h.len(),
{
    if h.len() > 0 && h[0] != name {
        lemma_find_col(h.drop_first(), name);
        assert forall|j: int| 0 <= j < h.len() implies h.drop_first()[j - 1] == h[j] || j == 0 by {
            if j > 0 {
                assert(h.drop_first()[j - 1] == h[j]);
            }
        }
    }
}

fn find_col_exec(h: &Vec<String>, name: &str) -> (r: Option<usize>)
    ensures
        match r {
            Some(i) => find_col(views(h@), name@) == Some(i as int),
            None => find_col(views(h@), name@) is None,
        },
{
    proof {
        lemma_find_col(views(h@), name@);
    }
    let ghost hv = views(h@);
    let n = h.len();
    let mut i: usize = 0;
    while i < n
        invariant
            i <= n,
            n == h@.len(),
            hv == views(h@),
            hv.len() == n,
            forall|j: int| 0 <= j < i ==> hv[j] != name@,
        decreases n - i,
    {
        if str_eq(h[i].as_str(), name) {
            proof {
                lemma_find_col(hv, name@);
                assert(hv[i as int] == name@);
            }
            return Some(i);
        }
        i = i + 1;
    }
    proof {
        lemma_find_col(hv, name@);
    }
    None
}

/// What one data row yields: the ascent, or the first row-level error.
pub open spec fn row_tick(row: Seq<Seq<char>>, li: int, ci: int, di: int) -> Result<
    (Seq<char>, Seq<char>, Date),
    ErrView,
> {
    match crag_from_path(row[ci]) {
        None => Err(ErrView::MalformedRow(row[ci])),
        Some(cn) => match parse_timestamp_spec(row[di]) {
            None => Err(ErrView::BadDate(row[di])),
            Some(d) => Ok((row[li], cn, d)),
        },
    }
}

/// What the data rows yield, in input order; the first bad row wins.
pub open spec fn ticks_spec(rows: Seq<Seq<Seq<char>>>, li: int, ci: int, di: int) -> Result<
    Seq<(Seq<char>, Seq<char>, Date)>,
    ErrView,
>
    decreases rows.len(),
{
    if rows.len() == 0 {
        Ok(Seq::empty())
    } else {
        match row_tick(rows[0], li, ci, di) {
            Err(e) => Err(e),
            Ok(t) => match ticks_spec(rows.drop_first(), li, ci, di) {
                Err(e) => Err(e),
                Ok(ts) => Ok(seq![t] + ts),
            },
        }
    }
}

/// What the whole table yields.  A table with no data rows parses to
/// no ascents, whatever its header; otherwise each required column
/// must be present.
pub open spec fn table_ticks_spec(cells: Seq<Seq<Seq<char>>>) -> Result<
    Seq<(Seq<char>, Seq<char>, Date)>,
    ErrView,
> {
    if cells.len() <= 1 {
        Ok(Seq::empty())
    } else {
        match find_col(cells[0], "Ascent Label"@) {
            None => Err(ErrView::MissingField("Ascent Label"@)),
            Some(li) => match find_col(cells[0], "Crag Path"@) {
                None => Err(ErrView::MissingField("Crag Path"@)),
                Some(ci) => match find_col(cells[0], "Ascent Date"@) {
                    None => Err(ErrView::MissingField("Ascent Date"@)),
                    Some(di) => ticks_spec(cells.drop_first(), li, ci, di),
                },
            },
        }
    }
}

/// Converts the parsed table into ascent records, mirroring the input
/// row order.
pub fn ticks_from_table(cells: &Vec<Vec<String>>) -> (r: Result<Vec<Tick>, LogbookError>)
    requires
        forall|i: int| 0 <= i < cells@.len() ==> (#[trigger] cells@[i])@.len() == cells@[0]@.len(),
    ensures
        match r {
            Ok(ts) => table_ticks_spec(table_view(cells@)) == Ok::<_, ErrView>(ticks_view(ts@))
                && forall|i: int| 0 <= i < ts@.len() ==> (#[trigger] ts@[i]).date.valid(),
            Err(e) => table_ticks_spec(table_view(cells@)) == Err::<
                Seq<(Seq<char>, Seq<char>, Date)>,
                _,
            >(e@),
        },
{
    let ghost tv = table_view(cells@);
    if cells.len() <= 1 {
        let r: Vec<Tick> = Vec::new();
        proof {
            assert(ticks_view(r@) =~= Seq::<(Seq<char>, Seq<char>, Date)>::empty());
        }
        return Ok(r);
    }
    proof {
        assert(tv[0] == views(cells@[0]@));
    }
    let li = match find_col_exec(&cells[0], "Ascent Label") {
        Some(i) => i,
        None => {
            return Err(LogbookError::MissingField(String::from_str("Ascent Label")));
        },
    };
    let ci = match find_col_exec(&cells[0], "Crag Path") {
        Some(i) => i,
        None => {
            return Err(LogbookError::MissingField(String::from_str("Crag Path")));
        },
    };
    let di = match find_col_exec(&cells[0], "Ascent Date") {
        Some(i) => i,
        None => {
            return Err(LogbookError::MissingField(String::from_str("Ascent Date")));
        },
    };
    proof {
        lemma_find_col(tv[0], "Ascent Label"@);
        lemma_find_col(tv[0], "Crag Path"@);
        lemma_find_col(tv[0], "Ascent Date"@);
    }

    let ghost rowsv = tv.drop_first();
    let n = cells.len();
    let mut ticks: Vec<Tick> = Vec::new();
    let mut k: usize = 1;
    proof {
        assert(rowsv.skip(0) =~= rowsv);
        assert(ticks_view(ticks@) =~= Seq::<(Seq<char>, Seq<char>, Date)>::empty());
        assert(table_ticks_spec(tv) == ticks_spec(rowsv, li as int, ci as int, di as int));
        assert(table_ticks_spec(tv) == tick_compose(
            ticks_view(ticks@),
            ticks_spec(rowsv.skip(0), li as int, ci as int, di as int),
        )) by {
            match ticks_spec(rowsv, li as int, ci as int, di as int) {
                Ok(ts) => {
                    assert(Seq::<(Seq<char>, Seq<char>, Date)>::empty() + ts =~= ts);
                },
                Err(_) => {},
            }
        }
    }
    while k < n
        invariant
            1 <= k <= n,
            n == cells@.len(),
            tv == table_view(cells@),
            tv.len() == n,
            rowsv == tv.drop_first(),
            li < cells@[0]@.len(),
            ci < cells@[0]@.len(),
            di < cells@[0]@.len(),
            forall|i: int|
                0 <= i < cells@.len() ==> (#[trigger] cells@[i])@.len() == cells@[0]@.len(),
            forall|i: int| 0 <= i < ticks@.len() ==> (#[trigger] ticks@[i]).date.valid(),
            table_ticks_spec(tv) == tick_compose(
                ticks_view(ticks@),
                ticks_spec(rowsv.skip(k - 1), li as int, ci as int, di as int),
            ),
        decreases n - k,
    {
        let ghost pending = ticks_spec(rowsv.skip(k - 1), li as int, ci as int, di as int);
        let ghost rowv = views(cells@[k as int]@);
        proof {
            assert(rowsv.skip(k - 1).len() > 0);
            assert(rowsv.skip(k - 1)[0] == rowsv[k - 1]);
            assert(rowsv[k - 1] == tv[k as int]);
            assert(tv[k as int] == rowv);
            assert(rowsv.skip(k - 1).drop_first() =~= rowsv.skip(k as int));
        }
        let row = &cells[k];
        proof {
            assert(rowv[li as int] == row@[li as int]@);
            assert(rowv[ci as int] == row@[ci as int]@);
            assert(rowv[di as int] == row@[di as int]@);
        }
        let crag = match get_crag_name_from_path(row[ci].as_str()) {
            Some(c) => c,
            None => {
                proof {
                    assert(row_tick(rowv, li as int, ci as int, di as int) == Err::<
                        (Seq<char>, Seq<char>, Date),
                        ErrView,
                    >(ErrView::MalformedRow(rowv[ci as int])));
                }
                return Err(LogbookError::MalformedRow(row[ci].clone()));
            },
        };
        let date = match parse_timestamp(row[di].as_str()) {
            Some(d) => d,
            None => {
                proof {
                    assert(row_tick(rowv, li as int, ci as int, di as int) == Err::<
                        (Seq<char>, Seq<char>, Date),
                        ErrView,
                    >(ErrView::BadDate(rowv[di as int])));
                }
                return Err(LogbookError::BadDate(row[di].clone()));
            },
        };
        let t = Tick { route_name: row[li].clone(), crag_name: crag, date };
        let ghost tm = tick_view(t);
        let ghost tprev = ticks_view(ticks@);
        ticks.push(t);
        proof {
            assert(row_tick(rowv, li as int, ci as int, di as int) == Ok::<_, ErrView>(tm));
            assert(ticks_view(ticks@) =~= tprev + seq![tm]);
            match ticks_spec(rowsv.skip(k as int), li as int, ci as int, di as int) {
                Ok(rest) => {
                    assert(tprev + (seq![tm] + rest) =~= (tprev + seq![tm]) + rest);
                },
                Err(_) => {},
            }
        }
        k = k + 1;
    }
    proof {
        assert(rowsv.skip(n - 1) =~= Seq::<Seq<Seq<char>>>::empty());
    }
    Ok(ticks)
}

/// Prepends already-parsed ascents to the outcome of the rows still
/// to come.
pub open spec fn tick_compose(
    done: Seq<(Seq<char>, Seq<char>, Date)>,
    rest: Result<Seq<(Seq<char>, Seq<char>, Date)>, ErrView>,
) -> Result<Seq<(Seq<char>, Seq<char>, Date)>, ErrView> {
    match rest {
        Ok(ts) => Ok(done + ts),
        Err(e) => Err(e),
    }
}

/// The logbook folded from a run of ascents, in input order.
pub open spec fn fold_ticks(ts: Seq<(Seq<char>, Seq<char>, Date)>) -> Seq<(Date, Seq<Seq<char>>)>
    decreases ts.len(),
{
    if ts.len() == 0 {
        Seq::empty()
    } else {
        lb_insert_crag(fold_ticks(ts.drop_last()), ts.last().2, ts.last().1)
    }
}

/// Folds ascent records into a logbook: the crag name of every ascent
/// is unioned into the set kept for its date.
pub fn logbook_from_ticks(ticks: &Vec<Tick>) -> (r: Logbook)
    requires
        forall|i: int| 0 <= i < ticks@.len() ==> (#[trigger] ticks@[i]).date.valid(),
    ensures
        r@ == fold_ticks(ticks_view(ticks@)),
        r.wf(),
{
    let ghost tsv = ticks_view(ticks@);
    let mut lb = Logbook::new();
    let n = ticks.len();
    let mut i: usize = 0;
    proof {
        assert(fold_ticks(tsv.take(0)) =~= Seq::<(Date, Seq<Seq<char>>)>::empty());
    }
    while i < n
        invariant
            i <= n,
            n == ticks@.len(),
            tsv == ticks_view(ticks@),
            tsv.len() == n,
            forall|j: int| 0 <= j < ticks@.len() ==> (#[trigger] ticks@[j]).date.valid(),
            lb@ == fold_ticks(tsv.take(i as int)),
            lb.wf(),
        decreases n - i,
    {
        let t = &ticks[i];
        lb.add_ascent(t.date, t.crag_name.clone());
        proof {
            assert(tsv.take(i + 1).drop_last() =~= tsv.take(i as int));
            assert(tsv.take(i + 1).last() == tsv[i as int]);
            assert(tsv[i as int] == tick_view(ticks@[i as int]));
        }
        i = i + 1;
    }
    proof {
        assert(tsv.take(n as int) =~= tsv);
    }
    lb
}

/// Extracts the ascent records from the tabular export text.  It
/// succeeds exactly when the csv crate accepts the text and every
/// data row resolves and carries a well-formed timestamp.
pub fn get_ticks_from_csv(csv_string: &str) -> (r: Result<Vec<Tick>, LogbookError>)
    ensures
        (r is Ok) <==> (csv_wf(csv_string@) && table_ticks_spec(csv_cells_of(csv_string@)) is Ok),
        match r {
            Ok(ts) => table_ticks_spec(csv_cells_of(csv_string@)) == Ok::<_, ErrView>(ticks_view(
                ts@,
            )) && forall|i: int| 0 <= i < ts@.len() ==> (#[trigger] ts@[i]).date.valid(),
            Err(e) => {
                &&& csv_wf(csv_string@) ==> table_ticks_spec(csv_cells_of(csv_string@)) == Err::<
                    Seq<(Seq<char>, Seq<char>, Date)>,
                    _,
                >(e@)
                &&& !csv_wf(csv_string@) ==> e is MalformedRow
            },
        },
{
    match read_csv_table(csv_string) {
        Err(msg) => Err(LogbookError::MalformedRow(msg)),
        Ok(cells) => ticks_from_table(&cells),
    }
}

/// Builds the canonical logbook from the tabular export text.  It
/// succeeds exactly when the tabular parse does, and then folds the
/// ascents in row order.
pub fn get_logbook_from_thecrag(csv_string: &str) -> (r: Result<Logbook, LogbookError>)
    ensures
        (r is Ok) <==> (csv_wf(csv_string@) && table_ticks_spec(csv_cells_of(csv_string@)) is Ok),
        match r {
            Ok(lb) => (table_ticks_spec(csv_cells_of(csv_string@)) matches Ok(ts) && lb@
                == fold_ticks(ts)) && lb.wf(),
            Err(e) => {
                &&& csv_wf(csv_string@) ==> table_ticks_spec(csv_cells_of(csv_string@)) == Err::<
                    Seq<(Seq<char>, Seq<char>, Date)>,
                    _,
                >(e@)
                &&& !csv_wf(csv_string@) ==> e is MalformedRow
            },
        },
{
    match get_ticks_from_csv(csv_string) {
        Err(e) => Err(e),
        Ok(ticks) => Ok(logbook_from_ticks(&ticks)),
    }
}

} // verus!
