use vstd::prelude::*;
use vstd::string::StrSliceExecFns;
use vstd::string::StringExecFns;
use crate::date::{parse_date, parse_date_spec, Date};
use crate::errors::{ErrView, LogbookError};
use crate::logbook::{crags_to_set, lb_set_day, set_of_names, LogDay, Logbook};
use crate::strings::{spec_split, split_str, str_eq, views};

verus! {

/// A character the date portion of a structured line may consist of.
pub open spec fn is_date_char(c: char) -> bool {
    c == '-' || ('0' <= c <= '9')
}

fn is_paren_char(c: char) -> (r: bool)
    ensures
        r == (c == '(' || c == ')'),
{
    c == '(' || c == ')'
}

fn is_date_char_exec(c: char) -> (r: bool)
    ensures
        r == is_date_char(c),
{
    c == '-' || ('0' <= c && c <= '9')
}

/// The length of the longest prefix of digits and dashes.
pub open spec fn date_prefix_len(s: Seq<char>) -> int
    decreases s.len(),
{
    if s.len() > 0 && is_date_char(s[0]) {
        1 + date_prefix_len(s.drop_first())
    } else {
        0
    }
}

pub proof fn lemma_date_prefix_len(s: Seq<char>)
    ensures
        0 <= date_prefix_len(s) <= s.len(),
        forall|i: int| 0 <= i < date_prefix_len(s) ==> is_date_char(#[trigger] s[i]),
        date_prefix_len(s) < s.len() ==> !is_date_char(s[date_prefix_len(s)]),
    decreases s.len(),
{
    if s.len() > 0 && is_date_char(s[0]) {
        lemma_date_prefix_len(s.drop_first());
        assert forall|i: int| 0 <= i < date_prefix_len(s) implies is_date_char(#[trigger] s[i]) by {
            if i > 0 {
                assert(s.drop_first()[i - 1] == s[i]);
            }
        }
        if date_prefix_len(s) < s.len() {
            assert(s.drop_first()[date_prefix_len(s) - 1] == s[date_prefix_len(s)]);
        }
    }
}

/// The first index holding a parenthesis, of either kind.
pub open spec fn paren_index(s: Seq<char>) -> Option<int>
    decreases s.len(),
{
    if s.len() == 0 {
        None
    } else if s[0] == '(' || s[0] == ')' {
        Some(0int)
    } else {
        match paren_index(s.drop_first()) {
            Some(i) => Some(i + 1),
            None => None,
        }
    }
}

pub proof fn lemma_paren_index(s: Seq<char>)
    ensures
        match paren_index(s) {
            Some(i) => 0 <= i < s.len() && (s[i] == '(' || s[i] == ')') && forall|j: int|
                0 <= j < i ==> !(#[trigger] s[j] == '(' || s[j] == ')'),
            None => forall|j: int| 0 <= j < s.len() ==> !(#[trigger] s[j] == '(' || s[j] == ')'),
        },
    decreases s.len(),
{
    if s.len() > 0 && !(s[0] == '(' || s[0] == ')') {
        lemma_paren_index(s.drop_first());
        assert forall|j: int| 1 <= j < s.len() implies s.drop_first()[j - 1] == s[j] by {}
    }
}

/// Whether a line has the structured shape, and if so its date portion
/// and its crag-list portion.
pub open spec fn line_shape(s: Seq<char>) -> Option<(Seq<char>, Seq<char>)> {
    let k = date_prefix_len(s);
    if k == 0 {
        None
    } else if !(k + 16 <= s.len() && s.subrange(k, k + 16) == ": Felsklettern ("@) {
        None
    } else {
        let rest = s.skip(k + 16);
        match paren_index(rest) {
            Some(j) => if rest[j] == ')' && j >= 1 {
                Some((s.take(k), rest.take(j)))
            } else {
                None
            },
            None => None,
        }
    }
}

/// What one line of the log yields: nothing for free prose, a day
/// record for a structured line, and the offending date portion when
/// a structured line carries an impossible date.
pub open spec fn line_result(l: Seq<char>) -> Result<Option<(Date, Seq<Seq<char>>)>, Seq<char>> {
    match line_shape(l) {
        None => Ok(None),
        Some(parts) => match parse_date_spec(parts.0) {
            None => Err(parts.0),
            Some(d) => Ok(Some((d, set_of_names(spec_split(parts.1, ", "@))))),
        },
    }
}

/// Parses one line of the manual log.
pub fn parse_txt_line(line: &str) -> (r: Result<Option<LogDay>, LogbookError>)
    ensures
        match r {
            Ok(opt) => match opt {
                None => line_result(line@) == Ok::<Option<(Date, Seq<Seq<char>>)>, Seq<char>>(
                    None,
                ),
                Some(ld) => line_result(line@) == Ok::<_, Seq<char>>(
                    Some((ld.date, views(ld.crags@))),
                ) && ld.date.valid() && crate::logbook::sorted_names(views(ld.crags@)) && views(
                    ld.crags@,
                ).len() >= 1,
            },
            Err(e) => line_result(line@) matches Err(ds) && e@ == ErrView::BadDate(ds),
        },
{
    proof {
        lemma_date_prefix_len(line@);
    }
    let n = line.unicode_len();
    let mut k: usize = 0;
    while k < n && is_date_char_exec(line.get_char(k))
        invariant
            0 <= k <= n,
            n == line@.len(),
            forall|i: int| 0 <= i < k ==> is_date_char(#[trigger] line@[i]),
        decreases n - k,
    {
        k = k + 1;
    }
    proof {
        lemma_date_prefix_len(line@);
        assert(date_prefix_len(line@) == k);
    }
    if k == 0 {
        return Ok(None);
    }
    if n - k < 16 {
        return Ok(None);
    }
    let lit = line.substring_char(k, k + 16);
    proof {
        assert(lit@ =~= line@.subrange(k as int, k + 16));
    }
    if !str_eq(lit, ": Felsklettern (") {
        return Ok(None);
    }
    let rest = line.substring_char(k + 16, n);
    proof {
        assert(rest@ =~= line@.skip(k + 16));
        lemma_paren_index(rest@);
    }
    let m = rest.unicode_len();
    let mut j: usize = 0;
    while j < m && !is_paren_char(rest.get_char(j))
        invariant
            0 <= j <= m,
            m == rest@.len(),
            forall|i: int| 0 <= i < j ==> !(#[trigger] rest@[i] == '(' || rest@[i] == ')'),
        decreases m - j,
    {
        j = j + 1;
    }
    proof {
        lemma_paren_index(rest@);
    }
    if j >= m {
        proof {
            assert(paren_index(rest@) is None);
        }
        return Ok(None);
    }
    proof {
        assert(paren_index(rest@) == Some(j as int));
    }
    if j == 0 || rest.get_char(j) != ')' {
        return Ok(None);
    }
    let date_str = line.substring_char(0, k);
    proof {
        assert(date_str@ =~= line@.take(k as int));
    }
    let date = match parse_date(date_str) {
        Some(d) => d,
        None => {
            return Err(LogbookError::BadDate(String::from_str(date_str)));
        },
    };
    let crags_str = rest.substring_char(0, j);
    proof {
        assert(crags_str@ =~= rest@.take(j as int));
        reveal_strlit(", ");
    }
    let raw_names = split_str(crags_str, ", ");
    let crags = crags_to_set(&raw_names);
    Ok(Some(LogDay { date, crags }))
}

/// The lines after the first sentinel line; none when the sentinel
/// never appears.
pub open spec fn after_sentinel(ls: Seq<Seq<char>>) -> Seq<Seq<char>>
    decreases ls.len(),
{
    if ls.len() == 0 {
        Seq::empty()
    } else if ls[0] == "### BEGIN theCrag sync"@ {
        ls.drop_first()
    } else {
        after_sentinel(ls.drop_first())
    }
}

/// The non-empty lines of the log text.
pub open spec fn nonempty_lines(s: Seq<char>) -> Seq<Seq<char>> {
    spec_split(s, "\n"@).filter(|l: Seq<char>| l.len() > 0)
}

/// Folding the structured lines into a logbook, last write winning;
/// the first impossible date aborts the fold.
pub open spec fn fold_lines(
    acc: Seq<(Date, Seq<Seq<char>>)>,
    ls: Seq<Seq<char>>,
) -> Result<Seq<(Date, Seq<Seq<char>>)>, Seq<char>>
    decreases ls.len(),
{
    if ls.len() == 0 {
        Ok(acc)
    } else {
        match line_result(ls[0]) {
            Err(ds) => Err(ds),
            Ok(None) => fold_lines(acc, ls.drop_first()),
            Ok(Some(dm)) => fold_lines(lb_set_day(acc, dm.0, dm.1), ls.drop_first()),
        }
    }
}

/// What the whole manual-log text yields.
pub open spec fn txt_logbook_spec(s: Seq<char>) -> Result<
    Seq<(Date, Seq<Seq<char>>)>,
    Seq<char>,
> {
    fold_lines(Seq::empty(), after_sentinel(nonempty_lines(s)))
}

/// Builds the canonical logbook from the manual-log text.
pub fn get_logbook_from_txt(logbook_string: &str) -> (r: Result<Logbook, LogbookError>)
    ensures
        match r {
            Ok(lb) => txt_logbook_spec(logbook_string@) == Ok::<_, Seq<char>>(lb@) && lb.wf(),
            Err(e) => txt_logbook_spec(logbook_string@) matches Err(ds) && e@ == ErrView::BadDate(
                ds,
            ),
        },
{
    proof {
        reveal_strlit("\n");
    }
    let all_lines = split_str(logbook_string, "\n");
    let ghost allv = views(all_lines@);

    let mut lines: Vec<String> = Vec::new();
    let nl = all_lines.len();
    let mut i: usize = 0;
    proof {
        reveal(Seq::filter);
        assert(views(lines@) =~= allv.take(0).filter(|l: Seq<char>| l.len() > 0));
    }
    while i < nl
        invariant
            i <= nl,
            nl == all_lines@.len(),
            allv == views(all_lines@),
            allv.len() == nl,
            views(lines@) == allv.take(i as int).filter(|l: Seq<char>| l.len() > 0),
        decreases nl - i,
    {
        let ghost prev = views(lines@);
        if all_lines[i].as_str().unicode_len() > 0 {
            lines.push(all_lines[i].clone());
            proof {
                assert(views(lines@) =~= prev.push(allv[i as int]));
            }
        }
        proof {
            reveal(Seq::filter);
            assert(allv.take(i + 1).drop_last() =~= allv.take(i as int));
            assert(allv.take(i + 1).last() == allv[i as int]);
        }
        i = i + 1;
    }
    proof {
        assert(allv.take(nl as int) =~= allv);
    }

    let ghost lsv = views(lines@);
    let nf = lines.len();
    let mut start: usize = 0;
    let mut seen: bool = false;
    proof {
        assert(lsv.skip(0) =~= lsv);
    }
    while start < nf && !seen
        invariant
            start <= nf,
            nf == lines@.len(),
            lsv == views(lines@),
            lsv.len() == nf,
            seen ==> 1 <= start && lsv[start - 1] == "### BEGIN theCrag sync"@ && after_sentinel(
                lsv,
            ) == lsv.skip(start as int),
            !seen ==> after_sentinel(lsv) == after_sentinel(lsv.skip(start as int)),
        decreases nf - start,
    {
        let hit = str_eq(lines[start].as_str(), "### BEGIN theCrag sync");
        proof {
            assert(lsv.skip(start as int)[0] == lsv[start as int]);
            assert(lsv.skip(start as int).drop_first() =~= lsv.skip(start + 1));
        }
        start = start + 1;
        if hit {
            seen = true;
        }
    }
    proof {
        if !seen {
            assert(lsv.skip(nf as int) =~= Seq::<Seq<char>>::empty());
        }
    }
    let ghost effective = after_sentinel(lsv);

    let mut lb = Logbook::new();
    if !seen {
        proof {
            assert(fold_lines(lb@, effective) == Ok::<_, Seq<char>>(lb@));
        }
        return Ok(lb);
    }

    let mut p: usize = start;
    proof {
        assert(effective =~= lsv.skip(start as int));
        assert(effective.skip(0) =~= effective);
        assert(lsv == nonempty_lines(logbook_string@));
        assert(txt_logbook_spec(logbook_string@) == fold_lines(lb@, effective.skip(0)));
    }
    while p < nf
        invariant
            start <= p <= nf,
            nf == lines@.len(),
            lsv == views(lines@),
            lsv.len() == nf,
            effective == after_sentinel(lsv),
            effective == lsv.skip(start as int),
            lb.wf(),
            txt_logbook_spec(logbook_string@) == fold_lines(
                lb@,
                effective.skip(p - start),
            ),
        decreases nf - p,
    {
        let ghost remaining = effective.skip(p - start);
        proof {
            assert(remaining.len() > 0);
            assert(remaining[0] == lsv[p as int]);
            assert(remaining.drop_first() =~= effective.skip(p + 1 - start));
        }
        match parse_txt_line(lines[p].as_str()) {
            Err(e) => {
                return Err(e);
            },
            Ok(None) => {},
            Ok(Some(ld)) => {
                let LogDay { date, crags } = ld;
                let ghost cv = views(crags@);
                lb.set_day(date, crags);
            },
        }
        p = p + 1;
    }
    proof {
        assert(effective.skip(nf - start) =~= Seq::<Seq<char>>::empty());
    }
    Ok(lb)
}

} // verus!
