use vstd::prelude::*;
use vstd::string::StringExecFns;
use crate::date::{date_seq_of, format_date, Date};
use crate::logbook::{day_view, wf_day, wf_days, Logbook};
use crate::render::{normalize_days, normalize_logbook};
use crate::strings::{join_strs, spec_join, str_eq, views};

verus! {

/// One discrepancy between the two logbooks.
#[derive(Debug)]
pub enum DiffEntry {
    /// A whole day of the external source that the manual log lacks.
    MissingDay { date: Date, crags: Vec<String> },
    /// A whole day of the manual log that the external source lacks.
    ExtraDay { date: Date, crags: Vec<String> },
    /// A day both know, with crags missing from or extraneous in the
    /// manual log.
    ChangedDay { date: Date, missing: Vec<String>, extra: Vec<String> },
}

/// The mathematical content of a discrepancy.
pub enum DiffItem {
    MissingDay(Date, Seq<Seq<char>>),
    ExtraDay(Date, Seq<Seq<char>>),
    ChangedDay(Date, Seq<Seq<char>>, Seq<Seq<char>>),
}

impl View for DiffEntry {
    type V = DiffItem;

    open spec fn view(&self) -> DiffItem {
        match self {
            DiffEntry::MissingDay { date, crags } => DiffItem::MissingDay(*date, views(crags@)),
            DiffEntry::ExtraDay { date, crags } => DiffItem::ExtraDay(*date, views(crags@)),
            DiffEntry::ChangedDay { date, missing, extra } => DiffItem::ChangedDay(
                *date,
                views(missing@),
                views(extra@),
            ),
        }
    }
}

pub open spec fn items_view(es: Seq<DiffEntry>) -> Seq<DiffItem> {
    es.map_values(|e: DiffEntry| e@)
}

/// The names of `a` that `b` lacks, in `a`'s order.
pub open spec fn names_diff(a: Seq<Seq<char>>, b: Seq<Seq<char>>) -> Seq<Seq<char>> {
    a.filter(|x: Seq<char>| !b.contains(x))
}

/// The per-day, per-crag symmetric difference of two canonical
/// logbooks, walked over the union of their dates in ascending order.
pub open spec fn diff_items(
    a: Seq<(Date, Seq<Seq<char>>)>,
    b: Seq<(Date, Seq<Seq<char>>)>,
) -> Seq<DiffItem>
    decreases a.len() + b.len(),
{
    if a.len() == 0 && b.len() == 0 {
        Seq::empty()
    } else if b.len() == 0 || (a.len() > 0 && b.len() > 0 && a[0].0.key() < b[0].0.key()) {
        seq![DiffItem::MissingDay(a[0].0, a[0].1)] + diff_items(a.drop_first(), b)
    } else if a.len() == 0 || (a[0].0.key() > b[0].0.key()) {
        seq![DiffItem::ExtraDay(b[0].0, b[0].1)] + diff_items(a, b.drop_first())
    } else {
        let miss = names_diff(a[0].1, b[0].1);
        let extra = names_diff(b[0].1, a[0].1);
        (if miss.len() == 0 && extra.len() == 0 {
            Seq::<DiffItem>::empty()
        } else {
            seq![DiffItem::ChangedDay(a[0].0, miss, extra)]
        }) + diff_items(a.drop_first(), b.drop_first())
    }
}

/// A sequence holds nothing that another sequence does not also hold:
/// then the difference against the latter is empty.
pub proof fn lemma_names_diff_empty(s: Seq<Seq<char>>, t: Seq<Seq<char>>)
    requires
        forall|i: int| 0 <= i < s.len() ==> t.contains(#[trigger] s[i]),
    ensures
        s.filter(|x: Seq<char>| !t.contains(x)) == Seq::<Seq<char>>::empty(),
    decreases s.len(),
{
    reveal(Seq::filter);
    if s.len() > 0 {
        assert forall|i: int| 0 <= i < s.drop_last().len() implies t.contains(
            #[trigger] s.drop_last()[i],
        ) by {
            assert(s.drop_last()[i] == s[i]);
        }
        lemma_names_diff_empty(s.drop_last(), t);
        assert(t.contains(s.last())) by {
            assert(s[s.len() - 1] == s.last());
        }
    }
}

/// Diffing a logbook against itself yields nothing at all.
pub proof fn lemma_diff_self(m: Seq<(Date, Seq<Seq<char>>)>)
    ensures
        diff_items(m, m) == Seq::<DiffItem>::empty(),
    decreases m.len(),
{
    if m.len() > 0 {
        lemma_diff_self(m.drop_first());
        assert forall|i: int| 0 <= i < m[0].1.len() implies m[0].1.contains(
            #[trigger] m[0].1[i],
        ) by {}
        lemma_names_diff_empty(m[0].1, m[0].1);
        assert(diff_items(m, m) =~= Seq::<DiffItem>::empty());
    }
}

/// The mirror image of a discrepancy: the labels swap, the content
/// stays.
pub open spec fn swap_item(it: DiffItem) -> DiffItem {
    match it {
        DiffItem::MissingDay(d, c) => DiffItem::ExtraDay(d, c),
        DiffItem::ExtraDay(d, c) => DiffItem::MissingDay(d, c),
        DiffItem::ChangedDay(d, miss, extra) => DiffItem::ChangedDay(d, extra, miss),
    }
}

/// Swapping the two logbooks swaps every label and nothing else: the
/// same days and crags are flagged either way round.
pub proof fn lemma_diff_antisymmetric(
    a: Seq<(Date, Seq<Seq<char>>)>,
    b: Seq<(Date, Seq<Seq<char>>)>,
)
    requires
        wf_days(a),
        wf_days(b),
    ensures
        diff_items(b, a) == diff_items(a, b).map_values(|it: DiffItem| swap_item(it)),
    decreases a.len() + b.len(),
{
    let f = |it: DiffItem| swap_item(it);
    if a.len() > 0 {
        assert(wf_days(a.drop_first())) by {
            assert forall|i: int| 0 <= i < a.drop_first().len() implies wf_day(
                #[trigger] a.drop_first()[i],
            ) by {
                assert(a.drop_first()[i] == a[i + 1]);
            }
        }
    }
    if b.len() > 0 {
        assert(wf_days(b.drop_first())) by {
            assert forall|i: int| 0 <= i < b.drop_first().len() implies wf_day(
                #[trigger] b.drop_first()[i],
            ) by {
                assert(b.drop_first()[i] == b[i + 1]);
            }
        }
    }
    if a.len() == 0 && b.len() == 0 {
        assert(diff_items(b, a) =~= diff_items(a, b).map_values(f));
    } else if b.len() == 0 || (a.len() > 0 && b.len() > 0 && a[0].0.key() < b[0].0.key()) {
        lemma_diff_antisymmetric(a.drop_first(), b);
        assert(diff_items(b, a) =~= diff_items(a, b).map_values(f));
    } else if a.len() == 0 || (a[0].0.key() > b[0].0.key()) {
        lemma_diff_antisymmetric(a, b.drop_first());
        assert(diff_items(b, a) =~= diff_items(a, b).map_values(f));
    } else {
        assert(wf_day(a[0]));
        assert(wf_day(b[0]));
        crate::date::lemma_key_injective(a[0].0, b[0].0);
        lemma_diff_antisymmetric(a.drop_first(), b.drop_first());
        assert(diff_items(b, a) =~= diff_items(a, b).map_values(f));
    }
}

pub open spec fn item_date(it: DiffItem) -> Date {
    match it {
        DiffItem::MissingDay(d, _) => d,
        DiffItem::ExtraDay(d, _) => d,
        DiffItem::ChangedDay(d, _, _) => d,
    }
}

/// Whether some day of the logbook carries the given date key.
pub open spec fn has_date_key(m: Seq<(Date, Seq<Seq<char>>)>, key: int) -> bool {
    exists|p: int| 0 <= p < m.len() && (#[trigger] m[p]).0.key() == key
}

/// Every flagged date comes from one of the two logbooks.
proof fn lemma_diff_item_keys(a: Seq<(Date, Seq<Seq<char>>)>, b: Seq<(Date, Seq<Seq<char>>)>)
    ensures
        forall|k: int|
            0 <= k < diff_items(a, b).len() ==> has_date_key(
                a,
                item_date(#[trigger] diff_items(a, b)[k]).key(),
            ) || has_date_key(b, item_date(diff_items(a, b)[k]).key()),
    decreases a.len() + b.len(),
{
    let r = diff_items(a, b);
    if a.len() == 0 && b.len() == 0 {
    } else if b.len() == 0 || (a.len() > 0 && b.len() > 0 && a[0].0.key() < b[0].0.key()) {
        lemma_diff_item_keys(a.drop_first(), b);
        let rest = diff_items(a.drop_first(), b);
        assert forall|k: int| 0 <= k < r.len() implies has_date_key(
            a,
            item_date(#[trigger] r[k]).key(),
        ) || has_date_key(b, item_date(r[k]).key()) by {
            if k == 0 {
                assert(a[0].0.key() == item_date(r[0]).key());
            } else {
                assert(r[k] == rest[k - 1]);
                let key = item_date(rest[k - 1]).key();
                if has_date_key(a.drop_first(), key) {
                    let p = choose|p: int|
                        0 <= p < a.drop_first().len() && (#[trigger] a.drop_first()[p]).0.key()
                            == key;
                    assert(a[p + 1].0.key() == key);
                }
            }
        }
    } else if a.len() == 0 || (a[0].0.key() > b[0].0.key()) {
        lemma_diff_item_keys(a, b.drop_first());
        let rest = diff_items(a, b.drop_first());
        assert forall|k: int| 0 <= k < r.len() implies has_date_key(
            a,
            item_date(#[trigger] r[k]).key(),
        ) || has_date_key(b, item_date(r[k]).key()) by {
            if k == 0 {
                assert(b[0].0.key() == item_date(r[0]).key());
            } else {
                assert(r[k] == rest[k - 1]);
                let key = item_date(rest[k - 1]).key();
                if has_date_key(b.drop_first(), key) {
                    let p = choose|p: int|
                        0 <= p < b.drop_first().len() && (#[trigger] b.drop_first()[p]).0.key()
                            == key;
                    assert(b[p + 1].0.key() == key);
                }
            }
        }
    } else {
        lemma_diff_item_keys(a.drop_first(), b.drop_first());
        let rest = diff_items(a.drop_first(), b.drop_first());
        let miss = names_diff(a[0].1, b[0].1);
        let extra = names_diff(b[0].1, a[0].1);
        let head: int = if miss.len() == 0 && extra.len() == 0 {
            0
        } else {
            1
        };
        assert forall|k: int| 0 <= k < r.len() implies has_date_key(
            a,
            item_date(#[trigger] r[k]).key(),
        ) || has_date_key(b, item_date(r[k]).key()) by {
            if head == 1 && k == 0 {
                assert(a[0].0.key() == item_date(r[0]).key());
            } else {
                assert(r[k] == rest[k - head]);
                let key = item_date(rest[k - head]).key();
                if has_date_key(a.drop_first(), key) {
                    let p = choose|p: int|
                        0 <= p < a.drop_first().len() && (#[trigger] a.drop_first()[p]).0.key()
                            == key;
                    assert(a[p + 1].0.key() == key);
                } else if has_date_key(b.drop_first(), key) {
                    let p = choose|p: int|
                        0 <= p < b.drop_first().len() && (#[trigger] b.drop_first()[p]).0.key()
                            == key;
                    assert(b[p + 1].0.key() == key);
                }
            }
        }
    }
}

/// A day known only to the external source is flagged exactly once:
/// as one whole-day entry tagged missing, carrying all its crags, and
/// nothing is emitted in the other direction for that date.
pub proof fn lemma_diff_missing_day(
    a: Seq<(Date, Seq<Seq<char>>)>,
    b: Seq<(Date, Seq<Seq<char>>)>,
    i: int,
)
    requires
        wf_days(a),
        wf_days(b),
        0 <= i < a.len(),
        forall|j: int| 0 <= j < b.len() ==> (#[trigger] b[j]).0.key() != a[i].0.key(),
    ensures
        exists|k: int|
            0 <= k < diff_items(a, b).len() && #[trigger] diff_items(a, b)[k]
                == DiffItem::MissingDay(a[i].0, a[i].1),
        forall|k: int|
            0 <= k < diff_items(a, b).len() && item_date(#[trigger] diff_items(a, b)[k]).key()
                == a[i].0.key() ==> diff_items(a, b)[k] == DiffItem::MissingDay(a[i].0, a[i].1),
    decreases a.len() + b.len(),
{
    let r = diff_items(a, b);
    if a.len() > 0 {
        assert(wf_days(a.drop_first())) by {
            assert forall|p: int| 0 <= p < a.drop_first().len() implies wf_day(
                #[trigger] a.drop_first()[p],
            ) by {
                assert(a.drop_first()[p] == a[p + 1]);
            }
        }
    }
    if b.len() > 0 {
        assert(wf_days(b.drop_first())) by {
            assert forall|p: int| 0 <= p < b.drop_first().len() implies wf_day(
                #[trigger] b.drop_first()[p],
            ) by {
                assert(b.drop_first()[p] == b[p + 1]);
            }
        }
    }
    if b.len() == 0 || (b.len() > 0 && a[0].0.key() < b[0].0.key()) {
        let rest = diff_items(a.drop_first(), b);
        if i == 0 {
            assert(r[0] == DiffItem::MissingDay(a[0].0, a[0].1));
            lemma_diff_item_keys(a.drop_first(), b);
            assert forall|k: int|
                0 <= k < r.len() && item_date(#[trigger] r[k]).key()
                    == a[0].0.key() implies r[k] == DiffItem::MissingDay(a[0].0, a[0].1) by {
                if k > 0 {
                    assert(r[k] == rest[k - 1]);
                    let key = item_date(rest[k - 1]).key();
                    if has_date_key(a.drop_first(), key) {
                        let p = choose|p: int|
                            0 <= p < a.drop_first().len() && (#[trigger] a.drop_first()[p]).0.key()
                                == key;
                        assert(a.drop_first()[p] == a[p + 1]);
                        assert(a[0].0.key() < a[p + 1].0.key());
                    } else {
                        assert(has_date_key(b, key));
                        let p = choose|p: int|
                            0 <= p < b.len() && (#[trigger] b[p]).0.key() == key;
                    }
                }
            }
        } else {
            assert forall|j: int| 0 <= j < b.len() implies (#[trigger] b[j]).0.key()
                != a.drop_first()[i - 1].0.key() by {
                assert(a.drop_first()[i - 1] == a[i]);
            }
            lemma_diff_missing_day(a.drop_first(), b, i - 1);
            assert(a.drop_first()[i - 1] == a[i]);
            let kk = choose|k: int|
                0 <= k < rest.len() && #[trigger] rest[k] == DiffItem::MissingDay(a[i].0, a[i].1);
            assert(r[kk + 1] == DiffItem::MissingDay(a[i].0, a[i].1));
            assert forall|k: int|
                0 <= k < r.len() && item_date(#[trigger] r[k]).key()
                    == a[i].0.key() implies r[k] == DiffItem::MissingDay(a[i].0, a[i].1) by {
                if k == 0 {
                    assert(a[0].0.key() < a[i].0.key());
                } else {
                    assert(r[k] == rest[k - 1]);
                }
            }
        }
    } else if a[0].0.key() > b[0].0.key() {
        let rest = diff_items(a, b.drop_first());
        assert forall|j: int| 0 <= j < b.drop_first().len() implies (
        #[trigger] b.drop_first()[j]).0.key() != a[i].0.key() by {
            assert(b.drop_first()[j] == b[j + 1]);
        }
        lemma_diff_missing_day(a, b.drop_first(), i);
        let kk = choose|k: int|
            0 <= k < rest.len() && #[trigger] rest[k] == DiffItem::MissingDay(a[i].0, a[i].1);
        assert(r[kk + 1] == DiffItem::MissingDay(a[i].0, a[i].1));
        assert forall|k: int|
            0 <= k < r.len() && item_date(#[trigger] r[k]).key() == a[i].0.key() implies r[k]
            == DiffItem::MissingDay(a[i].0, a[i].1) by {
            if k == 0 {
                assert(item_date(r[0]).key() == b[0].0.key());
                assert(b[0].0.key() != a[i].0.key());
            } else {
                assert(r[k] == rest[k - 1]);
            }
        }
    } else {
        let rest = diff_items(a.drop_first(), b.drop_first());
        assert(a[0].0.key() == b[0].0.key());
        assert(i != 0) by {
            assert(b[0].0.key() != a[i].0.key());
        }
        assert forall|j: int| 0 <= j < b.drop_first().len() implies (
        #[trigger] b.drop_first()[j]).0.key() != a.drop_first()[i - 1].0.key() by {
            assert(b.drop_first()[j] == b[j + 1]);
            assert(a.drop_first()[i - 1] == a[i]);
        }
        lemma_diff_missing_day(a.drop_first(), b.drop_first(), i - 1);
        assert(a.drop_first()[i - 1] == a[i]);
        let miss = names_diff(a[0].1, b[0].1);
        let extra = names_diff(b[0].1, a[0].1);
        let head: int = if miss.len() == 0 && extra.len() == 0 {
            0
        } else {
            1
        };
        let kk = choose|k: int|
            0 <= k < rest.len() && #[trigger] rest[k] == DiffItem::MissingDay(a[i].0, a[i].1);
        assert(r[kk + head] == DiffItem::MissingDay(a[i].0, a[i].1));
        assert forall|k: int|
            0 <= k < r.len() && item_date(#[trigger] r[k]).key() == a[i].0.key() implies r[k]
            == DiffItem::MissingDay(a[i].0, a[i].1) by {
            if head == 1 && k == 0 {
                assert(item_date(r[0]).key() == a[0].0.key());
                assert(a[0].0.key() < a[i].0.key());
            } else {
                assert(r[k] == rest[k - head]);
            }
        }
    }
}

/// The mirror statement: a day known only to the manual log is
/// flagged exactly once, as one whole-day entry tagged extraneous.
pub proof fn lemma_diff_extra_day(
    a: Seq<(Date, Seq<Seq<char>>)>,
    b: Seq<(Date, Seq<Seq<char>>)>,
    j: int,
)
    requires
        wf_days(a),
        wf_days(b),
        0 <= j < b.len(),
        forall|i: int| 0 <= i < a.len() ==> (#[trigger] a[i]).0.key() != b[j].0.key(),
    ensures
        exists|k: int|
            0 <= k < diff_items(a, b).len() && #[trigger] diff_items(a, b)[k]
                == DiffItem::ExtraDay(b[j].0, b[j].1),
        forall|k: int|
            0 <= k < diff_items(a, b).len() && item_date(#[trigger] diff_items(a, b)[k]).key()
                == b[j].0.key() ==> diff_items(a, b)[k] == DiffItem::ExtraDay(b[j].0, b[j].1),
{
    lemma_diff_missing_day(b, a, j);
    lemma_diff_antisymmetric(b, a);
    let f = |it: DiffItem| swap_item(it);
    let r = diff_items(a, b);
    let mirror = diff_items(b, a);
    assert(r == mirror.map_values(f));
    let kk = choose|k: int|
        0 <= k < mirror.len() && #[trigger] mirror[k] == DiffItem::MissingDay(b[j].0, b[j].1);
    assert(r[kk] == DiffItem::ExtraDay(b[j].0, b[j].1));
    assert forall|k: int|
        0 <= k < r.len() && item_date(#[trigger] r[k]).key() == b[j].0.key() implies r[k]
        == DiffItem::ExtraDay(b[j].0, b[j].1) by {
        assert(r[k] == f(mirror[k]));
        assert(item_date(mirror[k]) == item_date(r[k]));
        assert(mirror[k] == DiffItem::MissingDay(b[j].0, b[j].1));
    }
}

fn names_contains(v: &Vec<String>, x: &str) -> (r: bool)
    ensures
        r == views(v@).contains(x@),
{
    let n = v.len();
    let mut i: usize = 0;
    while i < n
        invariant
            i <= n,
            n == v@.len(),
            forall|j: int| 0 <= j < i ==> views(v@)[j] != x@,
        decreases n - i,
    {
        if str_eq(v[i].as_str(), x) {
            proof {
                assert(views(v@)[i as int] == x@);
            }
            return true;
        }
        i = i + 1;
    }
    proof {
        if views(v@).contains(x@) {
            let j = choose|j: int| 0 <= j < views(v@).len() && views(v@)[j] == x@;
        }
    }
    false
}

fn names_diff_exec(a: &Vec<String>, b: &Vec<String>) -> (r: Vec<String>)
    ensures
        views(r@) == names_diff(views(a@), views(b@)),
{
    let ghost av = views(a@);
    let ghost bv = views(b@);
    let mut r: Vec<String> = Vec::new();
    let n = a.len();
    let mut i: usize = 0;
    proof {
        reveal(Seq::filter);
        assert(views(r@) =~= av.take(0).filter(|x: Seq<char>| !bv.contains(x)));
    }
    while i < n
        invariant
            i <= n,
            n == a@.len(),
            av == views(a@),
            bv == views(b@),
            av.len() == n,
            views(r@) == av.take(i as int).filter(|x: Seq<char>| !bv.contains(x)),
        decreases n - i,
    {
        let ghost prev = views(r@);
        let keep = !names_contains(b, a[i].as_str());
        if keep {
            r.push(a[i].clone());
            proof {
                assert(views(r@) =~= prev.push(av[i as int]));
            }
        }
        proof {
            reveal(Seq::filter);
            assert(av.take(i + 1).drop_last() =~= av.take(i as int));
            assert(av.take(i + 1).last() == av[i as int]);
        }
        i = i + 1;
    }
    proof {
        assert(av.take(n as int) =~= av);
    }
    r
}

/// Computes the discrepancies of the manual log against the external
/// source, both already in canonical form.
pub fn compute_diff(a: &Logbook, b: &Logbook) -> (r: Vec<DiffEntry>)
    requires
        a.wf(),
        b.wf(),
    ensures
        items_view(r@) == diff_items(a@, b@),
        forall|i: int| 0 <= i < r@.len() ==> item_date((#[trigger] r@[i])@).valid(),
{
    let ghost av = a@;
    let ghost bv = b@;
    let mut out: Vec<DiffEntry> = Vec::new();
    let na = a.days.len();
    let nb = b.days.len();
    let mut i: usize = 0;
    let mut j: usize = 0;
    proof {
        assert(av.skip(0) =~= av);
        assert(bv.skip(0) =~= bv);
        assert(items_view(out@) =~= Seq::<DiffItem>::empty());
        assert(diff_items(av, bv) =~= items_view(out@) + diff_items(av.skip(0), bv.skip(0)));
    }
    while i < na || j < nb
        invariant
            i <= na,
            j <= nb,
            na == a.days@.len(),
            nb == b.days@.len(),
            av == a@,
            bv == b@,
            a.wf(),
            b.wf(),
            av.len() == na,
            bv.len() == nb,
            diff_items(av, bv) == items_view(out@) + diff_items(
                av.skip(i as int),
                bv.skip(j as int),
            ),
            forall|p: int| 0 <= p < out@.len() ==> item_date((#[trigger] out@[p])@).valid(),
        decreases (na - i) + (nb - j),
    {
        let ghost arest = av.skip(i as int);
        let ghost brest = bv.skip(j as int);
        let ghost prev = items_view(out@);
        proof {
            if i < na {
                assert(arest[0] == av[i as int]);
                assert(av[i as int] == day_view(a.days@[i as int]));
                assert(wf_day(av[i as int]));
                assert(arest.drop_first() =~= av.skip(i + 1));
            }
            if j < nb {
                assert(brest[0] == bv[j as int]);
                assert(bv[j as int] == day_view(b.days@[j as int]));
                assert(wf_day(bv[j as int]));
                assert(brest.drop_first() =~= bv.skip(j + 1));
            }
        }
        if j >= nb || (i < na && crate::date::date_lt(&a.days[i].date, &b.days[j].date)) {
            let crags_c = a.days[i].crags.clone();
            proof {
                clone_names_eq(a.days@[i as int].crags, crags_c);
            }
            let e = DiffEntry::MissingDay { date: a.days[i].date, crags: crags_c };
            let ghost ev = e@;
            out.push(e);
            proof {
                assert(ev == DiffItem::MissingDay(arest[0].0, arest[0].1));
                assert(items_view(out@) =~= prev.push(ev));
                assert(prev + (seq![ev] + diff_items(arest.drop_first(), brest)) =~= (prev + seq![
                    ev,
                ]) + diff_items(arest.drop_first(), brest));
            }
            i = i + 1;
        } else if i >= na || crate::date::date_lt(&b.days[j].date, &a.days[i].date) {
            let crags_c = b.days[j].crags.clone();
            proof {
                clone_names_eq(b.days@[j as int].crags, crags_c);
            }
            let e = DiffEntry::ExtraDay { date: b.days[j].date, crags: crags_c };
            let ghost ev = e@;
            out.push(e);
            proof {
                assert(ev == DiffItem::ExtraDay(brest[0].0, brest[0].1));
                assert(items_view(out@) =~= prev.push(ev));
                assert(prev + (seq![ev] + diff_items(arest, brest.drop_first())) =~= (prev + seq![
                    ev,
                ]) + diff_items(arest, brest.drop_first()));
            }
            j = j + 1;
        } else {
            proof {
                assert(arest[0].0.key() == brest[0].0.key());
            }
            let miss = names_diff_exec(&a.days[i].crags, &b.days[j].crags);
            let extra = names_diff_exec(&b.days[j].crags, &a.days[i].crags);
            if miss.len() > 0 || extra.len() > 0 {
                let e = DiffEntry::ChangedDay { date: a.days[i].date, missing: miss, extra };
                let ghost ev = e@;
                out.push(e);
                proof {
                    assert(ev == DiffItem::ChangedDay(
                        arest[0].0,
                        names_diff(arest[0].1, brest[0].1),
                        names_diff(brest[0].1, arest[0].1),
                    ));
                    assert(items_view(out@) =~= prev.push(ev));
                    assert(prev + (seq![ev] + diff_items(arest.drop_first(), brest.drop_first()))
                        =~= (prev + seq![ev]) + diff_items(
                        arest.drop_first(),
                        brest.drop_first(),
                    ));
                }
            } else {
                proof {
                    assert(names_diff(arest[0].1, brest[0].1).len() == 0);
                    assert(names_diff(brest[0].1, arest[0].1).len() == 0);
                    assert(prev + (Seq::<DiffItem>::empty() + diff_items(
                        arest.drop_first(),
                        brest.drop_first(),
                    )) =~= prev + diff_items(arest.drop_first(), brest.drop_first()));
                }
            }
            i = i + 1;
            j = j + 1;
        }
    }
    proof {
        assert(av.skip(na as int) =~= Seq::<(Date, Seq<Seq<char>>)>::empty());
        assert(bv.skip(nb as int) =~= Seq::<(Date, Seq<Seq<char>>)>::empty());
        assert(diff_items(av, bv) =~= items_view(out@));
    }
    out
}

proof fn clone_names_eq(a: Vec<String>, b: Vec<String>)
    requires
        a@.len() == b@.len(),
        forall|i: int| #![all_triggers] 0 <= i < a@.len() ==> cloned::<String>(a@[i], b@[i]),
    ensures
        views(a@) == views(b@),
{
    assert forall|i: int| 0 <= i < a@.len() implies views(a@)[i] == views(b@)[i] by {
        assert(cloned::<String>(a@[i], b@[i]));
    }
    assert(views(a@) =~= views(b@));
}

/// One report line per discrepancy.
pub open spec fn item_line(it: DiffItem) -> Seq<char> {
    match it {
        DiffItem::MissingDay(d, crags) => "-"@ + date_seq_of(d) + ": "@ + spec_join(crags, ", "@)
            + "\n"@,
        DiffItem::ExtraDay(d, crags) => "+"@ + date_seq_of(d) + ": "@ + spec_join(crags, ", "@)
            + "\n"@,
        DiffItem::ChangedDay(d, miss, extra) => date_seq_of(d) + ": "@ + spec_join(
            miss.map_values(|x: Seq<char>| "-"@ + x) + extra.map_values(|x: Seq<char>| "+"@ + x),
            ", "@,
        ) + "\n"@,
    }
}

/// The whole report: the lines of the discrepancies, in order.
pub open spec fn report_of(items: Seq<DiffItem>) -> Seq<char>
    decreases items.len(),
{
    if items.len() == 0 {
        Seq::empty()
    } else {
        report_of(items.drop_last()) + item_line(items.last())
    }
}

fn tag_names(tag: &str, names: &Vec<String>, out: &mut Vec<String>)
    ensures
        views(final(out)@) == views(old(out)@) + views(names@).map_values(
            |x: Seq<char>| tag@ + x,
        ),
{
    let ghost base = views(out@);
    let ghost nv = views(names@);
    let n = names.len();
    let mut i: usize = 0;
    proof {
        assert(views(out@) =~= base + nv.take(0).map_values(|x: Seq<char>| tag@ + x));
    }
    while i < n
        invariant
            i <= n,
            n == names@.len(),
            nv == views(names@),
            nv.len() == n,
            views(out@) == base + nv.take(i as int).map_values(|x: Seq<char>| tag@ + x),
        decreases n - i,
    {
        let ghost prev = views(out@);
        let mut t = String::from_str(tag);
        t.append(names[i].as_str());
        out.push(t);
        proof {
            assert(views(out@) =~= prev.push(tag@ + nv[i as int]));
            assert(views(out@) =~= base + nv.take(i + 1).map_values(|x: Seq<char>| tag@ + x));
        }
        i = i + 1;
    }
    proof {
        assert(nv.take(n as int) =~= nv);
    }
}

fn render_item(e: &DiffEntry) -> (r: String)
    requires
        item_date(e@).valid(),
    ensures
        r@ == item_line(e@),
{
    match e {
        DiffEntry::MissingDay { date, crags } => {
            let mut s = String::from_str("-");
            let ds = format_date(date);
            s.append(ds.as_str());
            s.append(": ");
            let joined = join_strs(crags, ", ");
            s.append(joined.as_str());
            s.append("\n");
            proof {
                reveal_strlit(", ");
                assert(s@ == item_line(e@));
            }
            s
        },
        DiffEntry::ExtraDay { date, crags } => {
            let mut s = String::from_str("+");
            let ds = format_date(date);
            s.append(ds.as_str());
            s.append(": ");
            let joined = join_strs(crags, ", ");
            s.append(joined.as_str());
            s.append("\n");
            proof {
                reveal_strlit(", ");
                assert(s@ == item_line(e@));
            }
            s
        },
        DiffEntry::ChangedDay { date, missing, extra } => {
            let mut tagged: Vec<String> = Vec::new();
            tag_names("-", missing, &mut tagged);
            tag_names("+", extra, &mut tagged);
            let mut s = format_date(date);
            s.append(": ");
            let joined = join_strs(&tagged, ", ");
            s.append(joined.as_str());
            s.append("\n");
            proof {
                reveal_strlit(", ");
                assert(views(tagged@) == views(missing@).map_values(|x: Seq<char>| "-"@ + x)
                    + views(extra@).map_values(|x: Seq<char>| "+"@ + x)) by {
                    assert(views(Seq::<String>::empty()) =~= Seq::<Seq<char>>::empty());
                    assert(Seq::<Seq<char>>::empty() + views(missing@).map_values(
                        |x: Seq<char>| "-"@ + x,
                    ) =~= views(missing@).map_values(|x: Seq<char>| "-"@ + x));
                }
                assert(s@ == item_line(e@));
            }
            s
        },
    }
}

/// Renders the report, one line per discrepancy, in order.
pub fn render_report(entries: &Vec<DiffEntry>) -> (r: String)
    requires
        forall|i: int| 0 <= i < entries@.len() ==> item_date((#[trigger] entries@[i])@).valid(),
    ensures
        r@ == report_of(items_view(entries@)),
{
    let ghost ev = items_view(entries@);
    let mut s = String::new();
    let n = entries.len();
    let mut i: usize = 0;
    proof {
        assert(s@ =~= report_of(ev.take(0)));
    }
    while i < n
        invariant
            i <= n,
            n == entries@.len(),
            ev == items_view(entries@),
            ev.len() == n,
            forall|p: int| 0 <= p < entries@.len() ==> item_date((#[trigger] entries@[p])@).valid(),
            s@ == report_of(ev.take(i as int)),
        decreases n - i,
    {
        let line = render_item(&entries[i]);
        s.append(line.as_str());
        proof {
            assert(ev.take(i + 1).drop_last() =~= ev.take(i as int));
            assert(ev.take(i + 1).last() == ev[i as int]);
        }
        i = i + 1;
    }
    proof {
        assert(ev.take(n as int) =~= ev);
    }
    s
}

/// Computes the discrepancy report of the manual log against the
/// external source.  The external logbook is normalized first; the
/// manual log is taken as already normalized.
pub fn generate_diff(thecrag: &Logbook, manual: &Logbook) -> (r: String)
    requires
        thecrag.wf(),
        manual.wf(),
    ensures
        r@ == report_of(diff_items(normalize_days(thecrag@), manual@)),
{
    let normalized_ext = normalize_logbook(thecrag);
    let entries = compute_diff(&normalized_ext, manual);
    render_report(&entries)
}

} // verus!
