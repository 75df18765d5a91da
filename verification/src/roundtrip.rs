use vstd::prelude::*;
use crate::date::{date_seq_of, digit_char, lemma_date_roundtrip, Date};
use crate::freeform::{after_sentinel, date_prefix_len, fold_lines, is_date_char,
    lemma_date_prefix_len, lemma_paren_index, line_result, nonempty_lines, paren_index,
    txt_logbook_spec};
use crate::logbook::{lemma_set_day_append, lemma_set_of_sorted, wf_day, wf_days};
use crate::render::{render_day, render_lines, spec_print};
use crate::strings::{lemma_filter_all, lemma_find_in_join, lemma_join_chars,
    lemma_no_char_no_find, lemma_spec_find, lemma_split_join, spec_find, spec_join, spec_split};

verus! {

/// A crag name that the printed line shape can carry faithfully: not
/// empty, free of parentheses and line breaks, and free of the
/// comma-space list separator.
pub open spec fn name_renderable(n: Seq<char>) -> bool {
    &&& n.len() >= 1
    &&& forall|k: int| 0 <= k < n.len() ==> #[trigger] n[k] != '\n' && n[k] != '(' && n[k] != ')'
    &&& spec_find(n, ", "@) is None
}

pub open spec fn day_renderable(d: (Date, Seq<Seq<char>>)) -> bool {
    forall|i: int| 0 <= i < d.1.len() ==> name_renderable(#[trigger] d.1[i])
}

pub open spec fn days_renderable(m: Seq<(Date, Seq<Seq<char>>)>) -> bool {
    forall|i: int| 0 <= i < m.len() ==> day_renderable(#[trigger] m[i])
}

/// The one thing line splitting needs of a crag name: no line break.
pub open spec fn name_line_safe(n: Seq<char>) -> bool {
    forall|k: int| 0 <= k < n.len() ==> #[trigger] n[k] != '\n'
}

pub open spec fn day_line_safe(d: (Date, Seq<Seq<char>>)) -> bool {
    forall|i: int| 0 <= i < d.1.len() ==> name_line_safe(#[trigger] d.1[i])
}

pub open spec fn days_line_safe(m: Seq<(Date, Seq<Seq<char>>)>) -> bool {
    forall|i: int| 0 <= i < m.len() ==> day_line_safe(#[trigger] m[i])
}

proof fn lemma_digit_char_facts(v: int)
    ensures
        crate::date::is_digit(digit_char(v)),
        digit_char(v) != '\n',
        digit_char(v) != '(',
        digit_char(v) != ')',
{
}

/// A rendered line holds no line break.
proof fn lemma_render_day_no_newline(d: (Date, Seq<Seq<char>>))
    requires
        day_line_safe(d),
    ensures
        forall|k: int|
            0 <= k < render_day(d).len() ==> #[trigger] render_day(d)[k] != '\n',
{
    reveal_strlit(": Felsklettern (");
    reveal_strlit(")");
    reveal_strlit(", ");
    let a = date_seq_of(d.0);
    let b = ": Felsklettern ("@;
    let c = spec_join(d.1, ", "@);
    let e = ")"@;
    let line = render_day(d);
    assert forall|i: int, k: int|
        0 <= i < d.1.len() && 0 <= k < d.1[i].len() implies (#[trigger] d.1[i][k]) != '\n' by {
        assert(name_line_safe(d.1[i]));
    }
    lemma_join_chars(d.1, ", "@, |ch: char| ch != '\n');
    assert forall|k: int| 0 <= k < line.len() implies #[trigger] line[k] != '\n' by {
        if k < a.len() {
            assert(line[k] == a[k]);
            lemma_digit_char_facts(d.0.year as int / 1000);
            lemma_digit_char_facts((d.0.year as int / 100) % 10);
            lemma_digit_char_facts((d.0.year as int / 10) % 10);
            lemma_digit_char_facts(d.0.year as int % 10);
            lemma_digit_char_facts(d.0.month as int / 10);
            lemma_digit_char_facts(d.0.month as int % 10);
            lemma_digit_char_facts(d.0.day as int / 10);
            lemma_digit_char_facts(d.0.day as int % 10);
        } else if k < a.len() + b.len() {
            assert(line[k] == b[k - a.len()]);
        } else if k < a.len() + b.len() + c.len() {
            assert(line[k] == c[k - a.len() - b.len()]);
        } else {
            assert(line[k] == e[k - a.len() - b.len() - c.len()]);
        }
    }
}

/// Rendering one day and parsing the line yields the day again.
proof fn lemma_line_roundtrip(d: (Date, Seq<Seq<char>>))
    requires
        wf_day(d),
        day_renderable(d),
    ensures
        line_result(render_day(d)) == Ok::<Option<(Date, Seq<Seq<char>>)>, Seq<char>>(
            Some((d.0, d.1)),
        ),
{
    reveal_strlit(": Felsklettern (");
    reveal_strlit(")");
    reveal_strlit(", ");
    let a = date_seq_of(d.0);
    let b = ": Felsklettern ("@;
    let c = spec_join(d.1, ", "@);
    let e = ")"@;
    let s = render_day(d);
    assert(b.len() == 16);
    assert(a.len() == 10);
    assert(e.len() == 1);

    lemma_digit_char_facts(d.0.year as int / 1000);
    lemma_digit_char_facts((d.0.year as int / 100) % 10);
    lemma_digit_char_facts((d.0.year as int / 10) % 10);
    lemma_digit_char_facts(d.0.year as int % 10);
    lemma_digit_char_facts(d.0.month as int / 10);
    lemma_digit_char_facts(d.0.month as int % 10);
    lemma_digit_char_facts(d.0.day as int / 10);
    lemma_digit_char_facts(d.0.day as int % 10);
    assert forall|k: int| 0 <= k < 10 implies is_date_char(#[trigger] s[k]) by {
        assert(s[k] == a[k]);
    }
    assert(s[10] == b[0]);
    assert(!is_date_char(s[10]));

    lemma_date_prefix_len(s);
    let dpl = date_prefix_len(s);
    assert(dpl == 10) by {
        if dpl < 10 {
            assert(is_date_char(s[dpl]));
        }
        if dpl > 10 {
            assert(is_date_char(s[10]));
        }
    }

    assert(s.subrange(10, 26) =~= b);
    let rest = s.skip(26);
    assert(rest =~= c + e);

    assert(c.len() >= d.1[0].len()) by {
        assert(d.1.len() >= 1);
    }
    assert(d.1[0].len() >= 1) by {
        assert(name_renderable(d.1[0]));
    }

    assert forall|i: int, k: int|
        0 <= i < d.1.len() && 0 <= k < d.1[i].len() implies !((#[trigger] d.1[i][k]) == '('
        || d.1[i][k] == ')') by {
        assert(name_renderable(d.1[i]));
    }
    lemma_join_chars(d.1, ", "@, |ch: char| !(ch == '(' || ch == ')'));
    lemma_paren_index(rest);
    assert(rest[c.len() as int] == ')');
    assert forall|k: int| 0 <= k < c.len() implies !(#[trigger] rest[k] == '(' || rest[k]
        == ')') by {
        assert(rest[k] == c[k]);
    }
    let pi = paren_index(rest);
    assert(pi == Some(c.len() as int)) by {
        match pi {
            None => {
                assert(!(rest[c.len() as int] == '(' || rest[c.len() as int] == ')'));
            },
            Some(q) => {
                if q < c.len() {
                    assert(rest[q] == '(' || rest[q] == ')');
                }
                if q > c.len() {
                    assert(!(rest[c.len() as int] == '(' || rest[c.len() as int] == ')'));
                }
            },
        }
    }

    assert(s.take(10) =~= a);
    assert(rest.take(c.len() as int) =~= c);

    lemma_date_roundtrip(d.0);

    assert forall|i: int| 0 <= i < d.1.len() implies spec_find(#[trigger] d.1[i], ", "@)
        is None by {
        assert(name_renderable(d.1[i]));
    }
    assert(", "@.len() == 2 && ", "@[0] != ", "@[1]);
    lemma_split_join(d.1, ", "@);
    lemma_set_of_sorted(d.1);
}

/// What `print` emits, line by line: one line per day, the date at
/// the head of each, the dates strictly ascending — so each date
/// appears at most once.
pub proof fn lemma_print_lines(m: Seq<(Date, Seq<Seq<char>>)>)
    requires
        wf_days(m),
        days_line_safe(m),
        m.len() >= 1,
    ensures
        spec_split(spec_print(m), "\n"@) == render_lines(m),
        forall|i: int|
            0 <= i < m.len() ==> (#[trigger] render_lines(m)[i]).take(10) == date_seq_of(m[i].0),
        forall|i: int, j: int|
            0 <= i < j < m.len() ==> (#[trigger] m[i]).0.key() < (#[trigger] m[j]).0.key(),
{
    reveal_strlit("\n");
    let lines = render_lines(m);
    assert("\n"@ =~= seq!['\n']);
    assert forall|i: int| 0 <= i < lines.len() implies spec_find(#[trigger] lines[i], "\n"@)
        is None by {
        assert(lines[i] == render_day(m[i]));
        assert(day_line_safe(m[i]));
        lemma_render_day_no_newline(m[i]);
        lemma_no_char_no_find(lines[i], '\n');
    }
    lemma_split_join(lines, "\n"@);
    assert forall|i: int| 0 <= i < m.len() implies (#[trigger] lines[i]).take(10) == date_seq_of(
        m[i].0,
    ) by {
        assert(lines[i] == render_day(m[i]));
        assert(lines[i].take(10) =~= date_seq_of(m[i].0));
    }
}

proof fn lemma_fold_render(m: Seq<(Date, Seq<Seq<char>>)>, i: int)
    requires
        wf_days(m),
        days_renderable(m),
        0 <= i <= m.len(),
    ensures
        fold_lines(m.take(i), render_lines(m).skip(i)) == Ok::<_, Seq<char>>(m),
    decreases m.len() - i,
{
    let lines = render_lines(m);
    if i == m.len() {
        assert(lines.skip(i) =~= Seq::<Seq<char>>::empty());
        assert(m.take(i) =~= m);
    } else {
        assert(lines.skip(i)[0] == lines[i]);
        assert(lines[i] == render_day(m[i]));
        assert(wf_day(m[i]));
        assert(day_renderable(m[i]));
        lemma_line_roundtrip(m[i]);
        assert forall|j: int| 0 <= j < m.take(i).len() implies (#[trigger] m.take(i)[j]).0.key()
            < m[i].0.key() by {
            assert(m.take(i)[j] == m[j]);
        }
        lemma_set_day_append(m.take(i), m[i].0, m[i].1);
        assert(m.take(i).push(m[i]) =~= m.take(i + 1));
        assert(lines.skip(i).drop_first() =~= lines.skip(i + 1));
        lemma_fold_render(m, i + 1);
    }
}

/// Feeding the printout, wrapped with the sentinel line, back into
/// the free-form parser yields the very logbook that was printed.
pub proof fn lemma_print_roundtrip(m: Seq<(Date, Seq<Seq<char>>)>)
    requires
        wf_days(m),
        days_renderable(m),
    ensures
        txt_logbook_spec("### BEGIN theCrag sync"@ + "\n"@ + spec_print(m)) == Ok::<
            _,
            Seq<char>,
        >(m),
{
    reveal_strlit("### BEGIN theCrag sync");
    reveal_strlit("\n");
    let sent = "### BEGIN theCrag sync"@;
    let nl = "\n"@;
    let s = sent + nl + spec_print(m);
    assert(nl =~= seq!['\n']);
    assert(sent.len() == 22);
    assert forall|k: int| 0 <= k < sent.len() implies #[trigger] sent[k] != '\n' by {}
    lemma_no_char_no_find(sent, '\n');

    let pred = |l: Seq<char>| l.len() > 0;
    if m.len() == 0 {
        assert(spec_print(m) =~= Seq::<char>::empty());
        lemma_find_in_join(sent, Seq::<char>::empty(), nl);
        assert(s =~= sent + nl + Seq::<char>::empty());
        assert(spec_find(s, nl) == Some(22int));
        lemma_spec_find(s, nl);
        assert(s.take(22) =~= sent);
        assert(s.skip(23) =~= Seq::<char>::empty());
        assert(spec_find(Seq::<char>::empty(), nl) is None);
        assert(spec_split(Seq::<char>::empty(), nl) =~= seq![Seq::<char>::empty()]);
        assert(spec_split(s, nl) =~= seq![sent, Seq::<char>::empty()]);
        reveal(Seq::filter);
        assert(nonempty_lines(s) =~= seq![sent]) by {
            let two = seq![sent, Seq::<char>::empty()];
            assert(two.drop_last() =~= seq![sent]);
            assert(seq![sent].drop_last() =~= Seq::<Seq<char>>::empty());
            assert(two.filter(pred) =~= seq![sent]);
        }
        assert(after_sentinel(seq![sent]) =~= Seq::<Seq<char>>::empty());
        assert(fold_lines(Seq::empty(), Seq::<Seq<char>>::empty()) == Ok::<_, Seq<char>>(
            Seq::<(Date, Seq<Seq<char>>)>::empty(),
        ));
        assert(m =~= Seq::<(Date, Seq<Seq<char>>)>::empty());
    } else {
        let lines = render_lines(m);
        let parts = seq![sent] + lines;
        assert(spec_print(m) == spec_join(lines, nl));
        assert(parts.drop_first() =~= lines);
        assert(parts[0] == sent);
        assert(s =~= spec_join(parts, nl)) by {
            assert(parts.len() >= 2);
            assert(spec_join(parts, nl) == parts[0] + nl + spec_join(parts.drop_first(), nl));
        }
        assert forall|i: int| 0 <= i < parts.len() implies spec_find(#[trigger] parts[i], nl)
            is None by {
            if i == 0 {
            } else {
                assert(parts[i] == lines[i - 1]);
                assert(lines[i - 1] == render_day(m[i - 1]));
                assert(day_renderable(m[i - 1]));
                assert(day_line_safe(m[i - 1])) by {
                    assert forall|p: int| 0 <= p < m[i - 1].1.len() implies name_line_safe(
                        #[trigger] m[i - 1].1[p],
                    ) by {
                        assert(name_renderable(m[i - 1].1[p]));
                    }
                }
                lemma_render_day_no_newline(m[i - 1]);
                lemma_no_char_no_find(parts[i], '\n');
            }
        }
        lemma_split_join(parts, nl);
        assert(spec_split(s, nl) == parts);
        assert forall|i: int| 0 <= i < parts.len() implies pred(#[trigger] parts[i]) by {
            if i > 0 {
                assert(parts[i] == lines[i - 1]);
                assert(lines[i - 1] == render_day(m[i - 1]));
                assert(render_day(m[i - 1]).len() >= 10);
            }
        }
        lemma_filter_all(parts, pred);
        assert(nonempty_lines(s) == parts);
        assert(after_sentinel(parts) =~= lines);
        assert(m.take(0) =~= Seq::<(Date, Seq<Seq<char>>)>::empty());
        assert(lines.skip(0) =~= lines);
        lemma_fold_render(m, 0);
    }
}

} // verus!
