use vstd::prelude::*;
use vstd::string::StrSliceExecFns;
use vstd::string::StringExecFns;

verus! {

/// The views of a sequence of strings.
pub open spec fn views(ss: Seq<String>) -> Seq<Seq<char>> {
    ss.map_values(|s: String| s@)
}

/// Strict lexicographic order on character sequences, by code point.
pub open spec fn lex_lt(a: Seq<char>, b: Seq<char>) -> bool
    decreases a.len(),
{
    if b.len() == 0 {
        false
    } else if a.len() == 0 {
        true
    } else if a[0] != b[0] {
        a[0] < b[0]
    } else {
        lex_lt(a.drop_first(), b.drop_first())
    }
}

pub proof fn lemma_lex_irreflexive(a: Seq<char>)
    ensures
        !lex_lt(a, a),
    decreases a.len(),
{
    if a.len() > 0 {
        lemma_lex_irreflexive(a.drop_first());
    }
}

pub proof fn lemma_lex_connected(a: Seq<char>, b: Seq<char>)
    ensures
        a != b ==> lex_lt(a, b) || lex_lt(b, a),
    decreases a.len(),
{
    if a.len() == 0 && b.len() == 0 {
        assert(a =~= b);
    }
    if a.len() > 0 && b.len() > 0 && a[0] == b[0] {
        lemma_lex_connected(a.drop_first(), b.drop_first());
        if a.drop_first() == b.drop_first() {
            assert(a =~= b) by {
                assert forall|i: int| 0 <= i < a.len() implies a[i] == b[i] by {
                    if i > 0 {
                        assert(a[i] == a.drop_first()[i - 1]);
                        assert(b[i] == b.drop_first()[i - 1]);
                    }
                }
            }
        }
    }
}

pub proof fn lemma_lex_transitive(a: Seq<char>, b: Seq<char>, c: Seq<char>)
    requires
        lex_lt(a, b),
        lex_lt(b, c),
    ensures
        lex_lt(a, c),
    decreases a.len(),
{
    if a.len() > 0 && b.len() > 0 && c.len() > 0 && a[0] == b[0] && b[0] == c[0] {
        lemma_lex_transitive(a.drop_first(), b.drop_first(), c.drop_first());
    }
}

/// Character-sequence equality of two string slices.
pub fn str_eq(a: &str, b: &str) -> (r: bool)
    ensures
        r == (a@ == b@),
    decreases a@.len(),
{
    let alen = a.unicode_len();
    let blen = b.unicode_len();
    if alen != blen {
        proof {
            assert(a@ != b@);
        }
        false
    } else if alen == 0 {
        proof {
            assert(a@ =~= b@);
        }
        true
    } else {
        let ca = a.get_char(0);
        let cb = b.get_char(0);
        if ca != cb {
            false
        } else {
            let r = str_eq(a.substring_char(1, alen), b.substring_char(1, blen));
            proof {
                if r {
                    assert(a@ =~= b@) by {
                        assert(a@.subrange(1, alen as int) =~= a@.drop_first());
                        assert(b@.subrange(1, blen as int) =~= b@.drop_first());
                        assert forall|i: int| 0 <= i < a@.len() implies a@[i] == b@[i] by {
                            if i > 0 {
                                assert(a@[i] == a@.drop_first()[i - 1]);
                                assert(b@[i] == b@.drop_first()[i - 1]);
                            }
                        }
                    }
                } else {
                    assert(a@.drop_first() != b@.drop_first());
                    if a@ == b@ {
                        assert(a@.drop_first() =~= b@.drop_first());
                    }
                }
            }
            r
        }
    }
}

/// Whether `a` comes strictly before `b` in lexicographic order.
pub fn str_lt(a: &str, b: &str) -> (r: bool)
    ensures
        r == lex_lt(a@, b@),
    decreases a@.len(),
{
    let alen = a.unicode_len();
    let blen = b.unicode_len();
    if blen == 0 {
        false
    } else if alen == 0 {
        true
    } else {
        let ca = a.get_char(0);
        let cb = b.get_char(0);
        if ca != cb {
            ca < cb
        } else {
            proof {
                assert(a@.subrange(1, alen as int) =~= a@.drop_first());
                assert(b@.subrange(1, blen as int) =~= b@.drop_first());
            }
            str_lt(a.substring_char(1, alen), b.substring_char(1, blen))
        }
    }
}

/// The first index at which `p` occurs as a contiguous part of `s`.
pub open spec fn spec_find(s: Seq<char>, p: Seq<char>) -> Option<int>
    decreases s.len(),
{
    if p.len() > s.len() {
        None
    } else if s.take(p.len() as int) =~= p {
        Some(0int)
    } else if s.len() == 0 {
        None
    } else {
        match spec_find(s.drop_first(), p) {
            Some(i) => Some(i + 1),
            None => None,
        }
    }
}

/// What `spec_find` returns: the leftmost occurrence, or none at all.
pub proof fn lemma_spec_find(s: Seq<char>, p: Seq<char>)
    ensures
        match spec_find(s, p) {
            Some(i) => {
                &&& 0 <= i
                &&& i + p.len() <= s.len()
                &&& s.subrange(i, i + p.len() as int) =~= p
                &&& forall|j: int|
                    0 <= j < i && j + p.len() <= s.len() ==> #[trigger] s.subrange(
                        j,
                        j + p.len() as int,
                    ) !~= p
            },
            None => forall|j: int|
                0 <= j && j + p.len() <= s.len() ==> #[trigger] s.subrange(j, j + p.len() as int)
                    !~= p,
        },
    decreases s.len(),
{
    if p.len() > s.len() {
    } else if s.take(p.len() as int) =~= p {
        assert(s.subrange(0, p.len() as int) =~= s.take(p.len() as int));
    } else if s.len() == 0 {
        assert(s.take(p.len() as int) =~= s.subrange(0, p.len() as int));
    } else {
        lemma_spec_find(s.drop_first(), p);
        assert forall|j: int| 0 <= j && j + p.len() <= s.len() implies (#[trigger] s.subrange(
            j,
            j + p.len() as int,
        ) =~= p) == (if j == 0 {
            s.take(p.len() as int) =~= p
        } else {
            s.drop_first().subrange(j - 1, j - 1 + p.len() as int) =~= p
        }) by {
            if j > 0 {
                assert(s.drop_first().subrange(j - 1, j - 1 + p.len() as int) =~= s.subrange(
                    j,
                    j + p.len() as int,
                ));
            } else {
                assert(s.take(p.len() as int) =~= s.subrange(0, p.len() as int));
            }
        }
    }
}

/// The leftmost occurrence of `p` in `s`, as an index in characters.
pub fn find_sub(s: &str, p: &str) -> (r: Option<usize>)
    ensures
        match r {
            Some(i) => spec_find(s@, p@) == Some(i as int),
            None => spec_find(s@, p@) is None,
        },
    decreases s@.len(),
{
    let sl = s.unicode_len();
    let pl = p.unicode_len();
    if pl > sl {
        None
    } else if str_eq(s.substring_char(0, pl), p) {
        proof {
            assert(s@.subrange(0, pl as int) =~= s@.take(pl as int));
        }
        Some(0)
    } else if sl == 0 {
        None
    } else {
        proof {
            assert(s@.subrange(0, pl as int) =~= s@.take(pl as int));
            assert(s@.subrange(1, sl as int) =~= s@.drop_first());
            lemma_spec_find(s@.drop_first(), p@);
        }
        match find_sub(s.substring_char(1, sl), p) {
            Some(i) => Some(i + 1),
            None => None,
        }
    }
}

/// Splitting on a non-empty separator, leftmost-first.
pub open spec fn spec_split(s: Seq<char>, p: Seq<char>) -> Seq<Seq<char>>
    decreases s.len(),
    when p.len() >= 1
    via spec_split_dec
{
    match spec_find(s, p) {
        None => seq![s],
        Some(i) => seq![s.take(i)] + spec_split(s.skip(i + p.len()), p),
    }
}

#[via_fn]
proof fn spec_split_dec(s: Seq<char>, p: Seq<char>) {
    lemma_spec_find(s, p);
}

/// Splits `s` on the separator `p`.
pub fn split_str(s: &str, p: &str) -> (r: Vec<String>)
    requires
        p@.len() >= 1,
    ensures
        views(r@) == spec_split(s@, p@),
    decreases s@.len(),
{
    proof {
        lemma_spec_find(s@, p@);
    }
    let sl = s.unicode_len();
    let pl = p.unicode_len();
    match find_sub(s, p) {
        None => {
            let mut r: Vec<String> = Vec::new();
            r.push(String::from_str(s));
            proof {
                assert(views(r@) =~= spec_split(s@, p@));
            }
            r
        },
        Some(i) => {
            let head = s.substring_char(0, i);
            let rest = s.substring_char(i + pl, sl);
            let mut r = split_str(rest, p);
            r.insert(0, String::from_str(head));
            proof {
                assert(s@.subrange(0, i as int) =~= s@.take(i as int));
                assert(s@.subrange(i + pl, sl as int) =~= s@.skip(i + p@.len()));
                assert(views(r@) =~= spec_split(s@, p@));
            }
            r
        },
    }
}

/// Joining with a separator; the inverse of splitting when no part
/// contains the separator.
pub open spec fn spec_join(parts: Seq<Seq<char>>, sep: Seq<char>) -> Seq<char>
    decreases parts.len(),
{
    if parts.len() == 0 {
        Seq::empty()
    } else if parts.len() == 1 {
        parts[0]
    } else {
        parts[0] + sep + spec_join(parts.drop_first(), sep)
    }
}

fn join_from(parts: &Vec<String>, sep: &str, i: usize) -> (r: String)
    requires
        i <= parts@.len(),
    ensures
        r@ == spec_join(views(parts@).skip(i as int), sep@),
    decreases parts@.len() - i,
{
    proof {
        assert(views(parts@).len() == parts@.len());
    }
    if i >= parts.len() {
        proof {
            assert(views(parts@).skip(i as int) =~= Seq::<Seq<char>>::empty());
        }
        String::new()
    } else if i == parts.len() - 1 {
        proof {
            assert(views(parts@).skip(i as int)[0] == parts@[i as int]@);
        }
        parts[i].clone()
    } else {
        let mut r = parts[i].clone();
        r.append(sep);
        let rest = join_from(parts, sep, i + 1);
        r.append(rest.as_str());
        proof {
            assert(views(parts@).skip(i as int).drop_first() =~= views(parts@).skip(i + 1));
            assert(views(parts@).skip(i as int)[0] == parts@[i as int]@);
        }
        r
    }
}

/// Joins the strings of `parts` with the separator `sep`.
pub fn join_strs(parts: &Vec<String>, sep: &str) -> (r: String)
    ensures
        r@ == spec_join(views(parts@), sep@),
{
    let r = join_from(parts, sep, 0);
    proof {
        assert(views(parts@).skip(0) =~= views(parts@));
    }
    r
}


/// Every character of a join comes from a part or from the separator.
pub proof fn lemma_join_chars(parts: Seq<Seq<char>>, sep: Seq<char>, pred: spec_fn(char) -> bool)
    requires
        forall|i: int, k: int|
            0 <= i < parts.len() && 0 <= k < parts[i].len() ==> pred(#[trigger] parts[i][k]),
        forall|k: int| 0 <= k < sep.len() ==> pred(#[trigger] sep[k]),
    ensures
        forall|k: int| 0 <= k < spec_join(parts, sep).len() ==> pred(#[trigger] spec_join(parts, sep)[k]),
    decreases parts.len(),
{
    let j = spec_join(parts, sep);
    if parts.len() == 0 {
    } else if parts.len() == 1 {
        assert forall|k: int| 0 <= k < j.len() implies pred(#[trigger] j[k]) by {
            assert(j[k] == parts[0][k]);
        }
    } else {
        let rest = parts.drop_first();
        assert forall|i: int, k: int|
            0 <= i < rest.len() && 0 <= k < rest[i].len() implies pred(#[trigger] rest[i][k]) by {
            assert(rest[i] == parts[i + 1]);
        }
        lemma_join_chars(rest, sep, pred);
        assert forall|k: int| 0 <= k < j.len() implies pred(#[trigger] j[k]) by {
            if k < parts[0].len() {
                assert(j[k] == parts[0][k]);
            } else if k < parts[0].len() + sep.len() {
                assert(j[k] == sep[k - parts[0].len()]);
            } else {
                assert(j[k] == spec_join(rest, sep)[k - parts[0].len() - sep.len()]);
            }
        }
    }
}

/// A sequence without the one character holds no occurrence of the
/// one-character pattern.
pub proof fn lemma_no_char_no_find(s: Seq<char>, c: char)
    requires
        forall|k: int| 0 <= k < s.len() ==> #[trigger] s[k] != c,
    ensures
        spec_find(s, seq![c]) is None,
{
    lemma_spec_find(s, seq![c]);
    if spec_find(s, seq![c]) is Some {
        let i = spec_find(s, seq![c])->0;
        assert(s.subrange(i, i + 1) =~= seq![c]);
        assert(s.subrange(i, i + 1)[0] == s[i]);
        assert(seq![c][0] == c);
    }
}

/// Filtering keeps a sequence whole when every element passes.
pub proof fn lemma_filter_all<A>(s: Seq<A>, pred: spec_fn(A) -> bool)
    requires
        forall|i: int| 0 <= i < s.len() ==> pred(#[trigger] s[i]),
    ensures
        s.filter(pred) == s,
    decreases s.len(),
{
    reveal(Seq::filter);
    if s.len() > 0 {
        assert forall|i: int| 0 <= i < s.drop_last().len() implies pred(
            #[trigger] s.drop_last()[i],
        ) by {
            assert(s.drop_last()[i] == s[i]);
        }
        lemma_filter_all(s.drop_last(), pred);
        assert(pred(s.last())) by {
            assert(s[s.len() - 1] == s.last());
        }
        assert(s.filter(pred) =~= s);
    }
}

/// In `a + sep + t`, when `a` holds no occurrence of `sep` and `sep`
/// cannot straddle its own boundary, the first occurrence is exactly
/// where the separator was put.
pub proof fn lemma_find_in_join(a: Seq<char>, t: Seq<char>, sep: Seq<char>)
    requires
        sep.len() == 1 || (sep.len() == 2 && sep[0] != sep[1]),
        spec_find(a, sep) is None,
    ensures
        spec_find(a + sep + t, sep) == Some(a.len() as int),
{
    let j = a + sep + t;
    lemma_spec_find(j, sep);
    lemma_spec_find(a, sep);
    assert(j.subrange(a.len() as int, a.len() + sep.len() as int) =~= sep);
    assert forall|p: int| 0 <= p < a.len() && p + sep.len() <= j.len() implies #[trigger] j.subrange(
        p,
        p + sep.len() as int,
    ) !~= sep by {
        if p + sep.len() <= a.len() {
            assert(j.subrange(p, p + sep.len() as int) =~= a.subrange(p, p + sep.len() as int));
        } else {
            assert(sep.len() == 2 && p == a.len() - 1);
            if j.subrange(p, p + 2) =~= sep {
                assert(j[p + 1] == sep[0]);
                assert(j.subrange(p, p + 2)[1] == sep[1]);
            }
        }
    }
    match spec_find(j, sep) {
        None => {
            assert(j.subrange(a.len() as int, a.len() + sep.len() as int) !~= sep);
        },
        Some(q) => {
            if q < a.len() {
                assert(j.subrange(q, q + sep.len() as int) !~= sep);
            } else if q > a.len() {
                assert(j.subrange(a.len() as int, a.len() + sep.len() as int) !~= sep);
            }
        },
    }
}

/// Splitting undoes joining: with a separator that occurs in no part
/// and cannot straddle a boundary, the parts come back exactly.
pub proof fn lemma_split_join(parts: Seq<Seq<char>>, sep: Seq<char>)
    requires
        sep.len() == 1 || (sep.len() == 2 && sep[0] != sep[1]),
        parts.len() >= 1,
        forall|i: int| 0 <= i < parts.len() ==> spec_find(#[trigger] parts[i], sep) is None,
    ensures
        spec_split(spec_join(parts, sep), sep) == parts,
    decreases parts.len(),
{
    let j = spec_join(parts, sep);
    if parts.len() == 1 {
        assert(j == parts[0]);
        assert(spec_find(j, sep) is None);
        assert(spec_split(j, sep) =~= parts);
    } else {
        let rest = parts.drop_first();
        let jr = spec_join(rest, sep);
        assert(j == parts[0] + sep + jr);
        lemma_find_in_join(parts[0], jr, sep);
        assert(spec_find(j, sep) == Some(parts[0].len() as int));
        assert(j.take(parts[0].len() as int) =~= parts[0]);
        assert(j.skip(parts[0].len() + sep.len() as int) =~= jr);
        assert forall|i: int| 0 <= i < rest.len() implies spec_find(
            #[trigger] rest[i],
            sep,
        ) is None by {
            assert(rest[i] == parts[i + 1]);
        }
        lemma_split_join(rest, sep);
        assert(spec_split(j, sep) =~= seq![parts[0]] + spec_split(jr, sep));
        assert(seq![parts[0]] + rest =~= parts);
    }
}

} // verus!
