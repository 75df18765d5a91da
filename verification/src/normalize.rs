use vstd::prelude::*;
use vstd::string::StrSliceExecFns;
use vstd::string::StringExecFns;

verus! {

/// Per-character expansion of the German umlauts; other characters
/// stand for themselves.
pub open spec fn umlaut_expansion(c: char) -> Seq<char> {
    if c == 'ä' {
        seq!['a', 'e']
    } else if c == 'ö' {
        seq!['o', 'e']
    } else if c == 'ü' {
        seq!['u', 'e']
    } else if c == 'Ä' {
        seq!['A', 'e']
    } else if c == 'Ö' {
        seq!['O', 'e']
    } else if c == 'Ü' {
        seq!['U', 'e']
    } else {
        seq![c]
    }
}

pub open spec fn expand_umlauts(s: Seq<char>) -> Seq<char>
    decreases s.len(),
{
    if s.len() == 0 {
        Seq::empty()
    } else {
        umlaut_expansion(s[0]) + expand_umlauts(s.drop_first())
    }
}

pub proof fn lemma_expand_umlauts_push(s: Seq<char>, c: char)
    ensures
        expand_umlauts(s.push(c)) == expand_umlauts(s) + umlaut_expansion(c),
    decreases s.len(),
{
    if s.len() == 0 {
        assert(s.push(c)[0] == c);
        assert(s.push(c).drop_first() =~= Seq::<char>::empty());
        assert(expand_umlauts(s.push(c)) == umlaut_expansion(c) + expand_umlauts(
            Seq::<char>::empty(),
        ));
        assert(umlaut_expansion(c) + Seq::<char>::empty() =~= umlaut_expansion(c));
        assert(expand_umlauts(s) + umlaut_expansion(c) =~= umlaut_expansion(c));
    } else {
        lemma_expand_umlauts_push(s.drop_first(), c);
        assert(s.push(c)[0] == s[0]);
        assert(s.push(c).drop_first() =~= s.drop_first().push(c));
        assert(expand_umlauts(s.push(c)) == umlaut_expansion(s[0]) + (expand_umlauts(
            s.drop_first(),
        ) + umlaut_expansion(c)));
        assert(umlaut_expansion(s[0]) + (expand_umlauts(s.drop_first()) + umlaut_expansion(c)) =~= (
        umlaut_expansion(s[0]) + expand_umlauts(s.drop_first())) + umlaut_expansion(c));
    }
}

/// A name below U+007F has no umlauts, so the expansion leaves it
/// alone.
pub proof fn lemma_expand_umlauts_ascii(s: Seq<char>)
    requires
        below_del(s),
    ensures
        expand_umlauts(s) == s,
    decreases s.len(),
{
    if s.len() > 0 {
        assert forall|k: int| 0 <= k < s.drop_first().len() implies (
        #[trigger] s.drop_first()[k]) < '\u{7f}' by {
            assert(s.drop_first()[k] == s[k + 1]);
        }
        lemma_expand_umlauts_ascii(s.drop_first());
        assert(s[0] < '\u{7f}');
        assert(expand_umlauts(s) =~= s);
    }
}

/// Characters strictly below U+007F: the ASCII range without the
/// delete control.
pub open spec fn below_del(s: Seq<char>) -> bool {
    forall|k: int| 0 <= k < s.len() ==> (#[trigger] s[k]) < '\u{7f}'
}

/// Relies on String::push: appends the one character at the end.
#[verifier::external_body]
fn push_char(s: &mut String, c: char)
    ensures
        final(s)@ == old(s)@.push(c),
{
    s.push(c);
}

/// Replaces every umlaut by its two-letter expansion.
pub fn expand_umlauts_str(name: &str) -> (r: String)
    ensures
        r@ == expand_umlauts(name@),
{
    proof {
        reveal_strlit("ae");
        reveal_strlit("oe");
        reveal_strlit("ue");
        reveal_strlit("Ae");
        reveal_strlit("Oe");
        reveal_strlit("Ue");
    }
    let n = name.unicode_len();
    let mut r = String::new();
    let mut i: usize = 0;
    while i < n
        invariant
            i <= n,
            n == name@.len(),
            r@ == expand_umlauts(name@.take(i as int)),
        decreases n - i,
    {
        proof {
            reveal_strlit("ae");
            reveal_strlit("oe");
            reveal_strlit("ue");
            reveal_strlit("Ae");
            reveal_strlit("Oe");
            reveal_strlit("Ue");
        }
        let c = name.get_char(i);
        let ghost r0 = r@;
        if c == 'ä' {
            r.append("ae");
            proof {
                assert("ae"@ =~= umlaut_expansion(c));
            }
        } else if c == 'ö' {
            r.append("oe");
            proof {
                assert("oe"@ =~= umlaut_expansion(c));
            }
        } else if c == 'ü' {
            r.append("ue");
            proof {
                assert("ue"@ =~= umlaut_expansion(c));
            }
        } else if c == 'Ä' {
            r.append("Ae");
            proof {
                assert("Ae"@ =~= umlaut_expansion(c));
            }
        } else if c == 'Ö' {
            r.append("Oe");
            proof {
                assert("Oe"@ =~= umlaut_expansion(c));
            }
        } else if c == 'Ü' {
            r.append("Ue");
            proof {
                assert("Ue"@ =~= umlaut_expansion(c));
            }
        } else {
            push_char(&mut r, c);
            proof {
                assert(r@ =~= r0 + umlaut_expansion(c));
            }
        }
        proof {
            assert(r@ == r0 + umlaut_expansion(c));
            lemma_expand_umlauts_push(name@.take(i as int), c);
            assert(name@.take(i + 1) =~= name@.take(i as int).push(c));
            assert(r@ == expand_umlauts(name@.take(i + 1)));
        }
        i = i + 1;
    }
    proof {
        assert(name@.take(n as int) =~= name@);
    }
    r
}

/// What deunicode makes of a string: a function of the characters alone.
pub uninterp spec fn deunicode_of(s: Seq<char>) -> Seq<char>;

/// Relies on deunicode::deunicode: the result depends on the characters
/// alone; every character it emits is below U+007F (kept input bytes
/// stay below it, and every transliteration is a line break or a
/// printable ASCII character); and a string made only of characters
/// below U+007F passes its fast path verbatim.  U+007F itself is
/// transliterated to the empty string, so only the range below it
/// comes back unchanged.
#[verifier::external_body]
fn deunicode_str(s: &str) -> (r: String)
    ensures
        r@ == deunicode_of(s@),
        below_del(r@),
        below_del(s@) ==> r@ == s@,
{
    deunicode::deunicode(s)
}

/// The canonical ASCII form of a crag name: umlauts expanded by the
/// fixed table, everything else transliterated.
pub open spec fn normalized(s: Seq<char>) -> Seq<char> {
    deunicode_of(expand_umlauts(s))
}

/// Transliterates a crag name into its stable ASCII form.  The result
/// stays below U+007F, and a name already in that range comes back
/// unchanged, which makes the normalization idempotent.
pub fn transliterate_crag_name(name: &str) -> (r: String)
    ensures
        r@ == normalized(name@),
        below_del(r@),
        below_del(name@) ==> r@ == name@,
{
    let expanded = expand_umlauts_str(name);
    proof {
        if below_del(name@) {
            lemma_expand_umlauts_ascii(name@);
        }
    }
    deunicode_str(expanded.as_str())
}

} // verus!
