use vstd::prelude::*;
use crate::strings::{spec_split, split_str, str_eq, views};

verus! {

/// The generic sector labels that never name a crag on their own.
pub open spec fn is_stop_name(s: Seq<char>) -> bool {
    ||| s == "Upper part"@
    ||| s == "Left"@
    ||| s == "Right"@
    ||| s == "Middle"@
    ||| s == "Centre"@
    ||| s == "East"@
}

fn is_stop(s: &str) -> (r: bool)
    ensures
        r == is_stop_name(s@),
{
    str_eq(s, "Upper part") || str_eq(s, "Left") || str_eq(s, "Right") || str_eq(s, "Middle")
        || str_eq(s, "Centre") || str_eq(s, "East")
}

/// The override table: crags whose canonical name sits at a fixed
/// position of the original path rather than at its trimmed end.
pub open spec fn override_index(s: Seq<char>) -> Option<int> {
    if s == "Geyikbayırı"@ {
        Some(1int)
    } else if s == "Frankenjura Nord"@ {
        Some(3int)
    } else if s == "Schlehenmühle"@ {
        Some(4int)
    } else if s == "Unteres Wiesenttal"@ {
        Some(4int)
    } else if s == "Unteres Trubachtal"@ {
        Some(4int)
    } else {
        None
    }
}

fn override_of(s: &str) -> (r: Option<usize>)
    ensures
        match r {
            Some(i) => override_index(s@) == Some(i as int),
            None => override_index(s@) is None,
        },
{
    if str_eq(s, "Geyikbayırı") {
        Some(1)
    } else if str_eq(s, "Frankenjura Nord") {
        Some(3)
    } else if str_eq(s, "Schlehenmühle") {
        Some(4)
    } else if str_eq(s, "Unteres Wiesenttal") {
        Some(4)
    } else if str_eq(s, "Unteres Trubachtal") {
        Some(4)
    } else {
        None
    }
}

/// Drops trailing stoplist nodes.
pub open spec fn trim_stops(nodes: Seq<Seq<char>>) -> Seq<Seq<char>>
    decreases nodes.len(),
{
    if nodes.len() > 0 && is_stop_name(nodes.last()) {
        trim_stops(nodes.drop_last())
    } else {
        nodes
    }
}

/// The stoplist-derived default: the last node that is not a generic
/// sector label, or the empty name when none is left.
pub open spec fn default_name(nodes: Seq<Seq<char>>) -> Seq<char> {
    if trim_stops(nodes).len() == 0 {
        Seq::empty()
    } else {
        trim_stops(nodes).last()
    }
}

/// The override hit nearest to the end of the path, if any.
pub open spec fn find_override(nodes: Seq<Seq<char>>) -> Option<int>
    decreases nodes.len(),
{
    if nodes.len() == 0 {
        None
    } else if override_index(nodes.last()) is Some {
        override_index(nodes.last())
    } else {
        find_override(nodes.drop_last())
    }
}

/// What resolving a path yields: the override-selected node where the
/// table names one (none at all when the path is too short for its
/// index), and the stoplist-derived default otherwise.
pub open spec fn crag_from_path(path: Seq<char>) -> Option<Seq<char>> {
    let nodes = spec_split(path, " - "@);
    match find_override(nodes) {
        Some(i) => if i < nodes.len() {
            Some(nodes[i])
        } else {
            None
        },
        None => Some(default_name(nodes)),
    }
}

/// Resolves a crag's display name from its hierarchical location path.
pub fn get_crag_name_from_path(path: &str) -> (r: Option<String>)
    ensures
        match r {
            Some(name) => crag_from_path(path@) == Some(name@),
            None => crag_from_path(path@) is None,
        },
{
    proof {
        reveal_strlit(" - ");
    }
    let nodes = split_str(path, " - ");
    let ghost nv = views(nodes@);

    let mut j: usize = nodes.len();
    let mut found: Option<usize> = None;
    proof {
        assert(nv.take(j as int) =~= nv);
    }
    while j > 0 && found.is_none()
        invariant
            j <= nodes@.len(),
            nv == views(nodes@),
            nv.len() == nodes@.len(),
            match found {
                Some(i) => j < nodes@.len() && override_index(nv[j as int]) == Some(i as int)
                    && find_override(nv) == Some(i as int),
                None => find_override(nv) == find_override(nv.take(j as int)),
            },
        decreases j,
    {
        j = j - 1;
        match override_of(nodes[j].as_str()) {
            Some(i) => {
                found = Some(i);
                proof {
                    assert(nv.take(j + 1).last() == nv[j as int]);
                    assert(nv.take(j + 1).drop_last() =~= nv.take(j as int));
                }
            },
            None => {
                proof {
                    assert(nv.take(j + 1).last() == nv[j as int]);
                    assert(nv.take(j + 1).drop_last() =~= nv.take(j as int));
                }
            },
        }
    }
    proof {
        if found is None {
            assert(nv.take(0) =~= Seq::<Seq<char>>::empty());
        }
    }

    match found {
        Some(i) => {
            if i < nodes.len() {
                Some(nodes[i].clone())
            } else {
                None
            }
        },
        None => {
            let mut t: usize = nodes.len();
            proof {
                assert(nv.take(t as int) =~= nv);
            }
            while t > 0 && is_stop(nodes[t - 1].as_str())
                invariant
                    t <= nodes@.len(),
                    nv == views(nodes@),
                    nv.len() == nodes@.len(),
                    trim_stops(nv) == trim_stops(nv.take(t as int)),
                decreases t,
            {
                proof {
                    assert(nv.take(t as int).last() == nv[t - 1]);
                    assert(nv.take(t as int).drop_last() =~= nv.take(t - 1));
                }
                t = t - 1;
            }
            if t == 0 {
                proof {
                    assert(nv.take(0) =~= Seq::<Seq<char>>::empty());
                    assert(trim_stops(nv).len() == 0);
                }
                Some(String::new())
            } else {
                proof {
                    assert(!is_stop_name(nv.take(t as int).last()));
                    assert(trim_stops(nv.take(t as int)) == nv.take(t as int));
                    assert(trim_stops(nv).last() == nv[t - 1]);
                }
                Some(nodes[t - 1].clone())
            }
        },
    }
}

} // verus!
