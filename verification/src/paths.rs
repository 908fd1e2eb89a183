//! Path normalization: a path string is decomposed into its ordered
//! components, with empty segments and "current directory" markers removed,
//! and component sequences are re-joined the way paths are displayed.

use vstd::prelude::*;

verus! {

/// The path component separator.
pub open spec fn is_sep(c: char) -> bool {
    c == '/'
}

/// Index of the first separator in `s`, or `s.len()` if there is none.
pub open spec fn first_sep(s: Seq<char>) -> int
    decreases s.len(),
{
    if s.len() == 0 {
        0
    } else if is_sep(s[0]) {
        0
    } else {
        1 + first_sep(s.drop_first())
    }
}

pub proof fn lemma_first_sep_bounds(s: Seq<char>)
    ensures
        0 <= first_sep(s) <= s.len(),
        forall|i: int| 0 <= i < first_sep(s) ==> !is_sep(s[i]),
        first_sep(s) < s.len() ==> is_sep(s[first_sep(s)]),
    decreases s.len(),
{
    if s.len() == 0 {
    } else if is_sep(s[0]) {
    } else {
        lemma_first_sep_bounds(s.drop_first());
        assert forall|i: int| 0 <= i < first_sep(s) implies !is_sep(s[i]) by {
            if i > 0 {
                assert(s[i] == s.drop_first()[i - 1]);
            }
        }
    }
}

/// A scan that stops at the first separator finds `first_sep`.
pub proof fn lemma_first_sep_at(s: Seq<char>, k: int)
    requires
        0 <= k <= s.len(),
        forall|i: int| 0 <= i < k ==> !is_sep(s[i]),
        k == s.len() || is_sep(s[k]),
    ensures
        first_sep(s) == k,
    decreases s.len(),
{
    if s.len() == 0 {
    } else if is_sep(s[0]) {
        assert(k == 0);
    } else {
        assert(k >= 1);
        lemma_first_sep_at(s.drop_first(), k - 1);
    }
}

/// A component is kept when it is neither empty nor the "current directory"
/// marker.
pub open spec fn keep_component(c: Seq<char>) -> bool {
    c.len() > 0 && c != seq!['.']
}

/// The ordered components of a path: the text is cut at every separator, and
/// empty segments and "." segments are dropped.
pub open spec fn components(s: Seq<char>) -> Seq<Seq<char>>
    decreases s.len(),
    via components_decreases
{
    if s.len() == 0 {
        Seq::empty()
    } else {
        let i = first_sep(s);
        let head = s.take(i);
        let rest = if i < s.len() {
            components(s.skip(i + 1))
        } else {
            Seq::<Seq<char>>::empty()
        };
        if keep_component(head) {
            seq![head] + rest
        } else {
            rest
        }
    }
}

#[via_fn]
proof fn components_decreases(s: Seq<char>) {
    lemma_first_sep_bounds(s);
}

/// Appending a component to a display path: nothing is added to an empty
/// base, a base that already ends in a separator gets the component directly,
/// and otherwise a separator is put between the two.
pub open spec fn join_spec(base: Seq<char>, comp: Seq<char>) -> Seq<char> {
    if base.len() == 0 {
        comp
    } else if is_sep(base[base.len() - 1]) {
        base + comp
    } else {
        base + seq!['/'] + comp
    }
}

/// The views of a sequence of owned strings.
pub open spec fn views_of(v: Seq<String>) -> Seq<Seq<char>> {
    v.map_values(|s: String| s@)
}


/// Mapping to views commutes with appending one string.
pub proof fn lemma_views_of_push(v: Seq<String>, s: String)
    ensures
        views_of(v.push(s)) == views_of(v).push(s@),
{
    assert forall|w: int| 0 <= w < v.len() + 1 implies views_of(v.push(s))[w] == views_of(
        v,
    ).push(s@)[w] by {
        if w < v.len() {
            assert(v.push(s)[w] == v[w]);
        } else {
            assert(v.push(s)[w] == s);
        }
    }
    assert(views_of(v.push(s)) =~= views_of(v).push(s@));
}

/// An owned copy of one path component.
pub fn to_string(component: &str) -> (r: String)
    ensures
        r@ == component@,
{
    component.to_owned()
}

/// Cuts a path into its kept components, in order.
pub fn split_components(path: &str) -> (r: Vec<String>)
    ensures
        views_of(r@) == components(path@),
{
    let n = path.unicode_len();
    let mut out: Vec<String> = Vec::new();
    let mut p: usize = 0;
    proof {
        assert(views_of(out@) =~= Seq::<Seq<char>>::empty());
        assert(path@.skip(0) =~= path@);
    }
    while p < n
        invariant
            n == path@.len(),
            p <= n,
            components(path@) == views_of(out@) + components(path@.skip(p as int)),
        decreases n - p,
    {
        let ghost t = path@.skip(p as int);
        let mut j: usize = p;
        while j < n && path.get_char(j) != '/'
            invariant
                n == path@.len(),
                p <= j <= n,
                forall|i: int| p <= i < j ==> !is_sep(path@[i]),
            decreases n - j,
        {
            j += 1;
        }
        proof {
            assert forall|i: int| 0 <= i < j - p implies !is_sep(t[i]) by {
                assert(t[i] == path@[p + i]);
            }
            if j < n {
                assert(t[j - p] == path@[j as int]);
            }
            lemma_first_sep_at(t, j - p);
            assert(t.take(j - p) =~= path@.subrange(p as int, j as int));
        }
        let seg = path.substring_char(p, j);
        let keep = if j == p {
            false
        } else if j == p + 1 && path.get_char(p) == '.' {
            proof {
                assert(seg@ =~= seq!['.']);
            }
            false
        } else {
            proof {
                if seg@ == seq!['.'] {
                    assert(seg@.len() == 1);
                    assert(path@[p as int] == seg@[0]);
                }
            }
            true
        };
        let ghost out_prev = out@;
        if keep {
            out.push(to_string(seg));
        }
        let next_p = if j < n {
            j + 1
        } else {
            n
        };
        proof {
            assert(keep == keep_component(t.take(j - p)));
            if j < n {
                assert(t.skip(j - p + 1) =~= path@.skip(next_p as int));
            } else {
                assert(path@.skip(next_p as int) =~= Seq::<char>::empty());
                assert(components(path@.skip(next_p as int)) =~= Seq::<Seq<char>>::empty());
            }
            if keep {
                assert(views_of(out@) =~= views_of(out_prev) + seq![seg@]);
                assert(components(t) =~= seq![seg@] + components(path@.skip(next_p as int)));
            } else {
                assert(out@ =~= out_prev);
                assert(components(t) =~= components(path@.skip(next_p as int)));
            }
            assert(components(path@) =~= views_of(out@) + components(path@.skip(next_p as int)));
        }
        p = next_p;
    }
    proof {
        assert(path@.skip(n as int) =~= Seq::<char>::empty());
        assert(components(path@) =~= views_of(out@));
    }
    out
}

/// Appends one component to a display path, as `join_spec` describes.
pub fn join_path(base: &str, comp: &str) -> (r: String)
    ensures
        r@ == join_spec(base@, comp@),
{
    let n = base.unicode_len();
    if n == 0 {
        return to_string(comp);
    }
    let last = base.get_char(n - 1);
    let mut r = to_string(base);
    if last != '/' {
        proof {
            reveal_strlit("/");
        }
        r.append("/");
        proof {
            assert(r@ =~= base@ + seq!['/']);
        }
    }
    r.append(comp);
    proof {
        if last == '/' {
            assert(is_sep(base@[base@.len() - 1]));
        } else {
            assert(!is_sep(base@[base@.len() - 1]));
            assert(r@ =~= base@ + seq!['/'] + comp@);
        }
    }
    r
}

} // verus!
