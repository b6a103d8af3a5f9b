//! Splitting a path pattern into components, and the rule that wildcards may
//! stand in its last component only.
//!
//! Both `/` and `\` separate components. Empty components and `.` components
//! (other than one that makes up the whole path) carry nothing and are left
//! out; `..` is kept as a component of its own.

use vstd::prelude::*;
use crate::error::PathError;
use crate::wildcard::{chars_of, has_wildcard, is_wildcard};

verus! {

/// `\` is read as `/`.
pub open spec fn unify_separators(p: Seq<char>) -> Seq<char> {
    p.map_values(|c: char| if c == '\\' { '/' } else { c })
}

/// The length of `n` once trailing separators and trailing `.` components are
/// dropped: the end of its last component.
pub open spec fn trimmed_len(n: Seq<char>) -> nat
    decreases n.len(),
{
    if n.len() == 0 {
        0
    } else if n.last() == '/' {
        trimmed_len(n.drop_last())
    } else if n.last() == '.' && (n.len() == 1 || n[n.len() - 2] == '/') {
        trimmed_len(n.drop_last())
    } else {
        n.len()
    }
}

/// Where the component that ends at `e` starts: just after the last separator
/// before `e`, or at 0.
pub open spec fn component_start(n: Seq<char>, e: int) -> int
    decreases e,
{
    if e <= 0 {
        0
    } else if n[e - 1] == '/' {
        e
    } else {
        component_start(n, e - 1)
    }
}

/// The components of a path whose separators are all `/`, from first to last.
pub open spec fn components(n: Seq<char>) -> Seq<Seq<char>>
    decreases n.len(),
{
    let e = trimmed_len(n) as int;
    if e == 0 {
        seq![]
    } else {
        let s = component_start(n, e);
        proof {
            lemma_last_component_bounds(n);
        }
        components(n.take(s)).push(n.subrange(s, e))
    }
}

/// The text in front of the last component, separators included.
pub open spec fn parent_text(n: Seq<char>) -> Seq<char> {
    n.take(component_start(n, trimmed_len(n) as int))
}

/// The last component.
pub open spec fn last_component(n: Seq<char>) -> Seq<char> {
    n.subrange(component_start(n, trimmed_len(n) as int), trimmed_len(n) as int)
}

/// Some component other than the last holds a wildcard.
pub open spec fn wildcard_in_parent(n: Seq<char>) -> bool {
    exists|k: int| 0 <= k < components(n).len() - 1 && has_wildcard(#[trigger] components(n)[k])
}

pub proof fn lemma_trimmed_len_bounds(n: Seq<char>)
    ensures
        trimmed_len(n) <= n.len(),
        trimmed_len(n) > 0 ==> n[trimmed_len(n) - 1] != '/',
        trimmed_len(n) > 0 ==> trimmed_len(n.take(trimmed_len(n) as int)) == trimmed_len(n),
        forall|i: int| trimmed_len(n) <= i < n.len() ==> #[trigger] n[i] == '/' || n[i] == '.',
    decreases n.len(),
{
    if n.len() > 0 {
        lemma_trimmed_len_bounds(n.drop_last());
        let e = trimmed_len(n) as int;
        if e == n.len() {
            assert(n.take(e) =~= n);
        } else {
            if e > 0 {
                assert(n.drop_last().take(e) =~= n.take(e));
            }
            assert forall|i: int| e <= i < n.len() implies #[trigger] n[i] == '/' || n[i]
                == '.' by {
                if i < n.len() - 1 {
                    assert(n[i] == n.drop_last()[i]);
                }
            }
        }
    }
}

pub proof fn lemma_component_start_bounds(n: Seq<char>, e: int)
    requires
        0 <= e <= n.len(),
    ensures
        0 <= component_start(n, e) <= e,
        e > 0 && n[e - 1] != '/' ==> component_start(n, e) < e,
        forall|i: int| component_start(n, e) <= i < e ==> #[trigger] n[i] != '/',
        component_start(n, e) > 0 ==> n[component_start(n, e) - 1] == '/',
    decreases e,
{
    if e > 0 && n[e - 1] != '/' {
        lemma_component_start_bounds(n, e - 1);
    }
}

pub proof fn lemma_last_component_bounds(n: Seq<char>)
    ensures
        trimmed_len(n) > 0 ==> 0 <= component_start(n, trimmed_len(n) as int) < trimmed_len(n)
            <= n.len(),
{
    lemma_trimmed_len_bounds(n);
    if trimmed_len(n) > 0 {
        lemma_component_start_bounds(n, trimmed_len(n) as int);
    }
}

/// A wildcard lies in the text exactly when it lies in one of its components.
pub proof fn lemma_wildcard_in_components(m: Seq<char>)
    ensures
        has_wildcard(m) <==> exists|k: int|
            0 <= k < components(m).len() && has_wildcard(#[trigger] components(m)[k]),
    decreases m.len(),
{
    lemma_trimmed_len_bounds(m);
    let e = trimmed_len(m) as int;
    if e == 0 {
        assert(!has_wildcard(m)) by {
            assert forall|i: int| 0 <= i < m.len() implies !is_wildcard(#[trigger] m[i]) by {
                assert(m[i] == '/' || m[i] == '.');
            }
        }
    } else {
        lemma_last_component_bounds(m);
        let s = component_start(m, e);
        let front = m.take(s);
        let last = m.subrange(s, e);
        lemma_wildcard_in_components(front);
        let cs = components(m);
        assert(cs == components(front).push(last));
        if has_wildcard(m) {
            let i = choose|i: int| 0 <= i < m.len() && is_wildcard(#[trigger] m[i]);
            assert(m[i] != '/' && m[i] != '.');
            if i < s {
                assert(front[i] == m[i]);
                let k = choose|k: int|
                    0 <= k < components(front).len() && has_wildcard(
                        #[trigger] components(front)[k],
                    );
                assert(cs[k] == components(front)[k]);
            } else {
                assert(i < e);
                assert(last[i - s] == m[i]);
                assert(cs[cs.len() - 1] == last);
            }
        }
        if exists|k: int| 0 <= k < cs.len() && has_wildcard(#[trigger] cs[k]) {
            let k = choose|k: int| 0 <= k < cs.len() && has_wildcard(#[trigger] cs[k]);
            if k < cs.len() - 1 {
                assert(cs[k] == components(front)[k]);
                let i = choose|i: int| 0 <= i < front.len() && is_wildcard(#[trigger] front[i]);
                assert(m[i] == front[i]);
            } else {
                let i = choose|i: int| 0 <= i < last.len() && is_wildcard(#[trigger] last[i]);
                assert(m[s + i] == last[i]);
            }
        }
    }
}

/// How the components of a path relate to the parent text and the last
/// component.
pub proof fn lemma_parent_and_last(n: Seq<char>)
    ensures
        n.len() > 0 ==> trimmed_len(n) > 0 || !has_wildcard(n),
        trimmed_len(n) > 0 ==> components(n).len() > 0 && components(n).last()
            == last_component(n),
        trimmed_len(n) > 0 ==> (wildcard_in_parent(n) <==> has_wildcard(parent_text(n))),
        has_wildcard(n) <==> has_wildcard(parent_text(n)) || has_wildcard(last_component(n)),
{
    lemma_trimmed_len_bounds(n);
    lemma_last_component_bounds(n);
    lemma_wildcard_in_components(n);
    let e = trimmed_len(n) as int;
    if e > 0 {
        let s = component_start(n, e);
        lemma_wildcard_in_components(n.take(s));
        let cs = components(n);
        assert(cs == components(n.take(s)).push(n.subrange(s, e)));
        assert forall|k: int| 0 <= k < cs.len() - 1 implies #[trigger] cs[k] == components(
            n.take(s),
        )[k] by {}
        if wildcard_in_parent(n) {
            let k = choose|k: int| 0 <= k < cs.len() - 1 && has_wildcard(#[trigger] cs[k]);
            assert(has_wildcard(components(n.take(s))[k]));
        }
        if has_wildcard(parent_text(n)) {
            let k = choose|k: int|
                0 <= k < components(n.take(s)).len() && has_wildcard(
                    #[trigger] components(n.take(s))[k],
                );
            assert(has_wildcard(cs[k]));
        }
        if has_wildcard(n) {
            let i = choose|i: int| 0 <= i < n.len() && is_wildcard(#[trigger] n[i]);
            assert(n[i] != '/' && n[i] != '.');
            if i < s {
                assert(parent_text(n)[i] == n[i]);
            } else {
                assert(last_component(n)[i - s] == n[i]);
            }
        }
        if has_wildcard(parent_text(n)) {
            let i = choose|i: int| 0 <= i < parent_text(n).len() && is_wildcard(#[trigger] parent_text(n)[i]);
            assert(n[i] == parent_text(n)[i]);
        }
        if has_wildcard(last_component(n)) {
            let i = choose|i: int| 0 <= i < last_component(n).len() && is_wildcard(#[trigger] last_component(n)[i]);
            assert(n[s + i] == last_component(n)[i]);
        }
    } else {
        assert(!has_wildcard(n)) by {
            assert forall|i: int| 0 <= i < n.len() implies !is_wildcard(#[trigger] n[i]) by {
                assert(n[i] == '/' || n[i] == '.');
            }
        }
        assert(parent_text(n).len() == 0);
        assert(last_component(n).len() == 0);
    }
}

/// Reading `\\` as `/` neither adds nor removes a wildcard.
pub proof fn lemma_unify_keeps_wildcards(p: Seq<char>)
    ensures
        has_wildcard(unify_separators(p)) == has_wildcard(p),
{
    let n = unify_separators(p);
    if has_wildcard(p) {
        let i = choose|i: int| 0 <= i < p.len() && is_wildcard(#[trigger] p[i]);
        assert(is_wildcard(n[i]));
    }
    if has_wildcard(n) {
        let i = choose|i: int| 0 <= i < n.len() && is_wildcard(#[trigger] n[i]);
        assert(is_wildcard(p[i]));
    }
}

/// `pattern` with every `\\` turned into `/`.
pub fn normalize_separators(pattern: &str) -> (r: String)
    ensures
        r@ == unify_separators(pattern@),
{
    let n = pattern.unicode_len();
    let mut r = String::new();
    let mut i: usize = 0;
    while i < n
        invariant
            n == pattern@.len(),
            i <= n,
            r@ == unify_separators(pattern@).take(i as int),
        decreases n - i,
    {
        let c = pattern.get_char(i);
        if c == '\\' {
            r.append("/");
        } else {
            r.append(pattern.substring_char(i, i + 1));
        }
        proof {
            reveal_strlit("/");
            assert(r@ =~= unify_separators(pattern@).take(i + 1));
        }
        i = i + 1;
    }
    assert(r@ =~= unify_separators(pattern@));
    r
}

/// Whether the text ending at `e` ends in a separator or in a `.` component,
/// which the last component does not take in.
fn ends_trimmable(v: &Vec<char>, e: usize) -> (r: bool)
    requires
        0 < e <= v@.len(),
    ensures
        r == (v@[e - 1] == '/' || (v@[e - 1] == '.' && (e == 1 || v@[e - 2] == '/'))),
{
    v[e - 1] == '/' || (v[e - 1] == '.' && (e == 1 || v[e - 2] == '/'))
}

/// Splits `pattern`, with `\\` read as `/`, into the text in front of its last
/// component and that component. Fails when a wildcard stands in any other
/// component.
pub fn split_last_component(pattern: &str) -> (r: Result<(String, String), PathError>)
    ensures
        match r {
            Ok((parent, last)) => {
                &&& !wildcard_in_parent(unify_separators(pattern@))
                &&& parent@ == parent_text(unify_separators(pattern@))
                &&& last@ == last_component(unify_separators(pattern@))
            },
            Err(e) => wildcard_in_parent(unify_separators(pattern@)) && e
                == PathError::WildcardInParent,
        },
{
    let unified = normalize_separators(pattern);
    let v = chars_of(unified.as_str());
    let ghost n = v@;
    let mut e: usize = v.len();
    proof {
        assert(n.take(e as int) =~= n);
    }
    while e > 0 && ends_trimmable(&v, e)
        invariant
            v@ == n,
            e <= n.len(),
            trimmed_len(n.take(e as int)) == trimmed_len(n),
        decreases e,
    {
        assert(n.take(e as int).drop_last() =~= n.take(e - 1));
        e = e - 1;
    }
    proof {
        lemma_trimmed_len_bounds(n);
        if e > 0 {
            assert(n.take(e as int).last() == n[e - 1]);
        }
    }
    assert(e == trimmed_len(n));
    let mut s: usize = e;
    while s > 0 && v[s - 1] != '/'
        invariant
            v@ == n,
            s <= e,
            e == trimmed_len(n),
            e <= n.len(),
            component_start(n, s as int) == component_start(n, e as int),
        decreases s,
    {
        s = s - 1;
    }
    assert(s == component_start(n, e as int));
    proof {
        lemma_parent_and_last(n);
    }
    let mut k: usize = 0;
    while k < s
        invariant
            v@ == n,
            n == unify_separators(pattern@),
            s <= e <= n.len(),
            s == component_start(n, trimmed_len(n) as int),
            forall|i: int| 0 <= i < k ==> !is_wildcard(#[trigger] n[i]),
        decreases s - k,
    {
        if v[k] == '*' || v[k] == '?' {
            assert(parent_text(n)[k as int] == n[k as int]);
            proof {
                lemma_parent_and_last(n);
            }
            return Err(PathError::WildcardInParent);
        }
        k = k + 1;
    }
    assert(!has_wildcard(parent_text(n))) by {
        assert forall|i: int| 0 <= i < parent_text(n).len() implies !is_wildcard(
            #[trigger] parent_text(n)[i],
        ) by {
            assert(parent_text(n)[i] == n[i]);
        }
    }
    let parent = String::from_str(unified.as_str().substring_char(0, s));
    let last = String::from_str(unified.as_str().substring_char(s, e));
    Ok((parent, last))
}

} // verus!
