//! Wildcard detection and full-string wildcard matching.

use vstd::prelude::*;

verus! {

/// `*` and `?` are the two wildcard characters.
pub open spec fn is_wildcard(c: char) -> bool {
    c == '*' || c == '?'
}

/// The text holds at least one wildcard character.
pub open spec fn has_wildcard(s: Seq<char>) -> bool {
    exists|i: int| 0 <= i < s.len() && is_wildcard(#[trigger] s[i])
}

/// Whether the whole of `s` is matched by the pattern `p`: `*` stands for any
/// run of characters (possibly empty), `?` for exactly one character, and every
/// other character for itself.
pub open spec fn glob_matches(p: Seq<char>, s: Seq<char>) -> bool
    decreases p.len() + s.len(),
{
    if p.len() == 0 {
        s.len() == 0
    } else if p[0] == '*' {
        glob_matches(p.drop_first(), s) || (s.len() > 0 && glob_matches(p, s.drop_first()))
    } else {
        s.len() > 0 && (p[0] == '?' || p[0] == s[0]) && glob_matches(p.drop_first(), s.drop_first())
    }
}

/// The characters of `s`, in order.
pub fn chars_of(s: &str) -> (r: Vec<char>)
    ensures
        r@ == s@,
{
    let n = s.unicode_len();
    let mut r: Vec<char> = Vec::new();
    let mut i: usize = 0;
    while i < n
        invariant
            n == s@.len(),
            i <= n,
            r@ == s@.take(i as int),
        decreases n - i,
    {
        let c = s.get_char(i);
        r.push(c);
        i = i + 1;
        assert(r@ =~= s@.take(i as int));
    }
    assert(r@ =~= s@);
    r
}

/// Whether `s` holds a `*` or a `?`.
pub fn contains_wildcard(s: &str) -> (r: bool)
    ensures
        r == has_wildcard(s@),
{
    let cs = chars_of(s);
    let mut i: usize = 0;
    while i < cs.len()
        invariant
            cs@ == s@,
            i <= cs.len(),
            forall|k: int| 0 <= k < i ==> !is_wildcard(#[trigger] s@[k]),
        decreases cs.len() - i,
    {
        if cs[i] == '*' || cs[i] == '?' {
            return true;
        }
        i = i + 1;
    }
    false
}

/// Unfolds the matching relation on a pattern suffix against a name suffix.
proof fn lemma_match_step(p: Seq<char>, s: Seq<char>, i: int, j: int)
    requires
        0 <= i < p.len(),
        0 <= j <= s.len(),
    ensures
        glob_matches(p.subrange(i, p.len() as int), s.subrange(j, s.len() as int)) == if p[i]
            == '*' {
            glob_matches(p.subrange(i + 1, p.len() as int), s.subrange(j, s.len() as int)) || (j
                < s.len() && glob_matches(
                p.subrange(i, p.len() as int),
                s.subrange(j + 1, s.len() as int),
            ))
        } else {
            j < s.len() && (p[i] == '?' || p[i] == s[j]) && glob_matches(
                p.subrange(i + 1, p.len() as int),
                s.subrange(j + 1, s.len() as int),
            )
        },
{
    let ps = p.subrange(i, p.len() as int);
    let ss = s.subrange(j, s.len() as int);
    assert(ps.drop_first() =~= p.subrange(i + 1, p.len() as int));
    if j < s.len() {
        assert(ss.drop_first() =~= s.subrange(j + 1, s.len() as int));
    }
}

/// Whether the whole of `name` is matched by `pattern` (see `glob_matches`).
pub fn wildcard_matches(pattern: &str, name: &str) -> (r: bool)
    ensures
        r == glob_matches(pattern@, name@),
{
    let p = chars_of(pattern);
    let s = chars_of(name);
    let n = p.len();
    let m = s.len();
    // For the pattern suffix from position `i`: `next[j]` tells whether it
    // matches the name suffix from `j < m`, `next_end` whether it matches the
    // empty suffix.
    let mut next: Vec<bool> = vec![false; m];
    let mut next_end = true;
    proof {
        assert(p@.subrange(n as int, n as int).len() == 0);
    }
    let mut i: usize = n;
    while i > 0
        invariant
            p@ == pattern@,
            s@ == name@,
            n == p@.len(),
            m == s@.len(),
            i <= n,
            next@.len() == m,
            next_end == glob_matches(p@.subrange(i as int, n as int), s@.subrange(m as int, m as int)),
            forall|j: int|
                0 <= j < m ==> #[trigger] next@[j] == glob_matches(
                    p@.subrange(i as int, n as int),
                    s@.subrange(j, m as int),
                ),
        decreases i,
    {
        let pc = p[i - 1];
        proof {
            lemma_match_step(p@, s@, i - 1, m as int);
        }
        let cur_end = pc == '*' && next_end;
        let mut cur: Vec<bool> = vec![false; m];
        let mut j: usize = m;
        while j > 0
            invariant
                p@ == pattern@,
                s@ == name@,
                n == p@.len(),
                m == s@.len(),
                0 < i <= n,
                pc == p@[i - 1],
                j <= m,
                next@.len() == m,
                cur@.len() == m,
                next_end == glob_matches(p@.subrange(i as int, n as int), s@.subrange(m as int, m as int)),
                cur_end == glob_matches(p@.subrange(i - 1, n as int), s@.subrange(m as int, m as int)),
                forall|k: int|
                    0 <= k < m ==> #[trigger] next@[k] == glob_matches(
                        p@.subrange(i as int, n as int),
                        s@.subrange(k, m as int),
                    ),
                forall|k: int|
                    j <= k < m ==> #[trigger] cur@[k] == glob_matches(
                        p@.subrange(i - 1, n as int),
                        s@.subrange(k, m as int),
                    ),
            decreases j,
        {
            let k = j - 1;
            let after_next = if k + 1 == m { next_end } else { next[k + 1] };
            let v = if pc == '*' {
                next[k] || (if k + 1 == m { cur_end } else { cur[k + 1] })
            } else {
                (pc == '?' || pc == s[k]) && after_next
            };
            proof {
                lemma_match_step(p@, s@, i - 1, k as int);
            }
            cur.set(k, v);
            j = k;
        }
        next = cur;
        next_end = cur_end;
        i = i - 1;
    }
    proof {
        assert(p@.subrange(0, n as int) =~= p@);
        assert(s@.subrange(0, m as int) =~= s@);
    }
    if m == 0 {
        next_end
    } else {
        next[0]
    }
}

/// `*` alone matches every text, the empty one included.
pub proof fn lemma_star_matches_any(s: Seq<char>)
    ensures
        glob_matches(seq!['*'], s),
    decreases s.len(),
{
    let p = seq!['*'];
    assert(p[0] == '*');
    assert(p.drop_first() =~= Seq::<char>::empty());
    if s.len() > 0 {
        lemma_star_matches_any(s.drop_first());
    } else {
        assert(glob_matches(p.drop_first(), s));
    }
}

/// `?` alone matches exactly the texts of one character.
pub proof fn lemma_question_matches_one(s: Seq<char>)
    ensures
        glob_matches(seq!['?'], s) <==> s.len() == 1,
{
    let p = seq!['?'];
    assert(p[0] == '?');
    assert(p.drop_first() =~= Seq::<char>::empty());
    if s.len() > 0 {
        assert(glob_matches(p.drop_first(), s.drop_first()) <==> s.drop_first().len() == 0);
    }
}

/// Matching is over the whole text: a pattern without wildcards matches
/// itself and nothing else.
pub proof fn lemma_literal_matches_itself_only(p: Seq<char>, s: Seq<char>)
    requires
        !has_wildcard(p),
    ensures
        glob_matches(p, s) <==> s == p,
    decreases p.len(),
{
    if p.len() > 0 {
        assert(!is_wildcard(p[0]));
        assert(!has_wildcard(p.drop_first())) by {
            assert forall|i: int| 0 <= i < p.drop_first().len() implies !is_wildcard(
                #[trigger] p.drop_first()[i],
            ) by {
                assert(p.drop_first()[i] == p[i + 1]);
            }
        }
        if s.len() > 0 {
            lemma_literal_matches_itself_only(p.drop_first(), s.drop_first());
            if s == p {
                assert(s.drop_first() == p.drop_first());
            }
            if glob_matches(p, s) {
                assert(s =~= seq![s[0]] + s.drop_first());
                assert(p =~= seq![p[0]] + p.drop_first());
            }
        }
    } else {
        if s.len() == 0 {
            assert(s =~= p);
        }
    }
}

/// Text without wildcards followed by `*` matches exactly the texts that begin
/// with that text: `a*` matches `a`, `ab` and `abc`, and not `ba`.
pub proof fn lemma_literal_then_star(q: Seq<char>, s: Seq<char>)
    requires
        !has_wildcard(q),
    ensures
        glob_matches(q + seq!['*'], s) <==> q.is_prefix_of(s),
    decreases q.len(),
{
    let p = q + seq!['*'];
    if q.len() == 0 {
        assert(p =~= seq!['*']);
        lemma_star_matches_any(s);
    } else {
        assert(!is_wildcard(q[0]));
        let q1 = q.drop_first();
        assert(!has_wildcard(q1)) by {
            assert forall|i: int| 0 <= i < q1.len() implies !is_wildcard(#[trigger] q1[i]) by {
                assert(q1[i] == q[i + 1]);
            }
        }
        assert(p[0] == q[0]);
        assert(p.drop_first() =~= q1 + seq!['*']);
        if s.len() > 0 {
            lemma_literal_then_star(q1, s.drop_first());
            if q.is_prefix_of(s) {
                assert(s[0] == q[0]);
                assert forall|i: int| 0 <= i < q1.len() implies #[trigger] q1[i] == s.drop_first()[i] by {
                    assert(q[i + 1] == s[i + 1]);
                }
            }
            if glob_matches(p, s) {
                assert forall|i: int| 0 <= i < q.len() implies #[trigger] q[i] == s[i] by {
                    if i > 0 {
                        assert(q1[i - 1] == s.drop_first()[i - 1]);
                    }
                }
            }
        }
    }
}

} // verus!
