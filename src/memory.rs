//! A text store held in memory: a stand-in for the file system in tests, and
//! a store in its own right where nothing needs to reach a disk.

use vstd::prelude::*;
use crate::error::TextError;
use crate::listing::texts_of;
use crate::wildcard::{contains_wildcard, glob_matches, has_wildcard, wildcard_matches};

verus! {

/// The map that a list of (name, content) pairs stands for; a later pair wins
/// over an earlier one with the same name.
pub open spec fn pairs_map(s: Seq<(String, String)>) -> Map<Seq<char>, Seq<char>>
    decreases s.len(),
{
    if s.len() == 0 {
        Map::empty()
    } else {
        pairs_map(s.drop_last()).insert(s.last().0@, s.last().1@)
    }
}

/// No name occurs twice.
pub open spec fn unique_names(s: Seq<(String, String)>) -> bool {
    forall|i: int, j: int| 0 <= i < j < s.len() ==> #[trigger] s[i].0@ != #[trigger] s[j].0@
}

/// What reading `name` from a store holding `m` gives.
pub open spec fn read_outcome(m: Map<Seq<char>, Seq<char>>, name: Seq<char>) -> Result<
    Seq<char>,
    TextError,
> {
    if m.dom().contains(name) {
        Ok(m[name])
    } else {
        Err(TextError::NotFound)
    }
}

/// What a store holding `m` holds after `content` is written under `name`.
pub open spec fn write_outcome(
    m: Map<Seq<char>, Seq<char>>,
    name: Seq<char>,
    content: Seq<char>,
) -> Map<Seq<char>, Seq<char>> {
    m.insert(name, content)
}

/// The names that pattern `p` resolves to in a store whose names are `names`:
/// without a wildcard, `p` itself if it is stored; with one, every stored name
/// that `p` matches as a whole. There are no directories here, so a name is
/// matched as one piece of text, separators included.
pub open spec fn memory_listing(names: Set<Seq<char>>, p: Seq<char>) -> Set<Seq<char>> {
    if !has_wildcard(p) {
        if names.contains(p) {
            set![p]
        } else {
            Set::empty()
        }
    } else {
        names.filter(|k: Seq<char>| glob_matches(p, k))
    }
}

/// Reading a name just written gives back exactly what was written.
pub proof fn lemma_write_then_read(
    m: Map<Seq<char>, Seq<char>>,
    name: Seq<char>,
    content: Seq<char>,
)
    ensures
        read_outcome(write_outcome(m, name, content), name) == Ok::<Seq<char>, TextError>(content),
{
}

/// Reading a name that was never written fails with `NotFound`; a new store
/// holds no name at all.
pub proof fn lemma_read_unwritten(m: Map<Seq<char>, Seq<char>>, name: Seq<char>)
    requires
        !m.dom().contains(name),
    ensures
        read_outcome(m, name) == Err::<Seq<char>, TextError>(TextError::NotFound),
        read_outcome(Map::empty(), name) == Err::<Seq<char>, TextError>(TextError::NotFound),
{
}

/// Writing a name twice keeps the second content only: the store holds the
/// same names as after the first write, and the name once.
pub proof fn lemma_overwrite(
    m: Map<Seq<char>, Seq<char>>,
    name: Seq<char>,
    first: Seq<char>,
    second: Seq<char>,
)
    ensures
        write_outcome(write_outcome(m, name, first), name, second) == write_outcome(
            m,
            name,
            second,
        ),
        write_outcome(write_outcome(m, name, first), name, second).dom() == write_outcome(
            m,
            name,
            first,
        ).dom(),
{
    assert(write_outcome(write_outcome(m, name, first), name, second) =~= write_outcome(
        m,
        name,
        second,
    ));
    assert(write_outcome(write_outcome(m, name, first), name, second).dom() =~= write_outcome(
        m,
        name,
        first,
    ).dom());
}

pub proof fn lemma_pairs_map_domain(s: Seq<(String, String)>)
    ensures
        forall|k: Seq<char>|
            #[trigger] pairs_map(s).dom().contains(k) <==> exists|i: int|
                0 <= i < s.len() && (#[trigger] s[i]).0@ == k,
    decreases s.len(),
{
    if s.len() > 0 {
        lemma_pairs_map_domain(s.drop_last());
        assert forall|k: Seq<char>| #[trigger] pairs_map(s).dom().contains(k) <==> exists|i: int|
            0 <= i < s.len() && (#[trigger] s[i]).0@ == k by {
            if pairs_map(s).dom().contains(k) {
                if k == s.last().0@ {
                    assert(s[s.len() - 1].0@ == k);
                } else {
                    assert(pairs_map(s.drop_last()).dom().contains(k));
                    let i = choose|i: int|
                        0 <= i < s.drop_last().len() && (#[trigger] s.drop_last()[i]).0@ == k;
                    assert(s[i] == s.drop_last()[i]);
                }
            }
            if exists|i: int| 0 <= i < s.len() && (#[trigger] s[i]).0@ == k {
                let i = choose|i: int| 0 <= i < s.len() && (#[trigger] s[i]).0@ == k;
                if i < s.len() - 1 {
                    assert(s.drop_last()[i] == s[i]);
                    assert(pairs_map(s.drop_last()).dom().contains(k));
                }
            }
        }
    }
}

pub proof fn lemma_pairs_map_value(s: Seq<(String, String)>, i: int)
    requires
        unique_names(s),
        0 <= i < s.len(),
    ensures
        pairs_map(s).dom().contains(s[i].0@),
        pairs_map(s)[s[i].0@] == s[i].1@,
    decreases s.len(),
{
    if i < s.len() - 1 {
        assert(s.drop_last()[i] == s[i]);
        assert(unique_names(s.drop_last())) by {
            assert forall|a: int, b: int| 0 <= a < b < s.drop_last().len() implies #[trigger] s.drop_last()[a].0@
                != #[trigger] s.drop_last()[b].0@ by {
                assert(s.drop_last()[a] == s[a]);
                assert(s.drop_last()[b] == s[b]);
            }
        }
        lemma_pairs_map_value(s.drop_last(), i);
        assert(s[i].0@ != s[s.len() - 1].0@);
    }
}

/// A text store in memory: each name holds the content last written under it.
pub struct MockTextHandler {
    texts: Vec<(String, String)>,
}

impl View for MockTextHandler {
    type V = Map<Seq<char>, Seq<char>>;

    closed spec fn view(&self) -> Map<Seq<char>, Seq<char>> {
        pairs_map(self.texts@)
    }
}

impl MockTextHandler {
    /// The names are unique.
    pub closed spec fn wf(&self) -> bool {
        unique_names(self.texts@)
    }

    /// An empty store.
    pub fn new() -> (r: Self)
        ensures
            r.wf(),
            r@ == Map::<Seq<char>, Seq<char>>::empty(),
    {
        MockTextHandler { texts: Vec::new() }
    }

    /// Where `name` stands among the pairs, if it does.
    fn position(&self, name: &str) -> (r: Option<usize>)
        ensures
            match r {
                Some(i) => i < self.texts@.len() && self.texts@[i as int].0@ == name@,
                None => forall|i: int| 0 <= i < self.texts@.len() ==> #[trigger] self.texts@[i].0@ != name@,
            },
    {
        let key = String::from_str(name);
        let mut i: usize = 0;
        while i < self.texts.len()
            invariant
                key@ == name@,
                i <= self.texts@.len(),
                forall|j: int| 0 <= j < i ==> #[trigger] self.texts@[j].0@ != name@,
            decreases self.texts@.len() - i,
        {
            if self.texts[i].0 == key {
                return Some(i);
            }
            i = i + 1;
        }
        None
    }

    /// The content last written under `name`; `NotFound` where nothing was.
    pub fn read_text(&self, name: &str) -> (r: Result<String, TextError>)
        requires
            self.wf(),
        ensures
            match r {
                Ok(s) => read_outcome(self@, name@) == Ok::<Seq<char>, TextError>(s@),
                Err(e) => read_outcome(self@, name@) == Err::<Seq<char>, TextError>(e),
            },
    {
        proof {
            lemma_pairs_map_domain(self.texts@);
        }
        match self.position(name) {
            Some(i) => {
                proof {
                    lemma_pairs_map_value(self.texts@, i as int);
                }
                Ok(self.texts[i].1.clone())
            },
            None => Err(TextError::NotFound),
        }
    }

    /// Stores `content` under `name`, replacing what was there. Never fails.
    pub fn write_text(&mut self, name: &str, content: String) -> (r: Result<(), TextError>)
        requires
            old(self).wf(),
        ensures
            final(self).wf(),
            final(self)@ == write_outcome(old(self)@, name@, content@),
            r is Ok,
    {
        let ghost before = self.texts@;
        proof {
            lemma_pairs_map_domain(before);
        }
        match self.position(name) {
            Some(i) => {
                let key = String::from_str(name);
                self.texts.set(i, (key, content));
                proof {
                    let after = self.texts@;
                    assert(unique_names(after)) by {
                        assert forall|a: int, b: int| 0 <= a < b < after.len() implies #[trigger] after[a].0@
                            != #[trigger] after[b].0@ by {
                            assert(after[a].0@ == before[a].0@);
                            assert(after[b].0@ == before[b].0@);
                        }
                    }
                    lemma_pairs_map_domain(after);
                    assert forall|j: int| 0 <= j < after.len() implies #[trigger] after[j].0@
                        == before[j].0@ by {}
                    assert forall|k: Seq<char>| #[trigger] pairs_map(after).dom().contains(k) implies pairs_map(after)[k]
                        == write_outcome(pairs_map(before), name@, content@)[k] by {
                        let j = choose|j: int| 0 <= j < after.len() && (#[trigger] after[j]).0@ == k;
                        lemma_pairs_map_value(after, j);
                        lemma_pairs_map_value(before, j);
                    }
                    assert forall|k: Seq<char>| #[trigger] pairs_map(after).dom().contains(k) <==> write_outcome(pairs_map(before), name@, content@).dom().contains(k) by {
                        if pairs_map(after).dom().contains(k) {
                            let j = choose|j: int| 0 <= j < after.len() && (#[trigger] after[j]).0@ == k;
                            assert(before[j].0@ == k);
                        }
                        if pairs_map(before).dom().contains(k) {
                            let j = choose|j: int| 0 <= j < before.len() && (#[trigger] before[j]).0@ == k;
                            assert(after[j].0@ == k);
                        }
                        if k == name@ {
                            assert(after[i as int].0@ == k);
                        }
                    }
                    assert(pairs_map(after) =~= write_outcome(pairs_map(before), name@, content@));
                }
            },
            None => {
                let key = String::from_str(name);
                self.texts.push((key, content));
                proof {
                    let after = self.texts@;
                    assert(after.drop_last() =~= before);
                    assert(unique_names(after)) by {
                        assert forall|a: int, b: int| 0 <= a < b < after.len() implies #[trigger] after[a].0@
                            != #[trigger] after[b].0@ by {
                            assert(after[a] == before[a]);
                            if b < before.len() {
                                assert(after[b] == before[b]);
                            }
                        }
                    }
                }
            },
        }
        Ok(())
    }

    /// The stored names that `pattern` resolves to (see `memory_listing`),
    /// each once, in no promised order.
    pub fn list_names(&self, pattern: &str) -> (r: Vec<String>)
        requires
            self.wf(),
        ensures
            texts_of(r@).no_duplicates(),
            texts_of(r@).to_set() == memory_listing(self@.dom(), pattern@),
    {
        proof {
            lemma_pairs_map_domain(self.texts@);
        }
        let mut r: Vec<String> = Vec::new();
        if !contains_wildcard(pattern) {
            match self.position(pattern) {
                Some(i) => {
                    r.push(self.texts[i].0.clone());
                },
                None => {},
            }
            proof {
                assert(texts_of(r@).to_set() =~= memory_listing(self@.dom(), pattern@)) by {
                    if texts_of(r@).len() == 1 {
                        assert(texts_of(r@)[0] == pattern@);
                    }
                }
            }
            return r;
        }
        let mut i: usize = 0;
        while i < self.texts.len()
            invariant
                i <= self.texts@.len(),
                unique_names(self.texts@),
                texts_of(r@).no_duplicates(),
                forall|x: Seq<char>|
                    #[trigger] texts_of(r@).contains(x) <==> exists|j: int|
                        0 <= j < i && (#[trigger] self.texts@[j]).0@ == x && glob_matches(pattern@, x),
            decreases self.texts@.len() - i,
        {
            if wildcard_matches(pattern, self.texts[i].0.as_str()) {
                let ghost before = texts_of(r@);
                let ghost key = self.texts@[i as int].0@;
                assert(!before.contains(key)) by {
                    if before.contains(key) {
                        let j = choose|j: int|
                            0 <= j < i && (#[trigger] self.texts@[j]).0@ == key && glob_matches(
                                pattern@,
                                key,
                            );
                        assert(self.texts@[j].0@ != self.texts@[i as int].0@);
                    }
                }
                r.push(self.texts[i].0.clone());
                proof {
                    assert(texts_of(r@) =~= before.push(key));
                    assert forall|x: Seq<char>| #[trigger] texts_of(r@).contains(x) <==> exists|j: int|
                        0 <= j < i + 1 && (#[trigger] self.texts@[j]).0@ == x && glob_matches(pattern@, x) by {
                        if texts_of(r@).contains(x) && x != key {
                            let k = choose|k: int| 0 <= k < texts_of(r@).len() && texts_of(r@)[k] == x;
                            assert(before[k] == x);
                            assert(before.contains(x));
                            let j = choose|j: int| 0 <= j < i && (#[trigger] self.texts@[j]).0@ == x && glob_matches(pattern@, x);
                            assert(0 <= j < i + 1 && self.texts@[j].0@ == x && glob_matches(pattern@, x));
                        }
                        if x == key {
                            assert(texts_of(r@)[before.len() as int] == x);
                            assert(self.texts@[i as int].0@ == x);
                        } else if exists|j: int| 0 <= j < i + 1 && (#[trigger] self.texts@[j]).0@ == x && glob_matches(pattern@, x) {
                            let j = choose|j: int| 0 <= j < i + 1 && (#[trigger] self.texts@[j]).0@ == x && glob_matches(pattern@, x);
                            assert(j < i);
                            assert(before.contains(x) == exists|j: int| 0 <= j < i && (#[trigger] self.texts@[j]).0@ == x && glob_matches(pattern@, x));
                            let k = choose|k: int| 0 <= k < before.len() && before[k] == x;
                            assert(texts_of(r@)[k] == x);
                        }
                    }
                }
            } else {
                proof {
                    assert forall|x: Seq<char>| #[trigger] texts_of(r@).contains(x) <==> exists|j: int|
                        0 <= j < i + 1 && (#[trigger] self.texts@[j]).0@ == x && glob_matches(pattern@, x) by {
                        if exists|j: int| 0 <= j < i + 1 && (#[trigger] self.texts@[j]).0@ == x && glob_matches(pattern@, x) {
                            let j = choose|j: int| 0 <= j < i + 1 && (#[trigger] self.texts@[j]).0@ == x && glob_matches(pattern@, x);
                            assert(j != i);
                            assert(0 <= j < i && self.texts@[j].0@ == x && glob_matches(pattern@, x));
                            assert(texts_of(r@).contains(x));
                        }
                        if texts_of(r@).contains(x) {
                            let j = choose|j: int| 0 <= j < i && (#[trigger] self.texts@[j]).0@ == x && glob_matches(pattern@, x);
                            assert(0 <= j < i + 1 && self.texts@[j].0@ == x && glob_matches(pattern@, x));
                        }
                    }
                }
            }
            i = i + 1;
        }
        proof {
            assert(texts_of(r@).to_set() =~= memory_listing(self@.dom(), pattern@));
        }
        r
    }
}

} // verus!
