use vstd::prelude::*;

verus! {

/// No two entries of `s` hold the same word.
pub open spec fn distinct_words(s: Seq<(String, usize)>) -> bool {
    forall|i: int, j: int|
        0 <= i < s.len() && 0 <= j < s.len() && i != j ==> #[trigger] s[i].0@ != #[trigger] s[j].0@
}

/// The map that inserting the entries of `s` one after the other, from the
/// first to the last, produces: a later entry for a word replaces an earlier one.
pub open spec fn map_of(s: Seq<(String, usize)>) -> Map<Seq<char>, nat>
    decreases s.len(),
{
    if s.len() == 0 {
        Map::empty()
    } else {
        map_of(s.drop_last()).insert(s.last().0@, s.last().1 as nat)
    }
}

/// A word of `map_of(s)` is a word of some entry of `s`, and conversely.
pub proof fn lemma_map_of_contains(s: Seq<(String, usize)>, w: Seq<char>)
    ensures
        map_of(s).contains_key(w) <==> exists|i: int| 0 <= i < s.len() && #[trigger] s[i].0@ == w,
    decreases s.len(),
{
    if s.len() > 0 {
        lemma_map_of_contains(s.drop_last(), w);
        if map_of(s.drop_last()).contains_key(w) {
            let i = choose|i: int| 0 <= i < s.drop_last().len() && #[trigger] s.drop_last()[i].0@ == w;
            assert(s[i].0@ == w);
        }
        if exists|i: int| 0 <= i < s.len() && #[trigger] s[i].0@ == w {
            let i = choose|i: int| 0 <= i < s.len() && #[trigger] s[i].0@ == w;
            if i < s.len() - 1 {
                assert(s.drop_last()[i].0@ == w);
            }
        }
    }
}

/// Where no word repeats, `map_of(s)` gives each entry's word that entry's count.
pub proof fn lemma_map_of_value(s: Seq<(String, usize)>, i: int)
    requires
        distinct_words(s),
        0 <= i < s.len(),
    ensures
        map_of(s).contains_key(s[i].0@),
        map_of(s)[s[i].0@] == s[i].1 as nat,
    decreases s.len(),
{
    lemma_map_of_contains(s, s[i].0@);
    if i < s.len() - 1 {
        let t = s.drop_last();
        assert forall|a: int, b: int|
            0 <= a < t.len() && 0 <= b < t.len() && a != b implies #[trigger] t[a].0@ != #[trigger] t[b].0@ by {
            assert(t[a] == s[a] && t[b] == s[b]);
        }
        lemma_map_of_value(t, i);
        assert(s.last().0@ != s[i].0@) by {
            assert(s.last() == s[s.len() - 1]);
        }
    }
}

/// Where no word repeats, `map_of(s)` has as many words as `s` has entries.
pub proof fn lemma_map_of_len(s: Seq<(String, usize)>)
    requires
        distinct_words(s),
    ensures
        map_of(s).dom().finite(),
        map_of(s).len() == s.len(),
    decreases s.len(),
{
    if s.len() > 0 {
        let t = s.drop_last();
        assert forall|a: int, b: int|
            0 <= a < t.len() && 0 <= b < t.len() && a != b implies #[trigger] t[a].0@ != #[trigger] t[b].0@ by {
            assert(t[a] == s[a] && t[b] == s[b]);
        }
        lemma_map_of_len(t);
        lemma_map_of_contains(t, s.last().0@);
        if map_of(t).contains_key(s.last().0@) {
            let i = choose|i: int| 0 <= i < t.len() && #[trigger] t[i].0@ == s.last().0@;
            assert(s[i].0@ == s[s.len() - 1].0@);
        }
    }
}

/// Where no word repeats, `map_of` is fixed by the entries' words and counts:
/// replacing the count of entry `i` replaces that word's count in the map.
pub proof fn lemma_map_of_update(s: Seq<(String, usize)>, i: int, e: (String, usize))
    requires
        distinct_words(s),
        0 <= i < s.len(),
        e.0@ == s[i].0@,
    ensures
        distinct_words(s.update(i, e)),
        map_of(s.update(i, e)) == map_of(s).insert(e.0@, e.1 as nat),
{
    let u = s.update(i, e);
    assert forall|a: int, b: int|
        0 <= a < u.len() && 0 <= b < u.len() && a != b implies #[trigger] u[a].0@ != #[trigger] u[b].0@ by {
        assert(u[a].0@ == s[a].0@ && u[b].0@ == s[b].0@);
    }
    let m = map_of(s).insert(e.0@, e.1 as nat);
    assert forall|w: Seq<char>| #[trigger] map_of(u).contains_key(w) <==> m.contains_key(w) by {
        lemma_map_of_contains(u, w);
        lemma_map_of_contains(s, w);
        if exists|k: int| 0 <= k < s.len() && #[trigger] s[k].0@ == w {
            let k = choose|k: int| 0 <= k < s.len() && #[trigger] s[k].0@ == w;
            assert(u[k].0@ == w);
        }
        if exists|k: int| 0 <= k < u.len() && #[trigger] u[k].0@ == w {
            let k = choose|k: int| 0 <= k < u.len() && #[trigger] u[k].0@ == w;
            assert(s[k].0@ == w);
        }
    }
    assert forall|w: Seq<char>| #[trigger] map_of(u).contains_key(w) implies map_of(u)[w] == m[w] by {
        lemma_map_of_contains(u, w);
        let k = choose|k: int| 0 <= k < u.len() && #[trigger] u[k].0@ == w;
        lemma_map_of_value(u, k);
        if k != i {
            lemma_map_of_value(s, k);
        }
    }
    assert(map_of(u) =~= m);
}

/// The sum of the counts of the entries of `s`.
pub open spec fn entries_total(s: Seq<(String, usize)>) -> nat
    decreases s.len(),
{
    if s.len() == 0 {
        0
    } else {
        entries_total(s.drop_last()) + s.last().1 as nat
    }
}

/// Replacing entry `i` changes the sum by the difference of the counts.
pub proof fn lemma_entries_total_update(s: Seq<(String, usize)>, i: int, e: (String, usize))
    requires
        0 <= i < s.len(),
    ensures
        entries_total(s.update(i, e)) + s[i].1 == entries_total(s) + e.1,
    decreases s.len(),
{
    let u = s.update(i, e);
    if i < s.len() - 1 {
        assert(u.drop_last() =~= s.drop_last().update(i, e));
        lemma_entries_total_update(s.drop_last(), i, e);
    } else {
        assert(u.drop_last() =~= s.drop_last());
    }
}

/// Occurrence counts of words: each word is mapped to its count. No word is
/// held twice.
pub struct WordCounts {
    entries: Vec<(String, usize)>,
}

impl View for WordCounts {
    type V = Map<Seq<char>, nat>;

    closed spec fn view(&self) -> Map<Seq<char>, nat> {
        map_of(self.entries@)
    }
}

impl WordCounts {
    #[verifier::type_invariant]
    closed spec fn inv(self) -> bool {
        distinct_words(self.entries@)
    }

    /// The sum of all counts.
    pub closed spec fn total(&self) -> nat {
        entries_total(self.entries@)
    }

    /// Creates an empty collection of counts.
    pub fn new() -> (r: Self)
        ensures
            r@ == Map::<Seq<char>, nat>::empty(),
            r.total() == 0,
    {
        WordCounts { entries: Vec::new() }
    }

    /// The entries, one for each word.
    pub fn entries(&self) -> (r: &Vec<(String, usize)>)
        ensures
            distinct_words(r@),
            map_of(r@) == self@,
    {
        proof {
            use_type_invariant(self);
        }
        &self.entries
    }

    /// Builds counts from `(word, count)` pairs, inserted from the first to
    /// the last: where a word comes twice, its last count stands.
    pub fn from_pairs(pairs: Vec<(String, usize)>) -> (r: Self)
        ensures
            r@ == map_of(pairs@),
    {
        let mut counts = WordCounts::new();
        let n = pairs.len();
        let mut i: usize = 0;
        while i < n
            invariant
                n == pairs@.len(),
                i <= n,
                counts@ == map_of(pairs@.take(i as int)),
            decreases n - i,
        {
            let word = pairs[i].0.clone();
            counts.insert(word, pairs[i].1);
            proof {
                assert(pairs@.take(i + 1).drop_last() =~= pairs@.take(i as int));
            }
            i = i + 1;
        }
        proof {
            assert(pairs@.take(n as int) =~= pairs@);
        }
        counts
    }

    /// Position of the entry of `word`, if there is one.
    fn position(&self, word: &String) -> (r: Option<usize>)
        ensures
            match r {
                Some(i) => i < self.entries@.len() && self.entries@[i as int].0@ == word@,
                None => forall|i: int| 0 <= i < self.entries@.len() ==> #[trigger] self.entries@[i].0@ != word@,
            },
    {
        let n = self.entries.len();
        let mut i: usize = 0;
        while i < n
            invariant
                n == self.entries@.len(),
                i <= n,
                forall|k: int| 0 <= k < i ==> #[trigger] self.entries@[k].0@ != word@,
            decreases n - i,
        {
            if self.entries[i].0 == *word {
                return Some(i);
            }
            i = i + 1;
        }
        None
    }

    /// The count of `word`, if it has one.
    pub fn get(&self, word: &String) -> (r: Option<usize>)
        ensures
            r is Some <==> self@.contains_key(word@),
            r matches Some(c) ==> self@[word@] == c as nat,
    {
        proof {
            use_type_invariant(self);
            lemma_map_of_contains(self.entries@, word@);
        }
        match self.position(word) {
            Some(i) => {
                proof {
                    lemma_map_of_value(self.entries@, i as int);
                }
                Some(self.entries[i].1)
            },
            None => None,
        }
    }

    /// Whether `word` has a count.
    pub fn contains_key(&self, word: &String) -> (r: bool)
        ensures
            r == self@.contains_key(word@),
    {
        self.get(word).is_some()
    }

    /// The number of words that have a count.
    pub fn len(&self) -> (r: usize)
        ensures
            r == self@.len(),
    {
        proof {
            use_type_invariant(self);
            lemma_map_of_len(self.entries@);
        }
        self.entries.len()
    }

    /// Whether no word has a count.
    pub fn is_empty(&self) -> (r: bool)
        ensures
            r == (self@.len() == 0),
    {
        self.len() == 0
    }

    /// Sets the count of `word` to `count`, and returns the count that it had.
    pub fn insert(&mut self, word: String, count: usize) -> (r: Option<usize>)
        ensures
            final(self)@ == old(self)@.insert(word@, count as nat),
            r is Some <==> old(self)@.contains_key(word@),
            r matches Some(c) ==> old(self)@[word@] == c as nat,
            final(self).total() + (if old(self)@.contains_key(word@) {
                old(self)@[word@]
            } else {
                0
            }) == old(self).total() + count,
    {
        proof {
            use_type_invariant(&*self);
            lemma_map_of_contains(self.entries@, word@);
        }
        match self.position(&word) {
            Some(i) => {
                let previous = self.entries[i].1;
                proof {
                    lemma_map_of_value(self.entries@, i as int);
                    lemma_map_of_update(self.entries@, i as int, (word, count));
                    lemma_entries_total_update(self.entries@, i as int, (word, count));
                }
                let mut entries = Vec::new();
                std::mem::swap(&mut entries, &mut self.entries);
                entries[i] = (word, count);
                self.entries = entries;
                Some(previous)
            },
            None => {
                let ghost before = self.entries@;
                let mut entries = Vec::new();
                std::mem::swap(&mut entries, &mut self.entries);
                entries.push((word, count));
                proof {
                    assert(entries@.drop_last() =~= before);
                }
                self.entries = entries;
                None
            },
        }
    }
}

} // verus!
