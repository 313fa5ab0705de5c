use vstd::prelude::*;
use vstd::string::StrSliceExecFns;

use crate::word_counts::{WordCounts, distinct_words, map_of, lemma_map_of_contains, lemma_map_of_value};

verus! {

/// Lexicographic order of words by their characters' code points: `a` comes
/// strictly before `b`. This is the order of `String`s in Rust, whose byte
/// order as UTF-8 is the order of the code points.
pub open spec fn word_precedes(a: Seq<char>, b: Seq<char>) -> bool
    decreases a.len(),
{
    if a.len() == 0 {
        b.len() > 0
    } else if b.len() == 0 {
        false
    } else if a[0] != b[0] {
        a[0] < b[0]
    } else {
        word_precedes(a.drop_first(), b.drop_first())
    }
}

/// The order of the comparison's results: by descending count, and among
/// equal counts by ascending word.
pub open spec fn ranks_before(a: (Seq<char>, nat), b: (Seq<char>, nat)) -> bool {
    a.1 > b.1 || (a.1 == b.1 && word_precedes(a.0, b.0))
}

/// A list of `(word, count)` pairs, taken by the words' characters.
pub open spec fn listing_view(list: Seq<(String, usize)>) -> Seq<(Seq<char>, nat)> {
    list.map_values(|e: (String, usize)| (e.0@, e.1 as nat))
}

/// `list` holds exactly the words of `target` that `known` lacks, each with
/// its count in `target`, ordered by `ranks_before` from first to last.
pub open spec fn is_target_specific_listing(
    known: Map<Seq<char>, nat>,
    target: Map<Seq<char>, nat>,
    list: Seq<(Seq<char>, nat)>,
) -> bool {
    &&& forall|i: int|
        0 <= i < list.len() ==> {
            &&& target.contains_key(#[trigger] list[i].0)
            &&& !known.contains_key(list[i].0)
            &&& list[i].1 == target[list[i].0]
        }
    &&& forall|w: Seq<char>|
        target.contains_key(w) && !known.contains_key(w) ==> exists|i: int|
            0 <= i < list.len() && #[trigger] list[i].0 == w
    &&& forall|i: int, j: int| 0 <= i < j < list.len() ==> ranks_before(#[trigger] list[i], #[trigger] list[j])
}

/// The order of the results, stated on counts and words: a result comes
/// before every result with a smaller count, and among equal counts before
/// every result whose word comes later.
pub proof fn lemma_listing_order(
    known: Map<Seq<char>, nat>,
    target: Map<Seq<char>, nat>,
    list: Seq<(Seq<char>, nat)>,
)
    requires
        is_target_specific_listing(known, target, list),
    ensures
        forall|i: int, j: int|
            0 <= i < j < list.len() ==> #[trigger] list[i].1 >= #[trigger] list[j].1 && (list[i].1 == list[j].1
                ==> word_precedes(list[i].0, list[j].0)),
{
    assert forall|i: int, j: int| 0 <= i < j < list.len() implies #[trigger] list[i].1 >= #[trigger] list[j].1
        && (list[i].1 == list[j].1 ==> word_precedes(list[i].0, list[j].0)) by {
        assert(ranks_before(list[i], list[j]));
    }
}

/// What the order of words is: `a` comes before `b` exactly where, after a
/// common prefix of length `k`, either `a` ends and `b` goes on, or the
/// character of `a` at `k` has the lower code point.
pub proof fn lemma_word_precedes_meaning(a: Seq<char>, b: Seq<char>)
    ensures
        word_precedes(a, b) <==> exists|k: int|
            0 <= k <= a.len() && k <= b.len() && #[trigger] a.subrange(0, k) == b.subrange(0, k) && ((k == a.len()
                && k < b.len()) || (k < a.len() && k < b.len() && a[k] < b[k])),
    decreases a.len(),
{
    if word_precedes(a, b) {
        if a.len() == 0 || a[0] != b[0] {
            assert(a.subrange(0, 0) =~= b.subrange(0, 0));
        } else {
            lemma_word_precedes_meaning(a.drop_first(), b.drop_first());
            let k = choose|k: int|
                0 <= k <= a.drop_first().len() && k <= b.drop_first().len() && #[trigger] a.drop_first().subrange(0, k)
                    == b.drop_first().subrange(0, k) && ((k == a.drop_first().len() && k < b.drop_first().len()) || (k
                    < a.drop_first().len() && k < b.drop_first().len() && a.drop_first()[k] < b.drop_first()[k]));
            assert(a.subrange(0, k + 1) =~= seq![a[0]] + a.drop_first().subrange(0, k));
            assert(b.subrange(0, k + 1) =~= seq![b[0]] + b.drop_first().subrange(0, k));
            assert(a.subrange(0, k + 1) == b.subrange(0, k + 1));
        }
    }
    if exists|k: int|
        0 <= k <= a.len() && k <= b.len() && #[trigger] a.subrange(0, k) == b.subrange(0, k) && ((k == a.len() && k
            < b.len()) || (k < a.len() && k < b.len() && a[k] < b[k])) {
        let k = choose|k: int|
            0 <= k <= a.len() && k <= b.len() && #[trigger] a.subrange(0, k) == b.subrange(0, k) && ((k == a.len()
                && k < b.len()) || (k < a.len() && k < b.len() && a[k] < b[k]));
        if k > 0 {
            assert(a[0] == a.subrange(0, k)[0]);
            assert(b[0] == b.subrange(0, k)[0]);
            assert(a.drop_first().subrange(0, k - 1) =~= a.subrange(0, k).drop_first());
            assert(b.drop_first().subrange(0, k - 1) =~= b.subrange(0, k).drop_first());
            if k < a.len() && k < b.len() {
                assert(a.drop_first()[k - 1] == a[k]);
                assert(b.drop_first()[k - 1] == b[k]);
            }
            lemma_word_precedes_meaning(a.drop_first(), b.drop_first());
        }
    }
}

/// No word precedes itself.
pub proof fn lemma_word_precedes_irreflexive(a: Seq<char>)
    ensures
        !word_precedes(a, a),
    decreases a.len(),
{
    if a.len() > 0 {
        lemma_word_precedes_irreflexive(a.drop_first());
    }
}

/// Of two different words, one precedes the other, and not both.
pub proof fn lemma_word_precedes_total(a: Seq<char>, b: Seq<char>)
    ensures
        a != b ==> (word_precedes(a, b) || word_precedes(b, a)),
        !(word_precedes(a, b) && word_precedes(b, a)),
    decreases a.len(),
{
    if a.len() > 0 && b.len() > 0 && a[0] == b[0] {
        lemma_word_precedes_total(a.drop_first(), b.drop_first());
        if a != b {
            assert(a.drop_first() != b.drop_first()) by {
                if a.drop_first() == b.drop_first() {
                    assert(a =~= seq![a[0]] + a.drop_first());
                    assert(b =~= seq![b[0]] + b.drop_first());
                }
            }
        }
    } else if a.len() == 0 && b.len() == 0 {
        assert(a =~= b);
    }
}

/// The order of words is transitive.
pub proof fn lemma_word_precedes_transitive(a: Seq<char>, b: Seq<char>, c: Seq<char>)
    requires
        word_precedes(a, b),
        word_precedes(b, c),
    ensures
        word_precedes(a, c),
    decreases a.len(),
{
    if a.len() > 0 && b.len() > 0 && c.len() > 0 && a[0] == b[0] && b[0] == c[0] {
        lemma_word_precedes_transitive(a.drop_first(), b.drop_first(), c.drop_first());
    }
}

/// The order of results is transitive.
pub proof fn lemma_ranks_before_transitive(a: (Seq<char>, nat), b: (Seq<char>, nat), c: (Seq<char>, nat))
    requires
        ranks_before(a, b),
        ranks_before(b, c),
    ensures
        ranks_before(a, c),
{
    if a.1 == b.1 && b.1 == c.1 {
        lemma_word_precedes_transitive(a.0, b.0, c.0);
    }
}

/// Of two pairs with different words, one ranks before the other, and not both.
pub proof fn lemma_ranks_before_total(a: (Seq<char>, nat), b: (Seq<char>, nat))
    ensures
        a.0 != b.0 ==> (ranks_before(a, b) || ranks_before(b, a)),
        !(ranks_before(a, b) && ranks_before(b, a)),
{
    lemma_word_precedes_total(a.0, b.0);
}

/// No pair ranks before itself.
pub proof fn lemma_ranks_before_irreflexive(a: (Seq<char>, nat))
    ensures
        !ranks_before(a, a),
{
    lemma_word_precedes_irreflexive(a.0);
}

/// The results are determined: two lists that both hold exactly the words of
/// `target` that `known` lacks, with their counts in `target`, in the order of
/// descending count and then ascending word, are the same list.
pub proof fn lemma_listing_unique(
    known: Map<Seq<char>, nat>,
    target: Map<Seq<char>, nat>,
    first: Seq<(Seq<char>, nat)>,
    second: Seq<(Seq<char>, nat)>,
)
    requires
        is_target_specific_listing(known, target, first),
        is_target_specific_listing(known, target, second),
    ensures
        first == second,
    decreases first.len(),
{
    if first.len() == 0 {
        if second.len() > 0 {
            let w = second[0].0;
            assert(target.contains_key(w) && !known.contains_key(w));
        }
        assert(first =~= second);
    } else {
        let w = first[0].0;
        assert(target.contains_key(w) && !known.contains_key(w));
        let j = choose|j: int| 0 <= j < second.len() && #[trigger] second[j].0 == w;
        let v = second[0].0;
        assert(target.contains_key(v) && !known.contains_key(v));
        let k = choose|k: int| 0 <= k < first.len() && #[trigger] first[k].0 == v;
        assert(second[j] == first[0]);
        assert(first[k] == second[0]);
        if j > 0 && k > 0 {
            assert(ranks_before(first[0], first[k]));
            assert(ranks_before(second[0], second[j]));
            lemma_ranks_before_total(first[0], second[0]);
        } else if j > 0 {
            assert(ranks_before(second[0], second[j]));
            lemma_ranks_before_irreflexive(first[0]);
        } else if k > 0 {
            assert(ranks_before(first[0], first[k]));
            lemma_ranks_before_irreflexive(first[0]);
        }
        assert(first[0] == second[0]);
        let fewer = known.insert(w, 0);
        let t1 = first.drop_first();
        let t2 = second.drop_first();
        assert forall|i: int| 0 <= i < t1.len() implies {
            &&& target.contains_key(#[trigger] t1[i].0)
            &&& !fewer.contains_key(t1[i].0)
            &&& t1[i].1 == target[t1[i].0]
        } by {
            assert(t1[i] == first[i + 1]);
            assert(ranks_before(first[0], first[i + 1]));
            if first[i + 1].0 == w {
                lemma_ranks_before_irreflexive(first[0]);
            }
        }
        assert forall|i: int| 0 <= i < t2.len() implies {
            &&& target.contains_key(#[trigger] t2[i].0)
            &&& !fewer.contains_key(t2[i].0)
            &&& t2[i].1 == target[t2[i].0]
        } by {
            assert(t2[i] == second[i + 1]);
            assert(ranks_before(second[0], second[i + 1]));
            if second[i + 1].0 == w {
                lemma_ranks_before_irreflexive(second[0]);
            }
        }
        assert forall|u: Seq<char>| target.contains_key(u) && !fewer.contains_key(u) implies exists|i: int|
            0 <= i < t1.len() && #[trigger] t1[i].0 == u by {
            let i = choose|i: int| 0 <= i < first.len() && #[trigger] first[i].0 == u;
            assert(t1[i - 1].0 == u);
        }
        assert forall|u: Seq<char>| target.contains_key(u) && !fewer.contains_key(u) implies exists|i: int|
            0 <= i < t2.len() && #[trigger] t2[i].0 == u by {
            let i = choose|i: int| 0 <= i < second.len() && #[trigger] second[i].0 == u;
            assert(t2[i - 1].0 == u);
        }
        assert forall|a: int, b: int| 0 <= a < b < t1.len() implies ranks_before(#[trigger] t1[a], #[trigger] t1[b]) by {
            assert(t1[a] == first[a + 1] && t1[b] == first[b + 1]);
        }
        assert forall|a: int, b: int| 0 <= a < b < t2.len() implies ranks_before(#[trigger] t2[a], #[trigger] t2[b]) by {
            assert(t2[a] == second[a + 1] && t2[b] == second[b + 1]);
        }
        lemma_listing_unique(fewer, target, t1, t2);
        assert(first =~= seq![first[0]] + t1);
        assert(second =~= seq![second[0]] + t2);
    }
}

/// Comparing a vocabulary with itself finds no words.
pub proof fn lemma_self_comparison_empty(target: Map<Seq<char>, nat>, list: Seq<(Seq<char>, nat)>)
    requires
        is_target_specific_listing(target, target, list),
    ensures
        list.len() == 0,
{
    if list.len() > 0 {
        assert(target.contains_key(list[0].0));
    }
}

/// Against an empty known vocabulary every word of the target is listed,
/// with its count in the target.
pub proof fn lemma_nothing_known_lists_all(target: Map<Seq<char>, nat>, list: Seq<(Seq<char>, nat)>)
    requires
        is_target_specific_listing(Map::empty(), target, list),
    ensures
        forall|w: Seq<char>| #[trigger] target.contains_key(w) ==> exists|i: int|
            0 <= i < list.len() && list[i] == (w, target[w]),
{
    assert forall|w: Seq<char>| #[trigger] target.contains_key(w) implies exists|i: int|
        0 <= i < list.len() && list[i] == (w, target[w]) by {
        let i = choose|i: int| 0 <= i < list.len() && #[trigger] list[i].0 == w;
        assert(list[i] == (w, target[w]));
    }
}

/// Only which words `known` holds matters, not their counts.
pub proof fn lemma_known_counts_ignored(
    known: Map<Seq<char>, nat>,
    other: Map<Seq<char>, nat>,
    target: Map<Seq<char>, nat>,
    list: Seq<(Seq<char>, nat)>,
)
    requires
        known.dom() == other.dom(),
        is_target_specific_listing(known, target, list),
    ensures
        is_target_specific_listing(other, target, list),
{
    assert forall|w: Seq<char>| #[trigger] other.contains_key(w) == known.contains_key(w) by {}
}

/// Keeping the pairs of a ranked list that satisfy `keep` leaves a ranked
/// list.
pub proof fn lemma_filter_ranked(list: Seq<(Seq<char>, nat)>, keep: spec_fn((Seq<char>, nat)) -> bool)
    requires
        is_ranked(list),
    ensures
        is_ranked(list.filter(keep)),
    decreases list.len(),
{
    reveal(Seq::filter);
    if list.len() > 0 {
        let rest = list.drop_last();
        assert forall|a: int, b: int| 0 <= a < b < rest.len() implies ranks_before(#[trigger] rest[a], #[trigger] rest[b]) by {
            assert(rest[a] == list[a] && rest[b] == list[b]);
        }
        lemma_filter_ranked(rest, keep);
        let kept = rest.filter(keep);
        if keep(list.last()) {
            let out = kept.push(list.last());
            assert forall|a: int, b: int| 0 <= a < b < out.len() implies ranks_before(#[trigger] out[a], #[trigger] out[b]) by {
                if b == kept.len() {
                    assert(out[a] == kept[a]);
                    assert(kept.contains(kept[a]));
                    rest.lemma_filter_contains_rev(keep, kept[a]);
                    let k = choose|k: int| 0 <= k < rest.len() && rest[k] == kept[a];
                    assert(list[k] == rest[k]);
                    assert(out[b] == list[list.len() - 1]);
                } else {
                    assert(out[a] == kept[a] && out[b] == kept[b]);
                }
            }
        }
    }
}

/// A larger known vocabulary gives a subsequence of the results: where every
/// word of `known` is also in `more_known`, the results against `more_known`
/// are the results against `known` with the words of `more_known` left out,
/// in the same order. (Where both hold the same words, the results are equal.)
pub proof fn lemma_more_known_fewer_results(
    known: Map<Seq<char>, nat>,
    more_known: Map<Seq<char>, nat>,
    target: Map<Seq<char>, nat>,
    list: Seq<(Seq<char>, nat)>,
    fewer: Seq<(Seq<char>, nat)>,
)
    requires
        forall|w: Seq<char>| #[trigger] known.contains_key(w) ==> more_known.contains_key(w),
        is_target_specific_listing(known, target, list),
        is_target_specific_listing(more_known, target, fewer),
    ensures
        fewer == list.filter(|e: (Seq<char>, nat)| !more_known.contains_key(e.0)),
        fewer.len() <= list.len(),
{
    let keep = |e: (Seq<char>, nat)| !more_known.contains_key(e.0);
    let kept = list.filter(keep);
    assert(is_ranked(list)) by {
        assert forall|a: int, b: int| 0 <= a < b < list.len() implies ranks_before(#[trigger] list[a], #[trigger] list[b]) by {}
    }
    lemma_filter_ranked(list, keep);
    assert forall|i: int| 0 <= i < kept.len() implies {
        &&& target.contains_key(#[trigger] kept[i].0)
        &&& !more_known.contains_key(kept[i].0)
        &&& kept[i].1 == target[kept[i].0]
    } by {
        list.lemma_filter_pred(keep, i);
        assert(kept.contains(kept[i]));
        list.lemma_filter_contains_rev(keep, kept[i]);
        let k = choose|k: int| 0 <= k < list.len() && list[k] == kept[i];
        assert(target.contains_key(list[k].0));
    }
    assert forall|w: Seq<char>| target.contains_key(w) && !more_known.contains_key(w) implies exists|i: int|
        0 <= i < kept.len() && #[trigger] kept[i].0 == w by {
        assert(!known.contains_key(w));
        let k = choose|k: int| 0 <= k < list.len() && #[trigger] list[k].0 == w;
        list.lemma_filter_contains(keep, k);
        let i = choose|i: int| 0 <= i < kept.len() && kept[i] == list[k];
        assert(kept[i].0 == w);
    }
    assert forall|a: int, b: int| 0 <= a < b < kept.len() implies ranks_before(#[trigger] kept[a], #[trigger] kept[b]) by {}
    lemma_listing_unique(more_known, target, fewer, kept);
    list.lemma_filter_len(keep);
}

/// Comparing two words from the first position at which they may differ.
proof fn lemma_word_precedes_skip(a: Seq<char>, b: Seq<char>, i: int)
    requires
        0 <= i <= a.len(),
        i <= b.len(),
        a.subrange(0, i) == b.subrange(0, i),
    ensures
        word_precedes(a, b) == word_precedes(a.skip(i), b.skip(i)),
    decreases i,
{
    if i > 0 {
        assert(a[0] == a.subrange(0, i)[0]);
        assert(b[0] == b.subrange(0, i)[0]);
        assert(a.drop_first().subrange(0, i - 1) =~= a.subrange(0, i).drop_first());
        assert(b.drop_first().subrange(0, i - 1) =~= b.subrange(0, i).drop_first());
        lemma_word_precedes_skip(a.drop_first(), b.drop_first(), i - 1);
        assert(a.drop_first().skip(i - 1) =~= a.skip(i));
        assert(b.drop_first().skip(i - 1) =~= b.skip(i));
    } else {
        assert(a.skip(0) =~= a);
        assert(b.skip(0) =~= b);
    }
}

/// Whether `a` comes strictly before `b` in the order of code points.
pub fn word_less(a: &String, b: &String) -> (r: bool)
    ensures
        r == word_precedes(a@, b@),
{
    let x = a.as_str();
    let y = b.as_str();
    let la = x.unicode_len();
    let lb = y.unicode_len();
    let mut i: usize = 0;
    proof {
        assert(a@.subrange(0, 0) =~= b@.subrange(0, 0));
    }
    loop
        invariant
            x@ == a@,
            y@ == b@,
            la == a@.len(),
            lb == b@.len(),
            i <= la,
            i <= lb,
            a@.subrange(0, i as int) == b@.subrange(0, i as int),
        decreases la - i,
    {
        proof {
            lemma_word_precedes_skip(a@, b@, i as int);
        }
        if i == la {
            return i < lb;
        }
        if i == lb {
            return false;
        }
        let ca = x.get_char(i);
        let cb = y.get_char(i);
        assert(a@.skip(i as int)[0] == ca);
        assert(b@.skip(i as int)[0] == cb);
        if ca != cb {
            return ca < cb;
        }
        proof {
            assert(a@.subrange(0, i + 1) =~= a@.subrange(0, i as int).push(ca));
            assert(b@.subrange(0, i + 1) =~= b@.subrange(0, i as int).push(cb));
        }
        i = i + 1;
    }
}

/// Whether the pair `a` comes strictly before the pair `b`: by descending
/// count, and among equal counts by ascending word.
fn rank_less(a: &(String, usize), b: &(String, usize)) -> (r: bool)
    ensures
        r == ranks_before((a.0@, a.1 as nat), (b.0@, b.1 as nat)),
{
    if a.1 != b.1 {
        a.1 > b.1
    } else {
        word_less(&a.0, &b.0)
    }
}

/// Every pair of `list` ranks before each pair that follows it.
pub open spec fn is_ranked(list: Seq<(Seq<char>, nat)>) -> bool {
    forall|a: int, b: int| 0 <= a < b < list.len() ==> ranks_before(#[trigger] list[a], #[trigger] list[b])
}

/// Inserts `(word, count)` into a ranked list whose words all differ from
/// `word`, at the one position that keeps it ranked.
fn insert_ranked(out: &mut Vec<(String, usize)>, word: String, count: usize) -> (p: usize)
    requires
        is_ranked(listing_view(old(out)@)),
        forall|k: int| 0 <= k < old(out)@.len() ==> #[trigger] listing_view(old(out)@)[k].0 != word@,
    ensures
        p <= old(out)@.len(),
        listing_view(final(out)@) == listing_view(old(out)@).insert(p as int, (word@, count as nat)),
        is_ranked(listing_view(final(out)@)),
{
    let ghost before = listing_view(out@);
    let ghost e = (word@, count as nat);
    let entry = (word, count);
    let mut p: usize = 0;
    while p < out.len() && !rank_less(&entry, &out[p])
        invariant
            before == listing_view(out@),
            p <= out@.len(),
            e == (entry.0@, entry.1 as nat),
            forall|k: int| 0 <= k < p ==> !ranks_before(e, #[trigger] before[k]),
        decreases out@.len() - p,
    {
        p = p + 1;
    }
    out.insert(p, entry);
    proof {
        let after = listing_view(out@);
        assert(after =~= before.insert(p as int, e));
        assert forall|k: int| 0 <= k < p implies ranks_before(#[trigger] before[k], e) by {
            lemma_ranks_before_total(before[k], e);
        }
        assert forall|k: int| p <= k < before.len() implies ranks_before(e, #[trigger] before[k]) by {
            if k > p {
                lemma_ranks_before_transitive(e, before[p as int], before[k]);
            }
        }
        assert forall|a: int, b: int| 0 <= a < b < after.len() implies ranks_before(
            #[trigger] after[a],
            #[trigger] after[b],
        ) by {
            if b < p {
                assert(after[a] == before[a] && after[b] == before[b]);
            } else if b == p {
                assert(after[a] == before[a]);
            } else if a < p {
                assert(after[a] == before[a] && after[b] == before[b - 1]);
                lemma_ranks_before_transitive(before[a], e, before[b - 1]);
            } else if a == p {
                assert(after[b] == before[b - 1]);
            } else {
                assert(after[a] == before[a - 1] && after[b] == before[b - 1]);
            }
        }
    }
    p
}

/// Returns the words of `target` that `known` lacks.
///
/// Each result holds an owned word and its count in `target`. Results are
/// ordered by descending count in `target`, with ascending word order to
/// break ties.
pub fn target_specific_words(known: &WordCounts, target: &WordCounts) -> (r: Vec<(String, usize)>)
    ensures
        is_target_specific_listing(known@, target@, listing_view(r@)),
        forall|i: int, j: int|
            0 <= i < j < r@.len() ==> #[trigger] r@[i].1 >= #[trigger] r@[j].1 && (r@[i].1 == r@[j].1
                ==> word_precedes(r@[i].0@, r@[j].0@)),
{
    let entries = target.entries();
    let n = entries.len();
    let mut out: Vec<(String, usize)> = Vec::new();
    let mut i: usize = 0;
    while i < n
        invariant
            n == entries@.len(),
            distinct_words(entries@),
            map_of(entries@) == target@,
            i <= n,
            is_ranked(listing_view(out@)),
            forall|k: int|
                0 <= k < out@.len() ==> {
                    &&& target@.contains_key(#[trigger] listing_view(out@)[k].0)
                    &&& !known@.contains_key(listing_view(out@)[k].0)
                    &&& listing_view(out@)[k].1 == target@[listing_view(out@)[k].0]
                    &&& exists|j: int| 0 <= j < i && #[trigger] entries@[j].0@ == listing_view(out@)[k].0
                },
            forall|j: int|
                0 <= j < i && !known@.contains_key(#[trigger] entries@[j].0@) ==> exists|k: int|
                    0 <= k < out@.len() && #[trigger] listing_view(out@)[k].0 == entries@[j].0@,
        decreases n - i,
    {
        let entry = &entries[i];
        if !known.contains_key(&entry.0) {
            let ghost before = listing_view(out@);
            let ghost e = (entry.0@, entry.1 as nat);
            proof {
                lemma_map_of_value(entries@, i as int);
                assert forall|k: int| 0 <= k < before.len() implies #[trigger] before[k].0 != e.0 by {
                    let j = choose|j: int| 0 <= j < i && #[trigger] entries@[j].0@ == before[k].0;
                    assert(entries@[j].0@ != entries@[i as int].0@);
                }
            }
            let p = insert_ranked(&mut out, entry.0.clone(), entry.1);
            proof {
                lemma_insert_keeps_listing(known@, target@, entries@, before, listing_view(out@), e, i as int, p as int);
            }
        }
        i = i + 1;
    }
    proof {
        let list = listing_view(out@);
        assert forall|w: Seq<char>| target@.contains_key(w) && !known@.contains_key(w) implies exists|k: int|
            0 <= k < list.len() && #[trigger] list[k].0 == w by {
            lemma_map_of_contains(entries@, w);
            let j = choose|j: int| 0 <= j < entries@.len() && #[trigger] entries@[j].0@ == w;
            assert(!known@.contains_key(entries@[j].0@));
        }
    }
    proof {
        let list = listing_view(out@);
        assert forall|i: int, j: int| 0 <= i < j < out@.len() implies #[trigger] out@[i].1 >= #[trigger] out@[j].1
            && (out@[i].1 == out@[j].1 ==> word_precedes(out@[i].0@, out@[j].0@)) by {
            assert(ranks_before(list[i], list[j]));
        }
    }
    out
}

/// One step of `target_specific_words`: entry `i` of the target, absent from
/// `known`, placed at position `p`, keeps the loop's account of the list.
proof fn lemma_insert_keeps_listing(
    known: Map<Seq<char>, nat>,
    target: Map<Seq<char>, nat>,
    entries: Seq<(String, usize)>,
    before: Seq<(Seq<char>, nat)>,
    after: Seq<(Seq<char>, nat)>,
    e: (Seq<char>, nat),
    i: int,
    p: int,
)
    requires
        0 <= i < entries.len(),
        0 <= p <= before.len(),
        e == (entries[i].0@, entries[i].1 as nat),
        after == before.insert(p, e),
        target.contains_key(e.0),
        !known.contains_key(e.0),
        target[e.0] == e.1,
        forall|k: int|
            0 <= k < before.len() ==> {
                &&& target.contains_key(#[trigger] before[k].0)
                &&& !known.contains_key(before[k].0)
                &&& before[k].1 == target[before[k].0]
                &&& exists|j: int| 0 <= j < i && #[trigger] entries[j].0@ == before[k].0
            },
        forall|j: int|
            0 <= j < i && !known.contains_key(#[trigger] entries[j].0@) ==> exists|k: int|
                0 <= k < before.len() && #[trigger] before[k].0 == entries[j].0@,
    ensures
        forall|k: int|
            0 <= k < after.len() ==> {
                &&& target.contains_key(#[trigger] after[k].0)
                &&& !known.contains_key(after[k].0)
                &&& after[k].1 == target[after[k].0]
                &&& exists|j: int| 0 <= j < i + 1 && #[trigger] entries[j].0@ == after[k].0
            },
        forall|j: int|
            0 <= j < i + 1 && !known.contains_key(#[trigger] entries[j].0@) ==> exists|k: int|
                0 <= k < after.len() && #[trigger] after[k].0 == entries[j].0@,
{
    assert forall|k: int| 0 <= k < after.len() implies {
        &&& target.contains_key(#[trigger] after[k].0)
        &&& !known.contains_key(after[k].0)
        &&& after[k].1 == target[after[k].0]
        &&& exists|j: int| 0 <= j < i + 1 && #[trigger] entries[j].0@ == after[k].0
    } by {
        if k < p {
            assert(after[k] == before[k]);
            let j = choose|j: int| 0 <= j < i && #[trigger] entries[j].0@ == before[k].0;
            assert(entries[j].0@ == after[k].0);
        } else if k == p {
            assert(entries[i].0@ == after[k].0);
        } else {
            assert(after[k] == before[k - 1]);
            let j = choose|j: int| 0 <= j < i && #[trigger] entries[j].0@ == before[k - 1].0;
            assert(entries[j].0@ == after[k].0);
        }
    }
    assert forall|j: int| 0 <= j < i + 1 && !known.contains_key(#[trigger] entries[j].0@) implies exists|k: int|
        0 <= k < after.len() && #[trigger] after[k].0 == entries[j].0@ by {
        if j == i {
            assert(after[p].0 == entries[j].0@);
        } else {
            let k = choose|k: int| 0 <= k < before.len() && #[trigger] before[k].0 == entries[j].0@;
            if k < p {
                assert(after[k] == before[k]);
            } else {
                assert(after[k + 1] == before[k]);
            }
        }
    }
}

} // verus!