//! Distance ranking: each position's letters ordered by frequency, each
//! annotated with how far the ranking falls from its best count one rank on.
use vstd::prelude::*;
use crate::words::WORD_LEN;
use crate::frequency::{is_letter_set, occurs, FrequencyTable};

verus! {

/// Letter closing every distance list, below every real letter.
pub const END_LETTER: char = '.';

/// Distance of an entry that rotation must never move past.
pub const UNREACHABLE: usize = 1000000;

/// Ranking order: the higher count first, on equal counts the lower letter.
pub open spec fn ranks_before(a: (char, usize), b: (char, usize)) -> bool {
    a.1 > b.1 || (a.1 == b.1 && a.0 < b.0)
}

/// Whether `x` is `(letters[k], counts[k])` for some `k < n`.
pub open spec fn listed_in(x: (char, usize), letters: Seq<char>, counts: Seq<usize>, n: int) -> bool {
    exists|k: int| 0 <= k < n && x == (#[trigger] letters[k], counts[k])
}

/// `ranked` holds each pair `(letters[k], counts[k])` once, best first.
pub open spec fn is_ranking(
    ranked: Seq<(char, usize)>,
    letters: Seq<char>,
    counts: Seq<usize>,
) -> bool {
    &&& ranked.len() == letters.len()
    &&& forall|a: int, b: int| 0 <= a < b < ranked.len() ==> ranks_before(ranked[a], ranked[b])
    &&& forall|j: int| 0 <= j < ranked.len() ==> listed_in(#[trigger] ranked[j], letters, counts, letters.len() as int)
    &&& forall|k: int| 0 <= k < letters.len() ==> ranked.contains((#[trigger] letters[k], counts[k]))
}

/// The ranking closed by the end entry, whose count is 0.
pub open spec fn closed(ranked: Seq<(char, usize)>) -> Seq<(char, usize)> {
    ranked.push((END_LETTER, 0))
}

/// Distance of rank `k`: `UNREACHABLE` for the last entry and for an entry
/// of count 0, else the best count less the count one rank further on.
pub open spec fn distance_at(ranked: Seq<(char, usize)>, k: int) -> int {
    let c = closed(ranked);
    if k == c.len() - 1 || c[k].1 == 0 {
        UNREACHABLE as int
    } else {
        c[0].1 - c[k + 1].1
    }
}

/// The distance list of a ranking: its letters, the end letter last, each
/// with its distance.
pub open spec fn distance_list_of(ranked: Seq<(char, usize)>) -> Seq<(char, usize)> {
    Seq::new(ranked.len() + 1, |k: int| (closed(ranked)[k].0, distance_at(ranked, k) as usize))
}

/// `list` is the distance list of the ranking of `(letters[k], counts[k])`.
pub open spec fn is_distance_list(
    list: Seq<(char, usize)>,
    letters: Seq<char>,
    counts: Seq<usize>,
) -> bool {
    exists|ranked: Seq<(char, usize)>|
        is_ranking(ranked, letters, counts) && list == #[trigger] distance_list_of(ranked)
}

/// Whether `a` ranks before `b`.
fn beats(a: (char, usize), b: (char, usize)) -> (r: bool)
    ensures
        r == ranks_before(a, b),
{
    a.1 > b.1 || (a.1 == b.1 && a.0 < b.0)
}

/// The pairs `(letters[k], counts[k])` in ranking order: higher counts
/// first, equal counts by ascending letter.
pub fn rank_letters(letters: &Vec<char>, counts: &Vec<usize>) -> (r: Vec<(char, usize)>)
    requires
        letters.len() == counts.len(),
        letters@.no_duplicates(),
    ensures
        is_ranking(r@, letters@, counts@),
{
    let mut r: Vec<(char, usize)> = Vec::new();
    let mut k: usize = 0;
    while k < letters.len()
        invariant
            letters.len() == counts.len(),
            letters@.no_duplicates(),
            k <= letters.len(),
            r.len() == k,
            forall|a: int, b: int| 0 <= a < b < r.len() ==> ranks_before(r@[a], r@[b]),
            forall|j: int| 0 <= j < r.len() ==> listed_in(#[trigger] r@[j], letters@, counts@, k as int),
            forall|m: int| 0 <= m < k ==> r@.contains((#[trigger] letters@[m], counts@[m])),
        decreases letters.len() - k,
    {
        let x = (letters[k], counts[k]);
        let mut p: usize = 0;
        while p < r.len() && !beats(x, r[p])
            invariant
                letters.len() == counts.len(),
                letters@.no_duplicates(),
                k < letters.len(),
                r.len() == k,
                x == (letters@[k as int], counts@[k as int]),
                forall|a: int, b: int| 0 <= a < b < r.len() ==> ranks_before(r@[a], r@[b]),
                forall|j: int| 0 <= j < r.len() ==> listed_in(#[trigger] r@[j], letters@, counts@, k as int),
                forall|m: int| 0 <= m < k ==> r@.contains((#[trigger] letters@[m], counts@[m])),
                p <= r.len(),
                forall|j: int| 0 <= j < p ==> !ranks_before(x, r@[j]),
            decreases r.len() - p,
        {
            p = p + 1;
        }
        let ghost before = r@;
        assert forall|j: int| 0 <= j < before.len() implies before[j].0 != x.0 by {
            assert(listed_in(before[j], letters@, counts@, k as int));
            let m = choose|m: int| 0 <= m < k && before[j] == (#[trigger] letters@[m], counts@[m]);
            assert(letters@[m] != letters@[k as int]);
        }
        r.insert(p, x);
        assert forall|a: int, b: int| 0 <= a < b < r.len() implies ranks_before(r@[a], r@[b]) by {
            if b < p {
                assert(r@[a] == before[a] && r@[b] == before[b]);
            } else if a < p && b == p {
                assert(!ranks_before(x, before[a]));
                assert(before[a].0 != x.0);
            } else if a < p && b > p {
                assert(r@[b] == before[b - 1]);
            } else if a == p {
                assert(r@[b] == before[b - 1]);
                assert(ranks_before(x, before[p as int]));
                if b - 1 > p {
                    assert(ranks_before(before[p as int], before[b - 1]));
                }
            } else {
                assert(r@[a] == before[a - 1]);
                assert(r@[b] == before[b - 1]);
            }
        }
        assert forall|j: int| 0 <= j < r.len() implies listed_in(#[trigger] r@[j], letters@, counts@, k + 1) by {
            if j < p {
                assert(r@[j] == before[j]);
                assert(listed_in(before[j], letters@, counts@, k as int));
            } else if j == p {
                assert(r@[j] == (letters@[k as int], counts@[k as int]));
            } else {
                assert(r@[j] == before[j - 1]);
                assert(listed_in(before[j - 1], letters@, counts@, k as int));
            }
        }
        assert forall|m: int| 0 <= m < k + 1 implies r@.contains((#[trigger] letters@[m], counts@[m])) by {
            if m == k {
                assert(r@[p as int] == x);
            } else {
                assert(before.contains((letters@[m], counts@[m])));
                let j = choose|j: int| 0 <= j < before.len() && before[j] == (letters@[m], counts@[m]);
                if j < p {
                    assert(r@[j] == before[j]);
                } else {
                    assert(r@[j + 1] == before[j]);
                }
            }
        }
        k = k + 1;
    }
    r
}

/// The distance list of a ranking whose counts do not increase.
fn distances(ranked: &Vec<(char, usize)>) -> (r: Vec<(char, usize)>)
    requires
        forall|a: int, b: int| 0 <= a < b < ranked.len() ==> ranked@[a].1 >= ranked@[b].1,
    ensures
        r@ == distance_list_of(ranked@),
{
    let ghost c = closed(ranked@);
    let n = ranked.len();
    let optimal: usize = if n > 0 {
        ranked[0].1
    } else {
        0
    };
    let mut r: Vec<(char, usize)> = Vec::new();
    let mut k: usize = 0;
    while k < n
        invariant
            c == closed(ranked@),
            n == ranked.len(),
            optimal == c[0].1,
            forall|a: int, b: int| 0 <= a < b < ranked.len() ==> ranked@[a].1 >= ranked@[b].1,
            k <= n,
            r@ == distance_list_of(ranked@).take(k as int),
        decreases n - k,
    {
        let (letter, freq) = ranked[k];
        assert(c[k as int] == (letter, freq));
        let distance: usize = if freq == 0 {
            UNREACHABLE
        } else {
            let next: usize = if k + 1 < n {
                ranked[k + 1].1
            } else {
                0
            };
            assert(c[k + 1].1 == next);
            if k + 1 < n {
                assert(ranked@[0].1 >= ranked@[k + 1].1);
            }
            optimal - next
        };
        r.push((letter, distance));
        k = k + 1;
        assert(r@ =~= distance_list_of(ranked@).take(k as int));
    }
    r.push((END_LETTER, UNREACHABLE));
    assert(r@ =~= distance_list_of(ranked@));
    r
}

/// Letters in strictly ascending order are distinct.
pub proof fn lemma_ascending_distinct(s: Seq<char>)
    requires
        crate::frequency::strictly_ascending(s),
    ensures
        s.no_duplicates(),
{
    assert forall|a: int, b: int| 0 <= a < s.len() && 0 <= b < s.len() && a != b implies s[a] != s[b] by {
        if a < b {
            assert(s[a] < s[b]);
        } else {
            assert(s[b] < s[a]);
        }
    }
}

/// For each position, the distance list of the table's letters ranked by
/// their frequency there: the higher count first, equal counts by ascending
/// letter, the end letter last.
pub fn get_distance_list(letter_dist: &FrequencyTable) -> (r: Vec<Vec<(char, usize)>>)
    requires
        letter_dist.wf(),
    ensures
        r.len() == WORD_LEN,
        forall|i: int|
            0 <= i < WORD_LEN ==> is_distance_list(
                #[trigger] r[i]@,
                letter_dist.letters@,
                letter_dist.counts[i]@,
            ),
{
    let letters = &letter_dist.letters;
    proof {
        lemma_ascending_distinct(letters@);
    }
    let mut r: Vec<Vec<(char, usize)>> = Vec::new();
    let mut i: usize = 0;
    while i < WORD_LEN
        invariant
            letters == &letter_dist.letters,
            letter_dist.wf(),
            letters@.no_duplicates(),
            i <= WORD_LEN,
            r.len() == i,
            forall|p: int|
                0 <= p < i ==> is_distance_list(#[trigger] r[p]@, letters@, letter_dist.counts[p]@),
        decreases WORD_LEN - i,
    {
        let ranked = rank_letters(letters, &letter_dist.counts[i]);
        assert forall|a: int, b: int| 0 <= a < b < ranked.len() implies ranked@[a].1 >= ranked@[b].1 by {
            assert(ranks_before(ranked@[a], ranked@[b]));
        }
        let list = distances(&ranked);
        let ghost prev = r@;
        r.push(list);
        assert forall|p: int|
            0 <= p < i + 1 implies is_distance_list(#[trigger] r[p]@, letters@, letter_dist.counts[p]@) by {
            if p < i {
                assert(r[p] == prev[p]);
            } else {
                assert(r[p]@ == distance_list_of(ranked@));
            }
        }
        i = i + 1;
    }
    r
}

/// A distance list ranks the letters by non-increasing frequency, gives the
/// unreachable distance to its last entry and to every entry of count 0, and
/// lists every letter of the dictionary: at least each letter seen at its
/// position, before the end entry.
pub proof fn lemma_distance_list_shape(
    ws: Seq<Seq<char>>,
    letters: Seq<char>,
    counts: Seq<usize>,
    list: Seq<(char, usize)>,
)
    requires
        is_letter_set(letters, ws),
        counts.len() == letters.len(),
        is_distance_list(list, letters, counts),
    ensures
        list.len() == letters.len() + 1,
        list[letters.len() as int] == (END_LETTER, UNREACHABLE),
        forall|a: int, b: int, ka: int, kb: int|
            0 <= a < b < letters.len() && 0 <= ka < letters.len() && 0 <= kb < letters.len()
                && #[trigger] letters[ka] == #[trigger] list[a].0 && #[trigger] letters[kb]
                == #[trigger] list[b].0 ==> counts[ka] >= counts[kb],
        forall|a: int, ka: int|
            0 <= a < letters.len() && 0 <= ka < letters.len() && #[trigger] letters[ka]
                == #[trigger] list[a].0 && counts[ka] == 0 ==> list[a].1 == UNREACHABLE,
        forall|c: char| occurs(ws, c) ==> exists|a: int| 0 <= a < letters.len() && #[trigger] list[a].0 == c,
{
    let ranked = choose|ranked: Seq<(char, usize)>|
        is_ranking(ranked, letters, counts) && list == #[trigger] distance_list_of(ranked);
    lemma_ascending_distinct(letters);
    let n = letters.len() as int;
    assert(list[n] == (closed(ranked)[n].0, distance_at(ranked, n) as usize));
    assert forall|a: int, ka: int| 0 <= a < n && 0 <= ka < n && #[trigger] letters[ka] == #[trigger] list[a].0 implies ranked[a]
        == (letters[ka], counts[ka]) by {
        assert(listed_in(ranked[a], letters, counts, n));
        let m = choose|m: int| 0 <= m < n && ranked[a] == (#[trigger] letters[m], counts[m]);
        assert(list[a].0 == closed(ranked)[a].0);
        assert(closed(ranked)[a] == ranked[a]);
    }
    assert forall|a: int, b: int, ka: int, kb: int|
        0 <= a < b < n && 0 <= ka < n && 0 <= kb < n && #[trigger] letters[ka] == #[trigger] list[a].0
            && #[trigger] letters[kb] == #[trigger] list[b].0 implies counts[ka] >= counts[kb] by {
        assert(ranked[a] == (letters[ka], counts[ka]));
        assert(ranked[b] == (letters[kb], counts[kb]));
        assert(ranks_before(ranked[a], ranked[b]));
    }
    assert forall|a: int, ka: int|
        0 <= a < n && 0 <= ka < n && #[trigger] letters[ka] == #[trigger] list[a].0 && counts[ka]
            == 0 implies list[a].1 == UNREACHABLE by {
        assert(ranked[a] == (letters[ka], counts[ka]));
        assert(closed(ranked)[a] == ranked[a]);
    }
    assert forall|c: char| occurs(ws, c) implies exists|a: int| 0 <= a < n && #[trigger] list[a].0 == c by {
        assert(letters.contains(c));
        let k = choose|k: int| 0 <= k < n && letters[k] == c;
        assert(ranked.contains((letters[k], counts[k])));
        let a = choose|a: int| 0 <= a < ranked.len() && ranked[a] == (letters[k], counts[k]);
        assert(closed(ranked)[a] == ranked[a]);
        assert(list[a].0 == c);
    }
}

} // verus!
