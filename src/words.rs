//! Finds the dictionary words that can be spelled from a pool of letters.
use std::collections::HashSet;

use vstd::prelude::*;

use crate::combinatorics::{
    combination_outputs, indices_view, is_ascending_subset, is_permutation, permutation_outputs,
    Combination, Permutation,
};
use crate::text::string_from_chars;

verus! {

/// The words of a dictionary, as character sequences.
pub open spec fn dictionary_words(d: &HashSet<String>) -> Set<Seq<char>> {
    d@.map(|w: String| w@)
}

/// `w` spells the letters at the positions `p` of `letters`, in that order,
/// each position used at most once.
pub open spec fn spells(letters: Seq<char>, p: Seq<usize>, w: Seq<char>) -> bool {
    &&& w.len() == p.len()
    &&& forall|j: int| 0 <= j < p.len() ==> #[trigger] p[j] < letters.len()
    &&& forall|a: int, b: int| 0 <= a < p.len() && 0 <= b < p.len() && a != b ==> #[trigger] p[a] != #[trigger] p[b]
    &&& forall|j: int| 0 <= j < w.len() ==> #[trigger] w[j] == letters[p[j] as int]
}

/// `w` arranges at least `min` distinct positions of `letters`.
pub open spec fn is_arrangement(letters: Seq<char>, min: nat, w: Seq<char>) -> bool {
    exists|p: Seq<usize>| #[trigger] spells(letters, p, w) && min <= p.len()
}

/// The word that the ordering `p` of the positions `c` of `letters` spells.
pub open spec fn spell(letters: Seq<char>, c: Seq<usize>, p: Seq<usize>) -> Seq<char> {
    Seq::new(p.len(), |j: int| letters[c[p[j] as int] as int])
}

/// The lists of `s` one after another.
pub open spec fn concat_lists(s: Seq<Seq<Seq<char>>>) -> Seq<Seq<char>>
    decreases s.len(),
{
    if s.len() == 0 {
        seq![]
    } else {
        concat_lists(s.drop_last()) + s.last()
    }
}

/// The words that the orderings `ps` of the positions `c` spell.
pub open spec fn ordering_words(letters: Seq<char>, c: Seq<usize>, ps: Seq<Seq<usize>>) -> Seq<
    Seq<char>,
> {
    ps.map_values(|p: Seq<usize>| spell(letters, c, p))
}

/// The words of each subset of `cs` in turn, under every ordering of it.
pub open spec fn subset_words(letters: Seq<char>, cs: Seq<Seq<usize>>) -> Seq<Seq<char>> {
    concat_lists(
        cs.map_values(|c: Seq<usize>| ordering_words(letters, c, permutation_outputs(c.len()))),
    )
}

/// The words of the subsets of size `min + d`, for `d` below `count`.
pub open spec fn sized_words(letters: Seq<char>, min: nat, count: nat) -> Seq<Seq<char>> {
    concat_lists(
        Seq::new(
            count,
            |d: int| subset_words(letters, combination_outputs(letters.len(), (min + d) as nat)),
        ),
    )
}

/// Every word the search tries, in order: subset sizes from `min` up to the
/// pool's length, the subsets of each size in turn, every ordering of each.
pub open spec fn candidate_words(letters: Seq<char>, min: nat) -> Seq<Seq<char>> {
    sized_words(
        letters,
        min,
        if min <= letters.len() {
            (letters.len() + 1 - min) as nat
        } else {
            0
        },
    )
}

/// The words of `cands` that `dict` holds, each at its first occurrence.
pub open spec fn first_found(dict: Set<Seq<char>>, cands: Seq<Seq<char>>) -> Seq<Seq<char>>
    decreases cands.len(),
{
    if cands.len() == 0 {
        seq![]
    } else {
        let prev = first_found(dict, cands.drop_last());
        let w = cands.last();
        if dict.contains(w) && !prev.contains(w) {
            prev.push(w)
        } else {
            prev
        }
    }
}

/// The characters of each string.
pub open spec fn strings_view(r: Seq<String>) -> Seq<Seq<char>> {
    r.map_values(|s: String| s@)
}

proof fn lemma_concat_lists_push(s: Seq<Seq<Seq<char>>>, y: Seq<Seq<char>>)
    ensures
        concat_lists(s.push(y)) == concat_lists(s) + y,
{
    assert(s.push(y).drop_last() =~= s);
}

/// Relies on `HashSet::contains`: whether the set holds a string equal to
/// `s` (std's `String` hashes and compares by its characters).
#[verifier::external_body]
fn in_dictionary(d: &HashSet<String>, s: &String) -> (r: bool)
    ensures
        r == dictionary_words(d).contains(s@),
{
    d.contains(s)
}

fn listed(found: &Vec<String>, s: &String) -> (r: bool)
    ensures
        r == exists|j: int| 0 <= j < found@.len() && (#[trigger] found@[j])@ == s@,
{
    let mut j: usize = 0;
    while j < found.len()
        invariant
            j <= found@.len(),
            forall|i: int| 0 <= i < j ==> (#[trigger] found@[i])@ != s@,
        decreases found.len() - j,
    {
        if found[j] == *s {
            return true;
        }
        j += 1;
    }
    false
}

fn chars_of(s: &str) -> (r: Vec<char>)
    ensures
        r@ == s@,
{
    let n = s.unicode_len();
    let mut r: Vec<char> = Vec::new();
    let mut i: usize = 0;
    while i < n
        invariant
            n == s@.len(),
            i <= n,
            r@ =~= s@.subrange(0, i as int),
        decreases n - i,
    {
        r.push(s.get_char(i));
        i += 1;
    }
    assert(r@ =~= s@);
    r
}

/// Every dictionary word spelled by a subset of at least `min` positions of
/// `letters`, in the order subset sizes, combinations and permutations are
/// enumerated, each word once, where it first comes. A pool that is searched
/// at all stays under 64 letters, the width of the subset cursor.
pub fn words(dict: &HashSet<String>, letters: &str, min: usize) -> (r: Vec<String>)
    requires
        min <= letters@.len() ==> letters@.len() < 64,
    ensures
        strings_view(r@) == first_found(dictionary_words(dict), candidate_words(letters@, min as nat)),
        forall|j: int| 0 <= j < r@.len() ==> dictionary_words(dict).contains(#[trigger] r@[j]@),
        forall|j: int| 0 <= j < r@.len() ==> is_arrangement(letters@, min as nat, #[trigger] r@[j]@),
        forall|a: int, b: int| 0 <= a < b < r@.len() ==> (#[trigger] r@[a])@ != (#[trigger] r@[b])@,
{
    let mut results: Vec<String> = Vec::new();
    let pool = chars_of(letters);
    let len = pool.len();
    let ghost dset = dictionary_words(dict);
    let ghost mut done: Seq<Seq<char>> = seq![];
    let mut x: usize = min;
    proof {
        assert(Seq::new(0, |d: int| subset_words(pool@, combination_outputs(len as nat, (min + d) as nat))) =~= Seq::<Seq<Seq<char>>>::empty());
    }
    while x <= len
        invariant
            pool@ == letters@,
            dset == dictionary_words(dict),
            len == letters@.len(),
            min <= len ==> len < 64,
            min <= x,
            x <= len + 1 || x == min,
            done == sized_words(letters@, min as nat, (x - min) as nat),
            strings_view(results@) == first_found(dset, done),
            forall|j: int| 0 <= j < results@.len() ==> dictionary_words(dict).contains(#[trigger] results@[j]@),
            forall|j: int| 0 <= j < results@.len() ==> is_arrangement(letters@, min as nat, #[trigger] results@[j]@),
            forall|a: int, b: int| 0 <= a < b < results@.len() ==> (#[trigger] results@[a])@ != (#[trigger] results@[b])@,
        decreases len + 1 - x,
    {
        let mut comb = Combination::new(len, x);
        let ghost base = done;
        let ghost mut taken: Seq<Seq<usize>> = seq![];
        loop
            invariant
                pool@ == letters@,
                dset == dictionary_words(dict),
                len == letters@.len(),
                len < 64,
                min <= x <= len,
                taken + comb.outputs() == combination_outputs(len as nat, x as nat),
                done == base + subset_words(letters@, taken),
                strings_view(results@) == first_found(dset, done),
                comb.wf(),
                comb.size() == len,
                comb.choose_count() == x,
                forall|j: int| 0 <= j < results@.len() ==> dictionary_words(dict).contains(#[trigger] results@[j]@),
                forall|j: int| 0 <= j < results@.len() ==> is_arrangement(letters@, min as nat, #[trigger] results@[j]@),
                forall|a: int, b: int| 0 <= a < b < results@.len() ==> (#[trigger] results@[a])@ != (#[trigger] results@[b])@,
            ensures
                comb.outputs() == Seq::<Seq<usize>>::empty(),
            decreases comb.remaining(),
        {
            let ghost before = comb.outputs();
            let c = match comb.next() {
                Some(c) => c,
                None => {
                    proof {
                        assert(taken =~= taken + before);
                    }
                    break;
                },
            };
            let mut perm = Permutation::new(c.len());
            let ghost base2 = done;
            let ghost mut ordered: Seq<Seq<usize>> = seq![];
            loop
                invariant
                    pool@ == letters@,
                    dset == dictionary_words(dict),
                    len == letters@.len(),
                    min <= x,
                    ordered + perm.outputs() == permutation_outputs(c@.len()),
                    done == base2 + ordering_words(letters@, c@, ordered),
                    strings_view(results@) == first_found(dset, done),
                    is_ascending_subset(c@, len as nat, x as nat),
                    perm.wf(),
                    perm.size() == c@.len(),
                    forall|j: int| 0 <= j < results@.len() ==> dictionary_words(dict).contains(#[trigger] results@[j]@),
                    forall|j: int| 0 <= j < results@.len() ==> is_arrangement(letters@, min as nat, #[trigger] results@[j]@),
                    forall|a: int, b: int| 0 <= a < b < results@.len() ==> (#[trigger] results@[a])@ != (#[trigger] results@[b])@,
                ensures
                    perm.outputs() == Seq::<Seq<usize>>::empty(),
                decreases perm.remaining(),
            {
                let ghost pbefore = perm.outputs();
                let p = match perm.next() {
                    Some(p) => p,
                    None => {
                        proof {
                            assert(ordered =~= ordered + pbefore);
                        }
                        break;
                    },
                };
                proof {
                    assert(ordered.push(p@) + perm.outputs() =~= ordered + pbefore);
                    assert(ordering_words(letters@, c@, ordered.push(p@)) =~= ordering_words(
                        letters@,
                        c@,
                        ordered,
                    ).push(spell(letters@, c@, p@)));
                    ordered = ordered.push(p@);
                }
                let ghost q = Seq::new(p@.len(), |j: int| c@[p@[j] as int]);
                let mut s: Vec<char> = Vec::new();
                let mut i: usize = 0;
                while i < p.len()
                    invariant
                        pool@ == letters@,
                        len == letters@.len(),
                        is_ascending_subset(c@, len as nat, x as nat),
                        is_permutation(p@, c@.len()),
                        q == Seq::new(p@.len(), |j: int| c@[p@[j] as int]),
                        i <= p@.len(),
                        s@.len() == i,
                        forall|j: int| 0 <= j < i ==> #[trigger] s@[j] == letters@[q[j] as int],
                    decreases p.len() - i,
                {
                    s.push(pool[c[p[i]]]);
                    i += 1;
                }
                let w = string_from_chars(&s);
                proof {
                    assert(w@ =~= spell(letters@, c@, p@));
                    let prev = strings_view(results@);
                    assert(done.push(w@).drop_last() =~= done);
                    assert((base2 + ordering_words(letters@, c@, ordered.drop_last())).push(w@)
                        =~= base2 + ordering_words(letters@, c@, ordered));
                    done = done.push(w@);
                    assert(prev.contains(w@) <==> exists|j: int|
                        0 <= j < results@.len() && (#[trigger] results@[j])@ == w@) by {
                        if prev.contains(w@) {
                            let j = choose|j: int| 0 <= j < prev.len() && prev[j] == w@;
                            assert(results@[j]@ == w@);
                        }
                        if exists|j: int| 0 <= j < results@.len() && (#[trigger] results@[j])@ == w@ {
                            let j = choose|j: int| 0 <= j < results@.len() && (#[trigger] results@[j])@ == w@;
                            assert(prev[j] == w@);
                        }
                    }
                }
                let ghost rbefore = results@;
                if in_dictionary(dict, &w) && !listed(&results, &w) {
                    proof {
                        assert forall|a: int, b: int|
                            0 <= a < q.len() && 0 <= b < q.len() && a != b implies #[trigger] q[a]
                            != #[trigger] q[b] by {
                            assert(p@[a] != p@[b]);
                            if p@[a] < p@[b] {
                                assert(c@[p@[a] as int] < c@[p@[b] as int]);
                            } else {
                                assert(c@[p@[b] as int] < c@[p@[a] as int]);
                            }
                        }
                        assert(spells(letters@, q, w@));
                    }
                    results.push(w);
                    proof {
                        assert(strings_view(results@) =~= strings_view(rbefore).push(w@));
                    }
                }
            }
            proof {
                assert(ordered =~= ordered + perm.outputs());
                lemma_concat_lists_push(
                    taken.map_values(
                        |c: Seq<usize>| ordering_words(letters@, c, permutation_outputs(c.len())),
                    ),
                    ordering_words(letters@, c@, ordered),
                );
                assert(taken.push(c@).map_values(
                    |c: Seq<usize>| ordering_words(letters@, c, permutation_outputs(c.len())),
                ) =~= taken.map_values(
                    |c: Seq<usize>| ordering_words(letters@, c, permutation_outputs(c.len())),
                ).push(ordering_words(letters@, c@, ordered)));
                assert(done =~= base + subset_words(letters@, taken.push(c@)));
                assert(taken.push(c@) + comb.outputs() =~= taken + before);
                taken = taken.push(c@);
            }
        }
        proof {
            assert(taken =~= taken + comb.outputs());
            let f = |d: int| subset_words(letters@, combination_outputs(len as nat, (min + d) as nat));
            assert(Seq::new((x + 1 - min) as nat, f) =~= Seq::new((x - min) as nat, f).push(
                subset_words(letters@, taken),
            ));
            lemma_concat_lists_push(Seq::new((x - min) as nat, f), subset_words(letters@, taken));
        }
        x += 1;
    }
    proof {
        if min <= len {
            assert(x == len + 1);
        }
    }
    results
}

} // verus!
