//! Segmentation: how a run of letters is cut into the digraphs that the
//! cipher substitutes, and how digraphs are spelled out again.

use vstd::prelude::*;
use crate::alphabet::{is_letter, FILLER};

verus! {

/// A digraph: two letters that are substituted together.
pub type Bigram = (char, char);

/// The digraphs of a run of letters, read from the left. Two different
/// letters form a digraph. A letter that is followed by itself, or by
/// nothing, forms a digraph with the filler, and reading goes on with the
/// letter after it, so a doubled letter opens the next digraph.
pub open spec fn digraphs(s: Seq<char>) -> Seq<Bigram>
    decreases s.len(),
{
    if s.len() == 0 {
        Seq::empty()
    } else if s.len() == 1 || s[0] == s[1] {
        seq![(s[0], FILLER)] + digraphs(s.skip(1))
    } else {
        seq![(s[0], s[1])] + digraphs(s.skip(2))
    }
}

/// The letters of a sequence of digraphs, in order.
pub open spec fn spelled(pairs: Seq<Bigram>) -> Seq<char> {
    Seq::new(
        2 * pairs.len(),
        |i: int|
            if i % 2 == 0 {
                pairs[i / 2].0
            } else {
                pairs[i / 2].1
            },
    )
}

/// The two letters at the indices `2 * k` and `2 * k + 1` of a run.
pub open spec fn pair_at(s: Seq<char>, k: int) -> Bigram {
    (s[2 * k], s[2 * k + 1])
}

/// Whether a run of letters falls into digraphs as it stands: its length is
/// even, and no letter at an even index is followed by itself.
pub open spec fn is_paired(s: Seq<char>) -> bool {
    &&& s.len() % 2 == 0
    &&& forall|k: int| 0 <= k < s.len() / 2 ==> (#[trigger] pair_at(s, k)).0 != pair_at(s, k).1
}

/// Cuts a run of letters into its digraphs, see [`digraphs`].
pub fn segment(letters: &Vec<char>) -> (pairs: Vec<Bigram>)
    ensures
        pairs@ == digraphs(letters@),
{
    let mut pairs: Vec<Bigram> = Vec::new();
    let mut i: usize = 0;
    assert(letters@.skip(0) == letters@);
    while i < letters.len()
        invariant
            i <= letters.len(),
            pairs@ + digraphs(letters@.skip(i as int)) == digraphs(letters@),
        decreases letters.len() - i,
    {
        let first = letters[i];
        let ghost rest = letters@.skip(i as int);
        if i + 1 < letters.len() && letters[i + 1] != first {
            proof {
                assert(rest.skip(2) == letters@.skip(i + 2));
                assert(pairs@.push((first, letters[i + 1])) + digraphs(rest.skip(2)) == pairs@
                    + digraphs(rest));
            }
            pairs.push((first, letters[i + 1]));
            i += 2;
        } else {
            proof {
                assert(rest.skip(1) == letters@.skip(i + 1));
                assert(pairs@.push((first, FILLER)) + digraphs(rest.skip(1)) == pairs@ + digraphs(
                    rest,
                ));
            }
            pairs.push((first, FILLER));
            i += 1;
        }
    }
    assert(pairs@ + Seq::<Bigram>::empty() == pairs@);
    pairs
}

/// The digraphs of letters are made of letters.
pub proof fn lemma_digraphs_of_letters(s: Seq<char>)
    requires
        forall|i: int| 0 <= i < s.len() ==> is_letter(#[trigger] s[i]),
    ensures
        forall|k: int|
            0 <= k < digraphs(s).len() ==> is_letter((#[trigger] digraphs(s)[k]).0) && is_letter(
                digraphs(s)[k].1,
            ),
    decreases s.len(),
{
    if s.len() > 0 {
        let rest = if s.len() == 1 || s[0] == s[1] {
            s.skip(1)
        } else {
            s.skip(2)
        };
        lemma_digraphs_of_letters(rest);
        assert forall|k: int| 0 <= k < digraphs(s).len() implies is_letter(
            (#[trigger] digraphs(s)[k]).0,
        ) && is_letter(digraphs(s)[k].1) by {
            if k == 0 {
                assert(is_letter(s[0]));
                if s.len() > 1 {
                    assert(is_letter(s[1]));
                }
            } else {
                assert(digraphs(s)[k] == digraphs(rest)[k - 1]);
            }
        }
    }
}

/// Spelling one more digraph adds its two letters.
pub proof fn lemma_spelled_push(pairs: Seq<Bigram>, pair: Bigram)
    ensures
        spelled(pairs.push(pair)) == spelled(pairs).push(pair.0).push(pair.1),
{
    let longer = spelled(pairs.push(pair));
    let pushed = spelled(pairs).push(pair.0).push(pair.1);
    assert(longer.len() == pushed.len());
    assert forall|i: int| 0 <= i < longer.len() implies longer[i] == pushed[i] by {
        if i < 2 * pairs.len() {
            assert(i / 2 < pairs.len());
        } else {
            assert(i / 2 == pairs.len());
        }
    }
}

/// A run of letters that falls into digraphs as it stands is cut without a
/// filler.
pub proof fn lemma_digraphs_of_paired(s: Seq<char>)
    requires
        is_paired(s),
    ensures
        digraphs(s).len() == s.len() / 2,
        forall|k: int| 0 <= k < s.len() / 2 ==> #[trigger] digraphs(s)[k] == pair_at(s, k),
    decreases s.len(),
{
    if s.len() > 0 {
        let rest = s.skip(2);
        let head = seq![(s[0], s[1])];
        assert(pair_at(s, 0).0 != pair_at(s, 0).1);
        assert(digraphs(s) == head + digraphs(rest));
        assert(rest.len() / 2 == s.len() / 2 - 1);
        assert forall|k: int| 0 <= k < rest.len() / 2 implies #[trigger] pair_at(rest, k)
            == pair_at(s, k + 1) by {
            assert(rest[2 * k] == s[2 * k + 2]);
            assert(rest[2 * k + 1] == s[2 * k + 3]);
        }
        assert(is_paired(rest)) by {
            assert forall|k: int| 0 <= k < rest.len() / 2 implies (#[trigger] pair_at(rest, k)).0
                != pair_at(rest, k).1 by {
                assert(pair_at(s, k + 1).0 != pair_at(s, k + 1).1);
            }
        }
        lemma_digraphs_of_paired(rest);
        assert forall|k: int| 0 <= k < s.len() / 2 implies #[trigger] digraphs(s)[k] == pair_at(
            s,
            k,
        ) by {
            if k > 0 {
                assert((head + digraphs(rest))[k] == digraphs(rest)[k - 1]);
                assert(pair_at(rest, k - 1) == pair_at(s, k - 1 + 1));
            }
        }
    }
}

/// Spelling the digraphs of a run of letters that falls into digraphs as it
/// stands gives the run back.
pub proof fn lemma_spelled_digraphs(s: Seq<char>)
    requires
        is_paired(s),
    ensures
        spelled(digraphs(s)) == s,
{
    lemma_digraphs_of_paired(s);
    let again = spelled(digraphs(s));
    assert(again.len() == s.len());
    assert forall|i: int| 0 <= i < s.len() implies again[i] == s[i] by {
        let k = i / 2;
        assert(digraphs(s)[k] == pair_at(s, k));
        assert(i == 2 * k || i == 2 * k + 1);
    }
    assert(again =~= s);
}

/// Spelling the digraphs of a sequence that was spelled from digraphs whose
/// two letters differ gives those digraphs back.
pub proof fn lemma_digraphs_of_spelled(pairs: Seq<Bigram>)
    requires
        forall|k: int| 0 <= k < pairs.len() ==> (#[trigger] pairs[k]).0 != pairs[k].1,
    ensures
        is_paired(spelled(pairs)),
        digraphs(spelled(pairs)) == pairs,
{
    let s = spelled(pairs);
    assert forall|k: int| 0 <= k < pairs.len() implies #[trigger] pair_at(s, k) == pairs[k] by {
        assert((2 * k) / 2 == k && (2 * k) % 2 == 0);
        assert((2 * k + 1) / 2 == k && (2 * k + 1) % 2 == 1);
    }
    assert(is_paired(s)) by {
        assert forall|k: int| 0 <= k < s.len() / 2 implies (#[trigger] pair_at(s, k)).0 != pair_at(
            s,
            k,
        ).1 by {
            assert(pairs[k].0 != pairs[k].1);
        }
    }
    lemma_digraphs_of_paired(s);
    assert(digraphs(s) =~= pairs);
}

} // verus!
