//! Similarity of signatures and the choice of the closest corpus string.
use vstd::prelude::*;
use crate::hashing::string_signature;

verus! {

/// Number of positions below `k` at which `a` and `b` agree.
pub open spec fn agree_count(a: Seq<u64>, b: Seq<u64>, k: nat) -> nat
    decreases k,
{
    if k == 0 {
        0
    } else {
        agree_count(a, b, (k - 1) as nat) + if a[k - 1] == b[k - 1] {
            1nat
        } else {
            0nat
        }
    }
}

/// Similarity of the signature `sig` to the query signature `query`: the
/// number of components of `query` that `sig` shares.
pub open spec fn score(sig: Seq<u64>, query: Seq<u64>) -> nat {
    agree_count(sig, query, query.len())
}

/// Signatures of the strings of a corpus.
pub open spec fn corpus_signatures(corpus: Seq<Seq<char>>, seeds: Seq<u64>, lo: nat, hi: nat) -> Seq<
    Seq<u64>,
> {
    Seq::new(corpus.len(), |i: int| string_signature(corpus[i], seeds, lo, hi))
}

/// Rows of `width` components for the strings of a corpus: component `j`
/// of row `i` is component `j` of the signature of string `i` when there is
/// a seed `j`, and `u64::MAX` otherwise.
pub open spec fn table_signatures(
    corpus: Seq<Seq<char>>,
    seeds: Seq<u64>,
    lo: nat,
    hi: nat,
    width: nat,
) -> Seq<Seq<u64>> {
    Seq::new(
        corpus.len(),
        |i: int|
            Seq::new(
                width,
                |j: int|
                    if j < seeds.len() {
                        string_signature(corpus[i], seeds, lo, hi)[j]
                    } else {
                        u64::MAX
                    },
            ),
    )
}

/// With one seed per component, the rows are the signatures.
pub proof fn lemma_table_signatures_full(corpus: Seq<Seq<char>>, seeds: Seq<u64>, lo: nat, hi: nat)
    ensures
        table_signatures(corpus, seeds, lo, hi, seeds.len()) == corpus_signatures(
            corpus,
            seeds,
            lo,
            hi,
        ),
{
    assert forall|i: int| 0 <= i < corpus.len() implies #[trigger] table_signatures(
        corpus,
        seeds,
        lo,
        hi,
        seeds.len(),
    )[i] == corpus_signatures(corpus, seeds, lo, hi)[i] by {
        assert(table_signatures(corpus, seeds, lo, hi, seeds.len())[i] =~= string_signature(
            corpus[i],
            seeds,
            lo,
            hi,
        ));
    }
    assert(table_signatures(corpus, seeds, lo, hi, seeds.len()) =~= corpus_signatures(
        corpus,
        seeds,
        lo,
        hi,
    ));
}

/// Scores of all corpus signatures against `query`.
pub open spec fn corpus_scores(sigs: Seq<Seq<u64>>, query: Seq<u64>) -> Seq<nat> {
    Seq::new(sigs.len(), |i: int| score(sigs[i], query))
}

/// Scanning the first `t` scores in order and keeping a candidate only when
/// it beats the best so far strictly: the position and score kept, starting
/// from position 0 with score 0.
pub open spec fn first_best(scores: Seq<nat>, t: nat) -> (nat, nat)
    decreases t,
{
    if t == 0 {
        (0, 0)
    } else {
        let prev = first_best(scores, (t - 1) as nat);
        if scores[t - 1] > prev.1 {
            ((t - 1) as nat, scores[t - 1])
        } else {
            prev
        }
    }
}

/// Position of the first corpus signature of highest score against `query`
/// (position 0 when every score is 0).
pub open spec fn closest_index(sigs: Seq<Seq<u64>>, query: Seq<u64>) -> nat {
    first_best(corpus_scores(sigs, query), sigs.len()).0
}

/// What a search answers when the corpus is empty.
pub open spec fn empty_corpus_message() -> Seq<char> {
    "TokenFuzzer contains no strings to match against"@
}

/// Scores equal to 0 never change the candidate that a scan keeps.
pub proof fn lemma_first_best_zeros(scores: Seq<nat>, t: nat, u: nat)
    requires
        t <= u <= scores.len(),
        forall|i: int| t <= i < u ==> scores[i] == 0,
    ensures
        first_best(scores, u) == first_best(scores, t),
    decreases u,
{
    if u > t {
        lemma_first_best_zeros(scores, t, (u - 1) as nat);
    }
}

/// The kept candidate is a scanned position whose score is the kept score,
/// no scanned score exceeds it, and every earlier position scores less.
pub proof fn lemma_first_best_is_first_maximum(scores: Seq<nat>, t: nat)
    requires
        0 < t <= scores.len(),
    ensures
        first_best(scores, t).0 < t,
        first_best(scores, t).1 == scores[first_best(scores, t).0 as int],
        forall|i: int| 0 <= i < t ==> scores[i] <= first_best(scores, t).1,
        forall|i: int| 0 <= i < first_best(scores, t).0 ==> scores[i] < first_best(scores, t).1,
    decreases t,
{
    assert(first_best(scores, 0) == (0nat, 0nat));
    if t > 1 {
        lemma_first_best_is_first_maximum(scores, (t - 1) as nat);
    }
}

/// A signature never scores more than the length of the query.
pub proof fn lemma_agree_count_bound(a: Seq<u64>, b: Seq<u64>, k: nat)
    ensures
        agree_count(a, b, k) <= k,
    decreases k,
{
    if k > 0 {
        lemma_agree_count_bound(a, b, (k - 1) as nat);
    }
}

/// A signature that agrees with the query on its first `k` components scores `k` there.
pub proof fn lemma_agree_count_full(a: Seq<u64>, b: Seq<u64>, k: nat)
    requires
        forall|j: int| 0 <= j < k ==> a[j] == b[j],
    ensures
        agree_count(a, b, k) == k,
    decreases k,
{
    if k > 0 {
        lemma_agree_count_full(a, b, (k - 1) as nat);
    }
}

/// A full score means agreement everywhere.
pub proof fn lemma_agree_count_full_means_equal(a: Seq<u64>, b: Seq<u64>, k: nat)
    requires
        agree_count(a, b, k) == k,
    ensures
        forall|j: int| 0 <= j < k ==> a[j] == b[j],
    decreases k,
{
    if k > 0 {
        lemma_agree_count_bound(a, b, (k - 1) as nat);
        lemma_agree_count_full_means_equal(a, b, (k - 1) as nat);
    }
}

/// The closest corpus string scores at least as much as every corpus
/// string, and more than every string before it.
pub proof fn lemma_closest_is_first_maximum(sigs: Seq<Seq<u64>>, query: Seq<u64>)
    requires
        sigs.len() > 0,
    ensures
        closest_index(sigs, query) < sigs.len(),
        forall|i: int|
            0 <= i < sigs.len() ==> score(#[trigger] sigs[i], query) <= score(
                sigs[closest_index(sigs, query) as int],
                query,
            ),
        forall|i: int|
            0 <= i < closest_index(sigs, query) ==> score(#[trigger] sigs[i], query) < score(
                sigs[closest_index(sigs, query) as int],
                query,
            ),
{
    let scores = corpus_scores(sigs, query);
    lemma_first_best_is_first_maximum(scores, sigs.len());
    assert forall|i: int| 0 <= i < sigs.len() implies score(#[trigger] sigs[i], query) <= score(
        sigs[closest_index(sigs, query) as int],
        query,
    ) by {
        assert(scores[i] == score(sigs[i], query));
    }
    assert forall|i: int| 0 <= i < closest_index(sigs, query) implies score(#[trigger] sigs[i], query) < score(
        sigs[closest_index(sigs, query) as int],
        query,
    ) by {
        assert(scores[i] == score(sigs[i], query));
    }
}

/// A query whose signature is that of some corpus string is matched to a
/// corpus string with that very signature.
pub proof fn lemma_exact_signature_is_closest(sigs: Seq<Seq<u64>>, query: Seq<u64>, i: int)
    requires
        0 <= i < sigs.len(),
        sigs[i] == query,
        forall|k: int| 0 <= k < sigs.len() ==> (#[trigger] sigs[k]).len() == query.len(),
    ensures
        sigs[closest_index(sigs, query) as int] == query,
{
    lemma_closest_is_first_maximum(sigs, query);
    let c = closest_index(sigs, query) as int;
    lemma_agree_count_full(query, query, query.len());
    lemma_agree_count_bound(sigs[c], query, query.len());
    lemma_agree_count_full_means_equal(sigs[c], query, query.len());
    assert(sigs[c] =~= query);
}

} // verus!
