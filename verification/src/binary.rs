//! Search through reverse indexes: for each hash function, every corpus
//! string's component of that function, sorted by hash value.
use vstd::prelude::*;
use std::cmp::Ordering;
use crate::hashing::{
    cell, compute_signature, flat_signatures_ok, generate_seeds, lemma_cell_in_table, seeds_spec,
    string_signature, SEED_BASE,
};
use crate::scoring::{
    agree_count, closest_index, corpus_scores, corpus_signatures, first_best,
    lemma_first_best_is_first_maximum, lemma_first_best_zeros, empty_corpus_message,
};
use crate::parallel::{par_fill_signatures, par_sort_lists};

verus! {

/// One line of a reverse index: the component `hash_val` that the corpus
/// string number `string_id` has for the index's hash function.
#[derive(Debug, Clone, Copy)]
pub struct IndexEntry {
    pub hash_val: u64,
    pub string_id: usize,
}

/// `a` comes strictly before `b` in (hash, id) order.
pub open spec fn entry_lt(a: IndexEntry, b: IndexEntry) -> bool {
    a.hash_val < b.hash_val || (a.hash_val == b.hash_val && a.string_id < b.string_id)
}

/// `a` comes before `b` in (hash, id) order, or is the same entry.
pub open spec fn entry_le(a: IndexEntry, b: IndexEntry) -> bool {
    a.hash_val < b.hash_val || (a.hash_val == b.hash_val && a.string_id <= b.string_id)
}

/// `s` is in (hash, id) order.
pub open spec fn entries_sorted(s: Seq<IndexEntry>) -> bool {
    forall|i: int, j: int| 0 <= i < j < s.len() ==> entry_le(#[trigger] s[i], #[trigger] s[j])
}

/// Compares two entries by hash value, then by string id.
pub fn compare_entries(a: &IndexEntry, b: &IndexEntry) -> (r: Ordering)
    ensures
        (r == Ordering::Less) == entry_lt(*a, *b),
        (r == Ordering::Greater) == entry_lt(*b, *a),
        (r == Ordering::Equal) == (a.hash_val == b.hash_val && a.string_id == b.string_id),
{
    if a.hash_val < b.hash_val {
        Ordering::Less
    } else if b.hash_val < a.hash_val {
        Ordering::Greater
    } else if a.string_id < b.string_id {
        Ordering::Less
    } else if b.string_id < a.string_id {
        Ordering::Greater
    } else {
        Ordering::Equal
    }
}

/// Sorts `entries` with std's `slice::sort_unstable_by`, compared by
/// [`compare_entries`], a total order.  Claimed, as std documents: the
/// result holds the same entries and is sorted in that order.
#[verifier::external_body]
fn sort_unstable_entries(entries: &mut Vec<IndexEntry>)
    ensures
        final(entries)@.to_multiset() == old(entries)@.to_multiset(),
        entries_sorted(final(entries)@),
{
    entries.sort_unstable_by(|a, b| compare_entries(a, b));
}

/// Sorts one list of a reverse index in (hash, id) order.
pub fn sort_entries(entries: &mut Vec<IndexEntry>)
    ensures
        final(entries)@.to_multiset() == old(entries)@.to_multiset(),
        entries_sorted(final(entries)@),
{
    sort_unstable_entries(entries);
}

/// The entries whose hash value is below `hash_val` come first.
pub open spec fn hash_partitioned(entries: Seq<IndexEntry>, hash_val: u64) -> bool {
    forall|i: int, j: int|
        0 <= i <= j < entries.len() && (#[trigger] entries[j]).hash_val < hash_val
            ==> (#[trigger] entries[i]).hash_val < hash_val
}

/// The list has an entry for the string number `i`.
pub open spec fn has_entry_for(list: Seq<IndexEntry>, i: int) -> bool {
    exists|k: int| 0 <= k < list.len() && #[trigger] list[k].string_id == i
}

/// `list` is the reverse index of hash function `h` over the signatures
/// `sigs`: one entry per corpus string, holding that string's component `h`,
/// in strictly increasing (hash, id) order.
pub open spec fn index_list_ok(list: Seq<IndexEntry>, sigs: Seq<Seq<u64>>, h: int) -> bool {
    &&& list.len() == sigs.len()
    &&& forall|k: int|
        0 <= k < list.len() ==> (#[trigger] list[k]).string_id < sigs.len() && list[k].hash_val
            == sigs[list[k].string_id as int][h]
    &&& forall|k: int, l: int| 0 <= k < l < list.len() ==> entry_lt(#[trigger] list[k], #[trigger] list[l])
    &&& forall|i: int| 0 <= i < sigs.len() ==> #[trigger] has_entry_for(list, i)
}

/// `index` holds the reverse index of each of the `num_hashes` hash functions.
pub open spec fn reverse_index_ok(index: Seq<Seq<IndexEntry>>, sigs: Seq<Seq<u64>>, num_hashes: nat) -> bool {
    &&& index.len() == num_hashes
    &&& forall|h: int| 0 <= h < num_hashes ==> index_list_ok(#[trigger] index[h], sigs, h)
}

/// The entries for hash function `h`, in string order.
pub open spec fn entries_in_string_order(sigs: Seq<Seq<u64>>, h: int) -> Seq<IndexEntry> {
    Seq::new(sigs.len(), |k: int| IndexEntry { hash_val: sigs[k][h], string_id: k as usize })
}

proof fn lemma_sorted_entries_form_index(sorted: Seq<IndexEntry>, sigs: Seq<Seq<u64>>, h: int)
    requires
        sorted.to_multiset() == entries_in_string_order(sigs, h).to_multiset(),
        entries_sorted(sorted),
        sigs.len() <= usize::MAX,
    ensures
        index_list_ok(sorted, sigs, h),
{
    broadcast use vstd::seq_lib::group_to_multiset_ensures;

    let built = entries_in_string_order(sigs, h);
    assert(sorted.to_multiset().len() == built.to_multiset().len());
    assert(sorted.len() == built.len());
    assert forall|k: int| 0 <= k < sorted.len() implies (#[trigger] sorted[k]).string_id < sigs.len()
        && sorted[k].hash_val == sigs[sorted[k].string_id as int][h] by {
        assert(sorted.contains(sorted[k]));
        assert(built.to_multiset().count(sorted[k]) > 0);
        assert(built.contains(sorted[k]));
    }
    assert forall|i: int| 0 <= i < sigs.len() implies #[trigger] has_entry_for(sorted, i) by {
        assert(built.contains(built[i]));
        assert(sorted.to_multiset().count(built[i]) > 0);
        assert(sorted.contains(built[i]));
        let k = choose|k: int| 0 <= k < sorted.len() && sorted[k] == built[i];
        assert(sorted[k].string_id == i);
    }
    assert(built.no_duplicates());
    built.lemma_multiset_has_no_duplicates();
    sorted.lemma_multiset_has_no_duplicates_conv();
    assert forall|k: int, l: int| 0 <= k < l < sorted.len() implies entry_lt(
        #[trigger] sorted[k],
        #[trigger] sorted[l],
    ) by {
        assert(entry_le(sorted[k], sorted[l]));
        assert(sorted[k] != sorted[l]);
    }
}

/// `p` points into the list `list` of a hash function whose query
/// component is `qh`: the entries from `p` on are not below `(qh, t)` in
/// (hash, id) order, and none of the entries before `p` holds `qh` for a
/// string numbered `t` or more.
pub open spec fn pointer_ok(list: Seq<IndexEntry>, qh: u64, t: int, p: int) -> bool {
    &&& 0 <= p <= list.len()
    &&& forall|k: int|
        p <= k < list.len() ==> (#[trigger] list[k]).hash_val > qh || (list[k].hash_val == qh
            && list[k].string_id >= t)
    &&& forall|k: int|
        0 <= k < p ==> !((#[trigger] list[k]).hash_val == qh && list[k].string_id >= t)
}

/// The entry that pointer `h` points at holds the query's component `h`.
pub open spec fn is_cand(lists: Seq<Seq<IndexEntry>>, q: Seq<u64>, ptrs: Seq<usize>, h: int) -> bool {
    ptrs[h] < lists[h].len() && lists[h][ptrs[h] as int].hash_val == q[h]
}

/// The string of the entry that pointer `h` points at.
pub open spec fn cand_id(lists: Seq<Seq<IndexEntry>>, ptrs: Seq<usize>, h: int) -> usize {
    lists[h][ptrs[h] as int].string_id
}

/// Least string among the candidates of the first `k` pointers
/// (`usize::MAX` when there is none).
pub open spec fn min_cand(lists: Seq<Seq<IndexEntry>>, q: Seq<u64>, ptrs: Seq<usize>, k: nat) -> usize
    decreases k,
{
    if k == 0 {
        usize::MAX
    } else {
        let m = min_cand(lists, q, ptrs, (k - 1) as nat);
        if is_cand(lists, q, ptrs, k - 1) && cand_id(lists, ptrs, k - 1) < m {
            cand_id(lists, ptrs, k - 1)
        } else {
            m
        }
    }
}

/// Number of the first `k` pointers whose candidate is the string `i`.
pub open spec fn count_cand(
    lists: Seq<Seq<IndexEntry>>,
    q: Seq<u64>,
    ptrs: Seq<usize>,
    k: nat,
    i: int,
) -> nat
    decreases k,
{
    if k == 0 {
        0
    } else {
        count_cand(lists, q, ptrs, (k - 1) as nat, i) + if is_cand(lists, q, ptrs, k - 1)
            && cand_id(lists, ptrs, k - 1) == i {
            1nat
        } else {
            0nat
        }
    }
}

proof fn lemma_min_cand(lists: Seq<Seq<IndexEntry>>, q: Seq<u64>, ptrs: Seq<usize>, k: nat)
    ensures
        forall|h: int|
            0 <= h < k && #[trigger] is_cand(lists, q, ptrs, h) ==> cand_id(lists, ptrs, h)
                >= min_cand(lists, q, ptrs, k),
        min_cand(lists, q, ptrs, k) == usize::MAX || exists|h: int|
            0 <= h < k && #[trigger] is_cand(lists, q, ptrs, h) && cand_id(lists, ptrs, h)
                == min_cand(lists, q, ptrs, k),
    decreases k,
{
    if k > 0 {
        lemma_min_cand(lists, q, ptrs, (k - 1) as nat);
    }
}

proof fn lemma_count_cand_present(
    lists: Seq<Seq<IndexEntry>>,
    q: Seq<u64>,
    ptrs: Seq<usize>,
    k: nat,
    i: int,
    h: int,
)
    requires
        0 <= h < k,
        is_cand(lists, q, ptrs, h),
        cand_id(lists, ptrs, h) == i,
    ensures
        count_cand(lists, q, ptrs, k, i) >= 1,
    decreases k,
{
    if h < k - 1 {
        lemma_count_cand_present(lists, q, ptrs, (k - 1) as nat, i, h);
    }
}

proof fn lemma_count_cand_absent(
    lists: Seq<Seq<IndexEntry>>,
    q: Seq<u64>,
    ptrs: Seq<usize>,
    k: nat,
    i: int,
)
    requires
        forall|h: int|
            0 <= h < k && #[trigger] is_cand(lists, q, ptrs, h) ==> cand_id(lists, ptrs, h) != i,
    ensures
        count_cand(lists, q, ptrs, k, i) == 0,
    decreases k,
{
    if k > 0 {
        lemma_count_cand_absent(lists, q, ptrs, (k - 1) as nat, i);
    }
}

proof fn lemma_count_cand_is_agreement(
    lists: Seq<Seq<IndexEntry>>,
    q: Seq<u64>,
    ptrs: Seq<usize>,
    sig: Seq<u64>,
    k: nat,
    i: int,
)
    requires
        forall|h: int|
            0 <= h < k ==> (sig[h] == q[h]) == (#[trigger] is_cand(lists, q, ptrs, h) && cand_id(
                lists,
                ptrs,
                h,
            ) == i),
    ensures
        agree_count(sig, q, k) == count_cand(lists, q, ptrs, k, i),
    decreases k,
{
    if k > 0 {
        lemma_count_cand_is_agreement(lists, q, ptrs, sig, (k - 1) as nat, i);
        assert((sig[k - 1] == q[k - 1]) == (is_cand(lists, q, ptrs, k - 1) && cand_id(lists, ptrs, k - 1) == i));
    }
}

/// For a string `i` not past any candidate, it has the query's component
/// `h` exactly when pointer `h`'s candidate is `i`.
proof fn lemma_agrees_iff_candidate(
    lists: Seq<Seq<IndexEntry>>,
    q: Seq<u64>,
    ptrs: Seq<usize>,
    sigs: Seq<Seq<u64>>,
    t: int,
    h: int,
    i: int,
)
    requires
        0 <= h < lists.len(),
        h < q.len(),
        h < ptrs.len(),
        index_list_ok(lists[h], sigs, h),
        pointer_ok(lists[h], q[h], t, ptrs[h] as int),
        0 <= t <= i < sigs.len(),
        is_cand(lists, q, ptrs, h) ==> cand_id(lists, ptrs, h) >= i,
    ensures
        (sigs[i][h] == q[h]) == (is_cand(lists, q, ptrs, h) && cand_id(lists, ptrs, h) == i),
{
    let list = lists[h];
    let p = ptrs[h] as int;
    if sigs[i][h] == q[h] {
        assert(has_entry_for(list, i));
        let k = choose|k: int| 0 <= k < list.len() && #[trigger] list[k].string_id == i;
        assert(list[k].hash_val == q[h]);
        if k < p {
            assert(!(list[k].hash_val == q[h] && list[k].string_id >= t));
        } else if k > p {
            assert(entry_lt(list[p], list[k]));
        }
    }
}

/// Moving the pointers past the entries of string `m` keeps them in step
/// with the threshold `m + 1`.
proof fn lemma_advance_pointer(list: Seq<IndexEntry>, qh: u64, t: int, m: int, p: int)
    requires
        forall|k: int, l: int| 0 <= k < l < list.len() ==> entry_lt(#[trigger] list[k], #[trigger] list[l]),
        pointer_ok(list, qh, t, p),
        t <= m,
        p < list.len() && list[p].hash_val == qh ==> list[p].string_id >= m,
    ensures
        pointer_ok(
            list,
            qh,
            m + 1,
            if p < list.len() && list[p].string_id == m {
                p + 1
            } else {
                p
            },
        ),
{
    let p2 = if p < list.len() && list[p].string_id == m {
        p + 1
    } else {
        p
    };
    assert forall|k: int| p2 <= k < list.len() implies (#[trigger] list[k]).hash_val > qh || (
    list[k].hash_val == qh && list[k].string_id >= m + 1) by {
        if k > p {
            assert(entry_lt(list[p], list[k]));
        }
    }
}

proof fn lemma_sorted_prefix_agrees(a: Seq<IndexEntry>, b: Seq<IndexEntry>, k: int)
    requires
        a.len() == b.len(),
        0 <= k < a.len(),
        forall|i: int, j: int| 0 <= i < j < a.len() ==> entry_lt(#[trigger] a[i], #[trigger] a[j]),
        forall|i: int, j: int| 0 <= i < j < b.len() ==> entry_lt(#[trigger] b[i], #[trigger] b[j]),
        forall|i: int| 0 <= i < a.len() ==> b.contains(#[trigger] a[i]),
        forall|i: int| 0 <= i < b.len() ==> a.contains(#[trigger] b[i]),
    ensures
        forall|j: int| 0 <= j <= k ==> a[j] == b[j],
    decreases k,
{
    if k > 0 {
        lemma_sorted_prefix_agrees(a, b, k - 1);
    }
    assert(b.contains(a[k]));
    assert(a.contains(b[k]));
    let l = choose|l: int| 0 <= l < b.len() && b[l] == a[k];
    let m = choose|m: int| 0 <= m < a.len() && a[m] == b[k];
    if l < k {
        assert(a[l] == b[l]);
        assert(entry_lt(a[l], a[k]));
    }
    if m < k {
        assert(a[m] == b[m]);
        assert(entry_lt(b[m], b[k]));
    }
    if l > k && m > k {
        assert(entry_lt(b[k], b[l]));
        assert(entry_lt(a[k], a[m]));
    }
}

proof fn lemma_index_list_unique(a: Seq<IndexEntry>, b: Seq<IndexEntry>, sigs: Seq<Seq<u64>>, h: int)
    requires
        index_list_ok(a, sigs, h),
        index_list_ok(b, sigs, h),
    ensures
        a == b,
{
    assert forall|i: int| 0 <= i < a.len() implies b.contains(#[trigger] a[i]) by {
        let id = a[i].string_id as int;
        assert(has_entry_for(b, id));
        let l = choose|l: int| 0 <= l < b.len() && #[trigger] b[l].string_id == id;
        assert(b[l] == a[i]);
    }
    assert forall|i: int| 0 <= i < b.len() implies a.contains(#[trigger] b[i]) by {
        let id = b[i].string_id as int;
        assert(has_entry_for(a, id));
        let l = choose|l: int| 0 <= l < a.len() && #[trigger] a[l].string_id == id;
        assert(a[l] == b[i]);
    }
    if a.len() > 0 {
        lemma_sorted_prefix_agrees(a, b, a.len() - 1);
    }
    assert(a =~= b);
}

/// The reverse indexes are determined by the signatures: two sets of
/// reverse indexes over the same signatures are equal.
pub proof fn lemma_reverse_index_unique(
    index1: Seq<Seq<IndexEntry>>,
    index2: Seq<Seq<IndexEntry>>,
    sigs: Seq<Seq<u64>>,
    num_hashes: nat,
)
    requires
        reverse_index_ok(index1, sigs, num_hashes),
        reverse_index_ok(index2, sigs, num_hashes),
    ensures
        index1 == index2,
{
    assert forall|h: int| 0 <= h < num_hashes implies index1[h] == index2[h] by {
        lemma_index_list_unique(index1[h], index2[h], sigs, h);
    }
    assert(index1 =~= index2);
}

/// Search structure over a static corpus: for each of `num_hashes` hash
/// functions, the corpus strings' components of that function in (hash, id)
/// order.
#[derive(Debug)]
pub struct BinaryTokenFuzzer {
    strings: Vec<String>,
    num_hashes: usize,
    hash_seeds: Vec<u64>,
    reverse_index: Vec<Vec<IndexEntry>>,
    min_token_length: usize,
    max_token_length: usize,
}

impl BinaryTokenFuzzer {
    /// The corpus strings, in the order they were given.
    pub closed spec fn corpus(&self) -> Seq<Seq<char>> {
        self.strings@.map_values(|s: String| s@)
    }

    /// The number of hash functions.
    pub closed spec fn hash_count(&self) -> nat {
        self.num_hashes as nat
    }

    /// The seeds of the hash functions.
    pub closed spec fn seeds(&self) -> Seq<u64> {
        self.hash_seeds@
    }

    /// Tokens are longer than this many bytes.
    pub closed spec fn min_len(&self) -> nat {
        self.min_token_length as nat
    }

    /// Tokens are at most this many bytes long.
    pub closed spec fn max_len(&self) -> nat {
        self.max_token_length as nat
    }

    /// The reverse index of each hash function.
    pub closed spec fn index(&self) -> Seq<Seq<IndexEntry>> {
        self.reverse_index@.map_values(|l: Vec<IndexEntry>| l@)
    }

    /// The signatures of the corpus strings.
    pub open spec fn signatures(&self) -> Seq<Seq<u64>> {
        corpus_signatures(self.corpus(), self.seeds(), self.min_len(), self.max_len())
    }

    /// The signature of a query string.
    pub open spec fn query_signature(&self, s: Seq<char>) -> Seq<u64> {
        string_signature(s, self.seeds(), self.min_len(), self.max_len())
    }

    #[verifier::type_invariant]
    closed spec fn well_formed(&self) -> bool {
        &&& self.num_hashes > 0
        &&& self.hash_seeds@ == seeds_spec(self.num_hashes as nat, SEED_BASE)
        &&& reverse_index_ok(self.index(), self.signatures(), self.num_hashes as nat)
    }

    /// The corpus strings.
    pub fn strings(&self) -> (r: &Vec<String>)
        ensures
            r@.map_values(|s: String| s@) == self.corpus(),
    {
        &self.strings
    }

    /// The number of hash functions.
    pub fn num_hashes(&self) -> (r: usize)
        ensures
            r == self.hash_count(),
            r > 0,
    {
        proof {
            use_type_invariant(self);
        }
        self.num_hashes
    }

    /// The seeds of the hash functions.
    pub fn hash_seeds(&self) -> (r: &Vec<u64>)
        ensures
            r@ == self.seeds(),
            r@ == seeds_spec(self.hash_count(), SEED_BASE),
    {
        proof {
            use_type_invariant(self);
        }
        &self.hash_seeds
    }

    /// The exclusive lower bound on token lengths.
    pub fn min_token_length(&self) -> (r: usize)
        ensures
            r == self.min_len(),
    {
        self.min_token_length
    }

    /// The inclusive upper bound on token lengths.
    pub fn max_token_length(&self) -> (r: usize)
        ensures
            r == self.max_len(),
    {
        self.max_token_length
    }

    /// The reverse index of each hash function.
    pub fn reverse_index(&self) -> (r: &Vec<Vec<IndexEntry>>)
        ensures
            r@.map_values(|l: Vec<IndexEntry>| l@) == self.index(),
            reverse_index_ok(self.index(), self.signatures(), self.hash_count()),
    {
        proof {
            use_type_invariant(self);
        }
        &self.reverse_index
    }

    /// Two searches built over the same corpus, hash count and token bounds
    /// hold the same seeds and the same reverse indexes, entry for entry.
    pub proof fn lemma_build_is_deterministic(a: &Self, b: &Self)
        requires
            a.corpus() == b.corpus(),
            a.hash_count() == b.hash_count(),
            a.seeds() == seeds_spec(a.hash_count(), SEED_BASE),
            b.seeds() == seeds_spec(b.hash_count(), SEED_BASE),
            a.min_len() == b.min_len(),
            a.max_len() == b.max_len(),
            reverse_index_ok(a.index(), a.signatures(), a.hash_count()),
            reverse_index_ok(b.index(), b.signatures(), b.hash_count()),
        ensures
            a.seeds() == b.seeds(),
            a.index() == b.index(),
    {
        lemma_reverse_index_unique(a.index(), b.index(), a.signatures(), a.hash_count());
    }

    /// Position of the first entry of `entries` whose hash value is not
    /// below `hash_val`, found by binary search.  When the entries below
    /// `hash_val` do not all come first, the position is only known to lie
    /// within the slice.
    pub fn find_first_hash(entries: &[IndexEntry], hash_val: u64) -> (r: usize)
        ensures
            r <= entries@.len(),
            hash_partitioned(entries@, hash_val) ==> forall|k: int|
                0 <= k < r ==> (#[trigger] entries@[k]).hash_val < hash_val,
            hash_partitioned(entries@, hash_val) ==> forall|k: int|
                r <= k < entries@.len() ==> (#[trigger] entries@[k]).hash_val >= hash_val,
    {
        let mut lo: usize = 0;
        let mut hi: usize = entries.len();
        while lo < hi
            invariant
                lo <= hi <= entries@.len(),
                hash_partitioned(entries@, hash_val) ==> forall|k: int|
                    0 <= k < lo ==> (#[trigger] entries@[k]).hash_val < hash_val,
                hash_partitioned(entries@, hash_val) ==> forall|k: int|
                    hi <= k < entries@.len() ==> (#[trigger] entries@[k]).hash_val >= hash_val,
            decreases hi - lo,
        {
            let mid = lo + (hi - lo) / 2;
            if entries[mid].hash_val < hash_val {
                lo = mid + 1;
            } else {
                hi = mid;
            }
        }
        lo
    }

    /// Builds the search structure over `strings`, with `num_hashes` hash
    /// functions and tokens of `(min_token_length, max_token_length]` bytes.
    pub fn new(
        strings: Vec<String>,
        num_hashes: usize,
        min_token_length: usize,
        max_token_length: usize,
    ) -> (r: Self)
        requires
            num_hashes > 0,
            strings@.len() * num_hashes <= usize::MAX,
        ensures
            r.corpus() == strings@.map_values(|s: String| s@),
            r.hash_count() == num_hashes,
            r.seeds() == seeds_spec(num_hashes as nat, SEED_BASE),
            r.min_len() == min_token_length,
            r.max_len() == max_token_length,
            reverse_index_ok(r.index(), r.signatures(), num_hashes as nat),
    {
        let hash_seeds = generate_seeds(num_hashes, SEED_BASE);
        let n = strings.len();
        let ghost lo = min_token_length as nat;
        let ghost hi = max_token_length as nat;
        let ghost corpus = strings@.map_values(|s: String| s@);
        let ghost sigs = corpus_signatures(corpus, hash_seeds@, lo, hi);
        let ghost w = num_hashes as int;

        // All signatures, row after row.
        let mut signatures = vec![u64::MAX; n * num_hashes];
        assert forall|k: int| 0 <= k < signatures@.len() implies signatures@[k] == u64::MAX by {
            assert(vstd::pervasive::cloned(u64::MAX, signatures@[k]));
        }
        par_fill_signatures(
            &mut signatures,
            strings.as_slice(),
            hash_seeds.as_slice(),
            num_hashes,
            min_token_length,
            max_token_length,
        );
        assert forall|i: int, j: int| 0 <= i < sigs.len() && 0 <= j < w implies #[trigger] signatures@[cell(
            i,
            w,
            j,
        )] == sigs[i][j] by {
            lemma_cell_in_table(i, n as int, w, j);
        }
        assert(flat_signatures_ok(signatures@, sigs, w));

        // One list per hash function, in string order.
        let mut reverse_index: Vec<Vec<IndexEntry>> = Vec::new();
        for h in 0..num_hashes
            invariant
                n == sigs.len(),
                w == num_hashes,
                n * num_hashes <= usize::MAX,
                flat_signatures_ok(signatures@, sigs, w),
                reverse_index@.len() == h,
                forall|h2: int|
                    0 <= h2 < h ==> (#[trigger] reverse_index@[h2])@ == entries_in_string_order(
                        sigs,
                        h2,
                    ),
        {
            let mut list: Vec<IndexEntry> = Vec::new();
            for string_id in 0..n
                invariant
                    n == sigs.len(),
                    w == num_hashes,
                    h < num_hashes,
                    n * num_hashes <= usize::MAX,
                    flat_signatures_ok(signatures@, sigs, w),
                    list@.len() == string_id,
                    forall|k: int|
                        0 <= k < string_id ==> #[trigger] list@[k] == (IndexEntry {
                            hash_val: sigs[k][h as int],
                            string_id: k as usize,
                        }),
            {
                proof {
                    lemma_cell_in_table(string_id as int, n as int, w, h as int);
                }
                let hash_val = signatures[string_id * num_hashes + h];
                assert(hash_val == sigs[string_id as int][h as int]);
                list.push(IndexEntry { hash_val, string_id });
            }
            assert(list@ =~= entries_in_string_order(sigs, h as int));
            reverse_index.push(list);
        }

        // Each list in (hash, id) order.
        par_sort_lists(&mut reverse_index);
        let ghost index = reverse_index@.map_values(|l: Vec<IndexEntry>| l@);
        assert forall|h: int| 0 <= h < num_hashes implies index_list_ok(
            #[trigger] index[h],
            sigs,
            h,
        ) by {
            lemma_sorted_entries_form_index(reverse_index@[h]@, sigs, h);
        }
        BinaryTokenFuzzer {
            strings,
            num_hashes,
            hash_seeds,
            reverse_index,
            min_token_length,
            max_token_length,
        }
    }

    /// The corpus string closest to `s`: the first one whose signature
    /// shares the most components with the signature of `s` (the first
    /// string when none shares any).  Fails when the corpus is empty.
    pub fn match_closest(&self, s: &String) -> (r: Result<String, String>)
        ensures
            match r {
                Ok(v) => self.corpus().len() > 0 && v@ == self.corpus()[closest_index(
                    self.signatures(),
                    self.query_signature(s@),
                ) as int],
                Err(e) => self.corpus().len() == 0 && e@ == empty_corpus_message(),
            },
    {
        proof {
            use_type_invariant(self);
        }
        if self.strings.len() == 0 {
            return Err("TokenFuzzer contains no strings to match against".to_string());
        }
        let nh = self.num_hashes;
        let n = self.strings.len();
        let ghost sigs = self.signatures();
        let ghost lists = self.index();

        // 1. The query's signature.
        let mut query_sig = vec![u64::MAX; nh];
        assert forall|k: int| 0 <= k < query_sig@.len() implies query_sig@[k] == u64::MAX by {
            assert(vstd::pervasive::cloned(u64::MAX, query_sig@[k]));
        }
        compute_signature(
            s,
            self.hash_seeds.as_slice(),
            query_sig.as_mut_slice(),
            self.min_token_length,
            self.max_token_length,
        );
        let ghost q = query_sig@;
        assert(q =~= self.query_signature(s@));

        // 2. For each hash function, the first entry not below the query's component.
        let mut first_match_indices: Vec<usize> = Vec::new();
        for h in 0..nh
            invariant
                nh == self.num_hashes,
                n == sigs.len(),
                q == query_sig@,
                q.len() == nh,
                lists == self.index(),
                reverse_index_ok(lists, sigs, nh as nat),
                first_match_indices@.len() == h,
                forall|h2: int|
                    0 <= h2 < h ==> pointer_ok(
                        #[trigger] lists[h2],
                        q[h2],
                        0,
                        first_match_indices@[h2] as int,
                    ),
        {
            let entries = self.reverse_index[h].as_slice();
            assert(entries@ == lists[h as int]);
            assert(index_list_ok(lists[h as int], sigs, h as int));
            assert forall|i: int, j: int|
                0 <= i <= j < entries@.len() && (#[trigger] entries@[j]).hash_val
                    < query_sig@[h as int] implies (#[trigger] entries@[i]).hash_val
                < query_sig@[h as int] by {
                if i < j {
                    assert(entry_lt(entries@[i], entries@[j]));
                }
            }
            assert(hash_partitioned(entries@, query_sig@[h as int]));
            let found_idx = Self::find_first_hash(entries, query_sig[h]);
            first_match_indices.push(found_idx);
        }

        // 3. Merge the runs that hold the query's components, string by string.
        let ghost scores = corpus_scores(sigs, q);
        let mut best_score: usize = 0;
        let mut best_index: usize = 0;
        let ghost mut t: int = 0;
        loop
            invariant
                nh == self.num_hashes,
                n == self.strings@.len(),
                n == sigs.len(),
                n > 0,
                q == query_sig@,
                q.len() == nh,
                lists == self.index(),
                reverse_index_ok(lists, sigs, nh as nat),
                scores == corpus_scores(sigs, q),
                first_match_indices@.len() == nh,
                0 <= t <= n,
                forall|h: int|
                    0 <= h < nh ==> pointer_ok(
                        #[trigger] lists[h],
                        q[h],
                        t,
                        first_match_indices@[h] as int,
                    ),
                best_index == first_best(scores, t as nat).0,
                best_score == first_best(scores, t as nat).1,
            ensures
                best_index == first_best(scores, n as nat).0,
            decreases n - t,
        {
            let ghost ptrs = first_match_indices@;
            let mut current_score: usize = 0;
            let mut min_string_idx: usize = usize::MAX;
            for h in 0..nh
                invariant
                    nh == self.num_hashes,
                    n == sigs.len(),
                    q == query_sig@,
                    q.len() == nh,
                    lists == self.index(),
                    reverse_index_ok(lists, sigs, nh as nat),
                    first_match_indices@ == ptrs,
                    ptrs.len() == nh,
                    min_string_idx == min_cand(lists, q, ptrs, h as nat),
                    current_score == count_cand(lists, q, ptrs, h as nat, min_string_idx as int),
                    current_score <= h,
            {
                let pointer = first_match_indices[h];
                if pointer < n {
                    assert(index_list_ok(lists[h as int], sigs, h as int));
                    let entry = self.reverse_index[h][pointer];
                    assert(entry == lists[h as int][pointer as int]);
                    if entry.hash_val == query_sig[h] && entry.string_id <= min_string_idx {
                        if entry.string_id < min_string_idx {
                            proof {
                                lemma_min_cand(lists, q, ptrs, h as nat);
                                lemma_count_cand_absent(
                                    lists,
                                    q,
                                    ptrs,
                                    h as nat,
                                    entry.string_id as int,
                                );
                            }
                            min_string_idx = entry.string_id;
                            current_score = 0;
                        }
                        current_score += 1;
                    }
                }
            }
            let ghost m = min_string_idx as int;
            proof {
                lemma_min_cand(lists, q, ptrs, nh as nat);
                if current_score == 0 {
                    // No pointer has a candidate: no later string shares a component.
                    if m != usize::MAX {
                        let h = choose|h: int|
                            0 <= h < nh && #[trigger] is_cand(lists, q, ptrs, h) && cand_id(
                                lists,
                                ptrs,
                                h,
                            ) == m;
                        lemma_count_cand_present(lists, q, ptrs, nh as nat, m, h);
                    }
                    assert forall|h: int| 0 <= h < nh implies !#[trigger] is_cand(
                        lists,
                        q,
                        ptrs,
                        h,
                    ) by {
                        if is_cand(lists, q, ptrs, h) {
                            assert(index_list_ok(lists[h], sigs, h));
                            lemma_count_cand_present(
                                lists,
                                q,
                                ptrs,
                                nh as nat,
                                cand_id(lists, ptrs, h) as int,
                                h,
                            );
                        }
                    }
                    assert forall|i: int| t <= i < n implies scores[i] == 0 by {
                        assert forall|h: int| 0 <= h < nh implies (sigs[i][h] == q[h]) == (
                        #[trigger] is_cand(lists, q, ptrs, h) && cand_id(lists, ptrs, h) == i) by {
                            lemma_agrees_iff_candidate(lists, q, ptrs, sigs, t, h, i);
                        }
                        lemma_count_cand_is_agreement(lists, q, ptrs, sigs[i], nh as nat, i);
                        lemma_count_cand_absent(lists, q, ptrs, nh as nat, i);
                    }
                    lemma_first_best_zeros(scores, t as nat, n as nat);
                } else {
                    // The candidates' least string `m`: every string from `t` up to `m`
                    // shares no component, and `m` shares `current_score` of them.
                    if m == usize::MAX {
                        assert forall|h: int| 0 <= h < nh && #[trigger] is_cand(
                            lists,
                            q,
                            ptrs,
                            h,
                        ) implies cand_id(lists, ptrs, h) != m by {
                            assert(index_list_ok(lists[h], sigs, h));
                        }
                        lemma_count_cand_absent(lists, q, ptrs, nh as nat, m);
                    }
                    let h0 = choose|h: int|
                        0 <= h < nh && #[trigger] is_cand(lists, q, ptrs, h) && cand_id(
                            lists,
                            ptrs,
                            h,
                        ) == m;
                    assert(index_list_ok(lists[h0], sigs, h0));
                    assert(m < n);
                    assert(m >= t);
                    assert forall|i: int| t <= i < m implies scores[i] == 0 by {
                        assert forall|h: int| 0 <= h < nh implies (sigs[i][h] == q[h]) == (
                        #[trigger] is_cand(lists, q, ptrs, h) && cand_id(lists, ptrs, h) == i) by {
                            lemma_agrees_iff_candidate(lists, q, ptrs, sigs, t, h, i);
                        }
                        lemma_count_cand_is_agreement(lists, q, ptrs, sigs[i], nh as nat, i);
                        lemma_count_cand_absent(lists, q, ptrs, nh as nat, i);
                    }
                    lemma_first_best_zeros(scores, t as nat, m as nat);
                    assert forall|h: int| 0 <= h < nh implies (sigs[m][h] == q[h]) == (
                    #[trigger] is_cand(lists, q, ptrs, h) && cand_id(lists, ptrs, h) == m) by {
                        lemma_agrees_iff_candidate(lists, q, ptrs, sigs, t, h, m);
                    }
                    lemma_count_cand_is_agreement(lists, q, ptrs, sigs[m], nh as nat, m);
                    assert(scores[m] == current_score);
                }
            }
            if current_score > best_score {
                best_score = current_score;
                best_index = min_string_idx;
            }

            // Move past the entries of string `m`.
            for h in 0..nh
                invariant
                    nh == self.num_hashes,
                    n == sigs.len(),
                    lists == self.index(),
                    reverse_index_ok(lists, sigs, nh as nat),
                    ptrs.len() == nh,
                    first_match_indices@.len() == nh,
                    min_string_idx == m,
                    forall|h2: int|
                        0 <= h2 < h ==> #[trigger] first_match_indices@[h2] == (if ptrs[h2] < n
                            && lists[h2][ptrs[h2] as int].string_id == m {
                            (ptrs[h2] + 1) as usize
                        } else {
                            ptrs[h2]
                        }),
                    forall|h2: int| h <= h2 < nh ==> #[trigger] first_match_indices@[h2] == ptrs[h2],
            {
                let pointer = first_match_indices[h];
                if pointer < n {
                    assert(index_list_ok(lists[h as int], sigs, h as int));
                    let entry = self.reverse_index[h][pointer];
                    assert(entry == lists[h as int][pointer as int]);
                    if entry.string_id == min_string_idx {
                        first_match_indices.set(h, pointer + 1);
                    }
                }
            }
            if current_score == 0 {
                break;
            }
            proof {
                assert forall|h: int| 0 <= h < nh implies pointer_ok(
                    #[trigger] lists[h],
                    q[h],
                    m + 1,
                    first_match_indices@[h] as int,
                ) by {
                    assert(index_list_ok(lists[h], sigs, h));
                    lemma_min_cand(lists, q, ptrs, nh as nat);
                    assert(is_cand(lists, q, ptrs, h) ==> cand_id(lists, ptrs, h) >= m);
                    lemma_advance_pointer(lists[h], q[h], t, m, ptrs[h] as int);
                }
                t = m + 1;
            }
        }
        proof {
            lemma_first_best_is_first_maximum(scores, n as nat);
        }
        Ok(self.strings[best_index].clone())
    }
}

} // verus!
