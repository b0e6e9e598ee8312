//! Search through groups of four signature components: a corpus string is
//! scored only when it agrees with the query on a whole group.
use vstd::prelude::*;
use std::cmp::Ordering;
use crate::hashing::{
    cell, compute_signature, flat_signatures_ok, generate_seeds, lemma_cell_in_table,
    lemma_flat_table_concat, lemma_flat_table_unique, seeds_spec, string_signature, SEED_BASE,
};
use crate::scoring::{
    lemma_table_signatures_full, table_signatures,
    agree_count, closest_index, corpus_signatures, empty_corpus_message, lemma_agree_count_bound,
    lemma_agree_count_full, lemma_agree_count_full_means_equal, lemma_closest_is_first_maximum, score,
};
use crate::parallel::{par_build_groups, par_fill_signatures};

verus! {

/// Number of signature components in a group.
pub const GROUP_SIZE: usize = 4;

/// Keys compare in lexicographic order; `a` comes strictly before `b`.
pub open spec fn key_lt(a: Seq<u64>, b: Seq<u64>) -> bool {
    a[0] < b[0] || (a[0] == b[0] && (a[1] < b[1] || (a[1] == b[1] && (a[2] < b[2] || (a[2]
        == b[2] && a[3] < b[3])))))
}

/// `a` comes before `b` in key order, or equals it.
pub open spec fn key_le(a: Seq<u64>, b: Seq<u64>) -> bool {
    key_lt(a, b) || a == b
}

/// The key of group `g` of a signature: its components `4g` to `4g + 3`.
pub open spec fn group_key(sig: Seq<u64>, g: int) -> Seq<u64> {
    sig.subrange(4 * g, 4 * g + 4)
}

/// The key of group `g` of row `i` of a table whose rows are `width` long.
pub open spec fn table_key(table: Seq<u64>, width: int, i: int, g: int) -> Seq<u64> {
    table.subrange(cell(i, width, 4 * g), cell(i, width, 4 * g) + 4)
}

/// Row `i` of the table has a group `g`.
pub open spec fn row_group_in_table(table: Seq<u64>, width: int, i: int, g: int) -> bool {
    0 <= i && 0 <= g && cell(i, width, 4 * g) + 4 <= table.len()
}

/// Rounds `n` up to a multiple of [`GROUP_SIZE`], and 0 up to `GROUP_SIZE`.
pub open spec fn rounded_hash_count(n: nat) -> nat {
    if n == 0 {
        4
    } else {
        ((n + 3) / 4 * 4) as nat
    }
}

/// The least multiple of [`GROUP_SIZE`] that is at least `n` and at least
/// `GROUP_SIZE`.
pub fn round_up_to_multiple_of_group(n: usize) -> (r: usize)
    requires
        n <= usize::MAX - 3,
    ensures
        r == rounded_hash_count(n as nat),
        r % 4 == 0,
        r >= 4,
        r >= n,
        n > 0 ==> r < n + 4,
{
    if n == 0 {
        GROUP_SIZE
    } else {
        ((n + (GROUP_SIZE - 1)) / GROUP_SIZE) * GROUP_SIZE
    }
}

/// [`table_key`] for machine-sized arguments.
pub open spec fn row_key(table: Seq<u64>, width: usize, i: usize, g: usize) -> Seq<u64> {
    table_key(table, width as int, i as int, g as int)
}

/// [`row_group_in_table`] for machine-sized arguments.
pub open spec fn row_has_group(table: Seq<u64>, width: usize, i: usize, g: usize) -> bool {
    row_group_in_table(table, width as int, i as int, g as int)
}

/// The four components of `table` from position `base` on.
pub open spec fn key_at(table: Seq<u64>, base: usize) -> Seq<u64> {
    table.subrange(base as int, base as int + 4)
}

proof fn lemma_key_lt_at(ka: Seq<u64>, kb: Seq<u64>, k: usize)
    requires
        0 <= k < 4,
        forall|j: int| 0 <= j < k ==> ka[j] == kb[j],
        ka[k as int] < kb[k as int],
    ensures
        key_lt(ka, kb),
        !key_lt(kb, ka),
        ka != kb,
{
    if k > 0 {
        assert(ka[0] == kb[0]);
    }
    if k > 1 {
        assert(ka[1] == kb[1]);
    }
    if k > 2 {
        assert(ka[2] == kb[2]);
    }
}

/// Component `k` of a key.
pub open spec fn key_entry(key: Seq<u64>, k: usize) -> u64 {
    key[k as int]
}

/// Compares the keys of group `group` of rows `a` and `b` of `tokencache`.
pub fn compare_group(tokencache: &[u64], num_hashes: usize, group: usize, a: usize, b: usize) -> (r:
    Ordering)
    requires
        row_has_group(tokencache@, num_hashes, a, group),
        row_has_group(tokencache@, num_hashes, b, group),
    ensures
        (r == Ordering::Less) == key_lt(
            row_key(tokencache@, num_hashes, a, group),
            row_key(tokencache@, num_hashes, b, group),
        ),
        (r == Ordering::Greater) == key_lt(
            row_key(tokencache@, num_hashes, b, group),
            row_key(tokencache@, num_hashes, a, group),
        ),
        (r == Ordering::Equal) == (row_key(tokencache@, num_hashes, a, group) == row_key(
            tokencache@,
            num_hashes,
            b,
            group,
        )),
{
    let len = tokencache.len();
    let base_a = a * num_hashes + group * GROUP_SIZE;
    let base_b = b * num_hashes + group * GROUP_SIZE;
    let ghost ka = key_at(tokencache@, base_a);
    let ghost kb = key_at(tokencache@, base_b);
    assert(ka == row_key(tokencache@, num_hashes, a, group));
    assert(kb == row_key(tokencache@, num_hashes, b, group));
    for k in 0..GROUP_SIZE
        invariant
            len == tokencache@.len(),
            base_a + 4 <= tokencache@.len(),
            base_b + 4 <= tokencache@.len(),
            ka == key_at(tokencache@, base_a),
            kb == key_at(tokencache@, base_b),
            ka == row_key(tokencache@, num_hashes, a, group),
            kb == row_key(tokencache@, num_hashes, b, group),
            forall|j: int| 0 <= j < k ==> ka[j] == kb[j],
    {
        let va = tokencache[base_a + k];
        let vb = tokencache[base_b + k];
        assert(va == key_entry(ka, k) && vb == key_entry(kb, k));
        if va < vb {
            proof {
                lemma_key_lt_at(ka, kb, k);
            }
            return Ordering::Less;
        } else if va > vb {
            proof {
                lemma_key_lt_at(kb, ka, k);
            }
            return Ordering::Greater;
        }
    }
    assert(ka =~= kb);
    Ordering::Equal
}

/// The key of group `group` of row `idx` of `tokencache`.
pub fn group_key_from_cache(tokencache: &[u64], num_hashes: usize, group: usize, idx: usize) -> (r:
    [u64; GROUP_SIZE])
    requires
        row_group_in_table(tokencache@, num_hashes as int, idx as int, group as int),
    ensures
        r@ == table_key(tokencache@, num_hashes as int, idx as int, group as int),
{
    let len = tokencache.len();
    let base = idx * num_hashes + group * GROUP_SIZE;
    let mut key = [0u64; GROUP_SIZE];
    for i in 0..GROUP_SIZE
        invariant
            len == tokencache@.len(),
            base + 4 <= tokencache@.len(),
            key@.len() == 4,
            forall|j: int| 0 <= j < i ==> key@[j] == tokencache@[base + j],
    {
        key[i] = tokencache[base + i];
    }
    assert(key@ =~= table_key(tokencache@, num_hashes as int, idx as int, group as int));
    key
}

/// The key of group `group` of the query signature `query_sig`.
pub fn group_key_from_query(query_sig: &[u64], group: usize) -> (r: [u64; GROUP_SIZE])
    requires
        4 * group + 4 <= query_sig@.len(),
    ensures
        r@ == group_key(query_sig@, group as int),
{
    let len = query_sig.len();
    let base = group * GROUP_SIZE;
    let mut key = [0u64; GROUP_SIZE];
    for i in 0..GROUP_SIZE
        invariant
            base == 4 * group,
            len == query_sig@.len(),
            base + 4 <= query_sig@.len(),
            key@.len() == 4,
            forall|j: int| 0 <= j < i ==> key@[j] == query_sig@[base + j],
    {
        key[i] = query_sig[base + i];
    }
    assert(key@ =~= group_key(query_sig@, group as int));
    key
}

/// Whether row `idx` of `tokencache` has the key `key` in group `group`.
pub fn group_key_matches_cache(
    tokencache: &[u64],
    num_hashes: usize,
    group: usize,
    idx: usize,
    key: &[u64; GROUP_SIZE],
) -> (r: bool)
    requires
        row_group_in_table(tokencache@, num_hashes as int, idx as int, group as int),
    ensures
        r == (table_key(tokencache@, num_hashes as int, idx as int, group as int) == key@),
{
    let len = tokencache.len();
    let base = idx * num_hashes + group * GROUP_SIZE;
    let ghost k = table_key(tokencache@, num_hashes as int, idx as int, group as int);
    for i in 0..GROUP_SIZE
        invariant
            len == tokencache@.len(),
            base + 4 <= tokencache@.len(),
            k == tokencache@.subrange(base as int, base + 4),
            k == table_key(tokencache@, num_hashes as int, idx as int, group as int),
            key@.len() == 4,
            forall|j: int| 0 <= j < i ==> k[j] == key@[j],
    {
        if tokencache[base + i] != key[i] {
            assert(k[i as int] != key@[i as int]);
            return false;
        }
    }
    assert(k =~= key@);
    true
}

/// One key of a group's key map: the key and the first position in the
/// group's sorted order whose string has it.
#[derive(Debug, Clone, Copy)]
pub struct GroupStart {
    pub key: [u64; GROUP_SIZE],
    pub start: usize,
}

/// The keys of group `g` of the `n` rows of a table.
pub open spec fn table_keys(table: Seq<u64>, width: int, n: nat, g: int) -> Seq<Seq<u64>> {
    Seq::new(n, |i: int| table_key(table, width, i, g))
}

/// The keys of group `g` of signatures.
pub open spec fn signature_keys(sigs: Seq<Seq<u64>>, g: int) -> Seq<Seq<u64>> {
    Seq::new(sigs.len(), |i: int| group_key(sigs[i], g))
}

/// `order` lists string `i` at some position.
pub open spec fn has_position(order: Seq<usize>, i: int) -> bool {
    exists|k: int| 0 <= k < order.len() && #[trigger] order[k] == i
}

/// `order` lists every string once, in increasing (key, string) order,
/// where `keys[i]` is the key of string `i`.
pub open spec fn group_order_ok(keys: Seq<Seq<u64>>, order: Seq<usize>) -> bool {
    &&& order.len() == keys.len()
    &&& forall|k: int| 0 <= k < order.len() ==> #[trigger] order[k] < keys.len()
    &&& forall|i: int| 0 <= i < keys.len() ==> #[trigger] has_position(order, i)
    &&& forall|k: int, l: int|
        0 <= k < l < order.len() ==> key_lt(keys[#[trigger] order[k] as int], keys[#[trigger] order[l] as int])
            || (keys[order[k] as int] == keys[order[l] as int] && order[k] < order[l])
}

/// Some entry of `starts` has the key `key`.
pub open spec fn has_start(starts: Seq<GroupStart>, key: Seq<u64>) -> bool {
    exists|e: int| 0 <= e < starts.len() && (#[trigger] starts[e]).key@ == key
}

/// `starts` maps each key of the group to the first position of `order`
/// whose string has it, in increasing key order.
pub open spec fn group_starts_ok(keys: Seq<Seq<u64>>, order: Seq<usize>, starts: Seq<GroupStart>) -> bool {
    &&& forall|e: int|
        0 <= e < starts.len() ==> {
            let st = (#[trigger] starts[e]).start as int;
            &&& st < order.len()
            &&& keys[order[st] as int] == starts[e].key@
            &&& (st == 0 || keys[order[st - 1] as int] != starts[e].key@)
        }
    &&& forall|e: int, f: int|
        0 <= e < f < starts.len() ==> key_lt((#[trigger] starts[e]).key@, (#[trigger] starts[f]).key@)
    &&& forall|k: int| 0 <= k < order.len() ==> #[trigger] has_start(starts, keys[order[k] as int])
}

proof fn lemma_group_order_prefix_agrees(keys: Seq<Seq<u64>>, a: Seq<usize>, b: Seq<usize>, k: int)
    requires
        group_order_ok(keys, a),
        group_order_ok(keys, b),
        0 <= k < a.len(),
    ensures
        forall|j: int| 0 <= j <= k ==> a[j] == b[j],
    decreases k,
{
    if k > 0 {
        lemma_group_order_prefix_agrees(keys, a, b, k - 1);
    }
    let x = a[k] as int;
    let y = b[k] as int;
    assert(has_position(b, x));
    assert(has_position(a, y));
    let l = choose|l: int| 0 <= l < b.len() && #[trigger] b[l] == x;
    let m = choose|m: int| 0 <= m < a.len() && #[trigger] a[m] == y;
    if l < k {
        assert(a[l] == b[l]);
        assert(key_lt(keys[a[l] as int], keys[a[k] as int]) || (keys[a[l] as int] == keys[a[k] as int]
            && a[l] < a[k]));
    }
    if m < k {
        assert(a[m] == b[m]);
        assert(key_lt(keys[b[m] as int], keys[b[k] as int]) || (keys[b[m] as int] == keys[b[k] as int]
            && b[m] < b[k]));
    }
    if l > k && m > k {
        assert(key_lt(keys[b[k] as int], keys[b[l] as int]) || (keys[b[k] as int] == keys[b[l] as int]
            && b[k] < b[l]));
        assert(key_lt(keys[a[k] as int], keys[a[m] as int]) || (keys[a[k] as int] == keys[a[m] as int]
            && a[k] < a[m]));
    }
}

/// A group's order is determined by the strings' keys: two orders of the
/// same keys are equal.
pub proof fn lemma_group_order_unique(keys: Seq<Seq<u64>>, a: Seq<usize>, b: Seq<usize>)
    requires
        group_order_ok(keys, a),
        group_order_ok(keys, b),
    ensures
        a == b,
{
    if a.len() > 0 {
        lemma_group_order_prefix_agrees(keys, a, b, a.len() - 1);
    }
    assert(a =~= b);
}

proof fn lemma_start_keys_prefix_agree(
    keys: Seq<Seq<u64>>,
    order: Seq<usize>,
    s1: Seq<GroupStart>,
    s2: Seq<GroupStart>,
    k: int,
)
    requires
        group_starts_ok(keys, order, s1),
        group_starts_ok(keys, order, s2),
        0 <= k < s1.len(),
        k < s2.len(),
    ensures
        forall|j: int| 0 <= j <= k ==> s1[j].key@ == s2[j].key@,
    decreases k,
{
    if k > 0 {
        lemma_start_keys_prefix_agree(keys, order, s1, s2, k - 1);
    }
    let st1 = s1[k].start as int;
    let st2 = s2[k].start as int;
    assert(has_start(s2, keys[order[st1] as int]));
    assert(has_start(s1, keys[order[st2] as int]));
    let l = choose|l: int| 0 <= l < s2.len() && (#[trigger] s2[l]).key@ == keys[order[st1] as int];
    let m = choose|m: int| 0 <= m < s1.len() && (#[trigger] s1[m]).key@ == keys[order[st2] as int];
    if l < k {
        assert(s1[l].key@ == s2[l].key@);
        assert(key_lt(s1[l].key@, s1[k].key@));
    }
    if m < k {
        assert(s1[m].key@ == s2[m].key@);
        assert(key_lt(s2[m].key@, s2[k].key@));
    }
    if l > k && m > k {
        assert(key_lt(s2[k].key@, s2[l].key@));
        assert(key_lt(s1[k].key@, s1[m].key@));
    }
}

proof fn lemma_first_position_unique(keys: Seq<Seq<u64>>, order: Seq<usize>, key: Seq<u64>, p: int, q: int)
    requires
        group_order_ok(keys, order),
        0 <= p < order.len(),
        0 <= q < order.len(),
        keys[order[p] as int] == key,
        keys[order[q] as int] == key,
        p == 0 || keys[order[p - 1] as int] != key,
        q == 0 || keys[order[q - 1] as int] != key,
    ensures
        p == q,
{
    if p < q {
        let x = keys[order[q - 1] as int];
        if p < q - 1 {
            assert(key_lt(key, x) || (key == x && order[p] < order[q - 1]));
        }
        assert(key_lt(x, key) || (x == key && order[q - 1] < order[q]));
    } else if q < p {
        let x = keys[order[p - 1] as int];
        if q < p - 1 {
            assert(key_lt(key, x) || (key == x && order[q] < order[p - 1]));
        }
        assert(key_lt(x, key) || (x == key && order[p - 1] < order[p]));
    }
}

/// A group's key map is determined by the group's order: two key maps of
/// the same order are equal.
pub proof fn lemma_group_starts_unique(
    keys: Seq<Seq<u64>>,
    order: Seq<usize>,
    s1: Seq<GroupStart>,
    s2: Seq<GroupStart>,
)
    requires
        group_order_ok(keys, order),
        group_starts_ok(keys, order, s1),
        group_starts_ok(keys, order, s2),
    ensures
        s1 == s2,
{
    broadcast use vstd::array::group_array_axioms;

    let short = if s1.len() < s2.len() {
        s1.len() as int
    } else {
        s2.len() as int
    };
    if short > 0 {
        lemma_start_keys_prefix_agree(keys, order, s1, s2, short - 1);
    }
    if s1.len() > s2.len() {
        let st = s1[short].start as int;
        assert(has_start(s2, keys[order[st] as int]));
        let l = choose|l: int| 0 <= l < s2.len() && (#[trigger] s2[l]).key@ == keys[order[st] as int];
        assert(s1[l].key@ == s2[l].key@);
        assert(key_lt(s1[l].key@, s1[short].key@));
    }
    if s2.len() > s1.len() {
        let st = s2[short].start as int;
        assert(has_start(s1, keys[order[st] as int]));
        let l = choose|l: int| 0 <= l < s1.len() && (#[trigger] s1[l]).key@ == keys[order[st] as int];
        assert(s1[l].key@ == s2[l].key@);
        assert(key_lt(s2[l].key@, s2[short].key@));
    }
    assert forall|e: int| 0 <= e < s1.len() implies s1[e] == s2[e] by {
        lemma_first_position_unique(keys, order, s1[e].key@, s1[e].start as int, s2[e].start as int);
        assert(s1[e].key =~= s2[e].key);
    }
    assert(s1 =~= s2);
}

/// Sorts `indices` with std's stable `slice::sort_by`, comparing the rows'
/// keys of group `group` with [`compare_group`], a total order.  Claimed, as
/// std documents: the result holds the same indices, in key order, and
/// indices of equal keys keep their relative order, which is increasing
/// since `requires` has them so.
#[verifier::external_body]
fn sort_by_group_key(indices: &mut Vec<usize>, tokencache: &[u64], num_hashes: usize, group: usize)
    requires
        forall|k: int|
            0 <= k < old(indices)@.len() ==> row_has_group(
                tokencache@,
                num_hashes,
                #[trigger] old(indices)@[k],
                group,
            ),
        forall|k: int, l: int|
            0 <= k < l < old(indices)@.len() ==> #[trigger] old(indices)@[k] < #[trigger] old(
                indices,
            )@[l],
    ensures
        final(indices)@.to_multiset() == old(indices)@.to_multiset(),
        forall|k: int, l: int|
            0 <= k < l < final(indices)@.len() ==> key_le(
                row_key(tokencache@, num_hashes, #[trigger] final(indices)@[k], group),
                row_key(tokencache@, num_hashes, #[trigger] final(indices)@[l], group),
            ),
        forall|k: int, l: int|
            0 <= k < l < final(indices)@.len() && row_key(
                tokencache@,
                num_hashes,
                #[trigger] final(indices)@[k],
                group,
            ) == row_key(tokencache@, num_hashes, #[trigger] final(indices)@[l], group)
                ==> final(indices)@[k] < final(indices)@[l],
{
    indices.sort_by(|&a, &b| compare_group(tokencache, num_hashes, group, a, b));
}

proof fn lemma_key_lt_transitive(a: Seq<u64>, b: Seq<u64>, c: Seq<u64>)
    requires
        key_lt(a, b),
        key_lt(b, c),
    ensures
        key_lt(a, c),
{
}

/// Sorts the strings by their key of group `group` and records, for each
/// key, the first position holding it.
pub fn build_group(tokencache: &[u64], num_hashes: usize, num_strings: usize, group: usize) -> (r: (
    Vec<usize>,
    Vec<GroupStart>,
))
    requires
        tokencache@.len() >= num_strings * num_hashes,
        4 * group + 4 <= num_hashes,
    ensures
        group_order_ok(table_keys(tokencache@, num_hashes as int, num_strings as nat, group as int), r.0@),
        group_starts_ok(
            table_keys(tokencache@, num_hashes as int, num_strings as nat, group as int),
            r.0@,
            r.1@,
        ),
{
    let ghost keys = table_keys(tokencache@, num_hashes as int, num_strings as nat, group as int);
    let mut indices: Vec<usize> = Vec::new();
    for i in 0..num_strings
        invariant
            indices@.len() == i,
            forall|k: int| 0 <= k < i ==> #[trigger] indices@[k] == k,
    {
        indices.push(i);
    }
    let ghost unsorted = indices@;
    assert forall|k: int| 0 <= k < indices@.len() implies row_has_group(
        tokencache@,
        num_hashes,
        #[trigger] indices@[k],
        group,
    ) by {
        lemma_cell_in_table(k, num_strings as int, num_hashes as int, 4 * group);
    }
    sort_by_group_key(&mut indices, tokencache, num_hashes, group);
    let ghost order = indices@;
    proof {
        broadcast use vstd::seq_lib::group_to_multiset_ensures;

        assert(order.to_multiset().len() == unsorted.to_multiset().len());
        assert forall|k: int| 0 <= k < order.len() implies #[trigger] order[k] < keys.len() by {
            assert(order.contains(order[k]));
            assert(unsorted.to_multiset().count(order[k]) > 0);
            assert(unsorted.contains(order[k]));
        }
        assert forall|i: int| 0 <= i < keys.len() implies #[trigger] has_position(order, i) by {
            assert(unsorted[i] == i);
            assert(unsorted.contains(unsorted[i]));
            assert(order.to_multiset().count(unsorted[i]) > 0);
            assert(order.contains(unsorted[i]));
        }
        assert forall|k: int, l: int| 0 <= k < l < order.len() implies key_lt(
            keys[#[trigger] order[k] as int],
            keys[#[trigger] order[l] as int],
        ) || (keys[order[k] as int] == keys[order[l] as int] && order[k] < order[l]) by {
            assert(keys[order[k] as int] == row_key(tokencache@, num_hashes, order[k], group));
            assert(keys[order[l] as int] == row_key(tokencache@, num_hashes, order[l], group));
        }
        assert(group_order_ok(keys, order));
    }

    let mut starts: Vec<GroupStart> = Vec::new();
    for pos in 0..num_strings
        invariant
            tokencache@.len() >= num_strings * num_hashes,
            4 * group + 4 <= num_hashes,
            keys == table_keys(tokencache@, num_hashes as int, num_strings as nat, group as int),
            indices@ == order,
            group_order_ok(keys, order),
            forall|e: int|
                0 <= e < starts@.len() ==> {
                    let st = (#[trigger] starts@[e]).start as int;
                    &&& st < pos
                    &&& keys[order[st] as int] == starts@[e].key@
                    &&& (st == 0 || keys[order[st - 1] as int] != starts@[e].key@)
                },
            forall|e: int, f: int|
                0 <= e < f < starts@.len() ==> key_lt(
                    (#[trigger] starts@[e]).key@,
                    (#[trigger] starts@[f]).key@,
                ),
            forall|k: int| 0 <= k < pos ==> #[trigger] has_start(starts@, keys[order[k] as int]),
            pos > 0 ==> starts@.len() > 0 && starts@.last().key@ == keys[order[pos - 1] as int],
    {
        let idx = indices[pos];
        proof {
            lemma_cell_in_table(idx as int, num_strings as int, num_hashes as int, 4 * group);
        }
        let key = group_key_from_cache(tokencache, num_hashes, group, idx);
        assert(key@ == keys[order[pos as int] as int]);
        let is_new = if pos == 0 {
            true
        } else {
            let prev = indices[pos - 1];
            proof {
                lemma_cell_in_table(prev as int, num_strings as int, num_hashes as int, 4 * group);
            }
            !group_key_matches_cache(tokencache, num_hashes, group, prev, &key)
        };
        if is_new {
            let ghost old_starts = starts@;
            if pos > 0 {
                assert(key_lt(keys[order[pos - 1] as int], keys[order[pos as int] as int]));
                assert forall|e: int| 0 <= e < old_starts.len() implies key_lt(
                    old_starts[e].key@,
                    key@,
                ) by {
                    if e < old_starts.len() - 1 {
                        lemma_key_lt_transitive(
                            old_starts[e].key@,
                            old_starts.last().key@,
                            key@,
                        );
                    }
                }
            }
            starts.push(GroupStart { key, start: pos });
            assert(starts@[starts@.len() - 1].key@ == key@);
            assert(has_start(starts@, keys[order[pos as int] as int]));
            assert forall|k: int| 0 <= k < pos implies #[trigger] has_start(
                starts@,
                keys[order[k] as int],
            ) by {
                assert(has_start(old_starts, keys[order[k] as int]));
                let e = choose|e: int|
                    0 <= e < old_starts.len() && (#[trigger] old_starts[e]).key@ == keys[order[k] as int];
                assert(starts@[e] == old_starts[e]);
            }
        } else {
            assert(has_start(starts@, keys[order[pos as int] as int])) by {
                assert(starts@[starts@.len() - 1].key@ == keys[order[pos as int] as int]);
            }
        }
    }
    (indices, starts)
}

/// The signatures of all `strings`, row after row: component `j` of string
/// `i` at position `i * num_hashes + j`.  Components without a seed hold
/// `u64::MAX`.
pub fn build_cache(
    strings: &[String],
    num_hashes: usize,
    seeds: &[u64],
    min_token_length: usize,
    max_token_length: usize,
) -> (cache: Vec<u64>)
    requires
        num_hashes > 0,
        strings@.len() * num_hashes <= usize::MAX,
    ensures
        flat_signatures_ok(
            cache@,
            table_signatures(
                strings@.map_values(|s: String| s@),
                seeds@,
                min_token_length as nat,
                max_token_length as nat,
                num_hashes as nat,
            ),
            num_hashes as int,
        ),
{
    let ghost sigs = table_signatures(
        strings@.map_values(|s: String| s@),
        seeds@,
        min_token_length as nat,
        max_token_length as nat,
        num_hashes as nat,
    );
    let mut cache = vec![u64::MAX; strings.len() * num_hashes];
    assert forall|k: int| 0 <= k < cache@.len() implies cache@[k] == u64::MAX by {
        assert(vstd::pervasive::cloned(u64::MAX, cache@[k]));
    }
    par_fill_signatures(&mut cache, strings, seeds, num_hashes, min_token_length, max_token_length);
    assert forall|i: int, j: int| 0 <= i < sigs.len() && 0 <= j < num_hashes implies #[trigger] cache@[cell(
        i,
        num_hashes as int,
        j,
    )] == sigs[i][j] by {
        lemma_cell_in_table(i, strings@.len() as int, num_hashes as int, j);
    }
    assert forall|i: int| 0 <= i < sigs.len() implies #[trigger] sigs[i].len() == num_hashes by {}
    cache
}

/// The signature table of one corpus followed by another is the table of
/// the first followed by the table of the second: each string's row depends
/// on that string alone.
pub proof fn lemma_cache_of_concatenation(
    ta: Seq<u64>,
    tb: Seq<u64>,
    tab: Seq<u64>,
    ca: Seq<Seq<char>>,
    cb: Seq<Seq<char>>,
    seeds: Seq<u64>,
    lo: nat,
    hi: nat,
    width: nat,
)
    requires
        width > 0,
        flat_signatures_ok(ta, table_signatures(ca, seeds, lo, hi, width), width as int),
        flat_signatures_ok(tb, table_signatures(cb, seeds, lo, hi, width), width as int),
        flat_signatures_ok(tab, table_signatures(ca + cb, seeds, lo, hi, width), width as int),
    ensures
        tab == ta + tb,
{
    let w = width as int;
    assert(table_signatures(ca + cb, seeds, lo, hi, width) =~= table_signatures(
        ca,
        seeds,
        lo,
        hi,
        width,
    ) + table_signatures(cb, seeds, lo, hi, width));
    lemma_flat_table_concat(
        ta,
        tb,
        table_signatures(ca, seeds, lo, hi, width),
        table_signatures(cb, seeds, lo, hi, width),
        w,
    );
    lemma_flat_table_unique(tab, ta + tb, table_signatures(ca + cb, seeds, lo, hi, width), w);
}

/// For each of the `num_hashes / GROUP_SIZE` groups, the strings sorted by
/// their key of that group, and the first position of each key.
pub fn build_groups(tokencache: &[u64], num_hashes: usize, num_strings: usize) -> (r: (
    Vec<Vec<usize>>,
    Vec<Vec<GroupStart>>,
))
    requires
        tokencache@.len() >= num_strings * num_hashes,
    ensures
        r.0@.len() == num_hashes / 4,
        r.1@.len() == num_hashes / 4,
        forall|g: int|
            0 <= g < num_hashes / 4 ==> group_order_ok(
                table_keys(tokencache@, num_hashes as int, num_strings as nat, g),
                (#[trigger] r.0@[g])@,
            ) && group_starts_ok(
                table_keys(tokencache@, num_hashes as int, num_strings as nat, g),
                r.0@[g]@,
                r.1@[g]@,
            ),
{
    let num_groups = num_hashes / GROUP_SIZE;
    par_build_groups(tokencache, num_hashes, num_strings, num_groups)
}

/// Where the table holds the signatures `sigs`, its keys of group `g` are
/// those of the signatures.
proof fn lemma_table_keys_are_signature_keys(table: Seq<u64>, sigs: Seq<Seq<u64>>, width: int, g: int)
    requires
        flat_signatures_ok(table, sigs, width),
        0 <= g,
        4 * g + 4 <= width,
    ensures
        table_keys(table, width, sigs.len(), g) == signature_keys(sigs, g),
{
    assert forall|i: int| 0 <= i < sigs.len() implies table_key(table, width, i, g) == group_key(
        sigs[i],
        g,
    ) by {
        lemma_cell_in_table(i, sigs.len() as int, width, 4 * g);
        assert forall|j: int| 0 <= j < 4 implies table_key(table, width, i, g)[j] == group_key(
            sigs[i],
            g,
        )[j] by {
            assert(cell(i, width, 4 * g) + j == cell(i, width, 4 * g + j));
            assert(table[cell(i, width, 4 * g + j)] == sigs[i][4 * g + j]);
        }
        assert(sigs[i].len() == width);
        assert(table_key(table, width, i, g) =~= group_key(sigs[i], g));
    }
    assert(table_keys(table, width, sigs.len(), g) =~= signature_keys(sigs, g));
}

/// Whether key `a` comes strictly before key `b`.
fn key_less(a: &[u64; GROUP_SIZE], b: &[u64; GROUP_SIZE]) -> (r: bool)
    ensures
        r == key_lt(a@, b@),
{
    if a[0] != b[0] {
        a[0] < b[0]
    } else if a[1] != b[1] {
        a[1] < b[1]
    } else if a[2] != b[2] {
        a[2] < b[2]
    } else {
        a[3] < b[3]
    }
}

/// Whether two keys are equal.
fn keys_equal(a: &[u64; GROUP_SIZE], b: &[u64; GROUP_SIZE]) -> (r: bool)
    ensures
        r == (a@ == b@),
{
    let r = a[0] == b[0] && a[1] == b[1] && a[2] == b[2] && a[3] == b[3];
    if r {
        assert(a@ =~= b@);
    }
    r
}

/// Looks `key` up in a group's key map: the first position of `key`, or
/// `None` when no string has it.
pub fn find_group_start(starts: &[GroupStart], key: &[u64; GROUP_SIZE]) -> (r: Option<usize>)
    requires
        forall|e: int, f: int|
            0 <= e < f < starts@.len() ==> key_lt(
                (#[trigger] starts@[e]).key@,
                (#[trigger] starts@[f]).key@,
            ),
    ensures
        match r {
            Some(p) => exists|e: int|
                0 <= e < starts@.len() && (#[trigger] starts@[e]).key@ == key@ && starts@[e].start
                    == p,
            None => !has_start(starts@, key@),
        },
{
    let mut lo: usize = 0;
    let mut hi: usize = starts.len();
    while lo < hi
        invariant
            lo <= hi <= starts@.len(),
            forall|e: int, f: int|
                0 <= e < f < starts@.len() ==> key_lt(
                    (#[trigger] starts@[e]).key@,
                    (#[trigger] starts@[f]).key@,
                ),
            forall|e: int| 0 <= e < lo ==> key_lt((#[trigger] starts@[e]).key@, key@),
            forall|e: int| hi <= e < starts@.len() ==> !key_lt((#[trigger] starts@[e]).key@, key@),
        decreases hi - lo,
    {
        let mid = lo + (hi - lo) / 2;
        if key_less(&starts[mid].key, key) {
            assert forall|e: int| 0 <= e <= mid implies key_lt((#[trigger] starts@[e]).key@, key@) by {
                if e < mid {
                    lemma_key_lt_transitive(starts@[e].key@, starts@[mid as int].key@, key@);
                }
            }
            lo = mid + 1;
        } else {
            assert forall|e: int| mid <= e < starts@.len() implies !key_lt(
                (#[trigger] starts@[e]).key@,
                key@,
            ) by {
                if e > mid && key_lt(starts@[e].key@, key@) {
                    lemma_key_lt_transitive(starts@[mid as int].key@, starts@[e].key@, key@);
                }
            }
            hi = mid;
        }
    }
    if lo < starts.len() && keys_equal(&starts[lo].key, key) {
        Some(starts[lo].start)
    } else {
        assert(!has_start(starts@, key@)) by {
            if has_start(starts@, key@) {
                let e = choose|e: int| 0 <= e < starts@.len() && (#[trigger] starts@[e]).key@ == key@;
                if e > lo {
                    assert(key_lt(starts@[lo as int].key@, starts@[e].key@));
                }
            }
        }
        None
    }
}

/// The signature `sig` has the query's key in group `g`.
pub open spec fn shares_group(sig: Seq<u64>, query: Seq<u64>, g: int) -> bool {
    group_key(sig, g) == group_key(query, g)
}

/// Scan of group `g`: the strings below `u`, in increasing order, that share
/// the query's key of the group; a string is kept when its score beats the
/// kept score strictly.  The scan starts from `acc` (position, score).
pub open spec fn group_scan(sigs: Seq<Seq<u64>>, query: Seq<u64>, g: int, u: nat, acc: (nat, nat)) -> (
    nat,
    nat,
)
    decreases u,
{
    if u == 0 {
        acc
    } else {
        let prev = group_scan(sigs, query, g, (u - 1) as nat, acc);
        if shares_group(sigs[u - 1], query, g) && score(sigs[u - 1], query) > prev.1 {
            ((u - 1) as nat, score(sigs[u - 1], query))
        } else {
            prev
        }
    }
}

/// Scans of the first `groups` groups, one after the other, starting from
/// position 0 with score 0.
pub open spec fn grouped_scan(sigs: Seq<Seq<u64>>, query: Seq<u64>, groups: nat) -> (nat, nat)
    decreases groups,
{
    if groups == 0 {
        (0, 0)
    } else {
        group_scan(
            sigs,
            query,
            groups - 1,
            sigs.len(),
            grouped_scan(sigs, query, (groups - 1) as nat),
        )
    }
}

/// Position of the corpus string that a grouped search returns for the
/// query signature `query`: over the groups in order, and within a group
/// over the strings sharing the query's key in increasing order, the first
/// one of a score higher than all before it (position 0 when none shares a
/// key).
pub open spec fn grouped_closest_index(sigs: Seq<Seq<u64>>, query: Seq<u64>) -> nat {
    grouped_scan(sigs, query, query.len() / 4).0
}

/// Strings that do not share the group leave a scan unchanged.
pub proof fn lemma_group_scan_skip(
    sigs: Seq<Seq<u64>>,
    query: Seq<u64>,
    g: int,
    u: nat,
    v: nat,
    acc: (nat, nat),
)
    requires
        u <= v <= sigs.len(),
        forall|i: int| u <= i < v ==> !shares_group(#[trigger] sigs[i], query, g),
    ensures
        group_scan(sigs, query, g, v, acc) == group_scan(sigs, query, g, u, acc),
    decreases v,
{
    if v > u {
        lemma_group_scan_skip(sigs, query, g, u, (v - 1) as nat, acc);
    }
}

proof fn lemma_group_scan_in_range(sigs: Seq<Seq<u64>>, query: Seq<u64>, g: int, u: nat, acc: (nat, nat))
    requires
        acc.0 < sigs.len(),
        u <= sigs.len(),
    ensures
        group_scan(sigs, query, g, u, acc).0 < sigs.len(),
    decreases u,
{
    if u > 0 {
        lemma_group_scan_in_range(sigs, query, g, (u - 1) as nat, acc);
    }
}

proof fn lemma_grouped_scan_in_range(sigs: Seq<Seq<u64>>, query: Seq<u64>, groups: nat)
    requires
        sigs.len() > 0,
    ensures
        grouped_scan(sigs, query, groups).0 < sigs.len(),
    decreases groups,
{
    if groups > 0 {
        lemma_grouped_scan_in_range(sigs, query, (groups - 1) as nat);
        lemma_group_scan_in_range(
            sigs,
            query,
            groups - 1,
            sigs.len(),
            grouped_scan(sigs, query, (groups - 1) as nat),
        );
    }
}

proof fn lemma_group_scan_keeps(sigs: Seq<Seq<u64>>, query: Seq<u64>, g: int, u: nat, acc: (nat, nat))
    requires
        acc.0 < sigs.len(),
        acc.1 == 0 || score(sigs[acc.0 as int], query) == acc.1,
        u <= sigs.len(),
    ensures
        group_scan(sigs, query, g, u, acc).0 < sigs.len(),
        group_scan(sigs, query, g, u, acc).1 == 0 || score(
            sigs[group_scan(sigs, query, g, u, acc).0 as int],
            query,
        ) == group_scan(sigs, query, g, u, acc).1,
        group_scan(sigs, query, g, u, acc).1 >= acc.1,
        forall|i: int|
            0 <= i < u && shares_group(#[trigger] sigs[i], query, g) ==> group_scan(
                sigs,
                query,
                g,
                u,
                acc,
            ).1 >= score(sigs[i], query),
    decreases u,
{
    if u > 0 {
        lemma_group_scan_keeps(sigs, query, g, (u - 1) as nat, acc);
    }
}

proof fn lemma_grouped_scan_keeps(sigs: Seq<Seq<u64>>, query: Seq<u64>, groups: nat)
    requires
        sigs.len() > 0,
    ensures
        grouped_scan(sigs, query, groups).0 < sigs.len(),
        grouped_scan(sigs, query, groups).1 == 0 || score(
            sigs[grouped_scan(sigs, query, groups).0 as int],
            query,
        ) == grouped_scan(sigs, query, groups).1,
        forall|g: int, i: int|
            0 <= g < groups && 0 <= i < sigs.len() && #[trigger] shares_group(sigs[i], query, g)
                ==> grouped_scan(sigs, query, groups).1 >= score(sigs[i], query),
    decreases groups,
{
    if groups > 0 {
        lemma_grouped_scan_keeps(sigs, query, (groups - 1) as nat);
        lemma_group_scan_keeps(
            sigs,
            query,
            groups - 1,
            sigs.len(),
            grouped_scan(sigs, query, (groups - 1) as nat),
        );
    }
}

/// The grouped search never returns a string that scores less than a
/// corpus string sharing the query's key in one of the groups.
pub proof fn lemma_grouped_beats_candidates(sigs: Seq<Seq<u64>>, query: Seq<u64>, i: int, g: int)
    requires
        0 <= i < sigs.len(),
        0 <= g < query.len() / 4,
        shares_group(sigs[i], query, g),
    ensures
        grouped_closest_index(sigs, query) < sigs.len(),
        score(sigs[grouped_closest_index(sigs, query) as int], query) >= score(sigs[i], query),
{
    lemma_grouped_scan_keeps(sigs, query, query.len() / 4);
    assert(shares_group(sigs[i], query, g));
}

/// The grouped search never returns a string that scores more than the
/// closest string (which the reverse-index search returns).
pub proof fn lemma_grouped_no_better_than_closest(sigs: Seq<Seq<u64>>, query: Seq<u64>)
    requires
        sigs.len() > 0,
    ensures
        grouped_closest_index(sigs, query) < sigs.len(),
        score(sigs[grouped_closest_index(sigs, query) as int], query) <= score(
            sigs[closest_index(sigs, query) as int],
            query,
        ),
{
    lemma_grouped_scan_keeps(sigs, query, query.len() / 4);
    lemma_closest_is_first_maximum(sigs, query);
    assert(score(sigs[grouped_closest_index(sigs, query) as int], query) <= score(
        sigs[closest_index(sigs, query) as int],
        query,
    ));
}

/// A query whose signature is that of some corpus string is matched by the
/// grouped search to a corpus string with that very signature.
pub proof fn lemma_grouped_exact_signature(sigs: Seq<Seq<u64>>, query: Seq<u64>, i: int)
    requires
        0 <= i < sigs.len(),
        sigs[i] == query,
        query.len() >= 4,
        forall|k: int| 0 <= k < sigs.len() ==> (#[trigger] sigs[k]).len() == query.len(),
    ensures
        sigs[grouped_closest_index(sigs, query) as int] == query,
{
    assert(shares_group(sigs[i], query, 0));
    lemma_grouped_beats_candidates(sigs, query, i, 0);
    let c = grouped_closest_index(sigs, query) as int;
    lemma_agree_count_full(query, query, query.len());
    lemma_agree_count_bound(sigs[c], query, query.len());
    lemma_agree_count_full_means_equal(sigs[c], query, query.len());
    assert(sigs[c] =~= query);
}

proof fn lemma_agree_count_without_shared_group(a: Seq<u64>, b: Seq<u64>, groups: nat)
    requires
        a.len() >= 4 * groups,
        b.len() >= 4 * groups,
        forall|g: int| 0 <= g < groups ==> !#[trigger] shares_group(a, b, g),
    ensures
        agree_count(a, b, 4 * groups) <= 3 * groups,
    decreases groups,
{
    if groups > 0 {
        let g = groups - 1;
        lemma_agree_count_without_shared_group(a, b, (groups - 1) as nat);
        assert(!shares_group(a, b, g));
        let base = 4 * g;
        if a[base] == b[base] && a[base + 1] == b[base + 1] && a[base + 2] == b[base + 2] && a[base
            + 3] == b[base + 3] {
            assert(group_key(a, g) =~= group_key(b, g));
        }
        reveal_with_fuel(agree_count, 5);
        assert(agree_count(a, b, (base + 4) as nat) == agree_count(a, b, base as nat) + (if a[base]
            == b[base] {
            1nat
        } else {
            0nat
        }) + (if a[base + 1] == b[base + 1] {
            1nat
        } else {
            0nat
        }) + (if a[base + 2] == b[base + 2] {
            1nat
        } else {
            0nat
        }) + (if a[base + 3] == b[base + 3] {
            1nat
        } else {
            0nat
        }));
    }
}

/// When the closest string disagrees with the query on fewer components
/// than there are groups, it shares a whole group with the query, and the
/// grouped search finds a string of the same, highest, score.
pub proof fn lemma_grouped_exact_when_close(sigs: Seq<Seq<u64>>, query: Seq<u64>)
    requires
        sigs.len() > 0,
        query.len() % 4 == 0,
        forall|k: int| 0 <= k < sigs.len() ==> (#[trigger] sigs[k]).len() == query.len(),
        score(sigs[closest_index(sigs, query) as int], query) > query.len() - query.len() / 4,
    ensures
        score(sigs[grouped_closest_index(sigs, query) as int], query) == score(
            sigs[closest_index(sigs, query) as int],
            query,
        ),
{
    lemma_closest_is_first_maximum(sigs, query);
    let c = closest_index(sigs, query) as int;
    let groups = query.len() / 4;
    if forall|g: int| 0 <= g < groups ==> !#[trigger] shares_group(sigs[c], query, g) {
        lemma_agree_count_without_shared_group(sigs[c], query, groups);
        assert(false);
    }
    let g = choose|g: int| 0 <= g < groups && #[trigger] shares_group(sigs[c], query, g);
    lemma_grouped_beats_candidates(sigs, query, c, g);
    lemma_grouped_no_better_than_closest(sigs, query);
}

/// A string with key `qk` lies at or after position `start` of the order,
/// when `start` is the first position of `qk`.
proof fn lemma_key_position_after_start(
    keys: Seq<Seq<u64>>,
    order: Seq<usize>,
    qk: Seq<u64>,
    start: int,
    i: int,
) -> (k: int)
    requires
        group_order_ok(keys, order),
        0 <= start < order.len(),
        keys[order[start] as int] == qk,
        start == 0 || keys[order[start - 1] as int] != qk,
        0 <= i < keys.len(),
        keys[i] == qk,
    ensures
        start <= k < order.len(),
        order[k] == i,
{
    assert(has_position(order, i));
    let k = choose|k: int| 0 <= k < order.len() && #[trigger] order[k] == i;
    if k < start {
        let kb = keys[order[start - 1] as int];
        if k < start - 1 {
            assert(key_lt(qk, kb) || (qk == kb && order[k] < order[start - 1]));
        }
        assert(key_lt(kb, qk) || (kb == qk && order[start - 1] < order[start]));
    }
    k
}

/// While the walk through the block of `qk` is at `pos`, no string with key
/// `qk` lies between the last one visited and the one at `pos`.
proof fn lemma_no_key_in_gap(
    keys: Seq<Seq<u64>>,
    order: Seq<usize>,
    qk: Seq<u64>,
    start: int,
    pos: int,
    i: int,
)
    requires
        group_order_ok(keys, order),
        0 <= start <= pos < order.len(),
        forall|k: int| start <= k <= pos ==> keys[#[trigger] order[k] as int] == qk,
        start == 0 || keys[order[start - 1] as int] != qk,
        0 <= i < keys.len(),
        i < order[pos],
        pos == start || order[pos - 1] < i,
    ensures
        keys[i] != qk,
{
    if keys[i] == qk {
        assert(keys[order[start] as int] == qk);
        let k = lemma_key_position_after_start(keys, order, qk, start, i);
        if k < pos {
            if k < pos - 1 {
                assert(keys[order[k] as int] == keys[order[pos - 1] as int]);
            }
        } else if k > pos {
            assert(keys[order[pos] as int] == qk);
        }
    }
}

/// When the walk through the block of `qk` stops at `pos`, no string with
/// key `qk` lies after the last one visited.
proof fn lemma_no_key_after_block(
    keys: Seq<Seq<u64>>,
    order: Seq<usize>,
    qk: Seq<u64>,
    start: int,
    pos: int,
    i: int,
)
    requires
        group_order_ok(keys, order),
        0 <= start < order.len(),
        start <= pos <= order.len(),
        keys[order[start] as int] == qk,
        forall|k: int| start <= k < pos ==> keys[#[trigger] order[k] as int] == qk,
        start == 0 || keys[order[start - 1] as int] != qk,
        pos == order.len() || keys[order[pos] as int] != qk,
        0 <= i < keys.len(),
        pos == start || order[pos - 1] < i,
    ensures
        keys[i] != qk,
{
    if keys[i] == qk {
        let k = lemma_key_position_after_start(keys, order, qk, start, i);
        if k < pos {
            if k < pos - 1 {
                assert(keys[order[k] as int] == keys[order[pos - 1] as int]);
            }
        } else {
            let kp = keys[order[pos] as int];
            assert(pos > start);
            assert(keys[order[pos - 1] as int] == qk);
            assert(key_lt(qk, kp) || (qk == kp && order[pos - 1] < order[pos]));
            if k > pos {
                assert(key_lt(kp, qk) || (kp == qk && order[pos] < order[k]));
            }
        }
    }
}

/// Search structure over a static corpus: signatures of a multiple of four
/// components, and for each group of four, the strings sorted by their key
/// of that group with the first position of each key.
#[derive(Debug)]
pub struct GroupedTokenFuzzer {
    strings: Vec<String>,
    tokencache: Vec<u64>,
    num_hashes: usize,
    hash_seeds: Vec<u64>,
    min_token_length: usize,
    max_token_length: usize,
    group_indices: Vec<Vec<usize>>,
    group_maps: Vec<Vec<GroupStart>>,
}

impl GroupedTokenFuzzer {
    /// The corpus strings, in the order they were given.
    pub closed spec fn corpus(&self) -> Seq<Seq<char>> {
        self.strings@.map_values(|s: String| s@)
    }

    /// The number of hash functions (a multiple of four).
    pub closed spec fn hash_count(&self) -> nat {
        self.num_hashes as nat
    }

    /// The seeds of the hash functions.
    pub closed spec fn seeds(&self) -> Seq<u64> {
        self.hash_seeds@
    }

    /// Tokens are longer than this many bytes.
    pub closed spec fn min_len(&self) -> nat {
        self.min_token_length as nat
    }

    /// Tokens are at most this many bytes long.
    pub closed spec fn max_len(&self) -> nat {
        self.max_token_length as nat
    }

    /// The signatures of the corpus strings.
    pub open spec fn signatures(&self) -> Seq<Seq<u64>> {
        corpus_signatures(self.corpus(), self.seeds(), self.min_len(), self.max_len())
    }

    /// The signature of a query string.
    pub open spec fn query_signature(&self, s: Seq<char>) -> Seq<u64> {
        string_signature(s, self.seeds(), self.min_len(), self.max_len())
    }

    /// The signatures of the corpus strings, row after row.
    pub closed spec fn cache(&self) -> Seq<u64> {
        self.tokencache@
    }

    /// For each group, the strings in (key, string) order.
    pub closed spec fn group_orders(&self) -> Seq<Seq<usize>> {
        self.group_indices@.map_values(|o: Vec<usize>| o@)
    }

    /// For each group, its key map.
    pub closed spec fn group_key_maps(&self) -> Seq<Seq<GroupStart>> {
        self.group_maps@.map_values(|m: Vec<GroupStart>| m@)
    }

    /// The search structure holds, for each group, the strings in (key,
    /// string) order and the first position of each key.
    pub open spec fn groups_ok(&self) -> bool {
        &&& self.group_orders().len() == self.hash_count() / 4
        &&& self.group_key_maps().len() == self.hash_count() / 4
        &&& forall|g: int|
            0 <= g < self.hash_count() / 4 ==> group_order_ok(
                signature_keys(self.signatures(), g),
                #[trigger] self.group_orders()[g],
            ) && group_starts_ok(
                signature_keys(self.signatures(), g),
                self.group_orders()[g],
                self.group_key_maps()[g],
            )
    }

    #[verifier::type_invariant]
    closed spec fn well_formed(&self) -> bool {
        &&& self.num_hashes % 4 == 0
        &&& self.num_hashes >= 4
        &&& self.hash_seeds@ == seeds_spec(self.num_hashes as nat, SEED_BASE)
        &&& flat_signatures_ok(self.tokencache@, self.signatures(), self.num_hashes as int)
        &&& self.group_indices@.len() == self.num_hashes / 4
        &&& self.group_maps@.len() == self.num_hashes / 4
        &&& forall|g: int|
            0 <= g < self.num_hashes / 4 ==> group_order_ok(
                signature_keys(self.signatures(), g),
                (#[trigger] self.group_indices@[g])@,
            ) && group_starts_ok(
                signature_keys(self.signatures(), g),
                self.group_indices@[g]@,
                self.group_maps@[g]@,
            )
    }

    /// The corpus strings.
    pub fn strings(&self) -> (r: &Vec<String>)
        ensures
            r@.map_values(|s: String| s@) == self.corpus(),
    {
        &self.strings
    }

    /// The number of hash functions, a multiple of four.
    pub fn num_hashes(&self) -> (r: usize)
        ensures
            r == self.hash_count(),
            r % 4 == 0,
            r >= 4,
    {
        proof {
            use_type_invariant(self);
        }
        self.num_hashes
    }

    /// The seeds of the hash functions.
    pub fn hash_seeds(&self) -> (r: &Vec<u64>)
        ensures
            r@ == self.seeds(),
            r@ == seeds_spec(self.hash_count(), SEED_BASE),
    {
        proof {
            use_type_invariant(self);
        }
        &self.hash_seeds
    }

    /// The signatures of the corpus strings, row after row.
    pub fn tokencache(&self) -> (r: &Vec<u64>)
        ensures
            r@ == self.cache(),
            flat_signatures_ok(self.cache(), self.signatures(), self.hash_count() as int),
    {
        proof {
            use_type_invariant(self);
        }
        &self.tokencache
    }

    /// Two searches built over the same corpus, hash count and token bounds
    /// hold the same seeds, the same signature table, and for each group
    /// the same order and the same key map.
    pub proof fn lemma_build_is_deterministic(a: &Self, b: &Self)
        requires
            a.corpus() == b.corpus(),
            a.hash_count() == b.hash_count(),
            a.hash_count() > 0,
            a.seeds() == seeds_spec(a.hash_count(), SEED_BASE),
            b.seeds() == seeds_spec(b.hash_count(), SEED_BASE),
            a.min_len() == b.min_len(),
            a.max_len() == b.max_len(),
            flat_signatures_ok(a.cache(), a.signatures(), a.hash_count() as int),
            flat_signatures_ok(b.cache(), b.signatures(), b.hash_count() as int),
            a.groups_ok(),
            b.groups_ok(),
        ensures
            a.seeds() == b.seeds(),
            a.cache() == b.cache(),
            a.group_orders() == b.group_orders(),
            a.group_key_maps() == b.group_key_maps(),
    {
        let sigs = a.signatures();
        lemma_flat_table_unique(a.cache(), b.cache(), sigs, a.hash_count() as int);
        assert forall|g: int| 0 <= g < a.hash_count() / 4 implies a.group_orders()[g]
            == b.group_orders()[g] && a.group_key_maps()[g] == b.group_key_maps()[g] by {
            assert(group_order_ok(signature_keys(sigs, g), a.group_orders()[g]));
            assert(group_order_ok(signature_keys(sigs, g), b.group_orders()[g]));
            lemma_group_order_unique(signature_keys(sigs, g), a.group_orders()[g], b.group_orders()[g]);
            lemma_group_starts_unique(
                signature_keys(sigs, g),
                a.group_orders()[g],
                a.group_key_maps()[g],
                b.group_key_maps()[g],
            );
        }
        assert(a.group_orders() =~= b.group_orders());
        assert(a.group_key_maps() =~= b.group_key_maps());
    }

    /// Builds the search structure over `strings`, with `num_hashes` hash
    /// functions rounded up to a multiple of four, and tokens of
    /// `(min_token_length, max_token_length]` bytes.
    pub fn new(
        strings: Vec<String>,
        num_hashes: usize,
        min_token_length: usize,
        max_token_length: usize,
    ) -> (r: Self)
        requires
            num_hashes <= usize::MAX - 3,
            strings@.len() * rounded_hash_count(num_hashes as nat) <= usize::MAX,
        ensures
            r.corpus() == strings@.map_values(|s: String| s@),
            r.hash_count() == rounded_hash_count(num_hashes as nat),
            r.seeds() == seeds_spec(rounded_hash_count(num_hashes as nat), SEED_BASE),
            r.min_len() == min_token_length,
            r.max_len() == max_token_length,
            flat_signatures_ok(r.cache(), r.signatures(), r.hash_count() as int),
            r.groups_ok(),
    {
        let num_hashes = round_up_to_multiple_of_group(num_hashes);
        let hash_seeds = generate_seeds(num_hashes, SEED_BASE);
        let tokencache = build_cache(
            strings.as_slice(),
            num_hashes,
            hash_seeds.as_slice(),
            min_token_length,
            max_token_length,
        );
        proof {
            lemma_table_signatures_full(
                strings@.map_values(|s: String| s@),
                hash_seeds@,
                min_token_length as nat,
                max_token_length as nat,
            );
        }
        let (group_indices, group_maps) = build_groups(
            tokencache.as_slice(),
            num_hashes,
            strings.len(),
        );
        let ghost sigs = corpus_signatures(
            strings@.map_values(|s: String| s@),
            hash_seeds@,
            min_token_length as nat,
            max_token_length as nat,
        );
        assert forall|g: int| 0 <= g < num_hashes / 4 implies table_keys(
            tokencache@,
            num_hashes as int,
            strings@.len(),
            g,
        ) == signature_keys(sigs, g) by {
            lemma_table_keys_are_signature_keys(tokencache@, sigs, num_hashes as int, g);
        }
        let ghost orders = group_indices@.map_values(|o: Vec<usize>| o@);
        let ghost maps = group_maps@.map_values(|m: Vec<GroupStart>| m@);
        assert forall|g: int| 0 <= g < num_hashes / 4 implies group_order_ok(
            signature_keys(sigs, g),
            #[trigger] orders[g],
        ) && group_starts_ok(signature_keys(sigs, g), orders[g], maps[g]) by {
            assert(orders[g] == group_indices@[g]@);
        }
        GroupedTokenFuzzer {
            strings,
            tokencache,
            num_hashes,
            hash_seeds,
            min_token_length,
            max_token_length,
            group_indices,
            group_maps,
        }
    }

    /// Number of components of `query_sig` that corpus string `idx` shares.
    fn score_row(&self, idx: usize, query_sig: &[u64]) -> (r: usize)
        requires
            idx < self.corpus().len(),
            query_sig@.len() == self.hash_count(),
        ensures
            r == score(self.signatures()[idx as int], query_sig@),
    {
        proof {
            use_type_invariant(self);
        }
        let ghost sigs = self.signatures();
        let nh = self.num_hashes;
        let n = self.strings.len();
        let cache_len = self.tokencache.len();
        proof {
            lemma_cell_in_table(idx as int, n as int, nh as int, 0);
        }
        let offset = idx * nh;
        let mut equal: usize = 0;
        for j in 0..nh
            invariant
                nh == self.num_hashes,
                n == sigs.len(),
                cache_len == self.tokencache@.len(),
                idx < n,
                offset == idx * nh,
                flat_signatures_ok(self.tokencache@, sigs, nh as int),
                query_sig@.len() == nh,
                equal == agree_count(sigs[idx as int], query_sig@, j as nat),
                equal <= j,
        {
            proof {
                lemma_cell_in_table(idx as int, n as int, nh as int, j as int);
            }
            assert(self.tokencache@[cell(idx as int, nh as int, j as int)] == sigs[idx as int][j as int]);
            if self.tokencache[offset + j] == query_sig[j] {
                equal += 1;
            }
        }
        equal
    }

    /// Scan of group `g` for the query signature `query_sig`, from the kept
    /// position `best_idx` and score `best_score`: walks the strings that
    /// share the query's key of the group, from the first position of that
    /// key in the group's order.
    fn scan_group(&self, query_sig: &[u64], g: usize, best_idx: usize, best_score: usize) -> (r: (
        usize,
        usize,
    ))
        requires
            query_sig@.len() == self.hash_count(),
            g < self.hash_count() / 4,
        ensures
            r.0 == group_scan(
                self.signatures(),
                query_sig@,
                g as int,
                self.corpus().len(),
                (best_idx as nat, best_score as nat),
            ).0,
            r.1 == group_scan(
                self.signatures(),
                query_sig@,
                g as int,
                self.corpus().len(),
                (best_idx as nat, best_score as nat),
            ).1,
    {
        proof {
            use_type_invariant(self);
        }
        let nh = self.num_hashes;
        let n = self.strings.len();
        let ghost sigs = self.signatures();
        let ghost q = query_sig@;
        let ghost acc = (best_idx as nat, best_score as nat);
        let ghost keys = signature_keys(sigs, g as int);
        let ghost order = self.group_indices@[g as int]@;
        assert(group_order_ok(keys, order) && group_starts_ok(
            keys,
            order,
            self.group_maps@[g as int]@,
        ));
        let key = group_key_from_query(query_sig, g);
        let ghost qk = key@;
        assert forall|i: int| 0 <= i < n implies #[trigger] shares_group(sigs[i], q, g as int) == (
        keys[i] == qk) by {}
        let mut best_idx = best_idx;
        let mut best_score = best_score;
        let found = find_group_start(self.group_maps[g].as_slice(), &key);
        match found {
            None => {
                proof {
                    assert forall|i: int| 0 <= i < n implies !shares_group(
                        #[trigger] sigs[i],
                        q,
                        g as int,
                    ) by {
                        if shares_group(sigs[i], q, g as int) {
                            assert(has_position(order, i));
                            let k = choose|k: int| 0 <= k < order.len() && #[trigger] order[k] == i;
                            assert(has_start(self.group_maps@[g as int]@, keys[order[k] as int]));
                        }
                    }
                    lemma_group_scan_skip(sigs, q, g as int, 0, n as nat, acc);
                }
            },
            Some(start_pos) => {
                let indices = &self.group_indices[g];
                assert(indices@ == order);
                let mut pos = start_pos;
                loop
                    invariant
                        nh == self.num_hashes,
                        n == self.strings@.len(),
                        n == sigs.len(),
                        sigs == self.signatures(),
                        q == query_sig@,
                        q.len() == nh,
                        nh % 4 == 0,
                        g < nh / 4,
                        keys == signature_keys(sigs, g as int),
                        qk == key@,
                        qk == group_key(q, g as int),
                        indices@ == order,
                        group_order_ok(keys, order),
                        start_pos < n,
                        keys[order[start_pos as int] as int] == qk,
                        start_pos == 0 || keys[order[start_pos - 1] as int] != qk,
                        start_pos <= pos <= n,
                        forall|k: int| start_pos <= k < pos ==> keys[#[trigger] order[k] as int] == qk,
                        best_idx == group_scan(
                            sigs,
                            q,
                            g as int,
                            if pos == start_pos {
                                0
                            } else {
                                (order[pos - 1] + 1) as nat
                            },
                            acc,
                        ).0,
                        best_score == group_scan(
                            sigs,
                            q,
                            g as int,
                            if pos == start_pos {
                                0
                            } else {
                                (order[pos - 1] + 1) as nat
                            },
                            acc,
                        ).1,
                    ensures
                        best_idx == group_scan(sigs, q, g as int, n as nat, acc).0,
                        best_score == group_scan(sigs, q, g as int, n as nat, acc).1,
                    decreases n - pos,
                {
                    proof {
                        use_type_invariant(self);
                    }
                    let ghost u: nat = if pos == start_pos {
                        0
                    } else {
                        (order[pos - 1] + 1) as nat
                    };
                    if pos >= indices.len() {
                        proof {
                            assert forall|i: int| u <= i < n implies !shares_group(
                                #[trigger] sigs[i],
                                q,
                                g as int,
                            ) by {
                                lemma_no_key_after_block(
                                    keys,
                                    order,
                                    qk,
                                    start_pos as int,
                                    pos as int,
                                    i,
                                );
                            }
                            lemma_group_scan_skip(sigs, q, g as int, u, n as nat, acc);
                        }
                        break;
                    }
                    let idx = indices[pos];
                    proof {
                        lemma_cell_in_table(idx as int, n as int, nh as int, 4 * g);
                        lemma_table_keys_are_signature_keys(
                            self.tokencache@,
                            sigs,
                            nh as int,
                            g as int,
                        );
                        assert(table_keys(self.tokencache@, nh as int, n as nat, g as int)[idx as int]
                            == keys[idx as int]);
                    }
                    if !group_key_matches_cache(self.tokencache.as_slice(), nh, g, idx, &key) {
                        proof {
                            assert forall|i: int| u <= i < n implies !shares_group(
                                #[trigger] sigs[i],
                                q,
                                g as int,
                            ) by {
                                lemma_no_key_after_block(
                                    keys,
                                    order,
                                    qk,
                                    start_pos as int,
                                    pos as int,
                                    i,
                                );
                            }
                            lemma_group_scan_skip(sigs, q, g as int, u, n as nat, acc);
                        }
                        break;
                    }
                    proof {
                        assert forall|i: int| u <= i < idx implies !shares_group(
                            #[trigger] sigs[i],
                            q,
                            g as int,
                        ) by {
                            lemma_no_key_in_gap(keys, order, qk, start_pos as int, pos as int, i);
                        }
                        if pos > start_pos {
                            assert(order[pos - 1] < order[pos as int]);
                        }
                        lemma_group_scan_skip(sigs, q, g as int, u, idx as nat, acc);
                    }
                    let equal = self.score_row(idx, query_sig);
                    if equal > best_score {
                        best_score = equal;
                        best_idx = idx;
                    }
                    pos += 1;
                }
            },
        }
        (best_idx, best_score)
    }

    /// The corpus string that the grouped search finds for `s`: among the
    /// strings that agree with the signature of `s` on a whole group,
    /// visited group by group and, within a group, in increasing order, the
    /// first one whose score beats every score before it (the first corpus
    /// string when none agrees on a group).  Fails when the corpus is empty.
    pub fn match_closest(&self, s: &String) -> (r: Result<String, String>)
        ensures
            match r {
                Ok(v) => self.corpus().len() > 0 && v@ == self.corpus()[grouped_closest_index(
                    self.signatures(),
                    self.query_signature(s@),
                ) as int],
                Err(e) => self.corpus().len() == 0 && e@ == empty_corpus_message(),
            },
    {
        proof {
            use_type_invariant(self);
        }
        if self.strings.len() == 0 {
            return Err("TokenFuzzer contains no strings to match against".to_string());
        }
        let nh = self.num_hashes;
        let ghost sigs = self.signatures();

        let mut query_sig = vec![u64::MAX; nh];
        assert forall|k: int| 0 <= k < query_sig@.len() implies query_sig@[k] == u64::MAX by {
            assert(vstd::pervasive::cloned(u64::MAX, query_sig@[k]));
        }
        compute_signature(
            s,
            self.hash_seeds.as_slice(),
            query_sig.as_mut_slice(),
            self.min_token_length,
            self.max_token_length,
        );
        let ghost q = query_sig@;
        assert(q =~= self.query_signature(s@));

        let mut best_idx: usize = 0;
        let mut best_score: usize = 0;
        let num_groups = nh / GROUP_SIZE;
        for g in 0..num_groups
            invariant
                nh == self.num_hashes,
                self.hash_count() == nh,
                num_groups == nh / 4,
                sigs == self.signatures(),
                sigs.len() == self.corpus().len(),
                q == query_sig@,
                q.len() == nh,
                best_idx == grouped_scan(sigs, q, g as nat).0,
                best_score == grouped_scan(sigs, q, g as nat).1,
        {
            let r = self.scan_group(query_sig.as_slice(), g, best_idx, best_score);
            best_idx = r.0;
            best_score = r.1;
        }
        proof {
            lemma_grouped_scan_in_range(sigs, q, num_groups as nat);
        }
        Ok(self.strings[best_idx].clone())
    }
}

} // verus!
