//! Work spread over threads by rayon.
use vstd::prelude::*;
use rayon::iter::{
    IndexedParallelIterator, IntoParallelIterator, IntoParallelRefIterator, IntoParallelRefMutIterator,
    ParallelIterator,
};
use rayon::slice::ParallelSliceMut;
use crate::hashing::{cell, compute_signature, min_hash, min_u64, string_bytes};
use crate::binary::{sort_entries, IndexEntry, entries_sorted};
use crate::grouped::{build_group, group_order_ok, group_starts_ok, table_keys, GroupStart};

verus! {

/// Splits `table` into rows of `width` components with rayon's
/// `par_chunks_mut`, pairs row `i` with `strings[i]` (`zip` with
/// `par_iter`), and runs [`compute_signature`] on each pair (`for_each`).
/// Claimed: rayon hands every pair to the closure exactly once, so each row
/// ends as `compute_signature` leaves it: component `j` of row `i` is lowered
/// to the MinHash component of `strings[i]` under `seeds[j]` when there is
/// such a seed, and is left as it was otherwise.  Rayon panics on a width of
/// 0, which `requires` leaves out.
#[verifier::external_body]
pub(crate) fn par_fill_signatures(
    table: &mut Vec<u64>,
    strings: &[String],
    seeds: &[u64],
    width: usize,
    min_token_length: usize,
    max_token_length: usize,
)
    requires
        width > 0,
        old(table)@.len() == strings@.len() * width,
    ensures
        final(table)@.len() == old(table)@.len(),
        forall|i: int, j: int|
            0 <= i < strings@.len() && 0 <= j < width ==> #[trigger] final(table)@[cell(
                i,
                width as int,
                j,
            )] == (if j < seeds@.len() {
                min_u64(
                    old(table)@[cell(i, width as int, j)],
                    min_hash(
                        string_bytes(strings@[i]@),
                        seeds@[j],
                        min_token_length as nat,
                        max_token_length as nat,
                    ),
                )
            } else {
                old(table)@[cell(i, width as int, j)]
            }),
{
    table.par_chunks_mut(width).zip(strings.par_iter()).for_each(|(row, s)| {
        compute_signature(s, seeds, row, min_token_length, max_token_length)
    });
}

/// Runs [`sort_entries`] on every list of `lists` in parallel, with rayon's
/// `par_iter_mut` and `for_each`.  Claimed: rayon hands every list to the
/// closure exactly once, so each list ends as `sort_entries` leaves it: the
/// same entries, in increasing (hash, id) order.
#[verifier::external_body]
pub(crate) fn par_sort_lists(lists: &mut Vec<Vec<IndexEntry>>)
    ensures
        final(lists)@.len() == old(lists)@.len(),
        forall|h: int|
            0 <= h < old(lists)@.len() ==> (#[trigger] final(lists)@[h])@.to_multiset() == old(
                lists,
            )@[h]@.to_multiset() && entries_sorted(final(lists)@[h]@),
{
    lists.par_iter_mut().for_each(|list| sort_entries(list));
}

/// Runs [`build_group`] for each group `g` below `num_groups`, with rayon's
/// `into_par_iter` over the range, `map`, and `unzip` into two vectors.
/// Claimed: rayon hands every `g` to the closure exactly once and `unzip`
/// keeps the range's order, so entry `g` of each vector is what
/// `build_group` returns for group `g`.
#[verifier::external_body]
pub(crate) fn par_build_groups(
    tokencache: &[u64],
    num_hashes: usize,
    num_strings: usize,
    num_groups: usize,
) -> (r: (Vec<Vec<usize>>, Vec<Vec<GroupStart>>))
    requires
        tokencache@.len() >= num_strings * num_hashes,
        4 * num_groups <= num_hashes,
    ensures
        r.0@.len() == num_groups,
        r.1@.len() == num_groups,
        forall|g: int|
            0 <= g < num_groups ==> group_order_ok(
                table_keys(tokencache@, num_hashes as int, num_strings as nat, g),
                (#[trigger] r.0@[g])@,
            ) && group_starts_ok(
                table_keys(tokencache@, num_hashes as int, num_strings as nat, g),
                r.0@[g]@,
                r.1@[g]@,
            ),
{
    (0..num_groups).into_par_iter().map(|g| build_group(tokencache, num_hashes, num_strings, g)).unzip()
}

} // verus!
