//! Seeded hash functions, n-gram tokens and MinHash signatures.
use vstd::prelude::*;

verus! {

/// The seed from which a fuzzer derives its family of hash functions.
pub const SEED_BASE: u64 = 0x1234_5678_9abc_def0u64;

/// Increment of the seed stream (the odd constant of splitmix64).
pub const SEED_STEP: u64 = 0x9e37_79b9_7f4a_7c15u64;

/// Offset basis of 64-bit FNV-1a.
pub const FNV_OFFSET: u64 = 0xcbf2_9ce4_8422_2325u64;

/// Prime of 64-bit FNV-1a.
pub const FNV_PRIME: u64 = 0x0000_0100_0000_01b3u64;

/// First multiplier of the splitmix64 finaliser.
pub const MIX_MUL_1: u64 = 0xbf58_476d_1ce4_e5b9u64;

/// Second multiplier of the splitmix64 finaliser.
pub const MIX_MUL_2: u64 = 0x94d0_49bb_1331_11ebu64;

/// Multiplication modulo 2^64.
pub open spec fn wrap_mul(a: u64, b: u64) -> u64 {
    vstd::wrapping::u64_specs::wrapping_mul(a, b)
}

/// Addition modulo 2^64.
pub open spec fn wrap_add(a: u64, b: u64) -> u64 {
    vstd::wrapping::u64_specs::wrapping_add(a, b)
}

/// The splitmix64 finaliser: a bijective scrambling of 64 bits.
pub open spec fn mix64(z: u64) -> u64 {
    let a = z ^ (z >> 30u64);
    let b = wrap_mul(a, MIX_MUL_1);
    let c = b ^ (b >> 27u64);
    let d = wrap_mul(c, MIX_MUL_2);
    d ^ (d >> 31u64)
}

/// Computes [`mix64`].
pub fn mix(z: u64) -> (r: u64)
    ensures
        r == mix64(z),
{
    let a = z ^ (z >> 30u64);
    let b = a.wrapping_mul(MIX_MUL_1);
    let c = b ^ (b >> 27u64);
    let d = c.wrapping_mul(MIX_MUL_2);
    d ^ (d >> 31u64)
}

/// The seed of the `i`-th hash function of the family rooted at `base`:
/// the `i`-th output of a splitmix64 stream started at `base`.
pub open spec fn seed_at(base: u64, i: int) -> u64 {
    mix64(wrap_add(base, wrap_mul(SEED_STEP, (i + 1) as u64)))
}

/// The first `n` seeds of the family rooted at `base`.
pub open spec fn seeds_spec(n: nat, base: u64) -> Seq<u64> {
    Seq::new(n, |i: int| seed_at(base, i))
}

/// Returns the seeds of `n` hash functions, derived from `base`.
pub fn generate_seeds(n: usize, base: u64) -> (seeds: Vec<u64>)
    ensures
        seeds@ == seeds_spec(n as nat, base),
        forall|i: int, j: int| 0 <= i < j < n ==> #[trigger] seeds@[i] != #[trigger] seeds@[j],
{
    proof {
        lemma_seeds_distinct(n as nat, base);
    }
    let mut seeds: Vec<u64> = Vec::new();
    for i in 0..n
        invariant
            seeds@ == seeds_spec(i as nat, base),
    {
        let k: u64 = (i + 1) as u64;
        seeds.push(mix(base.wrapping_add(SEED_STEP.wrapping_mul(k))));
    }
    seeds
}

/// 64-bit FNV-1a hash of a byte string.
pub open spec fn fnv_hash(t: Seq<u8>) -> u64
    decreases t.len(),
{
    if t.len() == 0 {
        FNV_OFFSET
    } else {
        wrap_mul(fnv_hash(t.drop_last()) ^ (t.last() as u64), FNV_PRIME)
    }
}

/// Hash of the token `t` under the hash function with seed `seed`.
pub open spec fn token_hash(seed: u64, t: Seq<u8>) -> u64 {
    mix64(fnv_hash(t) ^ seed)
}

/// The smaller of two numbers.
pub open spec fn min_u64(a: u64, b: u64) -> u64 {
    if a <= b {
        a
    } else {
        b
    }
}

/// Tokens are the byte n-grams of `bytes` whose length lies in `(lo, hi]`:
/// the one that starts at `start` and has `len` bytes.
pub open spec fn is_token(bytes: Seq<u8>, lo: nat, hi: nat, start: int, len: int) -> bool {
    0 <= start && lo < len <= hi && start + len <= bytes.len()
}

/// Least hash under `seed` of the tokens that start at `start` with a length
/// of at most `m`; `u64::MAX` when there is none.
pub open spec fn start_min(bytes: Seq<u8>, seed: u64, lo: nat, start: nat, m: nat) -> u64
    decreases m,
{
    if m == 0 {
        u64::MAX
    } else {
        let rest = start_min(bytes, seed, lo, start, (m - 1) as nat);
        if lo < m && start + m <= bytes.len() {
            min_u64(rest, token_hash(seed, bytes.subrange(start as int, (start + m) as int)))
        } else {
            rest
        }
    }
}

/// Least hash under `seed` of the tokens that start before `k`.
pub open spec fn prefix_min(bytes: Seq<u8>, seed: u64, lo: nat, hi: nat, k: nat) -> u64
    decreases k,
{
    if k == 0 {
        u64::MAX
    } else {
        min_u64(
            prefix_min(bytes, seed, lo, hi, (k - 1) as nat),
            start_min(bytes, seed, lo, (k - 1) as nat, hi),
        )
    }
}

/// MinHash component: the least hash under `seed` over all tokens of `bytes`,
/// or `u64::MAX` when `bytes` has no token.
pub open spec fn min_hash(bytes: Seq<u8>, seed: u64, lo: nat, hi: nat) -> u64 {
    prefix_min(bytes, seed, lo, hi, bytes.len())
}

/// MinHash signature of `bytes`: one component per seed.
pub open spec fn signature(bytes: Seq<u8>, seeds: Seq<u64>, lo: nat, hi: nat) -> Seq<u64> {
    Seq::new(seeds.len(), |h: int| min_hash(bytes, seeds[h], lo, hi))
}

/// The bytes of a string: its UTF-8 encoding.
pub open spec fn string_bytes(s: Seq<char>) -> Seq<u8> {
    vstd::utf8::encode_utf8(s)
}

/// Signature of the string `s`.
pub open spec fn string_signature(s: Seq<char>, seeds: Seq<u64>, lo: nat, hi: nat) -> Seq<u64> {
    signature(string_bytes(s), seeds, lo, hi)
}

/// Multiplying by a number `c` that has an inverse modulo 2^64 (odd
/// numbers do) can be undone: it never maps two numbers to one.
pub proof fn lemma_wrap_mul_cancel(a: u64, b: u64, c: u64, c_inv: int)
    requires
        (c as int * c_inv) % 0x1_0000_0000_0000_0000int == 1,
        wrap_mul(a, c) == wrap_mul(b, c),
    ensures
        a == b,
{
    let m = 0x1_0000_0000_0000_0000int;
    let x = a as int;
    let y = b as int;
    assert(wrap_mul(a, c) as int == (x * c) % m);
    assert(wrap_mul(b, c) as int == (y * c) % m);
    vstd::arithmetic::div_mod::lemma_mul_mod_noop_left(x * c, c_inv, m);
    vstd::arithmetic::div_mod::lemma_mul_mod_noop_left(y * c, c_inv, m);
    assert((x * c) * c_inv == x * (c * c_inv)) by (nonlinear_arith);
    assert((y * c) * c_inv == y * (c * c_inv)) by (nonlinear_arith);
    vstd::arithmetic::div_mod::lemma_mul_mod_noop_right(x, c * c_inv, m);
    vstd::arithmetic::div_mod::lemma_mul_mod_noop_right(y, c * c_inv, m);
    vstd::arithmetic::div_mod::lemma_small_mod(x as nat, m as nat);
    vstd::arithmetic::div_mod::lemma_small_mod(y as nat, m as nat);
    assert(x == ((x * c) % m) * c_inv % m);
    assert(y == ((y * c) % m) * c_inv % m);
}

proof fn lemma_xorshift_cancel(a: u64, b: u64)
    ensures
        a ^ (a >> 30u64) == b ^ (b >> 30u64) ==> a == b,
        a ^ (a >> 27u64) == b ^ (b >> 27u64) ==> a == b,
        a ^ (a >> 31u64) == b ^ (b >> 31u64) ==> a == b,
{
    assert(a ^ (a >> 30u64) == b ^ (b >> 30u64) ==> a == b) by (bit_vector);
    assert(a ^ (a >> 27u64) == b ^ (b >> 27u64) ==> a == b) by (bit_vector);
    assert(a ^ (a >> 31u64) == b ^ (b >> 31u64) ==> a == b) by (bit_vector);
}

/// The finaliser is one-to-one: distinct inputs give distinct outputs.
pub proof fn lemma_mix64_injective(a: u64, b: u64)
    ensures
        mix64(a) == mix64(b) ==> a == b,
{
    if mix64(a) == mix64(b) {
        let a1 = a ^ (a >> 30u64);
        let b1 = b ^ (b >> 30u64);
        let a2 = wrap_mul(a1, MIX_MUL_1);
        let b2 = wrap_mul(b1, MIX_MUL_1);
        let a3 = a2 ^ (a2 >> 27u64);
        let b3 = b2 ^ (b2 >> 27u64);
        let a4 = wrap_mul(a3, MIX_MUL_2);
        let b4 = wrap_mul(b3, MIX_MUL_2);
        lemma_xorshift_cancel(a4, b4);
        assert(MIX_MUL_2 as int * 0x3196_42b2_d24d_8ec3int % 0x1_0000_0000_0000_0000int == 1);
        lemma_wrap_mul_cancel(a3, b3, MIX_MUL_2, 0x3196_42b2_d24d_8ec3int);
        lemma_xorshift_cancel(a2, b2);
        assert(MIX_MUL_1 as int * 0x96de_1b17_3f11_9089int % 0x1_0000_0000_0000_0000int == 1);
        lemma_wrap_mul_cancel(a1, b1, MIX_MUL_1, 0x96de_1b17_3f11_9089int);
        lemma_xorshift_cancel(a, b);
    }
}

/// FNV-1a takes in every byte of a token: hashing one more byte `b` after
/// `t` xors `b` into the hash of `t` and multiplies by the FNV prime, for
/// tokens of every length.
pub proof fn lemma_fnv_hash_step(t: Seq<u8>, b: u8)
    ensures
        fnv_hash(t.push(b)) == wrap_mul(fnv_hash(t) ^ (b as u64), FNV_PRIME),
{
    assert(t.push(b).drop_last() =~= t);
}

proof fn lemma_fnv_step_cancel(h1: u64, h2: u64, b1: u8, b2: u8)
    requires
        wrap_mul(h1 ^ (b1 as u64), FNV_PRIME) == wrap_mul(h2 ^ (b2 as u64), FNV_PRIME),
    ensures
        h1 == h2 ==> b1 == b2,
        b1 == b2 ==> h1 == h2,
{
    assert(FNV_PRIME as int * 0xce96_5057_aff6_957bint % 0x1_0000_0000_0000_0000int == 1);
    lemma_wrap_mul_cancel(h1 ^ (b1 as u64), h2 ^ (b2 as u64), FNV_PRIME, 0xce96_5057_aff6_957bint);
    let x1 = b1 as u64;
    let x2 = b2 as u64;
    assert(h1 ^ x1 == h2 ^ x2 ==> (h1 == h2 <==> x1 == x2)) by (bit_vector);
}

/// Strings with different hashes keep different hashes when the same
/// bytes are appended to both.
pub proof fn lemma_fnv_hash_suffix(p1: Seq<u8>, p2: Seq<u8>, s: Seq<u8>)
    requires
        fnv_hash(p1) != fnv_hash(p2),
    ensures
        fnv_hash(p1 + s) != fnv_hash(p2 + s),
    decreases s.len(),
{
    if s.len() > 0 {
        let s0 = s.drop_last();
        let b = s.last();
        lemma_fnv_hash_suffix(p1, p2, s0);
        assert((p1 + s) =~= (p1 + s0).push(b));
        assert((p2 + s) =~= (p2 + s0).push(b));
        lemma_fnv_hash_step(p1 + s0, b);
        lemma_fnv_hash_step(p2 + s0, b);
        if fnv_hash(p1 + s) == fnv_hash(p2 + s) {
            lemma_fnv_step_cancel(fnv_hash(p1 + s0), fnv_hash(p2 + s0), b, b);
        }
    }
}

/// A token's hash depends on each of its bytes: two tokens that differ in
/// one byte, wherever it stands, hash differently under every seed.
pub proof fn lemma_token_hash_sees_every_byte(seed: u64, a: Seq<u8>, b1: u8, b2: u8, s: Seq<u8>)
    requires
        b1 != b2,
    ensures
        token_hash(seed, a.push(b1) + s) != token_hash(seed, a.push(b2) + s),
{
    lemma_fnv_hash_step(a, b1);
    lemma_fnv_hash_step(a, b2);
    if fnv_hash(a.push(b1)) == fnv_hash(a.push(b2)) {
        lemma_fnv_step_cancel(fnv_hash(a), fnv_hash(a), b1, b2);
    }
    lemma_fnv_hash_suffix(a.push(b1), a.push(b2), s);
    let f1 = fnv_hash(a.push(b1) + s);
    let f2 = fnv_hash(a.push(b2) + s);
    lemma_mix64_injective(f1 ^ seed, f2 ^ seed);
    assert(f1 ^ seed == f2 ^ seed ==> f1 == f2) by (bit_vector);
}

/// Distinct seeds give distinct hash functions: they hash every token
/// differently.
pub proof fn lemma_token_hash_separates_seeds(seed1: u64, seed2: u64, t: Seq<u8>)
    requires
        seed1 != seed2,
    ensures
        token_hash(seed1, t) != token_hash(seed2, t),
{
    let f = fnv_hash(t);
    lemma_mix64_injective(f ^ seed1, f ^ seed2);
    assert(f ^ seed1 == f ^ seed2 ==> seed1 == seed2) by (bit_vector);
}

/// The `i`-th seed is the `i + 1`-th output of the splitmix64 stream that
/// starts at `base`: the finaliser applied to `base + (i + 1) * SEED_STEP`
/// modulo 2^64, for every `i`.
pub proof fn lemma_seed_formula(base: u64, n: nat, i: int)
    requires
        0 <= i < n,
        n <= u64::MAX,
    ensures
        seeds_spec(n, base)[i] == mix64(
            ((base as int + (i + 1) * SEED_STEP as int) % 0x1_0000_0000_0000_0000int) as u64,
        ),
{
    let m = 0x1_0000_0000_0000_0000int;
    let k = (i + 1) as u64;
    assert(k as int == i + 1);
    let p = wrap_mul(SEED_STEP, k) as int;
    assert(p == (SEED_STEP as int * (i + 1)) % m);
    vstd::arithmetic::div_mod::lemma_add_mod_noop(base as int, SEED_STEP as int * (i + 1), m);
    vstd::arithmetic::div_mod::lemma_small_mod(base as nat, m as nat);
    assert((i + 1) * SEED_STEP as int == SEED_STEP as int * (i + 1)) by (nonlinear_arith);
    assert(wrap_add(base, wrap_mul(SEED_STEP, k)) as int == (base as int + p) % m);
}

/// The seeds of a family are pairwise distinct, so a fuzzer's `n` hash
/// functions are `n` different functions.
pub proof fn lemma_seeds_distinct(n: nat, base: u64)
    requires
        n <= u64::MAX,
    ensures
        forall|i: int, j: int|
            0 <= i < j < n ==> #[trigger] seeds_spec(n, base)[i] != #[trigger] seeds_spec(n, base)[j],
{
    assert forall|i: int, j: int| 0 <= i < j < n implies #[trigger] seeds_spec(n, base)[i]
        != #[trigger] seeds_spec(n, base)[j] by {
        let ki = (i + 1) as u64;
        let kj = (j + 1) as u64;
        let zi = wrap_add(base, wrap_mul(SEED_STEP, ki));
        let zj = wrap_add(base, wrap_mul(SEED_STEP, kj));
        lemma_mix64_injective(zi, zj);
        if zi == zj {
            assert(wrap_mul(SEED_STEP, ki) == wrap_mul(SEED_STEP, kj));
            assert(SEED_STEP as int * 0xf1de_83e1_9937_733dint % 0x1_0000_0000_0000_0000int == 1);
            assert(wrap_mul(ki, SEED_STEP) == wrap_mul(SEED_STEP, ki)) by (nonlinear_arith);
            assert(wrap_mul(kj, SEED_STEP) == wrap_mul(SEED_STEP, kj)) by (nonlinear_arith);
            lemma_wrap_mul_cancel(ki, kj, SEED_STEP, 0xf1de_83e1_9937_733dint);
        }
    }
}

/// Position of component `j` of row `i` in a row-major table whose rows hold
/// `width` components.
pub open spec fn cell(i: int, width: int, j: int) -> int {
    i * width + j
}

/// A cell of an `n` by `width` table lies inside it.
pub proof fn lemma_cell_in_table(i: int, n: int, width: int, j: int)
    requires
        0 <= i < n,
        0 <= j < width,
    ensures
        0 <= cell(i, width, j) < n * width,
        cell(i, width, j) + (width - j) <= n * width,
{
    assert(0 <= i * width + j < n * width && i * width + j + (width - j) <= n * width)
        by (nonlinear_arith)
        requires
            0 <= i < n,
            0 <= j < width,
    ;
}

/// `table` holds, row after row, the components of the signatures `sigs`,
/// each `width` long.
pub open spec fn flat_signatures_ok(table: Seq<u64>, sigs: Seq<Seq<u64>>, width: int) -> bool {
    &&& table.len() == sigs.len() * width
    &&& forall|i: int| 0 <= i < sigs.len() ==> #[trigger] sigs[i].len() == width
    &&& forall|i: int, j: int|
        0 <= i < sigs.len() && 0 <= j < width ==> #[trigger] table[cell(i, width, j)] == sigs[i][j]
}

/// A row-major table of signatures is determined by the signatures.
pub proof fn lemma_flat_table_unique(t1: Seq<u64>, t2: Seq<u64>, sigs: Seq<Seq<u64>>, width: int)
    requires
        width > 0,
        flat_signatures_ok(t1, sigs, width),
        flat_signatures_ok(t2, sigs, width),
    ensures
        t1 == t2,
{
    let n = sigs.len() as int;
    assert forall|k: int| 0 <= k < t1.len() implies t1[k] == t2[k] by {
        let i = k / width;
        let j = k % width;
        vstd::arithmetic::div_mod::lemma_fundamental_div_mod(k, width);
        vstd::arithmetic::div_mod::lemma_mod_bound(k, width);
        assert(k == cell(i, width, j) && 0 <= i < n) by (nonlinear_arith)
            requires
                k == width * i + j,
                0 <= j < width,
                0 <= k < n * width,
                width > 0,
        ;
        assert(t1[cell(i, width, j)] == sigs[i][j]);
        assert(t2[cell(i, width, j)] == sigs[i][j]);
    }
    assert(t1 =~= t2);
}

/// The table of a list of signatures followed by another is the table of
/// the first followed by the table of the second.
pub proof fn lemma_flat_table_concat(
    ta: Seq<u64>,
    tb: Seq<u64>,
    sa: Seq<Seq<u64>>,
    sb: Seq<Seq<u64>>,
    width: int,
)
    requires
        width > 0,
        flat_signatures_ok(ta, sa, width),
        flat_signatures_ok(tb, sb, width),
    ensures
        flat_signatures_ok(ta + tb, sa + sb, width),
{
    let na = sa.len() as int;
    let nb = sb.len() as int;
    let s = sa + sb;
    let t = ta + tb;
    assert(t.len() == s.len() * width) by (nonlinear_arith)
        requires
            t.len() == na * width + nb * width,
            s.len() == na + nb,
    ;
    assert forall|i: int, j: int| 0 <= i < s.len() && 0 <= j < width implies #[trigger] t[cell(
        i,
        width,
        j,
    )] == s[i][j] by {
        if i < na {
            lemma_cell_in_table(i, na, width, j);
            assert(ta[cell(i, width, j)] == sa[i][j]);
        } else {
            lemma_cell_in_table(i - na, nb, width, j);
            assert(cell(i, width, j) == na * width + cell(i - na, width, j)) by (nonlinear_arith);
            assert(tb[cell(i - na, width, j)] == sb[i - na][j]);
        }
    }
    assert forall|i: int| 0 <= i < s.len() implies #[trigger] s[i].len() == width by {
        if i < na {
            assert(sa[i].len() == width);
        } else {
            assert(sb[i - na].len() == width);
        }
    }
}

proof fn lemma_start_min_tail(bytes: Seq<u8>, seed: u64, lo: nat, start: nat, m: nat, m2: nat)
    requires
        m <= m2,
        start + m >= bytes.len(),
    ensures
        start_min(bytes, seed, lo, start, m2) == start_min(bytes, seed, lo, start, m),
    decreases m2 - m,
{
    if m < m2 {
        lemma_start_min_tail(bytes, seed, lo, start, m, (m2 - 1) as nat);
    }
}

proof fn lemma_start_min_least(bytes: Seq<u8>, seed: u64, lo: nat, start: nat, m: nat)
    ensures
        forall|len: int|
            lo < len <= m && start + len <= bytes.len() ==> start_min(bytes, seed, lo, start, m)
                <= #[trigger] token_hash(seed, bytes.subrange(start as int, start + len)),
        start_min(bytes, seed, lo, start, m) == u64::MAX || exists|len: int|
            lo < len <= m && start + len <= bytes.len() && start_min(bytes, seed, lo, start, m)
                == #[trigger] token_hash(seed, bytes.subrange(start as int, start + len)),
    decreases m,
{
    if m > 0 {
        lemma_start_min_least(bytes, seed, lo, start, (m - 1) as nat);
    }
}

proof fn lemma_prefix_min_least(bytes: Seq<u8>, seed: u64, lo: nat, hi: nat, k: nat)
    ensures
        forall|start: int, len: int|
            start < k && is_token(bytes, lo, hi, start, len) ==> prefix_min(bytes, seed, lo, hi, k)
                <= #[trigger] token_hash(seed, bytes.subrange(start, start + len)),
        prefix_min(bytes, seed, lo, hi, k) == u64::MAX || exists|start: int, len: int|
            start < k && is_token(bytes, lo, hi, start, len) && prefix_min(bytes, seed, lo, hi, k)
                == #[trigger] token_hash(seed, bytes.subrange(start, start + len)),
    decreases k,
{
    if k > 0 {
        let k1 = (k - 1) as nat;
        lemma_prefix_min_least(bytes, seed, lo, hi, k1);
        lemma_start_min_least(bytes, seed, lo, k1, hi);
        let r = prefix_min(bytes, seed, lo, hi, k);
        if r != u64::MAX {
            if r == start_min(bytes, seed, lo, k1, hi) {
                let len = choose|len: int|
                    lo < len <= hi && k1 + len <= bytes.len() && start_min(bytes, seed, lo, k1, hi)
                        == #[trigger] token_hash(seed, bytes.subrange(k1 as int, k1 + len));
                assert(is_token(bytes, lo, hi, k1 as int, len));
            }
        }
    }
}

/// A MinHash component is the least hash of a token: it is at most the hash
/// of every token of `bytes`, and it is the hash of one of them, unless it is
/// `u64::MAX` (which it is when `bytes` has no token).
pub proof fn lemma_min_hash_is_least(bytes: Seq<u8>, seed: u64, lo: nat, hi: nat)
    ensures
        forall|start: int, len: int|
            is_token(bytes, lo, hi, start, len) ==> min_hash(bytes, seed, lo, hi)
                <= #[trigger] token_hash(seed, bytes.subrange(start, start + len)),
        min_hash(bytes, seed, lo, hi) == u64::MAX || exists|start: int, len: int|
            is_token(bytes, lo, hi, start, len) && min_hash(bytes, seed, lo, hi)
                == #[trigger] token_hash(seed, bytes.subrange(start, start + len)),
        (forall|start: int, len: int| !is_token(bytes, lo, hi, start, len)) ==> min_hash(
            bytes,
            seed,
            lo,
            hi,
        ) == u64::MAX,
{
    lemma_prefix_min_least(bytes, seed, lo, hi, bytes.len());
}

/// Lowers each of the first `count` components of `out` to the hash of the
/// token whose FNV-1a state is `fnv`, under the matching seed.
fn fold_token(out: &mut [u64], seeds: &[u64], count: usize, fnv: u64)
    requires
        count <= old(out)@.len(),
        count <= seeds@.len(),
    ensures
        final(out)@.len() == old(out)@.len(),
        forall|h: int|
            0 <= h < count ==> #[trigger] final(out)@[h] == min_u64(
                old(out)@[h],
                mix64(fnv ^ seeds@[h]),
            ),
        forall|h: int| count <= h < old(out)@.len() ==> #[trigger] final(out)@[h] == old(out)@[h],
{
    for h in 0..count
        invariant
            count <= out@.len(),
            count <= seeds@.len(),
            out@.len() == old(out)@.len(),
            forall|h2: int|
                0 <= h2 < h ==> #[trigger] out@[h2] == min_u64(
                    old(out)@[h2],
                    mix64(fnv ^ seeds@[h2]),
                ),
            forall|h2: int| h <= h2 < old(out)@.len() ==> #[trigger] out@[h2] == old(out)@[h2],
    {
        let t = mix(fnv ^ seeds[h]);
        if t < out[h] {
            out[h] = t;
        }
    }
}

/// Lowers `out[h]` to the MinHash component of `s` under `seeds[h]`, for
/// each `h` below both lengths: `out[h]` becomes the least of its old value
/// and the hashes under `seeds[h]` of the n-grams of `s` (as UTF-8 bytes)
/// whose length lies in `(min_token_length, max_token_length]`.  The other
/// components are left as they were.
pub fn compute_signature(
    s: &String,
    seeds: &[u64],
    out: &mut [u64],
    min_token_length: usize,
    max_token_length: usize,
)
    ensures
        final(out)@.len() == old(out)@.len(),
        forall|h: int|
            0 <= h < old(out)@.len() ==> #[trigger] final(out)@[h] == (if h < seeds@.len() {
                min_u64(
                    old(out)@[h],
                    min_hash(
                        string_bytes(s@),
                        seeds@[h],
                        min_token_length as nat,
                        max_token_length as nat,
                    ),
                )
            } else {
                old(out)@[h]
            }),
{
    let ghost lo = min_token_length as nat;
    let ghost hi = max_token_length as nat;
    let bytes = s.as_str().as_bytes();
    let ghost bs = bytes@;
    assert(bs == string_bytes(s@));
    let n = bytes.len();
    let count = if out.len() < seeds.len() {
        out.len()
    } else {
        seeds.len()
    };
    let mut k: usize = 0;
    while k < n
        invariant
            lo == min_token_length as nat,
            hi == max_token_length as nat,
            bytes@ == bs,
            n == bs.len(),
            count <= out@.len(),
            count <= seeds@.len(),
            count == old(out)@.len() || count == seeds@.len(),
            k <= n,
            out@.len() == old(out)@.len(),
            forall|h: int|
                0 <= h < count ==> #[trigger] out@[h] == min_u64(
                    old(out)@[h],
                    prefix_min(bs, seeds@[h], lo, hi, k as nat),
                ),
            forall|h: int| count <= h < old(out)@.len() ==> #[trigger] out@[h] == old(out)@[h],
        decreases n - k,
    {
        let mut state: u64 = FNV_OFFSET;
        let mut m: usize = 0;
        assert(bs.subrange(k as int, k as int) =~= Seq::<u8>::empty());
        while m < max_token_length && k + m < n
            invariant
                lo == min_token_length as nat,
                hi == max_token_length as nat,
                bytes@ == bs,
                n == bs.len(),
                count <= out@.len(),
                count <= seeds@.len(),
                k < n,
                m <= max_token_length,
                k + m <= n,
                state == fnv_hash(bs.subrange(k as int, k + m)),
                out@.len() == old(out)@.len(),
                forall|h: int|
                    0 <= h < count ==> #[trigger] out@[h] == min_u64(
                        old(out)@[h],
                        min_u64(
                            prefix_min(bs, seeds@[h], lo, hi, k as nat),
                            start_min(bs, seeds@[h], lo, k as nat, m as nat),
                        ),
                    ),
                forall|h: int| count <= h < old(out)@.len() ==> #[trigger] out@[h] == old(out)@[h],
            decreases max_token_length - m,
        {
            let ghost prev = bs.subrange(k as int, k + m);
            let b = bytes[k + m];
            state = (state ^ (b as u64)).wrapping_mul(FNV_PRIME);
            m = m + 1;
            let ghost tok = bs.subrange(k as int, k + m);
            assert(tok.drop_last() =~= prev);
            if m > min_token_length {
                let ghost mid = out@;
                fold_token(out, seeds, count, state);
                assert forall|h: int| 0 <= h < count implies #[trigger] out@[h] == min_u64(
                    old(out)@[h],
                    min_u64(
                        prefix_min(bs, seeds@[h], lo, hi, k as nat),
                        start_min(bs, seeds@[h], lo, k as nat, m as nat),
                    ),
                ) by {
                    assert(out@[h] == min_u64(mid[h], mix64(state ^ seeds@[h])));
                    assert(token_hash(seeds@[h], tok) == mix64(state ^ seeds@[h]));
                }
            }
        }
        proof {
            assert forall|h: int| 0 <= h < count implies start_min(
                bs,
                seeds@[h],
                lo,
                k as nat,
                hi,
            ) == start_min(bs, seeds@[h], lo, k as nat, m as nat) by {
                if m < max_token_length {
                    lemma_start_min_tail(bs, seeds@[h], lo, k as nat, m as nat, hi);
                }
            }
        }
        k = k + 1;
    }
}

} // verus!
