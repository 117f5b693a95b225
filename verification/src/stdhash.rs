//! The voxel map: libstdc++'s `unordered_map<Eigen::Vector3i, V>` (GCC 13,
//! prime rehash policy, maximum load factor 1) keyed by the tiny3d voxel
//! hash. Voxel operations iterate it, so its iteration order shows in their
//! output; bucket growth, per-bucket insertion and rehash relinking follow
//! libstdc++ so that the order is the C++ one.

use vstd::prelude::*;

verus! {

/// One mixing step of the voxel-key hash: `seed ^ (h + 0x9e3779b9 + (seed << 6) + (seed >> 2))`
/// with wrapping 64-bit arithmetic, where `h` is the sign-extended coordinate.
pub open spec fn hash_step(seed: u64, e: i32) -> u64 {
    let h = e as i64 as u64;
    seed ^ h.wrapping_add(0x9e3779b9u64).wrapping_add(seed << 6u64).wrapping_add(seed >> 2u64)
}

/// The hash of a voxel key: the mixing step folded over the three coordinates from seed 0.
pub open spec fn hash_key(k: [i32; 3]) -> u64 {
    hash_step(hash_step(hash_step(0u64, k[0]), k[1]), k[2])
}

/// Hash of an integer 3-vector, as tiny3d's `hash_eigen<Vector3i>` computes it.
pub fn hash_vector3i(v: &[i32; 3]) -> (h: u64)
    ensures
        h == hash_key(*v),
{
    let mut seed: u64 = 0;
    let mut i: usize = 0;
    while i < 3
        invariant
            i <= 3,
            i == 0 ==> seed == 0u64,
            i == 1 ==> seed == hash_step(0u64, v[0]),
            i == 2 ==> seed == hash_step(hash_step(0u64, v[0]), v[1]),
            i == 3 ==> seed == hash_key(*v),
        decreases 3 - i,
    {
        let e = v[i];
        let h = e as i64 as u64;
        seed = seed ^ h.wrapping_add(0x9e3779b9).wrapping_add(seed << 6).wrapping_add(seed >> 2);
        i += 1;
    }
    seed
}

/// Bucket counts for fewer than 13 requested buckets (`__fast_bkt`).
pub open spec fn fast_bkt_table() -> Seq<usize> {
    seq![1, 2, 2, 3, 5, 5, 7, 7, 11, 11, 11, 11, 13]
}

/// The prime bucket counts of GCC 13's libstdc++ (`__prime_list`), up to about 21 million.
pub open spec fn prime_table() -> Seq<usize> {
    seq![
        2, 3, 5, 7, 11, 13, 17, 19, 23, 29, 31, 37, 41, 43, 47, 53, 59, 61, 67, 71, 73, 79, 83,
        89, 97, 103, 109, 113, 127, 137, 139, 149, 157, 167, 179, 193, 199, 211, 227, 241, 257,
        277, 293, 313, 337, 359, 383, 409, 439, 467, 503, 541, 577, 619, 661, 709, 761, 823, 887,
        953, 1031, 1109, 1193, 1289, 1381, 1493, 1613, 1741, 1879, 2029, 2179, 2357, 2549, 2753,
        2971, 3209, 3469, 3739, 4027, 4349, 4703, 5087, 5503, 5953, 6427, 6949, 7517, 8123, 8783,
        9497, 10273, 11113, 12011, 12983, 14033, 15173, 16411, 17749, 19183, 20753, 22447, 24281,
        26267, 28411, 30727, 33223, 35933, 38873, 42043, 45481, 49201, 53201, 57557, 62233, 67307,
        72817, 78779, 85229, 92203, 99733, 107897, 116731, 126271, 136607, 147793, 159871, 172933,
        187091, 202409, 218971, 236897, 256279, 277261, 299951, 324503, 351061, 379787, 410857,
        444487, 480881, 520241, 562841, 608903, 658753, 712697, 771049, 834181, 902483, 976369,
        1056323, 1142821, 1236397, 1337629, 1447153, 1565659, 1693859, 1832561, 1982627, 2144977,
        2320627, 2510653, 2716249, 2938679, 3179303, 3439651, 3721303, 4026031, 4355707, 4712381,
        5098259, 5515729, 5967347, 6456007, 6984629, 7556579, 8175383, 8844859, 9569143, 10352717,
        11200489, 12117689, 13109983, 14183539, 15345007, 16601593, 17961079, 19431899, 21023161
    ]
}

/// The largest entry of the prime table.
pub const PRIME_TABLE_MAX: usize = 21023161;

/// Index of the first entry of `t[i..]` that is at least `n`.
pub open spec fn first_at_least(t: Seq<usize>, n: nat, i: int) -> Option<int>
    decreases t.len() - i,
{
    if i < 0 || i >= t.len() {
        None
    } else if t[i] >= n {
        Some(i)
    } else {
        first_at_least(t, n, i + 1)
    }
}

/// `n` is a prime number.
pub open spec fn is_prime_spec(n: nat) -> bool {
    n >= 2 && forall|d: nat| 2 <= d < n ==> #[trigger] (n % d) != 0
}

/// `p` is the smallest prime that is at least `n`.
pub open spec fn is_least_prime_from(n: nat, p: nat) -> bool {
    &&& p >= n
    &&& is_prime_spec(p)
    &&& forall|c: nat| n <= c < p ==> !#[trigger] is_prime_spec(c)
}

/// Some prime at least `n` is representable as a `usize`.
pub open spec fn prime_at_or_above(n: nat) -> bool {
    exists|p: nat| p >= n && p <= usize::MAX && #[trigger] is_prime_spec(p)
}

/// The bucket count chosen for a request of `n` buckets (`_M_next_bkt`): 1 for
/// none, the fast table below 13, the first table prime that is at least `n`,
/// and beyond the table the least prime that is at least `n`.
pub open spec fn next_bkt_spec(n: nat) -> nat {
    if n == 0 {
        1
    } else if n < 13 {
        fast_bkt_table()[n as int] as nat
    } else if n <= PRIME_TABLE_MAX {
        prime_table()[first_at_least(prime_table(), n, 0).unwrap()] as nat
    } else {
        choose|p: nat| is_least_prime_from(n, p)
    }
}

/// Bucket counts beyond the table need a prime to exist at or above the request.
pub open spec fn next_bkt_defined(n: nat) -> bool {
    n <= PRIME_TABLE_MAX || prime_at_or_above(n)
}

fn fast_bkt(n: usize) -> (b: usize)
    requires
        n < 13,
    ensures
        b == fast_bkt_table()[n as int],
{
    let t: [usize; 13] = [1, 2, 2, 3, 5, 5, 7, 7, 11, 11, 11, 11, 13];
    proof {
        assert(t@ =~= fast_bkt_table());
    }
    t[n]
}

fn table_prime(i: usize) -> (p: usize)
    requires
        i < 188,
    ensures
        p == prime_table()[i as int],
{
    let t: [usize; 188] = [
        2, 3, 5, 7, 11, 13, 17, 19, 23, 29, 31, 37, 41, 43, 47, 53, 59, 61, 67, 71, 73, 79, 83,
        89, 97, 103, 109, 113, 127, 137, 139, 149, 157, 167, 179, 193, 199, 211, 227, 241, 257,
        277, 293, 313, 337, 359, 383, 409, 439, 467, 503, 541, 577, 619, 661, 709, 761, 823, 887,
        953, 1031, 1109, 1193, 1289, 1381, 1493, 1613, 1741, 1879, 2029, 2179, 2357, 2549, 2753,
        2971, 3209, 3469, 3739, 4027, 4349, 4703, 5087, 5503, 5953, 6427, 6949, 7517, 8123, 8783,
        9497, 10273, 11113, 12011, 12983, 14033, 15173, 16411, 17749, 19183, 20753, 22447, 24281,
        26267, 28411, 30727, 33223, 35933, 38873, 42043, 45481, 49201, 53201, 57557, 62233, 67307,
        72817, 78779, 85229, 92203, 99733, 107897, 116731, 126271, 136607, 147793, 159871, 172933,
        187091, 202409, 218971, 236897, 256279, 277261, 299951, 324503, 351061, 379787, 410857,
        444487, 480881, 520241, 562841, 608903, 658753, 712697, 771049, 834181, 902483, 976369,
        1056323, 1142821, 1236397, 1337629, 1447153, 1565659, 1693859, 1832561, 1982627, 2144977,
        2320627, 2510653, 2716249, 2938679, 3179303, 3439651, 3721303, 4026031, 4355707, 4712381,
        5098259, 5515729, 5967347, 6456007, 6984629, 7556579, 8175383, 8844859, 9569143, 10352717,
        11200489, 12117689, 13109983, 14183539, 15345007, 16601593, 17961079, 19431899, 21023161
    ];
    proof {
        assert(t@ =~= prime_table());
    }
    t[i]
}

proof fn lemma_first_at_least(t: Seq<usize>, n: nat, i: int)
    requires
        0 <= i <= t.len(),
    ensures
        first_at_least(t, n, i) matches Some(j) ==> i <= j < t.len() && t[j] >= n && forall|k: int|
            i <= k < j ==> t[k] < n,
        first_at_least(t, n, i) is None ==> forall|k: int| i <= k < t.len() ==> t[k] < n,
    decreases t.len() - i,
{
    if i < t.len() && t[i] < n {
        lemma_first_at_least(t, n, i + 1);
    }
}

/// The first index of the prime table whose entry is at least `n`.
fn table_lower_bound(n: usize) -> (i: usize)
    requires
        n <= PRIME_TABLE_MAX,
    ensures
        i < 188,
        first_at_least(prime_table(), n as nat, 0) == Some(i as int),
{
    proof {
        lemma_first_at_least(prime_table(), n as nat, 0);
        assert(prime_table()[187] == PRIME_TABLE_MAX);
    }
    let mut i: usize = 0;
    while table_prime(i) < n
        invariant
            i < 188,
            n <= PRIME_TABLE_MAX,
            prime_table()[187] == PRIME_TABLE_MAX,
            first_at_least(prime_table(), n as nat, 0) == first_at_least(
                prime_table(),
                n as nat,
                i as int,
            ),
        decreases 188 - i,
    {
        i += 1;
    }
    i
}

/// `d <= n / d` is `d * d <= n` for positive `d`.
proof fn lemma_div_square(n: nat, d: nat)
    requires
        d > 0,
    ensures
        (d <= n / d) <==> d * d <= n,
{
    vstd::arithmetic::div_mod::lemma_fundamental_div_mod(n as int, d as int);
    let q = n / d;
    let r = n % d;
    assert(d <= q ==> d * d <= n) by (nonlinear_arith)
        requires
            n == d * q + r,
            0 <= r,
            d > 0,
    ;
    assert(d * d <= n ==> d <= q) by (nonlinear_arith)
        requires
            n == d * q + r,
            r < d,
            d > 0,
            q >= 0,
    ;
}

/// A product with an even factor is even.
proof fn lemma_even_product(e: nat, q: nat)
    requires
        e % 2 == 0 || q % 2 == 0,
    ensures
        (e * q) % 2 == 0,
{
    if e % 2 == 0 {
        let k = e / 2;
        assert(e * q == (k * q) * 2) by (nonlinear_arith)
            requires
                e == 2 * k,
        ;
        vstd::arithmetic::div_mod::lemma_mod_multiples_basic((k * q) as int, 2);
    } else {
        let k = q / 2;
        assert(e * q == (k * e) * 2) by (nonlinear_arith)
            requires
                q == 2 * k,
        ;
        vstd::arithmetic::div_mod::lemma_mod_multiples_basic((k * e) as int, 2);
    }
}

/// An odd number with no odd divisor `e` with `3 <= e < d`, where `d * d > n`, is prime.
proof fn lemma_trial_division(n: nat, d: nat)
    requires
        n >= 3,
        n % 2 == 1,
        d >= 3,
        d * d > n,
        forall|e: nat| 3 <= e < d && e % 2 == 1 ==> #[trigger] (n % e) != 0,
    ensures
        is_prime_spec(n),
{
    assert forall|e: nat| 2 <= e < n implies #[trigger] (n % e) != 0 by {
        if n % e == 0 {
            vstd::arithmetic::div_mod::lemma_fundamental_div_mod(n as int, e as int);
            let q = n / e;
            assert(n == e * q);
            if e % 2 == 0 {
                lemma_even_product(e, q);
            }
            assert(e % 2 == 1);
            if e < d {
                assert(n % e != 0);
            } else {
                // the cofactor q is an odd divisor below d
                vstd::arithmetic::mul::lemma_mul_is_commutative(e as int, q as int);
                assert(q >= 2) by (nonlinear_arith)
                    requires
                        n == e * q,
                        e < n,
                ;
                assert(q < d) by (nonlinear_arith)
                    requires
                        n == e * q,
                        e >= d,
                        d * d > n,
                        d >= 3,
                ;
                if q % 2 == 0 {
                    lemma_even_product(e, q);
                }
                vstd::arithmetic::div_mod::lemma_mod_multiples_basic(e as int, q as int);
                assert((e * q) % q == 0);
                assert(n % q == 0);
            }
        }
    }
}

/// Trial division: 2 is the only even prime, and odd candidates are tested
/// against odd divisors up to their square root.
fn is_prime(n: usize) -> (r: bool)
    ensures
        r == is_prime_spec(n as nat),
{
    if n < 2 {
        return false;
    }
    if n % 2 == 0 {
        proof {
            if n != 2 {
                assert(n % 2 == 0);
                assert(!is_prime_spec(n as nat));
            }
        }
        return n == 2;
    }
    let mut d: usize = 3;
    loop
        invariant
            n >= 3,
            n % 2 == 1,
            d >= 3,
            d % 2 == 1,
            d <= n + 2,
            forall|e: nat| 3 <= e < d && e % 2 == 1 ==> #[trigger] (n as nat % e) != 0,
        decreases n + 2 - d,
    {
        proof {
            lemma_div_square(n as nat, d as nat);
        }
        if !(d <= n / d) {
            proof {
                lemma_trial_division(n as nat, d as nat);
            }
            return true;
        }
        if n % d == 0 {
            proof {
                assert(d * d <= n);
                assert(d < n) by (nonlinear_arith)
                    requires
                        d * d <= n,
                        d >= 3,
                ;
                assert(n as nat % d as nat == 0);
            }
            return false;
        }
        proof {
            assert(d < n) by (nonlinear_arith)
                requires
                    d * d <= n,
                    d >= 3,
            ;
        }
        d += 2;
    }
}

/// `_M_next_bkt`: the bucket count used for a request of `n` buckets.
fn next_bkt(n: usize) -> (b: usize)
    requires
        next_bkt_defined(n as nat),
    ensures
        b == next_bkt_spec(n as nat),
        b >= 1,
        b >= n,
        b <= usize::MAX,
{
    if n == 0 {
        return 1;
    }
    if n < 13 {
        let b = fast_bkt(n);
        proof {
            assert(fast_bkt_table()[n as int] >= n);
        }
        return b;
    }
    if n <= PRIME_TABLE_MAX {
        let i = table_lower_bound(n);
        proof {
            lemma_first_at_least(prime_table(), n as nat, 0);
        }
        return table_prime(i);
    }
    let ghost w: nat = choose|p: nat| p >= n && p <= usize::MAX && #[trigger] is_prime_spec(p);
    let mut c = n | 1;
    proof {
        assert(n % 2 == 0 ==> n | 1 == n + 1) by (bit_vector);
        assert(n % 2 == 1 ==> n | 1 == n) by (bit_vector);
        if n % 2 == 0 {
            assert((n as nat) % 2 == 0);
            assert(!is_prime_spec(n as nat));
        }
        if n % 2 == 0 && w == n {
            assert(false);
        }
    }
    loop
        invariant
            n > PRIME_TABLE_MAX,
            n <= c <= w,
            c % 2 == 1,
            w <= usize::MAX,
            is_prime_spec(w),
            forall|x: nat| n <= x < c ==> !#[trigger] is_prime_spec(x),
        decreases w - c,
    {
        if is_prime(c) {
            proof {
                assert(is_least_prime_from(n as nat, c as nat));
                let q = choose|p: nat| is_least_prime_from(n as nat, p);
                assert(is_least_prime_from(n as nat, q));
                if q < c {
                    assert(!is_prime_spec(q));
                } else if q > c {
                    assert(!is_prime_spec(c as nat));
                }
            }
            return c;
        }
        proof {
            assert(c < w);
            assert((c + 1) % 2 == 0);
            assert(!is_prime_spec((c + 1) as nat)) by {
                assert(((c + 1) as nat) % 2 == 0);
            }
        }
        c += 2;
    }
}

// ------------------------------------------------------------------ the map

/// Marks a bucket whose first node is the head of the list.
pub const BEFORE_BEGIN: usize = usize::MAX;

/// The bucket of a key among `n` buckets.
pub open spec fn bucket_of(k: [i32; 3], n: nat) -> nat {
    (hash_key(k) as nat) % n
}

/// Position of the first key of bucket `b` in `keys`.
pub open spec fn first_in_bucket(keys: Seq<[i32; 3]>, b: nat, n: nat) -> Option<int>
    decreases keys.len(),
{
    if keys.len() == 0 {
        None
    } else {
        match first_in_bucket(keys.drop_last(), b, n) {
            Some(i) => Some(i),
            None => if bucket_of(keys.last(), n) == b {
                Some(keys.len() - 1)
            } else {
                None
            },
        }
    }
}

/// Where a new key goes in the iteration order: in front of the first key of
/// its bucket, or at the very front when its bucket is empty.
pub open spec fn insert_pos(keys: Seq<[i32; 3]>, k: [i32; 3], n: nat) -> int {
    match first_in_bucket(keys, bucket_of(k, n), n) {
        Some(i) => i,
        None => 0,
    }
}

/// The keys of a sequence of entries.
pub open spec fn entry_keys<V>(e: Seq<([i32; 3], V)>) -> Seq<[i32; 3]> {
    e.map_values(|p: ([i32; 3], V)| p.0)
}

/// The entries after a new entry is linked into bucket order among `n` buckets.
pub open spec fn bucket_insert<V>(e: Seq<([i32; 3], V)>, k: [i32; 3], v: V, n: nat) -> Seq<
    ([i32; 3], V),
> {
    e.insert(insert_pos(entry_keys(e), k, n), (k, v))
}

/// The entries after a rehash into `n` buckets: each entry, in the old
/// order, is linked in as a new one would be.
pub open spec fn rehashed<V>(e: Seq<([i32; 3], V)>, n: nat) -> Seq<([i32; 3], V)>
    decreases e.len(),
{
    if e.len() == 0 {
        e
    } else {
        bucket_insert(rehashed(e.drop_last(), n), e.last().0, e.last().1, n)
    }
}

/// No key occurs twice.
pub open spec fn keys_unique(keys: Seq<[i32; 3]>) -> bool {
    forall|p: int, q: int| 0 <= p < q < keys.len() ==> keys[p] != keys[q]
}

/// The keys of each bucket stand next to each other.
pub open spec fn buckets_contiguous(keys: Seq<[i32; 3]>, n: nat) -> bool {
    forall|p: int, q: int, r: int|
        0 <= p < q < r < keys.len() && bucket_of(#[trigger] keys[p], n) == bucket_of(
            #[trigger] keys[r],
            n,
        ) ==> bucket_of(#[trigger] keys[q], n) == bucket_of(keys[p], n)
}

/// The successor link that node `order[p]` must hold.
pub open spec fn next_of(order: Seq<usize>, p: int) -> Option<usize> {
    if p + 1 < order.len() {
        Some(order[p + 1])
    } else {
        None
    }
}

/// What bucket `b` must hold: nothing when empty, `BEFORE_BEGIN` when its
/// first node heads the list, else the node in front of its first node.
pub open spec fn bucket_entry(keys: Seq<[i32; 3]>, order: Seq<usize>, b: nat, n: nat) -> Option<
    usize,
> {
    match first_in_bucket(keys, b, n) {
        None => None,
        Some(f) => if f == 0 {
            Some(BEFORE_BEGIN)
        } else {
            Some(order[f - 1])
        },
    }
}

/// The keys of the nodes in list order.
pub open spec fn keys_in_order(keys: Seq<[i32; 3]>, order: Seq<usize>) -> Seq<[i32; 3]> {
    order.map_values(|i: usize| keys[i as int])
}

/// The linked list through `nexts` from `head` visits `order`, and the bucket
/// array points in front of each bucket's run.
#[verifier::opaque]
pub open spec fn links_ok(
    keys: Seq<[i32; 3]>,
    hashes: Seq<u64>,
    nexts: Seq<Option<usize>>,
    buckets: Seq<Option<usize>>,
    head: Option<usize>,
    n: nat,
    order: Seq<usize>,
) -> bool {
    let ks = keys_in_order(keys, order);
    &&& n > 0
    &&& buckets.len() == n
    &&& keys.len() == hashes.len() == nexts.len()
    &&& keys.len() < usize::MAX
    &&& order.no_duplicates()
    &&& forall|p: int| 0 <= p < order.len() ==> #[trigger] order[p] < keys.len()
    &&& forall|p: int|
        0 <= p < order.len() ==> hashes[#[trigger] order[p] as int] == hash_key(keys[order[p] as int])
    &&& head == (if order.len() == 0 {
        None::<usize>
    } else {
        Some(order[0])
    })
    &&& forall|p: int| 0 <= p < order.len() ==> #[trigger] nexts[order[p] as int] == next_of(order, p)
    &&& keys_unique(ks)
    &&& buckets_contiguous(ks, n)
    &&& forall|b: int| 0 <= b < n ==> #[trigger] buckets[b] == bucket_entry(ks, order, b as nat, n)
}

/// The plain facts of `links_ok`: sizes, node indices, hashes, links and head.
proof fn lemma_links_basic(
    keys: Seq<[i32; 3]>,
    hashes: Seq<u64>,
    nexts: Seq<Option<usize>>,
    buckets: Seq<Option<usize>>,
    head: Option<usize>,
    n: nat,
    order: Seq<usize>,
)
    requires
        links_ok(keys, hashes, nexts, buckets, head, n, order),
    ensures
        n > 0,
        buckets.len() == n,
        keys.len() == hashes.len() == nexts.len(),
        keys.len() < usize::MAX,
        order.no_duplicates(),
        forall|p: int| 0 <= p < order.len() ==> #[trigger] order[p] < keys.len(),
        forall|p: int|
            0 <= p < order.len() ==> hashes[#[trigger] order[p] as int] == hash_key(keys[order[p] as int]),
        head == (if order.len() == 0 {
            None::<usize>
        } else {
            Some(order[0])
        }),
        forall|p: int| 0 <= p < order.len() ==> #[trigger] nexts[order[p] as int] == next_of(order, p),
        keys_unique(keys_in_order(keys, order)),
{
    reveal(links_ok);
}

/// Characterization of `first_in_bucket`.
proof fn lemma_first_in_bucket(keys: Seq<[i32; 3]>, b: nat, n: nat)
    ensures
        first_in_bucket(keys, b, n) matches Some(f) ==> 0 <= f < keys.len() && bucket_of(keys[f], n)
            == b && forall|j: int| 0 <= j < f ==> bucket_of(#[trigger] keys[j], n) != b,
        first_in_bucket(keys, b, n) is None ==> forall|j: int|
            0 <= j < keys.len() ==> bucket_of(#[trigger] keys[j], n) != b,
    decreases keys.len(),
{
    if keys.len() > 0 {
        lemma_first_in_bucket(keys.drop_last(), b, n);
        assert forall|j: int| 0 <= j < keys.len() - 1 implies keys.drop_last()[j] == keys[j] by {}
    }
}

/// A position satisfying the characterization is the first position.
proof fn lemma_first_in_bucket_is(keys: Seq<[i32; 3]>, b: nat, n: nat, f: int)
    requires
        0 <= f < keys.len(),
        bucket_of(keys[f], n) == b,
        forall|j: int| 0 <= j < f ==> bucket_of(#[trigger] keys[j], n) != b,
    ensures
        first_in_bucket(keys, b, n) == Some(f),
{
    lemma_first_in_bucket(keys, b, n);
    match first_in_bucket(keys, b, n) {
        Some(g) => {
            if g < f {
                assert(bucket_of(keys[g], n) != b);
            } else if g > f {
                assert(bucket_of(keys[f], n) != b);
            }
        },
        None => {
            assert(bucket_of(keys[f], n) != b);
        },
    }
}

/// No position of the bucket: `first_in_bucket` is `None`.
proof fn lemma_first_in_bucket_none(keys: Seq<[i32; 3]>, b: nat, n: nat)
    requires
        forall|j: int| 0 <= j < keys.len() ==> bucket_of(#[trigger] keys[j], n) != b,
    ensures
        first_in_bucket(keys, b, n) is None,
{
    lemma_first_in_bucket(keys, b, n);
    if let Some(g) = first_in_bucket(keys, b, n) {
        assert(bucket_of(keys[g], n) == b);
    }
}

/// The node changes of linking node `x` in at the front of its bucket (or at
/// the front of the list when its bucket is empty).
pub open spec fn bucket_insert_step(
    keys: Seq<[i32; 3]>,
    nexts0: Seq<Option<usize>>,
    buckets0: Seq<Option<usize>>,
    head0: Option<usize>,
    n: nat,
    order: Seq<usize>,
    x: usize,
    nexts1: Seq<Option<usize>>,
    buckets1: Seq<Option<usize>>,
    head1: Option<usize>,
) -> bool {
    let ks = keys_in_order(keys, order);
    let b = bucket_of(keys[x as int], n);
    &&& nexts1.len() == nexts0.len()
    &&& match first_in_bucket(ks, b, n) {
        Some(f) => {
            &&& nexts1[x as int] == Some(order[f])
            &&& head1 == (if f == 0 {
                Some(x)
            } else {
                head0
            })
            &&& (f > 0 ==> nexts1[order[f - 1] as int] == Some(x))
            &&& forall|i: int|
                0 <= i < nexts0.len() && i != x && (f == 0 || i != order[f - 1]) ==> #[trigger] nexts1[i]
                    == nexts0[i]
            &&& buckets1 == buckets0
        },
        None => {
            &&& nexts1[x as int] == head0
            &&& head1 == Some(x)
            &&& forall|i: int| 0 <= i < nexts0.len() && i != x ==> #[trigger] nexts1[i] == nexts0[i]
            &&& buckets1 == (if order.len() > 0 {
                buckets0.update(bucket_of(ks[0], n) as int, Some(x)).update(
                    b as int,
                    Some(BEFORE_BEGIN),
                )
            } else {
                buckets0.update(b as int, Some(BEFORE_BEGIN))
            })
        },
    }
}

proof fn lemma_keys_in_order_insert(keys: Seq<[i32; 3]>, order: Seq<usize>, pos: int, x: usize)
    requires
        0 <= pos <= order.len(),
    ensures
        keys_in_order(keys, order.insert(pos, x)) == keys_in_order(keys, order).insert(
            pos,
            keys[x as int],
        ),
{
    assert(keys_in_order(keys, order.insert(pos, x)) =~= keys_in_order(keys, order).insert(
        pos,
        keys[x as int],
    ));
}

/// Shifted position of an old index after inserting at `pos`.
pub open spec fn shift_after(i: int, pos: int) -> int {
    if i < pos {
        i
    } else {
        i + 1
    }
}

proof fn lemma_insert_unique(ks: Seq<[i32; 3]>, pos: int, kx: [i32; 3])
    requires
        keys_unique(ks),
        0 <= pos <= ks.len(),
        forall|p: int| 0 <= p < ks.len() ==> #[trigger] ks[p] != kx,
    ensures
        keys_unique(ks.insert(pos, kx)),
{
    let ks2 = ks.insert(pos, kx);
    assert forall|p: int, q: int| 0 <= p < q < ks2.len() implies ks2[p] != ks2[q] by {
        if p == pos {
            assert(ks2[q] == ks[q - 1]);
        } else if q == pos {
            assert(ks2[p] == ks[p]);
        } else {
            let pp = if p < pos { p } else { p - 1 };
            let qq = if q < pos { q } else { q - 1 };
            assert(ks2[p] == ks[pp] && ks2[q] == ks[qq]);
        }
    }
}

proof fn lemma_insert_first_other(ks: Seq<[i32; 3]>, kx: [i32; 3], n: nat, c: nat)
    requires
        c != bucket_of(kx, n),
        0 <= insert_pos(ks, kx, n) <= ks.len(),
    ensures
        first_in_bucket(ks.insert(insert_pos(ks, kx, n), kx), c, n) == match first_in_bucket(
            ks,
            c,
            n,
        ) {
            Some(fc) => Some(shift_after(fc, insert_pos(ks, kx, n))),
            None => None::<int>,
        },
{
    let pos = insert_pos(ks, kx, n);
    let ks2 = ks.insert(pos, kx);
    lemma_first_in_bucket(ks, c, n);
    match first_in_bucket(ks, c, n) {
        Some(fc) => {
            let g = shift_after(fc, pos);
            assert forall|j: int| 0 <= j < g implies bucket_of(#[trigger] ks2[j], n) != c by {
                if j < pos {
                    assert(ks2[j] == ks[j]);
                } else if j > pos {
                    assert(ks2[j] == ks[j - 1]);
                }
            }
            assert(ks2[g] == ks[fc]);
            lemma_first_in_bucket_is(ks2, c, n, g);
        },
        None => {
            assert forall|j: int| 0 <= j < ks2.len() implies bucket_of(#[trigger] ks2[j], n) != c by {
                if j < pos {
                    assert(ks2[j] == ks[j]);
                } else if j > pos {
                    assert(ks2[j] == ks[j - 1]);
                }
            }
            lemma_first_in_bucket_none(ks2, c, n);
        },
    }
}

proof fn lemma_insert_first_same(ks: Seq<[i32; 3]>, kx: [i32; 3], n: nat)
    ensures
        0 <= insert_pos(ks, kx, n) <= ks.len(),
        first_in_bucket(ks.insert(insert_pos(ks, kx, n), kx), bucket_of(kx, n), n) == Some(
            insert_pos(ks, kx, n),
        ),
{
    let b = bucket_of(kx, n);
    let pos = insert_pos(ks, kx, n);
    lemma_first_in_bucket(ks, b, n);
    let ks2 = ks.insert(pos, kx);
    assert forall|j: int| 0 <= j < pos implies bucket_of(#[trigger] ks2[j], n) != b by {
        assert(ks2[j] == ks[j]);
    }
    lemma_first_in_bucket_is(ks2, b, n, pos);
}

proof fn lemma_insert_contiguous(ks: Seq<[i32; 3]>, kx: [i32; 3], n: nat)
    requires
        buckets_contiguous(ks, n),
    ensures
        buckets_contiguous(ks.insert(insert_pos(ks, kx, n), kx), n),
{
    let b = bucket_of(kx, n);
    let pos = insert_pos(ks, kx, n);
    lemma_first_in_bucket(ks, b, n);
    let ks2 = ks.insert(pos, kx);
    assert forall|p: int, q: int, r: int|
        0 <= p < q < r < ks2.len() && bucket_of(#[trigger] ks2[p], n) == bucket_of(
            #[trigger] ks2[r],
            n,
        ) implies bucket_of(#[trigger] ks2[q], n) == bucket_of(ks2[p], n) by {
        let pp = if p < pos { p } else { p - 1 };
        let qq = if q < pos { q } else { q - 1 };
        let rr = if r < pos { r } else { r - 1 };
        if p == pos {
            assert(ks2[r] == ks[rr]);
            assert(ks2[q] == ks[qq]);
            let f = first_in_bucket(ks, b, n).unwrap();
            if qq != f {
                assert(bucket_of(ks[f], n) == b);
                assert(bucket_of(ks[rr], n) == b);
            }
        } else if q == pos {
            assert(ks2[p] == ks[pp] && ks2[r] == ks[rr]);
            if first_in_bucket(ks, b, n) is Some {
                let f = first_in_bucket(ks, b, n).unwrap();
                if f < rr {
                    assert(bucket_of(ks[f], n) == bucket_of(ks[pp], n));
                }
            }
        } else if r == pos {
            assert(ks2[p] == ks[pp]);
            assert(bucket_of(ks[pp], n) != b);
        } else {
            assert(ks2[p] == ks[pp] && ks2[q] == ks[qq] && ks2[r] == ks[rr]);
        }
    }
}

proof fn lemma_insert_order(order: Seq<usize>, pos: int, x: usize, len: nat)
    requires
        order.no_duplicates(),
        !order.contains(x),
        0 <= pos <= order.len(),
        x < len,
        forall|p: int| 0 <= p < order.len() ==> #[trigger] order[p] < len,
    ensures
        order.insert(pos, x).no_duplicates(),
        forall|p: int| 0 <= p < order.len() + 1 ==> #[trigger] order.insert(pos, x)[p] < len,
{
    let o2 = order.insert(pos, x);
    assert forall|p: int, q: int| 0 <= p < o2.len() && 0 <= q < o2.len() && p != q implies o2[p]
        != o2[q] by {
        let pp = if p < pos { p } else { p - 1 };
        let qq = if q < pos { q } else { q - 1 };
        if p != pos && q != pos {
            assert(o2[p] == order[pp] && o2[q] == order[qq]);
        } else if p == pos {
            assert(o2[q] == order[qq]);
            assert(order.contains(order[qq]));
        } else {
            assert(o2[p] == order[pp]);
            assert(order.contains(order[pp]));
        }
    }
    assert forall|p: int| 0 <= p < order.len() + 1 implies #[trigger] o2[p] < len by {
        if p < pos {
            assert(o2[p] == order[p]);
        } else if p > pos {
            assert(o2[p] == order[p - 1]);
        }
    }
}

#[verifier::rlimit(40)]
proof fn lemma_insert_links(
    keys: Seq<[i32; 3]>,
    hashes: Seq<u64>,
    nexts0: Seq<Option<usize>>,
    buckets0: Seq<Option<usize>>,
    head0: Option<usize>,
    n: nat,
    order: Seq<usize>,
    x: usize,
    nexts1: Seq<Option<usize>>,
    buckets1: Seq<Option<usize>>,
    head1: Option<usize>,
)
    requires
        order.no_duplicates(),
        head0 == (if order.len() == 0 {
            None::<usize>
        } else {
            Some(order[0])
        }),
        forall|p: int| 0 <= p < order.len() ==> #[trigger] nexts0[order[p] as int] == next_of(order, p),
        forall|p: int| 0 <= p < order.len() ==> #[trigger] order[p] < keys.len(),
        nexts0.len() == keys.len(),
        x < keys.len(),
        !order.contains(x),
        order.insert(insert_pos(keys_in_order(keys, order), keys[x as int], n), x).no_duplicates(),
        bucket_insert_step(
            keys,
            nexts0,
            buckets0,
            head0,
            n,
            order,
            x,
            nexts1,
            buckets1,
            head1,
        ),
    ensures
        ({
            let o2 = order.insert(insert_pos(keys_in_order(keys, order), keys[x as int], n), x);
            &&& forall|p: int|
                0 <= p < o2.len() ==> #[trigger] nexts1[o2[p] as int] == next_of(o2, p)
            &&& head1 == (if o2.len() == 0 {
                None::<usize>
            } else {
                Some(o2[0])
            })
        }),
{
    let ks = keys_in_order(keys, order);
    let b = bucket_of(keys[x as int], n);
    let pos = insert_pos(ks, keys[x as int], n);
    let o2 = order.insert(pos, x);
    lemma_first_in_bucket(ks, b, n);
    assert forall|p: int| 0 <= p < o2.len() implies #[trigger] nexts1[o2[p] as int] == next_of(o2, p) by {
        match first_in_bucket(ks, b, n) {
            Some(f) => {
                if p < pos {
                    assert(o2[p] == order[p]);
                    if p == f - 1 {
                        assert(o2[p + 1] == x);
                    } else {
                        assert(order.contains(order[p]));
                        assert(o2[p + 1] == order[p + 1]);
                    }
                } else if p == pos {
                    assert(o2[p + 1] == order[f]);
                } else {
                    assert(o2[p] == order[p - 1]);
                    assert(order.contains(order[p - 1]));
                    if p + 1 < o2.len() {
                        assert(o2[p + 1] == order[p]);
                    }
                }
            },
            None => {
                if p > 0 {
                    assert(o2[p] == order[p - 1]);
                    assert(order.contains(order[p - 1]));
                    if p + 1 < o2.len() {
                        assert(o2[p + 1] == order[p]);
                    }
                } else {
                    if order.len() > 0 {
                        assert(o2[1] == order[0]);
                    }
                }
            },
        }
    }
    match first_in_bucket(ks, b, n) {
        Some(f) => {
            if f > 0 {
                assert(o2[0] == order[0]);
            }
        },
        None => {},
    }
}

#[verifier::rlimit(40)]
proof fn lemma_insert_buckets(
    keys: Seq<[i32; 3]>,
    hashes: Seq<u64>,
    nexts0: Seq<Option<usize>>,
    buckets0: Seq<Option<usize>>,
    head0: Option<usize>,
    n: nat,
    order: Seq<usize>,
    x: usize,
    nexts1: Seq<Option<usize>>,
    buckets1: Seq<Option<usize>>,
    head1: Option<usize>,
)
    requires
        n > 0,
        buckets0.len() == n,
        forall|b: int|
            0 <= b < n ==> #[trigger] buckets0[b] == bucket_entry(
                keys_in_order(keys, order),
                order,
                b as nat,
                n,
            ),
        x < keys.len(),
        bucket_insert_step(
            keys,
            nexts0,
            buckets0,
            head0,
            n,
            order,
            x,
            nexts1,
            buckets1,
            head1,
        ),
    ensures
        buckets1.len() == n,
        forall|c: int|
            0 <= c < n ==> #[trigger] buckets1[c] == bucket_entry(
                keys_in_order(
                    keys,
                    order.insert(insert_pos(keys_in_order(keys, order), keys[x as int], n), x),
                ),
                order.insert(insert_pos(keys_in_order(keys, order), keys[x as int], n), x),
                c as nat,
                n,
            ),
{
    let ks = keys_in_order(keys, order);
    let kx = keys[x as int];
    let b = bucket_of(kx, n);
    let pos = insert_pos(ks, kx, n);
    let o2 = order.insert(pos, x);
    lemma_first_in_bucket(ks, b, n);
    lemma_insert_first_same(ks, kx, n);
    lemma_keys_in_order_insert(keys, order, pos, x);
    let ks2 = keys_in_order(keys, o2);
    assert forall|c: int| 0 <= c < n implies #[trigger] buckets1[c] == bucket_entry(
        ks2,
        o2,
        c as nat,
        n,
    ) by {
        assert(buckets0[c] == bucket_entry(ks, order, c as nat, n));
        if c as nat == b {
            match first_in_bucket(ks, b, n) {
                Some(f) => {
                    if f > 0 {
                        assert(o2[f - 1] == order[f - 1]);
                    }
                },
                None => {},
            }
        } else {
            lemma_insert_first_other(ks, kx, n, c as nat);
            lemma_first_in_bucket(ks, c as nat, n);
            match first_in_bucket(ks, c as nat, n) {
                Some(fc) => {
                    if fc < pos {
                        if fc > 0 {
                            assert(o2[fc - 1] == order[fc - 1]);
                        }
                    } else if fc == pos {
                        assert(first_in_bucket(ks, b, n) is None);
                        assert(o2[0] == x);
                    } else {
                        assert(o2[fc] == order[fc - 1]);
                        if first_in_bucket(ks, b, n) is None && order.len() > 0 {
                            assert(bucket_of(ks[0], n) != c);
                        }
                    }
                },
                None => {
                    if first_in_bucket(ks, b, n) is None && order.len() > 0 {
                        assert(bucket_of(ks[0], n) != c);
                    }
                },
            }
        }
    }
}

/// Linking a node in at the front of its bucket keeps the list and bucket
/// array consistent, with the node at `insert_pos` in the order.
#[verifier::rlimit(40)]
proof fn lemma_bucket_insert(
    keys: Seq<[i32; 3]>,
    hashes: Seq<u64>,
    nexts0: Seq<Option<usize>>,
    buckets0: Seq<Option<usize>>,
    head0: Option<usize>,
    n: nat,
    order: Seq<usize>,
    x: usize,
    nexts1: Seq<Option<usize>>,
    buckets1: Seq<Option<usize>>,
    head1: Option<usize>,
)
    requires
        links_ok(keys, hashes, nexts0, buckets0, head0, n, order),
        x < keys.len(),
        !order.contains(x),
        hashes[x as int] == hash_key(keys[x as int]),
        forall|p: int|
            0 <= p < order.len() ==> #[trigger] keys_in_order(keys, order)[p] != keys[x as int],
        bucket_insert_step(
            keys,
            nexts0,
            buckets0,
            head0,
            n,
            order,
            x,
            nexts1,
            buckets1,
            head1,
        ),
    ensures
        links_ok(
            keys,
            hashes,
            nexts1,
            buckets1,
            head1,
            n,
            order.insert(insert_pos(keys_in_order(keys, order), keys[x as int], n), x),
        ),
{
    reveal(links_ok);
    let ks = keys_in_order(keys, order);
    let kx = keys[x as int];
    let pos = insert_pos(ks, kx, n);
    let o2 = order.insert(pos, x);
    lemma_insert_first_same(ks, kx, n);
    lemma_keys_in_order_insert(keys, order, pos, x);
    lemma_insert_order(order, pos, x, keys.len());
    lemma_insert_unique(ks, pos, kx);
    lemma_insert_contiguous(ks, kx, n);
    lemma_insert_links(keys, hashes, nexts0, buckets0, head0, n, order, x, nexts1, buckets1, head1);
    assert(o2.len() == order.len() + 1);
    lemma_insert_buckets(
        keys,
        hashes,
        nexts0,
        buckets0,
        head0,
        n,
        order,
        x,
        nexts1,
        buckets1,
        head1,
    );
    assert forall|p: int| 0 <= p < o2.len() implies hashes[#[trigger] o2[p] as int] == hash_key(
        keys[o2[p] as int],
    ) by {
        if p < pos {
            assert(o2[p] == order[p]);
        } else if p > pos {
            assert(o2[p] == order[p - 1]);
        }
    }
}

/// The entries of nodes `order` as (key, value) pairs.
pub open spec fn entries_of<V>(keys: Seq<[i32; 3]>, values: Seq<V>, order: Seq<usize>) -> Seq<
    ([i32; 3], V),
> {
    Seq::new(order.len(), |p: int| (keys[order[p] as int], values[order[p] as int]))
}

/// What an insertion of a new key does to the bucket count: whether it
/// rehashes, the new bucket count and the new resize threshold
/// (`_M_need_rehash` with a maximum load factor of 1).
pub open spec fn grow_plan(len: nat, bc: nat, nr: nat) -> (bool, nat, nat) {
    if len + 1 > nr {
        let min_bkts: nat = if len + 1 >= (if nr != 0 {
            0nat
        } else {
            11nat
        }) {
            len + 1
        } else {
            11
        };
        if min_bkts >= bc {
            let target: nat = if min_bkts + 1 >= 2 * bc {
                min_bkts + 1
            } else {
                2 * bc
            };
            let c = next_bkt_spec(target);
            (true, c, c)
        } else {
            (false, bc, bc)
        }
    } else {
        (false, bc, nr)
    }
}

/// The entries after growth for one more element, before it is linked in.
pub open spec fn grown_entries<V>(e: Seq<([i32; 3], V)>, bc: nat, nr: nat) -> Seq<([i32; 3], V)> {
    let plan = grow_plan(e.len(), bc, nr);
    if plan.0 {
        rehashed(e, plan.1)
    } else {
        e
    }
}

/// A map of `len` elements can take one more: the bucket count it may grow
/// to is representable (beyond the prime table this needs a prime at or above
/// the request).
pub open spec fn can_grow(len: nat) -> bool {
    &&& len + 12 <= usize::MAX / 2
    &&& next_bkt_defined(2 * len + 22)
}

/// Whether some prime at least `n` fits in a `usize`: the upward search that
/// `next_bkt` makes beyond its table, run until it finds a prime or reaches
/// `usize::MAX`.
pub fn has_prime_at_or_above(n: usize) -> (r: bool)
    ensures
        r == prime_at_or_above(n as nat),
{
    let mut c = n;
    loop
        invariant
            n <= c,
            forall|x: nat| n <= x < c ==> !#[trigger] is_prime_spec(x),
        decreases usize::MAX - c,
    {
        if is_prime(c) {
            return true;
        }
        if c == usize::MAX {
            proof {
                assert forall|p: nat| p >= n && p <= usize::MAX implies !#[trigger] is_prime_spec(p) by {
                    if p < c {
                    } else {
                        assert(p == c);
                    }
                }
            }
            return false;
        }
        c += 1;
    }
}

/// Whether a map of `len` elements can take one more: `can_grow`, decided
/// by the prime search where the bucket table ends.
pub fn can_grow_from(len: usize) -> (r: bool)
    ensures
        r == can_grow(len as nat),
{
    if len > usize::MAX / 2 - 12 {
        return false;
    }
    let n = 2 * len + 22;
    n <= PRIME_TABLE_MAX || has_prime_at_or_above(n)
}

proof fn lemma_entries_insert<V>(
    keys: Seq<[i32; 3]>,
    values: Seq<V>,
    order: Seq<usize>,
    x: usize,
    n: nat,
)
    requires
        forall|p: int| 0 <= p < order.len() ==> #[trigger] order[p] < keys.len(),
        x < keys.len(),
        keys.len() == values.len(),
    ensures
        entry_keys(entries_of(keys, values, order)) == keys_in_order(keys, order),
        entries_of(keys, values, order.insert(insert_pos(keys_in_order(keys, order), keys[x as int], n), x))
            == bucket_insert(entries_of(keys, values, order), keys[x as int], values[x as int], n),
{
    let e = entries_of(keys, values, order);
    assert(entry_keys(e) =~= keys_in_order(keys, order));
    let pos = insert_pos(keys_in_order(keys, order), keys[x as int], n);
    lemma_first_in_bucket(keys_in_order(keys, order), bucket_of(keys[x as int], n), n);
    assert(entries_of(keys, values, order.insert(pos, x)) =~= bucket_insert(
        e,
        keys[x as int],
        values[x as int],
        n,
    ));
}

/// A node of the map's arena is one index into these parallel vectors.
pub struct StdUnorderedMap<V> {
    keys: Vec<[i32; 3]>,
    values: Vec<V>,
    hashes: Vec<u64>,
    /// Successor of each node in the single list through all buckets.
    nexts: Vec<Option<usize>>,
    /// For each bucket, the node in front of its first node (`BEFORE_BEGIN`
    /// for the list head), or `None` when the bucket is empty.
    buckets: Vec<Option<usize>>,
    head: Option<usize>,
    bucket_count: usize,
    element_count: usize,
    next_resize: usize,
    order: Ghost<Seq<usize>>,
}

impl<V> StdUnorderedMap<V> {
    /// The list, buckets and arena agree, and every node is on the list.
    pub closed spec fn wf(self) -> bool {
        &&& links_ok(
            self.keys@,
            self.hashes@,
            self.nexts@,
            self.buckets@,
            self.head,
            self.bucket_count as nat,
            self.order@,
        )
        &&& self.values@.len() == self.keys@.len()
        &&& self.order@.len() == self.keys@.len()
        &&& self.element_count == self.keys@.len()
        &&& self.next_resize <= self.bucket_count
    }

    /// The (key, value) pairs in iteration order.
    pub closed spec fn entries(self) -> Seq<([i32; 3], V)> {
        entries_of(self.keys@, self.values@, self.order@)
    }

    /// The map from keys to values that the entries hold.
    pub open spec fn map_view(self) -> Map<[i32; 3], V> {
        map_of(self.entries())
    }

    /// The number of buckets.
    pub closed spec fn bucket_count_spec(self) -> nat {
        self.bucket_count as nat
    }

    /// The element count above which the next insertion may rehash.
    pub closed spec fn next_resize_spec(self) -> nat {
        self.next_resize as nat
    }

    /// Keys of a well-formed map are unique.
    pub proof fn lemma_keys_unique(self)
        requires
            self.wf(),
        ensures
            keys_unique(entry_keys(self.entries())),
            self.bucket_count_spec() > 0,
            self.next_resize_spec() <= self.bucket_count_spec(),
    {
        reveal(links_ok);
        assert(entry_keys(self.entries()) =~= keys_in_order(self.keys@, self.order@));
    }

    /// An empty map with one bucket.
    pub fn new() -> (m: Self)
        ensures
            m.wf(),
            m.entries() == Seq::<([i32; 3], V)>::empty(),
            m.map_view() == Map::<[i32; 3], V>::empty(),
            m.bucket_count_spec() == 1,
            m.next_resize_spec() == 0,
    {
        reveal(links_ok);
        let mut buckets: Vec<Option<usize>> = Vec::new();
        buckets.push(None);
        let m = StdUnorderedMap {
            keys: Vec::new(),
            values: Vec::new(),
            hashes: Vec::new(),
            nexts: Vec::new(),
            buckets,
            head: None,
            bucket_count: 1,
            element_count: 0,
            next_resize: 0,
            order: Ghost(Seq::empty()),
        };
        proof {
            let ks = keys_in_order(m.keys@, m.order@);
            assert(ks.len() == 0);
            lemma_first_in_bucket(ks, 0, 1);
            assert(m.buckets@[0] == bucket_entry(ks, m.order@, 0, 1));
            assert(m.entries() =~= Seq::<([i32; 3], V)>::empty());
            assert(m.map_view() =~= Map::<[i32; 3], V>::empty());
        }
        m
    }

    /// Number of elements.
    pub fn len(&self) -> (r: usize)
        requires
            self.wf(),
        ensures
            r == self.entries().len(),
    {
        self.element_count
    }

    /// Whether the map has no elements.
    pub fn is_empty(&self) -> (r: bool)
        requires
            self.wf(),
        ensures
            r == (self.entries().len() == 0),
    {
        self.element_count == 0
    }

    fn bucket_index(hash: u64, count: usize) -> (b: usize)
        requires
            count > 0,
        ensures
            b < count,
            b == (hash as nat) % (count as nat),
    {
        (hash % count as u64) as usize
    }

    /// The first node of bucket `b`, if any.
    fn node_first_of_bucket(&self, b: usize) -> (r: Option<usize>)
        requires
            self.wf(),
            b < self.bucket_count,
        ensures
            match first_in_bucket(keys_in_order(self.keys@, self.order@), b as nat, self.bucket_count as nat) {
                None => r is None,
                Some(f) => r == Some(self.order@[f]),
            },
    {
        reveal(links_ok);
        let ghost ks = keys_in_order(self.keys@, self.order@);
        proof {
            lemma_first_in_bucket(ks, b as nat, self.bucket_count as nat);
            assert(self.buckets@[b as int] == bucket_entry(ks, self.order@, b as nat, self.bucket_count as nat));
        }
        match self.buckets[b] {
            None => None,
            Some(prev) => {
                if prev == BEFORE_BEGIN {
                    self.head
                } else {
                    proof {
                        let f = first_in_bucket(ks, b as nat, self.bucket_count as nat).unwrap();
                        if f == 0 {
                            assert(prev == BEFORE_BEGIN);
                        } else {
                            assert(self.order@[f - 1] < self.keys@.len());
                            assert(self.nexts@[self.order@[f - 1] as int] == next_of(self.order@, f - 1));
                        }
                    }
                    self.nexts[prev]
                }
            },
        }
    }

    /// Searches the run of bucket `b` for `key`; `None` when absent.
    #[verifier::rlimit(40)]
    fn find_node(&self, key: &[i32; 3], b: usize) -> (r: Option<usize>)
        requires
            self.wf(),
            b < self.bucket_count,
            b == bucket_of(*key, self.bucket_count as nat),
        ensures
            match r {
                Some(i) => exists|p: int|
                    0 <= p < self.order@.len() && #[trigger] self.order@[p] == i
                        && self.keys@[i as int] == *key,
                None => forall|p: int|
                    0 <= p < self.order@.len() ==> #[trigger] keys_in_order(self.keys@, self.order@)[p]
                        != *key,
            },
    {
        reveal(links_ok);
        let ghost ks = keys_in_order(self.keys@, self.order@);
        let ghost n = self.bucket_count as nat;
        let ghost len = self.order@.len() as int;
        let mut cur = self.node_first_of_bucket(b);
        let ghost fo = first_in_bucket(ks, b as nat, n);
        proof {
            lemma_first_in_bucket(ks, b as nat, n);
        }
        let ghost f: int = match fo {
            Some(f) => f,
            None => len,
        };
        let ghost mut pos: int = f;
        loop
            invariant
                self.wf(),
                ks == keys_in_order(self.keys@, self.order@),
                n == self.bucket_count,
                len == self.order@.len(),
                b == bucket_of(*key, n),
                b < n,
                fo == first_in_bucket(ks, b as nat, n),
                fo is None ==> f == len,
                fo matches Some(ff) ==> f == ff && bucket_of(ks[ff], n) == b,
                forall|j: int| 0 <= j < f ==> bucket_of(#[trigger] ks[j], n) != b,
                fo is None ==> forall|j: int| 0 <= j < len ==> bucket_of(#[trigger] ks[j], n) != b,
                0 <= f <= pos <= len,
                cur == (if pos < len {
                    Some(self.order@[pos])
                } else {
                    None::<usize>
                }),
                forall|j: int| f <= j < pos ==> bucket_of(#[trigger] ks[j], n) == b && ks[j] != *key,
            decreases len - pos,
        {
            match cur {
                None => {
                    return None;
                },
                Some(i) => {
                    proof {
                        reveal(links_ok);
                        assert(self.order@[pos] < self.keys@.len());
                        assert(self.hashes@[self.order@[pos] as int] == hash_key(ks[pos]));
                    }
                    if Self::bucket_index(self.hashes[i], self.bucket_count) != b {
                        proof {
                            lemma_run_end(ks, n, b as nat, f, pos, *key);
                        }
                        return None;
                    }
                    if key_eq(&self.keys[i], key) {
                        return Some(i);
                    }
                    proof {
                        assert(self.nexts@[self.order@[pos] as int] == next_of(self.order@, pos));
                        pos = pos + 1;
                    }
                    cur = self.nexts[i];
                },
            }
        }
    }

    /// The value stored under `key`.
    pub fn get(&self, key: &[i32; 3]) -> (r: Option<&V>)
        requires
            self.wf(),
        ensures
            match r {
                Some(v) => exists|p: int|
                    0 <= p < self.entries().len() && #[trigger] self.entries()[p] == (*key, *v),
                None => forall|p: int|
                    0 <= p < self.entries().len() ==> #[trigger] self.entries()[p].0 != *key,
            },
            match r {
                Some(v) => self.map_view().contains_key(*key) && *v == self.map_view()[*key],
                None => !self.map_view().contains_key(*key),
            },
    {
        proof {
            lemma_links_basic(self.keys@, self.hashes@, self.nexts@, self.buckets@, self.head, self.bucket_count as nat, self.order@);
        }
        let h = hash_vector3i(key);
        let b = Self::bucket_index(h, self.bucket_count);
        match self.find_node(key, b) {
            Some(i) => {
                proof {
                    let p = choose|p: int|
                        0 <= p < self.order@.len() && #[trigger] self.order@[p] == i
                            && self.keys@[i as int] == *key;
                    assert(self.entries()[p] == (*key, self.values@[i as int]));
                    self.lemma_keys_unique();
                    lemma_map_of_entry(self.entries(), (*key, self.values@[i as int]));
                }
                Some(&self.values[i])
            },
            None => {
                proof {
                    assert forall|p: int| 0 <= p < self.entries().len() implies #[trigger] self.entries()[p].0
                        != *key by {
                        assert(keys_in_order(self.keys@, self.order@)[p] != *key);
                    }
                }
                None
            },
        }
    }
}

impl<V> StdUnorderedMap<V> {
    /// Links node `node` in front of the first node of bucket `bkt`, or at the
    /// head of the list when the bucket is empty.
    #[verifier::rlimit(40)]
    fn insert_bucket_begin(&mut self, bkt: usize, node: usize)
        requires
            links_ok(
                old(self).keys@,
                old(self).hashes@,
                old(self).nexts@,
                old(self).buckets@,
                old(self).head,
                old(self).bucket_count as nat,
                old(self).order@,
            ),
            node < old(self).keys@.len(),
            !old(self).order@.contains(node),
            old(self).hashes@[node as int] == hash_key(old(self).keys@[node as int]),
            forall|p: int|
                0 <= p < old(self).order@.len() ==> #[trigger] keys_in_order(
                    old(self).keys@,
                    old(self).order@,
                )[p] != old(self).keys@[node as int],
            bkt == bucket_of(old(self).keys@[node as int], old(self).bucket_count as nat),
        ensures
            final(self).order@ == old(self).order@.insert(
                insert_pos(
                    keys_in_order(old(self).keys@, old(self).order@),
                    old(self).keys@[node as int],
                    old(self).bucket_count as nat,
                ),
                node,
            ),
            links_ok(
                final(self).keys@,
                final(self).hashes@,
                final(self).nexts@,
                final(self).buckets@,
                final(self).head,
                final(self).bucket_count as nat,
                final(self).order@,
            ),
            final(self).keys@ == old(self).keys@,
            final(self).values@ == old(self).values@,
            final(self).hashes@ == old(self).hashes@,
            final(self).bucket_count == old(self).bucket_count,
            final(self).element_count == old(self).element_count,
            final(self).next_resize == old(self).next_resize,
    {
        reveal(links_ok);
        let ghost ks = keys_in_order(self.keys@, self.order@);
        let ghost n = self.bucket_count as nat;
        let ghost o = self.order@;
        let ghost nexts0 = self.nexts@;
        let ghost buckets0 = self.buckets@;
        let ghost head0 = self.head;
        proof {
            lemma_first_in_bucket(ks, bkt as nat, n);
            assert(self.buckets@[bkt as int] == bucket_entry(ks, o, bkt as nat, n));
        }
        match self.buckets[bkt] {
            Some(prev) => {
                let ghost f = first_in_bucket(ks, bkt as nat, n).unwrap();
                proof {
                    if f > 0 {
                        assert(o[f - 1] < self.keys@.len());
                        assert(self.nexts@[o[f - 1] as int] == next_of(o, f - 1));
                        assert(o.contains(o[f - 1]));
                    }
                }
                let first = if prev == BEFORE_BEGIN {
                    self.head
                } else {
                    self.nexts[prev]
                };
                self.nexts[node] = first;
                if prev == BEFORE_BEGIN {
                    self.head = Some(node);
                } else {
                    self.nexts[prev] = Some(node);
                }
                proof {
                    assert(first == Some(o[f]));
                    assert(bucket_insert_step(
                        self.keys@,
                        nexts0,
                        buckets0,
                        head0,
                        n,
                        o,
                        node,
                        self.nexts@,
                        self.buckets@,
                        self.head,
                    ));
                }
            },
            None => {
                self.nexts[node] = self.head;
                let old_head = self.head;
                self.head = Some(node);
                if let Some(next) = old_head {
                    proof {
                        assert(o[0] < self.keys@.len());
                        assert(self.hashes@[o[0] as int] == hash_key(ks[0]));
                    }
                    let next_bktidx = Self::bucket_index(self.hashes[next], self.bucket_count);
                    self.buckets[next_bktidx] = Some(node);
                }
                self.buckets[bkt] = Some(BEFORE_BEGIN);
                proof {
                    assert(bucket_insert_step(
                        self.keys@,
                        nexts0,
                        buckets0,
                        head0,
                        n,
                        o,
                        node,
                        self.nexts@,
                        self.buckets@,
                        self.head,
                    ));
                }
            },
        }
        proof {
            lemma_bucket_insert(
                self.keys@,
                self.hashes@,
                nexts0,
                buckets0,
                head0,
                n,
                o,
                node,
                self.nexts@,
                self.buckets@,
                self.head,
            );
            self.order = Ghost(o.insert(insert_pos(ks, self.keys@[node as int], n), node));
        }
    }
}

/// Nodes of `no` all come from the first `k` nodes of `o`.
pub open spec fn from_prefix(no: Seq<usize>, o: Seq<usize>, k: int) -> bool {
    forall|q: int|
        #![trigger no[q]]
        0 <= q < no.len() ==> exists|j: int| 0 <= j < k && #[trigger] o[j] == no[q]
}

proof fn lemma_rehashed_step<V>(e: Seq<([i32; 3], V)>, k: int, n: nat)
    requires
        0 <= k < e.len(),
    ensures
        rehashed(e.take(k + 1), n) == bucket_insert(rehashed(e.take(k), n), e[k].0, e[k].1, n),
{
    assert(e.take(k + 1).drop_last() =~= e.take(k));
}

/// The state of a rehash into `n` buckets after `k` of the old list's nodes
/// `o` have been relinked, in list order, into the new list `no`.
#[verifier::opaque]
pub open spec fn rehash_inv<V>(
    keys: Seq<[i32; 3]>,
    values: Seq<V>,
    hashes: Seq<u64>,
    o: Seq<usize>,
    n: nat,
    k: int,
    no: Seq<usize>,
    nexts: Seq<Option<usize>>,
    buckets: Seq<Option<usize>>,
    head: Option<usize>,
    bbegin: usize,
    p: Option<usize>,
) -> bool {
    let len = o.len() as int;
    &&& values.len() == keys.len()
    &&& o.len() == keys.len()
    &&& o.no_duplicates()
    &&& forall|j: int| 0 <= j < len ==> #[trigger] o[j] < keys.len()
    &&& forall|j: int| 0 <= j < len ==> hashes[#[trigger] o[j] as int] == hash_key(keys[o[j] as int])
    &&& keys_unique(keys_in_order(keys, o))
    &&& 0 <= k <= len
    &&& p == (if k < len {
        Some(o[k])
    } else {
        None::<usize>
    })
    &&& no.len() == k
    &&& links_ok(keys, hashes, nexts, buckets, head, n, no)
    &&& forall|j: int| k <= j < len ==> #[trigger] nexts[o[j] as int] == next_of(o, j)
    &&& from_prefix(no, o, k)
    &&& (no.len() > 0 ==> bbegin == bucket_of(keys[no[0] as int], n))
    &&& bbegin < n
    &&& entries_of(keys, values, no) == rehashed(entries_of(keys, values, o).take(k), n)
}

/// What the relinking of node `o[k]` needs to know before it starts.
proof fn lemma_rehash_pre<V>(
    keys: Seq<[i32; 3]>,
    values: Seq<V>,
    hashes: Seq<u64>,
    o: Seq<usize>,
    n: nat,
    k: int,
    no: Seq<usize>,
    nexts: Seq<Option<usize>>,
    buckets: Seq<Option<usize>>,
    head: Option<usize>,
    bbegin: usize,
    p: Option<usize>,
)
    requires
        rehash_inv(keys, values, hashes, o, n, k, no, nexts, buckets, head, bbegin, p),
        p is Some,
    ensures
        ({
            let i = p.unwrap();
            let ks = keys_in_order(keys, no);
            let b = bucket_of(keys[i as int], n);
            &&& k < o.len()
            &&& i == o[k]
            &&& !no.contains(i)
            &&& i < keys.len()
            &&& nexts.len() == keys.len()
            &&& hashes.len() == keys.len()
            &&& buckets.len() == n
            &&& n > 0
            &&& bbegin < n
            &&& hashes[i as int] == hash_key(keys[i as int])
            &&& nexts[i as int] == (if k + 1 < o.len() {
                Some(o[k + 1])
            } else {
                None::<usize>
            })
            &&& head == (if no.len() == 0 {
                None::<usize>
            } else {
                Some(no[0])
            })
            &&& match first_in_bucket(ks, b, n) {
                None => {
                    &&& buckets[b as int] is None
                    &&& (no.len() > 0 ==> bbegin != b && bbegin == bucket_of(ks[0], n))
                },
                Some(f) => {
                    &&& buckets[b as int] == (if f == 0 {
                        Some(BEFORE_BEGIN)
                    } else {
                        Some(no[f - 1])
                    })
                    &&& 0 <= f < no.len()
                    &&& (f > 0 ==> no[f - 1] < keys.len() && no[f - 1] != BEFORE_BEGIN && nexts[no[f
                        - 1] as int] == Some(no[f]))
                    &&& (f == 0 ==> head == Some(no[f]))
                },
            }
        }),
{
    reveal(links_ok);
    reveal(rehash_inv);
    let i = p.unwrap();
    let ks = keys_in_order(keys, no);
    let b = bucket_of(keys[i as int], n);
    lemma_rehash_fresh(keys, o, k, no);
    lemma_first_in_bucket(ks, b, n);
    assert(buckets[b as int] == bucket_entry(ks, no, b, n));
    match first_in_bucket(ks, b, n) {
        None => {
            if no.len() > 0 {
                lemma_first_in_bucket(ks, bbegin as nat, n);
                assert(ks[0] == keys[no[0] as int]);
            }
        },
        Some(f) => {
            if f > 0 {
                assert(no[f - 1] < keys.len());
                assert(nexts[no[f - 1] as int] == next_of(no, f - 1));
            }
        },
    }
}

/// The nodes relinked so far are distinct from node `o[k]` and hold other keys.
proof fn lemma_rehash_fresh(keys: Seq<[i32; 3]>, o: Seq<usize>, k: int, no: Seq<usize>)
    requires
        o.no_duplicates(),
        0 <= k < o.len(),
        forall|j: int| 0 <= j < o.len() ==> #[trigger] o[j] < keys.len(),
        keys_unique(keys_in_order(keys, o)),
        from_prefix(no, o, k),
    ensures
        !no.contains(o[k]),
        forall|q: int|
            0 <= q < no.len() ==> #[trigger] keys_in_order(keys, no)[q] != keys[o[k] as int],
{
    let ok = keys_in_order(keys, o);
    let ks = keys_in_order(keys, no);
    assert forall|q: int| 0 <= q < no.len() implies no[q] != o[k] && #[trigger] ks[q] != keys[o[k] as int] by {
        let j = choose|j: int| 0 <= j < k && #[trigger] o[j] == no[q];
        assert(o[j] != o[k]);
        assert(ok[j] == keys[o[j] as int]);
        assert(ok[k] == keys[o[k] as int]);
    }
}

/// After relinking `o[k]`, the new list still comes from the processed prefix.
proof fn lemma_rehash_prefix(o: Seq<usize>, k: int, no: Seq<usize>, pos: int)
    requires
        0 <= k < o.len(),
        0 <= pos <= no.len(),
        from_prefix(no, o, k),
    ensures
        from_prefix(no.insert(pos, o[k]), o, k + 1),
{
    let no2 = no.insert(pos, o[k]);
    assert forall|q: int|
        #![trigger no2[q]]
        0 <= q < no2.len() implies exists|j: int| 0 <= j < k + 1 && #[trigger] o[j] == no2[q] by {
        if q < pos {
            let j = choose|j: int| 0 <= j < k && #[trigger] o[j] == no[q];
            assert(o[j] == no2[q]);
        } else if q == pos {
            assert(o[k] == no2[q]);
        } else {
            let j = choose|j: int| 0 <= j < k && #[trigger] o[j] == no[q - 1];
            assert(o[j] == no2[q]);
        }
    }
}

/// Linking node `x` in changes only the links of `x` and of nodes already on the list.
proof fn lemma_step_changes(
    keys: Seq<[i32; 3]>,
    nexts0: Seq<Option<usize>>,
    buckets0: Seq<Option<usize>>,
    head0: Option<usize>,
    n: nat,
    no: Seq<usize>,
    x: usize,
    nexts1: Seq<Option<usize>>,
    buckets1: Seq<Option<usize>>,
    head1: Option<usize>,
)
    requires
        bucket_insert_step(keys, nexts0, buckets0, head0, n, no, x, nexts1, buckets1, head1),
    ensures
        nexts1.len() == nexts0.len(),
        forall|idx: int|
            0 <= idx < nexts0.len() && idx != x && !no.contains(idx as usize) ==> #[trigger] nexts1[idx]
                == nexts0[idx],
{
    let ks = keys_in_order(keys, no);
    let b = bucket_of(keys[x as int], n);
    lemma_first_in_bucket(ks, b, n);
    match first_in_bucket(ks, b, n) {
        Some(f) => {
            assert forall|idx: int|
                0 <= idx < nexts0.len() && idx != x && !no.contains(idx as usize) implies #[trigger] nexts1[idx]
                == nexts0[idx] by {
                if f > 0 && idx == no[f - 1] {
                    assert(no.contains(no[f - 1]));
                }
            }
        },
        None => {},
    }
}

/// The links of the nodes not yet relinked are untouched by relinking `o[k]`.
proof fn lemma_rehash_rest(
    o: Seq<usize>,
    k: int,
    no: Seq<usize>,
    nexts0: Seq<Option<usize>>,
    nexts1: Seq<Option<usize>>,
)
    requires
        o.no_duplicates(),
        0 <= k < o.len(),
        forall|j: int| 0 <= j < o.len() ==> #[trigger] o[j] < nexts0.len(),
        forall|j: int| k <= j < o.len() ==> #[trigger] nexts0[o[j] as int] == next_of(o, j),
        from_prefix(no, o, k),
        nexts1.len() == nexts0.len(),
        forall|idx: int|
            0 <= idx < nexts0.len() && idx != o[k] && !no.contains(idx as usize) ==> #[trigger] nexts1[idx]
                == nexts0[idx],
    ensures
        forall|j: int| k + 1 <= j < o.len() ==> #[trigger] nexts1[o[j] as int] == next_of(o, j),
{
    assert forall|j: int| k + 1 <= j < o.len() implies #[trigger] nexts1[o[j] as int] == next_of(o, j) by {
        assert(o[j] != o[k]);
        if no.contains(o[j]) {
            let q = choose|q: int| 0 <= q < no.len() && no[q] == o[j];
            let jj = choose|jj: int| 0 <= jj < k && #[trigger] o[jj] == no[q];
            assert(o[jj] == o[j]);
        }
        assert(nexts1[o[j] as int] == nexts0[o[j] as int]);
    }
}

/// The entries of the new list after relinking `o[k]` are the rehash of one more old entry.
proof fn lemma_rehash_entries<V>(
    keys: Seq<[i32; 3]>,
    values: Seq<V>,
    o: Seq<usize>,
    n: nat,
    k: int,
    no: Seq<usize>,
)
    requires
        0 <= k < o.len(),
        keys.len() == values.len(),
        o[k] < keys.len(),
        forall|q: int| 0 <= q < no.len() ==> #[trigger] no[q] < keys.len(),
        entries_of(keys, values, no) == rehashed(entries_of(keys, values, o).take(k), n),
    ensures
        entries_of(
            keys,
            values,
            no.insert(insert_pos(keys_in_order(keys, no), keys[o[k] as int], n), o[k]),
        ) == rehashed(entries_of(keys, values, o).take(k + 1), n),
{
    let e = entries_of(keys, values, o);
    lemma_entries_insert(keys, values, no, o[k], n);
    lemma_rehashed_step(e, k, n);
    assert(e[k] == (keys[o[k] as int], values[o[k] as int]));
}

/// Relinking node `o[k]` re-establishes the rehash state for `k + 1`.
#[verifier::rlimit(100)]
#[verifier::spinoff_prover]
proof fn lemma_rehash_post<V>(
    keys: Seq<[i32; 3]>,
    values: Seq<V>,
    hashes: Seq<u64>,
    o: Seq<usize>,
    n: nat,
    k: int,
    no: Seq<usize>,
    nexts0: Seq<Option<usize>>,
    buckets0: Seq<Option<usize>>,
    head0: Option<usize>,
    bbegin0: usize,
    p0: Option<usize>,
    nexts1: Seq<Option<usize>>,
    buckets1: Seq<Option<usize>>,
    head1: Option<usize>,
    bbegin1: usize,
    p1: Option<usize>,
) -> (no2: Seq<usize>)
    requires
        rehash_inv(keys, values, hashes, o, n, k, no, nexts0, buckets0, head0, bbegin0, p0),
        n <= usize::MAX,
        p0 is Some,
        p1 == nexts0[p0.unwrap() as int],
        bucket_insert_step(keys, nexts0, buckets0, head0, n, no, p0.unwrap(), nexts1, buckets1, head1),
        bbegin1 == (if first_in_bucket(
            keys_in_order(keys, no),
            bucket_of(keys[p0.unwrap() as int], n),
            n,
        ) is None {
            bucket_of(keys[p0.unwrap() as int], n) as usize
        } else {
            bbegin0
        }),
    ensures
        no2 == no.insert(
            insert_pos(keys_in_order(keys, no), keys[p0.unwrap() as int], n),
            p0.unwrap(),
        ),
        rehash_inv(keys, values, hashes, o, n, k + 1, no2, nexts1, buckets1, head1, bbegin1, p1),
{
    reveal(rehash_inv);
    let i = p0.unwrap();
    let ks = keys_in_order(keys, no);
    let b = bucket_of(keys[i as int], n);
    lemma_links_basic(keys, hashes, nexts0, buckets0, head0, n, no);
    assert(b < n);
    assert(i == o[k]);
    lemma_rehash_fresh(keys, o, k, no);
    assert(hashes[o[k] as int] == hash_key(keys[o[k] as int]));
    lemma_bucket_insert(keys, hashes, nexts0, buckets0, head0, n, no, i, nexts1, buckets1, head1);
    let pos = insert_pos(ks, keys[i as int], n);
    let no2 = no.insert(pos, i);
    lemma_first_in_bucket(ks, b, n);
    lemma_rehash_entries(keys, values, o, n, k, no);
    lemma_step_changes(keys, nexts0, buckets0, head0, n, no, i, nexts1, buckets1, head1);
    lemma_rehash_rest(o, k, no, nexts0, nexts1);
    lemma_rehash_prefix(o, k, no, pos);
    assert(nexts0[o[k] as int] == next_of(o, k));
    match first_in_bucket(ks, b, n) {
        None => {
            assert(pos == 0);
            assert(no2[0] == i);
            assert(bbegin1 == b);
        },
        Some(f) => {
            assert(bbegin1 == bbegin0);
            if f == 0 {
                assert(no2[0] == i);
                assert(ks[0] == keys[no[0] as int]);
            } else {
                assert(no2[0] == no[0]);
            }
        },
    }
    assert(values.len() == keys.len());
    assert(o.no_duplicates());
    assert(0 <= k + 1 <= o.len());
    assert(p1 == (if k + 1 < o.len() {
        Some(o[k + 1])
    } else {
        None::<usize>
    }));
    assert(no2.len() == k + 1);
    assert(links_ok(keys, hashes, nexts1, buckets1, head1, n, no2));
    assert(from_prefix(no2, o, k + 1));
    assert(no2.len() > 0 ==> bbegin1 == bucket_of(keys[no2[0] as int], n));
    assert(bbegin1 < n);
    assert(entries_of(keys, values, no2) == rehashed(entries_of(keys, values, o).take(k + 1), n));
    no2
}

impl<V> StdUnorderedMap<V> {
    /// Relinks every node, in list order, into `new_count` buckets
    /// (`_M_rehash_aux` for unique keys).
    fn do_rehash(&mut self, new_count: usize)
        requires
            old(self).wf(),
            new_count > 0,
        ensures
            links_ok(
                final(self).keys@,
                final(self).hashes@,
                final(self).nexts@,
                final(self).buckets@,
                final(self).head,
                final(self).bucket_count as nat,
                final(self).order@,
            ),
            final(self).order@.len() == old(self).order@.len(),
            final(self).bucket_count == new_count,
            final(self).entries() == rehashed(old(self).entries(), new_count as nat),
            final(self).keys@ == old(self).keys@,
            final(self).values@ == old(self).values@,
            final(self).hashes@ == old(self).hashes@,
            final(self).element_count == old(self).element_count,
            final(self).next_resize == old(self).next_resize,
    {
        reveal(links_ok);
        let ghost o = self.order@;
        let ghost e = self.entries();
        let ghost n = new_count as nat;
        let ghost keys = self.keys@;
        let mut new_buckets: Vec<Option<usize>> = vec![None; new_count];
        let mut p = self.head;
        self.head = None;
        let mut bbegin_bkt = 0usize;
        let ghost mut k: int = 0;
        let ghost mut no: Seq<usize> = Seq::empty();
        proof {
            assert forall|b: int| 0 <= b < n implies #[trigger] new_buckets@[b] == bucket_entry(
                keys_in_order(keys, no),
                no,
                b as nat,
                n,
            ) by {
                lemma_first_in_bucket(keys_in_order(keys, no), b as nat, n);
                assert(vstd::pervasive::strictly_cloned(None::<usize>, new_buckets@[b])
                    || new_buckets@[b] == None::<usize>);
            }
            assert(entries_of(keys, self.values@, no) =~= rehashed(e.take(0), n));
            assert(keys_in_order(keys, no).len() == 0);
            reveal(rehash_inv);
            assert(rehash_inv(
                keys,
                self.values@,
                self.hashes@,
                o,
                n,
                k,
                no,
                self.nexts@,
                new_buckets@,
                self.head,
                bbegin_bkt,
                p,
            ));
        }
        while p.is_some()
            invariant
                self.keys@ == keys,
                self.values@ == old(self).values@,
                self.hashes@ == old(self).hashes@,
                e == entries_of(keys, self.values@, o),
                n == new_count,
                rehash_inv(
                    keys,
                    self.values@,
                    self.hashes@,
                    o,
                    n,
                    k,
                    no,
                    self.nexts@,
                    new_buckets@,
                    self.head,
                    bbegin_bkt,
                    p,
                ),
                self.bucket_count == old(self).bucket_count,
                self.element_count == old(self).element_count,
                self.next_resize == old(self).next_resize,
            decreases o.len() - k,
        {
            proof {
                lemma_rehash_pre(
                    keys,
                    self.values@,
                    self.hashes@,
                    o,
                    n,
                    k,
                    no,
                    self.nexts@,
                    new_buckets@,
                    self.head,
                    bbegin_bkt,
                    p,
                );
            }
            let ghost p0 = p;
            let ghost nexts0 = self.nexts@;
            let ghost buckets0 = new_buckets@;
            let ghost head0 = self.head;
            let ghost bbegin0 = bbegin_bkt;
            let ghost ks = keys_in_order(keys, no);
            let i = match p {
                Some(i) => i,
                None => 0,
            };
            let next = self.nexts[i];
            let bkt = Self::bucket_index(self.hashes[i], new_count);
            if new_buckets[bkt].is_none() {
                self.nexts[i] = self.head;
                let had_next = self.nexts[i].is_some();
                self.head = Some(i);
                new_buckets[bkt] = Some(BEFORE_BEGIN);
                if had_next {
                    new_buckets[bbegin_bkt] = Some(i);
                    proof {
                        assert(new_buckets@ =~= buckets0.update(bucket_of(ks[0], n) as int, Some(i)).update(
                            bkt as int,
                            Some(BEFORE_BEGIN),
                        ));
                    }
                }
                bbegin_bkt = bkt;
            } else {
                let prev = match new_buckets[bkt] {
                    Some(prev) => prev,
                    None => 0,
                };
                let first = if prev == BEFORE_BEGIN {
                    self.head
                } else {
                    self.nexts[prev]
                };
                self.nexts[i] = first;
                if prev == BEFORE_BEGIN {
                    self.head = Some(i);
                } else {
                    self.nexts[prev] = Some(i);
                }
            }
            proof {
                assert(bucket_insert_step(
                    keys,
                    nexts0,
                    buckets0,
                    head0,
                    n,
                    no,
                    i,
                    self.nexts@,
                    new_buckets@,
                    self.head,
                ));
                no = lemma_rehash_post(
                    keys,
                    self.values@,
                    self.hashes@,
                    o,
                    n,
                    k,
                    no,
                    nexts0,
                    buckets0,
                    head0,
                    bbegin0,
                    p0,
                    self.nexts@,
                    new_buckets@,
                    self.head,
                    bbegin_bkt,
                    next,
                );
                k = k + 1;
            }
            p = next;
        }
        proof {
            reveal(rehash_inv);
            assert(e.take(o.len() as int) =~= e);
        }
        self.buckets = new_buckets;
        self.bucket_count = new_count;
        self.order = Ghost(no);
    }
}

/// A rehash keeps the same entries, so a key absent before stays absent.
proof fn lemma_rehashed_keys<V>(e: Seq<([i32; 3], V)>, n: nat, k: [i32; 3])
    ensures
        rehashed(e, n).len() == e.len(),
        (forall|p: int| 0 <= p < e.len() ==> #[trigger] e[p].0 != k) ==> forall|p: int|
            0 <= p < rehashed(e, n).len() ==> #[trigger] rehashed(e, n)[p].0 != k,
    decreases e.len(),
{
    if e.len() > 0 {
        let r = rehashed(e.drop_last(), n);
        lemma_rehashed_keys(e.drop_last(), n, k);
        lemma_first_in_bucket(entry_keys(r), bucket_of(e.last().0, n), n);
        let pos = insert_pos(entry_keys(r), e.last().0, n);
        if forall|p: int| 0 <= p < e.len() ==> #[trigger] e[p].0 != k {
            assert forall|p: int| 0 <= p < e.drop_last().len() implies #[trigger] e.drop_last()[p].0 != k by {
                assert(e.drop_last()[p] == e[p]);
            }
            assert forall|p: int| 0 <= p < rehashed(e, n).len() implies #[trigger] rehashed(e, n)[p].0 != k by {
                if p < pos {
                    assert(rehashed(e, n)[p] == r[p]);
                } else if p > pos {
                    assert(rehashed(e, n)[p] == r[p - 1]);
                } else {
                    assert(e[e.len() - 1].0 != k);
                }
            }
        }
    }
}

/// A node appended to the arena, off the list, leaves the list intact.
proof fn lemma_links_push(
    keys: Seq<[i32; 3]>,
    hashes: Seq<u64>,
    nexts: Seq<Option<usize>>,
    buckets: Seq<Option<usize>>,
    head: Option<usize>,
    n: nat,
    order: Seq<usize>,
    k: [i32; 3],
    h: u64,
)
    requires
        links_ok(keys, hashes, nexts, buckets, head, n, order),
        keys.len() + 1 < usize::MAX,
    ensures
        links_ok(keys.push(k), hashes.push(h), nexts.push(None), buckets, head, n, order),
        keys_in_order(keys.push(k), order) == keys_in_order(keys, order),
{
    reveal(links_ok);
    assert(keys_in_order(keys.push(k), order) =~= keys_in_order(keys, order));
}

/// Replacing the value of node `order[pos]` replaces entry `pos`.
proof fn lemma_entries_update_value<V>(
    keys: Seq<[i32; 3]>,
    values: Seq<V>,
    order: Seq<usize>,
    pos: int,
    w: V,
)
    requires
        order.no_duplicates(),
        0 <= pos < order.len(),
        forall|p: int| 0 <= p < order.len() ==> #[trigger] order[p] < values.len(),
    ensures
        entries_of(keys, values.update(order[pos] as int, w), order) == entries_of(
            keys,
            values,
            order,
        ).update(pos, (keys[order[pos] as int], w)),
{
    assert forall|p: int| 0 <= p < order.len() && p != pos implies order[p] != order[pos] by {}
    assert(entries_of(keys, values.update(order[pos] as int, w), order) =~= entries_of(
        keys,
        values,
        order,
    ).update(pos, (keys[order[pos] as int], w)));
}

/// `next_bkt_defined` holds for every request below one for which it holds.
proof fn lemma_next_bkt_defined_mono(a: nat, b: nat)
    requires
        a <= b,
        next_bkt_defined(b),
    ensures
        next_bkt_defined(a),
{
    if a > PRIME_TABLE_MAX {
        let p = choose|p: nat| p >= b && p <= usize::MAX && #[trigger] is_prime_spec(p);
        assert(p >= a && p <= usize::MAX && is_prime_spec(p));
    }
}

/// Inserting `(k, v)` in bucket order puts it at `insert_pos`.
proof fn lemma_bucket_insert_at<V>(e: Seq<([i32; 3], V)>, k: [i32; 3], v: V, w: V, n: nat)
    ensures
        0 <= insert_pos(entry_keys(e), k, n) <= e.len(),
        bucket_insert(e, k, v, n).update(insert_pos(entry_keys(e), k, n), (k, w)) == bucket_insert(
            e,
            k,
            w,
            n,
        ),
{
    lemma_first_in_bucket(entry_keys(e), bucket_of(k, n), n);
    assert(bucket_insert(e, k, v, n).update(insert_pos(entry_keys(e), k, n), (k, w)) =~= bucket_insert(
        e,
        k,
        w,
        n,
    ));
}

impl<V> StdUnorderedMap<V> {
    /// `_M_need_rehash` for one more element, followed by the rehash it asks for.
    fn grow_for_insert(&mut self)
        requires
            old(self).wf(),
            can_grow(old(self).entries().len()),
        ensures
            final(self).wf(),
            ({
                let plan = grow_plan(
                    old(self).entries().len(),
                    old(self).bucket_count as nat,
                    old(self).next_resize as nat,
                );
                &&& final(self).bucket_count == plan.1
                &&& final(self).next_resize == plan.2
                &&& final(self).entries() == grown_entries(
                    old(self).entries(),
                    old(self).bucket_count as nat,
                    old(self).next_resize as nat,
                )
            }),
            final(self).keys@.len() == old(self).keys@.len(),
    {
        let ghost len = self.entries().len();
        proof {
            lemma_links_basic(self.keys@, self.hashes@, self.nexts@, self.buckets@, self.head, self.bucket_count as nat, self.order@);
        }
        if self.element_count + 1 > self.next_resize {
            let min_bkts_num = if self.element_count + 1 >= (if self.next_resize != 0 {
                0
            } else {
                11
            }) {
                self.element_count + 1
            } else {
                11
            };
            if min_bkts_num >= self.bucket_count {
                let target = if min_bkts_num + 1 >= self.bucket_count * 2 {
                    min_bkts_num + 1
                } else {
                    self.bucket_count * 2
                };
                proof {
                    lemma_next_bkt_defined_mono(target as nat, 2 * len + 22);
                }
                let new_count = next_bkt(target);
                self.do_rehash(new_count);
                self.next_resize = new_count;
            } else {
                self.next_resize = self.bucket_count;
            }
        }
    }
}

impl<V> StdUnorderedMap<V> {
    /// Inserts a key known to be absent, growing the bucket array first when
    /// the load would exceed it (`_M_insert_unique_node`).
    fn insert_new(&mut self, key: [i32; 3], hash: u64, value: V) -> (idx: usize)
        requires
            old(self).wf(),
            hash == hash_key(key),
            forall|p: int|
                0 <= p < old(self).entries().len() ==> #[trigger] old(self).entries()[p].0 != key,
            can_grow(old(self).entries().len()),
        ensures
            final(self).wf(),
            ({
                let plan = grow_plan(
                    old(self).entries().len(),
                    old(self).bucket_count as nat,
                    old(self).next_resize as nat,
                );
                let grown = grown_entries(
                    old(self).entries(),
                    old(self).bucket_count as nat,
                    old(self).next_resize as nat,
                );
                &&& final(self).bucket_count == plan.1
                &&& final(self).next_resize == plan.2
                &&& final(self).entries() == bucket_insert(grown, key, value, plan.1)
                &&& idx < final(self).values@.len()
                &&& final(self).values@[idx as int] == value
                &&& final(self).order@[insert_pos(entry_keys(grown), key, plan.1)] == idx
            }),
    {
        let ghost e0 = self.entries();
        let ghost len = e0.len();
        proof {
            lemma_links_basic(self.keys@, self.hashes@, self.nexts@, self.buckets@, self.head, self.bucket_count as nat, self.order@);
            assert(self.order@.len() == len);
        }
        self.grow_for_insert();
        let ghost e1 = self.entries();
        proof {
            lemma_links_basic(self.keys@, self.hashes@, self.nexts@, self.buckets@, self.head, self.bucket_count as nat, self.order@);
            lemma_links_push(self.keys@, self.hashes@, self.nexts@, self.buckets@, self.head, self.bucket_count as nat, self.order@, key, hash);
            assert(e1.len() == self.order@.len());
        }
        let node_idx = self.keys.len();
        self.keys.push(key);
        self.values.push(value);
        self.hashes.push(hash);
        self.nexts.push(None);
        proof {
            assert(self.entries() =~= e1);
            assert(entry_keys(e1) =~= keys_in_order(self.keys@, self.order@));
            assert forall|q: int| 0 <= q < self.order@.len() implies #[trigger] keys_in_order(
                self.keys@,
                self.order@,
            )[q] != key by {
                assert(entry_keys(e1)[q] == e1[q].0);
                lemma_rehashed_keys(e0, self.bucket_count as nat, key);
            }
            assert(!self.order@.contains(node_idx)) by {
                if self.order@.contains(node_idx) {
                    let q = choose|q: int| 0 <= q < self.order@.len() && self.order@[q] == node_idx;
                    assert(self.order@[q] < node_idx);
                }
            }
        }
        let bkt = Self::bucket_index(hash, self.bucket_count);
        proof {
            lemma_links_basic(self.keys@, self.hashes@, self.nexts@, self.buckets@, self.head, self.bucket_count as nat, self.order@);
            lemma_entries_insert(self.keys@, self.values@, self.order@, node_idx, self.bucket_count as nat);
            lemma_first_in_bucket(keys_in_order(self.keys@, self.order@), bucket_of(key, self.bucket_count as nat), self.bucket_count as nat);
        }
        self.insert_bucket_begin(bkt, node_idx);
        self.element_count += 1;
        proof {
            assert(self.keys@[node_idx as int] == key);
            assert(self.values@[node_idx as int] == value);
            assert(self.values@.len() == self.keys@.len());
            assert(self.order@.len() == self.keys@.len());
            assert(self.element_count == self.keys@.len());
            assert(self.next_resize <= self.bucket_count);
        }
        node_idx
    }
}

/// `key` is one of the keys of `e`.
pub open spec fn has_key<V>(e: Seq<([i32; 3], V)>, key: [i32; 3]) -> bool {
    exists|p: int| 0 <= p < e.len() && #[trigger] e[p].0 == key
}

/// The position of the entry with key `k` (meaningful when there is one).
pub open spec fn key_index<V>(e: Seq<([i32; 3], V)>, k: [i32; 3]) -> int {
    choose|p: int| 0 <= p < e.len() && e[p].0 == k
}

/// The entries as a map from key to value.
pub open spec fn map_of<V>(e: Seq<([i32; 3], V)>) -> Map<[i32; 3], V> {
    Map::new(|k: [i32; 3]| has_key(e, k), |k: [i32; 3]| e[key_index(e, k)].1)
}

/// With unique keys, an entry present in the sequence is what the map holds.
proof fn lemma_map_of_entry<V>(e: Seq<([i32; 3], V)>, y: ([i32; 3], V))
    requires
        keys_unique(entry_keys(e)),
        e.contains(y),
    ensures
        map_of(e).contains_key(y.0),
        map_of(e)[y.0] == y.1,
{
    let q = choose|q: int| 0 <= q < e.len() && e[q] == y;
    assert(e[q].0 == y.0);
    assert(has_key(e, y.0));
    let i = key_index(e, y.0);
    assert(entry_keys(e)[i] == entry_keys(e)[q]);
    if i != q {
        if i < q {
            assert(entry_keys(e)[i] != entry_keys(e)[q]);
        } else {
            assert(entry_keys(e)[q] != entry_keys(e)[i]);
        }
    }
}

/// The map holds exactly the entries of the sequence.
proof fn lemma_map_of_contains<V>(e: Seq<([i32; 3], V)>, k: [i32; 3])
    requires
        map_of(e).contains_key(k),
    ensures
        e.contains((k, map_of(e)[k])),
{
    let i = key_index(e, k);
    assert(e[i] == (k, map_of(e)[k]));
}

/// Two entry sequences with unique keys that hold the same entries give the same map.
proof fn lemma_map_of_same<V>(a: Seq<([i32; 3], V)>, b: Seq<([i32; 3], V)>)
    requires
        keys_unique(entry_keys(a)),
        keys_unique(entry_keys(b)),
        forall|y: ([i32; 3], V)| #[trigger] a.contains(y) <==> b.contains(y),
    ensures
        map_of(a) == map_of(b),
{
    assert forall|k: [i32; 3]| #[trigger] map_of(a).contains_key(k) <==> map_of(b).contains_key(k) by {
        if map_of(a).contains_key(k) {
            lemma_map_of_contains(a, k);
            lemma_map_of_entry(b, (k, map_of(a)[k]));
        }
        if map_of(b).contains_key(k) {
            lemma_map_of_contains(b, k);
            lemma_map_of_entry(a, (k, map_of(b)[k]));
        }
    }
    assert forall|k: [i32; 3]| #[trigger] map_of(a).contains_key(k) implies map_of(a)[k] == map_of(b)[k] by {
        lemma_map_of_contains(a, k);
        lemma_map_of_entry(b, (k, map_of(a)[k]));
    }
    assert(map_of(a) =~= map_of(b));
}

/// Entries that differ from `e` only in holding `(k, v)` in place of any
/// entry with key `k` give `map_of(e)` with `k` mapped to `v`.
proof fn lemma_map_of_put<V>(e: Seq<([i32; 3], V)>, after: Seq<([i32; 3], V)>, k: [i32; 3], v: V)
    requires
        keys_unique(entry_keys(e)),
        keys_unique(entry_keys(after)),
        forall|y: ([i32; 3], V)| #[trigger] after.contains(y) <==> (y == (k, v) || (e.contains(y) && y.0 != k)),
    ensures
        map_of(after) == map_of(e).insert(k, v),
{
    let m = map_of(e).insert(k, v);
    assert(after.contains((k, v)));
    lemma_map_of_entry(after, (k, v));
    assert forall|x: [i32; 3]| #[trigger] map_of(after).contains_key(x) <==> m.contains_key(x) by {
        if x != k {
            if map_of(after).contains_key(x) {
                lemma_map_of_contains(after, x);
                lemma_map_of_entry(e, (x, map_of(after)[x]));
            }
            if map_of(e).contains_key(x) {
                lemma_map_of_contains(e, x);
                assert(after.contains((x, map_of(e)[x])));
                lemma_map_of_entry(after, (x, map_of(e)[x]));
            }
        }
    }
    assert forall|x: [i32; 3]| #[trigger] map_of(after).contains_key(x) implies map_of(after)[x] == m[x] by {
        if x != k {
            lemma_map_of_contains(after, x);
            lemma_map_of_entry(e, (x, map_of(after)[x]));
        }
    }
    assert(map_of(after) =~= m);
}

/// Replacing the value of the entry at `p` replaces the value its key maps to.
proof fn lemma_map_of_update<V>(e: Seq<([i32; 3], V)>, p: int, w: V)
    requires
        keys_unique(entry_keys(e)),
        0 <= p < e.len(),
    ensures
        keys_unique(entry_keys(e.update(p, (e[p].0, w)))),
        map_of(e.update(p, (e[p].0, w))) == map_of(e).insert(e[p].0, w),
{
    let k = e[p].0;
    let after = e.update(p, (k, w));
    assert(entry_keys(after) =~= entry_keys(e));
    assert forall|y: ([i32; 3], V)| #[trigger] after.contains(y) <==> (y == (k, w) || (e.contains(y)
        && y.0 != k)) by {
        if after.contains(y) {
            let q = choose|q: int| 0 <= q < after.len() && after[q] == y;
            if q != p {
                assert(e[q] == y);
                assert(entry_keys(e)[q] != entry_keys(e)[p]) by {
                    if q < p {
                    } else {
                    }
                }
            }
        }
        if y == (k, w) {
            assert(after[p] == y);
        }
        if e.contains(y) && y.0 != k {
            let q = choose|q: int| 0 <= q < e.len() && e[q] == y;
            assert(q != p);
            assert(after[q] == y);
        }
    }
    lemma_map_of_put(e, after, k, w);
}

/// A new key inserted with the growth it may cause maps to its value, and
/// every other key keeps its value; there is one entry more.
proof fn lemma_map_of_bucket_insert<V>(e: Seq<([i32; 3], V)>, k: [i32; 3], v: V, bc: nat, nr: nat)
    requires
        keys_unique(entry_keys(e)),
        keys_unique(entry_keys(bucket_insert(grown_entries(e, bc, nr), k, v, grow_plan(e.len(), bc, nr).1))),
        !has_key(e, k),
    ensures
        map_of(bucket_insert(grown_entries(e, bc, nr), k, v, grow_plan(e.len(), bc, nr).1)) == map_of(
            e,
        ).insert(k, v),
        bucket_insert(grown_entries(e, bc, nr), k, v, grow_plan(e.len(), bc, nr).1).len() == e.len() + 1,
{
    let after = bucket_insert(grown_entries(e, bc, nr), k, v, grow_plan(e.len(), bc, nr).1);
    lemma_insert_then_lookup(e, k, v, bc, nr);
    assert forall|y: ([i32; 3], V)| #[trigger] after.contains(y) <==> (y == (k, v) || (e.contains(y)
        && y.0 != k)) by {
        if e.contains(y) {
            let q = choose|q: int| 0 <= q < e.len() && e[q] == y;
            assert(e[q].0 == y.0);
        }
    }
    lemma_map_of_put(e, after, k, v);
}

/// A call that changes a map, by what it does to the key-to-value map:
/// `insert(k, v)`; `get_mut_or_insert_with(k, ..)` with `v` the value left in
/// the slot it hands out; `reserve`.
pub enum MapCall<V> {
    Insert([i32; 3], V),
    InsertWith([i32; 3], V),
    Reserve,
}

/// The key-to-value map after one call.
pub open spec fn after_call<V>(m: Map<[i32; 3], V>, c: MapCall<V>) -> Map<[i32; 3], V> {
    match c {
        MapCall::Insert(k, v) => if m.contains_key(k) {
            m
        } else {
            m.insert(k, v)
        },
        MapCall::InsertWith(k, v) => m.insert(k, v),
        MapCall::Reserve => m,
    }
}

/// The key-to-value map of a new map after the calls `cs`, in order.
pub open spec fn after_calls<V>(cs: Seq<MapCall<V>>) -> Map<[i32; 3], V>
    decreases cs.len(),
{
    if cs.len() == 0 {
        Map::empty()
    } else {
        after_call(after_calls(cs.drop_last()), cs.last())
    }
}

/// The value of the first call in `cs` that names `k`, if any.
pub open spec fn first_stored<V>(cs: Seq<MapCall<V>>, k: [i32; 3]) -> Option<V>
    decreases cs.len(),
{
    if cs.len() == 0 {
        None
    } else {
        match first_stored(cs.drop_last(), k) {
            Some(v) => Some(v),
            None => match cs.last() {
                MapCall::Insert(k2, v) => if k2 == k {
                    Some(v)
                } else {
                    None
                },
                MapCall::InsertWith(k2, v) => if k2 == k {
                    Some(v)
                } else {
                    None
                },
                MapCall::Reserve => None,
            },
        }
    }
}

/// The value left under `k` by the last `get_mut_or_insert_with` of `k` in `cs`, if any.
pub open spec fn last_set<V>(cs: Seq<MapCall<V>>, k: [i32; 3]) -> Option<V>
    decreases cs.len(),
{
    if cs.len() == 0 {
        None
    } else {
        match cs.last() {
            MapCall::InsertWith(k2, v) => if k2 == k {
                Some(v)
            } else {
                last_set(cs.drop_last(), k)
            },
            _ => last_set(cs.drop_last(), k),
        }
    }
}

/// After any sequence of calls on a new map, a key is present exactly when
/// some call named it; its value is the one it was first stored with, unless
/// a `get_mut_or_insert_with` left another in its slot, the last of which counts.
pub proof fn lemma_lookup_after_calls<V>(cs: Seq<MapCall<V>>, k: [i32; 3])
    ensures
        after_calls(cs).contains_key(k) <==> first_stored(cs, k) is Some,
        last_set(cs, k) is Some ==> first_stored(cs, k) is Some,
        after_calls(cs).contains_key(k) ==> after_calls(cs)[k] == match last_set(cs, k) {
            Some(v) => v,
            None => first_stored(cs, k).unwrap(),
        },
    decreases cs.len(),
{
    if cs.len() > 0 {
        lemma_lookup_after_calls(cs.drop_last(), k);
    }
}

impl<V> StdUnorderedMap<V> {
    /// Inserts `(key, value)` unless `key` is present; returns whether it
    /// inserted.
    pub fn insert(&mut self, key: [i32; 3], value: V) -> (inserted: bool)
        requires
            old(self).wf(),
            has_key(old(self).entries(), key) || can_grow(old(self).entries().len()),
        ensures
            final(self).wf(),
            inserted == !has_key(old(self).entries(), key),
            !inserted ==> final(self).entries() == old(self).entries() && final(self).bucket_count_spec()
                == old(self).bucket_count_spec() && final(self).next_resize_spec()
                == old(self).next_resize_spec(),
            inserted ==> ({
                let plan = grow_plan(
                    old(self).entries().len(),
                    old(self).bucket_count_spec(),
                    old(self).next_resize_spec(),
                );
                &&& final(self).bucket_count_spec() == plan.1
                &&& final(self).next_resize_spec() == plan.2
                &&& final(self).entries() == bucket_insert(
                    grown_entries(
                        old(self).entries(),
                        old(self).bucket_count_spec(),
                        old(self).next_resize_spec(),
                    ),
                    key,
                    value,
                    plan.1,
                )
            }),
            inserted == !old(self).map_view().contains_key(key),
            final(self).map_view() == after_call(old(self).map_view(), MapCall::Insert(key, value)),
            final(self).map_view() == (if inserted {
                old(self).map_view().insert(key, value)
            } else {
                old(self).map_view()
            }),
            final(self).entries().len() == old(self).entries().len() + (if inserted {
                1int
            } else {
                0int
            }),
    {
        proof {
            lemma_links_basic(self.keys@, self.hashes@, self.nexts@, self.buckets@, self.head, self.bucket_count as nat, self.order@);
        }
        let h = hash_vector3i(&key);
        let b = Self::bucket_index(h, self.bucket_count);
        match self.find_node(&key, b) {
            Some(i) => {
                proof {
                    let p = choose|p: int|
                        0 <= p < self.order@.len() && #[trigger] self.order@[p] == i
                            && self.keys@[i as int] == key;
                    assert(self.entries()[p].0 == key);
                }
                false
            },
            None => {
                proof {
                    assert forall|p: int| 0 <= p < self.entries().len() implies #[trigger] self.entries()[p].0
                        != key by {
                        assert(keys_in_order(self.keys@, self.order@)[p] != key);
                    }
                }
                let ghost e0 = self.entries();
                proof {
                    self.lemma_keys_unique();
                }
                self.insert_new(key, h, value);
                proof {
                    self.lemma_keys_unique();
                    lemma_map_of_bucket_insert(
                        e0,
                        key,
                        value,
                        old(self).bucket_count_spec(),
                        old(self).next_resize_spec(),
                    );
                }
                true
            },
        }
    }

    /// `reserve(n)`: rehashes to `next_bkt(n)` buckets when that is more than
    /// there are, and makes it the resize threshold.
    pub fn reserve(&mut self, n: usize)
        requires
            old(self).wf(),
            next_bkt_defined(n as nat),
        ensures
            final(self).wf(),
            final(self).next_resize_spec() == next_bkt_spec(n as nat),
            next_bkt_spec(n as nat) > old(self).bucket_count_spec() ==> final(self).bucket_count_spec()
                == next_bkt_spec(n as nat) && final(self).entries() == rehashed(
                old(self).entries(),
                next_bkt_spec(n as nat),
            ),
            next_bkt_spec(n as nat) <= old(self).bucket_count_spec() ==> final(self).bucket_count_spec()
                == old(self).bucket_count_spec() && final(self).entries() == old(self).entries(),
            final(self).map_view() == old(self).map_view(),
            final(self).map_view() == after_call(old(self).map_view(), MapCall::<V>::Reserve),
            final(self).entries().len() == old(self).entries().len(),
    {
        let bkts = next_bkt(n);
        if bkts > self.bucket_count {
            let ghost e0 = self.entries();
            proof {
                self.lemma_keys_unique();
            }
            self.do_rehash(bkts);
            proof {
                self.lemma_keys_unique();
                lemma_rehash_keeps_entries(e0, bkts as nat);
                lemma_map_of_same(e0, self.entries());
            }
        }
        self.next_resize = bkts;
    }

    /// The value under `key`, inserting `default()` first when the key is
    /// absent.
    pub fn get_mut_or_insert_with<F: FnOnce() -> V>(&mut self, key: &[i32; 3], default: F) -> (r:
        &mut V)
        requires
            old(self).wf(),
            default.requires(()),
            has_key(old(self).entries(), *key) || can_grow(old(self).entries().len()),
        ensures
            final(self).wf(),
            has_key(old(self).entries(), *key) ==> exists|p: int|
                0 <= p < old(self).entries().len() && #[trigger] old(self).entries()[p].0 == *key && *r
                    == old(self).entries()[p].1 && final(self).entries() == old(self).entries().update(
                    p,
                    (*key, *final(r)),
                ) && final(self).bucket_count_spec() == old(self).bucket_count_spec()
                    && final(self).next_resize_spec() == old(self).next_resize_spec(),
            !has_key(old(self).entries(), *key) ==> ({
                let plan = grow_plan(
                    old(self).entries().len(),
                    old(self).bucket_count_spec(),
                    old(self).next_resize_spec(),
                );
                &&& default.ensures((), *r)
                &&& final(self).bucket_count_spec() == plan.1
                &&& final(self).next_resize_spec() == plan.2
                &&& final(self).entries() == bucket_insert(
                    grown_entries(
                        old(self).entries(),
                        old(self).bucket_count_spec(),
                        old(self).next_resize_spec(),
                    ),
                    *key,
                    *final(r),
                    plan.1,
                )
            }),
            final(self).map_view() == old(self).map_view().insert(*key, *final(r)),
            final(self).map_view() == after_call(old(self).map_view(), MapCall::InsertWith(*key, *final(r))),
            old(self).map_view().contains_key(*key) ==> *r == old(self).map_view()[*key],
            final(self).entries().len() == old(self).entries().len() + (if old(self).map_view().contains_key(
                *key,
            ) {
                0int
            } else {
                1int
            }),
    {
        proof {
            lemma_links_basic(self.keys@, self.hashes@, self.nexts@, self.buckets@, self.head, self.bucket_count as nat, self.order@);
        }
        let h = hash_vector3i(key);
        let b = Self::bucket_index(h, self.bucket_count);
        let ghost e0 = self.entries();
        proof {
            self.lemma_keys_unique();
        }
        match self.find_node(key, b) {
            Some(i) => {
                let ghost p = choose|p: int|
                    0 <= p < self.order@.len() && #[trigger] self.order@[p] == i
                        && self.keys@[i as int] == *key;
                proof {
                    assert(e0[p].0 == *key);
                    assert(has_key(e0, *key));
                    lemma_links_basic(self.keys@, self.hashes@, self.nexts@, self.buckets@, self.head, self.bucket_count as nat, self.order@);
                }
                let r = &mut self.values[i];
                proof {
                    lemma_entries_update_value(self.keys@, old(self).values@, self.order@, p, *final(r));
                    lemma_map_of_update(e0, p, *final(r));
                    lemma_map_of_entry(e0, e0[p]);
                }
                r
            },
            None => {
                proof {
                    assert forall|p: int| 0 <= p < e0.len() implies #[trigger] e0[p].0 != *key by {
                        assert(keys_in_order(self.keys@, self.order@)[p] != *key);
                    }
                }
                let v = default();
                let idx = self.insert_new(*key, h, v);
                let ghost e1 = self.entries();
                let ghost plan = grow_plan(e0.len(), old(self).bucket_count as nat, old(self).next_resize as nat);
                let ghost grown = grown_entries(e0, old(self).bucket_count as nat, old(self).next_resize as nat);
                let ghost pos = insert_pos(entry_keys(grown), *key, plan.1);
                proof {
                    lemma_bucket_insert_at(grown, *key, v, v, plan.1);
                    lemma_links_basic(self.keys@, self.hashes@, self.nexts@, self.buckets@, self.head, self.bucket_count as nat, self.order@);
                    assert(e1 == bucket_insert(grown, *key, v, plan.1));
                    assert(e1.len() == grown.len() + 1);
                    assert(e1.len() == self.order@.len());
                    assert(self.order@[pos] == idx);
                    assert(e1[pos] == (*key, v));
                    assert(e1[pos] == (self.keys@[idx as int], self.values@[idx as int]));
                    assert(self.keys@[idx as int] == *key);
                    self.lemma_keys_unique();
                    lemma_map_of_bucket_insert(
                        e0,
                        *key,
                        v,
                        old(self).bucket_count_spec(),
                        old(self).next_resize_spec(),
                    );
                }
                let ghost vals = self.values@;
                let r = &mut self.values[idx];
                proof {
                    lemma_entries_update_value(self.keys@, vals, self.order@, pos, *final(r));
                    lemma_bucket_insert_at(grown, *key, v, *final(r), plan.1);
                    assert(*r == v);
                    lemma_map_of_update(e1, pos, *final(r));
                    assert(map_of(e0).insert(*key, v).insert(*key, *final(r)) =~= map_of(e0).insert(
                        *key,
                        *final(r),
                    ));
                }
                r
            },
        }
    }
}

impl<V> StdUnorderedMap<V> {
    /// Iterates in C++ iteration order (the single list through all buckets).
    pub fn iter(&self) -> (it: StdMapIter<'_, V>)
        requires
            self.wf(),
        ensures
            it.wf(),
            it.remaining() == self.entries(),
    {
        let it = StdMapIter { map: self, cur: self.head, pos: Ghost(0) };
        proof {
            lemma_links_basic(self.keys@, self.hashes@, self.nexts@, self.buckets@, self.head, self.bucket_count as nat, self.order@);
            assert(self.entries().skip(0) =~= self.entries());
        }
        it
    }
}

/// A cursor over the entries of a map, in iteration order.
pub struct StdMapIter<'a, V> {
    map: &'a StdUnorderedMap<V>,
    cur: Option<usize>,
    pos: Ghost<int>,
}

impl<'a, V> StdMapIter<'a, V> {
    /// The cursor stands on the list of a well-formed map.
    pub closed spec fn wf(self) -> bool {
        &&& self.map.wf()
        &&& 0 <= self.pos@ <= self.map.order@.len()
        &&& self.cur == (if self.pos@ < self.map.order@.len() {
            Some(self.map.order@[self.pos@])
        } else {
            None::<usize>
        })
    }

    /// The entries still to come.
    pub closed spec fn remaining(self) -> Seq<([i32; 3], V)> {
        self.map.entries().skip(self.pos@)
    }

    /// The next entry, or `None` at the end.
    pub fn next(&mut self) -> (r: Option<(&'a [i32; 3], &'a V)>)
        requires
            old(self).wf(),
        ensures
            final(self).wf(),
            old(self).remaining().len() == 0 ==> r is None && final(self).remaining() == old(
                self,
            ).remaining(),
            old(self).remaining().len() > 0 ==> (r matches Some(kv) && (*kv.0, *kv.1) == old(
                self,
            ).remaining()[0]),
            old(self).remaining().len() > 0 ==> final(self).remaining() == old(self).remaining().drop_first(),
    {
        let m = self.map;
        proof {
            lemma_links_basic(m.keys@, m.hashes@, m.nexts@, m.buckets@, m.head, m.bucket_count as nat, m.order@);
        }
        match self.cur {
            None => None,
            Some(i) => {
                let ghost p = self.pos@;
                proof {
                    assert(m.order@[p] < m.keys@.len());
                    assert(m.nexts@[m.order@[p] as int] == next_of(m.order@, p));
                    assert(m.entries().skip(p)[0] == m.entries()[p]);
                    assert(m.entries().skip(p + 1) =~= m.entries().skip(p).drop_first());
                }
                self.cur = m.nexts[i];
                self.pos = Ghost(p + 1);
                Some((&m.keys[i], &m.values[i]))
            },
        }
    }
}

/// The run of bucket `b` starts at `f` and ends before `pos`; when none of it
/// holds `key`, which belongs to bucket `b`, the key is absent.
proof fn lemma_run_end(ks: Seq<[i32; 3]>, n: nat, b: nat, f: int, pos: int, key: [i32; 3])
    requires
        buckets_contiguous(ks, n),
        bucket_of(key, n) == b,
        0 <= f <= pos < ks.len(),
        bucket_of(ks[f], n) == b,
        bucket_of(ks[pos], n) != b,
        forall|j: int| 0 <= j < f ==> bucket_of(#[trigger] ks[j], n) != b,
        forall|j: int| f <= j < pos ==> bucket_of(#[trigger] ks[j], n) == b && ks[j] != key,
    ensures
        forall|j: int| 0 <= j < ks.len() ==> #[trigger] ks[j] != key,
{
    assert forall|j: int| 0 <= j < ks.len() implies #[trigger] ks[j] != key by {
        if ks[j] == key && j > pos {
            assert(bucket_of(ks[f], n) == b);
            assert(bucket_of(ks[pos], n) == b);
        }
    }
}

/// Equality of two voxel keys.
fn key_eq(a: &[i32; 3], b: &[i32; 3]) -> (r: bool)
    ensures
        r == (*a == *b),
{
    let r = a[0] == b[0] && a[1] == b[1] && a[2] == b[2];
    proof {
        if r {
            assert(a@ =~= b@);
            vstd::array::axiom_array_ext_equal(*a, *b);
        }
    }
    r
}

// ------------------------------------------------------------------ laws

proof fn lemma_insert_contains<A>(s: Seq<A>, pos: int, x: A, y: A)
    requires
        0 <= pos <= s.len(),
    ensures
        s.insert(pos, x).contains(y) <==> (y == x || s.contains(y)),
{
    let t = s.insert(pos, x);
    if s.contains(y) {
        let p = choose|p: int| 0 <= p < s.len() && s[p] == y;
        if p < pos {
            assert(t[p] == y);
        } else {
            assert(t[p + 1] == y);
        }
    }
    if y == x {
        assert(t[pos] == x);
    }
    if t.contains(y) {
        let q = choose|q: int| 0 <= q < t.len() && t[q] == y;
        if q < pos {
            assert(s[q] == y);
        } else if q > pos {
            assert(s[q - 1] == y);
        }
    }
}

/// Rehashing keeps the entries: the same entries, in the relinked order.
pub proof fn lemma_rehash_keeps_entries<V>(e: Seq<([i32; 3], V)>, n: nat)
    ensures
        rehashed(e, n).len() == e.len(),
        forall|y: ([i32; 3], V)| #[trigger] rehashed(e, n).contains(y) <==> e.contains(y),
    decreases e.len(),
{
    if e.len() > 0 {
        let r = rehashed(e.drop_last(), n);
        lemma_rehash_keeps_entries(e.drop_last(), n);
        lemma_bucket_insert_at(r, e.last().0, e.last().1, e.last().1, n);
        let pos = insert_pos(entry_keys(r), e.last().0, n);
        assert forall|y: ([i32; 3], V)| #[trigger] rehashed(e, n).contains(y) <==> e.contains(y) by {
            lemma_insert_contains(r, pos, (e.last().0, e.last().1), y);
            if e.contains(y) && y != e.last() {
                let p = choose|p: int| 0 <= p < e.len() && e[p] == y;
                assert(e.drop_last()[p] == y);
            }
            if e.drop_last().contains(y) {
                let p = choose|p: int| 0 <= p < e.drop_last().len() && e.drop_last()[p] == y;
                assert(e[p] == y);
            }
            assert(e[e.len() - 1] == e.last());
        }
    }
}

/// An insertion of a new key, with the growth it may cause, gives a map
/// with one entry more: looking the key up gives the inserted value, and
/// every other entry stays.
pub proof fn lemma_insert_then_lookup<V>(e: Seq<([i32; 3], V)>, k: [i32; 3], v: V, bc: nat, nr: nat)
    requires
        !has_key(e, k),
    ensures
        ({
            let after = bucket_insert(
                grown_entries(e, bc, nr),
                k,
                v,
                grow_plan(e.len(), bc, nr).1,
            );
            &&& after.len() == e.len() + 1
            &&& after.contains((k, v))
            &&& forall|w: V| #[trigger] after.contains((k, w)) ==> w == v
            &&& forall|y: ([i32; 3], V)| #[trigger] after.contains(y) <==> (y == (k, v) || e.contains(y))
        }),
{
    let plan = grow_plan(e.len(), bc, nr);
    let g = grown_entries(e, bc, nr);
    lemma_rehash_keeps_entries(e, plan.1);
    assert(g.len() == e.len());
    assert forall|y: ([i32; 3], V)| #[trigger] g.contains(y) <==> e.contains(y) by {
        if plan.0 {
            assert(rehashed(e, plan.1).contains(y) <==> e.contains(y));
        }
    }
    lemma_bucket_insert_at(g, k, v, v, plan.1);
    let pos = insert_pos(entry_keys(g), k, plan.1);
    let after = bucket_insert(g, k, v, plan.1);
    assert forall|y: ([i32; 3], V)| #[trigger] after.contains(y) <==> (y == (k, v) || e.contains(y)) by {
        lemma_insert_contains(g, pos, (k, v), y);
    }
    lemma_insert_contains(g, pos, (k, v), (k, v));
    assert forall|w: V| #[trigger] after.contains((k, w)) implies w == v by {
        lemma_insert_contains(g, pos, (k, v), (k, w));
        if e.contains((k, w)) {
            let p = choose|p: int| 0 <= p < e.len() && e[p] == (k, w);
            assert(e[p].0 == k);
        }
    }
}

/// A map that can take one more element at some size can at every smaller size.
pub(crate) proof fn lemma_can_grow_mono(a: nat, b: nat)
    requires
        a <= b,
        can_grow(b),
    ensures
        can_grow(a),
{
    lemma_next_bkt_defined_mono(2 * a + 22, 2 * b + 22);
}

impl<V> Default for StdUnorderedMap<V> {
    /// An empty map, as `new` makes it.
    fn default() -> (m: Self)
        ensures
            m.wf(),
            m.entries() == Seq::<([i32; 3], V)>::empty(),
            m.bucket_count_spec() == 1,
            m.next_resize_spec() == 0,
    {
        Self::new()
    }
}

/// `unordered_set<Vector3i>`.
pub type StdUnorderedSet = StdUnorderedMap<()>;

} // verus!
