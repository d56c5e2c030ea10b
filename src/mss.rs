//! Merkle tree signature scheme over Winternitz one-time keys. Every hash is
//! the sponge's `hash`.
use vstd::prelude::*;
use vstd::arithmetic::div_mod::{lemma_div_denominator, lemma_fundamental_div_mod};
use crate::spongos::{hash, hash_spec, lemma_squeeze_valid};
use crate::trits::{Trits, valid, num, encode_num, encode_number, decode_number, copy_range, append_all, pow3, lemma_encode_num};
use crate::pb3::{Error, TritSlice};

verus! {

/// Trits in one chunk of a one-time key.
pub const CHUNK: usize = 81;

/// Chunks in a one-time key: 78 for the digest trytes, 3 for the checksum.
pub const NCHUNKS: usize = 81;

/// Trits of the digest that is signed (78 trytes).
pub const HASH_SIZE: usize = 234;

/// Trits of a one-time signature.
pub const WOTS_SIZE: usize = 6561;

/// Trits of a tree node and of a public key.
pub const NODE_SIZE: usize = 243;

/// Trits of the tree depth and leaf index in front of a signature.
pub const SKN_SIZE: usize = 18;

pub const DEPTH_TRITS: usize = 6;

/// The deepest tree a key may have.
pub const MAX_DEPTH: usize = 16;

/// Trits of the secret of a pseudo-random generator.
pub const PRNG_KEY_SIZE: usize = 243;

pub open spec fn pow2(n: nat) -> nat
    decreases n,
{
    if n == 0 {
        1
    } else {
        2 * pow2((n - 1) as nat)
    }
}

pub proof fn lemma_pow2_mono(a: nat, b: nat)
    requires
        a <= b,
    ensures
        pow2(a) <= pow2(b),
        pow2(a) >= 1,
    decreases b,
{
    lemma_pow2_pos(a);
    if a < b {
        lemma_pow2_mono(a, (b - 1) as nat);
    }
}

pub proof fn lemma_pow2_pos(a: nat)
    ensures
        pow2(a) >= 1,
    decreases a,
{
    if a > 0 {
        lemma_pow2_pos((a - 1) as nat);
    }
}

proof fn lemma_pow2_16()
    ensures
        pow2(MAX_DEPTH as nat) == 65536,
        pow2((MAX_DEPTH + 1) as nat) == 131072,
{
    reveal_with_fuel(pow2, 18);
}

/// A deterministic generator: its output is a digest of its secret and a nonce.
#[derive(Clone, Debug)]
pub struct Prng {
    pub key: Trits,
}

pub open spec fn prng_gen(key: Seq<i8>, nonce: Seq<i8>, n: nat) -> Seq<i8> {
    hash_spec(key + nonce, n)
}

impl Prng {
    pub fn init(key: Trits) -> (r: Prng)
        requires
            key.wf(),
        ensures
            r.key == key,
    {
        Prng { key }
    }

    /// `n` trits for `nonce`.
    pub fn gen(&self, nonce: &Vec<i8>, n: usize) -> (r: Vec<i8>)
        requires
            self.key.wf(),
            valid(nonce@),
        ensures
            r@ == prng_gen(self.key@, nonce@, n as nat),
            valid(r@),
    {
        let mut x = copy_range(&self.key.t, 0, self.key.t.len());
        append_all(&mut x, nonce);
        proof {
            assert(self.key.t@.subrange(0, self.key.t@.len() as int) =~= self.key@);
            assert forall|i: int| 0 <= i < x@.len() implies crate::trits::is_trit(#[trigger] x@[i]) by {
                if i < self.key@.len() {
                    assert(x@[i] == self.key@[i]);
                } else {
                    assert(x@[i] == nonce@[i - self.key@.len()]);
                }
            }
        }
        hash(&x, n)
    }
}

/// A generator keyed by the tryte string `s` repeated over `PRNG_KEY_SIZE` trits.
pub fn dbg_init_str(s: &str) -> (r: Option<Prng>)
    ensures
        r matches Some(p) ==> p.key.wf() && p.key@.len() == PRNG_KEY_SIZE,
{
    match Trits::cycle_str(PRNG_KEY_SIZE, s) {
        Some(k) => Some(Prng::init(k)),
        None => None,
    }
}

/// One step of a hash chain.
pub open spec fn chain(c: Seq<i8>, n: nat) -> Seq<i8>
    decreases n,
{
    if n == 0 {
        c
    } else {
        chain(hash_spec(c, CHUNK as nat), (n - 1) as nat)
    }
}

pub proof fn lemma_chain_add(c: Seq<i8>, a: nat, b: nat)
    ensures
        chain(chain(c, a), b) == chain(c, a + b),
    decreases a,
{
    if a > 0 {
        lemma_chain_add(hash_spec(c, CHUNK as nat), (a - 1) as nat, b);
    }
}

pub proof fn lemma_chain_len(c: Seq<i8>, n: nat)
    requires
        c.len() == CHUNK,
        valid(c),
    ensures
        chain(c, n).len() == CHUNK,
        valid(chain(c, n)),
    decreases n,
{
    if n > 0 {
        crate::spongos::lemma_absorb_wf(crate::spongos::init_model(), c);
        crate::spongos::lemma_rounds_valid(crate::trits::zeros(243), 0);
        crate::spongos::lemma_commit_wf(crate::spongos::absorb_seq(crate::spongos::init_model(), c));
        lemma_squeeze_valid(
            crate::spongos::commit_model(crate::spongos::absorb_seq(crate::spongos::init_model(), c)),
            CHUNK as nat,
        );
        lemma_chain_len(hash_spec(c, CHUNK as nat), (n - 1) as nat);
    }
}

fn chain_exec(c: Vec<i8>, n: usize) -> (r: Vec<i8>)
    requires
        valid(c@),
    ensures
        r@ == chain(c@, n as nat),
        valid(r@),
{
    let mut cur = c;
    let mut i: usize = 0;
    while i < n
        invariant
            i <= n,
            valid(cur@),
            chain(c@, n as nat) == chain(cur@, (n - i) as nat),
        decreases n - i,
    {
        cur = hash(&cur, CHUNK);
        i = i + 1;
    }
    cur
}

/// The digit 0..=26 of tryte `j` of a digest.
pub open spec fn tryte_digit(h: Seq<i8>, j: int) -> int {
    (h[3 * j] + 1) + 3 * (h[3 * j + 1] + 1) + 9 * (h[3 * j + 2] + 1)
}

/// Sum of `26 - d` over the first `k` digits.
pub open spec fn checksum(h: Seq<i8>, k: nat) -> int
    decreases k,
{
    if k == 0 {
        0
    } else {
        checksum(h, (k - 1) as nat) + 26 - tryte_digit(h, k - 1)
    }
}

/// The digit of each chunk: the 78 trytes of the digest, then three base-27
/// digits of the checksum.
pub open spec fn digits(h: Seq<i8>) -> Seq<int> {
    let c = checksum(h, 78);
    Seq::new(
        NCHUNKS as nat,
        |j: int|
            if j < 78 {
                tryte_digit(h, j)
            } else if j == 78 {
                c % 27
            } else if j == 79 {
                (c / 27) % 27
            } else {
                c / 729
            },
    )
}

pub open spec fn digits_ok(ds: Seq<int>) -> bool {
    ds.len() == NCHUNKS && forall|j: int| 0 <= j < NCHUNKS ==> 0 <= #[trigger] ds[j] <= 26
}

proof fn lemma_checksum_bound(h: Seq<i8>, k: nat)
    requires
        valid(h),
        3 * k <= h.len(),
    ensures
        0 <= checksum(h, k) <= 26 * k,
    decreases k,
{
    if k > 0 {
        lemma_checksum_bound(h, (k - 1) as nat);
        let j = k - 1;
        assert(crate::trits::is_trit(h[3 * j]));
        assert(crate::trits::is_trit(h[3 * j + 1]));
        assert(crate::trits::is_trit(h[3 * j + 2]));
    }
}

pub proof fn lemma_digits_ok(h: Seq<i8>)
    requires
        valid(h),
        h.len() == HASH_SIZE,
    ensures
        digits_ok(digits(h)),
{
    lemma_checksum_bound(h, 78);
    assert forall|j: int| 0 <= j < NCHUNKS implies 0 <= #[trigger] digits(h)[j] <= 26 by {
        if j < 78 {
            assert(crate::trits::is_trit(h[3 * j]));
            assert(crate::trits::is_trit(h[3 * j + 1]));
            assert(crate::trits::is_trit(h[3 * j + 2]));
        }
    }
}

fn digits_exec(h: &Vec<i8>) -> (r: Vec<usize>)
    requires
        valid(h@),
        h.len() == HASH_SIZE,
    ensures
        r@.len() == NCHUNKS,
        forall|j: int| 0 <= j < NCHUNKS ==> #[trigger] r@[j] as int == digits(h@)[j],
{
    let mut r: Vec<usize> = Vec::new();
    let mut c: usize = 0;
    let mut j: usize = 0;
    while j < 78
        invariant
            j <= 78,
            h.len() == HASH_SIZE,
            valid(h@),
            r@.len() == j,
            c == checksum(h@, j as nat),
            c <= 26 * j,
            forall|i: int| 0 <= i < j ==> #[trigger] r@[i] as int == tryte_digit(h@, i),
        decreases 78 - j,
    {
        assert(crate::trits::is_trit(h@[3 * j as int]));
        assert(crate::trits::is_trit(h@[3 * j + 1]));
        assert(crate::trits::is_trit(h@[3 * j + 2]));
        let d = ((h[3 * j] + 1) + 3 * (h[3 * j + 1] + 1) + 9 * (h[3 * j + 2] + 1)) as usize;
        r.push(d);
        c = c + 26 - d;
        j = j + 1;
    }
    r.push(c % 27);
    r.push((c / 27) % 27);
    r.push(c / 729);
    assert forall|j: int| 0 <= j < NCHUNKS implies #[trigger] r@[j] as int == digits(h@)[j] by {}
    r
}

pub open spec fn chunk(x: Seq<i8>, j: int) -> Seq<i8> {
    x.subrange(CHUNK * j, CHUNK * j + CHUNK)
}

/// The first `k` chunks of `x`, each moved `ds[j]` steps along its chain.
pub open spec fn chains(x: Seq<i8>, ds: Seq<int>, k: nat) -> Seq<i8>
    decreases k,
{
    if k == 0 {
        Seq::empty()
    } else {
        chains(x, ds, (k - 1) as nat) + chain(chunk(x, k - 1), ds[k - 1] as nat)
    }
}

pub open spec fn full_digits() -> Seq<int> {
    Seq::new(NCHUNKS as nat, |j: int| 26)
}

pub open spec fn rest_digits(ds: Seq<int>) -> Seq<int> {
    Seq::new(NCHUNKS as nat, |j: int| 26 - ds[j])
}

proof fn lemma_chains_len(x: Seq<i8>, ds: Seq<int>, k: nat)
    requires
        k <= NCHUNKS,
        x.len() >= CHUNK * k,
        valid(x),
    ensures
        chains(x, ds, k).len() == CHUNK * k,
        valid(chains(x, ds, k)),
    decreases k,
{
    if k > 0 {
        lemma_chains_len(x, ds, (k - 1) as nat);
        let c = chunk(x, k - 1);
        assert forall|i: int| 0 <= i < c.len() implies crate::trits::is_trit(#[trigger] c[i]) by {
            assert(c[i] == x[CHUNK * (k - 1) + i]);
        }
        lemma_chain_len(c, ds[k - 1] as nat);
        let p = chains(x, ds, (k - 1) as nat);
        let q = chain(c, ds[k - 1] as nat);
        assert forall|i: int| 0 <= i < (p + q).len() implies crate::trits::is_trit(#[trigger] (p + q)[i]) by {
            if i < p.len() {
                assert((p + q)[i] == p[i]);
            } else {
                assert((p + q)[i] == q[i - p.len()]);
            }
        }
    }
}

proof fn lemma_chains_chunk(x: Seq<i8>, ds: Seq<int>, k: nat, j: int)
    requires
        k <= NCHUNKS,
        x.len() >= CHUNK * k,
        valid(x),
        0 <= j < k,
    ensures
        chunk(chains(x, ds, k), j) == chain(chunk(x, j), ds[j] as nat),
    decreases k,
{
    lemma_chains_len(x, ds, (k - 1) as nat);
    let c = chunk(x, k - 1);
    assert forall|i: int| 0 <= i < c.len() implies crate::trits::is_trit(#[trigger] c[i]) by {
        assert(c[i] == x[CHUNK * (k - 1) + i]);
    }
    lemma_chain_len(c, ds[k - 1] as nat);
    let p = chains(x, ds, (k - 1) as nat);
    if j < k - 1 {
        lemma_chains_chunk(x, ds, (k - 1) as nat, j);
        assert(chunk(p + chain(c, ds[k - 1] as nat), j) =~= chunk(p, j));
    } else {
        assert(chunk(p + chain(c, ds[k - 1] as nat), j) =~= chain(c, ds[k - 1] as nat));
    }
}

/// Moving the signed chunks the remaining steps gives the fully chained key.
proof fn lemma_chains_complete(x: Seq<i8>, ds: Seq<int>, k: nat)
    requires
        k <= NCHUNKS,
        x.len() == WOTS_SIZE,
        valid(x),
        digits_ok(ds),
    ensures
        chains(chains(x, ds, NCHUNKS as nat), rest_digits(ds), k) == chains(x, full_digits(), k),
    decreases k,
{
    if k > 0 {
        lemma_chains_complete(x, ds, (k - 1) as nat);
        lemma_chains_chunk(x, ds, NCHUNKS as nat, k - 1);
        lemma_chain_add(chunk(x, k - 1), ds[k - 1] as nat, (26 - ds[k - 1]) as nat);
    }
}

fn chains_exec(x: &Vec<i8>, from: usize, ds: &Vec<usize>, rest: bool) -> (r: Vec<i8>)
    requires
        from + WOTS_SIZE <= x.len(),
        valid(x@),
        ds@.len() == NCHUNKS,
        forall|j: int| 0 <= j < NCHUNKS ==> #[trigger] ds@[j] <= 26,
    ensures
        r@ == chains(
            x@.subrange(from as int, from + WOTS_SIZE),
            if rest { rest_digits(ds@.map_values(|d: usize| d as int)) } else { ds@.map_values(|d: usize| d as int) },
            NCHUNKS as nat,
        ),
        valid(r@),
{
    let ghost xs = x@.subrange(from as int, from + WOTS_SIZE);
    let ghost dd = if rest { rest_digits(ds@.map_values(|d: usize| d as int)) } else { ds@.map_values(|d: usize| d as int) };
    let mut r: Vec<i8> = Vec::new();
    let mut j: usize = 0;
    while j < NCHUNKS
        invariant
            j <= NCHUNKS,
            from + WOTS_SIZE <= x.len(),
            valid(x@),
            ds@.len() == NCHUNKS,
            forall|i: int| 0 <= i < NCHUNKS ==> #[trigger] ds@[i] <= 26,
            xs == x@.subrange(from as int, from + WOTS_SIZE),
            dd == (if rest { rest_digits(ds@.map_values(|d: usize| d as int)) } else { ds@.map_values(|d: usize| d as int) }),
            r@ == chains(xs, dd, j as nat),
            valid(r@),
        decreases NCHUNKS - j,
    {
        let c = copy_range(x, from + CHUNK * j, from + CHUNK * j + CHUNK);
        let n: usize = if rest { 26 - ds[j] } else { ds[j] };
        proof {
            assert(c@ =~= chunk(xs, j as int));
            assert(dd[j as int] == n as int);
            assert forall|i: int| 0 <= i < c@.len() implies crate::trits::is_trit(#[trigger] c@[i]) by {
                assert(c@[i] == x@[from + CHUNK * j + i]);
            }
        }
        let d = chain_exec(c, n);
        let ghost r0 = r@;
        append_all(&mut r, &d);
        proof {
            lemma_chains_len(xs, dd, j as nat);
            lemma_chains_len(xs, dd, (j + 1) as nat);
        }
        j = j + 1;
    }
    r
}

/// Secret of leaf `j`.
pub open spec fn leaf_sk(key: Seq<i8>, nonce: Seq<i8>, j: nat) -> Seq<i8> {
    prng_gen(key, nonce + encode_num(j, 12), WOTS_SIZE as nat)
}

/// Public digest of leaf `j`.
pub open spec fn leaf_pk(key: Seq<i8>, nonce: Seq<i8>, j: nat) -> Seq<i8> {
    hash_spec(chains(leaf_sk(key, nonce, j), full_digits(), NCHUNKS as nat), NODE_SIZE as nat)
}

/// Node `k` of the tree stored as a heap: 1 is the root, `2k` and `2k + 1`
/// are the children of `k`, leaf `j` is node `2^d + j`.
pub open spec fn node(key: Seq<i8>, nonce: Seq<i8>, d: nat, k: nat) -> Seq<i8>
    decreases pow2(d + 1) - k,
{
    if k >= pow2(d) {
        leaf_pk(key, nonce, (k - pow2(d)) as nat)
    } else if k == 0 {
        Seq::empty()
    } else {
        hash_spec(node(key, nonce, d, 2 * k) + node(key, nonce, d, 2 * k + 1), NODE_SIZE as nat)
    }
}

pub open spec fn sibling(k: nat) -> nat {
    if k % 2 == 0 {
        k + 1
    } else {
        (k - 1) as nat
    }
}

/// The authentication path upwards from node `k`, `n` nodes long.
pub open spec fn apath(key: Seq<i8>, nonce: Seq<i8>, d: nat, k: nat, n: nat) -> Seq<i8>
    decreases n,
{
    if n == 0 {
        Seq::empty()
    } else {
        node(key, nonce, d, sibling(k)) + apath(key, nonce, d, k / 2, (n - 1) as nat)
    }
}

/// Walking `n` path nodes up from `cur`, which stands at node `k`.
pub open spec fn walk(cur: Seq<i8>, k: nat, path: Seq<i8>, n: nat) -> Seq<i8>
    decreases n,
{
    if n == 0 {
        cur
    } else {
        let s = path.take(NODE_SIZE as int);
        let up = if k % 2 == 0 { cur + s } else { s + cur };
        walk(hash_spec(up, NODE_SIZE as nat), k / 2, path.skip(NODE_SIZE as int), (n - 1) as nat)
    }
}

/// The one-time signature of leaf `j` for digest `h`.
pub open spec fn wots_sig(key: Seq<i8>, nonce: Seq<i8>, j: nat, h: Seq<i8>) -> Seq<i8> {
    chains(leaf_sk(key, nonce, j), digits(h), NCHUNKS as nat)
}

/// The leaf digest that a one-time signature stands for.
pub open spec fn wots_leaf(sig: Seq<i8>, h: Seq<i8>) -> Seq<i8> {
    hash_spec(chains(sig, rest_digits(digits(h)), NCHUNKS as nat), NODE_SIZE as nat)
}

/// The depth and leaf index in front of a signature.
pub open spec fn skn_wire(d: nat, j: nat) -> Seq<i8> {
    encode_num(d, DEPTH_TRITS as nat) + encode_num(j, 12)
}

/// The signature of digest `h` by leaf `j` of a depth-`d` key.
pub open spec fn sig_spec(key: Seq<i8>, nonce: Seq<i8>, d: nat, j: nat, h: Seq<i8>) -> Seq<i8> {
    skn_wire(d, j) + wots_sig(key, nonce, j, h) + apath(key, nonce, d, pow2(d) + j, d)
}

pub open spec fn sig_size(d: nat) -> nat {
    (SKN_SIZE + WOTS_SIZE + NODE_SIZE * d) as nat
}

/// The public key that the signature at the front of `input` recovers for
/// digest `h`, with the trits it takes.
pub open spec fn sig_recover(h: Seq<i8>, input: Seq<i8>) -> Result<(Seq<i8>, nat), Error> {
    if input.len() < SKN_SIZE {
        Err(Error::Eof)
    } else {
        let d = num(input.take(DEPTH_TRITS as int));
        let j = num(input.subrange(DEPTH_TRITS as int, SKN_SIZE as int));
        if d > MAX_DEPTH || j >= pow2(d) {
            Err(Error::MalformedValue)
        } else if input.len() < sig_size(d) {
            Err(Error::Eof)
        } else {
            let sig = input.subrange(SKN_SIZE as int, SKN_SIZE + WOTS_SIZE);
            let path = input.subrange(SKN_SIZE + WOTS_SIZE, sig_size(d) as int);
            Ok((walk(wots_leaf(sig, h), pow2(d) + j, path, d), sig_size(d)))
        }
    }
}

pub proof fn lemma_hash_valid(x: Seq<i8>, n: nat)
    requires
        valid(x),
    ensures
        valid(hash_spec(x, n)),
        hash_spec(x, n).len() == n,
{
    crate::spongos::lemma_rounds_valid(crate::trits::zeros(243), 0);
    crate::spongos::lemma_absorb_wf(crate::spongos::init_model(), x);
    crate::spongos::lemma_commit_wf(crate::spongos::absorb_seq(crate::spongos::init_model(), x));
    lemma_squeeze_valid(
        crate::spongos::commit_model(crate::spongos::absorb_seq(crate::spongos::init_model(), x)),
        n,
    );
}

proof fn lemma_concat_valid(a: Seq<i8>, b: Seq<i8>)
    requires
        valid(a),
        valid(b),
    ensures
        valid(a + b),
{
    assert forall|i: int| 0 <= i < (a + b).len() implies crate::trits::is_trit(#[trigger] (a + b)[i]) by {
        if i < a.len() {
            assert((a + b)[i] == a[i]);
        } else {
            assert((a + b)[i] == b[i - a.len()]);
        }
    }
}

pub proof fn lemma_leaf_sk(key: Seq<i8>, nonce: Seq<i8>, j: nat)
    requires
        valid(key),
        valid(nonce),
        j < pow3(12),
    ensures
        valid(leaf_sk(key, nonce, j)),
        leaf_sk(key, nonce, j).len() == WOTS_SIZE,
        valid(leaf_pk(key, nonce, j)),
        leaf_pk(key, nonce, j).len() == NODE_SIZE,
{
    lemma_encode_num(j, 12);
    lemma_concat_valid(nonce, encode_num(j, 12));
    lemma_concat_valid(key, nonce + encode_num(j, 12));
    assert(key + (nonce + encode_num(j, 12)) =~= key + nonce + encode_num(j, 12));
    lemma_hash_valid(key + nonce + encode_num(j, 12), WOTS_SIZE as nat);
    lemma_chains_len(leaf_sk(key, nonce, j), full_digits(), NCHUNKS as nat);
    lemma_hash_valid(chains(leaf_sk(key, nonce, j), full_digits(), NCHUNKS as nat), NODE_SIZE as nat);
}

proof fn lemma_pow3_12()
    ensures
        pow3(12) == 531441,
{
    reveal_with_fuel(pow3, 13);
}

pub proof fn lemma_node(key: Seq<i8>, nonce: Seq<i8>, d: nat, k: nat)
    requires
        valid(key),
        valid(nonce),
        d <= MAX_DEPTH,
        1 <= k < pow2(d + 1),
    ensures
        valid(node(key, nonce, d, k)),
        node(key, nonce, d, k).len() == NODE_SIZE,
    decreases pow2(d + 1) - k,
{
    lemma_pow2_16();
    lemma_pow2_mono(d, MAX_DEPTH as nat);
    lemma_pow3_12();
    if k >= pow2(d) {
        lemma_leaf_sk(key, nonce, (k - pow2(d)) as nat);
    } else {
        lemma_node(key, nonce, d, 2 * k);
        lemma_node(key, nonce, d, 2 * k + 1);
        lemma_concat_valid(node(key, nonce, d, 2 * k), node(key, nonce, d, 2 * k + 1));
        lemma_hash_valid(node(key, nonce, d, 2 * k) + node(key, nonce, d, 2 * k + 1), NODE_SIZE as nat);
    }
}

pub proof fn lemma_apath_len(key: Seq<i8>, nonce: Seq<i8>, d: nat, k: nat, n: nat)
    requires
        valid(key),
        valid(nonce),
        d <= MAX_DEPTH,
        n <= d,
        pow2(n) <= k < pow2(d + 1),
    ensures
        apath(key, nonce, d, k, n).len() == NODE_SIZE * n,
        valid(apath(key, nonce, d, k, n)),
    decreases n,
{
    if n > 0 {
        lemma_pow2_pos((n - 1) as nat);
        lemma_node(key, nonce, d, sibling(k));
        lemma_apath_len(key, nonce, d, k / 2, (n - 1) as nat);
        lemma_concat_valid(node(key, nonce, d, sibling(k)), apath(key, nonce, d, k / 2, (n - 1) as nat));
    }
}

/// Walking the authentication path of node `k` up `n` levels reaches its
/// ancestor there.
pub proof fn lemma_walk(key: Seq<i8>, nonce: Seq<i8>, d: nat, k: nat, n: nat)
    requires
        valid(key),
        valid(nonce),
        d <= MAX_DEPTH,
        n <= d,
        pow2(n) <= k < pow2(d + 1),
    ensures
        walk(node(key, nonce, d, k), k, apath(key, nonce, d, k, n), n) == node(key, nonce, d, k / pow2(n)),
    decreases n,
{
    if n > 0 {
        lemma_pow2_pos((n - 1) as nat);
        lemma_node(key, nonce, d, sibling(k));
        lemma_apath_len(key, nonce, d, k / 2, (n - 1) as nat);
        let p = apath(key, nonce, d, k, n);
        let sib = node(key, nonce, d, sibling(k));
        assert(p.take(NODE_SIZE as int) =~= sib);
        assert(p.skip(NODE_SIZE as int) =~= apath(key, nonce, d, k / 2, (n - 1) as nat));
        assert(k / 2 < pow2(d));
        assert(node(key, nonce, d, k / 2) == hash_spec(
            node(key, nonce, d, 2 * (k / 2)) + node(key, nonce, d, 2 * (k / 2) + 1),
            NODE_SIZE as nat,
        ));
        lemma_walk(key, nonce, d, k / 2, (n - 1) as nat);
        lemma_div_denominator(k as int, 2, pow2((n - 1) as nat) as int);
    }
}

proof fn lemma_leaf_index(d: nat, j: nat)
    requires
        j < pow2(d),
    ensures
        (pow2(d) + j) / pow2(d) == 1,
{
    let k = pow2(d) + j;
    lemma_pow2_pos(d);
    lemma_fundamental_div_mod(k as int, pow2(d) as int);
    if k / pow2(d) >= 2 {
        assert(pow2(d) * (k / pow2(d)) >= pow2(d) * 2) by (nonlinear_arith)
            requires k / pow2(d) >= 2, pow2(d) >= 1;
    }
    if k / pow2(d) <= 0 {
        assert(pow2(d) * (k / pow2(d)) <= 0) by (nonlinear_arith)
            requires k / pow2(d) <= 0, pow2(d) >= 1;
    }
}

proof fn lemma_skn(d: nat, j: nat, tail: Seq<i8>)
    requires
        d <= MAX_DEPTH,
        j < pow2(d),
    ensures
        num((skn_wire(d, j) + tail).take(DEPTH_TRITS as int)) == d,
        num((skn_wire(d, j) + tail).subrange(DEPTH_TRITS as int, SKN_SIZE as int)) == j,
        skn_wire(d, j).len() == SKN_SIZE,
        valid(skn_wire(d, j)),
{
    lemma_pow2_16();
    lemma_pow2_mono(d, MAX_DEPTH as nat);
    lemma_pow3_12();
    reveal_with_fuel(pow3, 7);
    lemma_encode_num(d, DEPTH_TRITS as nat);
    lemma_encode_num(j, 12);
    let input = skn_wire(d, j) + tail;
    assert(input.take(DEPTH_TRITS as int) =~= encode_num(d, DEPTH_TRITS as nat));
    assert(input.subrange(DEPTH_TRITS as int, SKN_SIZE as int) =~= encode_num(j, 12));
    lemma_concat_valid(encode_num(d, DEPTH_TRITS as nat), encode_num(j, 12));
}

proof fn lemma_wots(key: Seq<i8>, nonce: Seq<i8>, j: nat, h: Seq<i8>)
    requires
        valid(key),
        valid(nonce),
        j < pow3(12),
        valid(h),
        h.len() == HASH_SIZE,
    ensures
        wots_leaf(wots_sig(key, nonce, j, h), h) == leaf_pk(key, nonce, j),
        wots_sig(key, nonce, j, h).len() == WOTS_SIZE,
        valid(wots_sig(key, nonce, j, h)),
{
    lemma_leaf_sk(key, nonce, j);
    let sk = leaf_sk(key, nonce, j);
    let ds = digits(h);
    lemma_digits_ok(h);
    lemma_chains_len(sk, ds, NCHUNKS as nat);
    lemma_chains_complete(sk, ds, NCHUNKS as nat);
}

/// A signature by any leaf recovers the root of the tree, and its
/// authentication path holds one node per level.
pub proof fn lemma_sign_recover(key: Seq<i8>, nonce: Seq<i8>, d: nat, j: nat, h: Seq<i8>, rest: Seq<i8>)
    requires
        valid(key),
        valid(nonce),
        d <= MAX_DEPTH,
        j < pow2(d),
        valid(h),
        h.len() == HASH_SIZE,
    ensures
        sig_recover(h, sig_spec(key, nonce, d, j, h) + rest) == Ok::<(Seq<i8>, nat), Error>((node(key, nonce, d, 1), sig_size(d))),
        apath(key, nonce, d, pow2(d) + j, d).len() == NODE_SIZE * d,
        sig_spec(key, nonce, d, j, h).len() == sig_size(d),
        valid(sig_spec(key, nonce, d, j, h)),
{
    lemma_pow2_16();
    lemma_pow2_mono(d, MAX_DEPTH as nat);
    lemma_pow3_12();
    let k = pow2(d) + j;
    assert(pow2(d + 1) == 2 * pow2(d));
    lemma_apath_len(key, nonce, d, k, d);
    lemma_walk(key, nonce, d, k, d);
    lemma_leaf_index(d, j);
    let w = wots_sig(key, nonce, j, h);
    let ap = apath(key, nonce, d, k, d);
    let sw = skn_wire(d, j);
    lemma_wots(key, nonce, j, h);
    lemma_skn(d, j, w + ap + rest);
    let input = sig_spec(key, nonce, d, j, h) + rest;
    assert(input =~= sw + (w + ap + rest));
    assert(input.subrange(SKN_SIZE as int, SKN_SIZE + WOTS_SIZE) =~= w);
    assert(input.subrange(SKN_SIZE + WOTS_SIZE, sig_size(d) as int) =~= ap);
    assert(node(key, nonce, d, k) == leaf_pk(key, nonce, j));
    lemma_concat_valid(sw, w);
    lemma_concat_valid(sw + w, ap);
}

/// Whether two trit sequences are equal.
pub fn trits_eq(a: &Vec<i8>, b: &Vec<i8>) -> (r: bool)
    ensures
        r == (a@ == b@),
{
    if a.len() != b.len() {
        return false;
    }
    let mut i: usize = 0;
    while i < a.len()
        invariant
            i <= a.len(),
            a.len() == b.len(),
            forall|k: int| 0 <= k < i ==> a@[k] == b@[k],
        decreases a.len() - i,
    {
        if a[i] != b[i] {
            return false;
        }
        i = i + 1;
    }
    assert(a@ =~= b@);
    true
}

fn pow2_exec(d: usize) -> (r: usize)
    requires
        d <= MAX_DEPTH + 1,
    ensures
        r == pow2(d as nat),
{
    proof {
        lemma_pow2_16();
        lemma_pow2_mono(d as nat, (MAX_DEPTH + 1) as nat);
    }
    let mut p: usize = 1;
    let mut i: usize = 0;
    while i < d
        invariant
            i <= d <= MAX_DEPTH + 1,
            p == pow2(i as nat),
            pow2(d as nat) <= 131072,
        decreases d - i,
    {
        proof {
            lemma_pow2_mono((i + 1) as nat, d as nat);
        }
        p = p * 2;
        i = i + 1;
    }
    p
}

fn leaf_secret(prng: &Prng, nonce: &Trits, j: usize) -> (r: Vec<i8>)
    requires
        prng.key.wf(),
        nonce.wf(),
        j < 531441,
    ensures
        r@ == leaf_sk(prng.key@, nonce@, j as nat),
        valid(r@),
        r@.len() == WOTS_SIZE,
{
    proof {
        lemma_pow3_12();
        lemma_leaf_sk(prng.key@, nonce@, j as nat);
        lemma_encode_num(j as nat, 12);
    }
    let mut n = copy_range(&nonce.t, 0, nonce.t.len());
    let e = encode_number(j, 12);
    append_all(&mut n, &e);
    proof {
        assert(nonce.t@.subrange(0, nonce@.len() as int) =~= nonce@);
        lemma_concat_valid(nonce@, e@);
    }
    prng.gen(&n, WOTS_SIZE)
}

fn leaf_public(prng: &Prng, nonce: &Trits, j: usize) -> (r: Vec<i8>)
    requires
        prng.key.wf(),
        nonce.wf(),
        j < 531441,
    ensures
        r@ == leaf_pk(prng.key@, nonce@, j as nat),
        valid(r@),
        r@.len() == NODE_SIZE,
{
    let sk = leaf_secret(prng, nonce, j);
    let mut ds: Vec<usize> = Vec::new();
    let mut i: usize = 0;
    while i < NCHUNKS
        invariant
            i <= NCHUNKS,
            ds@.len() == i,
            forall|k: int| 0 <= k < i ==> #[trigger] ds@[k] == 26,
        decreases NCHUNKS - i,
    {
        ds.push(26);
        i = i + 1;
    }
    let c = chains_exec(&sk, 0, &ds, false);
    proof {
        assert(sk@.subrange(0, WOTS_SIZE as int) =~= sk@);
        assert(ds@.map_values(|d: usize| d as int) =~= full_digits());
        lemma_chains_len(sk@, full_digits(), NCHUNKS as nat);
    }
    hash(&c, NODE_SIZE)
}

/// A public key: the root of the tree.
#[derive(Clone, Debug, PartialEq, Eq)]
pub struct PublicKey {
    pub pk: Trits,
}

/// A private key: the generator, its nonce, the depth, the whole tree in
/// heap order, and the leaf that signs next.
#[derive(Clone, Debug)]
pub struct PrivateKey {
    pub prng: Prng,
    pub nonce: Trits,
    pub d: usize,
    pub nodes: Vec<Vec<i8>>,
    pub j: usize,
    pub pk: PublicKey,
}

impl PrivateKey {
    pub open spec fn node_spec(&self, k: nat) -> Seq<i8> {
        node(self.prng.key@, self.nonce@, self.d as nat, k)
    }

    pub open spec fn wf(&self) -> bool {
        &&& self.d <= MAX_DEPTH
        &&& self.j < pow2(self.d as nat)
        &&& self.prng.key.wf()
        &&& self.nonce.wf()
        &&& self.nodes@.len() == pow2((self.d + 1) as nat)
        &&& forall|k: int| 1 <= k < self.nodes@.len() ==> #[trigger] self.nodes@[k]@ == self.node_spec(k as nat)
        &&& forall|k: int| 1 <= k < self.nodes@.len() ==> valid(#[trigger] self.nodes@[k]@) && self.nodes@[k]@.len() == NODE_SIZE
        &&& self.pk.pk@ == self.node_spec(1)
    }

    pub open spec fn pk_spec(&self) -> Seq<i8> {
        self.node_spec(1)
    }
}

impl PrivateKey {
    /// Generates the key of depth `d` from `prng` and `nonce`: every leaf
    /// digest and every inner node. Leaf 0 signs first.
    pub fn gen(prng: &Prng, nonce: &Trits, d: usize) -> (r: PrivateKey)
        requires
            prng.key.wf(),
            nonce.wf(),
            d <= MAX_DEPTH,
        ensures
            r.wf(),
            r.prng.key@ == prng.key@,
            r.nonce@ == nonce@,
            r.d == d,
            r.j == 0,
    {
        proof {
            lemma_pow2_16();
            lemma_pow2_mono(d as nat, MAX_DEPTH as nat);
            lemma_pow2_mono(0, d as nat);
        }
        let p = pow2_exec(d);
        let ghost key = prng.key@;
        let ghost dn = d as nat;
        assert(pow2(dn + 1) == 2 * p);
        let mut nodes: Vec<Vec<i8>> = Vec::new();
        let mut i: usize = 0;
        while i < 2 * p
            invariant
                p <= 65536,
                i <= 2 * p,
                nodes@.len() == i,
            decreases 2 * p - i,
        {
            nodes.push(Vec::new());
            i = i + 1;
        }
        let mut j: usize = 0;
        while j < p
            invariant
                j <= p,
                p == pow2(dn),
                p <= 65536,
                prng.key.wf(),
                nonce.wf(),
                key == prng.key@,
                nodes@.len() == 2 * p,
                forall|k: int| p <= k < p + j ==> #[trigger] nodes@[k]@ == node(key, nonce@, dn, k as nat)
                    && valid(nodes@[k]@) && nodes@[k]@.len() == NODE_SIZE,
            decreases p - j,
        {
            let leaf = leaf_public(prng, nonce, j);
            nodes.set(p + j, leaf);
            j = j + 1;
        }
        let mut k: usize = p;
        while k > 1
            invariant
                1 <= k <= p,
                p == pow2(dn),
                p <= 65536,
                dn <= MAX_DEPTH,
                prng.key.wf(),
                nonce.wf(),
                key == prng.key@,
                nodes@.len() == 2 * p,
                forall|m: int| k <= m < 2 * p ==> #[trigger] nodes@[m]@ == node(key, nonce@, dn, m as nat)
                    && valid(nodes@[m]@) && nodes@[m]@.len() == NODE_SIZE,
            decreases k,
        {
            k = k - 1;
            let mut x = copy_range(&nodes[2 * k], 0, nodes[2 * k].len());
            append_all(&mut x, &nodes[2 * k + 1]);
            proof {
                assert(nodes@[2 * k as int]@.subrange(0, NODE_SIZE as int) =~= nodes@[2 * k as int]@);
                lemma_concat_valid(nodes@[2 * k as int]@, nodes@[2 * k + 1]@);
            }
            let y = hash(&x, NODE_SIZE);
            nodes.set(k, y);
        }
        let pk = PublicKey { pk: Trits { t: copy_range(&nodes[1], 0, NODE_SIZE) } };
        proof {
            assert(nodes@[1]@.subrange(0, NODE_SIZE as int) =~= nodes@[1]@);
        }
        let key_copy = Trits { t: copy_range(&prng.key.t, 0, prng.key.t.len()) };
        let nonce_copy = Trits { t: copy_range(&nonce.t, 0, nonce.t.len()) };
        proof {
            assert(key_copy@ =~= prng.key@);
            assert(nonce_copy@ =~= nonce@);
        }
        PrivateKey { prng: Prng { key: key_copy }, nonce: nonce_copy, d, nodes, j: 0, pk }
    }

    /// The root of the tree.
    pub fn public_key(&self) -> (r: &PublicKey)
        requires
            self.wf(),
        ensures
            r.pk@ == self.pk_spec(),
    {
        &self.pk
    }

    /// Moves on to the next leaf; `false` where the last leaf is in use.
    pub fn next(&mut self) -> (r: bool)
        requires
            old(self).wf(),
        ensures
            final(self).wf(),
            r == (old(self).j + 1 < pow2(old(self).d as nat)),
            final(self).j == if r { old(self).j + 1 } else { old(self).j as int },
            final(self).d == old(self).d,
            final(self).prng == old(self).prng,
            final(self).nonce == old(self).nonce,
    {
        let p = pow2_exec(self.d);
        if self.j + 1 < p {
            self.j = self.j + 1;
            true
        } else {
            false
        }
    }

    /// Signs digest `h` with the current leaf.
    pub fn sign(&self, h: &Vec<i8>) -> (r: Vec<i8>)
        requires
            self.wf(),
            valid(h@),
            h@.len() == HASH_SIZE,
        ensures
            r@ == sig_spec(self.prng.key@, self.nonce@, self.d as nat, self.j as nat, h@),
            valid(r@),
            r@.len() == sig_size(self.d as nat),
    {
        let ghost key = self.prng.key@;
        let ghost dn = self.d as nat;
        proof {
            lemma_pow2_16();
            lemma_pow2_mono(dn, MAX_DEPTH as nat);
            lemma_pow3_12();
            reveal_with_fuel(pow3, 7);
            lemma_sign_recover(key, self.nonce@, dn, self.j as nat, h@, Seq::empty());
            lemma_digits_ok(h@);
        }
        let mut r = encode_number(self.d, DEPTH_TRITS);
        let e = encode_number(self.j, 12);
        append_all(&mut r, &e);
        let sk = leaf_secret(&self.prng, &self.nonce, self.j);
        let ds = digits_exec(h);
        let w = chains_exec(&sk, 0, &ds, false);
        proof {
            assert(sk@.subrange(0, WOTS_SIZE as int) =~= sk@);
            assert(ds@.map_values(|d: usize| d as int) =~= digits(h@));
        }
        append_all(&mut r, &w);
        let p = pow2_exec(self.d);
        let mut k: usize = p + self.j;
        let mut i: usize = 0;
        let ghost target = sig_spec(key, self.nonce@, dn, self.j as nat, h@);
        assert(target =~= r@ + apath(key, self.nonce@, dn, k as nat, dn));
        while i < self.d
            invariant
                self.wf(),
                key == self.prng.key@,
                dn == self.d,
                i <= self.d,
                pow2((dn - i) as nat) <= k < pow2((dn - i + 1) as nat),
                pow2((dn + 1) as nat) == self.nodes@.len(),
                target == r@ + apath(key, self.nonce@, dn, k as nat, (dn - i) as nat),
            decreases self.d - i,
        {
            proof {
                lemma_pow2_mono((dn - i + 1) as nat, dn + 1);
                lemma_pow2_pos((dn - i - 1) as nat);
            }
            let sib: usize = if k % 2 == 0 { k + 1 } else { k - 1 };
            let ghost r0 = r@;
            append_all(&mut r, &self.nodes[sib]);
            proof {
                assert(r0 + apath(key, self.nonce@, dn, k as nat, (dn - i) as nat) =~= r@ + apath(
                    key,
                    self.nonce@,
                    dn,
                    (k / 2) as nat,
                    (dn - i - 1) as nat,
                ));
            }
            k = k / 2;
            i = i + 1;
        }
        assert(r@ =~= target);
        r
    }
}

/// Reads a signature from `b` and recovers the public key it stands for with digest `h`.
pub fn unwrap_recover_pk(h: &Vec<i8>, b: &mut TritSlice) -> (r: Result<PublicKey, Error>)
    requires
        old(b).wf(),
        valid(h@),
        h@.len() == HASH_SIZE,
    ensures
        final(b).wf(),
        match sig_recover(h@, old(b).rest()) {
            Ok((pk, n)) => r is Ok && r.unwrap().pk@ == pk && final(b).rest() == old(b).rest().skip(n as int),
            Err(e) => r == Err::<PublicKey, Error>(e),
        },
{
    let ghost input = old(b).rest();
    if b.size() < SKN_SIZE {
        return Err(Error::Eof);
    }
    let d = decode_number(&b.buf, b.pos, b.pos + DEPTH_TRITS);
    let j = decode_number(&b.buf, b.pos + DEPTH_TRITS, b.pos + SKN_SIZE);
    proof {
        assert(b.buf@.subrange(b.pos as int, b.pos + 6) =~= input.take(6));
        assert(b.buf@.subrange(b.pos + 6, b.pos + 18) =~= input.subrange(6, 18));
    }
    if d > MAX_DEPTH {
        return Err(Error::MalformedValue);
    }
    let p = pow2_exec(d);
    proof {
        lemma_pow2_16();
        lemma_pow2_mono(d as nat, MAX_DEPTH as nat);
    }
    if j >= p {
        return Err(Error::MalformedValue);
    }
    if b.size() < SKN_SIZE + WOTS_SIZE + NODE_SIZE * d {
        return Err(Error::Eof);
    }
    let _skn = b.take(SKN_SIZE);
    let sig = b.take(WOTS_SIZE);
    let ds = digits_exec(h);
    proof {
        lemma_digits_ok(h@);
    }
    let c = chains_exec(&sig, 0, &ds, true);
    proof {
        assert(sig@.subrange(0, WOTS_SIZE as int) =~= sig@);
        assert(ds@.map_values(|x: usize| x as int) =~= digits(h@));
        assert(sig@ =~= input.subrange(SKN_SIZE as int, SKN_SIZE + WOTS_SIZE));
    }
    let mut cur = hash(&c, NODE_SIZE);
    let ghost path = input.subrange(SKN_SIZE + WOTS_SIZE, sig_size(d as nat) as int);
    let ghost target = walk(cur@, (p + j) as nat, path, d as nat);
    let mut k: usize = p + j;
    let mut i: usize = 0;
    assert(path.skip(0) =~= path);
    while i < d
        invariant
            b.wf(),
            i <= d <= MAX_DEPTH,
            k <= 131072,
            path.len() == NODE_SIZE * d,
            b.rest() == input.skip(SKN_SIZE + WOTS_SIZE + NODE_SIZE * i),
            input.len() >= sig_size(d as nat),
            path == input.subrange(SKN_SIZE + WOTS_SIZE, sig_size(d as nat) as int),
            valid(cur@),
            target == walk(cur@, k as nat, path.skip(NODE_SIZE * i), (d - i) as nat),
        decreases d - i,
    {
        let s = b.take(NODE_SIZE);
        proof {
            assert(s@ =~= path.skip(NODE_SIZE * i).take(NODE_SIZE as int));
            assert(path.skip(NODE_SIZE * i).skip(NODE_SIZE as int) =~= path.skip(NODE_SIZE * (i + 1)));
            assert(b.rest() =~= input.skip(SKN_SIZE + WOTS_SIZE + NODE_SIZE * (i + 1)));
        }
        let mut x: Vec<i8>;
        if k % 2 == 0 {
            x = copy_range(&cur, 0, cur.len());
            append_all(&mut x, &s);
            assert(cur@.subrange(0, cur@.len() as int) =~= cur@);
            proof { lemma_concat_valid(cur@, s@); }
        } else {
            x = copy_range(&s, 0, s.len());
            append_all(&mut x, &cur);
            assert(s@.subrange(0, s@.len() as int) =~= s@);
            proof { lemma_concat_valid(s@, cur@); }
        }
        cur = hash(&x, NODE_SIZE);
        k = k / 2;
        i = i + 1;
    }
    Ok(PublicKey { pk: Trits { t: cur } })
}

/// Signature check against a known key: the recovered key must equal `pk`.
pub open spec fn sig_verify(pk: Seq<i8>, h: Seq<i8>, input: Seq<i8>) -> Result<nat, Error> {
    match sig_recover(h, input) {
        Ok((q, n)) => if q == pk { Ok(n) } else { Err(Error::SignatureInvalid) },
        Err(e) => Err(e),
    }
}

/// Reads a signature from `b` and checks it against `pk` for digest `h`.
pub fn unwrap_verify_pk(pk: &PublicKey, h: &Vec<i8>, b: &mut TritSlice) -> (r: Result<(), Error>)
    requires
        old(b).wf(),
        valid(h@),
        h@.len() == HASH_SIZE,
    ensures
        final(b).wf(),
        match sig_verify(pk.pk@, h@, old(b).rest()) {
            Ok(n) => r is Ok && final(b).rest() == old(b).rest().skip(n as int),
            Err(e) => r == Err::<(), Error>(e),
        },
{
    let q = unwrap_recover_pk(h, b)?;
    if trits_eq(&q.pk.t, &pk.pk.t) {
        Ok(())
    } else {
        Err(Error::SignatureInvalid)
    }
}

/// Trits that a signature by `sk` takes.
pub fn sizeof_mssig(sk: &PrivateKey) -> (r: usize)
    requires
        sk.wf(),
    ensures
        r == sig_size(sk.d as nat),
{
    SKN_SIZE + WOTS_SIZE + NODE_SIZE * sk.d
}

} // verus!
