use vstd::prelude::*;

verus! {

/// A trit is stored as an `i8` holding -1, 0 or 1.
pub open spec fn is_trit(t: i8) -> bool {
    -1 <= t <= 1
}

pub open spec fn valid(s: Seq<i8>) -> bool {
    forall|i: int| 0 <= i < s.len() ==> is_trit(#[trigger] s[i])
}

/// Balanced sum of two trits, modulo 3.
pub open spec fn tadd(a: i8, b: i8) -> i8 {
    let c = a + b;
    if c > 1 {
        (c - 3) as i8
    } else if c < -1 {
        (c + 3) as i8
    } else {
        c as i8
    }
}

/// Balanced difference of two trits, modulo 3.
pub open spec fn tsub(a: i8, b: i8) -> i8 {
    let c = a - b;
    if c > 1 {
        (c - 3) as i8
    } else if c < -1 {
        (c + 3) as i8
    } else {
        c as i8
    }
}

pub proof fn lemma_sub_add(a: i8, k: i8)
    requires
        is_trit(a),
        is_trit(k),
    ensures
        tsub(tadd(a, k), k) == a,
        is_trit(tadd(a, k)),
        is_trit(tsub(a, k)),
{
}

pub fn add_trit(a: i8, b: i8) -> (r: i8)
    requires
        is_trit(a),
        is_trit(b),
    ensures
        r == tadd(a, b),
        is_trit(r),
{
    let c: i8 = a + b;
    if c > 1 {
        c - 3
    } else if c < -1 {
        c + 3
    } else {
        c
    }
}

pub fn sub_trit(a: i8, b: i8) -> (r: i8)
    requires
        is_trit(a),
        is_trit(b),
    ensures
        r == tsub(a, b),
        is_trit(r),
{
    let c: i8 = a - b;
    if c > 1 {
        c - 3
    } else if c < -1 {
        c + 3
    } else {
        c
    }
}

pub open spec fn pow3(n: nat) -> nat
    decreases n,
{
    if n == 0 {
        1
    } else {
        3 * pow3((n - 1) as nat)
    }
}

/// The digit 0, 1 or 2 that a trit stands for in an unsigned number.
pub open spec fn digit(t: i8) -> nat {
    if t == -1 {
        2
    } else if t == 1 {
        1
    } else {
        0
    }
}

pub open spec fn trit_of_digit(d: nat) -> i8 {
    if d == 2 {
        -1i8
    } else if d == 1 {
        1i8
    } else {
        0i8
    }
}

/// The unsigned number that trits stand for, least significant first.
pub open spec fn num(t: Seq<i8>) -> nat
    decreases t.len(),
{
    if t.len() == 0 {
        0
    } else {
        digit(t[0]) + 3 * num(t.drop_first())
    }
}

/// `n` written with `k` unsigned digits, least significant first.
pub open spec fn encode_num(n: nat, k: nat) -> Seq<i8>
    decreases k,
{
    if k == 0 {
        Seq::empty()
    } else {
        seq![trit_of_digit(n % 3)].add(encode_num(n / 3, (k - 1) as nat))
    }
}

pub proof fn lemma_encode_num(n: nat, k: nat)
    requires
        n < pow3(k),
    ensures
        encode_num(n, k).len() == k,
        num(encode_num(n, k)) == n,
        valid(encode_num(n, k)),
    decreases k,
{
    if k > 0 {
        lemma_encode_num(n / 3, (k - 1) as nat);
        let e = encode_num(n, k);
        assert(e.drop_first() =~= encode_num(n / 3, (k - 1) as nat));
        assert(digit(trit_of_digit(n % 3)) == n % 3);
    }
}

pub proof fn lemma_num_bound(t: Seq<i8>)
    ensures
        num(t) < pow3(t.len()),
    decreases t.len(),
{
    if t.len() > 0 {
        lemma_num_bound(t.drop_first());
    }
}

pub proof fn lemma_num_of_valid(t: Seq<i8>)
    requires
        valid(t),
    ensures
        encode_num(num(t), t.len()) == t,
    decreases t.len(),
{
    if t.len() > 0 {
        let r = t.drop_first();
        lemma_num_of_valid(r);
        let n = num(t);
        assert(n % 3 == digit(t[0]));
        assert(n / 3 == num(r));
        assert(encode_num(n, t.len()) =~= t);
    }
}

/// Writes `n` with `k` unsigned digits.
pub fn encode_number(n: usize, k: usize) -> (r: Vec<i8>)
    requires
        n < pow3(k as nat),
    ensures
        r@ == encode_num(n as nat, k as nat),
        valid(r@),
{
    let mut r: Vec<i8> = Vec::new();
    let mut m: usize = n;
    let mut i: usize = 0;
    while i < k
        invariant
            i <= k,
            encode_num(n as nat, k as nat) == r@ + encode_num(m as nat, (k - i) as nat),
        decreases k - i,
    {
        let d: usize = m % 3;
        let t: i8 = if d == 2 {
            -1
        } else if d == 1 {
            1
        } else {
            0
        };
        assert(encode_num(m as nat, (k - i) as nat) == seq![t].add(
            encode_num((m / 3) as nat, (k - i - 1) as nat),
        ));
        assert(r@ + encode_num(m as nat, (k - i) as nat) =~= r@.push(t) + encode_num(
            (m / 3) as nat,
            (k - i - 1) as nat,
        ));
        r.push(t);
        m = m / 3;
        i = i + 1;
    }
    assert(r@ + encode_num(m as nat, 0) =~= r@);
    proof {
        lemma_encode_num(n as nat, k as nat);
    }
    r
}

/// Reads the unsigned number held by `t[from..to]`.
pub fn decode_number(t: &Vec<i8>, from: usize, to: usize) -> (r: usize)
    requires
        from <= to <= t.len(),
        to - from <= 18,
    ensures
        r == num(t@.subrange(from as int, to as int)),
{
    let mut v: usize = 0;
    let mut i: usize = to;
    proof {
        lemma_pow3_18((to - from) as nat);
    }
    while i > from
        invariant
            from <= i <= to <= t.len(),
            to - from <= 18,
            v == num(t@.subrange(i as int, to as int)),
            v < pow3((to - i) as nat),
            pow3((to - from) as nat) <= 387420489,
        decreases i,
    {
        let ghost old_i = i;
        i = i - 1;
        let d: usize = if t[i] == -1 {
            2
        } else if t[i] == 1 {
            1
        } else {
            0
        };
        proof {
            lemma_pow3_mono((to - i) as nat, (to - from) as nat);
            assert(t@.subrange(i as int, to as int).drop_first() =~= t@.subrange(
                old_i as int,
                to as int,
            ));
        }
        v = d + 3 * v;
    }
    v
}

pub proof fn lemma_pow3_mono(a: nat, b: nat)
    requires
        a <= b,
    ensures
        pow3(a) <= pow3(b),
    decreases b,
{
    if a < b {
        lemma_pow3_mono(a, (b - 1) as nat);
    }
}

pub proof fn lemma_pow3_18(k: nat)
    requires
        k <= 18,
    ensures
        pow3(k) <= 387420489,
{
    lemma_pow3_mono(k, 18);
    reveal_with_fuel(pow3, 19);
    assert(pow3(18) == 387420489);
}

/// A copy of `v[from..to]`.
pub fn copy_range(v: &Vec<i8>, from: usize, to: usize) -> (r: Vec<i8>)
    requires
        from <= to <= v.len(),
    ensures
        r@ == v@.subrange(from as int, to as int),
{
    let mut r: Vec<i8> = Vec::new();
    let mut i: usize = from;
    while i < to
        invariant
            from <= i <= to <= v.len(),
            r@ == v@.subrange(from as int, i as int),
        decreases to - i,
    {
        r.push(v[i]);
        i = i + 1;
        assert(r@ =~= v@.subrange(from as int, i as int));
    }
    r
}

/// Appends `x` to `v`.
pub fn append_all(v: &mut Vec<i8>, x: &Vec<i8>)
    ensures
        final(v)@ == old(v)@ + x@,
{
    let mut i: usize = 0;
    while i < x.len()
        invariant
            i <= x.len(),
            v@ == old(v)@ + x@.take(i as int),
        decreases x.len() - i,
    {
        v.push(x[i]);
        i = i + 1;
        assert(v@ =~= old(v)@ + x@.take(i as int));
    }
    assert(x@.take(x.len() as int) =~= x@);
}

pub open spec fn zeros(n: nat) -> Seq<i8> {
    Seq::new(n, |i: int| 0i8)
}

/// An owned sequence of trits.
#[derive(Clone, Debug, PartialEq, Eq, Hash)]
pub struct Trits {
    pub t: Vec<i8>,
}

impl Trits {
    pub open spec fn view(&self) -> Seq<i8> {
        self.t@
    }

    pub open spec fn wf(&self) -> bool {
        valid(self.t@)
    }

    /// `n` zero trits.
    pub fn zero(n: usize) -> (r: Trits)
        ensures
            r@ == Seq::new(n as nat, |i: int| 0i8),
            r.wf(),
    {
        let mut t: Vec<i8> = Vec::new();
        let mut i: usize = 0;
        while i < n
            invariant
                i <= n,
                t@ == Seq::new(i as nat, |j: int| 0i8),
            decreases n - i,
        {
            t.push(0);
            i = i + 1;
        }
        Trits { t }
    }

    pub fn size(&self) -> (r: usize)
        ensures
            r == self@.len(),
    {
        self.t.len()
    }

    /// Trits of a tryte string over the alphabet `9A..Z`, three per letter;
    /// `None` when a letter is outside the alphabet.
    pub fn from_str(s: &str) -> (r: Option<Trits>)
        ensures
            r is Some <==> (forall|i: int| 0 <= i < s@.len() ==> tryte_value(#[trigger] s@[i]) is Some),
            r matches Some(t) ==> t@ == str_trits(s@) && t.wf(),
    {
        let n = s.unicode_len();
        let mut t: Vec<i8> = Vec::new();
        let mut i: usize = 0;
        while i < n
            invariant
                i <= n,
                n == s@.len(),
                t@ == str_trits(s@.take(i as int)),
                valid(t@),
                forall|j: int| 0 <= j < i ==> tryte_value(#[trigger] s@[j]) is Some,
            decreases n - i,
        {
            let c = s.get_char(i);
            match tryte_of_char(c) {
                None => {
                    return None;
                },
                Some(v) => {
                    proof {
                        assert(s@.take(i + 1).drop_last() =~= s@.take(i as int));
                    }
                    t.push(v[0]);
                    t.push(v[1]);
                    t.push(v[2]);
                    proof {
                        assert(t@ =~= str_trits(s@.take(i + 1)));
                    }
                },
            }
            i = i + 1;
        }
        assert(s@.take(n as int) =~= s@);
        Some(Trits { t })
    }

    /// `n` trits taken from the tryte string `s` repeated as often as needed.
    pub fn cycle_str(n: usize, s: &str) -> (r: Option<Trits>)
        ensures
            (r is Some) <==> (s@.len() > 0 && forall|i: int| 0 <= i < s@.len() ==> tryte_value(#[trigger] s@[i]) is Some),
            r matches Some(t) ==> t.wf() && t@.len() == n && forall|i: int|
                0 <= i < n ==> #[trigger] t@[i] == str_trits(s@)[i % (3 * s@.len() as int)],
    {
        let base = match Trits::from_str(s) {
            None => {
                return None;
            },
            Some(b) => b,
        };
        let m = base.t.len();
        if m == 0 {
            return None;
        }
        proof {
            lemma_str_trits_len(s@);
        }
        let mut t: Vec<i8> = Vec::new();
        let mut i: usize = 0;
        while i < n
            invariant
                i <= n,
                m == base@.len(),
                m == 3 * s@.len(),
                m > 0,
                valid(base@),
                valid(t@),
                t@.len() == i,
                forall|j: int| 0 <= j < i ==> #[trigger] t@[j] == base@[j % m as int],
            decreases n - i,
        {
            t.push(base.t[i % m]);
            i = i + 1;
        }
        Some(Trits { t })
    }
}

/// The three trits of a tryte letter: `9` is zero, `A`..`M` are 1..13 and
/// `N`..`Z` are -13..-1.
pub open spec fn tryte_value(c: char) -> Option<Seq<i8>> {
    if c == '9' {
        Some(trits3(0))
    } else if 'A' <= c && c <= 'M' {
        Some(trits3((c as int) - ('A' as int) + 1))
    } else if 'N' <= c && c <= 'Z' {
        Some(trits3((c as int) - ('N' as int) - 13))
    } else {
        None
    }
}

/// The three balanced trits of `v` in -13..=13, least significant first:
/// with `u = v + 13`, each trit is one less than an unsigned digit of `u`.
pub open spec fn trits3(v: int) -> Seq<i8> {
    let u = v + 13;
    seq![(u % 3 - 1) as i8, ((u / 3) % 3 - 1) as i8, (u / 9 - 1) as i8]
}

pub open spec fn str_trits(s: Seq<char>) -> Seq<i8>
    decreases s.len(),
{
    if s.len() == 0 {
        Seq::empty()
    } else {
        str_trits(s.drop_last()) + tryte_value(s.last()).unwrap_or(seq![0i8, 0i8, 0i8])
    }
}

pub proof fn lemma_str_trits_len(s: Seq<char>)
    ensures
        str_trits(s).len() == 3 * s.len(),
    decreases s.len(),
{
    if s.len() > 0 {
        lemma_str_trits_len(s.drop_last());
    }
}

fn tryte_of_char(c: char) -> (r: Option<[i8; 3]>)
    ensures
        r matches Some(a) ==> tryte_value(c) == Some(a@) && valid(a@),
        r is None <==> tryte_value(c) is None,
{
    let u: u32 = if c == '9' {
        13
    } else if 'A' <= c && c <= 'M' {
        (c as u32) - ('A' as u32) + 14
    } else if 'N' <= c && c <= 'Z' {
        (c as u32) - ('N' as u32)
    } else {
        return None;
    };
    let a: [i8; 3] = [((u % 3) as i8) - 1, (((u / 3) % 3) as i8) - 1, ((u / 9) as i8) - 1];
    assert(a@ =~= trits3(u - 13));
    Some(a)
}

} // verus!
