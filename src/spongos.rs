//! The sponge construction: a ternary state of `WIDTH` trits whose first
//! `RATE` trits are mixed with data one trit at a time.
use vstd::prelude::*;
use crate::trits::{is_trit, valid, tadd, tsub, add_trit, sub_trit, zeros, lemma_sub_add};

verus! {

pub const WIDTH: usize = 243;

pub const RATE: usize = 162;

pub const ROUNDS: usize = 27;

/// A sponge state as the verifier sees it: the trits and the position of the
/// next trit of the rate.
pub type SpongeModel = (Seq<i8>, int);

/// Product of two trits.
pub open spec fn tmul(a: i8, b: i8) -> i8 {
    if a == 0 || b == 0 {
        0i8
    } else if a == b {
        1i8
    } else {
        -1i8
    }
}

/// Trit `i` of one round of the state transform.
pub open spec fn mix(s: Seq<i8>, i: int) -> i8 {
    let a = s[i];
    let b = s[(i + 1) % (WIDTH as int)];
    let c = s[(i + 85) % (WIDTH as int)];
    let e = s[(i + 170) % (WIDTH as int)];
    tadd(tadd(tadd(a, b), tadd(c, tmul(b, e))), if i == 0 { 1i8 } else { 0i8 })
}

pub open spec fn round(s: Seq<i8>) -> Seq<i8> {
    Seq::new(WIDTH as nat, |i: int| mix(s, i))
}

pub open spec fn rounds(s: Seq<i8>, n: nat) -> Seq<i8>
    decreases n,
{
    if n == 0 {
        s
    } else {
        round(rounds(s, (n - 1) as nat))
    }
}

pub open spec fn transform(s: Seq<i8>) -> Seq<i8> {
    rounds(s, ROUNDS as nat)
}

pub open spec fn model_wf(st: SpongeModel) -> bool {
    st.0.len() == WIDTH && 0 <= st.1 < RATE && valid(st.0)
}

pub open spec fn init_model() -> SpongeModel {
    (zeros(WIDTH as nat), 0)
}

/// The trit of the rate that the next operation meets.
pub open spec fn key(st: SpongeModel) -> i8 {
    st.0[st.1]
}

pub open spec fn advance(st: SpongeModel) -> SpongeModel {
    if st.1 + 1 >= RATE {
        (transform(st.0), 0)
    } else {
        (st.0, st.1 + 1)
    }
}

/// Absorbing one trit overwrites the next trit of the rate.
pub open spec fn absorb1(st: SpongeModel, t: i8) -> SpongeModel {
    advance((st.0.update(st.1, t), st.1))
}

pub open spec fn absorb_seq(st: SpongeModel, x: Seq<i8>) -> SpongeModel
    decreases x.len(),
{
    if x.len() == 0 {
        st
    } else {
        absorb1(absorb_seq(st, x.drop_last()), x.last())
    }
}

/// Ciphertext of `x`: each trit is added to the key trit met before it is
/// absorbed.
pub open spec fn enc_out(st: SpongeModel, x: Seq<i8>) -> Seq<i8>
    decreases x.len(),
{
    if x.len() == 0 {
        Seq::empty()
    } else {
        enc_out(st, x.drop_last()).push(tadd(x.last(), key(absorb_seq(st, x.drop_last()))))
    }
}

/// Plaintext of `c`: each key trit is taken off and the plaintext absorbed.
pub open spec fn dec_out(st: SpongeModel, c: Seq<i8>) -> Seq<i8>
    decreases c.len(),
{
    if c.len() == 0 {
        Seq::empty()
    } else {
        let p = dec_out(st, c.drop_last());
        p.push(tsub(c.last(), key(absorb_seq(st, p))))
    }
}

/// `n` trits squeezed out; each one read is overwritten by zero.
pub open spec fn squeeze_out(st: SpongeModel, n: nat) -> Seq<i8>
    decreases n,
{
    if n == 0 {
        Seq::empty()
    } else {
        squeeze_out(st, (n - 1) as nat).push(key(absorb_seq(st, zeros((n - 1) as nat))))
    }
}

pub open spec fn squeeze_state(st: SpongeModel, n: nat) -> SpongeModel {
    absorb_seq(st, zeros(n))
}

pub open spec fn commit_model(st: SpongeModel) -> SpongeModel {
    if st.1 == 0 {
        st
    } else {
        (transform(st.0), 0)
    }
}

/// Digest of `x` of `n` trits: a fresh sponge absorbs `x`, commits and is squeezed.
pub open spec fn hash_spec(x: Seq<i8>, n: nat) -> Seq<i8> {
    squeeze_out(commit_model(absorb_seq(init_model(), x)), n)
}

pub proof fn lemma_rounds_valid(s: Seq<i8>, n: nat)
    requires
        s.len() == WIDTH,
        valid(s),
    ensures
        rounds(s, n).len() == WIDTH,
        valid(rounds(s, n)),
    decreases n,
{
    if n > 0 {
        lemma_rounds_valid(s, (n - 1) as nat);
        let p = rounds(s, (n - 1) as nat);
        assert forall|i: int| 0 <= i < WIDTH implies is_trit(#[trigger] round(p)[i]) by {
            let b = p[(i + 1) % (WIDTH as int)];
            let c = p[(i + 85) % (WIDTH as int)];
            let e = p[(i + 170) % (WIDTH as int)];
            assert(is_trit(b) && is_trit(p[i]) && is_trit(c) && is_trit(e));
        }
    }
}

pub proof fn lemma_absorb1_wf(st: SpongeModel, t: i8)
    requires
        model_wf(st),
        is_trit(t),
    ensures
        model_wf(absorb1(st, t)),
{
    lemma_rounds_valid(st.0.update(st.1, t), ROUNDS as nat);
}

pub proof fn lemma_commit_wf(st: SpongeModel)
    requires
        model_wf(st),
    ensures
        model_wf(commit_model(st)),
{
    lemma_rounds_valid(st.0, ROUNDS as nat);
}

pub proof fn lemma_absorb_wf(st: SpongeModel, x: Seq<i8>)
    requires
        model_wf(st),
        valid(x),
    ensures
        model_wf(absorb_seq(st, x)),
    decreases x.len(),
{
    if x.len() > 0 {
        lemma_absorb_wf(st, x.drop_last());
        lemma_absorb1_wf(absorb_seq(st, x.drop_last()), x.last());
    }
}

pub proof fn lemma_absorb_concat(st: SpongeModel, x: Seq<i8>, y: Seq<i8>)
    ensures
        absorb_seq(st, x + y) == absorb_seq(absorb_seq(st, x), y),
    decreases y.len(),
{
    if y.len() == 0 {
        assert(x + y =~= x);
    } else {
        assert((x + y).drop_last() =~= x + y.drop_last());
        lemma_absorb_concat(st, x, y.drop_last());
    }
}

pub proof fn lemma_enc_len(st: SpongeModel, x: Seq<i8>)
    ensures
        enc_out(st, x).len() == x.len(),
    decreases x.len(),
{
    if x.len() > 0 {
        lemma_enc_len(st, x.drop_last());
    }
}

pub proof fn lemma_dec_len(st: SpongeModel, c: Seq<i8>)
    ensures
        dec_out(st, c).len() == c.len(),
    decreases c.len(),
{
    if c.len() > 0 {
        lemma_dec_len(st, c.drop_last());
    }
}

pub proof fn lemma_squeeze_len(st: SpongeModel, n: nat)
    ensures
        squeeze_out(st, n).len() == n,
    decreases n,
{
    if n > 0 {
        lemma_squeeze_len(st, (n - 1) as nat);
    }
}

pub proof fn lemma_squeeze_valid(st: SpongeModel, n: nat)
    requires
        model_wf(st),
    ensures
        valid(squeeze_out(st, n)),
        squeeze_out(st, n).len() == n,
    decreases n,
{
    lemma_squeeze_len(st, n);
    if n > 0 {
        lemma_squeeze_valid(st, (n - 1) as nat);
        lemma_absorb_wf(st, zeros((n - 1) as nat));
        let p = squeeze_out(st, (n - 1) as nat);
        let k = key(absorb_seq(st, zeros((n - 1) as nat)));
        assert forall|i: int| 0 <= i < n implies is_trit(#[trigger] p.push(k)[i]) by {
            if i < n - 1 {
                assert(p.push(k)[i] == p[i]);
            }
        }
    }
}

pub proof fn lemma_enc_valid(st: SpongeModel, x: Seq<i8>)
    requires
        model_wf(st),
        valid(x),
    ensures
        valid(enc_out(st, x)),
    decreases x.len(),
{
    lemma_enc_len(st, x);
    if x.len() > 0 {
        let y = x.drop_last();
        lemma_enc_valid(st, y);
        lemma_absorb_wf(st, y);
        lemma_enc_len(st, y);
        let p = enc_out(st, y);
        let k = tadd(x.last(), key(absorb_seq(st, y)));
        lemma_sub_add(x.last(), key(absorb_seq(st, y)));
        assert forall|i: int| 0 <= i < x.len() implies is_trit(#[trigger] p.push(k)[i]) by {
            if i < x.len() - 1 {
                assert(p.push(k)[i] == p[i]);
            }
        }
    }
}

pub proof fn lemma_dec_valid(st: SpongeModel, c: Seq<i8>)
    requires
        model_wf(st),
        valid(c),
    ensures
        valid(dec_out(st, c)),
    decreases c.len(),
{
    lemma_dec_len(st, c);
    if c.len() > 0 {
        let y = c.drop_last();
        lemma_dec_valid(st, y);
        lemma_dec_len(st, y);
        let p = dec_out(st, y);
        lemma_absorb_wf(st, p);
        let k = tsub(c.last(), key(absorb_seq(st, p)));
        lemma_sub_add(c.last(), key(absorb_seq(st, p)));
        assert forall|i: int| 0 <= i < c.len() implies is_trit(#[trigger] p.push(k)[i]) by {
            if i < c.len() - 1 {
                assert(p.push(k)[i] == p[i]);
            }
        }
    }
}

/// Unmasking what was masked from the same state gives the plaintext back.
pub proof fn lemma_dec_enc(st: SpongeModel, x: Seq<i8>)
    requires
        model_wf(st),
        valid(x),
    ensures
        dec_out(st, enc_out(st, x)) == x,
    decreases x.len(),
{
    if x.len() > 0 {
        let y = x.drop_last();
        lemma_dec_enc(st, y);
        let c = enc_out(st, x);
        assert(c.drop_last() =~= enc_out(st, y));
        lemma_absorb_wf(st, y);
        lemma_sub_add(x.last(), key(absorb_seq(st, y)));
        assert(dec_out(st, c) =~= x);
    }
}

/// The sponge: `s` holds `WIDTH` trits, `pos` the next trit of the rate.
#[derive(Clone, Debug)]
pub struct Spongos {
    pub s: Vec<i8>,
    pub pos: usize,
}

fn round_exec(s: &Vec<i8>) -> (r: Vec<i8>)
    requires
        s.len() == WIDTH,
        valid(s@),
    ensures
        r@ == round(s@),
        valid(r@),
{
    let mut r: Vec<i8> = Vec::new();
    let mut i: usize = 0;
    while i < WIDTH
        invariant
            s.len() == WIDTH,
            valid(s@),
            i <= WIDTH,
            r@.len() == i,
            forall|j: int| 0 <= j < i ==> #[trigger] r@[j] == mix(s@, j),
            valid(r@),
        decreases WIDTH - i,
    {
        let a = s[i];
        let b = s[(i + 1) % WIDTH];
        let c = s[(i + 85) % WIDTH];
        let e = s[(i + 170) % WIDTH];
        let m: i8 = if b == 0 || e == 0 {
            0
        } else if b == e {
            1
        } else {
            -1
        };
        let t = add_trit(add_trit(a, b), add_trit(c, m));
        let t = add_trit(t, if i == 0 { 1 } else { 0 });
        r.push(t);
        i = i + 1;
    }
    assert(r@ =~= round(s@));
    r
}

fn transform_exec(s: &Vec<i8>) -> (r: Vec<i8>)
    requires
        s.len() == WIDTH,
        valid(s@),
    ensures
        r@ == transform(s@),
        r.len() == WIDTH,
        valid(r@),
{
    let mut r = crate::trits::copy_range(s, 0, s.len());
    assert(r@ =~= s@);
    let mut n: usize = 0;
    while n < ROUNDS
        invariant
            s.len() == WIDTH,
            valid(s@),
            n <= ROUNDS,
            r@ == rounds(s@, n as nat),
            r.len() == WIDTH,
            valid(r@),
        decreases ROUNDS - n,
    {
        proof {
            lemma_rounds_valid(s@, (n + 1) as nat);
        }
        r = round_exec(&r);
        n = n + 1;
    }
    r
}

impl Spongos {
    pub open spec fn view(&self) -> SpongeModel {
        (self.s@, self.pos as int)
    }

    pub open spec fn wf(&self) -> bool {
        model_wf(self@)
    }

    /// A sponge with all trits zero.
    pub fn init() -> (r: Spongos)
        ensures
            r@ == init_model(),
            r.wf(),
    {
        let mut s: Vec<i8> = Vec::new();
        let mut i: usize = 0;
        while i < WIDTH
            invariant
                i <= WIDTH,
                s@ == zeros(i as nat),
            decreases WIDTH - i,
        {
            s.push(0);
            i = i + 1;
            assert(s@ =~= zeros(i as nat));
        }
        Spongos { s, pos: 0 }
    }

    /// An independent copy of the state.
    pub fn fork(&self) -> (r: Spongos)
        ensures
            r@ == self@,
    {
        Spongos { s: crate::trits::copy_range(&self.s, 0, self.s.len()), pos: self.pos }
    }

    fn step(&mut self)
        requires
            old(self).s.len() == WIDTH,
            0 <= old(self).pos < RATE,
            valid(old(self).s@),
        ensures
            final(self)@ == advance(old(self)@),
            final(self).wf(),
    {
        if self.pos + 1 >= RATE {
            proof {
                lemma_rounds_valid(self.s@, ROUNDS as nat);
            }
            self.s = transform_exec(&self.s);
            self.pos = 0;
        } else {
            self.pos = self.pos + 1;
        }
    }

    fn absorb_trit(&mut self, t: i8)
        requires
            old(self).wf(),
            is_trit(t),
        ensures
            final(self)@ == absorb1(old(self)@, t),
            final(self).wf(),
    {
        let p = self.pos;
        self.s.set(p, t);
        self.step();
    }

    /// Absorbs `x[from..to]`.
    pub fn absorb_range(&mut self, x: &Vec<i8>, from: usize, to: usize)
        requires
            old(self).wf(),
            from <= to <= x.len(),
            valid(x@),
        ensures
            final(self)@ == absorb_seq(old(self)@, x@.subrange(from as int, to as int)),
            final(self).wf(),
    {
        let mut i: usize = from;
        assert(x@.subrange(from as int, from as int) =~= Seq::<i8>::empty());
        while i < to
            invariant
                from <= i <= to <= x.len(),
                valid(x@),
                self.wf(),
                self@ == absorb_seq(old(self)@, x@.subrange(from as int, i as int)),
            decreases to - i,
        {
            assert(x@.subrange(from as int, i + 1).drop_last() =~= x@.subrange(from as int, i as int));
            self.absorb_trit(x[i]);
            i = i + 1;
        }
    }

    /// Absorbs all of `x`.
    pub fn absorb(&mut self, x: &Vec<i8>)
        requires
            old(self).wf(),
            valid(x@),
        ensures
            final(self)@ == absorb_seq(old(self)@, x@),
            final(self).wf(),
    {
        self.absorb_range(x, 0, x.len());
        assert(x@.subrange(0, x.len() as int) =~= x@);
    }

    /// Masks `x[from..to]`: returns the ciphertext and absorbs the plaintext.
    pub fn encrypt(&mut self, x: &Vec<i8>, from: usize, to: usize) -> (r: Vec<i8>)
        requires
            old(self).wf(),
            from <= to <= x.len(),
            valid(x@),
        ensures
            r@ == enc_out(old(self)@, x@.subrange(from as int, to as int)),
            final(self)@ == absorb_seq(old(self)@, x@.subrange(from as int, to as int)),
            final(self).wf(),
            valid(r@),
    {
        let mut r: Vec<i8> = Vec::new();
        let mut i: usize = from;
        assert(x@.subrange(from as int, from as int) =~= Seq::<i8>::empty());
        while i < to
            invariant
                from <= i <= to <= x.len(),
                valid(x@),
                self.wf(),
                self@ == absorb_seq(old(self)@, x@.subrange(from as int, i as int)),
                r@ == enc_out(old(self)@, x@.subrange(from as int, i as int)),
            decreases to - i,
        {
            assert(x@.subrange(from as int, i + 1).drop_last() =~= x@.subrange(from as int, i as int));
            let k = self.s[self.pos];
            let c = add_trit(x[i], k);
            r.push(c);
            self.absorb_trit(x[i]);
            i = i + 1;
        }
        proof {
            lemma_enc_valid(old(self)@, x@.subrange(from as int, to as int));
        }
        r
    }

    /// Unmasks `c[from..to]`: returns the plaintext and absorbs it.
    pub fn decrypt(&mut self, c: &Vec<i8>, from: usize, to: usize) -> (r: Vec<i8>)
        requires
            old(self).wf(),
            from <= to <= c.len(),
            valid(c@),
        ensures
            r@ == dec_out(old(self)@, c@.subrange(from as int, to as int)),
            final(self)@ == absorb_seq(old(self)@, r@),
            final(self).wf(),
            valid(r@),
    {
        let mut r: Vec<i8> = Vec::new();
        let mut i: usize = from;
        assert(c@.subrange(from as int, from as int) =~= Seq::<i8>::empty());
        while i < to
            invariant
                from <= i <= to <= c.len(),
                valid(c@),
                self.wf(),
                old(self).wf(),
                r@ == dec_out(old(self)@, c@.subrange(from as int, i as int)),
                self@ == absorb_seq(old(self)@, r@),
            decreases to - i,
        {
            proof {
                assert(c@.subrange(from as int, i + 1).drop_last() =~= c@.subrange(from as int, i as int));
                lemma_dec_valid(old(self)@, c@.subrange(from as int, i as int));
            }
            let k = self.s[self.pos];
            let p = sub_trit(c[i], k);
            self.absorb_trit(p);
            r.push(p);
            i = i + 1;
            assert(r@.drop_last() =~= dec_out(old(self)@, c@.subrange(from as int, (i - 1) as int)));
        }
        proof {
            lemma_dec_valid(old(self)@, c@.subrange(from as int, to as int));
        }
        r
    }

    /// Squeezes `n` trits out.
    pub fn squeeze(&mut self, n: usize) -> (r: Vec<i8>)
        requires
            old(self).wf(),
        ensures
            r@ == squeeze_out(old(self)@, n as nat),
            final(self)@ == squeeze_state(old(self)@, n as nat),
            final(self).wf(),
            valid(r@),
            r@.len() == n,
    {
        let mut r: Vec<i8> = Vec::new();
        let mut i: usize = 0;
        while i < n
            invariant
                i <= n,
                self.wf(),
                self@ == absorb_seq(old(self)@, zeros(i as nat)),
                r@ == squeeze_out(old(self)@, i as nat),
            decreases n - i,
        {
            assert(zeros((i + 1) as nat).drop_last() =~= zeros(i as nat));
            r.push(self.s[self.pos]);
            self.absorb_trit(0);
            i = i + 1;
        }
        proof {
            lemma_squeeze_valid(old(self)@, n as nat);
        }
        r
    }

    /// Ends the current block: the state is permuted unless it is at a block start.
    pub fn commit(&mut self)
        requires
            old(self).wf(),
        ensures
            final(self)@ == commit_model(old(self)@),
            final(self).wf(),
    {
        if self.pos != 0 {
            proof {
                lemma_rounds_valid(self.s@, ROUNDS as nat);
            }
            self.s = transform_exec(&self.s);
            self.pos = 0;
        }
    }
}

/// `n` trits of digest of `x`.
pub fn hash(x: &Vec<i8>, n: usize) -> (r: Vec<i8>)
    requires
        valid(x@),
    ensures
        r@ == hash_spec(x@, n as nat),
        valid(r@),
        r@.len() == n,
{
    let mut s = Spongos::init();
    proof {
        lemma_rounds_valid(zeros(WIDTH as nat), 0);
    }
    s.absorb(x);
    s.commit();
    s.squeeze(n)
}

} // verus!
