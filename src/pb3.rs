//! Wire commands: each value has a size, a wrap (encode into a buffer while
//! driving the sponge) and an unwrap (decode from a buffer while driving the
//! sponge the same way).
use vstd::prelude::*;
use crate::spongos::{
    Spongos, SpongeModel, absorb_seq, enc_out, dec_out, model_wf, lemma_absorb_wf,
    lemma_dec_enc, lemma_enc_len, lemma_dec_len,
    lemma_absorb_concat,
};
use crate::trits::{
    Trits, valid, num, encode_num, pow3, lemma_encode_num, encode_number, decode_number,
    copy_range, append_all, lemma_num_bound,
};

verus! {

/// Trits that hold the tryte count in front of a `trytes` value.
pub const SIZE_TRITS: usize = 18;

/// Tryte counts must stay below 3 to the power `SIZE_TRITS`.
pub const MAX_TRYTES: usize = 387420489;

/// What a failed unwrap reports.
#[derive(Clone, Copy, Debug, PartialEq, Eq)]
pub enum Error {
    /// The buffer ended before the value did.
    Eof,
    /// A link could not be resolved to a sponge state.
    UnresolvedLink,
    /// The signature does not match the expected public key.
    SignatureInvalid,
    /// A decoded value is outside its domain.
    MalformedValue,
}

/// An output buffer of fixed capacity: what was written and how much fits.
#[derive(Debug)]
pub struct TritSliceMut {
    pub buf: Vec<i8>,
    pub cap: usize,
}

impl TritSliceMut {
    pub open spec fn wf(&self) -> bool {
        self.buf.len() <= self.cap && valid(self.buf@)
    }

    pub open spec fn room(&self) -> int {
        self.cap - self.buf.len()
    }

    /// An empty buffer with room for `n` trits.
    pub fn new(n: usize) -> (r: TritSliceMut)
        ensures
            r.wf(),
            r.buf@.len() == 0,
            r.cap == n,
    {
        TritSliceMut { buf: Vec::new(), cap: n }
    }

    /// The number of trits that still fit.
    pub fn size(&self) -> (r: usize)
        requires
            self.wf(),
        ensures
            r == self.room(),
    {
        self.cap - self.buf.len()
    }

    pub fn put(&mut self, x: &Vec<i8>)
        requires
            old(self).wf(),
            valid(x@),
            x@.len() <= old(self).room(),
        ensures
            final(self).wf(),
            final(self).cap == old(self).cap,
            final(self).buf@ == old(self).buf@ + x@,
    {
        append_all(&mut self.buf, x);
    }

    /// The trits written so far.
    pub fn into_trits(self) -> (r: Trits)
        requires
            self.wf(),
        ensures
            r@ == self.buf@,
            r.wf(),
    {
        Trits { t: self.buf }
    }
}

/// An input buffer and a read cursor.
#[derive(Debug)]
pub struct TritSlice {
    pub buf: Vec<i8>,
    pub pos: usize,
}

impl TritSlice {
    pub open spec fn wf(&self) -> bool {
        self.pos <= self.buf.len() && valid(self.buf@)
    }

    /// The trits not read yet.
    pub open spec fn rest(&self) -> Seq<i8> {
        self.buf@.subrange(self.pos as int, self.buf.len() as int)
    }

    pub fn new(t: Trits) -> (r: TritSlice)
        requires
            t.wf(),
        ensures
            r.wf(),
            r.rest() == t@,
    {
        let r = TritSlice { buf: t.t, pos: 0 };
        assert(r.rest() =~= t@);
        r
    }

    /// The number of trits not read yet.
    pub fn size(&self) -> (r: usize)
        requires
            self.wf(),
        ensures
            r == self.rest().len(),
    {
        self.buf.len() - self.pos
    }

    /// Takes the next `n` trits.
    pub fn take(&mut self, n: usize) -> (r: Vec<i8>)
        requires
            old(self).wf(),
            n <= old(self).rest().len(),
        ensures
            final(self).wf(),
            final(self).buf == old(self).buf,
            r@ == old(self).rest().take(n as int),
            final(self).rest() == old(self).rest().skip(n as int),
            valid(r@),
    {
        let r = copy_range(&self.buf, self.pos, self.pos + n);
        self.pos = self.pos + n;
        assert(r@ =~= old(self).rest().take(n as int));
        assert(self.rest() =~= old(self).rest().skip(n as int));
        r
    }
}

pub open spec fn size_wire(n: nat) -> Seq<i8> {
    encode_num(n, SIZE_TRITS as nat)
}

/// The wire form of a tryte sequence: its tryte count, then its trits.
pub open spec fn trytes_wire(v: Seq<i8>) -> Seq<i8> {
    size_wire(v.len() / 3) + v
}

/// The tryte sequence at the front of `input`, or `None` where `input` is too short.
pub open spec fn trytes_parse(input: Seq<i8>) -> Option<Seq<i8>> {
    if input.len() < SIZE_TRITS {
        None
    } else {
        let n = num(input.take(SIZE_TRITS as int));
        if input.len() < SIZE_TRITS + 3 * n {
            None
        } else {
            Some(input.subrange(SIZE_TRITS as int, SIZE_TRITS + 3 * n))
        }
    }
}

/// The plaintext tryte sequence masked at the front of `input`.
pub open spec fn trytes_unmask(st: SpongeModel, input: Seq<i8>) -> Option<Seq<i8>> {
    if input.len() < SIZE_TRITS {
        None
    } else {
        let sz = dec_out(st, input.take(SIZE_TRITS as int));
        let n = num(sz);
        if input.len() < SIZE_TRITS + 3 * n {
            None
        } else {
            Some(dec_out(absorb_seq(st, sz), input.subrange(SIZE_TRITS as int, SIZE_TRITS + 3 * n)))
        }
    }
}

/// A tryte sequence fits the wire format when it is whole trytes and its
/// count fits the size field.
pub open spec fn trytes_ok(v: Seq<i8>) -> bool {
    v.len() % 3 == 0 && v.len() / 3 < MAX_TRYTES && valid(v)
}

proof fn lemma_max_trytes()
    ensures
        pow3(SIZE_TRITS as nat) == MAX_TRYTES,
{
    crate::trits::lemma_pow3_18(18);
    reveal_with_fuel(pow3, 19);
}

pub proof fn lemma_trytes_parse(v: Seq<i8>, rest: Seq<i8>)
    requires
        trytes_ok(v),
    ensures
        trytes_parse(trytes_wire(v) + rest) == Some(v),
        trytes_wire(v).len() == SIZE_TRITS + v.len(),
        valid(trytes_wire(v)),
        valid(size_wire(v.len() / 3)),
        size_wire(v.len() / 3).len() == SIZE_TRITS,
{
    lemma_max_trytes();
    lemma_encode_num(v.len() / 3, SIZE_TRITS as nat);
    let w = trytes_wire(v) + rest;
    assert(w.take(SIZE_TRITS as int) =~= size_wire(v.len() / 3));
    assert(w.subrange(SIZE_TRITS as int, SIZE_TRITS + v.len()) =~= v);
    let sw = size_wire(v.len() / 3);
    assert forall|i: int| 0 <= i < trytes_wire(v).len() implies crate::trits::is_trit(
        #[trigger] trytes_wire(v)[i],
    ) by {
        if i < 18 {
            assert(trytes_wire(v)[i] == sw[i]);
        } else {
            assert(trytes_wire(v)[i] == v[i - 18]);
        }
    }
}

pub proof fn lemma_enc_concat(st: SpongeModel, x: Seq<i8>, y: Seq<i8>)
    ensures
        enc_out(st, x + y) == enc_out(st, x) + enc_out(absorb_seq(st, x), y),
    decreases y.len(),
{
    if y.len() == 0 {
        assert(x + y =~= x);
        assert(enc_out(st, x) + enc_out(absorb_seq(st, x), y) =~= enc_out(st, x));
    } else {
        assert((x + y).drop_last() =~= x + y.drop_last());
        lemma_enc_concat(st, x, y.drop_last());
        lemma_absorb_concat(st, x, y.drop_last());
        assert(enc_out(st, x + y) =~= enc_out(st, x) + enc_out(absorb_seq(st, x), y));
    }
}

pub proof fn lemma_trytes_unmask(st: SpongeModel, v: Seq<i8>, rest: Seq<i8>)
    requires
        trytes_ok(v),
        model_wf(st),
    ensures
        trytes_unmask(st, enc_out(st, trytes_wire(v)) + rest) == Some(v),
        enc_out(st, trytes_wire(v)).len() == SIZE_TRITS + v.len(),
{
    lemma_trytes_parse(v, rest);
    lemma_max_trytes();
    lemma_encode_num(v.len() / 3, SIZE_TRITS as nat);
    let sw = size_wire(v.len() / 3);
    lemma_enc_concat(st, sw, v);
    let st2 = absorb_seq(st, sw);
    lemma_enc_len(st, sw);
    lemma_enc_len(st2, v);
    lemma_absorb_wf(st, sw);
    lemma_dec_enc(st, sw);
    lemma_dec_enc(st2, v);
    let w = enc_out(st, trytes_wire(v)) + rest;
    assert(w.take(SIZE_TRITS as int) =~= enc_out(st, sw));
    assert(w.subrange(SIZE_TRITS as int, SIZE_TRITS + v.len()) =~= enc_out(st2, v));
}

/// A payload of whole trytes; absorbed or masked depending on the command.
#[derive(Clone, Debug, PartialEq, Eq)]
pub struct Trytes(pub Trits);

impl Trytes {
    pub open spec fn view(&self) -> Seq<i8> {
        self.0@
    }

    pub fn size(&self) -> (r: usize)
        ensures
            r == self@.len(),
    {
        self.0.size()
    }

    /// Masks the tryte count and the trits into `b`.
    pub fn wrap_mask(&self, s: &mut Spongos, b: &mut TritSliceMut)
        requires
            trytes_ok(self@),
            old(s).wf(),
            old(b).wf(),
            SIZE_TRITS + self@.len() <= old(b).room(),
        ensures
            final(b).wf(),
            final(b).cap == old(b).cap,
            final(b).buf@ == old(b).buf@ + enc_out(old(s)@, trytes_wire(self@)),
            final(s)@ == absorb_seq(old(s)@, trytes_wire(self@)),
            final(s).wf(),
    {
        proof {
            lemma_max_trytes();
            lemma_trytes_parse(self@, Seq::empty());
        }
        let n = self.0.t.len() / 3;
        let sz = encode_number(n, SIZE_TRITS);
        let ghost st0 = s@;
        let ghost b0 = b.buf@;
        let c0 = s.encrypt(&sz, 0, SIZE_TRITS);
        proof {
            assert(sz@.subrange(0, 18) =~= sz@);
            lemma_enc_len(st0, sz@);
        }
        b.put(&c0);
        let ghost st1 = s@;
        let c1 = s.encrypt(&self.0.t, 0, self.0.t.len());
        proof {
            assert(self.0.t@.subrange(0, self@.len() as int) =~= self@);
            lemma_enc_len(st1, self@);
        }
        b.put(&c1);
        proof {
            lemma_enc_concat(st0, sz@, self@);
            lemma_absorb_concat(st0, sz@, self@);
            assert(trytes_wire(self@) == sz@ + self@);
            assert(b.buf@ =~= b0 + (c0@ + c1@));
        }
    }

    /// Unmasks a tryte count and that many trytes from `b`.
    pub fn unwrap_mask_sized(s: &mut Spongos, b: &mut TritSlice) -> (r: Result<Trytes, Error>)
        requires
            old(s).wf(),
            old(b).wf(),
        ensures
            final(b).wf(),
            final(s).wf(),
            trytes_unmask(old(s)@, old(b).rest()) is None <==> r is Err,
            r is Err ==> r == Err::<Trytes, Error>(Error::Eof),
            r is Ok ==> trytes_unmask(old(s)@, old(b).rest()) == Some(r.unwrap()@)
                && SIZE_TRITS + r.unwrap()@.len() <= old(b).rest().len()
                && final(b).rest() == old(b).rest().skip(SIZE_TRITS + r.unwrap()@.len())
                && final(s)@ == absorb_seq(old(s)@, trytes_wire(r.unwrap()@))
                && trytes_ok(r.unwrap()@),
    {
        if b.size() < SIZE_TRITS {
            return Err(Error::Eof);
        }
        let ghost rest0 = b.rest();
        let c0 = b.take(SIZE_TRITS);
        let sz = s.decrypt(&c0, 0, SIZE_TRITS);
        proof {
            assert(c0@.subrange(0, 18) =~= c0@);
            lemma_dec_len(old(s)@, c0@);
        }
        let n = decode_number(&sz, 0, SIZE_TRITS);
        proof {
            assert(sz@.subrange(0, 18) =~= sz@);
            lemma_num_bound(sz@);
            lemma_max_trytes();
        }
        if b.size() / 3 < n {
            return Err(Error::Eof);
        }
        let ghost st1 = s@;
        let p = s.decrypt(&b.buf, b.pos, b.pos + 3 * n);
        b.pos = b.pos + 3 * n;
        proof {
            lemma_dec_len(st1, b.buf@.subrange(b.pos - 3 * n, b.pos as int));
            assert(b.buf@.subrange(b.pos - 3 * n, b.pos as int) =~= rest0.subrange(18, 18 + 3 * n));
            assert(b.rest() =~= rest0.skip(18 + 3 * n));
            lemma_encode_num(n as nat, 18);
            crate::trits::lemma_num_of_valid(sz@);
            assert(trytes_wire(p@) =~= sz@ + p@);
            lemma_absorb_concat(old(s)@, sz@, p@);
        }
        Ok(Trytes(Trits { t: p }))
    }
}

/// Values that are absorbed: they stand in clear on the wire and are mixed
/// into the sponge.
pub trait Absorb: Sized {
    /// The trits that the value stands for.
    spec fn value(&self) -> Seq<i8>;

    /// Whether a sequence of trits is a value of the type.
    spec fn admits(v: Seq<i8>) -> bool;

    /// The wire form of a value.
    spec fn wire(v: Seq<i8>) -> Seq<i8>;

    /// The value at the front of `input`, or `None` where `input` ends too early.
    spec fn parse(input: Seq<i8>) -> Option<Seq<i8>>;

    /// What is written is read back.
    proof fn lemma_parse_wire(v: Seq<i8>, rest: Seq<i8>)
        requires
            Self::admits(v),
        ensures
            Self::parse(Self::wire(v) + rest) == Some(v),
            valid(Self::wire(v)),
    ;

    fn wrap_absorb(&self, s: &mut Spongos, b: &mut TritSliceMut)
        requires
            Self::admits(self.value()),
            old(s).wf(),
            old(b).wf(),
            Self::wire(self.value()).len() <= old(b).room(),
        ensures
            final(b).wf(),
            final(b).cap == old(b).cap,
            final(b).buf@ == old(b).buf@ + Self::wire(self.value()),
            final(s)@ == absorb_seq(old(s)@, Self::wire(self.value())),
            final(s).wf(),
    ;

    fn unwrap_absorb_sized(s: &mut Spongos, b: &mut TritSlice) -> (r: Result<Self, Error>)
        requires
            old(s).wf(),
            old(b).wf(),
        ensures
            final(b).wf(),
            final(s).wf(),
            Self::parse(old(b).rest()) is None <==> r is Err,
            r is Err ==> r == Err::<Self, Error>(Error::Eof),
            r is Ok ==> Self::parse(old(b).rest()) == Some(r.unwrap().value())
                && Self::admits(r.unwrap().value())
                && Self::wire(r.unwrap().value()).len() <= old(b).rest().len()
                && final(b).rest() == old(b).rest().skip(Self::wire(r.unwrap().value()).len() as int)
                && final(s)@ == absorb_seq(old(s)@, Self::wire(r.unwrap().value())),
    ;
}

impl Absorb for Trytes {
    open spec fn value(&self) -> Seq<i8> {
        self@
    }

    open spec fn admits(v: Seq<i8>) -> bool {
        trytes_ok(v)
    }

    open spec fn wire(v: Seq<i8>) -> Seq<i8> {
        trytes_wire(v)
    }

    open spec fn parse(input: Seq<i8>) -> Option<Seq<i8>> {
        trytes_parse(input)
    }

    proof fn lemma_parse_wire(v: Seq<i8>, rest: Seq<i8>) {
        lemma_trytes_parse(v, rest);
    }

    fn wrap_absorb(&self, s: &mut Spongos, b: &mut TritSliceMut) {
        proof {
            lemma_max_trytes();
            lemma_trytes_parse(self@, Seq::empty());
        }
        let n = self.0.t.len() / 3;
        let sz = encode_number(n, SIZE_TRITS);
        s.absorb(&sz);
        b.put(&sz);
        s.absorb(&self.0.t);
        b.put(&self.0.t);
        proof {
            lemma_absorb_concat(old(s)@, sz@, self@);
        }
    }

    fn unwrap_absorb_sized(s: &mut Spongos, b: &mut TritSlice) -> (r: Result<Trytes, Error>) {
        if b.size() < SIZE_TRITS {
            return Err(Error::Eof);
        }
        let ghost rest0 = b.rest();
        let n = decode_number(&b.buf, b.pos, b.pos + SIZE_TRITS);
        proof {
            assert(b.buf@.subrange(b.pos as int, b.pos + 18) =~= rest0.take(18));
            lemma_num_bound(rest0.take(18));
            lemma_max_trytes();
        }
        if (b.size() - SIZE_TRITS) / 3 < n {
            return Err(Error::Eof);
        }
        let sz = b.take(SIZE_TRITS);
        s.absorb(&sz);
        let p = b.take(3 * n);
        s.absorb(&p);
        proof {
            assert(p@ =~= rest0.subrange(18, 18 + 3 * n));
            assert(b.rest() =~= rest0.skip(18 + 3 * n));
            crate::trits::lemma_num_of_valid(sz@);
            assert(trytes_wire(p@) =~= sz@ + p@);
            lemma_absorb_concat(old(s)@, sz@, p@);
        }
        Ok(Trytes(Trits { t: p }))
    }
}

/// Values that both sides hold already: mixed into the sponge, never written.
pub trait AbsorbExternal {
    spec fn external(&self) -> Seq<i8>;

    fn slice(&self) -> (r: &Vec<i8>)
        ensures
            r@ == self.external(),
    ;

    fn wrap_absorb_external(&self, s: &mut Spongos)
        requires
            old(s).wf(),
            valid(self.external()),
        ensures
            final(s)@ == absorb_seq(old(s)@, self.external()),
            final(s).wf(),
    ;

    fn unwrap_absorb_external(&self, s: &mut Spongos)
        requires
            old(s).wf(),
            valid(self.external()),
        ensures
            final(s)@ == absorb_seq(old(s)@, self.external()),
            final(s).wf(),
    ;
}

/// A choice among variants, encoded as one tryte holding its number.
pub type OneOf = Trits;

/// The `oneof` tag for variant `n` (-13..=13), as the three trits of its tryte.
pub fn oneof(n: i8) -> (r: OneOf)
    requires
        -13 <= n <= 13,
    ensures
        r@ == crate::trits::trits3(n as int),
        r.wf(),
{
    let u: u8 = (n + 13) as u8;
    let t = vec![((u % 3) as i8) - 1, (((u / 3) % 3) as i8) - 1, ((u / 9) as i8) - 1];
    assert(t@ =~= crate::trits::trits3(n as int));
    Trits { t }
}

/// A `oneof` tag takes one tryte.
pub fn sizeof_oneof() -> (r: usize)
    ensures
        r == 3,
{
    3
}

/// Wire size of a fixed count of trytes.
pub fn sizeof_ntrytes(n: usize) -> (r: usize)
    requires
        n <= MAX_TRYTES,
    ensures
        r == 3 * n,
{
    3 * n
}

/// Wire size of a length-prefixed tryte sequence.
pub fn sizeof_trytes(n: usize) -> (r: usize)
    requires
        n <= MAX_TRYTES,
    ensures
        r == SIZE_TRITS + 3 * n,
{
    SIZE_TRITS + 3 * n
}

} // verus!
