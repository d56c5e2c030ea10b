//! The signed packet: a message linked to an earlier one, with a public and
//! a masked payload, signed by the channel owner. Its commands, in order:
//! join the link by message id; absorb the public trytes; mask the masked
//! trytes; commit; squeeze a 78-tryte digest that stays off the wire; sign
//! the digest.
use vstd::prelude::*;
use crate::ids::{MsgId, MSGID_SIZE, join, join_model};
use crate::mss::{
    PrivateKey, PublicKey, HASH_SIZE, sig_spec, sig_recover, sig_verify, sig_size,
    sizeof_mssig, unwrap_recover_pk, unwrap_verify_pk, node, lemma_sign_recover, pow2,
};
use crate::pb3::{
    Absorb, Error, TritSlice, TritSliceMut, Trytes, trytes_wire, trytes_parse, trytes_unmask,
    trytes_ok, lemma_trytes_parse, lemma_trytes_unmask, sizeof_ntrytes, sizeof_trytes,
    MAX_TRYTES, SIZE_TRITS,
};
use crate::spongos::{
    Spongos, SpongeModel, absorb_seq, enc_out, commit_model, squeeze_out, model_wf,
    lemma_absorb_wf, lemma_commit_wf, lemma_squeeze_valid, lemma_enc_len,
};
use crate::trits::valid;

verus! {

/// The state from which the payloads are processed: the message id is
/// absorbed and the link joined.
pub open spec fn linked_state(st: SpongeModel, m: Seq<i8>, link: SpongeModel) -> SpongeModel {
    join_model(absorb_seq(st, m), link)
}

/// The digest that is signed.
pub open spec fn packet_hash(st: SpongeModel, m: Seq<i8>, link: SpongeModel, pp: Seq<i8>, mp: Seq<i8>) -> Seq<i8> {
    let s3 = absorb_seq(linked_state(st, m, link), trytes_wire(pp));
    squeeze_out(commit_model(absorb_seq(s3, trytes_wire(mp))), HASH_SIZE as nat)
}

/// The sponge state that the wrap leaves.
pub open spec fn packet_final_state(st: SpongeModel, m: Seq<i8>, link: SpongeModel, pp: Seq<i8>, mp: Seq<i8>) -> SpongeModel {
    let s3 = absorb_seq(linked_state(st, m, link), trytes_wire(pp));
    absorb_seq(commit_model(absorb_seq(s3, trytes_wire(mp))), crate::trits::zeros(HASH_SIZE as nat))
}

/// The trits that wrap writes.
pub open spec fn packet_wire(
    st: SpongeModel,
    m: Seq<i8>,
    link: SpongeModel,
    pp: Seq<i8>,
    mp: Seq<i8>,
    key: Seq<i8>,
    nonce: Seq<i8>,
    d: nat,
    j: nat,
) -> Seq<i8> {
    let s3 = absorb_seq(linked_state(st, m, link), trytes_wire(pp));
    m + trytes_wire(pp) + enc_out(s3, trytes_wire(mp)) + sig_spec(
        key,
        nonce,
        d,
        j,
        packet_hash(st, m, link, pp, mp),
    )
}

pub open spec fn packet_size(public_trytes: nat, masked_trytes: nat, d: nat) -> nat {
    (MSGID_SIZE + (SIZE_TRITS + 3 * public_trytes) + (SIZE_TRITS + 3 * masked_trytes) + sig_size(d)) as nat
}

/// The payloads at the front of `input` when the link resolves to `link`,
/// with the digest to check and the trits they take.
pub open spec fn packet_body(link: Option<SpongeModel>, st: SpongeModel, input: Seq<i8>) -> Result<
    (Seq<i8>, Seq<i8>, Seq<i8>, nat),
    Error,
> {
    if input.len() < MSGID_SIZE {
        Err(Error::Eof)
    } else if link is None {
        Err(Error::UnresolvedLink)
    } else {
        let m = input.take(MSGID_SIZE as int);
        let s2 = linked_state(st, m, link.unwrap());
        let in1 = input.skip(MSGID_SIZE as int);
        match trytes_parse(in1) {
            None => Err(Error::Eof),
            Some(pp) => {
                let s3 = absorb_seq(s2, trytes_wire(pp));
                let in2 = in1.skip(SIZE_TRITS + pp.len());
                match trytes_unmask(s3, in2) {
                    None => Err(Error::Eof),
                    Some(mp) => {
                        let h = squeeze_out(
                            commit_model(absorb_seq(s3, trytes_wire(mp))),
                            HASH_SIZE as nat,
                        );
                        Ok((pp, mp, h, (MSGID_SIZE + SIZE_TRITS + pp.len() + SIZE_TRITS + mp.len()) as nat))
                    },
                }
            },
        }
    }
}

/// Unwrap with key recovery: the recovered key, both payloads and the trits taken.
pub open spec fn packet_recover(link: Option<SpongeModel>, st: SpongeModel, input: Seq<i8>) -> Result<
    (Seq<i8>, Seq<i8>, Seq<i8>, nat),
    Error,
> {
    match packet_body(link, st, input) {
        Err(e) => Err(e),
        Ok((pp, mp, h, n)) => match sig_recover(h, input.skip(n as int)) {
            Err(e) => Err(e),
            Ok((pk, k)) => Ok((pk, pp, mp, n + k)),
        },
    }
}

/// Unwrap against a known key: both payloads and the trits taken.
pub open spec fn packet_verify(link: Option<SpongeModel>, pk: Seq<i8>, st: SpongeModel, input: Seq<i8>) -> Result<
    (Seq<i8>, Seq<i8>, nat),
    Error,
> {
    match packet_body(link, st, input) {
        Err(e) => Err(e),
        Ok((pp, mp, h, n)) => match sig_verify(pk, h, input.skip(n as int)) {
            Err(e) => Err(e),
            Ok(k) => Ok((pp, mp, n + k)),
        },
    }
}

pub open spec fn opt_model(o: Option<Spongos>) -> Option<SpongeModel> {
    match o {
        Some(s) => Some(s@),
        None => None,
    }
}

/// `l` is a state that `lookup` may give for the message id `id`.
pub open spec fn looked_up<F: Fn(MsgId) -> Option<Spongos>>(lookup: F, id: Seq<i8>, l: Option<SpongeModel>) -> bool {
    exists|m: MsgId, o: Option<Spongos>| m.id@ == id && lookup.ensures((m,), o) && l == opt_model(o)
}

pub open spec fn lookup_ok<F: Fn(MsgId) -> Option<Spongos>>(lookup: F) -> bool {
    &&& forall|m: MsgId| lookup.requires((m,))
    &&& forall|m: MsgId, o: Option<Spongos>| lookup.ensures((m,), o) ==> (o matches Some(s) ==> s.wf())
}

/// Size of the signed packet.
pub fn sizeof(public_trytes: usize, masked_trytes: usize, sk: &PrivateKey) -> (r: usize)
    requires
        public_trytes < MAX_TRYTES,
        masked_trytes < MAX_TRYTES,
        sk.wf(),
    ensures
        r == packet_size(public_trytes as nat, masked_trytes as nat, sk.d as nat),
{
    0 + sizeof_ntrytes(MSGID_SIZE / 3) + sizeof_trytes(public_trytes) + sizeof_trytes(masked_trytes)
        + sizeof_mssig(sk)
}

/// Wraps a signed packet into `b`, signing with the current leaf of `sk`.
pub fn wrap(
    msgid: &MsgId,
    slink: &mut Spongos,
    public_payload: &Trytes,
    masked_payload: &Trytes,
    sk: &PrivateKey,
    s: &mut Spongos,
    b: &mut TritSliceMut,
)
    requires
        msgid.id@.len() == MSGID_SIZE,
        msgid.id.wf(),
        trytes_ok(public_payload@),
        trytes_ok(masked_payload@),
        sk.wf(),
        old(slink).wf(),
        old(s).wf(),
        old(b).wf(),
        old(b).room() >= packet_size(public_payload@.len() / 3, masked_payload@.len() / 3, sk.d as nat),
    ensures
        final(b).wf(),
        final(b).cap == old(b).cap,
        final(b).buf@ == old(b).buf@ + packet_wire(
            old(s)@,
            msgid.id@,
            old(slink)@,
            public_payload@,
            masked_payload@,
            sk.prng.key@,
            sk.nonce@,
            sk.d as nat,
            sk.j as nat,
        ),
        final(b).buf@.len() == old(b).buf@.len() + packet_size(
            public_payload@.len() / 3,
            masked_payload@.len() / 3,
            sk.d as nat,
        ),
        final(slink)@ == commit_model(old(slink)@),
        final(s)@ == packet_final_state(old(s)@, msgid.id@, old(slink)@, public_payload@, masked_payload@),
        final(s).wf(),
{
    let ghost b0 = b.buf@;
    let ghost st0 = s@;
    let ghost l0 = slink@;
    proof {
        lemma_trytes_parse(public_payload@, Seq::empty());
        lemma_trytes_parse(masked_payload@, Seq::empty());
    }
    msgid.wrap_absorb(s, b);
    join(s, slink);
    public_payload.wrap_absorb(s, b);
    let ghost s3 = s@;
    masked_payload.wrap_mask(s, b);
    s.commit();
    let h = s.squeeze(HASH_SIZE);
    let sig = sk.sign(&h);
    proof {
        lemma_enc_len(s3, trytes_wire(masked_payload@));
    }
    b.put(&sig);
    proof {
        lemma_wrap_size(
            st0,
            msgid.id@,
            l0,
            public_payload@,
            masked_payload@,
            sk.prng.key@,
            sk.nonce@,
            sk.d as nat,
            sk.j as nat,
        );
        assert(b.buf@ =~= b0 + packet_wire(
            st0,
            msgid.id@,
            l0,
            public_payload@,
            masked_payload@,
            sk.prng.key@,
            sk.nonce@,
            sk.d as nat,
            sk.j as nat,
        ));
    }
}

/// The payload reading shared by both unwraps: message id, link, payloads
/// and the digest. The ghost result is the link state that was used.
fn unwrap_body<F: Fn(MsgId) -> Option<Spongos>>(lookup_link: F, s: &mut Spongos, b: &mut TritSlice) -> (r: (Result<
    (Trytes, Trytes, Vec<i8>),
    Error,
>, Ghost<Option<SpongeModel>>))
    requires
        lookup_ok(lookup_link),
        old(s).wf(),
        old(b).wf(),
    ensures
        final(b).wf(),
        final(s).wf(),
        old(b).rest().len() >= MSGID_SIZE ==> looked_up(lookup_link, old(b).rest().take(MSGID_SIZE as int), r.1@),
        match packet_body(r.1@, old(s)@, old(b).rest()) {
            Ok((pp, mp, h, n)) => r.0 is Ok && r.0.unwrap().0@ == pp && r.0.unwrap().1@ == mp
                && r.0.unwrap().2@ == h && final(b).rest() == old(b).rest().skip(n as int)
                && valid(h) && h.len() == HASH_SIZE && n <= old(b).rest().len(),
            Err(e) => r.0 == Err::<(Trytes, Trytes, Vec<i8>), Error>(e),
        },
{
    let ghost input = b.rest();
    let ghost st0 = s@;
    let msgid = match MsgId::unwrap_absorb_sized(s, b) {
        Ok(m) => m,
        Err(e) => {
            return (Err(e), Ghost(None));
        },
    };
    let key_id = MsgId { id: crate::trits::Trits { t: crate::trits::copy_range(&msgid.id.t, 0, msgid.id.t.len()) } };
    proof {
        assert(key_id.id@ =~= input.take(MSGID_SIZE as int));
    }
    let found = lookup_link(key_id);
    let ghost l = opt_model(found);
    proof {
        assert(looked_up(lookup_link, input.take(MSGID_SIZE as int), l));
    }
    let mut link = match found {
        Some(x) => x,
        None => {
            return (Err(Error::UnresolvedLink), Ghost(l));
        },
    };
    let ghost in1 = b.rest();
    assert(in1 == input.skip(MSGID_SIZE as int));
    join(s, &mut link);
    let ghost s2 = s@;
    assert(s2 == linked_state(st0, input.take(MSGID_SIZE as int), l.unwrap()));
    let pp = match Trytes::unwrap_absorb_sized(s, b) {
        Ok(v) => v,
        Err(e) => {
            return (Err(e), Ghost(l));
        },
    };
    let ghost s3 = s@;
    let ghost in2 = b.rest();
    proof {
        lemma_trytes_parse(pp@, Seq::empty());
    }
    assert(in2 == in1.skip(SIZE_TRITS + pp@.len()));
    let mp = match Trytes::unwrap_mask_sized(s, b) {
        Ok(v) => v,
        Err(e) => {
            return (Err(e), Ghost(l));
        },
    };
    let ghost in3 = b.rest();
    s.commit();
    let h = s.squeeze(HASH_SIZE);
    proof {
        assert(in1.skip(SIZE_TRITS + pp@.len()) =~= input.skip(MSGID_SIZE + SIZE_TRITS + pp@.len()));
        assert(in2 =~= input.skip(MSGID_SIZE + SIZE_TRITS + pp@.len()));
        assert(in2.skip(SIZE_TRITS + mp@.len()) =~= input.skip(
            (MSGID_SIZE + SIZE_TRITS + pp@.len() + SIZE_TRITS + mp@.len()) as int,
        ));
    }
    (Ok((pp, mp, h)), Ghost(l))
}

/// Unwraps a signed packet and recovers the signer's public key. The key is
/// not checked against anything: the caller must pin it.
pub fn unwrap_recover<F: Fn(MsgId) -> Option<Spongos>>(lookup_link: F, s: &mut Spongos, b: &mut TritSlice) -> (r: Result<
    (PublicKey, Trytes, Trytes),
    Error,
>)
    requires
        lookup_ok(lookup_link),
        old(s).wf(),
        old(b).wf(),
    ensures
        final(b).wf(),
        exists|l: Option<SpongeModel>|
            #![trigger packet_recover(l, old(s)@, old(b).rest())]
            (old(b).rest().len() >= MSGID_SIZE ==> looked_up(lookup_link, old(b).rest().take(MSGID_SIZE as int), l))
            && match packet_recover(l, old(s)@, old(b).rest()) {
                Ok((pk, pp, mp, n)) => r is Ok && r.unwrap().0.pk@ == pk && r.unwrap().1@ == pp
                    && r.unwrap().2@ == mp && final(b).rest() == old(b).rest().skip(n as int),
                Err(e) => r == Err::<(PublicKey, Trytes, Trytes), Error>(e),
            },
{
    let ghost input = b.rest();
    let ghost st0 = s@;
    let (res, Ghost(l)) = unwrap_body(lookup_link, s, b);
    let (pp, mp, h) = match res {
        Ok(v) => v,
        Err(e) => {
            assert(packet_recover(l, st0, input) == Err::<(Seq<i8>, Seq<i8>, Seq<i8>, nat), Error>(e));
            return Err(e);
        },
    };
    let ghost mid = b.rest();
    let ghost n = packet_body(l, st0, input).unwrap().3 as int;
    let pk = match unwrap_recover_pk(&h, b) {
        Ok(k) => k,
        Err(e) => {
            assert(packet_recover(l, st0, input) == Err::<(Seq<i8>, Seq<i8>, Seq<i8>, nat), Error>(e));
            return Err(e);
        },
    };
    proof {
        let k = sig_recover(h@, mid).unwrap().1;
        assert(mid == input.skip(n));
        assert(input.skip(n).skip(k as int) =~= input.skip(n + k));
    }
    Ok((pk, pp, mp))
}

/// Unwraps a signed packet and checks its signature against `mss_pk`.
pub fn unwrap_verify<F: Fn(MsgId) -> Option<Spongos>>(
    lookup_link: F,
    mss_pk: &PublicKey,
    s: &mut Spongos,
    b: &mut TritSlice,
) -> (r: Result<(Trytes, Trytes), Error>)
    requires
        lookup_ok(lookup_link),
        old(s).wf(),
        old(b).wf(),
    ensures
        final(b).wf(),
        exists|l: Option<SpongeModel>|
            #![trigger packet_verify(l, mss_pk.pk@, old(s)@, old(b).rest())]
            (old(b).rest().len() >= MSGID_SIZE ==> looked_up(lookup_link, old(b).rest().take(MSGID_SIZE as int), l))
            && match packet_verify(l, mss_pk.pk@, old(s)@, old(b).rest()) {
                Ok((pp, mp, n)) => r is Ok && r.unwrap().0@ == pp && r.unwrap().1@ == mp
                    && final(b).rest() == old(b).rest().skip(n as int),
                Err(e) => r == Err::<(Trytes, Trytes), Error>(e),
            },
{
    let ghost input = b.rest();
    let ghost st0 = s@;
    let (res, Ghost(l)) = unwrap_body(lookup_link, s, b);
    let (pp, mp, h) = match res {
        Ok(v) => v,
        Err(e) => {
            assert(packet_verify(l, mss_pk.pk@, st0, input) == Err::<(Seq<i8>, Seq<i8>, nat), Error>(e));
            return Err(e);
        },
    };
    let ghost mid = b.rest();
    let ghost n = packet_body(l, st0, input).unwrap().3 as int;
    match unwrap_verify_pk(mss_pk, &h, b) {
        Ok(()) => {},
        Err(e) => {
            assert(packet_verify(l, mss_pk.pk@, st0, input) == Err::<(Seq<i8>, Seq<i8>, nat), Error>(e));
            return Err(e);
        },
    }
    proof {
        let k = sig_verify(mss_pk.pk@, h@, mid).unwrap();
        assert(mid == input.skip(n));
        assert(input.skip(n).skip(k as int) =~= input.skip(n + k));
    }
    Ok((pp, mp))
}

proof fn lemma_linked_wf(st: SpongeModel, m: Seq<i8>, link: SpongeModel)
    requires
        model_wf(st),
        model_wf(link),
        valid(m),
    ensures
        model_wf(linked_state(st, m, link)),
{
    lemma_absorb_wf(st, m);
    lemma_commit_wf(link);
    lemma_squeeze_valid(commit_model(link), crate::ids::JOIN_SIZE as nat);
    let j = squeeze_out(commit_model(link), crate::ids::JOIN_SIZE as nat);
    lemma_absorb_wf(absorb_seq(st, m), j);
    lemma_commit_wf(absorb_seq(absorb_seq(st, m), j));
}

/// The state in which the masked payload is processed.
pub open spec fn masked_state(st: SpongeModel, m: Seq<i8>, link: SpongeModel, pp: Seq<i8>) -> SpongeModel {
    absorb_seq(linked_state(st, m, link), trytes_wire(pp))
}

/// Payloads written as wrap writes them, followed by anything, read back.
#[verifier::rlimit(40)]
proof fn lemma_body_parse(
    st: SpongeModel,
    m: Seq<i8>,
    link: SpongeModel,
    pp: Seq<i8>,
    mp: Seq<i8>,
    tail: Seq<i8>,
)
    requires
        model_wf(st),
        model_wf(link),
        m.len() == MSGID_SIZE,
        valid(m),
        trytes_ok(pp),
        trytes_ok(mp),
    ensures
        ({
            let input = m + trytes_wire(pp) + enc_out(masked_state(st, m, link, pp), trytes_wire(mp)) + tail;
            let n = (MSGID_SIZE + SIZE_TRITS + pp.len() + SIZE_TRITS + mp.len()) as nat;
            &&& packet_body(Some(link), st, input) == Ok::<(Seq<i8>, Seq<i8>, Seq<i8>, nat), Error>(
                (pp, mp, packet_hash(st, m, link, pp, mp), n),
            )
            &&& input.skip(n as int) == tail
            &&& valid(packet_hash(st, m, link, pp, mp))
            &&& packet_hash(st, m, link, pp, mp).len() == HASH_SIZE
        }),
{
    let s2 = linked_state(st, m, link);
    lemma_linked_wf(st, m, link);
    let twp = trytes_wire(pp);
    let twm = trytes_wire(mp);
    lemma_trytes_parse(pp, Seq::empty());
    lemma_trytes_parse(mp, Seq::empty());
    let s3 = masked_state(st, m, link, pp);
    lemma_absorb_wf(s2, twp);
    let c = enc_out(s3, twm);
    lemma_enc_len(s3, twm);
    lemma_absorb_wf(s3, twm);
    lemma_commit_wf(absorb_seq(s3, twm));
    lemma_squeeze_valid(commit_model(absorb_seq(s3, twm)), HASH_SIZE as nat);
    let input = m + twp + c + tail;
    assert(input.take(MSGID_SIZE as int) =~= m);
    let in1 = input.skip(MSGID_SIZE as int);
    assert(in1 =~= twp + (c + tail));
    lemma_trytes_parse(pp, c + tail);
    let in2 = in1.skip(SIZE_TRITS + pp.len());
    assert(in2 =~= c + tail);
    lemma_trytes_unmask(s3, mp, tail);
    let n = (MSGID_SIZE + SIZE_TRITS + pp.len() + SIZE_TRITS + mp.len()) as nat;
    assert(input.skip(n as int) =~= tail);
}

/// What an honest wrap wrote reads back as its payloads and digest, and the
/// signature follows them.
#[verifier::rlimit(60)]
proof fn lemma_body_honest(
    st: SpongeModel,
    m: Seq<i8>,
    link: SpongeModel,
    pp: Seq<i8>,
    mp: Seq<i8>,
    key: Seq<i8>,
    nonce: Seq<i8>,
    d: nat,
    j: nat,
    rest: Seq<i8>,
)
    requires
        model_wf(st),
        model_wf(link),
        m.len() == MSGID_SIZE,
        valid(m),
        trytes_ok(pp),
        trytes_ok(mp),
        valid(key),
        valid(nonce),
        d <= crate::mss::MAX_DEPTH,
        j < pow2(d),
    ensures
        ({
            let w = packet_wire(st, m, link, pp, mp, key, nonce, d, j);
            let n = (MSGID_SIZE + SIZE_TRITS + pp.len() + SIZE_TRITS + mp.len()) as nat;
            &&& packet_body(Some(link), st, w + rest) == Ok::<(Seq<i8>, Seq<i8>, Seq<i8>, nat), Error>(
                (pp, mp, packet_hash(st, m, link, pp, mp), n),
            )
            &&& (w + rest).skip(n as int) == sig_spec(key, nonce, d, j, packet_hash(st, m, link, pp, mp)) + rest
            &&& valid(packet_hash(st, m, link, pp, mp))
            &&& packet_hash(st, m, link, pp, mp).len() == HASH_SIZE
            &&& w.len() == packet_size(pp.len() / 3, mp.len() / 3, d)
        }),
{
    let h = packet_hash(st, m, link, pp, mp);
    let sig = sig_spec(key, nonce, d, j, h);
    let c = enc_out(masked_state(st, m, link, pp), trytes_wire(mp));
    lemma_body_parse(st, m, link, pp, mp, sig + rest);
    lemma_sign_recover(key, nonce, d, j, h, rest);
    lemma_trytes_parse(pp, Seq::empty());
    lemma_trytes_parse(mp, Seq::empty());
    lemma_enc_len(masked_state(st, m, link, pp), trytes_wire(mp));
    let w = packet_wire(st, m, link, pp, mp, key, nonce, d, j);
    assert(w == m + trytes_wire(pp) + c + sig);
    assert(w + rest =~= m + trytes_wire(pp) + c + (sig + rest));
}

/// Round trip: unwrapping with the signer's public key what wrap wrote, with
/// the link resolved to the state wrap was given, returns both payloads and
/// takes exactly the trits that wrap wrote.
pub proof fn lemma_round_trip(
    st: SpongeModel,
    m: Seq<i8>,
    link: SpongeModel,
    pp: Seq<i8>,
    mp: Seq<i8>,
    key: Seq<i8>,
    nonce: Seq<i8>,
    d: nat,
    j: nat,
    rest: Seq<i8>,
)
    requires
        model_wf(st),
        model_wf(link),
        m.len() == MSGID_SIZE,
        valid(m),
        trytes_ok(pp),
        trytes_ok(mp),
        valid(key),
        valid(nonce),
        d <= crate::mss::MAX_DEPTH,
        j < pow2(d),
    ensures
        packet_verify(Some(link), node(key, nonce, d, 1), st, packet_wire(st, m, link, pp, mp, key, nonce, d, j) + rest)
            == Ok::<(Seq<i8>, Seq<i8>, nat), Error>((pp, mp, packet_wire(st, m, link, pp, mp, key, nonce, d, j).len())),
{
    lemma_body_honest(st, m, link, pp, mp, key, nonce, d, j, rest);
    lemma_sign_recover(key, nonce, d, j, packet_hash(st, m, link, pp, mp), rest);
}

/// Size exactness: wrap writes exactly `sizeof` trits.
pub proof fn lemma_wrap_size(
    st: SpongeModel,
    m: Seq<i8>,
    link: SpongeModel,
    pp: Seq<i8>,
    mp: Seq<i8>,
    key: Seq<i8>,
    nonce: Seq<i8>,
    d: nat,
    j: nat,
)
    requires
        model_wf(st),
        model_wf(link),
        m.len() == MSGID_SIZE,
        valid(m),
        trytes_ok(pp),
        trytes_ok(mp),
        valid(key),
        valid(nonce),
        d <= crate::mss::MAX_DEPTH,
        j < pow2(d),
    ensures
        packet_wire(st, m, link, pp, mp, key, nonce, d, j).len() == packet_size(pp.len() / 3, mp.len() / 3, d),
{
    lemma_body_honest(st, m, link, pp, mp, key, nonce, d, j, Seq::empty());
}

/// Recover then pin: on what an honest wrap wrote, the recovered key is the
/// signer's public key, the key that the verifying unwrap accepts, and both
/// unwraps return the same payloads.
pub proof fn lemma_recover_then_pin(
    st: SpongeModel,
    m: Seq<i8>,
    link: SpongeModel,
    pp: Seq<i8>,
    mp: Seq<i8>,
    key: Seq<i8>,
    nonce: Seq<i8>,
    d: nat,
    j: nat,
    rest: Seq<i8>,
)
    requires
        model_wf(st),
        model_wf(link),
        m.len() == MSGID_SIZE,
        valid(m),
        trytes_ok(pp),
        trytes_ok(mp),
        valid(key),
        valid(nonce),
        d <= crate::mss::MAX_DEPTH,
        j < pow2(d),
    ensures
        ({
            let input = packet_wire(st, m, link, pp, mp, key, nonce, d, j) + rest;
            let n = packet_wire(st, m, link, pp, mp, key, nonce, d, j).len();
            &&& packet_recover(Some(link), st, input) == Ok::<(Seq<i8>, Seq<i8>, Seq<i8>, nat), Error>(
                (node(key, nonce, d, 1), pp, mp, n),
            )
            &&& packet_verify(Some(link), packet_recover(Some(link), st, input).unwrap().0, st, input)
                == Ok::<(Seq<i8>, Seq<i8>, nat), Error>((pp, mp, n))
        }),
{
    lemma_body_honest(st, m, link, pp, mp, key, nonce, d, j, rest);
    lemma_sign_recover(key, nonce, d, j, packet_hash(st, m, link, pp, mp), rest);
}

/// An unresolved link fails both unwraps with `UnresolvedLink` once the
/// message id has been read.
pub proof fn lemma_unresolved_link(pk: Seq<i8>, st: SpongeModel, input: Seq<i8>)
    requires
        input.len() >= MSGID_SIZE,
    ensures
        packet_verify(None, pk, st, input) == Err::<(Seq<i8>, Seq<i8>, nat), Error>(Error::UnresolvedLink),
        packet_recover(None, st, input) == Err::<(Seq<i8>, Seq<i8>, Seq<i8>, nat), Error>(Error::UnresolvedLink),
{
}

} // verus!
