use mam::ids::MsgId;
use mam::mss;
use mam::pb3::{Error, TritSlice, TritSliceMut, Trytes};
use mam::signed_packet;
use mam::spongos::Spongos;
use mam::trits::Trits;

struct Fixture {
    sk: mss::PrivateKey,
    msgid: MsgId,
    public_payload: Trytes,
    masked_payload: Trytes,
}

fn fixture(d: usize) -> Fixture {
    let mss_nonce = Trits::from_str("MSSNONCE").unwrap();
    let prng = mss::dbg_init_str("PRNGKEY").unwrap();
    let sk = mss::PrivateKey::gen(&prng, &mss_nonce, d);
    let msgid = MsgId { id: Trits::cycle_str(81, "MSGID").unwrap() };
    let public_payload = Trytes(Trits::cycle_str(555, "PUBLIC9PAYLOAD").unwrap());
    let masked_payload = Trytes(Trits::cycle_str(444, "MASKED9PAYLOAD").unwrap());
    Fixture { sk, msgid, public_payload, masked_payload }
}

fn wrap_fixture(f: &Fixture) -> Trits {
    let n = signed_packet::sizeof(f.public_payload.size() / 3, f.masked_payload.size() / 3, &f.sk);
    let mut b = TritSliceMut::new(n);
    let mut s = Spongos::init();
    let mut slink = Spongos::init();
    signed_packet::wrap(&f.msgid, &mut slink, &f.public_payload, &f.masked_payload, &f.sk, &mut s, &mut b);
    assert_eq!(0, b.size());
    b.into_trits()
}

fn flip(t: &mut Trits, i: usize) {
    t.t[i] = if t.t[i] == 1 { -1 } else { t.t[i] + 1 };
}

#[test]
fn wrap_unwrap() {
    // secrets, nonces
    let mss_nonce = Trits::from_str("MSSNONCE").unwrap();

    // secret objects
    let prng = mss::dbg_init_str("PRNGKEY").unwrap();
    let d = 2;
    let mss_sk = mss::PrivateKey::gen(&prng, &mss_nonce, d);
    // data objects
    let msgid = MsgId { id: Trits::cycle_str(81, "MSGID").unwrap() };
    let public_payload = Trytes(Trits::cycle_str(555, "PUBLIC9PAYLOAD").unwrap());
    let masked_payload = Trytes(Trits::cycle_str(444, "MASKED9PAYLOAD").unwrap());

    // message
    let n = signed_packet::sizeof(public_payload.size() / 3, masked_payload.size() / 3, &mss_sk);
    let buf;

    // wrap
    {
        let mut s = Spongos::init();
        let mut b = TritSliceMut::new(n);
        let mut slink = Spongos::init();
        signed_packet::wrap(&msgid, &mut slink, &public_payload, &masked_payload, &mss_sk, &mut s, &mut b);
        assert_eq!(0, b.size());
        buf = b.into_trits();
    }

    // unwrap
    {
        let mut s = Spongos::init();
        let mut b = TritSlice::new(buf);
        let slink = Spongos::init();
        let r = signed_packet::unwrap_verify(
            |m: MsgId| {
                if m == msgid {
                    Some(slink.clone())
                } else {
                    None
                }
            },
            mss_sk.public_key(),
            &mut s,
            &mut b,
        );
        assert_eq!(0, b.size());
        assert!(r == Ok((public_payload, masked_payload)));
    }
}

#[test]
fn sizeof_exact_value() {
    let f = fixture(2);
    let n = signed_packet::sizeof(185, 148, &f.sk);
    // msgid + (size + public) + (size + masked) + (skn + wots + 2 nodes)
    assert_eq!(n, 81 + (18 + 555) + (18 + 444) + (18 + 6561 + 2 * 243));
    assert_eq!(n, 8181);
    let buf = wrap_fixture(&f);
    assert_eq!(buf.size(), n);
}

#[test]
fn masked_payload_is_not_in_clear() {
    let f = fixture(1);
    let buf = wrap_fixture(&f);
    // the public payload stands in clear after the msgid and its size field
    assert_eq!(&buf.t[81 + 18..81 + 18 + 555], &f.public_payload.0.t[..]);
    let start = 81 + 18 + 555 + 18;
    assert_ne!(&buf.t[start..start + 444], &f.masked_payload.0.t[..]);
}

#[test]
fn recover_then_pin() {
    let f = fixture(2);
    let buf = wrap_fixture(&f);
    let mut s = Spongos::init();
    let mut b = TritSlice::new(buf.clone());
    let r = signed_packet::unwrap_recover(|_m: MsgId| Some(Spongos::init()), &mut s, &mut b);
    assert_eq!(0, b.size());
    let (pk, pp, mp) = r.unwrap();
    assert!(pk == *f.sk.public_key());
    assert!(pp == f.public_payload);
    assert!(mp == f.masked_payload);
    let mut s = Spongos::init();
    let mut b = TritSlice::new(buf);
    let v = signed_packet::unwrap_verify(|_m: MsgId| Some(Spongos::init()), &pk, &mut s, &mut b);
    assert!(v == Ok((f.public_payload.clone(), f.masked_payload.clone())));
}

#[test]
fn unresolved_link() {
    let f = fixture(1);
    let buf = wrap_fixture(&f);
    let mut s = Spongos::init();
    let mut b = TritSlice::new(buf.clone());
    let r = signed_packet::unwrap_verify(|_m: MsgId| None, f.sk.public_key(), &mut s, &mut b);
    assert!(r == Err(Error::UnresolvedLink));
    let mut s = Spongos::init();
    let mut b = TritSlice::new(buf);
    let r = signed_packet::unwrap_recover(|_m: MsgId| None, &mut s, &mut b);
    assert!(r.is_err());
    assert!(r.err() == Some(Error::UnresolvedLink));
}

#[test]
fn tampered_signature_is_rejected() {
    let f = fixture(2);
    let buf = wrap_fixture(&f);
    let sig_start = 81 + 18 + 555 + 18 + 444;
    // one trit of the leaf index, one of the one-time signature, one of the path
    for i in [sig_start + 6, sig_start + 18, sig_start + 18 + 3000, sig_start + 18 + 6561 + 5, buf.size() - 1] {
        let mut t = buf.clone();
        flip(&mut t, i);
        let mut s = Spongos::init();
        let mut b = TritSlice::new(t);
        let r = signed_packet::unwrap_verify(|_m: MsgId| Some(Spongos::init()), f.sk.public_key(), &mut s, &mut b);
        assert!(r == Err(Error::SignatureInvalid), "flip at {}", i);
    }
}

#[test]
fn tampered_payload_is_rejected() {
    let f = fixture(1);
    let buf = wrap_fixture(&f);
    for i in [0, 81 + 18 + 7, 81 + 18 + 555 + 18 + 100] {
        let mut t = buf.clone();
        flip(&mut t, i);
        let mut s = Spongos::init();
        let mut b = TritSlice::new(t);
        let r = signed_packet::unwrap_verify(|_m: MsgId| Some(Spongos::init()), f.sk.public_key(), &mut s, &mut b);
        assert!(r.is_err(), "flip at {}", i);
    }
}

#[test]
fn truncated_buffer_is_eof() {
    let f = fixture(1);
    let buf = wrap_fixture(&f);
    for len in [0, 80, 81 + 10, 81 + 18 + 100, buf.size() - 1] {
        let t = Trits { t: buf.t[..len].to_vec() };
        let mut s = Spongos::init();
        let mut b = TritSlice::new(t);
        let r = signed_packet::unwrap_verify(|_m: MsgId| Some(Spongos::init()), f.sk.public_key(), &mut s, &mut b);
        assert!(r == Err(Error::Eof), "length {}", len);
    }
}

#[test]
fn malformed_depth_is_rejected() {
    let f = fixture(1);
    let mut buf = wrap_fixture(&f);
    let sig_start = 81 + 18 + 555 + 18 + 444;
    // depth 1 + 2 * 243 = 487: beyond the deepest tree
    buf.t[sig_start + 5] = -1;
    let mut s = Spongos::init();
    let mut b = TritSlice::new(buf);
    let r = signed_packet::unwrap_verify(|_m: MsgId| Some(Spongos::init()), f.sk.public_key(), &mut s, &mut b);
    assert!(r == Err(Error::MalformedValue));
}
