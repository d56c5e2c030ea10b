use mam::mss;
use mam::pb3::{TritSlice, TritSliceMut};
use mam::spongos::Spongos;
use mam::trits::Trits;

fn digest(seed: &str) -> Vec<i8> {
    let mut s = Spongos::init();
    s.absorb(&Trits::cycle_str(100, seed).unwrap().t);
    s.commit();
    s.squeeze(mss::HASH_SIZE)
}

#[test]
fn every_leaf_signs_and_verifies() {
    let nonce = Trits::from_str("NONCE").unwrap();
    let prng = mss::dbg_init_str("SEED").unwrap();
    for d in 0..4usize {
        let mut sk = mss::PrivateKey::gen(&prng, &nonce, d);
        let h = digest("MESSAGE");
        let mut leaves = 0;
        loop {
            let sig = sk.sign(&h);
            assert_eq!(sig.len(), mss::SKN_SIZE + mss::WOTS_SIZE + mss::NODE_SIZE * d);
            let path_len = sig.len() - mss::SKN_SIZE - mss::WOTS_SIZE;
            assert_eq!(path_len / mss::NODE_SIZE, d);
            let mut b = TritSlice::new(Trits { t: sig.clone() });
            assert!(mss::unwrap_verify_pk(sk.public_key(), &h, &mut b).is_ok());
            assert_eq!(b.size(), 0);
            let mut b = TritSlice::new(Trits { t: sig });
            let pk = mss::unwrap_recover_pk(&h, &mut b).unwrap();
            assert!(pk == *sk.public_key());
            leaves += 1;
            if !sk.next() {
                break;
            }
        }
        assert_eq!(leaves, 1usize << d);
    }
}

#[test]
fn signature_for_other_digest_fails() {
    let nonce = Trits::from_str("NONCE").unwrap();
    let prng = mss::dbg_init_str("SEED").unwrap();
    let sk = mss::PrivateKey::gen(&prng, &nonce, 1);
    let sig = sk.sign(&digest("ONE"));
    let mut b = TritSlice::new(Trits { t: sig });
    let r = mss::unwrap_verify_pk(sk.public_key(), &digest("TWO"), &mut b);
    assert!(r == Err(mam::pb3::Error::SignatureInvalid));
}

#[test]
fn sizeof_mssig_matches_signature() {
    let nonce = Trits::from_str("NONCE").unwrap();
    let prng = mss::dbg_init_str("SEED").unwrap();
    let sk = mss::PrivateKey::gen(&prng, &nonce, 3);
    assert_eq!(mss::sizeof_mssig(&sk), 18 + 6561 + 3 * 243);
    let mut w = TritSliceMut::new(mss::sizeof_mssig(&sk));
    w.put(&sk.sign(&digest("X")));
    assert_eq!(w.size(), 0);
}
