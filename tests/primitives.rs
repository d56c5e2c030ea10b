use mam::ids::{AppInst, MsgId};
use mam::pb3::{self, Absorb, AbsorbExternal, Error, TritSlice, TritSliceMut, Trytes};
use mam::spongos::{self, Spongos};
use mam::trits::Trits;

#[test]
fn tryte_letters() {
    let t = Trits::from_str("9AMNZ").unwrap();
    assert_eq!(t.t, vec![0, 0, 0, 1, 0, 0, 1, 1, 1, -1, -1, -1, -1, 0, 0]);
    assert!(Trits::from_str("ab").is_none());
    assert!(Trits::cycle_str(4, "").is_none());
    assert_eq!(Trits::cycle_str(4, "A").unwrap().t, vec![1, 0, 0, 1]);
}

#[test]
fn oneof_tags() {
    assert_eq!(pb3::oneof(0).t, vec![0, 0, 0]);
    assert_eq!(pb3::oneof(1).t, vec![1, 0, 0]);
    assert_eq!(pb3::oneof(-13).t, vec![-1, -1, -1]);
    assert_eq!(pb3::oneof(5).t, vec![-1, -1, 1]);
    assert_eq!(pb3::sizeof_oneof(), 3);
}

#[test]
fn mask_unmask_round_trip() {
    let v = Trytes(Trits::cycle_str(30, "HELLO9WORLD").unwrap());
    let key = Trits::cycle_str(243, "SECRET").unwrap();
    let mut s = Spongos::init();
    s.absorb(&key.t);
    s.commit();
    let mut b = TritSliceMut::new(pb3::sizeof_trytes(10));
    v.wrap_mask(&mut s, &mut b);
    assert_eq!(b.size(), 0);
    let out = b.into_trits();
    assert_ne!(&out.t[18..], &v.0.t[..]);
    let mut s2 = Spongos::init();
    s2.absorb(&key.t);
    s2.commit();
    let mut r = TritSlice::new(out);
    let w = Trytes::unwrap_mask_sized(&mut s2, &mut r).unwrap();
    assert!(w == v);
    assert_eq!(s.s, s2.s);
    assert_eq!(s.pos, s2.pos);
}

#[test]
fn absorb_round_trip_and_eof() {
    let v = Trytes(Trits::cycle_str(9, "ABC").unwrap());
    let mut s = Spongos::init();
    let mut b = TritSliceMut::new(27);
    v.wrap_absorb(&mut s, &mut b);
    let out = b.into_trits();
    // size field: 3 trytes, written least significant digit first
    assert_eq!(&out.t[..3], &[0, 1, 0]);
    let mut s2 = Spongos::init();
    let mut r = TritSlice::new(out.clone());
    assert!(Trytes::unwrap_absorb_sized(&mut s2, &mut r).unwrap() == v);
    let short = Trits { t: out.t[..20].to_vec() };
    let mut r = TritSlice::new(short);
    assert!(Trytes::unwrap_absorb_sized(&mut Spongos::init(), &mut r) == Err(Error::Eof));
    let mut r = TritSlice::new(Trits::zero(80));
    assert!(MsgId::unwrap_absorb_sized(&mut Spongos::init(), &mut r) == Err(Error::Eof));
}

#[test]
fn absorb_external_changes_state_only() {
    let a = AppInst { id: Trits::cycle_str(243, "CHANNEL").unwrap() };
    let mut s = Spongos::init();
    a.wrap_absorb_external(&mut s);
    let mut s2 = Spongos::init();
    a.unwrap_absorb_external(&mut s2);
    assert_eq!(s.s, s2.s);
    assert_ne!(s.s, Spongos::init().s);
}

#[test]
fn hash_depends_on_input() {
    let x = Trits::cycle_str(50, "A").unwrap();
    let y = Trits::cycle_str(50, "B").unwrap();
    let hx = spongos::hash(&x.t, 81);
    assert_eq!(hx.len(), 81);
    assert_eq!(hx, spongos::hash(&x.t, 81));
    assert_ne!(hx, spongos::hash(&y.t, 81));
}

#[test]
fn msgid_hashes_by_content() {
    let mut set = std::collections::HashSet::new();
    set.insert(MsgId { id: Trits::cycle_str(81, "MSGID").unwrap() });
    assert!(set.contains(&MsgId { id: Trits::cycle_str(81, "MSGID").unwrap() }));
    assert!(!set.contains(&MsgId { id: Trits::cycle_str(81, "OTHER").unwrap() }));
    assert!(MsgId::new(Trits::zero(80)).is_none());
    assert!(MsgId::new(Trits::zero(81)).is_some());
}
