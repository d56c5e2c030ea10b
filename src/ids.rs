//! Channel and message identifiers, and the `join` command that binds a
//! message to the sponge state of the message it links to.
use vstd::prelude::*;
use crate::pb3::{Absorb, AbsorbExternal, Error, TritSlice, TritSliceMut};
use crate::spongos::{
    Spongos, SpongeModel, absorb_seq, commit_model, squeeze_out,
};
use crate::trits::{Trits, valid};

verus! {

pub const APPINST_SIZE: usize = 243;

pub const MSGID_SIZE: usize = 81;

/// Trits squeezed from a linked state and absorbed by `join`.
pub const JOIN_SIZE: usize = 243;

/// A channel identifier.
#[derive(Clone, Debug, PartialEq, Eq, Hash)]
pub struct AppInst {
    pub id: Trits,
}

/// A message identifier: a lookup key for linked messages.
#[derive(Clone, Debug, PartialEq, Eq, Hash)]
pub struct MsgId {
    pub id: Trits,
}

impl MsgId {
    /// A message identifier made of exactly `MSGID_SIZE` trits.
    pub fn new(id: Trits) -> (r: Option<MsgId>)
        ensures
            r is Some <==> id@.len() == MSGID_SIZE,
            r matches Some(m) ==> m.id == id,
    {
        if id.t.len() == MSGID_SIZE {
            Some(MsgId { id })
        } else {
            None
        }
    }
}

impl Absorb for MsgId {
    open spec fn value(&self) -> Seq<i8> {
        self.id@
    }

    open spec fn admits(v: Seq<i8>) -> bool {
        v.len() == MSGID_SIZE && valid(v)
    }

    open spec fn wire(v: Seq<i8>) -> Seq<i8> {
        v
    }

    open spec fn parse(input: Seq<i8>) -> Option<Seq<i8>> {
        if input.len() < MSGID_SIZE {
            None
        } else {
            Some(input.take(MSGID_SIZE as int))
        }
    }

    proof fn lemma_parse_wire(v: Seq<i8>, rest: Seq<i8>) {
        assert((v + rest).take(MSGID_SIZE as int) =~= v);
    }

    fn wrap_absorb(&self, s: &mut Spongos, b: &mut TritSliceMut) {
        s.absorb(&self.id.t);
        b.put(&self.id.t);
    }

    fn unwrap_absorb_sized(s: &mut Spongos, b: &mut TritSlice) -> (r: Result<MsgId, Error>) {
        if b.size() < MSGID_SIZE {
            return Err(Error::Eof);
        }
        let t = b.take(MSGID_SIZE);
        s.absorb(&t);
        Ok(MsgId { id: Trits { t } })
    }
}

impl AbsorbExternal for AppInst {
    open spec fn external(&self) -> Seq<i8> {
        self.id@
    }

    fn slice(&self) -> (r: &Vec<i8>) {
        &self.id.t
    }

    fn wrap_absorb_external(&self, s: &mut Spongos) {
        s.absorb(self.slice());
    }

    fn unwrap_absorb_external(&self, s: &mut Spongos) {
        s.absorb(self.slice());
    }
}

/// The state after joining `st` to the state `link` of a linked message:
/// the committed link is squeezed, the digest absorbed, and `st` committed.
pub open spec fn join_model(st: SpongeModel, link: SpongeModel) -> SpongeModel {
    commit_model(absorb_seq(st, squeeze_out(commit_model(link), JOIN_SIZE as nat)))
}

/// Joins `s` to `link`: `link` is committed in place and a fork of it is squeezed.
pub fn join(s: &mut Spongos, link: &mut Spongos)
    requires
        old(s).wf(),
        old(link).wf(),
    ensures
        final(s)@ == join_model(old(s)@, old(link)@),
        final(link)@ == commit_model(old(link)@),
        final(s).wf(),
        final(link).wf(),
{
    link.commit();
    let mut f = link.fork();
    let j = f.squeeze(JOIN_SIZE);
    s.absorb(&j);
    s.commit();
}

} // verus!
