//! The server-side channel: owns one live snapshot, and on every mutation
//! emits exactly one update envelope carrying the diff against the previous
//! snapshot, in mutation order.

use vstd::prelude::*;

use crate::codec::enc_envelope;
use crate::codec::enc_val;
use crate::codec::encode_val;
use crate::envelope::ServerSignalUpdate;
use crate::patch::OpModel;
use crate::patch::lemma_apply_patches_push;
use crate::patch::spec_apply_patches;
use crate::patch::spec_diff;
use crate::value::JsonModel;
use crate::value::JsonValue;
use crate::value::clone_bytes;
use crate::value::clone_value;

verus! {

/// A server channel error.
#[derive(Debug)]
pub enum Error {
    /// The connection was reported closed; the mutation was refused.
    ConnectionClosed,
}

/// A signal owned by the server. Each mutation updates the in-memory
/// snapshot first and hands back the encoded envelope to write, so a reader
/// of the channel never observes a stale value after `with` returns.
///
/// The ghost `history` records the patch of every envelope emitted so far,
/// in order; the invariant [`ServerSignal::inv`] states that replaying that
/// history over the initial snapshot yields the current snapshot — so a
/// replica that applies the emitted envelopes in order tracks this channel
/// exactly.
pub struct ServerSignal {
    pub name: Vec<u8>,
    pub value: JsonValue,
    pub closed: bool,
    pub init: Ghost<JsonModel>,
    pub history: Ghost<Seq<Seq<OpModel>>>,
}

impl ServerSignal {
    /// Replaying the emitted history over the initial snapshot yields the
    /// current snapshot.
    pub open spec fn inv(self) -> bool {
        spec_apply_patches(self.init@, self.history@) == Some(self.value@)
    }

    pub open spec fn spec_name(self) -> Seq<u8> {
        self.name@
    }

    pub open spec fn spec_value(self) -> JsonModel {
        self.value@
    }

    pub open spec fn spec_closed(self) -> bool {
        self.closed
    }

    pub open spec fn spec_init(self) -> JsonModel {
        self.init@
    }

    pub open spec fn spec_history(self) -> Seq<Seq<OpModel>> {
        self.history@
    }

    /// Creates a channel holding `initial` as its snapshot, with nothing
    /// emitted yet.
    pub fn new(name: Vec<u8>, initial: JsonValue) -> (s: Self)
        ensures
            s.inv(),
            s.spec_name() == name@,
            s.spec_value() == initial@,
            s.spec_init() == initial@,
            s.spec_history() == Seq::<Seq<OpModel>>::empty(),
            !s.spec_closed(),
    {
        let ghost iv = initial@;
        ServerSignal {
            name,
            value: initial,
            closed: false,
            init: Ghost(iv),
            history: Ghost(Seq::empty()),
        }
    }

    /// The current snapshot, for a concurrent reader on the owning side.
    pub fn current_value(&self) -> (r: &JsonValue)
        ensures
            r@ == self.spec_value(),
    {
        &self.value
    }

    /// Mutates the snapshot to `new_value` and returns the encoded envelope
    /// to write to the connection: the diff from the previous snapshot,
    /// under this channel's name. The snapshot is updated before the caller
    /// can attempt the write. On a closed channel the mutation is refused
    /// and nothing changes.
    ///
    /// If the write later fails, the snapshot is not rolled back: the
    /// caller reports the failure with [`ServerSignal::close`] and stops
    /// mutating.
    pub fn with(&mut self, new_value: JsonValue) -> (r: Result<Vec<u8>, Error>)
        requires
            old(self).inv(),
        ensures
            final(self).inv(),
            final(self).spec_name() == old(self).spec_name(),
            final(self).spec_init() == old(self).spec_init(),
            final(self).spec_closed() == old(self).spec_closed(),
            match r {
                Ok(bytes) => {
                    let d = spec_diff(old(self).spec_value(), new_value@);
                    &&& !old(self).spec_closed()
                    &&& final(self).spec_value() == new_value@
                    &&& final(self).spec_history() == old(self).spec_history().push(d)
                    &&& bytes@ == enc_envelope(old(self).spec_name(), d)
                    &&& crate::codec::spec_dec_envelope(bytes@) == Some(
                        (old(self).spec_name(), d),
                    )
                    &&& crate::patch::spec_apply_patch(old(self).spec_value(), d) == Some(
                        new_value@,
                    )
                },
                Err(_) => {
                    &&& old(self).spec_closed()
                    &&& final(self).spec_value() == old(self).spec_value()
                    &&& final(self).spec_history() == old(self).spec_history()
                },
            },
    {
        if self.closed {
            return Err(Error::ConnectionClosed);
        }
        let update = ServerSignalUpdate::new(clone_bytes(&self.name), &self.value, &new_value);
        let bytes = update.encode();
        proof {
            lemma_apply_patches_push(
                self.init@,
                self.history@,
                spec_diff(self.value@, new_value@),
            );
        }
        let ghost h2 = self.history@.push(spec_diff(self.value@, new_value@));
        self.value = new_value;
        self.history = Ghost(h2);
        Ok(bytes)
    }

    /// Marks the underlying connection as closed; every later mutation is
    /// refused with [`Error::ConnectionClosed`].
    pub fn close(&mut self)
        requires
            old(self).inv(),
        ensures
            final(self).inv(),
            final(self).spec_closed(),
            final(self).spec_name() == old(self).spec_name(),
            final(self).spec_value() == old(self).spec_value(),
            final(self).spec_init() == old(self).spec_init(),
            final(self).spec_history() == old(self).spec_history(),
    {
        self.closed = true;
    }

    /// Consumes the channel, returning the current snapshot.
    pub fn into_value(self) -> (v: JsonValue)
        ensures
            v@ == self.spec_value(),
    {
        self.value
    }

    /// Consumes the channel, returning the current snapshot in its wire
    /// encoding.
    pub fn into_json_value(self) -> (out: Vec<u8>)
        ensures
            out@ == enc_val(self.spec_value()),
    {
        let mut out: Vec<u8> = Vec::new();
        encode_val(&self.value, &mut out);
        proof {
            assert(out@ =~= enc_val(self.value@));
        }
        out
    }
}

} // verus!