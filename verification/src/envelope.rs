//! The update envelope: the wire record pairing a channel name with the
//! encoded diff of one mutation.

use vstd::prelude::*;

use crate::codec::DecodeError;
use crate::codec::decode_envelope;
use crate::codec::enc_envelope;
use crate::codec::encode_envelope;
use crate::codec::lemma_envelope_round_trip;
use crate::codec::lemma_view_patch_bounded;
use crate::codec::lemma_pow256_8;
use crate::codec::spec_dec_envelope;
use crate::patch::Patch;
use crate::patch::diff;
use crate::patch::spec_apply_patch;
use crate::patch::spec_diff;
use crate::value::JsonValue;

verus! {

/// A server signal update: the channel name together with the patch that
/// carries one mutation's diff. This is what travels over the connection.
pub struct ServerSignalUpdate {
    pub name: Vec<u8>,
    pub patch: Patch,
}

impl View for ServerSignalUpdate {
    type V = (Seq<u8>, Seq<crate::patch::OpModel>);

    open spec fn view(&self) -> (Seq<u8>, Seq<crate::patch::OpModel>) {
        (self.name@, self.patch@)
    }
}

impl ServerSignalUpdate {
    /// Creates an update carrying the diff from `old_snap` to `new_snap`:
    /// applying its patch to `old_snap` yields exactly `new_snap`, and a
    /// snapshot diffed against itself yields an empty patch.
    pub fn new(name: Vec<u8>, old_snap: &JsonValue, new_snap: &JsonValue) -> (u: Self)
        ensures
            u@.0 == name@,
            u@.1 == spec_diff(old_snap@, new_snap@),
            spec_apply_patch(old_snap@, u@.1) == Some(new_snap@),
            old_snap@ == new_snap@ ==> u@.1 == Seq::<crate::patch::OpModel>::empty(),
    {
        ServerSignalUpdate { name, patch: diff(old_snap, new_snap) }
    }

    /// Serializes the update into its wire bytes.
    pub fn encode(&self) -> (out: Vec<u8>)
        ensures
            out@ == enc_envelope(self@.0, self@.1),
            spec_dec_envelope(out@) == Some((self@.0, self@.1)),
    {
        proof {
            lemma_update_round_trip(*self);
        }
        encode_envelope(&self.name, &self.patch)
    }

    /// Parses an update from wire bytes; fails exactly on input that is not
    /// a well-formed envelope, and never in any other way.
    pub fn decode(bytes: &Vec<u8>) -> (r: Result<Self, DecodeError>)
        ensures
            match r {
                Ok(u) => spec_dec_envelope(bytes@) == Some((u@.0, u@.1)),
                Err(_) => spec_dec_envelope(bytes@) is None,
            },
    {
        match decode_envelope(bytes) {
            Ok((name, patch)) => Ok(ServerSignalUpdate { name, patch }),
            Err(e) => Err(e),
        }
    }
}

/// Symmetry of the wire format: decoding the encoding of any in-memory
/// update yields that update's name and operations back, exactly.
pub proof fn lemma_update_round_trip(u: ServerSignalUpdate)
    ensures
        spec_dec_envelope(enc_envelope(u@.0, u@.1)) == Some((u@.0, u@.1)),
{
    lemma_pow256_8();
    vstd::std_specs::vec::axiom_spec_len(&u.name);
    lemma_view_patch_bounded(u.patch);
    lemma_envelope_round_trip(u.name@, u.patch@);
}

/// No two distinct updates share a wire encoding.
pub proof fn lemma_encoding_injective(u1: ServerSignalUpdate, u2: ServerSignalUpdate)
    requires
        enc_envelope(u1@.0, u1@.1) == enc_envelope(u2@.0, u2@.1),
    ensures
        u1@ == u2@,
{
    lemma_update_round_trip(u1);
    lemma_update_round_trip(u2);
}

} // verus!
