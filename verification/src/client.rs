//! Connection resilience for the client side: watches for connection loss
//! and decides when to reconnect, while the registry — replicas and queued
//! updates alike — survives every drop and reconnect untouched.

use vstd::prelude::*;

use crate::registry::ClientRegistry;
use crate::registry::EnvelopeOutcome;

verus! {

/// Whether the client currently holds a live connection.
#[derive(Debug, PartialEq, Eq, Structural)]
pub enum ConnState {
    Connected,
    /// The connection was lost; a reconnect is scheduled.
    Waiting,
}

/// What the surrounding transport code must do next.
#[derive(Debug, PartialEq, Eq, Structural)]
pub enum ClientAction {
    /// Arm a timer for this many milliseconds, then report it fired.
    ScheduleReconnect(u64),
    /// Open a fresh connection to the same target and attach this client's
    /// message and error handlers to it.
    Reopen,
}

/// A client endpoint: one registry plus the reconnect discipline for its
/// connection. Transport code feeds it inbound messages, connection-loss
/// signals, and timer expiries; it never performs I/O itself.
pub struct SignalClient {
    pub registry: ClientRegistry,
    pub conn: ConnState,
    pub retry_delay_ms: u64,
}

impl SignalClient {
    pub open spec fn wf(self) -> bool {
        self.registry.wf()
    }

    /// A fresh client: empty registry, live connection.
    pub fn new(retry_delay_ms: u64) -> (c: Self)
        ensures
            c.wf(),
            c.registry.replicas_map() == Map::<Seq<u8>, crate::value::JsonModel>::empty(),
            c.registry.delayed_map() == Map::<
                Seq<u8>,
                Seq<Seq<crate::patch::OpModel>>,
            >::empty(),
            c.conn is Connected,
            c.retry_delay_ms == retry_delay_ms,
    {
        SignalClient { registry: ClientRegistry::new(), conn: ConnState::Connected, retry_delay_ms }
    }

    /// Handles one inbound message by delegating to the registry; the
    /// connection state is untouched.
    pub fn on_message(&mut self, bytes: &Vec<u8>) -> (r: EnvelopeOutcome)
        requires
            old(self).wf(),
        ensures
            final(self).wf(),
            final(self).conn == old(self).conn,
            final(self).retry_delay_ms == old(self).retry_delay_ms,
            ({
                let r0 = old(self).registry;
                let r1 = final(self).registry;
                match r {
                    EnvelopeOutcome::DecodeFailed => {
                        &&& crate::codec::spec_dec_envelope(bytes@) is None
                        &&& r1.replicas_map() == r0.replicas_map()
                        &&& r1.delayed_map() == r0.delayed_map()
                    },
                    EnvelopeOutcome::Applied => {
                        &&& crate::codec::spec_dec_envelope(bytes@) matches Some(env) && {
                            &&& r0.replicas_map().contains_key(env.0)
                            &&& crate::patch::spec_apply_patch(
                                r0.replicas_map().index(env.0),
                                env.1,
                            ) matches Some(m2) && r1.replicas_map() == r0.replicas_map().insert(
                                env.0,
                                m2,
                            )
                        }
                        &&& r1.delayed_map() == r0.delayed_map()
                    },
                    EnvelopeOutcome::ApplyFailed => {
                        &&& crate::codec::spec_dec_envelope(bytes@) matches Some(env) && {
                            &&& r0.replicas_map().contains_key(env.0)
                            &&& crate::patch::spec_apply_patch(
                                r0.replicas_map().index(env.0),
                                env.1,
                            ) is None
                        }
                        &&& r1.replicas_map() == r0.replicas_map()
                        &&& r1.delayed_map() == r0.delayed_map()
                    },
                    EnvelopeOutcome::Queued => {
                        &&& crate::codec::spec_dec_envelope(bytes@) matches Some(env) && {
                            &&& !r0.replicas_map().contains_key(env.0)
                            &&& r1.delayed_map() == r0.delayed_map().insert(
                                env.0,
                                r0.queued(env.0).push(env.1),
                            )
                        }
                        &&& r1.replicas_map() == r0.replicas_map()
                    },
                }
            }),
    {
        self.registry.on_envelope(bytes)
    }

    /// Reacts to a connection-loss signal: the client enters the waiting
    /// state and asks the transport to schedule a reconnect after the
    /// configured delay. Replicas and queued updates are untouched.
    pub fn on_connection_error(&mut self) -> (a: ClientAction)
        ensures
            final(self).registry == old(self).registry,
            final(self).retry_delay_ms == old(self).retry_delay_ms,
            final(self).conn is Waiting,
            a == ClientAction::ScheduleReconnect(old(self).retry_delay_ms),
    {
        self.conn = ConnState::Waiting;
        ClientAction::ScheduleReconnect(self.retry_delay_ms)
    }

    /// Reacts to the reconnect timer firing: the client counts as connected
    /// again and asks the transport to open a fresh connection and rewire
    /// the handlers. Replicas and queued updates are untouched.
    pub fn on_reconnect_timeout(&mut self) -> (a: ClientAction)
        ensures
            final(self).registry == old(self).registry,
            final(self).retry_delay_ms == old(self).retry_delay_ms,
            final(self).conn is Connected,
            a == ClientAction::Reopen,
    {
        self.conn = ConnState::Connected;
        ClientAction::Reopen
    }
}

/// Reconnection preserves synchronization state: after a connection drop
/// and the reconnect that follows, the registry — every registered replica
/// and every queued update — is exactly what it was before the drop.
pub proof fn lemma_reconnect_preserves_registry(
    before: SignalClient,
    lost: SignalClient,
    after: SignalClient,
)
    requires
        lost.registry == before.registry,
        after.registry == lost.registry,
    ensures
        after.registry.replicas_map() == before.registry.replicas_map(),
        after.registry.delayed_map() == before.registry.delayed_map(),
{
}

} // verus!