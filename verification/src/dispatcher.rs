//! The dispatcher: sole owner of the client registry. It consumes one event
//! at a time, mutates the registry, and decides the fan-out writes and
//! socket shutdowns that the surrounding process performs.

use vstd::prelude::*;
use crate::event::Action;
use crate::event::Addr;
use crate::event::Event;

verus! {

/// No address appears twice: the registry's invariant.
pub open spec fn unique(reg: Seq<Addr>) -> bool {
    forall|i: int, j: int| 0 <= i < j < reg.len() ==> reg[i] != reg[j]
}

/// The entries of `reg` whose address differs from `a`, in registry order.
/// This is both what a broadcast from `a` reaches and what removing `a`
/// leaves behind.
pub open spec fn others(reg: Seq<Addr>, a: Addr) -> Seq<Addr>
    decreases reg.len(),
{
    if reg.len() == 0 {
        reg
    } else if reg.last() == a {
        others(reg.drop_last(), a)
    } else {
        others(reg.drop_last(), a).push(reg.last())
    }
}

/// How one event transforms the registry: a connect inserts an address not
/// yet present, a received payload leaves the registry alone, a disconnect
/// removes every entry with the departing address.
pub open spec fn step(reg: Seq<Addr>, e: Event) -> Seq<Addr> {
    match e {
        Event::Connected(a) => if reg.contains(a) {
            reg
        } else {
            reg.push(a)
        },
        Event::Received(_, _) => reg,
        Event::Disconnected(a) => others(reg, a),
    }
}

/// A broadcast from `a` reaches exactly the other registered clients: an
/// address is among `others(reg, a)` if and only if it is registered and is
/// not `a` itself.
pub proof fn lemma_others_membership(reg: Seq<Addr>, a: Addr)
    ensures
        forall|x: Addr| #[trigger] others(reg, a).contains(x) <==> reg.contains(x) && x != a,
    decreases reg.len(),
{
    if reg.len() > 0 {
        lemma_others_membership(reg.drop_last(), a);
        assert forall|x: Addr| reg.contains(x) && x != a implies #[trigger] others(
            reg,
            a,
        ).contains(x) by {
            let i = choose|i: int| 0 <= i < reg.len() && reg[i] == x;
            if i < reg.len() - 1 {
                assert(reg.drop_last()[i] == x);
                assert(reg.drop_last().contains(x));
                assert(others(reg.drop_last(), a).contains(x));
                let j = choose|j: int|
                    0 <= j < others(reg.drop_last(), a).len() && others(reg.drop_last(), a)[j]
                        == x;
                assert(others(reg, a)[j] == x);
            } else {
                assert(others(reg, a).last() == x);
            }
        }
        assert forall|x: Addr| #[trigger] others(reg, a).contains(x) implies reg.contains(x) && x
            != a by {
            let j = choose|j: int| 0 <= j < others(reg, a).len() && others(reg, a)[j] == x;
            if reg.last() != a && j == others(reg, a).len() - 1 {
                assert(reg.last() == x);
            } else {
                assert(others(reg.drop_last(), a)[j] == x);
                assert(others(reg.drop_last(), a).contains(x));
                let i = choose|i: int|
                    0 <= i < reg.drop_last().len() && reg.drop_last()[i] == x;
                assert(reg[i] == x);
            }
        }
    }
}

/// `others` keeps the registry's invariant: removing entries introduces no
/// duplicate.
pub proof fn lemma_others_unique(reg: Seq<Addr>, a: Addr)
    requires
        unique(reg),
    ensures
        unique(others(reg, a)),
    decreases reg.len(),
{
    if reg.len() > 0 {
        assert(unique(reg.drop_last()));
        lemma_others_unique(reg.drop_last(), a);
        if reg.last() != a {
            lemma_others_membership(reg.drop_last(), a);
            let out = others(reg.drop_last(), a).push(reg.last());
            assert forall|i: int, j: int| 0 <= i < j < out.len() implies out[i] != out[j] by {
                if j == out.len() - 1 {
                    assert(others(reg.drop_last(), a).contains(out[i]));
                    assert(reg.drop_last().contains(out[i]));
                    let k = choose|k: int|
                        0 <= k < reg.drop_last().len() && reg.drop_last()[k] == out[i];
                    assert(reg[k] == out[i]);
                    assert(reg[k] != reg.last());
                }
            }
        }
    }
}

/// Removing an address that is absent is a no-op on the registry.
pub proof fn lemma_others_absent_noop(reg: Seq<Addr>, a: Addr)
    requires
        !reg.contains(a),
    ensures
        others(reg, a) == reg,
    decreases reg.len(),
{
    if reg.len() > 0 {
        assert(reg.last() != a);
        assert forall|x: Addr| reg.drop_last().contains(x) implies reg.contains(x) by {
            let i = choose|i: int| 0 <= i < reg.drop_last().len() && reg.drop_last()[i] == x;
            assert(reg[i] == x);
        }
        lemma_others_absent_noop(reg.drop_last(), a);
        assert(others(reg, a) =~= reg);
    }
}

/// Removing an address twice is the same as removing it once: after the
/// first removal it is absent, so the second pass changes nothing.
pub proof fn lemma_others_idempotent(reg: Seq<Addr>, a: Addr)
    ensures
        others(others(reg, a), a) == others(reg, a),
{
    lemma_others_membership(reg, a);
    assert(!others(reg, a).contains(a));
    lemma_others_absent_noop(others(reg, a), a);
}

/// The registry reached by processing a whole history of events, one step
/// per event, starting from the empty registry.
pub open spec fn registry_after(events: Seq<Event>) -> Seq<Addr>
    decreases events.len(),
{
    if events.len() == 0 {
        Seq::empty()
    } else {
        step(registry_after(events.drop_last()), events.last())
    }
}

/// The addresses that a history leaves connected: those with a connect not
/// followed by a disconnect.
pub open spec fn live_addresses(events: Seq<Event>) -> Set<Addr>
    decreases events.len(),
{
    if events.len() == 0 {
        Set::empty()
    } else {
        let rest = live_addresses(events.drop_last());
        match events.last() {
            Event::Connected(a) => rest.insert(a),
            Event::Received(_, _) => rest,
            Event::Disconnected(a) => rest.remove(a),
        }
    }
}

/// After any history of events, the registry is exactly the set of
/// currently-connected, non-disconnected addresses: no duplicate entries,
/// and no stale entry for a cleanly-disconnected client.
pub proof fn lemma_registry_matches_history(events: Seq<Event>)
    ensures
        unique(registry_after(events)),
        registry_after(events).to_set() == live_addresses(events),
    decreases events.len(),
{
    broadcast use vstd::seq_lib::lemma_seq_contains_after_push;

    if events.len() > 0 {
        lemma_registry_matches_history(events.drop_last());
        let reg = registry_after(events.drop_last());
        match events.last() {
            Event::Connected(a) => {
                if reg.contains(a) {
                    assert(reg.to_set() =~= live_addresses(events));
                } else {
                    assert forall|i: int, j: int| 0 <= i < j < reg.push(a).len() implies reg.push(
                        a,
                    )[i] != reg.push(a)[j] by {
                        if j == reg.len() {
                            assert(reg.contains(reg[i]));
                        }
                    }
                    assert(reg.push(a).to_set() =~= live_addresses(events));
                }
            },
            Event::Received(_, _) => {},
            Event::Disconnected(a) => {
                lemma_others_unique(reg, a);
                lemma_others_membership(reg, a);
                assert(others(reg, a).to_set() =~= live_addresses(events));
            },
        }
    }
}

/// The payloads that reach the listener at `c` when a dispatcher holding
/// registry `reg` processes the received payloads `msgs` — each paired with
/// its sender's address — in channel order. Received events leave the
/// registry as it is, so one registry serves the whole run.
pub open spec fn deliveries_to(reg: Seq<Addr>, msgs: Seq<(Seq<u8>, Addr)>, c: Addr) -> Seq<
    Seq<u8>,
>
    decreases msgs.len(),
{
    if msgs.len() == 0 {
        Seq::empty()
    } else {
        let rest = deliveries_to(reg, msgs.drop_last(), c);
        if others(reg, msgs.last().1).contains(c) {
            rest.push(msgs.last().0)
        } else {
            rest
        }
    }
}

/// A registered client that sends none of the messages receives every one
/// of them, verbatim and in channel order: with several senders broadcasting
/// in turn, each listener receives exactly as many messages as were sent,
/// and each sender's own stream reaches it in the order sent.
pub proof fn lemma_listener_receives_all(reg: Seq<Addr>, msgs: Seq<(Seq<u8>, Addr)>, c: Addr)
    requires
        reg.contains(c),
        forall|i: int| 0 <= i < msgs.len() ==> (#[trigger] msgs[i]).1 != c,
    ensures
        deliveries_to(reg, msgs, c) == msgs.map_values(|m: (Seq<u8>, Addr)| m.0),
    decreases msgs.len(),
{
    if msgs.len() > 0 {
        assert forall|i: int| 0 <= i < msgs.drop_last().len() implies (#[trigger] msgs.drop_last(
        )[i]).1 != c by {
            assert(msgs.drop_last()[i] == msgs[i]);
        }
        lemma_listener_receives_all(reg, msgs.drop_last(), c);
        lemma_others_membership(reg, msgs.last().1);
        assert((msgs.last()).1 != c);
        assert(others(reg, msgs.last().1).contains(c));
        assert(deliveries_to(reg, msgs, c) =~= msgs.map_values(|m: (Seq<u8>, Addr)| m.0));
    } else {
        assert(deliveries_to(reg, msgs, c) =~= msgs.map_values(|m: (Seq<u8>, Addr)| m.0));
    }
}

/// An address absent from the registry — never connected, or removed by its
/// disconnect — is reached by no broadcast at all.
pub proof fn lemma_absent_receives_nothing(reg: Seq<Addr>, msgs: Seq<(Seq<u8>, Addr)>, c: Addr)
    requires
        !reg.contains(c),
    ensures
        deliveries_to(reg, msgs, c) == Seq::<Seq<u8>>::empty(),
    decreases msgs.len(),
{
    if msgs.len() > 0 {
        lemma_absent_receives_nothing(reg, msgs.drop_last(), c);
        lemma_others_membership(reg, msgs.last().1);
    }
}

/// The single consumer of the event channel. It holds the only reference to
/// the registry; no lock is needed because nothing else reads or writes it.
pub struct Dispatcher {
    clients: Vec<Addr>,
}

impl Dispatcher {
    /// The registry: the addresses of the currently-connected clients, in
    /// order of registration.
    pub closed spec fn registry(&self) -> Seq<Addr> {
        self.clients@
    }

    /// The registry holds at most one entry per distinct address.
    pub open spec fn wf(&self) -> bool {
        unique(self.registry())
    }

    /// A dispatcher starts with no client registered.
    pub fn new() -> (d: Dispatcher)
        ensures
            d.wf(),
            d.registry() == Seq::<Addr>::empty(),
    {
        Dispatcher { clients: Vec::new() }
    }

    /// Whether the client at `a` is currently registered.
    pub fn is_registered(&self, a: Addr) -> (r: bool)
        ensures
            r == self.registry().contains(a),
    {
        let n = self.clients.len();
        let mut i: usize = 0;
        while i < n
            invariant
                i <= n,
                n == self.registry().len(),
                forall|j: int| 0 <= j < i ==> self.registry()[j] != a,
            decreases n - i,
        {
            if self.clients[i] == a {
                return true;
            }
            i = i + 1;
        }
        false
    }

    /// The addresses a broadcast from `sender` must reach: every registered
    /// client other than the sender, in registry order.
    pub fn recipients(&self, sender: Addr) -> (r: Vec<Addr>)
        ensures
            r@ == others(self.registry(), sender),
    {
        let n = self.clients.len();
        let mut out: Vec<Addr> = Vec::new();
        let mut i: usize = 0;
        while i < n
            invariant
                i <= n,
                n == self.registry().len(),
                out@ == others(self.registry().take(i as int), sender),
            decreases n - i,
        {
            let ghost prefix = self.registry().take(i as int);
            proof {
                assert(self.registry().take(i + 1).drop_last() =~= prefix);
                assert(self.registry().take(i + 1).last() == self.registry()[i as int]);
            }
            if !(self.clients[i] == sender) {
                out.push(self.clients[i]);
            }
            i = i + 1;
        }
        proof {
            assert(self.registry().take(n as int) =~= self.registry());
        }
        out
    }

    /// Process one event, in receipt order, and hand back the action the
    /// caller must perform:
    /// - a connect registers the address, once;
    /// - a received payload is to be delivered verbatim to every other
    ///   registered client and never to its sender;
    /// - a disconnect removes the address, and asks for the socket to be
    ///   shut down.
    pub fn handle_event(&mut self, e: Event) -> (act: Action)
        requires
            old(self).wf(),
        ensures
            final(self).wf(),
            final(self).registry() == step(old(self).registry(), e),
            (e matches Event::Connected(_) ==> act is Idle),
            (e matches Event::Received(p, a) ==> act matches Action::Deliver {
                payload,
                recipients,
            } && payload@ == p@ && recipients@ == others(old(self).registry(), a)),
            (e matches Event::Disconnected(a) ==> act matches Action::Close { addr } && addr
                == a),
    {
        match e {
            Event::Connected(a) => {
                if !self.is_registered(a) {
                    self.clients.push(a);
                }
                Action::Idle
            },
            Event::Received(payload, a) => {
                let recipients = self.recipients(a);
                Action::Deliver { payload, recipients }
            },
            Event::Disconnected(a) => {
                let remaining = self.recipients(a);
                self.clients = remaining;
                proof {
                    lemma_others_unique(old(self).registry(), a);
                }
                Action::Close { addr: a }
            },
        }
    }
}

} // verus!
