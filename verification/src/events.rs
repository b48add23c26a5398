//! The event bus: a keyed table of listeners plus a list of unkeyed
//! observers. Emission serializes the event once, then (a) schedules one
//! deferred delivery per listener registered for the key — emission never
//! waits for listener logic — and (b) notifies every observer synchronously
//! on the emitting thread, in registration order.
//!
//! Each listener decodes the payload independently inside its own deferred
//! delivery, so one listener's decode failure is isolated to that listener:
//! it never blocks delivery to other listeners or to observers.

use vstd::prelude::*;

use crate::text::str_eq;

verus! {

/// A typed event: a data shape that knows the wire key it is published
/// under. The author of the event type writes the key by hand.
pub trait Event {
    /// The wire key of this event type. A verified implementor overrides
    /// this to name its key; the default stands for implementors outside
    /// the verified world, which only provide `get_key`.
    open spec fn spec_key() -> Seq<char> {
        Seq::empty()
    }

    fn get_key() -> (r: &'static str)
        ensures
            r@ == Self::spec_key(),
    ;
}

/// The neutral event shape, for events that carry no payload.
pub struct EmptyEvent {
    dummy: Option<i32>,
}

impl EmptyEvent {
    /// An empty event carries nothing.
    pub closed spec fn carries_nothing(&self) -> bool {
        self.dummy is None
    }

    pub fn new() -> (r: EmptyEvent)
        ensures
            r.carries_nothing(),
    {
        EmptyEvent { dummy: None }
    }
}

/// Keyed event subscriber logic. `decodes` says which serialized payloads
/// it can decode, and `received` is the log of payloads delivered to it so
/// far, oldest first.
pub trait EventListener: Sized {
    /// Which serialized payloads the listener can decode. A verified
    /// implementor overrides this; the default stands for implementors
    /// outside the verified world, which only provide `deliver`.
    open spec fn decodes(&self, payload: Seq<char>) -> bool {
        false
    }

    /// The payloads delivered so far; overridden like `decodes`.
    open spec fn received(&self) -> Seq<Seq<char>> {
        Seq::empty()
    }

    /// Runs the listener on one serialized payload: a payload it can decode
    /// is recorded as delivered; one it cannot decode is dropped by this
    /// listener alone. Returns whether the decode succeeded.
    fn deliver(&mut self, payload: &str) -> (ok: bool)
        ensures
            ok == old(self).decodes(payload@),
            ok ==> final(self).received() == old(self).received().push(payload@),
            !ok ==> final(self).received() == old(self).received(),
    ;
}

/// Unkeyed observer logic, used to bridge emissions to transports without
/// the bus depending on any decoding type. `observed` is the log of
/// (key, payload) notifications seen so far, oldest first.
pub trait EventObserver: Sized {
    /// The notifications seen so far. A verified implementor overrides
    /// this; the default stands for implementors outside the verified
    /// world, which only provide `notify`.
    open spec fn observed(&self) -> Seq<(Seq<char>, Seq<char>)> {
        Seq::empty()
    }

    /// Notifies the observer of one emission, on the emitting thread.
    fn notify(&mut self, key: &str, payload: &str)
        ensures
            final(self).observed() == old(self).observed().push((key@, payload@)),
    ;
}

/// One keyed listener registration.
pub struct Listener<L> {
    pub key: String,
    pub handler: L,
}

/// One deferred delivery: the index of the listener it is addressed to and
/// the serialized payload.
pub struct PendingDelivery {
    pub listener: usize,
    pub payload: String,
}

/// The deferred deliveries one emission schedules against the first `n`
/// listeners: one per listener whose key matches, in registration order,
/// each carrying the listener's index and the payload.
pub open spec fn deliveries_for<L>(
    listeners: Seq<Listener<L>>,
    key: Seq<char>,
    payload: Seq<char>,
    n: int,
) -> Seq<(nat, Seq<char>)>
    decreases n,
{
    if n <= 0 {
        Seq::empty()
    } else {
        let rest = deliveries_for(listeners, key, payload, n - 1);
        if listeners[n - 1].key@ == key {
            rest.push((((n - 1) as nat), payload))
        } else {
            rest
        }
    }
}

/// The event bus. Listener execution is always deferred: `emit` only
/// schedules deliveries, and a worker drains them one at a time through
/// `run_pending`.
pub struct EventEmitter<L, O> {
    events: Vec<Listener<L>>,
    observers: Vec<O>,
    pending: Vec<PendingDelivery>,
}

impl<L, O> EventEmitter<L, O> {
    /// The keyed listeners, in registration order.
    pub closed spec fn listeners_seq(&self) -> Seq<Listener<L>> {
        self.events@
    }

    /// The observers, in registration order.
    pub closed spec fn observers_seq(&self) -> Seq<O> {
        self.observers@
    }

    /// The deferred deliveries not yet executed, oldest first, as
    /// (listener index, payload) pairs.
    pub closed spec fn pending_view(&self) -> Seq<(nat, Seq<char>)> {
        Seq::new(
            self.pending@.len(),
            |i: int| (self.pending@[i].listener as nat, self.pending@[i].payload@),
        )
    }

    /// Every deferred delivery is addressed to a registered listener.
    pub open spec fn wf(&self) -> bool {
        forall|p: int|
            0 <= p < self.pending_view().len() ==> #[trigger] self.pending_view()[p].0
                < self.listeners_seq().len()
    }

    pub fn new() -> (r: EventEmitter<L, O>)
        ensures
            r.wf(),
            r.listeners_seq() == Seq::<Listener<L>>::empty(),
            r.observers_seq() == Seq::<O>::empty(),
            r.pending_view() == Seq::<(nat, Seq<char>)>::empty(),
    {
        let r = EventEmitter { events: Vec::new(), observers: Vec::new(), pending: Vec::new() };
        proof {
            assert(r.pending_view() =~= Seq::<(nat, Seq<char>)>::empty());
        }
        r
    }

    /// Registers a listener for `key`. Multiple listeners may share a key;
    /// all of them fire on an emission, in registration order.
    pub fn add_raw_listener(&mut self, key: &str, handler: L)
        requires
            old(self).wf(),
        ensures
            final(self).wf(),
            final(self).observers_seq() == old(self).observers_seq(),
            final(self).pending_view() == old(self).pending_view(),
            final(self).listeners_seq().len() == old(self).listeners_seq().len() + 1,
            forall|j: int|
                0 <= j < old(self).listeners_seq().len()
                    ==> #[trigger] final(self).listeners_seq()[j] == old(self).listeners_seq()[j],
            final(self).listeners_seq()[old(self).listeners_seq().len() as int].key@ == key@,
            final(self).listeners_seq()[old(self).listeners_seq().len() as int].handler
                == handler,
    {
        self.events.push(Listener { key: key.to_owned(), handler });
        proof {
            assert(self.pending_view() =~= old(self).pending_view());
        }
    }

    /// Registers an unkeyed observer, invoked on every emission.
    pub fn add_raw_observer(&mut self, observer: O)
        requires
            old(self).wf(),
        ensures
            final(self).wf(),
            final(self).listeners_seq() == old(self).listeners_seq(),
            final(self).pending_view() == old(self).pending_view(),
            final(self).observers_seq() == old(self).observers_seq().push(observer),
    {
        self.observers.push(observer);
        proof {
            assert(self.pending_view() =~= old(self).pending_view());
        }
    }

    /// Schedules the keyed deliveries of one emission: one deferred
    /// delivery per listener registered for `key`, in registration order.
    /// No listener logic runs here.
    pub fn send_raw_event(&mut self, key: &str, event_data: &str)
        requires
            old(self).wf(),
        ensures
            final(self).wf(),
            final(self).listeners_seq() == old(self).listeners_seq(),
            final(self).observers_seq() == old(self).observers_seq(),
            final(self).pending_view() == old(self).pending_view() + deliveries_for(
                old(self).listeners_seq(),
                key@,
                event_data@,
                old(self).listeners_seq().len() as int,
            ),
    {
        let ghost pre = self.pending_view();
        let ghost listeners = self.listeners_seq();
        let mut i: usize = 0;
        while i < self.events.len()
            invariant
                i <= self.events.len(),
                listeners == self.listeners_seq(),
                old(self).wf(),
                self.events@ == old(self).events@,
                self.observers@ == old(self).observers@,
                self.pending_view() =~= pre + deliveries_for(
                    listeners,
                    key@,
                    event_data@,
                    i as int,
                ),
            decreases self.events.len() - i,
        {
            let ghost before = self.pending_view();
            if str_eq(self.events[i].key.as_str(), key) {
                self.pending.push(
                    PendingDelivery { listener: i, payload: event_data.to_owned() },
                );
                proof {
                    assert(self.pending_view() =~= before.push((i as nat, event_data@)));
                }
            }
            i = i + 1;
            proof {
                assert(self.pending_view() =~= pre + deliveries_for(
                    listeners,
                    key@,
                    event_data@,
                    i as int,
                ));
            }
        }
        proof {
            assert(self.wf()) by {
                assert forall|p: int|
                    0 <= p < self.pending_view().len() implies #[trigger] self.pending_view()[p].0
                    < self.listeners_seq().len() by {
                    if p < pre.len() {
                        assert(old(self).pending_view()[p].0 < old(self).listeners_seq().len());
                    } else {
                        lemma_deliveries_bounded(
                            listeners,
                            key@,
                            event_data@,
                            listeners.len() as int,
                        );
                    }
                }
            }
        }
    }

    /// How many deferred deliveries are waiting.
    pub fn pending_len(&self) -> (r: usize)
        ensures
            r == self.pending_view().len(),
    {
        self.pending.len()
    }

    /// How many listeners are registered.
    pub fn listener_count(&self) -> (r: usize)
        ensures
            r == self.listeners_seq().len(),
    {
        self.events.len()
    }

    /// The listener logic at position `i`, for inspection.
    pub fn listener_handler(&self, i: usize) -> (r: &L)
        requires
            i < self.listeners_seq().len(),
        ensures
            *r == self.listeners_seq()[i as int].handler,
    {
        &self.events[i].handler
    }

    /// How many observers are registered.
    pub fn observer_count(&self) -> (r: usize)
        ensures
            r == self.observers_seq().len(),
    {
        self.observers.len()
    }

    /// The observer at position `i`, for inspection.
    pub fn observer_at(&self, i: usize) -> (r: &O)
        requires
            i < self.observers_seq().len(),
        ensures
            *r == self.observers_seq()[i as int],
    {
        &self.observers[i]
    }
}

impl<L: EventListener, O> EventEmitter<L, O> {
    /// Executes one deferred delivery, oldest first. The decode happens
    /// inside the listener, so a failure is isolated: the rest of the
    /// queue, every other listener, and every observer are untouched
    /// whatever the outcome. Returns `None` when nothing was pending, else
    /// whether the listener decoded the payload.
    pub fn run_pending(&mut self) -> (r: Option<bool>)
        requires
            old(self).wf(),
        ensures
            final(self).wf(),
            final(self).observers_seq() == old(self).observers_seq(),
            old(self).pending_view().len() == 0 ==> r is None && final(self).listeners_seq()
                == old(self).listeners_seq() && final(self).pending_view() == old(
                self,
            ).pending_view(),
            old(self).pending_view().len() > 0 ==> {
                let target = old(self).pending_view()[0].0;
                let payload = old(self).pending_view()[0].1;
                let lh = old(self).listeners_seq()[target as int].handler;
                let fh = final(self).listeners_seq()[target as int].handler;
                &&& final(self).pending_view() == old(self).pending_view().drop_first()
                &&& final(self).listeners_seq().len() == old(self).listeners_seq().len()
                &&& forall|j: int|
                    0 <= j < old(self).listeners_seq().len() && j != target
                        ==> #[trigger] final(self).listeners_seq()[j] == old(
                        self,
                    ).listeners_seq()[j]
                &&& final(self).listeners_seq()[target as int].key == old(
                    self,
                ).listeners_seq()[target as int].key
                &&& r == Some(lh.decodes(payload))
                &&& (lh.decodes(payload) ==> fh.received() == lh.received().push(payload))
                &&& (!lh.decodes(payload) ==> fh.received() == lh.received())
            },
    {
        if self.pending.len() == 0 {
            proof {
                assert(self.pending_view() =~= old(self).pending_view());
            }
            return None;
        }
        let ghost pre_pending = self.pending_view();
        let delivery = self.pending.remove(0);
        proof {
            assert(pre_pending[0].0 < self.listeners_seq().len());
            assert(self.pending_view() =~= pre_pending.drop_first());
        }
        let target = delivery.listener;
        let listener = &mut self.events[target];
        let ok = listener.handler.deliver(delivery.payload.as_str());
        proof {
            assert(self.pending_view() =~= pre_pending.drop_first());
        }
        Some(ok)
    }
}

impl<L, O: EventObserver> EventEmitter<L, O> {
    /// Notifies every observer of one emission, synchronously and in
    /// registration order, on the calling thread.
    pub fn send_to_observers(&mut self, key: &str, event_data: &str)
        requires
            old(self).wf(),
        ensures
            final(self).wf(),
            final(self).listeners_seq() == old(self).listeners_seq(),
            final(self).pending_view() == old(self).pending_view(),
            final(self).observers_seq().len() == old(self).observers_seq().len(),
            forall|i: int|
                0 <= i < old(self).observers_seq().len() ==> #[trigger] final(self).observers_seq()[i].observed() == old(self).observers_seq()[i].observed().push(
                    (key@, event_data@),
                ),
    {
        let ghost pre = self.observers_seq();
        let mut i: usize = 0;
        while i < self.observers.len()
            invariant
                i <= self.observers@.len(),
                self.events@ == old(self).events@,
                self.pending@ == old(self).pending@,
                self.observers@.len() == pre.len(),
                pre == old(self).observers_seq(),
                forall|j: int|
                    0 <= j < i ==> #[trigger] self.observers@[j].observed()
                        == pre[j].observed().push((key@, event_data@)),
                forall|j: int| i <= j < pre.len() ==> #[trigger] self.observers@[j] == pre[j],
            decreases self.observers@.len() - i,
        {
            let observer = &mut self.observers[i];
            observer.notify(key, event_data);
            i = i + 1;
        }
        proof {
            assert(self.pending_view() =~= old(self).pending_view());
        }
    }

    /// Emits one event under `key` with its serialized payload: schedules
    /// one deferred delivery per listener registered for `key`, in
    /// registration order, then notifies every observer synchronously, in
    /// registration order, before returning.
    pub fn emit(&mut self, key: &str, event_data: &str)
        requires
            old(self).wf(),
        ensures
            final(self).wf(),
            final(self).listeners_seq() == old(self).listeners_seq(),
            final(self).pending_view() == old(self).pending_view() + deliveries_for(
                old(self).listeners_seq(),
                key@,
                event_data@,
                old(self).listeners_seq().len() as int,
            ),
            final(self).observers_seq().len() == old(self).observers_seq().len(),
            forall|i: int|
                0 <= i < old(self).observers_seq().len() ==> #[trigger] final(self).observers_seq()[i].observed() == old(self).observers_seq()[i].observed().push(
                    (key@, event_data@),
                ),
    {
        self.send_raw_event(key, event_data);
        self.send_to_observers(key, event_data);
    }
}

proof fn lemma_deliveries_bounded<L>(
    listeners: Seq<Listener<L>>,
    key: Seq<char>,
    payload: Seq<char>,
    n: int,
)
    requires
        n <= listeners.len(),
    ensures
        forall|d: int|
            0 <= d < deliveries_for(listeners, key, payload, n).len()
                ==> #[trigger] deliveries_for(listeners, key, payload, n)[d].0 < listeners.len(),
    decreases n,
{
    if n > 0 {
        lemma_deliveries_bounded(listeners, key, payload, n - 1);
        let prev = deliveries_for(listeners, key, payload, n - 1);
        let cur = deliveries_for(listeners, key, payload, n);
        assert forall|d: int| 0 <= d < cur.len() implies cur[d].0 < listeners.len() by {
            if listeners[n - 1].key@ == key {
                if d < prev.len() {
                    assert(cur[d] == prev[d]);
                } else {
                    assert(cur[d].0 == (n - 1) as nat);
                }
            } else {
                assert(cur[d] == prev[d]);
            }
        }
    }
}

/// Event fan-out: one emission schedules exactly the deliveries owed — each
/// scheduled delivery targets a listener registered for the key and carries
/// the emitted payload; every listener registered for the key is scheduled;
/// and deliveries come in registration order (strictly increasing listener
/// positions).
pub proof fn lemma_fanout_complete<L>(
    listeners: Seq<Listener<L>>,
    key: Seq<char>,
    payload: Seq<char>,
    n: int,
)
    requires
        0 <= n <= listeners.len(),
    ensures
        forall|d: int|
            0 <= d < deliveries_for(listeners, key, payload, n).len() ==> {
                let e = #[trigger] deliveries_for(listeners, key, payload, n)[d];
                &&& e.0 < n
                &&& listeners[e.0 as int].key@ == key
                &&& e.1 == payload
            },
        forall|j: int|
            0 <= j < n && listeners[j].key@ == key ==> exists|d: int|
                0 <= d < deliveries_for(listeners, key, payload, n).len()
                    && #[trigger] deliveries_for(listeners, key, payload, n)[d].0 == j,
        forall|d1: int, d2: int|
            0 <= d1 < d2 < deliveries_for(listeners, key, payload, n).len()
                ==> #[trigger] deliveries_for(listeners, key, payload, n)[d1].0
                < #[trigger] deliveries_for(listeners, key, payload, n)[d2].0,
    decreases n,
{
    if n > 0 {
        lemma_fanout_complete(listeners, key, payload, n - 1);
        let prev = deliveries_for(listeners, key, payload, n - 1);
        let cur = deliveries_for(listeners, key, payload, n);
        if listeners[n - 1].key@ == key {
            assert(cur == prev.push((((n - 1) as nat), payload)));
            assert forall|j: int|
                0 <= j < n && listeners[j].key@ == key implies exists|d: int|
                0 <= d < cur.len() && #[trigger] cur[d].0 == j by {
                if j == n - 1 {
                    assert(cur[cur.len() - 1].0 == j);
                } else {
                    let d = choose|d: int| 0 <= d < prev.len() && #[trigger] prev[d].0 == j;
                    assert(cur[d].0 == j);
                }
            }
        } else {
            assert(cur == prev);
        }
    }
}

/// The envelope a transport observer wraps an emission in before
/// broadcasting it to its subscribers: the key, and the payload as it was
/// serialized by the emitter.
pub struct EventToUi {
    pub key: String,
    pub data: String,
}

impl EventToUi {
    /// The wire form of the envelope. The payload is already a serialized
    /// object and is spliced in unquoted.
    pub fn to_wire(&self) -> (r: String)
        ensures
            r@ == "{\"key\":\""@ + self.key@ + "\", \"data\":"@ + self.data@ + "}"@,
    {
        let mut out = "{\"key\":\"".to_owned();
        out.append(self.key.as_str());
        out.append("\", \"data\":");
        out.append(self.data.as_str());
        out.append("}");
        out
    }
}

/// The restricted facade a transport adapter uses: raw event forwarding and
/// observer registration, without the bus's listener-registration API or
/// its concrete type. The facade owns the bus, so listener registration
/// finishes before the facade exists.
pub struct EventEmitterGate<L, O> {
    event_emitter: EventEmitter<L, O>,
}

impl<L, O> EventEmitterGate<L, O> {
    /// The bus behind the facade.
    pub closed spec fn inner(&self) -> EventEmitter<L, O> {
        self.event_emitter
    }

    pub fn new(event_emitter: EventEmitter<L, O>) -> (r: EventEmitterGate<L, O>)
        ensures
            r.inner() == event_emitter,
    {
        EventEmitterGate { event_emitter }
    }

    /// Hands the bus back, for the component that drains its deliveries.
    pub fn into_inner(self) -> (r: EventEmitter<L, O>)
        ensures
            r == self.inner(),
    {
        self.event_emitter
    }

    /// Forwards one raw inbound event to the keyed listeners; see
    /// [`EventEmitter::send_raw_event`].
    pub fn send_raw_event(&mut self, key: &str, event_data: &str)
        requires
            old(self).inner().wf(),
        ensures
            final(self).inner().wf(),
            final(self).inner().listeners_seq() == old(self).inner().listeners_seq(),
            final(self).inner().observers_seq() == old(self).inner().observers_seq(),
            final(self).inner().pending_view() == old(self).inner().pending_view()
                + deliveries_for(
                old(self).inner().listeners_seq(),
                key@,
                event_data@,
                old(self).inner().listeners_seq().len() as int,
            ),
    {
        self.event_emitter.send_raw_event(key, event_data);
    }

    /// Registers a transport observer; see [`EventEmitter::add_raw_observer`].
    pub fn add_raw_observer(&mut self, observer: O)
        requires
            old(self).inner().wf(),
        ensures
            final(self).inner().wf(),
            final(self).inner().listeners_seq() == old(self).inner().listeners_seq(),
            final(self).inner().pending_view() == old(self).inner().pending_view(),
            final(self).inner().observers_seq() == old(self).inner().observers_seq().push(
                observer,
            ),
    {
        self.event_emitter.add_raw_observer(observer);
    }
}

} // verus!
