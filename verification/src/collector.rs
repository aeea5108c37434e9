//! The resource-link collector: a fan-out/fan-in aggregator that accepts
//! discovered URLs, keeps one reply slot per submission, lets workers
//! deliver in any completion order, and drains strictly in submission
//! order on finalization. The worker side — accumulating fetched chunks
//! into one terminal reply — lives here too.

use vstd::prelude::*;

verus! {

/// An order-preserving aggregator. Each submission opens one reply slot;
/// a worker fills its slot exactly once, in any order; finalization reads
/// the slots in submission order.
pub struct Collector<T> {
    urls: Vec<String>,
    slots: Vec<Option<T>>,
}

impl<T> Collector<T> {
    /// The submitted URLs, in discovery order.
    pub closed spec fn urls(&self) -> Seq<Seq<char>> {
        self.urls.deep_view()
    }

    /// One reply slot per submission, in discovery order.
    pub closed spec fn slots(&self) -> Seq<Option<T>> {
        self.slots@
    }

    pub open spec fn inv(&self) -> bool {
        self.urls().len() == self.slots().len()
    }

    pub open spec fn all_delivered(&self) -> bool {
        forall|i: int| 0 <= i < self.slots().len() ==> self.slots()[i] is Some
    }

    pub fn new() -> (c: Collector<T>)
        ensures
            c.inv(),
            c.urls() == Seq::<Seq<char>>::empty(),
            c.slots() == Seq::<Option<T>>::empty(),
    {
        let c = Collector { urls: Vec::new(), slots: Vec::new() };
        proof {
            assert(c.urls() =~= Seq::<Seq<char>>::empty());
        }
        c
    }

    /// Accept a discovered URL, opening an empty reply slot for its
    /// worker; the returned index names that slot. Never blocks.
    pub fn submit(&mut self, url: String) -> (idx: usize)
        requires
            old(self).inv(),
        ensures
            final(self).inv(),
            idx == old(self).urls().len(),
            final(self).urls() == old(self).urls().push(url@),
            final(self).slots() == old(self).slots().push(None::<T>),
    {
        let idx = self.urls.len();
        let ghost uv = url@;
        self.urls.push(url);
        self.slots.push(None);
        proof {
            assert(self.urls() =~= old(self).urls().push(uv));
            assert(self.slots() =~= old(self).slots().push(None::<T>));
        }
        idx
    }

    /// A worker's single terminal reply, delivered whenever it finishes —
    /// completion order is free.
    pub fn deliver(&mut self, idx: usize, item: T)
        requires
            old(self).inv(),
            idx < old(self).slots().len(),
            old(self).slots()[idx as int] is None,
        ensures
            final(self).inv(),
            final(self).urls() == old(self).urls(),
            final(self).slots() == old(self).slots().update(idx as int, Some(item)),
    {
        let slot = &mut self.slots[idx];
        *slot = Some(item);
    }

    /// Whether every dispatched worker has replied.
    pub fn all_done(&self) -> (r: bool)
        ensures
            r == self.all_delivered(),
    {
        let n = self.slots.len();
        let mut i: usize = 0;
        while i < n
            invariant
                i <= n,
                n == self.slots().len(),
                forall|j: int| 0 <= j < i ==> self.slots()[j] is Some,
            decreases n - i,
        {
            if self.slots[i].is_none() {
                return false;
            }
            i += 1;
        }
        true
    }

    /// Drain the reply slots strictly in submission order and concatenate
    /// them into the aggregate: the item at position `i` is the reply of
    /// the `i`-th submission, whatever order the workers completed in.
    pub fn finalize(self) -> (agg: Vec<T>)
        requires
            self.inv(),
            self.all_delivered(),
        ensures
            agg@.len() == self.slots().len(),
            forall|i: int| 0 <= i < agg@.len() ==> self.slots()[i] == Some(agg@[i]),
    {
        let ghost orig = self.slots();
        let mut slots = self.slots;
        let mut agg: Vec<T> = Vec::new();
        while slots.len() > 0
            invariant
                forall|i: int| 0 <= i < orig.len() ==> orig[i] is Some,
                agg@.len() + slots@.len() == orig.len(),
                forall|i: int| 0 <= i < agg@.len() ==> orig[i] == Some(agg@[i]),
                forall|j: int| 0 <= j < slots@.len() ==> slots@[j] == orig[agg@.len() + j],
            decreases slots.len(),
        {
            let ghost prev = slots@;
            let s = slots.remove(0);
            proof {
                assert forall|j: int| 0 <= j < slots@.len() implies slots@[j] == orig[agg@.len()
                    + 1 + j] by {
                    assert(slots@[j] == prev[j + 1]);
                }
            }
            match s {
                Some(x) => {
                    agg.push(x);
                },
                None => {
                    proof {
                        assert(false);
                    }
                },
            }
        }
        agg
    }
}


/// The slot state after a sequence of `(slot, item)` deliveries, applied
/// left to right.
pub open spec fn apply_deliveries<T>(slots: Seq<Option<T>>, ds: Seq<(int, T)>) -> Seq<Option<T>>
    decreases ds.len(),
{
    if ds.len() == 0 {
        slots
    } else {
        apply_deliveries(slots.update(ds[0].0, Some(ds[0].1)), ds.drop_first())
    }
}

/// Delivery order is immaterial: after any sequence of deliveries to
/// distinct slots, each delivered slot holds exactly its own item and
/// every other slot is untouched. With one delivery per submission this
/// pins the finalized aggregate to submission order `u1..uN`, whatever
/// order the workers completed in.
pub proof fn lemma_delivery_order_immaterial<T>(slots: Seq<Option<T>>, ds: Seq<(int, T)>)
    requires
        forall|j: int| 0 <= j < ds.len() ==> 0 <= (#[trigger] ds[j]).0 < slots.len(),
        forall|j1: int, j2: int| 0 <= j1 < j2 < ds.len() ==> ds[j1].0 != ds[j2].0,
    ensures
        apply_deliveries(slots, ds).len() == slots.len(),
        forall|j: int|
            0 <= j < ds.len() ==> apply_deliveries(slots, ds)[(#[trigger] ds[j]).0] == Some(
                ds[j].1,
            ),
        forall|i: int|
            0 <= i < slots.len() && (forall|j: int| 0 <= j < ds.len() ==> (#[trigger] ds[j]).0
                != i) ==> apply_deliveries(slots, ds)[i] == slots[i],
    decreases ds.len(),
{
    if ds.len() > 0 {
        let i0 = ds[0].0;
        let x0 = ds[0].1;
        let slots1 = slots.update(i0, Some(x0));
        let rest = ds.drop_first();
        assert forall|j: int| 0 <= j < rest.len() implies 0 <= (#[trigger] rest[j]).0
            < slots1.len() by {
            assert(rest[j] == ds[j + 1]);
        }
        assert forall|j1: int, j2: int| 0 <= j1 < j2 < rest.len() implies rest[j1].0
            != rest[j2].0 by {
            assert(rest[j1] == ds[j1 + 1]);
            assert(rest[j2] == ds[j2 + 1]);
        }
        lemma_delivery_order_immaterial(slots1, rest);
        assert forall|j: int| 0 <= j < rest.len() implies (#[trigger] rest[j]).0 != i0 by {
            assert(rest[j] == ds[j + 1]);
        }
        assert(apply_deliveries(slots, ds) == apply_deliveries(slots1, rest));
        assert(apply_deliveries(slots1, rest)[i0] == slots1[i0]);
        assert forall|j: int|
            0 <= j < ds.len() implies apply_deliveries(slots, ds)[(#[trigger] ds[j]).0] == Some(
            ds[j].1,
        ) by {
            if j > 0 {
                assert(ds[j] == rest[j - 1]);
            }
        }
        assert forall|i: int|
            0 <= i < slots.len() && (forall|j: int| 0 <= j < ds.len() ==> (#[trigger] ds[j]).0
                != i) implies apply_deliveries(slots, ds)[i] == slots[i] by {
            assert(ds[0].0 != i);
            assert forall|j: int| 0 <= j < rest.len() implies (#[trigger] rest[j]).0 != i by {
                assert(rest[j] == ds[j + 1]);
            }
            assert(apply_deliveries(slots1, rest)[i] == slots1[i]);
        }
    }
}

/// The concatenation of a sequence of sequences, in order.
pub open spec fn concat_model<T>(parts: Seq<Seq<T>>) -> Seq<T>
    decreases parts.len(),
{
    if parts.len() == 0 {
        Seq::empty()
    } else {
        parts[0] + concat_model(parts.drop_first())
    }
}

impl<T> Collector<Vec<T>> {
    /// The per-slot results as sequences, in submission order.
    pub open spec fn slot_parts(&self) -> Seq<Seq<T>> {
        Seq::new(self.slots().len(), |i: int| self.slots()[i]->Some_0@)
    }

    /// Drain the reply slots strictly in submission order and flatten the
    /// per-link results into one aggregate, as the style collector does
    /// with parsed rule sets.
    pub fn finalize_concat(self) -> (agg: Vec<T>)
        requires
            self.inv(),
            self.all_delivered(),
        ensures
            agg@ == concat_model(self.slot_parts()),
    {
        let ghost parts = self.slot_parts();
        let mut rest = self.finalize();
        let mut agg: Vec<T> = Vec::new();
        proof {
            assert(Seq::new(rest@.len(), |i: int| rest@[i]@) =~~= parts);
        }
        while rest.len() > 0
            invariant
                agg@ + concat_model(Seq::new(rest@.len(), |i: int| rest@[i]@)) == concat_model(
                    parts,
                ),
            decreases rest.len(),
        {
            let ghost before = Seq::new(rest@.len(), |i: int| rest@[i]@);
            let mut part = rest.remove(0);
            agg.append(&mut part);
            proof {
                let after = Seq::new(rest@.len(), |i: int| rest@[i]@);
                assert(after =~~= before.drop_first());
                assert(agg@ + concat_model(after) =~= concat_model(parts));
            }
        }
        proof {
            assert(concat_model(Seq::new(0, |i: int| rest@[i]@)) =~= Seq::<T>::empty());
            assert(agg@ =~= concat_model(parts));
        }
        agg
    }
}

/// One message from the byte-fetching service: a data chunk, or the
/// terminal signal saying whether the fetch succeeded.
pub enum FetchEvent {
    Payload(Vec<u8>),
    Done(bool),
}

/// A worker's terminal view of one fetch: the accumulated bytes, or a
/// failure.
pub enum FetchOutcome {
    Success(Vec<u8>),
    Failure,
}

/// The mathematical shape of a fetch outcome.
pub ghost enum OutcomeModel {
    Success(Seq<u8>),
    Failure,
}

impl View for FetchOutcome {
    type V = OutcomeModel;

    open spec fn view(&self) -> OutcomeModel {
        match self {
            FetchOutcome::Success(b) => OutcomeModel::Success(b@),
            FetchOutcome::Failure => OutcomeModel::Failure,
        }
    }
}

/// What a chunk stream denotes, with `acc` already accumulated: payloads
/// concatenate until the first terminal signal decides the outcome; a
/// stream with no terminal signal denotes nothing yet.
pub open spec fn fetch_model(events: Seq<FetchEvent>, acc: Seq<u8>) -> Option<OutcomeModel>
    decreases events.len(),
{
    if events.len() == 0 {
        None
    } else {
        match events[0] {
            FetchEvent::Payload(d) => fetch_model(events.drop_first(), acc + d@),
            FetchEvent::Done(ok) => Some(
                if ok {
                    OutcomeModel::Success(acc)
                } else {
                    OutcomeModel::Failure
                },
            ),
        }
    }
}

pub open spec fn has_terminal(events: Seq<FetchEvent>) -> bool {
    exists|i: int| 0 <= i < events.len() && events[i] is Done
}

/// Every stream that carries a terminal signal denotes an outcome —
/// success or failure alike, the worker always has a reply to send.
pub proof fn lemma_terminal_reply(events: Seq<FetchEvent>, acc: Seq<u8>)
    requires
        has_terminal(events),
    ensures
        fetch_model(events, acc) is Some,
    decreases events.len(),
{
    let w = choose|i: int| 0 <= i < events.len() && events[i] is Done;
    match events[0] {
        FetchEvent::Payload(d) => {
            assert(events.drop_first()[w - 1] == events[w]);
            assert(has_terminal(events.drop_first()));
            lemma_terminal_reply(events.drop_first(), acc + d@);
        },
        FetchEvent::Done(_) => {},
    }
}

/// Accumulate one fetch's reply stream: payload chunks concatenate in
/// order, and the first terminal signal decides success or failure.
pub fn run_fetch(events: &Vec<FetchEvent>) -> (r: FetchOutcome)
    requires
        has_terminal(events@),
    ensures
        Some(r@) == fetch_model(events@, Seq::<u8>::empty()),
{
    proof {
        lemma_terminal_reply(events@, Seq::<u8>::empty());
    }
    let n = events.len();
    let mut buf: Vec<u8> = Vec::new();
    let mut i: usize = 0;
    proof {
        assert(events@.skip(0) =~= events@);
    }
    while i < n
        invariant
            i <= n,
            n == events@.len(),
            fetch_model(events@, Seq::<u8>::empty()) == fetch_model(
                events@.skip(i as int),
                buf@,
            ),
            fetch_model(events@, Seq::<u8>::empty()) is Some,
        decreases n - i,
    {
        proof {
            assert(events@.skip(i as int).drop_first() =~= events@.skip(i + 1));
            assert(events@.skip(i as int)[0] == events@[i as int]);
        }
        match &events[i] {
            FetchEvent::Payload(d) => {
                let ghost bstart = buf@;
                let m = d.len();
                let mut j: usize = 0;
                while j < m
                    invariant
                        j <= m,
                        m == d@.len(),
                        buf@ == bstart + d@.take(j as int),
                    decreases m - j,
                {
                    buf.push(d[j]);
                    proof {
                        assert(buf@ =~= bstart + d@.take(j + 1));
                    }
                    j += 1;
                }
                proof {
                    assert(buf@ =~= bstart + d@);
                }
            },
            FetchEvent::Done(ok) => {
                if *ok {
                    return FetchOutcome::Success(buf);
                } else {
                    return FetchOutcome::Failure;
                }
            },
        }
        i += 1;
    }
    // Never reached: the stream carries a terminal signal, so the loop
    // always returns through the `Done` arm.
    proof {
        assert(events@.skip(n as int) =~= Seq::<FetchEvent>::empty());
        assert(false);
    }
    FetchOutcome::Failure
}

/// The reply a script worker owes its collector for any outcome: the
/// fetched bytes on success, the empty sentinel on failure. Every worker
/// replies, so finalization can never stall on a failed fetch.
pub fn script_reply(outcome: FetchOutcome) -> (r: Vec<u8>)
    ensures
        (match outcome@ {
            OutcomeModel::Success(b) => r@ == b,
            OutcomeModel::Failure => r@ == Seq::<u8>::empty(),
        }),
{
    match outcome {
        FetchOutcome::Success(b) => b,
        FetchOutcome::Failure => Vec::new(),
    }
}

} // verus!
