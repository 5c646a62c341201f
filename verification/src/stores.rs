//! Stores and the graph that owns them.
//!
//! A store is addressed by the index the graph gave it. The graph keeps, with
//! the stores, an order in which every store stands after the stores it
//! reads; binding keeps that order, and a pulse walks it once.

use vstd::prelude::*;
use crate::error::StoreError;
use crate::upstream::Upstream;
use crate::value::Value;
use crate::wiring::{
    acyclic, add_edge, add_node, edge, in_range, lemma_add_edge_edges, lemma_add_edge_has_edge,
    lemma_add_edge_keeps_edges, lemma_add_edge_ranked, lemma_back_edge_closes_cycle,
    lemma_forward_edge_keeps_acyclic, lemma_ranked_is_acyclic, lemma_reaches_last,
    lemma_reaches_ranks, lemma_reaches_self, lemma_reaches_step, lemma_unread_reaches_itself, ranked,
    reaches,
};

verus! {

/// One edge of the graph as its reader holds it: the store `source`, read
/// under `name`.
pub struct Binding {
    pub name: String,
    pub source: usize,
}

/// `out` is what the initializer `f` may return for these named inputs.
pub open spec fn computed_by<F: Fn(&Upstream) -> Result<Value, StoreError>>(
    f: F,
    inputs: Seq<(Seq<char>, Value)>,
    out: Result<Value, StoreError>,
) -> bool {
    exists|up: Upstream| up@ == inputs && #[trigger] call_ensures(f, (&up,), out)
}

/// What a pulse did with one store.
#[derive(Clone, Copy, Debug, PartialEq, Eq, Structural)]
pub enum Outcome {
    /// The pulse did not reach the store.
    Untouched,
    /// The store got its value for this pulse and its subscribers were told.
    Finalized,
    /// The initializer of the store failed with this error. The store keeps
    /// its value and its subscribers are not told.
    Failed(StoreError),
    /// A store that this one reads failed or was skipped, so this one was not
    /// recomputed. It keeps its value and its subscribers are not told.
    Skipped,
}

/// The record of one pulse.
pub struct PulseReport {
    /// For each store of the graph, by index, what the pulse did with it.
    pub outcomes: Vec<Outcome>,
    /// The stores that the pulse reached, in the order it visited them.
    pub sequence: Vec<usize>,
    /// The calls of subscribers, in the order they were made: the store and
    /// the place of the subscriber among those of the store.
    pub notifications: Vec<(usize, usize)>,
}

/// The store was reached by the pulse but holds no new value.
pub open spec fn stalled(outcome: Outcome) -> bool {
    outcome is Failed || outcome is Skipped
}

/// Store `d` reads a store that the pulse reached and gave no new value.
pub open spec fn blocked(w: Seq<Seq<int>>, outcomes: Seq<Outcome>, d: int) -> bool {
    exists|k: int| 0 <= k < w[d].len() && stalled(outcomes[#[trigger] w[d][k]])
}

/// The calls of subscribers that visiting `sequence` makes: for each store in
/// turn, if it was finalized, its subscribers in the order of registration.
pub open spec fn fired(sequence: Seq<usize>, outcomes: Seq<Outcome>, counts: Seq<nat>) -> Seq<
    (usize, usize),
>
    decreases sequence.len(),
{
    if sequence.len() == 0 {
        Seq::empty()
    } else {
        let store = sequence.last();
        fired(sequence.drop_last(), outcomes, counts) + (if outcomes[store as int] is Finalized {
            Seq::new(counts[store as int], |k: int| (store, k as usize))
        } else {
            Seq::empty()
        })
    }
}

/// `sequence` visits each store that a change of `root` reaches once, and
/// none before a store that it depends on.
pub open spec fn visits(w: Seq<Seq<int>>, root: int, sequence: Seq<usize>) -> bool {
    &&& sequence.no_duplicates()
    &&& forall|i: int| 0 <= i < sequence.len() ==> reaches(w, root, #[trigger] sequence[i] as int)
    &&& forall|v: int|
        0 <= v < w.len() && reaches(w, root, v) ==> exists|i: int|
            0 <= i < sequence.len() && #[trigger] sequence[i] == v
    &&& forall|i: int, j: int|
        0 <= i < j < sequence.len() ==> !reaches(
            w,
            #[trigger] sequence[j] as int,
            #[trigger] sequence[i] as int,
        )
}

proof fn lemma_fired_one(store: usize, outcomes: Seq<Outcome>, counts: Seq<nat>)
    ensures
        fired(seq![store], outcomes, counts) == (if outcomes[store as int] is Finalized {
            Seq::new(counts[store as int], |k: int| (store, k as usize))
        } else {
            Seq::<(usize, usize)>::empty()
        }),
{
    let sequence = seq![store];
    assert(sequence.last() == store);
    assert(sequence.drop_last() =~= Seq::<usize>::empty());
    assert(fired(sequence.drop_last(), outcomes, counts) =~= Seq::<(usize, usize)>::empty());
    assert(fired(sequence, outcomes, counts) =~= (if outcomes[store as int] is Finalized {
        Seq::new(counts[store as int], |k: int| (store, k as usize))
    } else {
        Seq::<(usize, usize)>::empty()
    }));
}

proof fn lemma_fired_agrees(
    sequence: Seq<usize>,
    o1: Seq<Outcome>,
    o2: Seq<Outcome>,
    counts: Seq<nat>,
)
    requires
        forall|i: int| 0 <= i < sequence.len() ==> o1[#[trigger] sequence[i] as int] == o2[sequence[i] as int],
    ensures
        fired(sequence, o1, counts) == fired(sequence, o2, counts),
    decreases sequence.len(),
{
    if sequence.len() > 0 {
        let rest = sequence.drop_last();
        assert forall|i: int| 0 <= i < rest.len() implies o1[#[trigger] rest[i] as int] == o2[rest[i] as int] by {
            assert(rest[i] == sequence[i]);
        }
        lemma_fired_agrees(rest, o1, o2, counts);
        assert(o1[sequence[sequence.len() - 1] as int] == o2[sequence[sequence.len() - 1] as int]);
    }
}

/// A value with, optionally, the function that recomputes it, the stores it
/// reads and is read by, and the callbacks to tell of a new value.
pub struct Store<F, S> {
    value: Value,
    initializer: Option<F>,
    subscriptions: Vec<S>,
    upstream_stores: Vec<Binding>,
    downstream_stores: Vec<usize>,
}

impl<F: Fn(&Upstream) -> Result<Value, StoreError>, S: Fn(&Value)> Store<F, S> {
    /// The current value.
    pub closed spec fn value(&self) -> Value {
        self.value
    }

    /// The function that recomputes the value; a source store has none.
    pub closed spec fn initializer(&self) -> Option<F> {
        self.initializer
    }

    /// The callbacks, in the order they were registered.
    pub closed spec fn subscribers(&self) -> Seq<S> {
        self.subscriptions@
    }

    /// The bindings to the stores this one reads, in the order they were made.
    pub closed spec fn upstream(&self) -> Seq<Binding> {
        self.upstream_stores@
    }

    /// The stores that read this one.
    pub closed spec fn downstream(&self) -> Seq<int> {
        self.downstream_stores@.map_values(|d: usize| d as int)
    }

    /// The stores this one reads, by index.
    pub open spec fn sources(&self) -> Seq<int> {
        self.upstream().map_values(|b: Binding| b.source as int)
    }

    /// The store has no initializer: only its owner writes it.
    pub open spec fn is_source(&self) -> bool {
        self.initializer() is None
    }

    /// The initializer and the subscribers accept every argument.
    pub open spec fn callable(&self) -> bool {
        &&& self.initializer() matches Some(f) ==> forall|up: &Upstream| #[trigger]
            call_requires(f, (up,))
        &&& forall|k: int, v: &Value|
            0 <= k < self.subscribers().len() ==> #[trigger] call_requires(
                self.subscribers()[k],
                (v,),
            )
    }

    /// Every subscriber has been called with the current value.
    pub open spec fn told(&self) -> bool {
        forall|k: int|
            0 <= k < self.subscribers().len() ==> #[trigger] call_ensures(
                self.subscribers()[k],
                (&self.value(),),
                (),
            )
    }

    /// The same store but for its value.
    pub open spec fn same_but_value(&self, other: &Self) -> bool {
        &&& self.initializer() == other.initializer()
        &&& self.subscribers() == other.subscribers()
        &&& self.upstream() == other.upstream()
        &&& self.downstream() == other.downstream()
    }

    /// A store with this value that reads nothing, is read by nothing and
    /// has no subscriber. With an initializer it is a derived store.
    pub fn new(val: Value, initializer: Option<F>) -> (store: Self)
        ensures
            store.value() == val,
            store.initializer() == initializer,
            store.subscribers().len() == 0,
            store.upstream().len() == 0,
            store.downstream().len() == 0,
    {
        Store {
            value: val,
            initializer,
            subscriptions: Vec::new(),
            upstream_stores: Vec::new(),
            downstream_stores: Vec::new(),
        }
    }

    /// The current value. Nothing is recomputed by a read.
    pub fn get(&self) -> (v: &Value)
        ensures
            *v == self.value(),
    {
        &self.value
    }

    /// Registers `callback`, after the callbacks already there.
    pub fn subscribe(&mut self, callback: S)
        requires
            old(self).callable(),
            forall|v: &Value| #[trigger] call_requires(callback, (v,)),
        ensures
            final(self).callable(),
            final(self).subscribers() == old(self).subscribers().push(callback),
            final(self).value() == old(self).value(),
            final(self).initializer() == old(self).initializer(),
            final(self).upstream() == old(self).upstream(),
            final(self).downstream() == old(self).downstream(),
    {
        self.subscriptions.push(callback);
        proof {
            let subs = self.subscribers();
            assert forall|k: int, x: &Value| 0 <= k < subs.len() implies #[trigger] call_requires(
                subs[k],
                (x,),
            ) by {
                if k < subs.len() - 1 {
                    assert(subs[k] == old(self).subscribers()[k]);
                }
            }
        }
    }

    /// Registers that this store reads the store `source` under `name`,
    /// after the bindings already there.
    fn add_upstream(&mut self, name: String, source: usize)
        ensures
            final(self).upstream() == old(self).upstream().push(Binding { name, source }),
            final(self).value() == old(self).value(),
            final(self).initializer() == old(self).initializer(),
            final(self).subscribers() == old(self).subscribers(),
            final(self).downstream() == old(self).downstream(),
    {
        self.upstream_stores.push(Binding { name, source });
    }

    /// Calls each subscriber with the current value, in the order they were
    /// registered. Returns how many were called: all of them.
    fn notify(&self) -> (told: usize)
        requires
            self.callable(),
        ensures
            told == self.subscribers().len(),
            self.told(),
    {
        let mut k: usize = 0;
        while k < self.subscriptions.len()
            invariant
                self.callable(),
                k <= self.subscriptions@.len(),
                forall|j: int|
                    0 <= j < k ==> #[trigger] call_ensures(
                        self.subscribers()[j],
                        (&self.value(),),
                        (),
                    ),
            decreases self.subscriptions@.len() - k,
        {
            let callback = &self.subscriptions[k];
            assert(*callback == self.subscribers()[k as int]);
            callback(&self.value);
            k = k + 1;
        }
        k
    }

    /// Gives the store its value for this pulse and tells the subscribers,
    /// in the order they were registered. Returns how many were told: all
    /// of them.
    fn settle(&mut self, value: Value) -> (told: usize)
        requires
            old(self).callable(),
        ensures
            final(self).value() == value,
            final(self).same_but_value(old(self)),
            final(self).callable(),
            final(self).told(),
            told == old(self).subscribers().len(),
    {
        self.value = value;
        proof {
            assert(self.subscribers() == old(self).subscribers());
            assert(self.initializer() == old(self).initializer());
            assert(old(self).callable());
        }
        self.notify()
    }

    /// Writes `new_value` to this source store and tells the subscribers, in
    /// the order they were registered. Returns how many were told: all of
    /// them. A derived store is not written from outside: it has its value
    /// from its initializer alone.
    pub fn update(&mut self, new_value: Value) -> (told: usize)
        requires
            old(self).callable(),
            old(self).is_source(),
        ensures
            final(self).value() == new_value,
            final(self).same_but_value(old(self)),
            final(self).callable(),
            final(self).told(),
            told == old(self).subscribers().len(),
    {
        self.settle(new_value)
    }
}

/// What the engine asks of one store.
pub trait StoreFunctionality {
    /// The store can be used: its functions accept every argument.
    spec fn ready(&self) -> bool;

    /// The store has an initializer, so that it can be recomputed.
    spec fn derived(&self) -> bool;

    /// The current value.
    fn get(&self) -> &Value;

    /// Recomputes the value from `upstream`, the named values that the store
    /// reads, and tells the subscribers. Only a store with an initializer
    /// can be asked to: of a source store the request would be a fault of
    /// the caller.
    fn initialize_from_upstream_origins(&mut self, upstream: &Upstream) -> (r: Result<
        (),
        StoreError,
    >)
        requires
            old(self).ready(),
            old(self).derived(),
        ensures
            final(self).ready(),
            final(self).derived(),
    ;

    /// Registers `store` as a reader of this store, unless it is one already.
    fn add_downstream(&mut self, store: usize)
        requires
            old(self).ready(),
        ensures
            final(self).ready(),
    ;

    /// The bindings to the stores that this one reads.
    fn get_upstream(&self) -> &Vec<Binding>;

    /// Tells the subscribers the current value. Returns how many were told.
    fn report_downstream(&self) -> usize
        requires
            self.ready(),
    ;
}

impl<F: Fn(&Upstream) -> Result<Value, StoreError>, S: Fn(&Value)> StoreFunctionality for Store<
    F,
    S,
> {
    open spec fn ready(&self) -> bool {
        self.callable()
    }

    open spec fn derived(&self) -> bool {
        !self.is_source()
    }

    fn get(&self) -> (v: &Value)
        ensures
            *v == self.value(),
    {
        &self.value
    }

    /// If the initializer returns a value, the store holds it and every
    /// subscriber has been called with it. If it fails, the error is
    /// returned, the store holds the value it had and no subscriber is
    /// called.
    fn initialize_from_upstream_origins(&mut self, upstream: &Upstream) -> (r: Result<
        (),
        StoreError,
    >)
        ensures
            final(self).same_but_value(old(self)),
            match r {
                Ok(_) => call_ensures(
                    old(self).initializer()->0,
                    (upstream,),
                    Ok(final(self).value()),
                ) && final(self).told(),
                Err(e) => call_ensures(old(self).initializer()->0, (upstream,), Err(e))
                    && final(self).value() == old(self).value(),
            },
    {
        let outcome = match &self.initializer {
            Some(f) => f(upstream),
            None => Err(StoreError::UnboundInitializerReference),
        };
        match outcome {
            Ok(value) => {
                self.settle(value);
                Ok(())
            },
            Err(e) => Err(e),
        }
    }

    fn add_downstream(&mut self, store: usize)
        ensures
            final(self).value() == old(self).value(),
            final(self).initializer() == old(self).initializer(),
            final(self).subscribers() == old(self).subscribers(),
            final(self).upstream() == old(self).upstream(),
            final(self).downstream() == (if old(self).downstream().contains(store as int) {
                old(self).downstream()
            } else {
                old(self).downstream().push(store as int)
            }),
    {
        let mut i: usize = 0;
        let mut found = false;
        while i < self.downstream_stores.len()
            invariant
                i <= self.downstream_stores@.len(),
                *self == *old(self),
                found <==> exists|j: int| 0 <= j < i && self.downstream_stores@[j] == store,
            decreases self.downstream_stores@.len() - i,
        {
            if self.downstream_stores[i] == store {
                found = true;
            }
            i = i + 1;
        }
        proof {
            let down = old(self).downstream();
            if found {
                let j = choose|j: int| 0 <= j < i && self.downstream_stores@[j] == store;
                assert(down[j] == store as int);
            }
            if down.contains(store as int) {
                let j = choose|j: int| 0 <= j < down.len() && down[j] == store as int;
                assert(self.downstream_stores@[j] == store);
            }
        }
        if !found {
            self.downstream_stores.push(store);
            assert(self.downstream() =~= old(self).downstream().push(store as int));
        }
        proof {
            assert(self.subscribers() == old(self).subscribers());
            assert(self.initializer() == old(self).initializer());
            assert(old(self).callable());
        }
    }

    fn get_upstream(&self) -> (bindings: &Vec<Binding>)
        ensures
            bindings@ == self.upstream(),
    {
        &self.upstream_stores
    }

    fn report_downstream(&self) -> (told: usize)
        ensures
            told == self.subscribers().len(),
            self.told(),
    {
        self.notify()
    }
}

/// The stores and the edges between them.
pub struct StoreGraph<F, S> {
    stores: Vec<Store<F, S>>,
    order: Vec<usize>,
    rank: Ghost<Seq<int>>,
}

impl<F, S> View for StoreGraph<F, S> {
    type V = Seq<Store<F, S>>;

    closed spec fn view(&self) -> Seq<Store<F, S>> {
        self.stores@
    }
}

impl<F: Fn(&Upstream) -> Result<Value, StoreError>, S: Fn(&Value)> StoreGraph<F, S> {
    /// For each store, the stores it reads.
    pub open spec fn wiring(&self) -> Seq<Seq<int>> {
        Seq::new(self@.len(), |d: int| self@[d].sources())
    }

    /// The named values that store `d` reads, as they are now.
    pub open spec fn inputs(&self, d: int) -> Seq<(Seq<char>, Value)> {
        Seq::new(
            self@[d].upstream().len(),
            |k: int| (self@[d].upstream()[k].name@, self@[self@[d].upstream()[k].source as int].value()),
        )
    }

    /// `order` and `rank` are inverse to each other.
    spec fn ordered(&self) -> bool {
        &&& self.rank@.len() == self@.len()
        &&& forall|v: int|
            0 <= v < self@.len() ==> 0 <= #[trigger] self.rank@[v] < self.order@.len()
                && self.order@[self.rank@[v]] == v
        &&& forall|j: int|
            0 <= j < self.order@.len() ==> 0 <= #[trigger] self.order@[j] < self@.len()
                && self.rank@[self.order@[j] as int] == j
    }

    /// Each store lists the stores that read it, each once.
    spec fn mirrored(&self) -> bool {
        &&& forall|u: int, i: int|
            0 <= u < self@.len() && 0 <= i < self@[u].downstream().len() ==> edge(
                self.wiring(),
                u,
                #[trigger] self@[u].downstream()[i],
            )
        &&& forall|u: int, d: int|
            0 <= u < self@.len() && #[trigger] edge(self.wiring(), u, d)
                ==> self@[u].downstream().contains(d)
        &&& forall|u: int| 0 <= u < self@.len() ==> (#[trigger] self@[u].downstream()).no_duplicates()
    }

    /// The graph is consistent: every edge joins two stores of the graph and
    /// is held at both of its ends, only derived stores read other stores,
    /// no store depends on itself, and every function in the graph accepts
    /// every argument.
    pub closed spec fn wf(&self) -> bool {
        &&& in_range(self.wiring())
        &&& ranked(self.wiring(), self.rank@)
        &&& self.ordered()
        &&& self.mirrored()
        &&& forall|v: int| 0 <= v < self@.len() ==> (#[trigger] self@[v]).callable()
        &&& forall|v: int|
            0 <= v < self@.len() && (#[trigger] self@[v]).upstream().len() > 0
                ==> !self@[v].is_source()
    }

    /// The same stores, functions and edges; the values may differ.
    pub open spec fn same_wiring(&self, other: &Self) -> bool {
        &&& self@.len() == other@.len()
        &&& forall|v: int| 0 <= v < self@.len() ==> (#[trigger] self@[v]).same_but_value(&other@[v])
    }

    /// In a consistent graph every edge joins stores of the graph and no
    /// store depends on itself.
    pub proof fn lemma_wf_acyclic(&self)
        requires
            self.wf(),
        ensures
            in_range(self.wiring()),
            acyclic(self.wiring()),
    {
        lemma_ranked_is_acyclic(self.wiring(), self.rank@);
    }

    /// Edges held at both ends stay so when neither end changes.
    proof fn lemma_mirrored_kept(&self, other: &Self)
        requires
            self.mirrored(),
            other@.len() == self@.len(),
            forall|u: int|
                0 <= u < self@.len() ==> (#[trigger] other@[u]).upstream() == self@[u].upstream()
                    && other@[u].downstream() == self@[u].downstream(),
        ensures
            other.wiring() == self.wiring(),
            other.mirrored(),
    {
        assert(other.wiring() =~= self.wiring()) by {
            assert forall|d: int| 0 <= d < self@.len() implies other.wiring()[d]
                == self.wiring()[d] by {
                assert(other@[d].upstream() == self@[d].upstream());
            }
        }
        assert forall|u: int, i: int|
            0 <= u < other@.len() && 0 <= i < other@[u].downstream().len() implies edge(
            other.wiring(),
            u,
            #[trigger] other@[u].downstream()[i],
        ) by {
            assert(other@[u].downstream() == self@[u].downstream());
            assert(edge(self.wiring(), u, self@[u].downstream()[i]));
        }
        assert forall|u: int, d: int|
            0 <= u < other@.len() && #[trigger] edge(other.wiring(), u, d)
            implies other@[u].downstream().contains(d) by {
            assert(other@[u].downstream() == self@[u].downstream());
            assert(self@[u].downstream().contains(d));
        }
        assert forall|u: int| 0 <= u < other@.len() implies (
        #[trigger] other@[u].downstream()).no_duplicates() by {
            assert(other@[u].downstream() == self@[u].downstream());
            assert(self@[u].downstream().no_duplicates());
        }
    }

    /// A binding is refused as cyclic exactly when it would close a cycle:
    /// a change of `store` reaches `upstream` if and only if the wiring in
    /// which `store` also reads `upstream` has a cycle.
    pub proof fn lemma_refused_iff_cycle(&self, store: int, upstream: int)
        requires
            self.wf(),
            0 <= store < self@.len(),
            0 <= upstream < self@.len(),
        ensures
            reaches(self.wiring(), store, upstream) <==> !acyclic(
                add_edge(self.wiring(), upstream, store),
            ),
    {
        if reaches(self.wiring(), store, upstream) {
            lemma_back_edge_closes_cycle(self.wiring(), upstream, store);
        } else {
            lemma_forward_edge_keeps_acyclic(self.wiring(), self.rank@, upstream, store);
        }
    }

    /// A store has no more subscribers than a machine word counts.
    pub proof fn lemma_subscribers_bounded(&self, store: int)
        requires
            0 <= store < self@.len(),
        ensures
            self@[store].subscribers().len() <= usize::MAX,
    {
        let count = self.stores@[store].subscriptions.len();
        assert(count == self@[store].subscribers().len());
    }

    /// A graph without stores.
    pub fn new() -> (graph: Self)
        ensures
            graph.wf(),
            graph@.len() == 0,
    {
        StoreGraph { stores: Vec::new(), order: Vec::new(), rank: Ghost(Seq::empty()) }
    }

    /// Adds a store with this value: a source store, or with an initializer
    /// a derived one. It reads nothing yet and nothing reads it. Returns its
    /// index.
    pub fn add_store(&mut self, val: Value, initializer: Option<F>) -> (store: usize)
        requires
            old(self).wf(),
            initializer matches Some(f) ==> forall|up: &Upstream| #[trigger]
                call_requires(f, (up,)),
        ensures
            final(self).wf(),
            store == old(self)@.len(),
            final(self)@.len() == old(self)@.len() + 1,
            forall|i: int| 0 <= i < old(self)@.len() ==> final(self)@[i] == old(self)@[i],
            final(self)@[store as int].value() == val,
            final(self)@[store as int].initializer() == initializer,
            final(self)@[store as int].subscribers().len() == 0,
            final(self)@[store as int].upstream().len() == 0,
            final(self)@[store as int].downstream().len() == 0,
            final(self).wiring() == add_node(old(self).wiring()),
    {
        let store = self.stores.len();
        let place = self.order.len();
        self.stores.push(Store::new(val, initializer));
        self.order.push(store);
        proof {
            self.rank@ = self.rank@.push(place as int);
            assert(self@[store as int].sources() =~= Seq::<int>::empty());
            assert(self.wiring() =~= add_node(old(self).wiring()));
            assert forall|u: int, d: int|
                0 <= u < self@.len() && #[trigger] edge(self.wiring(), u, d)
                implies self@[u].downstream().contains(d) by {
                assert(edge(old(self).wiring(), u, d));
                assert(d < old(self)@.len());
                let k = choose|k: int|
                    0 <= k < old(self).wiring()[d].len() && old(self).wiring()[d][k] == u;
                assert(0 <= old(self).wiring()[d][k] < old(self)@.len());
            }
            assert forall|u: int, i: int|
                0 <= u < self@.len() && 0 <= i < self@[u].downstream().len() implies edge(
                self.wiring(),
                u,
                #[trigger] self@[u].downstream()[i],
            ) by {
                assert(edge(old(self).wiring(), u, old(self)@[u].downstream()[i]));
            }
        }
        store
    }

    /// Registers `callback` on `store`, after the callbacks already there. It
    /// is called with the new value each time a pulse finalizes the store.
    pub fn subscribe(&mut self, store: usize, callback: S)
        requires
            old(self).wf(),
            store < old(self)@.len(),
            forall|v: &Value| #[trigger] call_requires(callback, (v,)),
        ensures
            final(self).wf(),
            final(self)@.len() == old(self)@.len(),
            forall|i: int|
                0 <= i < old(self)@.len() && i != store ==> final(self)@[i] == old(self)@[i],
            final(self)@[store as int].subscribers() == old(self)@[store as int].subscribers().push(
                callback,
            ),
            final(self)@[store as int].value() == old(self)@[store as int].value(),
            final(self)@[store as int].initializer() == old(self)@[store as int].initializer(),
            final(self)@[store as int].upstream() == old(self)@[store as int].upstream(),
            final(self)@[store as int].downstream() == old(self)@[store as int].downstream(),
            final(self).wiring() == old(self).wiring(),
    {
        assert(self@[store as int].callable());
        self.stores[store].subscribe(callback);
        proof {
            assert forall|v: int| 0 <= v < self@.len() implies (#[trigger] self@[v]).callable() by {
                assert(old(self)@[v].callable());
            }
            old(self).lemma_mirrored_kept(self);
        }
    }

    /// Whether `store` reads a marked store.
    fn reads_marked(&self, store: usize, marks: &Vec<bool>) -> (hit: bool)
        requires
            self.wf(),
            store < self@.len(),
            marks@.len() == self@.len(),
        ensures
            hit <==> exists|i: int|
                0 <= i < self.wiring()[store as int].len() && marks@[#[trigger] self.wiring()[store as int][i]],
    {
        let bindings = self.stores[store].get_upstream();
        let mut i: usize = 0;
        while i < bindings.len()
            invariant
                self.wf(),
                store < self@.len(),
                marks@.len() == self@.len(),
                bindings@ == self@[store as int].upstream(),
                i <= bindings@.len(),
                forall|j: int| 0 <= j < i ==> !marks@[#[trigger] self.wiring()[store as int][j]],
            decreases bindings@.len() - i,
        {
            assert(0 <= self.wiring()[store as int][i as int] < self@.len());
            if marks[bindings[i].source] {
                return true;
            }
            i = i + 1;
        }
        false
    }

    /// Marks the stores that a change of `root` reaches: `root` and the
    /// stores that depend on it.
    pub fn affected(&self, root: usize) -> (marks: Vec<bool>)
        requires
            self.wf(),
            root < self@.len(),
        ensures
            marks@.len() == self@.len(),
            forall|v: int|
                0 <= v < self@.len() ==> (#[trigger] marks@[v] <==> reaches(
                    self.wiring(),
                    root as int,
                    v,
                )),
    {
        let n = self.stores.len();
        let mut marks: Vec<bool> = vec![false; n];
        let mut k: usize = 0;
        while k < self.order.len()
            invariant
                self.wf(),
                root < self@.len(),
                n == self@.len(),
                marks@.len() == n,
                k <= self.order@.len(),
                forall|v: int|
                    0 <= v < n && self.rank@[v] < k ==> (#[trigger] marks@[v] <==> reaches(
                        self.wiring(),
                        root as int,
                        v,
                    )),
                forall|v: int| 0 <= v < n && self.rank@[v] >= k ==> !#[trigger] marks@[v],
            decreases self.order@.len() - k,
        {
            let x = self.order[k];
            let ghost w = self.wiring();
            let ghost before = marks@;
            assert(self.rank@[x as int] == k);
            let hit = x == root || self.reads_marked(x, &marks);
            marks.set(x, hit);
            proof {
                assert forall|i: int| 0 <= i < w[x as int].len() implies self.rank@[#[trigger] w[x as int][i]]
                    < k && 0 <= w[x as int][i] < n by {}
                if hit {
                    if x == root {
                        lemma_reaches_self(w, root as int);
                    } else {
                        let i = choose|i: int|
                            0 <= i < w[x as int].len() && before[#[trigger] w[x as int][i]];
                        let u = w[x as int][i];
                        assert(before[u] <==> reaches(w, root as int, u));
                        assert(edge(w, u, x as int));
                        lemma_reaches_step(w, root as int, u, x as int);
                    }
                } else {
                    if reaches(w, root as int, x as int) {
                        lemma_reaches_last(w, root as int, x as int);
                        let u = choose|u: int|
                            reaches(w, root as int, u) && #[trigger] edge(w, u, x as int);
                        let i = choose|i: int| 0 <= i < w[x as int].len() && w[x as int][i] == u;
                        assert(before[w[x as int][i]] <==> reaches(w, root as int, u));
                        assert(false);
                    }
                }
                assert forall|v: int| 0 <= v < n && self.rank@[v] < k + 1 implies (
                #[trigger] marks@[v] <==> reaches(w, root as int, v)) by {
                    if v != x {
                        assert(before[v] == marks@[v]);
                    }
                }
            }
            k = k + 1;
        }
        marks
    }

    /// The order with the marked stores moved behind the others, each group
    /// in the order it had, and the place of each store in it.
    fn reordered(&self, marks: &Vec<bool>) -> (r: (Vec<usize>, Ghost<Seq<int>>))
        requires
            self.wf(),
            marks@.len() == self@.len(),
        ensures
            r.1@.len() == self@.len(),
            forall|v: int|
                0 <= v < self@.len() ==> 0 <= #[trigger] r.1@[v] < r.0@.len() && r.0@[r.1@[v]] == v,
            forall|j: int|
                0 <= j < r.0@.len() ==> 0 <= #[trigger] r.0@[j] < self@.len() && r.1@[r.0@[j] as int]
                    == j,
            forall|a: int, b: int|
                0 <= a < self@.len() && 0 <= b < self@.len() && !marks@[a] && marks@[b]
                    ==> #[trigger] r.1@[a] < #[trigger] r.1@[b],
            forall|a: int, b: int|
                0 <= a < self@.len() && 0 <= b < self@.len() && marks@[a] == marks@[b]
                    && self.rank@[a] < self.rank@[b] ==> #[trigger] r.1@[a] < #[trigger] r.1@[b],
    {
        let ghost n = self@.len() as int;
        let ghost rank = self.rank@;
        let mut fresh: Vec<usize> = Vec::new();
        let ghost mut pos: Seq<int> = self.rank@;
        let mut k: usize = 0;
        while k < self.order.len()
            invariant
                self.wf(),
                n == self@.len(),
                rank == self.rank@,
                marks@.len() == n,
                k <= self.order@.len(),
                pos.len() == n,
                forall|j: int|
                    0 <= j < fresh@.len() ==> 0 <= #[trigger] fresh@[j] < n && !marks@[fresh@[j] as int]
                        && pos[fresh@[j] as int] == j && rank[fresh@[j] as int] < k,
                forall|v: int|
                    0 <= v < n && !marks@[v] && rank[v] < k ==> 0 <= #[trigger] pos[v] < fresh@.len()
                        && fresh@[pos[v]] == v,
                forall|a: int, b: int|
                    0 <= a < n && 0 <= b < n && !marks@[a] && !marks@[b] && rank[a] < rank[b] < k
                        ==> #[trigger] pos[a] < #[trigger] pos[b],
            decreases self.order@.len() - k,
        {
            let x = self.order[k];
            assert(rank[x as int] == k);
            if !marks[x] {
                proof {
                    pos = pos.update(x as int, fresh@.len() as int);
                }
                fresh.push(x);
            }
            k = k + 1;
        }
        let ghost m = fresh@.len() as int;
        let mut k: usize = 0;
        while k < self.order.len()
            invariant
                self.wf(),
                n == self@.len(),
                rank == self.rank@,
                marks@.len() == n,
                k <= self.order@.len(),
                pos.len() == n,
                0 <= m <= fresh@.len(),
                forall|j: int|
                    0 <= j < fresh@.len() ==> 0 <= #[trigger] fresh@[j] < n && pos[fresh@[j] as int]
                        == j && (j < m <==> !marks@[fresh@[j] as int]) && (j >= m ==> rank[fresh@[j] as int]
                        < k),
                forall|v: int|
                    0 <= v < n && !marks@[v] ==> 0 <= #[trigger] pos[v] < m && fresh@[pos[v]] == v,
                forall|v: int|
                    0 <= v < n && marks@[v] && rank[v] < k ==> m <= #[trigger] pos[v] < fresh@.len()
                        && fresh@[pos[v]] == v,
                forall|a: int, b: int|
                    0 <= a < n && 0 <= b < n && !marks@[a] && !marks@[b] && rank[a] < rank[b]
                        ==> #[trigger] pos[a] < #[trigger] pos[b],
                forall|a: int, b: int|
                    0 <= a < n && 0 <= b < n && marks@[a] && marks@[b] && rank[a] < rank[b] < k
                        ==> #[trigger] pos[a] < #[trigger] pos[b],
            decreases self.order@.len() - k,
        {
            let x = self.order[k];
            assert(rank[x as int] == k);
            if marks[x] {
                proof {
                    pos = pos.update(x as int, fresh@.len() as int);
                }
                fresh.push(x);
            }
            k = k + 1;
        }
        (fresh, Ghost(pos))
    }

    /// Registers that `store` reads `upstream` under `name`, and that
    /// `upstream` is read by `store`.
    ///
    /// An `upstream` that is no store of the graph is refused with
    /// `UnknownUpstream`. A binding that would make a store depend on itself
    /// is refused with `CyclicDependency`: that is so exactly when a change
    /// of `store` already reaches `upstream`. A refused binding leaves the
    /// graph as it was. No value is recomputed by a binding.
    pub fn bind_upstream(&mut self, store: usize, name: String, upstream: usize) -> (r: Result<
        (),
        StoreError,
    >)
        requires
            old(self).wf(),
            store < old(self)@.len(),
            !old(self)@[store as int].is_source(),
        ensures
            final(self).wf(),
            final(self)@.len() == old(self)@.len(),
            r == (if upstream >= old(self)@.len() {
                Err::<(), StoreError>(StoreError::UnknownUpstream)
            } else if reaches(old(self).wiring(), store as int, upstream as int) {
                Err(StoreError::CyclicDependency)
            } else {
                Ok(())
            }),
            r is Err ==> *final(self) == *old(self),
            r is Ok ==> final(self).bound(old(self), store as int, name, upstream as int),
    {
        if upstream >= self.stores.len() {
            return Err(StoreError::UnknownUpstream);
        }
        let marks = self.affected(store);
        if marks[upstream] {
            return Err(StoreError::CyclicDependency);
        }
        let ghost w = self.wiring();
        let ghost n = self@.len() as int;
        let ghost u = upstream as int;
        let ghost d = store as int;
        let (fresh, Ghost(pos)) = self.reordered(&marks);
        proof {
            let inside = Set::new(|v: int| 0 <= v < n && marks@[v]);
            lemma_reaches_self(w, d);
            assert forall|a: int, b: int| inside.contains(a) && edge(w, a, b) implies inside.contains(
                b,
            ) by {
                lemma_reaches_step(w, d, a, b);
            }
            lemma_add_edge_ranked(w, self.rank@, pos, inside, u, d);
        }
        self.stores[store].add_upstream(name, upstream);
        assert(self@[u].callable()) by {
            assert(old(self)@[u].callable());
        }
        self.stores[upstream].add_downstream(store);
        self.order = fresh;
        self.rank = Ghost(pos);
        proof {
            let g0 = old(self);
            let w2 = add_edge(w, u, d);
            assert(self@[d].sources() =~= w[d].push(u));
            assert forall|x: int| 0 <= x < n && x != d implies #[trigger] self@[x].sources()
                == w[x] by {
                assert(self@[x].upstream() == g0@[x].upstream());
            }
            assert(self.wiring() =~= w2);
            let already = g0@[u].downstream().contains(d);
            lemma_add_edge_has_edge(w, u, d);
            assert forall|x: int, i: int|
                0 <= x < self@.len() && 0 <= i < self@[x].downstream().len() implies edge(
                self.wiring(),
                x,
                #[trigger] self@[x].downstream()[i],
            ) by {
                if !(x == u && !already && i == g0@[u].downstream().len()) {
                    assert(self@[x].downstream()[i] == g0@[x].downstream()[i]);
                    lemma_add_edge_keeps_edges(w, u, d, x, g0@[x].downstream()[i]);
                }
            }
            assert forall|x: int, y: int|
                0 <= x < self@.len() && #[trigger] edge(self.wiring(), x, y)
                implies self@[x].downstream().contains(y) by {
                lemma_add_edge_edges(w, u, d, x, y);
                if edge(w, x, y) {
                    assert(g0@[x].downstream().contains(y));
                    let i = choose|i: int|
                        0 <= i < g0@[x].downstream().len() && g0@[x].downstream()[i] == y;
                    assert(self@[x].downstream()[i] == y);
                } else if !already {
                    assert(self@[u].downstream()[g0@[u].downstream().len() as int] == d);
                }
            }
            assert forall|x: int| 0 <= x < self@.len() implies (
            #[trigger] self@[x].downstream()).no_duplicates() by {
                assert(g0@[x].downstream().no_duplicates());
            }
            assert forall|v: int| 0 <= v < self@.len() implies (#[trigger] self@[v]).callable() by {
                assert(g0@[v].callable());
            }
        }
        Ok(())
    }

    /// What a binding that was accepted did to the graph `before`: `store`
    /// has one more binding, the last, and `upstream` lists `store` among its
    /// readers, once. Nothing else changed.
    pub open spec fn bound(&self, before: &Self, store: int, name: String, upstream: int) -> bool {
        &&& self@.len() == before@.len()
        &&& self.wiring() == add_edge(before.wiring(), upstream, store)
        &&& self@[store].upstream() == before@[store].upstream().push(
            Binding { name, source: upstream as usize },
        )
        &&& self@[upstream].downstream() == (if before@[upstream].downstream().contains(store) {
            before@[upstream].downstream()
        } else {
            before@[upstream].downstream().push(store)
        })
        &&& forall|v: int|
            0 <= v < self@.len() ==> {
                &&& (#[trigger] self@[v]).value() == before@[v].value()
                &&& self@[v].initializer() == before@[v].initializer()
                &&& self@[v].subscribers() == before@[v].subscribers()
                &&& v != store ==> self@[v].upstream() == before@[v].upstream()
                &&& v != upstream ==> self@[v].downstream() == before@[v].downstream()
            }
    }

    /// The number of subscribers of each store.
    pub open spec fn subscriber_counts(&self) -> Seq<nat> {
        Seq::new(self@.len(), |v: int| self@[v].subscribers().len())
    }

    /// What a pulse that left these `outcomes` did with store `v`, in a graph
    /// that was `before` when the pulse began. The pulse started at `root`,
    /// which was given the value `written` or, with none, was recomputed.
    ///
    /// A store that the pulse passed over, a skipped one and a failed one
    /// hold the value they had. A store is skipped exactly when it reads a
    /// store that failed or was skipped. Every other store was recomputed:
    /// its initializer was given the values that the stores it reads hold
    /// after the pulse, and the outcome is what it returned. The subscribers
    /// of a finalized store were called with the value it holds after the
    /// pulse.
    pub open spec fn settled(
        &self,
        before: &Self,
        root: int,
        written: Option<Value>,
        outcomes: Seq<Outcome>,
        v: int,
    ) -> bool {
        match outcomes[v] {
            Outcome::Untouched => self@[v].value() == before@[v].value(),
            Outcome::Skipped => {
                &&& v != root
                &&& self@[v].value() == before@[v].value()
                &&& blocked(self.wiring(), outcomes, v)
            },
            Outcome::Failed(e) => {
                &&& self@[v].value() == before@[v].value()
                &&& !blocked(self.wiring(), outcomes, v)
                &&& (v == root ==> written is None)
                &&& self@[v].initializer() matches Some(f) && computed_by(
                    f,
                    self.inputs(v),
                    Err(e),
                )
            },
            Outcome::Finalized => {
                &&& !blocked(self.wiring(), outcomes, v)
                &&& self@[v].told()
                &&& if v == root && written is Some {
                    self@[v].value() == written->0
                } else {
                    self@[v].initializer() matches Some(f) && computed_by(
                        f,
                        self.inputs(v),
                        Ok(self@[v].value()),
                    )
                }
            },
        }
    }

    /// What one pulse from `root` did to the graph that was `before`, and
    /// what it reports. No edge, function or subscriber changed. The pulse
    /// reached the stores that a change of `root` reaches and no others; it
    /// visited each of them once, none before a store it depends on; each
    /// store is as `settled` says; and the subscribers of each finalized
    /// store, and only those, were called once each when the store was
    /// visited.
    pub open spec fn pulsed(
        &self,
        before: &Self,
        root: int,
        written: Option<Value>,
        report: &PulseReport,
    ) -> bool {
        &&& self.same_wiring(before)
        &&& self.wiring() == before.wiring()
        &&& report.outcomes@.len() == self@.len()
        &&& forall|v: int|
            0 <= v < self@.len() ==> (#[trigger] report.outcomes@[v] is Untouched <==> !reaches(
                self.wiring(),
                root,
                v,
            ))
        &&& forall|v: int|
            0 <= v < self@.len() ==> #[trigger] self.settled(
                before,
                root,
                written,
                report.outcomes@,
                v,
            )
        &&& visits(self.wiring(), root, report.sequence@)
        &&& report.notifications@ == fired(
            report.sequence@,
            report.outcomes@,
            self.subscriber_counts(),
        )
    }

    /// A consistent graph stays so when only values change.
    proof fn lemma_wf_kept(&self, other: &Self)
        requires
            self.wf(),
            other.same_wiring(self),
            other.order@ == self.order@,
            other.rank@ == self.rank@,
        ensures
            other.wf(),
            other.wiring() == self.wiring(),
            other.subscriber_counts() == self.subscriber_counts(),
    {
        self.lemma_mirrored_kept(other);
        assert forall|v: int| 0 <= v < other@.len() implies (#[trigger] other@[v]).callable() by {
            assert(self@[v].callable());
            assert(other@[v].same_but_value(&self@[v]));
        }
        assert forall|v: int|
            0 <= v < other@.len() && (#[trigger] other@[v]).upstream().len() > 0
            implies !other@[v].is_source() by {
            assert(other@[v].same_but_value(&self@[v]));
        }
        assert(other.subscriber_counts() =~= self.subscriber_counts()) by {
            assert forall|v: int| 0 <= v < other@.len() implies other@[v].subscribers().len()
                == self@[v].subscribers().len() by {
                assert(other@[v].same_but_value(&self@[v]));
            }
        }
    }

    /// Adds to `log` the calls of the first `count` subscribers of `store`.
    fn record(store: usize, count: usize, log: &mut Vec<(usize, usize)>)
        ensures
            final(log)@ == old(log)@ + Seq::new(count as nat, |k: int| (store, k as usize)),
    {
        let ghost entries = Seq::new(count as nat, |k: int| (store, k as usize));
        let mut k: usize = 0;
        while k < count
            invariant
                k <= count,
                entries == Seq::new(count as nat, |k: int| (store, k as usize)),
                log@ == old(log)@ + entries.take(k as int),
            decreases count - k,
        {
            log.push((store, k));
            proof {
                assert(entries.take(k + 1) =~= entries.take(k as int).push((store, k)));
                assert(log@ =~= old(log)@ + entries.take(k + 1));
            }
            k = k + 1;
        }
        proof {
            assert(entries.take(count as int) =~= entries);
        }
    }

    /// Writes `value` to the source store `store`, which tells its
    /// subscribers, and records their calls.
    fn write(&mut self, store: usize, value: Value, log: &mut Vec<(usize, usize)>)
        requires
            old(self).wf(),
            store < old(self)@.len(),
            old(self)@[store as int].is_source(),
        ensures
            final(self).wf(),
            final(self).same_wiring(old(self)),
            final(self).order@ == old(self).order@,
            final(self).rank@ == old(self).rank@,
            final(self)@[store as int].value() == value,
            final(self)@[store as int].told(),
            forall|v: int|
                0 <= v < old(self)@.len() && v != store ==> final(self)@[v] == old(self)@[v],
            final(log)@ == old(log)@ + Seq::new(
                old(self)@[store as int].subscribers().len(),
                |k: int| (store, k as usize),
            ),
    {
        assert(self@[store as int].callable());
        let told = self.stores[store].update(value);
        proof {
            assert(self.same_wiring(old(self))) by {
                assert forall|v: int| 0 <= v < self@.len() implies (
                #[trigger] self@[v]).same_but_value(&old(self)@[v]) by {}
            }
            old(self).lemma_wf_kept(self);
        }
        Self::record(store, told, log);
    }

    /// Copies the values that `store` reads, each under the name of its
    /// binding.
    fn gather(&self, store: usize) -> (up: Upstream)
        requires
            self.wf(),
            store < self@.len(),
        ensures
            up@ == self.inputs(store as int),
    {
        let bindings = self.stores[store].get_upstream();
        let mut up = Upstream::new();
        let mut i: usize = 0;
        while i < bindings.len()
            invariant
                self.wf(),
                store < self@.len(),
                bindings@ == self@[store as int].upstream(),
                i <= bindings@.len(),
                up@ == self.inputs(store as int).take(i as int),
            decreases bindings@.len() - i,
        {
            assert(0 <= self.wiring()[store as int][i as int] < self@.len());
            let name = bindings[i].name.clone();
            let value = self.stores[bindings[i].source].get().clone();
            up.push(name, value);
            proof {
                let all = self.inputs(store as int);
                assert(all.take(i + 1) =~= all.take(i as int).push(all[i as int]));
            }
            i = i + 1;
        }
        proof {
            assert(self.inputs(store as int).take(i as int) =~= self.inputs(store as int));
        }
        up
    }

    /// Recomputes the derived store `store` from the values that the stores
    /// it reads hold now. If its initializer returns a value, the store
    /// holds it, its subscribers are told and their calls recorded; if the
    /// initializer fails, the store and the record are as they were.
    fn renew(&mut self, store: usize, log: &mut Vec<(usize, usize)>) -> (outcome: Outcome)
        requires
            old(self).wf(),
            store < old(self)@.len(),
            !old(self)@[store as int].is_source(),
        ensures
            final(self).wf(),
            final(self).same_wiring(old(self)),
            final(self).order@ == old(self).order@,
            final(self).rank@ == old(self).rank@,
            forall|v: int|
                0 <= v < old(self)@.len() && v != store ==> final(self)@[v] == old(self)@[v],
            match outcome {
                Outcome::Finalized => {
                    &&& computed_by(
                        old(self)@[store as int].initializer()->0,
                        old(self).inputs(store as int),
                        Ok(final(self)@[store as int].value()),
                    )
                    &&& final(self)@[store as int].told()
                    &&& final(log)@ == old(log)@ + Seq::new(
                        old(self)@[store as int].subscribers().len(),
                        |k: int| (store, k as usize),
                    )
                },
                Outcome::Failed(e) => {
                    &&& computed_by(
                        old(self)@[store as int].initializer()->0,
                        old(self).inputs(store as int),
                        Err(e),
                    )
                    &&& final(self)@[store as int].value() == old(self)@[store as int].value()
                    &&& final(log)@ == old(log)@
                },
                _ => false,
            },
    {
        let up = self.gather(store);
        assert(self@[store as int].callable());
        let result = self.stores[store].initialize_from_upstream_origins(&up);
        proof {
            assert(self.same_wiring(old(self))) by {
                assert forall|v: int| 0 <= v < self@.len() implies (
                #[trigger] self@[v]).same_but_value(&old(self)@[v]) by {}
            }
            old(self).lemma_wf_kept(self);
        }
        match result {
            Ok(_) => {
                let count = self.stores[store].subscriptions.len();
                Self::record(store, count, log);
                Outcome::Finalized
            },
            Err(e) => Outcome::Failed(e),
        }
    }

    /// What holds of a store after a pulse still holds when neither the
    /// store nor a store it reads changes.
    proof fn lemma_settled_kept(
        &self,
        other: &Self,
        before: &Self,
        root: int,
        written: Option<Value>,
        o1: Seq<Outcome>,
        o2: Seq<Outcome>,
        v: int,
    )
        requires
            0 <= v < self@.len(),
            self.settled(before, root, written, o1, v),
            other.same_wiring(self),
            other.wiring() == self.wiring(),
            other@[v].value() == self@[v].value(),
            o2[v] == o1[v],
            forall|k: int|
                0 <= k < self.wiring()[v].len() ==> o2[#[trigger] self.wiring()[v][k]]
                    == o1[self.wiring()[v][k]] && other@[self.wiring()[v][k]].value()
                    == self@[self.wiring()[v][k]].value(),
        ensures
            other.settled(before, root, written, o2, v),
    {
        let w = self.wiring();
        assert(other@[v].same_but_value(&self@[v]));
        assert(other.inputs(v) =~= self.inputs(v)) by {
            assert forall|k: int| 0 <= k < self@[v].upstream().len() implies other.inputs(v)[k]
                == self.inputs(v)[k] by {
                assert(w[v][k] == self@[v].upstream()[k].source as int);
            }
        }
        if blocked(w, o1, v) {
            let k = choose|k: int| 0 <= k < w[v].len() && stalled(o1[#[trigger] w[v][k]]);
            assert(stalled(o2[w[v][k]]));
        }
        if blocked(w, o2, v) {
            let k = choose|k: int| 0 <= k < w[v].len() && stalled(o2[#[trigger] w[v][k]]);
            assert(stalled(o1[w[v][k]]));
        }
    }

    /// How far a pulse has come when it has walked the first `k` places of
    /// the order: the stores at these places, and `root`, are dealt with and
    /// recorded; the others are as they were.
    #[verifier::opaque]
    spec fn progress(
        &self,
        before: &Self,
        root: int,
        written: Option<Value>,
        marks: Seq<bool>,
        outcomes: Seq<Outcome>,
        sequence: Seq<usize>,
        log: Seq<(usize, usize)>,
        k: int,
    ) -> bool {
        let n = before@.len();
        let rank = before.rank@;
        &&& forall|v: int|
            0 <= v < n && (rank[v] < k || v == root) ==> (#[trigger] outcomes[v] is Untouched
                <==> !marks[v])
        &&& forall|v: int|
            0 <= v < n && (rank[v] < k || v == root) ==> #[trigger] self.settled(
                before,
                root,
                written,
                outcomes,
                v,
            )
        &&& forall|v: int|
            0 <= v < n && !(rank[v] < k || v == root) ==> #[trigger] outcomes[v] is Untouched
                && self@[v].value() == before@[v].value()
        &&& forall|i: int|
            0 <= i < sequence.len() ==> 0 <= #[trigger] sequence[i] < n && marks[sequence[i] as int]
                && (rank[sequence[i] as int] < k || sequence[i] == root)
        &&& forall|i: int, j: int|
            0 <= i < j < sequence.len() ==> rank[#[trigger] sequence[i] as int]
                < rank[#[trigger] sequence[j] as int]
        &&& forall|v: int|
            0 <= v < n && (rank[v] < k || v == root) && marks[v] ==> exists|i: int|
                0 <= i < sequence.len() && #[trigger] sequence[i] == v
        &&& log == fired(sequence, outcomes, before.subscriber_counts())
    }

    /// The graph is that of `before` with other values.
    spec fn follows(&self, before: &Self) -> bool {
        &&& before.wf()
        &&& self.wf()
        &&& self.same_wiring(before)
        &&& self.wiring() == before.wiring()
        &&& self.order@ == before.order@
        &&& self.rank@ == before.rank@
    }

    /// The marks say which stores a change of `root` reaches.
    spec fn marked(&self, root: int, marks: Seq<bool>) -> bool {
        &&& marks.len() == self@.len()
        &&& forall|v: int|
            0 <= v < self@.len() ==> (#[trigger] marks[v] <==> reaches(self.wiring(), root, v))
    }

    proof fn lemma_progress_start(
        &self,
        before: &Self,
        root: usize,
        written: Option<Value>,
        marks: Seq<bool>,
        outcomes: Seq<Outcome>,
        log: Seq<(usize, usize)>,
    )
        requires
            self.follows(before),
            root < before@.len(),
            before.marked(root as int, marks),
            outcomes == Seq::new(
                before@.len(),
                |v: int| if v == root { outcomes[root as int] } else { Outcome::Untouched },
            ),
            !(outcomes[root as int] is Untouched),
            forall|v: int|
                0 <= v < before@.len() && v != root ==> self@[v].value() == before@[v].value(),
            self.settled(before, root as int, written, outcomes, root as int),
            log == fired(seq![root], outcomes, before.subscriber_counts()),
        ensures
            self.progress(before, root as int, written, marks, outcomes, seq![root], log, 0),
    {
        reveal(StoreGraph::progress);
        lemma_reaches_self(before.wiring(), root as int);
        let sequence = seq![root];
        assert(sequence[0] == root);
    }

    /// The store at the place the pulse has come to is still as it was.
    proof fn lemma_progress_next(
        &self,
        before: &Self,
        root: int,
        written: Option<Value>,
        marks: Seq<bool>,
        outcomes: Seq<Outcome>,
        sequence: Seq<usize>,
        log: Seq<(usize, usize)>,
        k: int,
    )
        requires
            self.follows(before),
            0 <= k < before.order@.len(),
            before.order@[k] != root,
            self.progress(before, root, written, marks, outcomes, sequence, log, k),
        ensures
            outcomes[before.order@[k] as int] is Untouched,
            self@[before.order@[k] as int].value() == before@[before.order@[k] as int].value(),
    {
        reveal(StoreGraph::progress);
        assert(before.rank@[before.order@[k] as int] == k);
    }

    proof fn lemma_progress_pass(
        &self,
        before: &Self,
        root: int,
        written: Option<Value>,
        marks: Seq<bool>,
        outcomes: Seq<Outcome>,
        sequence: Seq<usize>,
        log: Seq<(usize, usize)>,
        k: int,
    )
        requires
            self.follows(before),
            0 <= root < before@.len(),
            before.marked(root, marks),
            outcomes.len() == before@.len(),
            0 <= k < before.order@.len(),
            before.order@[k] == root || !marks[before.order@[k] as int],
            self.progress(before, root, written, marks, outcomes, sequence, log, k),
        ensures
            self.progress(before, root, written, marks, outcomes, sequence, log, k + 1),
    {
        reveal(StoreGraph::progress);
        let n = before@.len();
        let rank = before.rank@;
        let x = before.order@[k] as int;
        assert(rank[x] == k);
        assert forall|v: int| 0 <= v < n && rank[v] < k + 1 && v != x implies rank[v] < k by {
            assert(before.order@[rank[v]] == v);
        }
        assert forall|v: int| 0 <= v < n && (rank[v] < k + 1 || v == root) implies #[trigger]
            self.settled(before, root, written, outcomes, v) by {
            if v == x && v != root {
                assert(outcomes[v] is Untouched);
            }
        }
        assert forall|v: int|
            0 <= v < n && (rank[v] < k + 1 || v == root) && marks[v] implies exists|i: int|
            0 <= i < sequence.len() && #[trigger] sequence[i] == v by {
            assert(rank[v] < k || v == root);
        }
    }

    /// A store that the pulse reaches, other than its root, has an
    /// initializer, and the stores it reads stand before it.
    proof fn lemma_reached_is_derived(&self, root: int, x: int)
        requires
            self.wf(),
            0 <= root < self@.len(),
            0 <= x < self@.len(),
            x != root,
            reaches(self.wiring(), root, x),
        ensures
            self@[x].initializer() is Some,
            self@[x].callable(),
            self.rank@[root] < self.rank@[x],
    {
        let w = self.wiring();
        lemma_reaches_last(w, root, x);
        let u = choose|u: int| reaches(w, root, u) && #[trigger] edge(w, u, x);
        assert(self@[x].sources().len() > 0);
        assert(self@[x].upstream().len() > 0);
        lemma_reaches_ranks(w, self.rank@, root, x);
    }

    /// What holds of the store that the pulse has just visited.
    proof fn lemma_visit_settled(
        &self,
        after: &Self,
        before: &Self,
        root: int,
        written: Option<Value>,
        o1: Seq<Outcome>,
        o2: Seq<Outcome>,
        x: int,
    )
        requires
            self.follows(before),
            after.follows(before),
            0 <= x < before@.len(),
            x != root,
            o1.len() == before@.len(),
            o2 == o1.update(x, o2[x]),
            forall|v: int| 0 <= v < before@.len() && v != x ==> after@[v] == self@[v],
            self@[x].value() == before@[x].value(),
            blocked(before.wiring(), o1, x) ==> o2[x] == Outcome::Skipped && after@[x].value()
                == self@[x].value(),
            !blocked(before.wiring(), o1, x) ==> self@[x].initializer() is Some && match o2[x] {
                Outcome::Finalized => computed_by(
                    self@[x].initializer()->0,
                    self.inputs(x),
                    Ok(after@[x].value()),
                ) && after@[x].told(),
                Outcome::Failed(e) => computed_by(self@[x].initializer()->0, self.inputs(x), Err(e))
                    && after@[x].value() == self@[x].value(),
                _ => false,
            },
        ensures
            after.settled(before, root, written, o2, x),
    {
        let w = before.wiring();
        assert forall|i: int| 0 <= i < w[x].len() implies #[trigger] w[x][i] != x && 0 <= w[x][i]
            < before@.len() by {
            assert(before.rank@[w[x][i]] < before.rank@[x]);
        }
        assert(after@[x].same_but_value(&before@[x]));
        assert(self@[x].same_but_value(&before@[x]));
        assert(after.inputs(x) =~= self.inputs(x)) by {
            assert forall|i: int| 0 <= i < self@[x].upstream().len() implies after.inputs(x)[i]
                == self.inputs(x)[i] by {
                assert(w[x][i] == self@[x].upstream()[i].source as int);
            }
        }
        if blocked(w, o2, x) {
            let i = choose|i: int| 0 <= i < w[x].len() && stalled(o2[#[trigger] w[x][i]]);
            assert(stalled(o1[w[x][i]]));
        }
        if blocked(w, o1, x) {
            let i = choose|i: int| 0 <= i < w[x].len() && stalled(o1[#[trigger] w[x][i]]);
            assert(stalled(o2[w[x][i]]));
        }
    }

    proof fn lemma_progress_visit(
        &self,
        after: &Self,
        before: &Self,
        root: int,
        written: Option<Value>,
        marks: Seq<bool>,
        o1: Seq<Outcome>,
        o2: Seq<Outcome>,
        sequence: Seq<usize>,
        l1: Seq<(usize, usize)>,
        l2: Seq<(usize, usize)>,
        k: int,
    )
        requires
            self.follows(before),
            after.follows(before),
            0 <= root < before@.len(),
            before.marked(root, marks),
            o1.len() == before@.len(),
            0 <= k < before.order@.len(),
            before.order@[k] != root,
            marks[before.order@[k] as int],
            self.progress(before, root, written, marks, o1, sequence, l1, k),
            o2 == o1.update(before.order@[k] as int, o2[before.order@[k] as int]),
            !(o2[before.order@[k] as int] is Untouched),
            forall|v: int|
                0 <= v < before@.len() && v != before.order@[k] ==> after@[v] == self@[v],
            after.settled(before, root, written, o2, before.order@[k] as int),
            l2 == l1 + (if o2[before.order@[k] as int] is Finalized {
                Seq::new(
                    before.subscriber_counts()[before.order@[k] as int],
                    |i: int| (before.order@[k], i as usize),
                )
            } else {
                Seq::empty()
            }),
        ensures
            after.progress(
                before,
                root,
                written,
                marks,
                o2,
                sequence.push(before.order@[k]),
                l2,
                k + 1,
            ),
    {
        reveal(StoreGraph::progress);
        let n = before@.len();
        let rank = before.rank@;
        let w = before.wiring();
        let x = before.order@[k] as int;
        let s2 = sequence.push(before.order@[k]);
        let counts = before.subscriber_counts();
        assert(rank[x] == k);
        lemma_reaches_ranks(w, rank, root, x);
        assert forall|v: int| 0 <= v < n && rank[v] < k + 1 && v != x implies rank[v] < k by {
            assert(before.order@[rank[v]] == v);
        }
        assert forall|v: int| 0 <= v < n && (rank[v] < k + 1 || v == root) implies #[trigger]
            after.settled(before, root, written, o2, v) by {
            if v != x {
                assert(rank[v] < k || v == root);
                assert(self.settled(before, root, written, o1, v));
                assert forall|i: int| 0 <= i < w[v].len() implies #[trigger] w[v][i] != x && 0
                    <= w[v][i] < n by {
                    assert(rank[w[v][i]] < rank[v]);
                }
                self.lemma_settled_kept(after, before, root, written, o1, o2, v);
            }
        }
        assert forall|v: int|
            0 <= v < n && (rank[v] < k + 1 || v == root) && marks[v] implies exists|i: int|
            0 <= i < s2.len() && #[trigger] s2[i] == v by {
            if v == x {
                assert(s2[sequence.len() as int] == x);
            } else {
                let i = choose|i: int| 0 <= i < sequence.len() && #[trigger] sequence[i] == v;
                assert(s2[i] == v);
            }
        }
        assert forall|i: int, j: int| 0 <= i < j < s2.len() implies rank[#[trigger] s2[i] as int]
            < rank[#[trigger] s2[j] as int] by {
            if j == sequence.len() {
                assert(s2[i] == sequence[i]);
            } else {
                assert(s2[i] == sequence[i] && s2[j] == sequence[j]);
            }
        }
        assert forall|i: int| 0 <= i < s2.len() implies 0 <= #[trigger] s2[i] < n && marks[s2[i] as int]
            && (rank[s2[i] as int] < k + 1 || s2[i] == root) by {
            if i < sequence.len() {
                assert(s2[i] == sequence[i]);
            }
        }
        assert(s2.drop_last() =~= sequence);
        assert forall|i: int| 0 <= i < sequence.len() implies o1[#[trigger] sequence[i] as int]
            == o2[sequence[i] as int] by {
            assert(sequence[i] != x);
        }
        lemma_fired_agrees(sequence, o1, o2, counts);
        assert(l2 == fired(s2, o2, counts));
    }

    proof fn lemma_progress_end(
        &self,
        before: &Self,
        root: int,
        written: Option<Value>,
        marks: Seq<bool>,
        report: &PulseReport,
    )
        requires
            self.follows(before),
            0 <= root < before@.len(),
            before.marked(root, marks),
            report.outcomes@.len() == before@.len(),
            self.progress(
                before,
                root,
                written,
                marks,
                report.outcomes@,
                report.sequence@,
                report.notifications@,
                before.order@.len() as int,
            ),
        ensures
            self.pulsed(before, root, written, report),
    {
        reveal(StoreGraph::progress);
        let w = before.wiring();
        let rank = before.rank@;
        let sequence = report.sequence@;
        before.lemma_wf_kept(self);
        assert forall|i: int, j: int| 0 <= i < j < sequence.len() implies !reaches(
            w,
            #[trigger] sequence[j] as int,
            #[trigger] sequence[i] as int,
        ) by {
            if reaches(w, sequence[j] as int, sequence[i] as int) {
                lemma_reaches_ranks(w, rank, sequence[j] as int, sequence[i] as int);
            }
        }
        assert forall|i: int, j: int|
            0 <= i < sequence.len() && 0 <= j < sequence.len() && i != j implies sequence[i]
            != sequence[j] by {
            if i < j {
                assert(rank[sequence[i] as int] < rank[sequence[j] as int]);
            } else {
                assert(rank[sequence[j] as int] < rank[sequence[i] as int]);
            }
        }
        assert forall|v: int| 0 <= v < w.len() && reaches(w, root, v) implies exists|i: int|
            0 <= i < sequence.len() && #[trigger] sequence[i] == v by {
            assert(marks[v]);
            assert(rank[v] < before.order@.len());
        }
        assert forall|i: int| 0 <= i < sequence.len() implies reaches(
            w,
            root,
            #[trigger] sequence[i] as int,
        ) by {
            assert(marks[sequence[i] as int]);
        }
        assert(visits(w, root, sequence));
        assert forall|v: int| 0 <= v < self@.len() implies (
        #[trigger] report.outcomes@[v] is Untouched <==> !reaches(self.wiring(), root, v)) by {
            assert(rank[v] < before.order@.len());
            assert(marks[v] <==> reaches(w, root, v));
        }
        assert forall|v: int| 0 <= v < self@.len() implies #[trigger] self.settled(
            before,
            root,
            written,
            report.outcomes@,
            v,
        ) by {
            assert(rank[v] < before.order@.len());
        }
    }

    /// Carries a change of `root` to the stores that depend on it: walks the
    /// stores in an order in which each comes after those it reads, and
    /// recomputes each store that the change reaches, unless a store it reads
    /// failed or was skipped. `root` itself has been dealt with, with the
    /// outcome `first`.
    fn propagate(
        &mut self,
        root: usize,
        first: Outcome,
        log: Vec<(usize, usize)>,
        Ghost(before): Ghost<Self>,
        Ghost(written): Ghost<Option<Value>>,
    ) -> (report: PulseReport)
        requires
            old(self).follows(&before),
            root < before@.len(),
            first is Finalized || first is Failed,
            forall|v: int|
                0 <= v < before@.len() && v != root ==> old(self)@[v].value() == before@[v].value(),
            old(self).settled(
                &before,
                root as int,
                written,
                Seq::new(
                    before@.len(),
                    |v: int| if v == root { first } else { Outcome::Untouched },
                ),
                root as int,
            ),
            log@ == fired(
                seq![root],
                Seq::new(
                    before@.len(),
                    |v: int| if v == root { first } else { Outcome::Untouched },
                ),
                before.subscriber_counts(),
            ),
        ensures
            final(self).wf(),
            final(self).pulsed(&before, root as int, written, &report),
            report.outcomes@[root as int] == first,
    {
        let ghost w = before.wiring();
        let ghost n = before@.len() as int;
        let ghost r = root as int;
        let marks = self.affected(root);
        let count = self.stores.len();
        let mut outcomes: Vec<Outcome> = vec![Outcome::Untouched; count];
        let mut stuck: Vec<bool> = vec![false; count];
        outcomes.set(root, first);
        stuck.set(root, matches!(first, Outcome::Failed(_)));
        let mut sequence: Vec<usize> = Vec::new();
        sequence.push(root);
        let mut log = log;
        proof {
            assert(outcomes@ =~= Seq::new(
                before@.len(),
                |v: int| if v == root { first } else { Outcome::Untouched },
            ));
            assert(sequence@ =~= seq![root]);
            self.lemma_progress_start(&before, root, written, marks@, outcomes@, log@);
        }
        let mut k: usize = 0;
        while k < self.order.len()
            invariant
                self.follows(&before),
                w == before.wiring(),
                n == before@.len(),
                count == n,
                r == root,
                0 <= r < n,
                before.marked(r, marks@),
                outcomes@.len() == n,
                stuck@.len() == n,
                outcomes@[r] == first,
                forall|v: int| 0 <= v < n ==> #[trigger] stuck@[v] == stalled(outcomes@[v]),
                k <= self.order@.len(),
                self.progress(&before, r, written, marks@, outcomes@, sequence@, log@, k as int),
            decreases self.order@.len() - k,
        {
            let x = self.order[k];
            if x != root && marks[x] {
                let ghost g1 = *self;
                let ghost o1 = outcomes@;
                let ghost l1 = log@;
                let ghost s1 = sequence@;
                proof {
                    self.lemma_progress_next(
                        &before,
                        r,
                        written,
                        marks@,
                        outcomes@,
                        sequence@,
                        log@,
                        k as int,
                    );
                    before.lemma_reached_is_derived(r, x as int);
                    assert(g1@[x as int].same_but_value(&before@[x as int]));
                }
                let skip = self.reads_marked(x, &stuck);
                proof {
                    let wx = self.wiring()[x as int];
                    if skip {
                        let i = choose|i: int| 0 <= i < wx.len() && stuck@[#[trigger] wx[i]];
                        assert(0 <= wx[i] < n);
                        assert(stalled(o1[wx[i]]));
                    }
                    if blocked(w, o1, x as int) {
                        let i = choose|i: int| 0 <= i < wx.len() && stalled(o1[#[trigger] wx[i]]);
                        assert(0 <= wx[i] < n);
                        assert(stuck@[wx[i]]);
                    }
                    assert(skip == blocked(w, o1, x as int));
                }
                if skip {
                    outcomes.set(x, Outcome::Skipped);
                    stuck.set(x, true);
                } else {
                    let outcome = self.renew(x, &mut log);
                    outcomes.set(x, outcome);
                    stuck.set(x, matches!(outcome, Outcome::Failed(_)));
                }
                sequence.push(x);
                proof {
                    let o2 = outcomes@;
                    assert(o2 == o1.update(x as int, o2[x as int]));
                    g1.lemma_wf_kept(self);
                    assert(self.same_wiring(&before)) by {
                        assert forall|v: int| 0 <= v < n implies (#[trigger] self@[v]).same_but_value(
                            &before@[v],
                        ) by {
                            assert(self@[v].same_but_value(&g1@[v]));
                            assert(g1@[v].same_but_value(&before@[v]));
                        }
                    }
                    g1.lemma_visit_settled(self, &before, r, written, o1, o2, x as int);
                    assert(before.subscriber_counts()[x as int] == g1@[x as int].subscribers().len());
                    g1.lemma_progress_visit(
                        self,
                        &before,
                        r,
                        written,
                        marks@,
                        o1,
                        o2,
                        s1,
                        l1,
                        log@,
                        k as int,
                    );
                }
            } else {
                proof {
                    self.lemma_progress_pass(
                        &before,
                        r,
                        written,
                        marks@,
                        outcomes@,
                        sequence@,
                        log@,
                        k as int,
                    );
                }
            }
            k = k + 1;
        }
        let report = PulseReport { outcomes, sequence, notifications: log };
        proof {
            self.lemma_progress_end(&before, r, written, marks@, &report);
        }
        report
    }

    /// Writes `new_value` to the source store `store` and runs the pulse
    /// that this starts: the subscribers of `store` are told, every store
    /// that depends on `store` is recomputed once, after the stores it reads,
    /// and the subscribers of each recomputed store are told.
    ///
    /// A store whose initializer fails keeps its value, and the stores that
    /// depend on it are skipped; the rest of the pulse goes on.
    pub fn update(&mut self, store: usize, new_value: Value) -> (report: PulseReport)
        requires
            old(self).wf(),
            store < old(self)@.len(),
            old(self)@[store as int].is_source(),
        ensures
            final(self).wf(),
            final(self).pulsed(old(self), store as int, Some(new_value), &report),
            report.outcomes@[store as int] == Outcome::Finalized,
            final(self)@[store as int].value() == new_value,
    {
        let ghost before = *self;
        let mut log: Vec<(usize, usize)> = Vec::new();
        self.write(store, new_value, &mut log);
        proof {
            let start = Seq::new(
                before@.len(),
                |v: int| if v == store { Outcome::Finalized } else { Outcome::Untouched },
            );
            before.lemma_wf_kept(self);
            assert(before@[store as int].upstream().len() == 0);
            assert(self.wiring()[store as int].len() == 0);
            lemma_fired_one(store, start, before.subscriber_counts());
            assert(log@ =~= fired(seq![store], start, before.subscriber_counts()));
        }
        let report = self.propagate(
            store,
            Outcome::Finalized,
            log,
            Ghost(before),
            Ghost(Some(new_value)),
        );
        proof {
            assert(self.settled(&before, store as int, Some(new_value), report.outcomes@, store as int));
        }
        report
    }

    /// Recomputes the derived store `store` from the stores it reads and
    /// runs the pulse that this starts, as `update` does for a source store.
    /// If the initializer fails, `store` keeps its value and every store that
    /// depends on it is skipped.
    pub fn recompute(&mut self, store: usize) -> (report: PulseReport)
        requires
            old(self).wf(),
            store < old(self)@.len(),
            !old(self)@[store as int].is_source(),
        ensures
            final(self).wf(),
            final(self).pulsed(old(self), store as int, None, &report),
            report.outcomes@[store as int] is Finalized || report.outcomes@[store as int] is Failed,
    {
        let ghost before = *self;
        let ghost w = self.wiring();
        let mut log: Vec<(usize, usize)> = Vec::new();
        let first = self.renew(store, &mut log);
        proof {
            let start = Seq::new(
                before@.len(),
                |v: int| if v == store { first } else { Outcome::Untouched },
            );
            before.lemma_wf_kept(self);
            assert forall|i: int| 0 <= i < w[store as int].len() implies #[trigger] w[store as int][i]
                != store && 0 <= w[store as int][i] < before@.len() by {
                assert(before.rank@[w[store as int][i]] < before.rank@[store as int]);
            }
            assert(self@[store as int].same_but_value(&before@[store as int]));
            assert(self.inputs(store as int) =~= before.inputs(store as int)) by {
                assert forall|i: int|
                    0 <= i < before@[store as int].upstream().len() implies self.inputs(
                    store as int,
                )[i] == before.inputs(store as int)[i] by {
                    assert(w[store as int][i] == before@[store as int].upstream()[i].source as int);
                }
            }
            if blocked(w, start, store as int) {
                let i = choose|i: int|
                    0 <= i < w[store as int].len() && stalled(start[#[trigger] w[store as int][i]]);
                assert(false);
            }
            lemma_fired_one(store, start, before.subscriber_counts());
            assert(log@ =~= fired(seq![store], start, before.subscriber_counts()));
        }
        self.propagate(store, first, log, Ghost(before), Ghost(None))
    }

    /// What it did to the graph `before` to add the derived store `store`
    /// with its bindings and to compute its first value: the store is the
    /// last of the graph and reads what `bindings` name; the stores that were
    /// there are as they were, but that those it reads list it as a reader;
    /// and the new store holds what its initializer returned for the values
    /// it reads, or `val` if the initializer failed.
    pub open spec fn derived_added(
        &self,
        before: &Self,
        store: int,
        val: Value,
        initializer: F,
        bindings: Seq<Binding>,
        report: &PulseReport,
    ) -> bool {
        &&& store == before@.len()
        &&& self@.len() == before@.len() + 1
        &&& self@[store].initializer() == Some(initializer)
        &&& self@[store].upstream() == bindings
        &&& self@[store].subscribers().len() == 0
        &&& self@[store].downstream().len() == 0
        &&& forall|v: int|
            0 <= v < before@.len() ==> {
                &&& (#[trigger] self@[v]).value() == before@[v].value()
                &&& self@[v].initializer() == before@[v].initializer()
                &&& self@[v].subscribers() == before@[v].subscribers()
                &&& self@[v].upstream() == before@[v].upstream()
            }
        &&& report.outcomes@.len() == self@.len()
        &&& forall|v: int| 0 <= v < before@.len() ==> #[trigger] report.outcomes@[v] is Untouched
        &&& report.sequence@ == seq![store as usize]
        &&& report.notifications@.len() == 0
        &&& match report.outcomes@[store] {
            Outcome::Finalized => computed_by(
                initializer,
                self.inputs(store),
                Ok(self@[store].value()),
            ),
            Outcome::Failed(e) => self@[store].value() == val && computed_by(
                initializer,
                self.inputs(store),
                Err(e),
            ),
            _ => false,
        }
    }

    /// Adds a derived store that reads the stores that `bindings` name, and
    /// computes its first value from them. Returns the index of the store
    /// and the record of that computation.
    ///
    /// If a binding names a store that is not in the graph, nothing is added
    /// and `UnknownUpstream` is returned. If the initializer fails, the
    /// store is added all the same and holds `val`.
    pub fn add_derived(&mut self, val: Value, initializer: F, bindings: &Vec<Binding>) -> (r: Result<
        (usize, PulseReport),
        StoreError,
    >)
        requires
            old(self).wf(),
            forall|up: &Upstream| #[trigger] call_requires(initializer, (up,)),
        ensures
            final(self).wf(),
            r is Err <==> exists|k: int|
                0 <= k < bindings@.len() && (#[trigger] bindings@[k]).source >= old(self)@.len(),
            r matches Err(e) ==> e == StoreError::UnknownUpstream && *final(self) == *old(self),
            r matches Ok(added) ==> final(self).derived_added(
                old(self),
                added.0 as int,
                val,
                initializer,
                bindings@,
                &added.1,
            ),
    {
        let n = self.stores.len();
        let mut k: usize = 0;
        while k < bindings.len()
            invariant
                *self == *old(self),
                self.wf(),
                n == self@.len(),
                k <= bindings@.len(),
                forall|j: int| 0 <= j < k ==> (#[trigger] bindings@[j]).source < n,
            decreases bindings@.len() - k,
        {
            if bindings[k].source >= n {
                return Err(StoreError::UnknownUpstream);
            }
            k = k + 1;
        }
        let store = self.add_store(val, Some(initializer));
        proof {
            assert(self@[store as int].upstream() =~= bindings@.take(0));
            assert forall|d: int| !edge(self.wiring(), store as int, d) by {
                if edge(self.wiring(), store as int, d) {
                    let i = choose|i: int|
                        0 <= i < self.wiring()[d].len() && self.wiring()[d][i] == store;
                    assert(edge(old(self).wiring(), store as int, d));
                    old(self).lemma_wf_acyclic();
                    assert(0 <= old(self).wiring()[d][i] < old(self)@.len());
                }
            }
        }
        let mut k: usize = 0;
        while k < bindings.len()
            invariant
                self.wf(),
                n == old(self)@.len(),
                store == n,
                self@.len() == n + 1,
                k <= bindings@.len(),
                forall|j: int| 0 <= j < bindings@.len() ==> (#[trigger] bindings@[j]).source < n,
                self@[store as int].upstream() == bindings@.take(k as int),
                self@[store as int].value() == val,
                self@[store as int].initializer() == Some(initializer),
                self@[store as int].subscribers().len() == 0,
                self@[store as int].downstream().len() == 0,
                forall|v: int|
                    0 <= v < n ==> {
                        &&& (#[trigger] self@[v]).value() == old(self)@[v].value()
                        &&& self@[v].initializer() == old(self)@[v].initializer()
                        &&& self@[v].subscribers() == old(self)@[v].subscribers()
                        &&& self@[v].upstream() == old(self)@[v].upstream()
                    },
                forall|d: int| !edge(self.wiring(), store as int, d),
            decreases bindings@.len() - k,
        {
            let ghost g1 = *self;
            let ghost w = self.wiring();
            let name = bindings[k].name.clone();
            let source = bindings[k].source;
            proof {
                assert(bindings@[k as int].source < n);
                if reaches(w, store as int, source as int) {
                    lemma_unread_reaches_itself(w, store as int, source as int);
                }
            }
            let bound = self.bind_upstream(store, name, source);
            proof {
                assert(bound is Ok);
                assert(self.bound(&g1, store as int, name, source as int));
                assert(Binding { name, source } == bindings@[k as int]);
                assert(bindings@.take(k + 1) =~= bindings@.take(k as int).push(bindings@[k as int]));
                assert forall|d: int| !edge(self.wiring(), store as int, d) by {
                    if edge(self.wiring(), store as int, d) {
                        lemma_add_edge_edges(w, source as int, store as int, store as int, d);
                    }
                }
                assert forall|v: int| 0 <= v < n implies (#[trigger] self@[v]).upstream() == old(
                    self,
                )@[v].upstream() by {
                    assert(g1@[v].upstream() == old(self)@[v].upstream());
                }
            }
            k = k + 1;
        }
        let ghost g2 = *self;
        let report = self.recompute(store);
        proof {
            let w = self.wiring();
            assert(bindings@.take(k as int) =~= bindings@);
            assert(self@[store as int].same_but_value(&g2@[store as int]));
            assert forall|v: int| 0 <= v < n implies {
                &&& (#[trigger] self@[v]).value() == old(self)@[v].value()
                &&& self@[v].initializer() == old(self)@[v].initializer()
                &&& self@[v].subscribers() == old(self)@[v].subscribers()
                &&& self@[v].upstream() == old(self)@[v].upstream()
                &&& report.outcomes@[v] is Untouched
            } by {
                if reaches(w, store as int, v) {
                    lemma_unread_reaches_itself(w, store as int, v);
                }
                assert(self.settled(&g2, store as int, None, report.outcomes@, v));
                assert(self@[v].same_but_value(&g2@[v]));
            }
            lemma_reaches_self(w, store as int);
            assert(self.settled(&g2, store as int, None, report.outcomes@, store as int));
            let sequence = report.sequence@;
            assert(sequence =~= seq![store]) by {
                let i = choose|i: int| 0 <= i < sequence.len() && #[trigger] sequence[i] == store as int;
                assert forall|j: int| 0 <= j < sequence.len() implies sequence[j] == store by {
                    assert(reaches(w, store as int, sequence[j] as int));
                    lemma_unread_reaches_itself(w, store as int, sequence[j] as int);
                }
                if sequence.len() > 1 {
                    assert(sequence[0] == sequence[1]);
                }
            }
            lemma_fired_one(store, report.outcomes@, self.subscriber_counts());
            assert(self.subscriber_counts()[store as int] == 0);
        }
        Ok((store, report))
    }

    /// The number of stores.
    pub fn len(&self) -> (n: usize)
        ensures
            n == self@.len(),
    {
        self.stores.len()
    }

    /// Whether `store` is a store of this graph.
    pub fn contains(&self, store: usize) -> (found: bool)
        ensures
            found == (store < self@.len()),
    {
        store < self.stores.len()
    }

    /// Whether `store` is a source store: one without an initializer.
    pub fn is_source(&self, store: usize) -> (source: bool)
        requires
            store < self@.len(),
        ensures
            source == self@[store as int].is_source(),
    {
        self.stores[store].initializer.is_none()
    }

    /// The current value of `store`. Nothing is recomputed by a read.
    pub fn get(&self, store: usize) -> (v: &Value)
        requires
            store < self@.len(),
        ensures
            *v == self@[store as int].value(),
    {
        self.stores[store].get()
    }

    /// The bindings of `store`: the stores it reads and the name of each, in
    /// the order they were bound.
    pub fn upstream_of(&self, store: usize) -> (bindings: &Vec<Binding>)
        requires
            store < self@.len(),
        ensures
            bindings@ == self@[store as int].upstream(),
    {
        self.stores[store].get_upstream()
    }

    /// The stores to revisit when `store` changes: those that read it, each
    /// once, in the order they first bound it.
    pub fn downstream_of(&self, store: usize) -> (readers: &Vec<usize>)
        requires
            self.wf(),
            store < self@.len(),
        ensures
            readers@.map_values(|d: usize| d as int) == self@[store as int].downstream(),
            readers@.no_duplicates(),
            forall|d: int|
                edge(self.wiring(), store as int, d) <==> 0 <= d < self@.len()
                    && #[trigger] readers@.contains(d as usize),
    {
        let readers = &self.stores[store].downstream_stores;
        let n = self.stores.len();
        proof {
            assert(self@.len() == n);
            let down = self@[store as int].downstream();
            assert forall|i: int, j: int|
                0 <= i < readers@.len() && 0 <= j < readers@.len() && i != j implies readers@[i]
                != readers@[j] by {
                assert(down[i] != down[j]);
            }
            assert forall|d: int|
                edge(self.wiring(), store as int, d) <==> 0 <= d < self@.len()
                    && #[trigger] readers@.contains(d as usize) by {
                if edge(self.wiring(), store as int, d) {
                    assert(down.contains(d));
                    let i = choose|i: int| 0 <= i < down.len() && down[i] == d;
                    assert(readers@[i] == d as usize);
                }
                if 0 <= d < self@.len() && readers@.contains(d as usize) {
                    let i = choose|i: int| 0 <= i < readers@.len() && readers@[i] == d as usize;
                    assert(down[i] == d);
                }
            }
        }
        readers
    }
}

} // verus!
