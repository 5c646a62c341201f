//! What holds of every pulse, stated once and proved from the contracts of
//! the graph.

use vstd::prelude::*;
use crate::error::StoreError;
use crate::stores::{blocked, computed_by, fired, stalled, visits, Outcome, PulseReport, StoreGraph};
use crate::upstream::Upstream;
use crate::value::Value;
use crate::wiring::{
    acyclic, edge, is_path, lemma_edge_reaches, lemma_reaches_self, lemma_reaches_step, reaches,
};

verus! {

/// How often `x` occurs in `s`.
pub open spec fn occurrences<A>(s: Seq<A>, x: A) -> nat
    decreases s.len(),
{
    if s.len() == 0 {
        0
    } else {
        occurrences(s.drop_last(), x) + (if s.last() == x {
            1nat
        } else {
            0nat
        })
    }
}

proof fn lemma_occurrences_concat<A>(a: Seq<A>, b: Seq<A>, x: A)
    ensures
        occurrences(a + b, x) == occurrences(a, x) + occurrences(b, x),
    decreases b.len(),
{
    if b.len() == 0 {
        assert(a + b =~= a);
    } else {
        assert((a + b).drop_last() =~= a + b.drop_last());
        assert((a + b).last() == b.last());
        lemma_occurrences_concat(a, b.drop_last(), x);
    }
}

proof fn lemma_occurrences_absent<A>(s: Seq<A>, x: A)
    requires
        forall|i: int| 0 <= i < s.len() ==> s[i] != x,
    ensures
        occurrences(s, x) == 0,
    decreases s.len(),
{
    if s.len() > 0 {
        assert(s.last() == s[s.len() - 1]);
        assert forall|i: int| 0 <= i < s.drop_last().len() implies s.drop_last()[i] != x by {
            assert(s.drop_last()[i] == s[i]);
        }
        lemma_occurrences_absent(s.drop_last(), x);
    }
}

/// The calls of the subscribers of one store: each subscriber once.
proof fn lemma_occurrences_row(store: usize, count: nat, k: usize)
    requires
        count <= usize::MAX,
    ensures
        occurrences(Seq::new(count, |i: int| (store, i as usize)), (store, k)) == (if k < count {
            1nat
        } else {
            0nat
        }),
    decreases count,
{
    let row = Seq::new(count, |i: int| (store, i as usize));
    if count > 0 {
        let shorter = Seq::new((count - 1) as nat, |i: int| (store, i as usize));
        assert(row.drop_last() =~= shorter);
        assert(row.last() == (store, (count - 1) as usize));
        lemma_occurrences_row(store, (count - 1) as nat, k);
    }
}

proof fn lemma_fired_only_visited(
    sequence: Seq<usize>,
    outcomes: Seq<Outcome>,
    counts: Seq<nat>,
    store: usize,
    k: usize,
)
    requires
        forall|i: int| 0 <= i < sequence.len() ==> sequence[i] != store,
    ensures
        occurrences(fired(sequence, outcomes, counts), (store, k)) == 0,
    decreases sequence.len(),
{
    if sequence.len() > 0 {
        let rest = sequence.drop_last();
        let last = sequence.last();
        assert(last == sequence[sequence.len() - 1]);
        assert forall|i: int| 0 <= i < rest.len() implies rest[i] != store by {
            assert(rest[i] == sequence[i]);
        }
        lemma_fired_only_visited(rest, outcomes, counts, store, k);
        let row = if outcomes[last as int] is Finalized {
            Seq::new(counts[last as int], |i: int| (last, i as usize))
        } else {
            Seq::empty()
        };
        lemma_occurrences_absent(row, (store, k));
        lemma_occurrences_concat(fired(rest, outcomes, counts), row, (store, k));
    }
}

/// Each subscriber is called exactly once in a pulse that finalizes its
/// store, however many paths lead to the store, and not at all in a pulse
/// that does not: among the calls of a pulse, the `k`-th subscriber of
/// `store` occurs once if the pulse visited `store` and finalized it, and
/// never otherwise.
pub proof fn lemma_subscriber_called_once(
    sequence: Seq<usize>,
    outcomes: Seq<Outcome>,
    counts: Seq<nat>,
    store: usize,
    k: usize,
)
    requires
        sequence.no_duplicates(),
        store < counts.len(),
        k < counts[store as int] <= usize::MAX,
    ensures
        occurrences(fired(sequence, outcomes, counts), (store, k)) == (if sequence.contains(store)
            && outcomes[store as int] is Finalized {
            1nat
        } else {
            0nat
        }),
    decreases sequence.len(),
{
    if sequence.len() > 0 {
        let rest = sequence.drop_last();
        let last = sequence.last();
        assert(last == sequence[sequence.len() - 1]);
        let row = if outcomes[last as int] is Finalized {
            Seq::new(counts[last as int], |i: int| (last, i as usize))
        } else {
            Seq::empty()
        };
        lemma_occurrences_concat(fired(rest, outcomes, counts), row, (store, k));
        assert forall|i: int, j: int|
            0 <= i < rest.len() && 0 <= j < rest.len() && i != j implies rest[i] != rest[j] by {
            assert(rest[i] == sequence[i] && rest[j] == sequence[j]);
        }
        if last == store {
            assert forall|i: int| 0 <= i < rest.len() implies rest[i] != store by {
                assert(rest[i] == sequence[i]);
            }
            lemma_fired_only_visited(rest, outcomes, counts, store, k);
            if outcomes[store as int] is Finalized {
                lemma_occurrences_row(store, counts[store as int], k);
            }
        } else {
            lemma_subscriber_called_once(rest, outcomes, counts, store, k);
            lemma_occurrences_absent(row, (store, k));
            if sequence.contains(store) {
                let i = choose|i: int| 0 <= i < sequence.len() && sequence[i] == store;
                assert(rest[i] == store);
            }
            if rest.contains(store) {
                let i = choose|i: int| 0 <= i < rest.len() && rest[i] == store;
                assert(sequence[i] == store);
            }
        }
    }
}

/// A store that a change of the root reaches is visited exactly once, and
/// after every store that it reads and that the change reaches too.
pub proof fn lemma_visited_once_after_upstream(
    w: Seq<Seq<int>>,
    root: int,
    sequence: Seq<usize>,
    x: int,
    y: int,
)
    requires
        acyclic(w),
        visits(w, root, sequence),
        0 <= x < w.len(),
        reaches(w, root, x),
        edge(w, x, y),
    ensures
        exists|i: int, j: int|
            0 <= i < j < sequence.len() && #[trigger] sequence[i] == x && #[trigger] sequence[j]
                == y && forall|m: int| 0 <= m < sequence.len() && sequence[m] == y ==> m == j,
{
    lemma_reaches_step(w, root, x, y);
    lemma_edge_reaches(w, x, y);
    let i = choose|i: int| 0 <= i < sequence.len() && #[trigger] sequence[i] == x;
    let j = choose|j: int| 0 <= j < sequence.len() && #[trigger] sequence[j] == y;
    if x == y {
        let p = seq![x, y];
        assert(is_path(w, p));
        assert(p.first() == p.last());
    }
    if j < i {
        assert(!reaches(w, sequence[i] as int, sequence[j] as int));
    }
    assert(sequence[i] == x && sequence[j] == y);
}

impl<F: Fn(&Upstream) -> Result<Value, StoreError>, S: Fn(&Value)> StoreGraph<F, S> {
    /// The last write wins: after a write of `v1` to a source store the
    /// store holds `v1`, and after a later write of `v2` it holds `v2`.
    pub proof fn lemma_last_write_wins(
        &self,
        first: &Self,
        second: &Self,
        store: int,
        v1: Value,
        v2: Value,
        r1: &PulseReport,
        r2: &PulseReport,
    )
        requires
            0 <= store < self@.len(),
            first.pulsed(self, store, Some(v1), r1),
            second.pulsed(first, store, Some(v2), r2),
        ensures
            first@[store].value() == v1,
            second@[store].value() == v2,
    {
        lemma_reaches_self(first.wiring(), store);
        lemma_reaches_self(second.wiring(), store);
        assert(first.settled(self, store, Some(v1), r1.outcomes@, store));
        assert(second.settled(first, store, Some(v2), r2.outcomes@, store));
    }

    /// A subscriber is called once in a pulse that finalizes its store and
    /// not at all in any other pulse: among the calls that the pulse
    /// reports, the `k`-th subscriber of `store` occurs once if the store
    /// was finalized and never if it was not.
    pub proof fn lemma_told_once_per_pulse(
        &self,
        before: &Self,
        report: &PulseReport,
        root: int,
        written: Option<Value>,
        store: usize,
        k: usize,
    )
        requires
            self.pulsed(before, root, written, report),
            store < self@.len(),
            k < self@[store as int].subscribers().len(),
        ensures
            occurrences(report.notifications@, (store, k)) == (if report.outcomes@[store as int] is Finalized {
                1nat
            } else {
                0nat
            }),
    {
        self.lemma_subscribers_bounded(store as int);
        lemma_subscriber_called_once(
            report.sequence@,
            report.outcomes@,
            self.subscriber_counts(),
            store,
            k,
        );
        if report.outcomes@[store as int] is Finalized {
            assert(reaches(self.wiring(), root, store as int));
            let i = choose|i: int|
                0 <= i < report.sequence@.len() && #[trigger] report.sequence@[i] == store as int;
            assert(report.sequence@[i] == store);
        }
    }

    /// A derived store follows the store it reads. After a write of `v` to
    /// `root`, a store `reader` whose `k`-th binding reads `root` was
    /// reached by the pulse; the value handed to its initializer under that
    /// binding is `v`, never the value from before the write; and if the
    /// store was finalized, its value is what its initializer returned for
    /// the values that the stores it reads hold after the pulse.
    pub proof fn lemma_reader_sees_new_value(
        &self,
        before: &Self,
        report: &PulseReport,
        root: int,
        reader: int,
        k: int,
        v: Value,
    )
        requires
            self.wf(),
            self.pulsed(before, root, Some(v), report),
            0 <= root < self@.len(),
            0 <= reader < self@.len(),
            0 <= k < self@[reader].upstream().len(),
            self@[reader].upstream()[k].source == root,
        ensures
            !(report.outcomes@[reader] is Untouched),
            self.inputs(reader)[k] == (self@[reader].upstream()[k].name@, v),
            report.outcomes@[reader] is Finalized ==> self@[reader].initializer() is Some
                && computed_by(
                self@[reader].initializer()->0,
                self.inputs(reader),
                Ok(self@[reader].value()),
            ),
    {
        let w = self.wiring();
        self.lemma_wf_acyclic();
        assert(w[reader][k] == root);
        assert(edge(w, root, reader));
        lemma_edge_reaches(w, root, reader);
        lemma_reaches_self(w, root);
        if reader == root {
            let p = seq![root, reader];
            assert(is_path(w, p));
            assert(p.first() == p.last());
        }
        assert(self.settled(before, root, Some(v), report.outcomes@, root));
        assert(self.settled(before, root, Some(v), report.outcomes@, reader));
    }

    /// In a diamond, where `c` reads `a` and `b` and both read `root`, a
    /// pulse from `root` visits `c` once, after `a` and after `b`; and if
    /// `c` was finalized, its value is what its initializer returned for the
    /// values that `a` and `b` hold after the pulse.
    pub proof fn lemma_diamond_settles_once(
        &self,
        before: &Self,
        report: &PulseReport,
        root: int,
        a: int,
        b: int,
        c: int,
        written: Option<Value>,
    )
        requires
            self.wf(),
            self.pulsed(before, root, written, report),
            0 <= a < self@.len(),
            0 <= b < self@.len(),
            0 <= c < self@.len(),
            edge(self.wiring(), root, a),
            edge(self.wiring(), root, b),
            edge(self.wiring(), a, c),
            edge(self.wiring(), b, c),
        ensures
            exists|i: int, j: int, m: int|
                0 <= i < m < report.sequence@.len() && 0 <= j < m && #[trigger] report.sequence@[i]
                    == a && #[trigger] report.sequence@[j] == b && #[trigger] report.sequence@[m]
                    == c && forall|n: int|
                    0 <= n < report.sequence@.len() && report.sequence@[n] == c ==> n == m,
            report.outcomes@[c] is Finalized ==> self@[c].initializer() is Some && computed_by(
                self@[c].initializer()->0,
                self.inputs(c),
                Ok(self@[c].value()),
            ),
            forall|k: int|
                0 <= k < self@[c].upstream().len() ==> (#[trigger] self.inputs(c)[k]).1
                    == self@[self@[c].upstream()[k].source as int].value(),
    {
        let w = self.wiring();
        let sequence = report.sequence@;
        self.lemma_wf_acyclic();
        lemma_edge_reaches(w, root, a);
        lemma_edge_reaches(w, root, b);
        lemma_visited_once_after_upstream(w, root, sequence, a, c);
        lemma_visited_once_after_upstream(w, root, sequence, b, c);
        let (i, m) = choose|i: int, m: int|
            0 <= i < m < sequence.len() && #[trigger] sequence[i] == a && #[trigger] sequence[m]
                == c && forall|n: int| 0 <= n < sequence.len() && sequence[n] == c ==> n == m;
        let (j, m2) = choose|j: int, m2: int|
            0 <= j < m2 < sequence.len() && #[trigger] sequence[j] == b && #[trigger] sequence[m2]
                == c && forall|n: int| 0 <= n < sequence.len() && sequence[n] == c ==> n == m2;
        assert(m2 == m);
        assert(sequence[i] == a && sequence[j] == b && sequence[m] == c);
        lemma_reaches_step(w, root, a, c);
        lemma_reaches_self(w, root);
        if c == root {
            let p = seq![root, a, c];
            assert(is_path(w, p));
            assert(p.first() == p.last());
        }
        assert(self.settled(before, root, written, report.outcomes@, c));
    }

    /// What a pulse does with a store it reaches is a function of what the
    /// store reads. Let the initializer of `v` compute the function `g`.
    /// Then `v` is skipped if it reads a store that failed or was skipped;
    /// otherwise, where `g` of the values that `v` reads after the pulse is
    /// a value, `v` is finalized and holds that value, and where it is an
    /// error, `v` failed with that error. A skipped or failed store holds
    /// the value it had.
    pub proof fn lemma_outcome_follows_inputs(
        &self,
        before: &Self,
        report: &PulseReport,
        root: int,
        written: Option<Value>,
        v: int,
        g: spec_fn(Seq<(Seq<char>, Value)>) -> Result<Value, StoreError>,
    )
        requires
            self.pulsed(before, root, written, report),
            0 <= v < self@.len(),
            v != root,
            reaches(self.wiring(), root, v),
            self@[v].initializer() matches Some(f) ==> forall|
                up: Upstream,
                r: Result<Value, StoreError>,
            | #[trigger] call_ensures(f, (&up,), r) ==> r == g(up@),
        ensures
            if blocked(self.wiring(), report.outcomes@, v) {
                report.outcomes@[v] == Outcome::Skipped && self@[v].value() == before@[v].value()
            } else {
                match g(self.inputs(v)) {
                    Ok(x) => report.outcomes@[v] == Outcome::Finalized && self@[v].value() == x,
                    Err(e) => report.outcomes@[v] == Outcome::Failed(e) && self@[v].value()
                        == before@[v].value(),
                }
            },
    {
        assert(self.settled(before, root, written, report.outcomes@, v));
        let f = self@[v].initializer()->0;
        match report.outcomes@[v] {
            Outcome::Finalized => {
                let up = choose|up: Upstream|
                    up@ == self.inputs(v) && #[trigger] call_ensures(
                        f,
                        (&up,),
                        Ok(self@[v].value()),
                    );
                assert(g(up@) == Ok::<Value, StoreError>(self@[v].value()));
            },
            Outcome::Failed(e) => {
                let up = choose|up: Upstream|
                    up@ == self.inputs(v) && #[trigger] call_ensures(f, (&up,), Err(e));
                assert(g(up@) == Err::<Value, StoreError>(e));
            },
            _ => {},
        }
    }

    /// A derived store that reads only `root` holds, after a write of `v`
    /// to `root`, what its initializer makes of `v`: with `g` the function
    /// that the initializer computes, the store holds `g` of its inputs
    /// after the write, in which every binding gives `v`; if `g` fails
    /// there, the store failed with that error and holds the value it had.
    pub proof fn lemma_reader_holds_function_of_new_value(
        &self,
        before: &Self,
        report: &PulseReport,
        root: int,
        reader: int,
        v: Value,
        g: spec_fn(Seq<(Seq<char>, Value)>) -> Result<Value, StoreError>,
    )
        requires
            self.wf(),
            self.pulsed(before, root, Some(v), report),
            0 <= root < self@.len(),
            0 <= reader < self@.len(),
            self@[reader].upstream().len() > 0,
            forall|k: int|
                0 <= k < self@[reader].upstream().len() ==> (#[trigger] self@[reader].upstream()[k]).source
                    == root,
            self@[reader].initializer() matches Some(f) ==> forall|
                up: Upstream,
                r: Result<Value, StoreError>,
            | #[trigger] call_ensures(f, (&up,), r) ==> r == g(up@),
        ensures
            forall|k: int|
                0 <= k < self@[reader].upstream().len() ==> (#[trigger] self.inputs(reader)[k]).1 == v,
            match g(self.inputs(reader)) {
                Ok(x) => report.outcomes@[reader] == Outcome::Finalized && self@[reader].value() == x,
                Err(e) => report.outcomes@[reader] == Outcome::Failed(e) && self@[reader].value()
                    == before@[reader].value(),
            },
    {
        let w = self.wiring();
        self.lemma_reader_sees_new_value(before, report, root, reader, 0, v);
        assert(w[reader][0] == root);
        assert(edge(w, root, reader));
        lemma_edge_reaches(w, root, reader);
        lemma_reaches_self(w, root);
        self.lemma_wf_acyclic();
        if reader == root {
            let p = seq![root, reader];
            assert(is_path(w, p));
            assert(p.first() == p.last());
        }
        assert(self.settled(before, root, Some(v), report.outcomes@, root));
        if blocked(w, report.outcomes@, reader) {
            let k = choose|k: int|
                0 <= k < w[reader].len() && stalled(report.outcomes@[#[trigger] w[reader][k]]);
            assert(w[reader][k] == self@[reader].upstream()[k].source as int);
        }
        self.lemma_outcome_follows_inputs(before, report, root, Some(v), reader, g);
    }

    /// In a diamond, where `a` and `b` read only `root` and `c` reads only
    /// `a` and `b`, a write to `root` gives `c` the value that its
    /// initializer makes of the new values of `a` and `b`. With `ga`, `gb`
    /// and `gc` the functions that the three initializers compute: if both
    /// `ga` and `gb` give a value for the written one, `a` and `b` hold
    /// these, and `c` holds `gc` of its inputs after the pulse, which are
    /// these values, or failed with the error of `gc`; if `ga` or `gb`
    /// fails, `c` is skipped and holds the value it had.
    pub proof fn lemma_diamond_holds_function_of_new_values(
        &self,
        before: &Self,
        report: &PulseReport,
        root: int,
        a: int,
        b: int,
        c: int,
        v: Value,
        ga: spec_fn(Seq<(Seq<char>, Value)>) -> Result<Value, StoreError>,
        gb: spec_fn(Seq<(Seq<char>, Value)>) -> Result<Value, StoreError>,
        gc: spec_fn(Seq<(Seq<char>, Value)>) -> Result<Value, StoreError>,
    )
        requires
            self.wf(),
            self.pulsed(before, root, Some(v), report),
            0 <= root < self@.len(),
            0 <= a < self@.len(),
            0 <= b < self@.len(),
            0 <= c < self@.len(),
            self@[a].upstream().len() > 0,
            self@[b].upstream().len() > 0,
            forall|k: int|
                0 <= k < self@[a].upstream().len() ==> (#[trigger] self@[a].upstream()[k]).source
                    == root,
            forall|k: int|
                0 <= k < self@[b].upstream().len() ==> (#[trigger] self@[b].upstream()[k]).source
                    == root,
            edge(self.wiring(), a, c),
            edge(self.wiring(), b, c),
            forall|k: int|
                0 <= k < self@[c].upstream().len() ==> (#[trigger] self@[c].upstream()[k]).source == a
                    || self@[c].upstream()[k].source == b,
            self@[a].initializer() matches Some(f) ==> forall|
                up: Upstream,
                r: Result<Value, StoreError>,
            | #[trigger] call_ensures(f, (&up,), r) ==> r == ga(up@),
            self@[b].initializer() matches Some(f) ==> forall|
                up: Upstream,
                r: Result<Value, StoreError>,
            | #[trigger] call_ensures(f, (&up,), r) ==> r == gb(up@),
            self@[c].initializer() matches Some(f) ==> forall|
                up: Upstream,
                r: Result<Value, StoreError>,
            | #[trigger] call_ensures(f, (&up,), r) ==> r == gc(up@),
        ensures
            forall|k: int|
                0 <= k < self@[c].upstream().len() ==> (#[trigger] self.inputs(c)[k]).1
                    == self@[self@[c].upstream()[k].source as int].value(),
            match (ga(self.inputs(a)), gb(self.inputs(b))) {
                (Ok(xa), Ok(xb)) => {
                    &&& self@[a].value() == xa
                    &&& self@[b].value() == xb
                    &&& match gc(self.inputs(c)) {
                        Ok(xc) => report.outcomes@[c] == Outcome::Finalized && self@[c].value()
                            == xc,
                        Err(e) => report.outcomes@[c] == Outcome::Failed(e) && self@[c].value()
                            == before@[c].value(),
                    }
                },
                _ => report.outcomes@[c] == Outcome::Skipped && self@[c].value()
                    == before@[c].value(),
            },
    {
        let w = self.wiring();
        let outcomes = report.outcomes@;
        self.lemma_wf_acyclic();
        self.lemma_reader_holds_function_of_new_value(before, report, root, a, v, ga);
        self.lemma_reader_holds_function_of_new_value(before, report, root, b, v, gb);
        assert(w[a][0] == root);
        assert(edge(w, root, a));
        lemma_edge_reaches(w, root, a);
        lemma_reaches_step(w, root, a, c);
        if c == root {
            let p = seq![root, a, c];
            assert(is_path(w, p));
            assert(p.first() == p.last());
        }
        let ka = choose|k: int| 0 <= k < w[c].len() && w[c][k] == a;
        let kb = choose|k: int| 0 <= k < w[c].len() && w[c][k] == b;
        if ga(self.inputs(a)) is Ok && gb(self.inputs(b)) is Ok {
            if blocked(w, outcomes, c) {
                let k = choose|k: int| 0 <= k < w[c].len() && stalled(outcomes[#[trigger] w[c][k]]);
                assert(w[c][k] == self@[c].upstream()[k].source as int);
            }
        } else {
            if ga(self.inputs(a)) is Err {
                assert(stalled(outcomes[w[c][ka]]));
            } else {
                assert(stalled(outcomes[w[c][kb]]));
            }
            assert(blocked(w, outcomes, c));
        }
        self.lemma_outcome_follows_inputs(before, report, root, Some(v), c, gc);
    }
}

} // verus!
