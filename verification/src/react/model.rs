//! The mathematical model of a reactor: what its cells hold, how they depend
//! on each other, what each operation does to them, and what one propagation
//! pass does.

use vstd::prelude::*;

verus! {

/// How a compute cell is derived: the cells it reads, in argument order, and
/// the function applied to their values.
#[verifier::ext_equal]
pub struct Formula<F> {
    pub upstreams: Seq<usize>,
    pub func: F,
}

/// One cell of the model.
#[verifier::ext_equal]
pub struct CellView<T, F, C> {
    /// The current value.
    pub value: T,
    /// `None` for an input cell, the derivation for a compute cell.
    pub formula: Option<Formula<F>>,
    /// The compute cells that read this cell, one entry per argument position.
    pub downstreams: Seq<usize>,
    /// The registered callbacks with their ids, in registration order.
    pub callbacks: Seq<(usize, C)>,
    /// The id that the next registered callback receives.
    pub next_callback: usize,
}

/// Something a propagation pass did.
pub enum Event<T> {
    /// The compute function of `cell` was invoked.
    Recomputed { cell: usize },
    /// The callback `callback` of `cell` was invoked with `value`.
    Fired { cell: usize, callback: usize, value: T },
}

/// The model of a whole reactor: its cells in creation order and the record of
/// everything its propagation passes have done so far.
#[verifier::ext_equal]
pub struct ReactorView<T, F, C> {
    pub cells: Seq<CellView<T, F, C>>,
    pub events: Seq<Event<T>>,
}

/// `out` is a value that `f` may return on the arguments `args`.
pub open spec fn computes<T, F: Fn(&[T]) -> T>(f: F, args: Seq<T>, out: T) -> bool {
    exists|a: &[T]| a@ == args && #[trigger] call_ensures(f, (a,), out)
}

/// `f` may be called on every argument list.
pub open spec fn total<T, F: Fn(&[T]) -> T>(f: F) -> bool {
    forall|a: &[T]| #[trigger] call_requires(f, (a,))
}

/// `c` may be called on every value.
pub open spec fn accepts_all<T, C: Fn(T)>(c: C) -> bool {
    forall|v: T| #[trigger] call_requires(c, (v,))
}

/// How often `x` occurs in `s`.
pub open spec fn occurrences(s: Seq<usize>, x: usize) -> nat
    decreases s.len(),
{
    if s.len() == 0 {
        0
    } else {
        occurrences(s.drop_last(), x) + if s.last() == x {
            1nat
        } else {
            0nat
        }
    }
}

/// `n` copies of `d`.
pub open spec fn repeated(d: usize, n: nat) -> Seq<usize> {
    Seq::new(n, |k: int| d)
}

/// Taking one more element of `s` adds its occurrence.
pub proof fn lemma_occurrences_take(s: Seq<usize>, i: int, x: usize)
    requires
        0 <= i < s.len(),
    ensures
        occurrences(s.take(i + 1), x) == occurrences(s.take(i), x) + if s[i] == x {
            1nat
        } else {
            0nat
        },
{
    assert(s.take(i + 1).drop_last() =~= s.take(i));
    assert(s.take(i + 1).last() == s[i]);
}

/// A fresh input cell holding `value`.
pub open spec fn input_cell<T, F, C>(value: T) -> CellView<T, F, C> {
    CellView {
        value,
        formula: None,
        downstreams: Seq::empty(),
        callbacks: Seq::empty(),
        next_callback: 0,
    }
}

/// A fresh compute cell holding `value`.
pub open spec fn compute_cell<T, F, C>(value: T, upstreams: Seq<usize>, func: F) -> CellView<
    T,
    F,
    C,
> {
    CellView {
        value,
        formula: Some(Formula { upstreams, func }),
        downstreams: Seq::empty(),
        callbacks: Seq::empty(),
        next_callback: 0,
    }
}

impl<T, F, C> CellView<T, F, C> {
    /// Whether a callback with id `id` is registered.
    pub open spec fn has_callback(self, id: usize) -> bool {
        exists|k: int| 0 <= k < self.callbacks.len() && (#[trigger] self.callbacks[k]).0 == id
    }

    /// The position of the callback with id `id` among the registered ones.
    pub open spec fn position(self, id: usize) -> int {
        choose|k: int| 0 <= k < self.callbacks.len() && (#[trigger] self.callbacks[k]).0 == id
    }

    /// Whether `id` was handed out once and is registered no more. Such an
    /// id is never handed out again.
    pub open spec fn retired(self, id: usize) -> bool {
        id < self.next_callback && !self.has_callback(id)
    }

    /// The events of invoking every registered callback, in registration
    /// order, with `value`.
    pub open spec fn firings(self, cell: usize, value: T) -> Seq<Event<T>> {
        Seq::new(
            self.callbacks.len(),
            |k: int| Event::Fired { cell, callback: self.callbacks[k].0, value },
        )
    }
}

impl<T, F: Fn(&[T]) -> T, C: Fn(T)> ReactorView<T, F, C> {
    /// Whether `i` is a compute cell.
    pub open spec fn is_compute(self, i: int) -> bool {
        0 <= i < self.cells.len() && self.cells[i].formula is Some
    }

    /// Whether `i` is an input cell.
    pub open spec fn is_input(self, i: int) -> bool {
        0 <= i < self.cells.len() && self.cells[i].formula is None
    }

    /// The cells that compute cell `i` reads, in argument order.
    pub open spec fn upstreams(self, i: int) -> Seq<usize> {
        self.cells[i].formula->0.upstreams
    }

    /// The function of compute cell `i`.
    pub open spec fn func(self, i: int) -> F {
        self.cells[i].formula->0.func
    }

    /// The current values of the cells `ids`, in order.
    pub open spec fn values_of(self, ids: Seq<usize>) -> Seq<T> {
        Seq::new(ids.len(), |k: int| self.cells[ids[k] as int].value)
    }

    /// The value of compute cell `i` is what its function gives on the current
    /// values of its upstreams.
    pub open spec fn consistent_at(self, i: int) -> bool {
        self.is_compute(i) ==> computes(
            self.func(i),
            self.values_of(self.upstreams(i)),
            self.cells[i].value,
        )
    }

    /// The graph around cell `i` is sound: a compute cell reads only cells
    /// created before it and has a total function, and every downstream entry
    /// names a compute cell that reads `i`.
    pub open spec fn graph_valid_at(self, i: int) -> bool {
        &&& self.is_compute(i) ==> {
            &&& total(self.func(i))
            &&& forall|k: int|
                0 <= k < self.upstreams(i).len() ==> (#[trigger] self.upstreams(i)[k]) < i
        }
        &&& forall|k: int|
            0 <= k < self.cells[i].downstreams.len() ==> {
                let d = #[trigger] self.cells[i].downstreams[k];
                &&& self.is_compute(d as int)
                &&& self.upstreams(d as int).contains(i as usize)
            }
    }

    /// The callback registry of cell `i` is sound: ids grow with registration
    /// order, none reaches the next id to hand out, and every callback may be
    /// called on every value.
    pub open spec fn callbacks_valid_at(self, i: int) -> bool {
        let cbs = self.cells[i].callbacks;
        &&& forall|k: int|
            0 <= k < cbs.len() ==> (#[trigger] cbs[k]).0 < self.cells[i].next_callback
        &&& forall|j: int, k: int|
            0 <= j < k < cbs.len() ==> (#[trigger] cbs[j]).0 < (#[trigger] cbs[k]).0
        &&& forall|k: int| 0 <= k < cbs.len() ==> accepts_all((#[trigger] cbs[k]).1)
    }

    /// Every upstream of every compute cell lists that cell among its
    /// downstreams.
    pub open spec fn links_complete(self) -> bool {
        forall|d: int, k: int|
            self.is_compute(d) && 0 <= k < self.upstreams(d).len() ==> self.cells[(
            #[trigger] self.upstreams(d)[k]) as int].downstreams.contains(d as usize)
    }

    /// The dependency graph is sound: acyclic by creation order, and the
    /// downstream entries are exactly the inverse of the upstream lists.
    pub open spec fn graph_valid(self) -> bool {
        &&& self.cells.len() <= usize::MAX
        &&& forall|i: int| 0 <= i < self.cells.len() ==> #[trigger] self.graph_valid_at(i)
        &&& self.links_complete()
    }

    /// Every callback registry is sound.
    pub open spec fn callbacks_valid(self) -> bool {
        forall|i: int| 0 <= i < self.cells.len() ==> #[trigger] self.callbacks_valid_at(i)
    }

    /// Every compute cell holds what its function gives on its upstreams.
    pub open spec fn consistent(self) -> bool {
        forall|i: int| 0 <= i < self.cells.len() ==> #[trigger] self.consistent_at(i)
    }

    /// The invariant of the model.
    pub open spec fn valid(self) -> bool {
        &&& self.graph_valid()
        &&& self.callbacks_valid()
        &&& self.consistent()
    }

    /// Both models have the same cells with the same formulas and links.
    pub open spec fn same_graph(self, other: Self) -> bool {
        &&& self.cells.len() == other.cells.len()
        &&& forall|i: int|
            0 <= i < self.cells.len() ==> {
                &&& (#[trigger] other.cells[i]).formula == self.cells[i].formula
                &&& other.cells[i].downstreams == self.cells[i].downstreams
            }
    }

    /// Both models have the same callbacks on every cell.
    pub open spec fn same_callbacks(self, other: Self) -> bool {
        &&& self.cells.len() == other.cells.len()
        &&& forall|i: int|
            0 <= i < self.cells.len() ==> {
                &&& (#[trigger] other.cells[i]).callbacks == self.cells[i].callbacks
                &&& other.cells[i].next_callback == self.cells[i].next_callback
            }
    }

    /// Both models hold the same value in every cell.
    pub open spec fn same_values(self, other: Self) -> bool {
        &&& self.cells.len() == other.cells.len()
        &&& forall|i: int|
            0 <= i < self.cells.len() ==> (#[trigger] other.cells[i]).value == self.cells[i].value
    }

    /// A sound graph stays sound in a model with the same graph.
    pub proof fn lemma_graph_valid_transfers(self, other: Self)
        requires
            self.graph_valid(),
            self.same_graph(other),
        ensures
            other.graph_valid(),
    {
        assert forall|i: int| 0 <= i < other.cells.len() implies #[trigger] other.graph_valid_at(
            i,
        ) by {
            assert(self.graph_valid_at(i));
            assert(other.cells[i].formula == self.cells[i].formula);
            if other.is_compute(i) {
                assert(other.upstreams(i) == self.upstreams(i));
                assert forall|k: int| 0 <= k < other.upstreams(i).len() implies (
                #[trigger] other.upstreams(i)[k]) < i by {
                    assert(self.upstreams(i)[k] < i);
                }
            }
            assert forall|k: int| 0 <= k < other.cells[i].downstreams.len() implies {
                let d = #[trigger] other.cells[i].downstreams[k];
                &&& other.is_compute(d as int)
                &&& other.upstreams(d as int).contains(i as usize)
            } by {
                let d = self.cells[i].downstreams[k];
                assert(self.is_compute(d as int));
                assert(other.cells[d as int].formula == self.cells[d as int].formula);
            }
        }
        assert forall|d: int, k: int|
            other.is_compute(d) && 0 <= k < other.upstreams(d).len() implies other.cells[(
        #[trigger] other.upstreams(d)[k]) as int].downstreams.contains(d as usize) by {
            assert(other.cells[d].formula == self.cells[d].formula);
            assert(self.is_compute(d));
            assert(self.graph_valid_at(d));
            let u = self.upstreams(d)[k];
            assert(u < d);
            assert(self.cells[u as int].downstreams.contains(d as usize));
            assert(other.cells[u as int].downstreams == self.cells[u as int].downstreams);
        }
    }

    /// Sound callback registries stay sound in a model with the same
    /// callbacks.
    pub proof fn lemma_callbacks_valid_transfers(self, other: Self)
        requires
            self.callbacks_valid(),
            self.same_callbacks(other),
        ensures
            other.callbacks_valid(),
    {
        assert forall|i: int|
            0 <= i < other.cells.len() implies #[trigger] other.callbacks_valid_at(i) by {
            assert(self.callbacks_valid_at(i));
            assert(other.cells[i].callbacks == self.cells[i].callbacks);
        }
    }

    /// Consistency stays in a model with the same graph and values.
    pub proof fn lemma_consistent_transfers(self, other: Self)
        requires
            self.graph_valid(),
            self.consistent(),
            self.same_graph(other),
            self.same_values(other),
        ensures
            other.consistent(),
    {
        assert forall|i: int| 0 <= i < other.cells.len() implies #[trigger] other.consistent_at(
            i,
        ) by {
            assert(self.consistent_at(i));
            assert(self.graph_valid_at(i));
            assert(other.cells[i].formula == self.cells[i].formula);
            assert(other.cells[i].value == self.cells[i].value);
            if other.is_compute(i) {
                let ups = self.upstreams(i);
                assert forall|k: int| 0 <= k < ups.len() implies other.cells[ups[k] as int].value
                    == self.cells[ups[k] as int].value by {
                    assert(self.upstreams(i)[k] < i);
                }
                assert(other.values_of(ups) =~= self.values_of(ups));
            }
        }
    }

    /// The model after an input cell holding `value` was appended.
    pub open spec fn with_input(self, value: T) -> Self {
        ReactorView { cells: self.cells.push(input_cell(value)), events: self.events }
    }

    /// The cells after `d` was appended to the downstreams of each cell in
    /// `ups`, once for each time that `ups` lists it.
    pub open spec fn linked(self, ups: Seq<usize>, d: usize) -> Seq<CellView<T, F, C>> {
        Seq::new(
            self.cells.len(),
            |i: int|
                CellView {
                    value: self.cells[i].value,
                    formula: self.cells[i].formula,
                    downstreams: self.cells[i].downstreams + repeated(
                        d,
                        occurrences(ups, i as usize),
                    ),
                    callbacks: self.cells[i].callbacks,
                    next_callback: self.cells[i].next_callback,
                },
        )
    }

    /// The model after a compute cell that reads `ups`, applies `func` and
    /// holds `value` was appended.
    pub open spec fn with_compute(self, ups: Seq<usize>, func: F, value: T) -> Self {
        ReactorView {
            cells: self.linked(ups, self.cells.len() as usize).push(
                compute_cell(value, ups, func),
            ),
            events: self.events,
        }
    }

    /// The model after the callback `callback` was registered on `cell`.
    pub open spec fn with_callback(self, cell: int, callback: C) -> Self {
        let c = self.cells[cell];
        ReactorView {
            cells: self.cells.update(
                cell,
                CellView {
                    value: c.value,
                    formula: c.formula,
                    downstreams: c.downstreams,
                    callbacks: c.callbacks.push((c.next_callback, callback)),
                    next_callback: (c.next_callback + 1) as usize,
                },
            ),
            events: self.events,
        }
    }

    /// The model after the callback at position `k` of `cell` was removed.
    pub open spec fn without_callback(self, cell: int, k: int) -> Self {
        let c = self.cells[cell];
        ReactorView {
            cells: self.cells.update(
                cell,
                CellView {
                    value: c.value,
                    formula: c.formula,
                    downstreams: c.downstreams,
                    callbacks: c.callbacks.remove(k),
                    next_callback: c.next_callback,
                },
            ),
            events: self.events,
        }
    }
}

} // verus!
