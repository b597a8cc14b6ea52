//! A reactive engine: input cells hold values that the client sets, compute
//! cells hold values derived from other cells, and setting an input recomputes
//! what depends on it and fires the callbacks of the cells that changed.

pub mod frontier;
pub mod laws;
pub mod model;
pub mod pass;
pub mod validity;

use std::collections::{BTreeSet, HashMap};
use vstd::laws_eq::obeys_concrete_eq;
use vstd::prelude::*;
use vstd::std_specs::hash::*;
use crate::react::model::{CellView, Event, Formula, ReactorView};

verus! {

broadcast use vstd::std_specs::hash::group_hash_axioms;

/// The handle of an input cell.
#[derive(Clone, Copy, Debug, PartialEq, Eq, Structural)]
pub struct InputCellID(usize);

/// The handle of a compute cell.
#[derive(Clone, Copy, Debug, PartialEq, Eq, Structural)]
pub struct ComputeCellID(usize);

/// The handle of a callback, unique among the callbacks of one cell.
#[derive(Clone, Copy, Debug, PartialEq, Eq, Structural)]
pub struct CallbackID(usize);

/// The handle of either kind of cell.
#[derive(Clone, Copy, Debug, PartialEq, Eq, Structural)]
pub enum CellID {
    Input(InputCellID),
    Compute(ComputeCellID),
}

impl View for InputCellID {
    type V = usize;

    /// The position of the cell in creation order.
    closed spec fn view(&self) -> usize {
        self.0
    }
}

impl View for ComputeCellID {
    type V = usize;

    /// The position of the cell in creation order.
    closed spec fn view(&self) -> usize {
        self.0
    }
}

impl View for CallbackID {
    type V = usize;

    /// The number of the callback among those ever registered on its cell.
    closed spec fn view(&self) -> usize {
        self.0
    }
}

impl View for CellID {
    type V = usize;

    /// The position of the cell in creation order.
    open spec fn view(&self) -> usize {
        match self {
            CellID::Input(id) => id@,
            CellID::Compute(id) => id@,
        }
    }
}

/// The positions that the handles `ids` stand for, in order.
pub open spec fn indices(ids: Seq<CellID>) -> Seq<usize> {
    Seq::new(ids.len(), |k: int| ids[k]@)
}

impl CellID {
    fn idx(&self) -> (i: usize)
        ensures
            i == self@,
    {
        match self {
            CellID::Input(id) => id.0,
            CellID::Compute(id) => id.0,
        }
    }
}

/// Why a callback could not be removed.
#[derive(Debug, PartialEq, Eq, Structural)]
pub enum RemoveCallbackError {
    NonexistentCell,
    NonexistentCallback,
}

struct Callback<C>(usize, C);

struct Cell<T, C> {
    value: T,
    downstreams: Vec<usize>,
    counter: usize,
    callbacks: Vec<Callback<C>>,
}

struct ComputeInfo<F> {
    compute_func: F,
    dependencies: Vec<usize>,
}

impl<T: Copy, C: Fn(T)> Cell<T, C> {
    spec fn callbacks_view(self) -> Seq<(usize, C)> {
        Seq::new(self.callbacks@.len(), |k: int| (self.callbacks@[k].0, self.callbacks@[k].1))
    }

    fn new(value: T) -> (cell: Self)
        ensures
            cell.value == value,
            cell.downstreams@.len() == 0,
            cell.counter == 0,
            cell.callbacks@.len() == 0,
    {
        Cell { value, downstreams: Vec::new(), counter: 0, callbacks: Vec::new() }
    }

    fn add_downstream(&mut self, downstream: usize)
        ensures
            final(self).downstreams@ == old(self).downstreams@.push(downstream),
            final(self).value == old(self).value,
            final(self).counter == old(self).counter,
            final(self).callbacks == old(self).callbacks,
    {
        self.downstreams.push(downstream);
    }

    fn add_callback(&mut self, callback: C) -> (id: CallbackID)
        requires
            old(self).counter < usize::MAX,
        ensures
            id@ == old(self).counter,
            final(self).counter == old(self).counter + 1,
            final(self).callbacks_view() == old(self).callbacks_view().push(
                (old(self).counter, callback),
            ),
            final(self).value == old(self).value,
            final(self).downstreams == old(self).downstreams,
    {
        let id = self.counter;
        self.counter += 1;
        self.callbacks.push(Callback(id, callback));
        proof {
            assert(self.callbacks_view() =~= old(self).callbacks_view().push((id, callback)));
        }
        CallbackID(id)
    }

    fn remove_callback(&mut self, id: CallbackID) -> (r: Result<(), RemoveCallbackError>)
        ensures
            final(self).value == old(self).value,
            final(self).downstreams == old(self).downstreams,
            final(self).counter == old(self).counter,
            match r {
                Ok(()) => exists|k: int|
                    {
                        &&& 0 <= k < old(self).callbacks_view().len()
                        &&& (#[trigger] old(self).callbacks_view()[k]).0 == id@
                        &&& final(self).callbacks_view() == old(self).callbacks_view().remove(k)
                    },
                Err(e) => {
                    &&& e == RemoveCallbackError::NonexistentCallback
                    &&& final(self).callbacks_view() == old(self).callbacks_view()
                    &&& forall|k: int|
                        0 <= k < old(self).callbacks_view().len() ==> (
                        #[trigger] old(self).callbacks_view()[k]).0 != id@
                },
            },
    {
        let mut idx: usize = 0;
        while idx < self.callbacks.len()
            invariant
                idx <= self.callbacks@.len(),
                *self == *old(self),
                forall|k: int| 0 <= k < idx ==> (#[trigger] self.callbacks_view()[k]).0 != id@,
            decreases self.callbacks@.len() - idx,
        {
            if self.callbacks[idx].0 == id.0 {
                self.callbacks.remove(idx);
                proof {
                    let k = idx as int;
                    assert(old(self).callbacks_view()[k].0 == id@);
                    assert(self.callbacks_view() =~= old(self).callbacks_view().remove(k));
                }
                return Ok(());
            }
            idx += 1;
        }
        Err(RemoveCallbackError::NonexistentCallback)
    }

    fn run_callbacks(&self)
        requires
            forall|k: int|
                0 <= k < self.callbacks_view().len() ==> crate::react::model::accepts_all(
                    (#[trigger] self.callbacks_view()[k]).1,
                ),
    {
        let mut i: usize = 0;
        while i < self.callbacks.len()
            invariant
                forall|k: int|
                    0 <= k < self.callbacks_view().len() ==> crate::react::model::accepts_all(
                        (#[trigger] self.callbacks_view()[k]).1,
                    ),
            decreases self.callbacks@.len() - i,
        {
            proof {
                assert(self.callbacks_view()[i as int].1 == self.callbacks@[i as int].1);
            }
            (self.callbacks[i].1)(self.value);
            i += 1;
        }
    }
}

/// Whether `a` and `b` are different values.
fn differs<T: PartialEq>(a: &T, b: &T) -> (r: bool)
    requires
        obeys_concrete_eq::<T>(),
    ensures
        r == (*a != *b),
{
    proof {
        reveal(obeys_concrete_eq);
    }
    *a != *b
}

/// A store of cells with their dependency graph and callbacks.
pub struct Reactor<T, F, C> {
    /// The cells, in creation order.
    data: Vec<Cell<T, C>>,
    /// For each compute cell, by its position, how it is derived.
    compute_info: HashMap<usize, ComputeInfo<F>>,
    /// The record of what the propagation passes have done so far.
    events: Ghost<Seq<Event<T>>>,
}

impl<T: Copy, F: Fn(&[T]) -> T, C: Fn(T)> View for Reactor<T, F, C> {
    type V = ReactorView<T, F, C>;

    closed spec fn view(&self) -> ReactorView<T, F, C> {
        ReactorView {
            cells: Seq::new(
                self.data@.len(),
                |i: int|
                    CellView {
                        value: self.data@[i].value,
                        formula: if self.compute_info@.contains_key(i as usize) {
                            Some(
                                Formula {
                                    upstreams: self.compute_info@[i as usize].dependencies@,
                                    func: self.compute_info@[i as usize].compute_func,
                                },
                            )
                        } else {
                            None
                        },
                        downstreams: self.data@[i].downstreams@,
                        callbacks: self.data@[i].callbacks_view(),
                        next_callback: self.data@[i].counter,
                    },
            ),
            events: self.events@,
        }
    }
}

impl<T: Copy + PartialEq, F: Fn(&[T]) -> T, C: Fn(T)> Reactor<T, F, C> {
    /// What holds even in the middle of a propagation pass: the graph and
    /// the callback registries are sound.
    spec fn coherent(&self) -> bool {
        &&& self@.graph_valid()
        &&& self@.callbacks_valid()
        &&& forall|k: usize| self.compute_info@.contains_key(k) ==> k < self.data@.len()
    }

    /// The invariant that every operation keeps: the model is valid.
    pub closed spec fn wf(&self) -> bool {
        &&& self.coherent()
        &&& self@.consistent()
    }

    /// What `wf` says of the model.
    pub proof fn lemma_wf_valid(&self)
        requires
            self.wf(),
        ensures
            self@.valid(),
    {
    }

    /// An empty reactor.
    pub fn new() -> (r: Self)
        ensures
            r.wf(),
            r@.cells.len() == 0,
            r@.events.len() == 0,
    {
        Reactor { data: Vec::new(), compute_info: HashMap::new(), events: Ghost(Seq::empty()) }
    }

    /// Appends an input cell holding `initial` and returns its handle.
    pub fn create_input(&mut self, initial: T) -> (id: InputCellID)
        requires
            old(self).wf(),
        ensures
            final(self).wf(),
            id@ == old(self)@.cells.len(),
            final(self)@ == old(self)@.with_input(initial),
    {
        let id = self.data.len();
        self.data.push(Cell::new(initial));
        proof {
            assert(self@ =~~= old(self)@.with_input(initial));
            assert(self.data.len() == self.data@.len());
            validity::lemma_with_input_valid(old(self)@, initial);
        }
        InputCellID(id)
    }

    /// Whether `id` can be set: it names no cell, or an input cell.
    pub fn can_set(&self, id: InputCellID) -> (ok: bool)
        requires
            self.wf(),
        ensures
            ok == (id@ < self@.cells.len() ==> self@.is_input(id@ as int)),
    {
        id.0 >= self.data.len() || !self.compute_info.contains_key(&id.0)
    }

    /// Whether a callback can be registered on `id`: it names no cell, or a
    /// cell that has an id left to hand out.
    pub fn can_add_callback(&self, id: ComputeCellID) -> (ok: bool)
        ensures
            ok == (id@ < self@.cells.len() ==> self@.cells[id@ as int].next_callback
                < usize::MAX),
    {
        id.0 >= self.data.len() || self.data[id.0].counter < usize::MAX
    }

    /// The current value of the cell `id`, if there is such a cell.
    pub fn value(&self, id: CellID) -> (v: Option<T>)
        ensures
            v == if id@ < self@.cells.len() {
                Some(self@.cells[id@ as int].value)
            } else {
                None
            },
    {
        let i = id.idx();
        if i < self.data.len() {
            Some(self.data[i].value)
        } else {
            None
        }
    }
}

impl<T: Copy + PartialEq, F: Fn(&[T]) -> T, C: Fn(T)> Reactor<T, F, C> {
    spec fn values_at(&self, ids: Seq<usize>) -> Seq<T> {
        Seq::new(ids.len(), |k: int| self.data@[ids[k] as int].value)
    }

    /// Every cell is as in `before`, but that its downstreams have `d`
    /// appended once for each time that `ups` lists the cell.
    spec fn links_added(&self, before: &Self, ups: Seq<usize>, d: usize) -> bool {
        &&& self.data@.len() == before.data@.len()
        &&& self.compute_info == before.compute_info
        &&& self.events == before.events
        &&& forall|c: int|
            0 <= c < self.data@.len() ==> {
                &&& (#[trigger] self.data@[c]).value == before.data@[c].value
                &&& self.data@[c].counter == before.data@[c].counter
                &&& self.data@[c].callbacks == before.data@[c].callbacks
                &&& self.data@[c].downstreams@ == before.data@[c].downstreams@ + model::repeated(
                    d,
                    model::occurrences(ups, c as usize),
                )
            }
    }

    fn compute(&self, idx: usize) -> (v: T)
        requires
            self.compute_info@.contains_key(idx),
            model::total(self.compute_info@[idx].compute_func),
            forall|k: int|
                0 <= k < self.compute_info@[idx].dependencies@.len() ==> (
                #[trigger] self.compute_info@[idx].dependencies@[k]) < self.data@.len(),
        ensures
            model::computes(
                self.compute_info@[idx].compute_func,
                self.values_at(self.compute_info@[idx].dependencies@),
                v,
            ),
    {
        let info = self.compute_info.get(&idx).unwrap();
        let mut inputs: Vec<T> = Vec::new();
        let mut i: usize = 0;
        while i < info.dependencies.len()
            invariant
                i <= info.dependencies@.len(),
                inputs@ == self.values_at(info.dependencies@.take(i as int)),
                forall|k: int|
                    0 <= k < info.dependencies@.len() ==> (#[trigger] info.dependencies@[k])
                        < self.data@.len(),
            decreases info.dependencies@.len() - i,
        {
            let dep = info.dependencies[i];
            inputs.push(self.data[dep].value);
            i += 1;
            proof {
                assert(inputs@ =~= self.values_at(info.dependencies@.take(i as int)));
            }
        }
        proof {
            assert(info.dependencies@.take(i as int) =~= info.dependencies@);
        }
        (info.compute_func)(inputs.as_slice())
    }

    /// Appends a compute cell that reads `dependencies`, in this order, and
    /// holds what `compute_func` gives on their values. If a dependency names
    /// no cell, nothing changes and the first such dependency comes back.
    pub fn create_compute(&mut self, dependencies: &[CellID], compute_func: F) -> (r: Result<
        ComputeCellID,
        CellID,
    >)
        requires
            old(self).wf(),
            model::total(compute_func),
        ensures
            final(self).wf(),
            match r {
                Ok(id) => {
                    &&& forall|k: int|
                        0 <= k < dependencies@.len() ==> (#[trigger] dependencies@[k])@ < old(
                            self,
                        )@.cells.len()
                    &&& id@ == old(self)@.cells.len()
                    &&& final(self)@.cells.len() == old(self)@.cells.len() + 1
                    &&& model::computes(
                        compute_func,
                        old(self)@.values_of(indices(dependencies@)),
                        final(self)@.cells[id@ as int].value,
                    )
                    &&& final(self)@ == old(self)@.with_compute(
                        indices(dependencies@),
                        compute_func,
                        final(self)@.cells[id@ as int].value,
                    )
                },
                Err(bad) => {
                    &&& exists|k: int|
                        {
                            &&& 0 <= k < dependencies@.len()
                            &&& #[trigger] dependencies@[k] == bad
                            &&& bad@ >= old(self)@.cells.len()
                            &&& forall|j: int|
                                0 <= j < k ==> (#[trigger] dependencies@[j])@ < old(
                                    self,
                                )@.cells.len()
                        }
                    &&& final(self)@ == old(self)@
                },
            },
    {
        let new_id = self.data.len();
        let mut i: usize = 0;
        while i < dependencies.len()
            invariant
                i <= dependencies@.len(),
                *self == *old(self),
                self.wf(),
                new_id == self.data@.len(),
                forall|k: int| 0 <= k < i ==> (#[trigger] dependencies@[k])@ < new_id,
            decreases dependencies@.len() - i,
        {
            if dependencies[i].idx() >= new_id {
                return Err(dependencies[i]);
            }
            i += 1;
        }
        let ghost ups = indices(dependencies@);
        let mut cells: Vec<usize> = Vec::with_capacity(dependencies.len());
        let mut i: usize = 0;
        while i < dependencies.len()
            invariant
                i <= dependencies@.len(),
                ups == indices(dependencies@),
                new_id == old(self).data@.len(),
                forall|k: int| 0 <= k < dependencies@.len() ==> (#[trigger] dependencies@[k])@ < new_id,
                cells@ == ups.take(i as int),
                self.links_added(old(self), ups.take(i as int), new_id),
            decreases dependencies@.len() - i,
        {
            let idx = dependencies[i].idx();
            cells.push(idx);
            let ghost before = *self;
            self.data[idx].add_downstream(new_id);
            proof {
                assert(ups[i as int] == idx);
                assert(cells@ =~= ups.take(i as int + 1));
                assert forall|c: int| 0 <= c < self.data@.len() implies {
                    &&& (#[trigger] self.data@[c]).value == old(self).data@[c].value
                    &&& self.data@[c].counter == old(self).data@[c].counter
                    &&& self.data@[c].callbacks == old(self).data@[c].callbacks
                    &&& self.data@[c].downstreams@ == old(self).data@[c].downstreams@
                        + model::repeated(
                        new_id,
                        model::occurrences(ups.take(i as int + 1), c as usize),
                    )
                } by {
                    model::lemma_occurrences_take(ups, i as int, c as usize);
                    assert(before.data@[c].downstreams@ == old(self).data@[c].downstreams@
                        + model::repeated(
                        new_id,
                        model::occurrences(ups.take(i as int), c as usize),
                    ));
                    if c == idx {
                        assert(self.data@[c].downstreams@ =~= old(self).data@[c].downstreams@
                            + model::repeated(
                            new_id,
                            model::occurrences(ups.take(i as int + 1), c as usize),
                        ));
                    } else {
                        assert(self.data@[c] == before.data@[c]);
                    }
                }
            }
            i += 1;
        }
        proof {
            assert(ups.take(i as int) =~= ups);
        }
        self.compute_info.insert(new_id, ComputeInfo { compute_func, dependencies: cells });
        let init = self.compute(new_id);
        proof {
            assert(self.values_at(ups) =~= old(self)@.values_of(ups));
        }
        self.data.push(Cell::new(init));
        proof {
            assert(self.data.len() == self.data@.len());
            assert(self@ =~~= old(self)@.with_compute(ups, compute_func, init));
            validity::lemma_with_compute_valid(old(self)@, ups, compute_func, init);
        }
        Ok(ComputeCellID(new_id))
    }

    /// Sets the input cell `id` to `new_value` and brings every compute cell
    /// that depends on it up to date, in ascending cell order. A compute cell
    /// is recomputed at most once, and only if one of its upstreams is `id`
    /// or was changed by this pass; where the new value differs from the old
    /// one its callbacks are invoked with it. Returns whether there is such a
    /// cell; if not, nothing changes.
    pub fn set_value(&mut self, id: InputCellID, new_value: T) -> (ok: bool)
        requires
            old(self).wf(),
            obeys_concrete_eq::<T>(),
            id@ < old(self)@.cells.len() ==> old(self)@.is_input(id@ as int),
        ensures
            final(self).wf(),
            ok == (id@ < old(self)@.cells.len()),
            ok ==> old(self)@.sets_value(final(self)@, id@ as int, new_value),
            !ok ==> final(self)@ == old(self)@,
    {
        if id.0 < self.data.len() {
            self.data[id.0].value = new_value;
            proof {
                let pre = old(self)@;
                assert(self@ =~~= pre.with_value(id@ as int, new_value));
                pre.lemma_graph_valid_transfers(self@);
                pre.lemma_callbacks_valid_transfers(self@);
            }
            self.propogate(id.0, Ghost(old(self)@));
            true
        } else {
            false
        }
    }

    fn propogate(&mut self, start_idx: usize, Ghost(pre): Ghost<ReactorView<T, F, C>>)
        requires
            old(self).coherent(),
            obeys_concrete_eq::<T>(),
            pre.valid(),
            pre.is_input(start_idx as int),
            old(self)@ == pre.with_value(
                start_idx as int,
                old(self)@.cells[start_idx as int].value,
            ),
        ensures
            final(self).wf(),
            pre.sets_value(
                final(self)@,
                start_idx as int,
                old(self)@.cells[start_idx as int].value,
            ),
    {
        let ghost start = start_idx as int;
        let ghost value0 = self@.cells[start].value;
        let mut downstreams: BTreeSet<usize> = BTreeSet::new();
        frontier::add_all(&mut downstreams, &self.data[start_idx].downstreams);
        let ghost mut lower: int = 0;
        proof {
            pre.lemma_pass_init(start, value0);
            assert(downstreams@ =~= pre.cells[start].downstreams.to_set());
        }
        loop
            invariant
                self.coherent(),
                obeys_concrete_eq::<T>(),
                pre.valid(),
                pre.pass_inv(self@, start, lower, downstreams@),
                self@.cells[start].value == value0,
            ensures
                forall|x: usize| !downstreams@.contains(x),
            decreases self.data@.len() - lower,
        {
            let cell_id = match frontier::smallest(&downstreams) {
                Some(m) => m,
                None => {
                    break ;
                },
            };
            let ghost cur = self@;
            let ghost front = downstreams@;
            proof {
                assert(front.contains(cell_id));
                assert(pre.is_compute(cell_id as int));
                assert(cur.cells[cell_id as int].formula == pre.cells[cell_id as int].formula);
                assert(cur.graph_valid_at(cell_id as int));
                assert forall|k: int|
                    0 <= k < self.compute_info@[cell_id].dependencies@.len() implies (
                #[trigger] self.compute_info@[cell_id].dependencies@[k]) < self.data@.len() by {
                    assert(cur.upstreams(cell_id as int)[k] < cell_id);
                }
            }
            let value = self.compute(cell_id);
            proof {
                assert(self.values_at(self.compute_info@[cell_id].dependencies@)
                    =~= cur.values_of(pre.upstreams(cell_id as int)));
            }
            let oldvalue = self.data[cell_id].value;
            self.data[cell_id].value = value;
            self.events = Ghost(self.events@ + seq![Event::Recomputed { cell: cell_id }]);
            if differs(&oldvalue, &value) {
                proof {
                    assert(cur.callbacks_valid_at(cell_id as int));
                }
                self.data[cell_id].run_callbacks();
                self.events = Ghost(
                    self.events@ + pre.cells[cell_id as int].firings(cell_id, value),
                );
                frontier::add_all(&mut downstreams, &self.data[cell_id].downstreams);
            }
            frontier::discard(&mut downstreams, cell_id);
            proof {
                pre.lemma_pass_step(cur, start, lower, front, cell_id, value, downstreams@);
                assert(self@ =~~= pre.stepped(cur, cell_id as int, value));
                pre.lemma_graph_valid_transfers(self@);
                pre.lemma_callbacks_valid_transfers(self@);
                lower = cell_id + 1;
            }
        }
        proof {
            pre.lemma_pass_done(self@, start, lower, downstreams@);
        }
    }

    /// Registers `callback` on the cell `id` and returns its handle, or
    /// `None` if there is no such cell. The callback is invoked with the new
    /// value whenever a propagation pass changes the value of the cell.
    pub fn add_callback(&mut self, id: ComputeCellID, callback: C) -> (r: Option<CallbackID>)
        requires
            old(self).wf(),
            model::accepts_all(callback),
            id@ < old(self)@.cells.len() ==> old(self)@.cells[id@ as int].next_callback
                < usize::MAX,
        ensures
            final(self).wf(),
            match r {
                Some(cb) => {
                    &&& id@ < old(self)@.cells.len()
                    &&& cb@ == old(self)@.cells[id@ as int].next_callback
                    &&& final(self)@ == old(self)@.with_callback(id@ as int, callback)
                    &&& final(self)@.cells[id@ as int].has_callback(cb@)
                },
                None => id@ >= old(self)@.cells.len() && final(self)@ == old(self)@,
            },
    {
        if id.0 < self.data.len() {
            let cb = self.data[id.0].add_callback(callback);
            proof {
                assert(self@ =~~= old(self)@.with_callback(id@ as int, callback));
                validity::lemma_with_callback_valid(old(self)@, id@ as int, callback);
                let cbs = self@.cells[id@ as int].callbacks;
                assert(cbs[cbs.len() - 1].0 == cb@);
            }
            Some(cb)
        } else {
            None
        }
    }

    /// Removes the callback `callback` from the cell `cell`, so that no later
    /// propagation pass invokes it.
    pub fn remove_callback(&mut self, cell: ComputeCellID, callback: CallbackID) -> (r: Result<
        (),
        RemoveCallbackError,
    >)
        requires
            old(self).wf(),
        ensures
            final(self).wf(),
            match r {
                Ok(()) => {
                    &&& cell@ < old(self)@.cells.len()
                    &&& old(self)@.cells[cell@ as int].has_callback(callback@)
                    &&& final(self)@ == old(self)@.without_callback(
                        cell@ as int,
                        old(self)@.cells[cell@ as int].position(callback@),
                    )
                },
                Err(RemoveCallbackError::NonexistentCell) => {
                    &&& cell@ >= old(self)@.cells.len()
                    &&& final(self)@ == old(self)@
                },
                Err(RemoveCallbackError::NonexistentCallback) => {
                    &&& cell@ < old(self)@.cells.len()
                    &&& !old(self)@.cells[cell@ as int].has_callback(callback@)
                    &&& final(self)@ == old(self)@
                },
            },
    {
        if cell.0 >= self.data.len() {
            return Err(RemoveCallbackError::NonexistentCell);
        }
        let r = self.data[cell.0].remove_callback(callback);
        proof {
            let pre = old(self)@;
            let c = pre.cells[cell@ as int];
            match r {
                Ok(()) => {
                    let k = choose|k: int|
                        {
                            &&& 0 <= k < c.callbacks.len()
                            &&& (#[trigger] c.callbacks[k]).0 == callback@
                            &&& self.data@[cell@ as int].callbacks_view() == c.callbacks.remove(k)
                        };
                    assert(pre.callbacks_valid_at(cell@ as int));
                    let p = c.position(callback@);
                    assert(c.callbacks[p].0 == callback@);
                    assert(p == k) by {
                        if p < k {
                            assert(c.callbacks[p].0 < c.callbacks[k].0);
                        }
                        if k < p {
                            assert(c.callbacks[k].0 < c.callbacks[p].0);
                        }
                    }
                    assert(self@ =~~= pre.without_callback(cell@ as int, k));
                    validity::lemma_without_callback_valid(pre, cell@ as int, k);
                },
                Err(_) => {
                    assert(self@ =~~= pre);
                },
            }
        }
        r
    }
}

} // verus!
