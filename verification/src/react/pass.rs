//! One propagation pass: which cells it recomputes, which callbacks it fires,
//! and the invariant that the engine keeps while it works through them.

use vstd::prelude::*;
use crate::react::model::{computes, CellView, Event, ReactorView};

verus! {

impl<T, F: Fn(&[T]) -> T, C: Fn(T)> ReactorView<T, F, C> {
    /// The model with the value of cell `i` replaced by `value`.
    pub open spec fn with_value(self, i: int, value: T) -> Self {
        let c = self.cells[i];
        ReactorView {
            cells: self.cells.update(
                i,
                CellView {
                    value,
                    formula: c.formula,
                    downstreams: c.downstreams,
                    callbacks: c.callbacks,
                    next_callback: c.next_callback,
                },
            ),
            events: self.events,
        }
    }

    /// The model with `more` appended to its events.
    pub open spec fn with_events(self, more: Seq<Event<T>>) -> Self {
        ReactorView { cells: self.cells, events: self.events + more }
    }

    /// In a pass that began in `self` by setting the input `start` and has
    /// reached `cur`, cell `u` makes its readers recompute: it is the input
    /// that was set, or a compute cell whose value the pass changed.
    pub open spec fn feeds(self, cur: Self, start: int, u: int) -> bool {
        u == start || (self.is_compute(u) && cur.cells[u].value != self.cells[u].value)
    }

    /// Compute cell `j` reads a cell that makes its readers recompute.
    pub open spec fn touched(self, cur: Self, start: int, j: int) -> bool {
        exists|k: int|
            0 <= k < self.upstreams(j).len() && #[trigger] self.feeds(
                cur,
                start,
                self.upstreams(j)[k] as int,
            )
    }

    /// What the pass does at cell `j`: nothing unless `j` is a compute cell
    /// that reads a cell that makes its readers recompute; else it recomputes
    /// `j` and, if the value changed, fires the callbacks of `j` in
    /// registration order with the new value.
    pub open spec fn cell_events(self, cur: Self, start: int, j: int) -> Seq<Event<T>> {
        if self.is_compute(j) && self.touched(cur, start, j) {
            seq![Event::Recomputed { cell: j as usize }] + if cur.cells[j].value
                != self.cells[j].value {
                self.cells[j].firings(j as usize, cur.cells[j].value)
            } else {
                Seq::empty()
            }
        } else {
            Seq::empty()
        }
    }

    /// What the pass does at the cells below `n`, in ascending cell order.
    pub open spec fn pass_events(self, cur: Self, start: int, n: int) -> Seq<Event<T>>
        decreases n,
    {
        if n <= 0 {
            Seq::empty()
        } else {
            self.pass_events(cur, start, n - 1) + self.cell_events(cur, start, n - 1)
        }
    }

    /// `post` is what one pass makes of `self` when the input `start` is set
    /// to `value`: the graph and the callbacks stay, `start` holds `value`,
    /// the other inputs keep their values, a compute cell none of whose
    /// upstreams was set or changed keeps its value, and the events of the
    /// pass are appended.
    pub open spec fn sets_value(self, post: Self, start: int, value: T) -> bool {
        &&& self.same_graph(post)
        &&& self.same_callbacks(post)
        &&& post.cells[start].value == value
        &&& forall|i: int|
            self.is_input(i) && i != start ==> (#[trigger] post.cells[i]).value
                == self.cells[i].value
        &&& forall|j: int|
            self.is_compute(j) && !self.touched(post, start, j) ==> (#[trigger] post.cells[j]).value
                == self.cells[j].value
        &&& post.events == self.events + self.pass_events(post, start, self.cells.len() as int)
    }

    /// The invariant of a pass that began in `self` and has reached `cur`:
    /// the cells below `lower` are settled, the compute cells from `lower`
    /// on still hold their old values, and `frontier` holds exactly those of
    /// them that read a cell that makes its readers recompute.
    pub open spec fn pass_inv(self, cur: Self, start: int, lower: int, frontier: Set<usize>) -> bool {
        &&& self.is_input(start)
        &&& self.same_graph(cur)
        &&& self.same_callbacks(cur)
        &&& 0 <= lower <= self.cells.len()
        &&& forall|i: int|
            self.is_input(i) && i != start ==> (#[trigger] cur.cells[i]).value
                == self.cells[i].value
        &&& forall|j: int|
            self.is_compute(j) && lower <= j ==> (#[trigger] cur.cells[j]).value
                == self.cells[j].value
        &&& forall|j: int|
            self.is_compute(j) && j < lower ==> #[trigger] cur.consistent_at(j)
        &&& forall|j: int|
            self.is_compute(j) && j < lower && !self.touched(cur, start, j) ==> (
            #[trigger] cur.cells[j]).value == self.cells[j].value
        &&& forall|x: usize| #[trigger]
            frontier.contains(x) <==> lower <= x && self.is_compute(x as int) && self.touched(
                cur,
                start,
                x as int,
            )
        &&& cur.events == self.events + self.pass_events(cur, start, lower)
    }

    /// Whether a compute cell is touched depends only on the values of the
    /// cells before it.
    pub proof fn lemma_touched_frame(self, a: Self, b: Self, start: int, j: int)
        requires
            self.graph_valid(),
            self.is_compute(j),
            forall|u: int| 0 <= u < j ==> (#[trigger] a.cells[u]).value == b.cells[u].value,
        ensures
            self.touched(a, start, j) == self.touched(b, start, j),
    {
        assert(self.graph_valid_at(j));
        if self.touched(a, start, j) {
            let k = choose|k: int|
                0 <= k < self.upstreams(j).len() && #[trigger] self.feeds(
                    a,
                    start,
                    self.upstreams(j)[k] as int,
                );
            let u = self.upstreams(j)[k];
            assert(u < j);
            assert(a.cells[u as int].value == b.cells[u as int].value);
            assert(self.feeds(b, start, self.upstreams(j)[k] as int));
        }
        if self.touched(b, start, j) {
            let k = choose|k: int|
                0 <= k < self.upstreams(j).len() && #[trigger] self.feeds(
                    b,
                    start,
                    self.upstreams(j)[k] as int,
                );
            let u = self.upstreams(j)[k];
            assert(u < j);
            assert(a.cells[u as int].value == b.cells[u as int].value);
            assert(self.feeds(a, start, self.upstreams(j)[k] as int));
        }
    }

    /// What a pass does below `n` depends only on the values below `n`.
    pub proof fn lemma_pass_events_frame(self, a: Self, b: Self, start: int, n: int)
        requires
            self.graph_valid(),
            n <= self.cells.len(),
            forall|u: int| 0 <= u < n ==> (#[trigger] a.cells[u]).value == b.cells[u].value,
        ensures
            self.pass_events(a, start, n) == self.pass_events(b, start, n),
        decreases n,
    {
        if n > 0 {
            self.lemma_pass_events_frame(a, b, start, n - 1);
            let j = n - 1;
            assert(a.cells[j].value == b.cells[j].value);
            if self.is_compute(j) {
                self.lemma_touched_frame(a, b, start, j);
            }
        }
    }

    /// The cells from `lower` up to `m` that read nothing that was set or
    /// changed add no events.
    pub proof fn lemma_pass_events_skip(self, cur: Self, start: int, lower: int, m: int)
        requires
            0 <= lower <= m,
            forall|j: int|
                lower <= j < m ==> !(self.is_compute(j) && #[trigger] self.touched(cur, start, j)),
        ensures
            self.pass_events(cur, start, m) == self.pass_events(cur, start, lower),
        decreases m - lower,
    {
        if lower < m {
            self.lemma_pass_events_skip(cur, start, lower, m - 1);
            assert(!(self.is_compute(m - 1) && self.touched(cur, start, m - 1)));
            assert(self.cell_events(cur, start, m - 1) =~= Seq::<Event<T>>::empty());
            assert(self.pass_events(cur, start, m) =~= self.pass_events(cur, start, m - 1));
        }
    }

    /// A compute cell that reads nothing that was set or changed sees the
    /// values that it saw before the pass.
    pub proof fn lemma_untouched_sees_old_values(self, cur: Self, start: int, j: int)
        requires
            self.graph_valid(),
            self.same_graph(cur),
            self.is_compute(j),
            !self.touched(cur, start, j),
            forall|i: int|
                self.is_input(i) && i != start ==> (#[trigger] cur.cells[i]).value
                    == self.cells[i].value,
        ensures
            cur.values_of(self.upstreams(j)) == self.values_of(self.upstreams(j)),
    {
        let ups = self.upstreams(j);
        assert(self.graph_valid_at(j));
        assert forall|k: int| 0 <= k < ups.len() implies cur.cells[ups[k] as int].value
            == self.cells[ups[k] as int].value by {
            let u = ups[k] as int;
            assert(self.upstreams(j)[k] < j);
            assert(!self.feeds(cur, start, self.upstreams(j)[k] as int));
            if self.is_input(u) {
                assert(cur.cells[u].value == self.cells[u].value);
            }
        }
        assert(cur.values_of(ups) =~= self.values_of(ups));
    }

    /// Setting the input `start` begins a pass whose frontier is the
    /// downstreams of `start`.
    pub proof fn lemma_pass_init(self, start: int, value: T)
        requires
            self.valid(),
            self.is_input(start),
        ensures
            self.pass_inv(
                self.with_value(start, value),
                start,
                0,
                self.cells[start].downstreams.to_set(),
            ),
    {
        let cur = self.with_value(start, value);
        let frontier = self.cells[start].downstreams.to_set();
        assert(self.graph_valid_at(start));
        assert forall|x: usize| #[trigger]
            frontier.contains(x) <==> 0 <= x && self.is_compute(x as int) && self.touched(
                cur,
                start,
                x as int,
            ) by {
            if frontier.contains(x) {
                let ds = self.cells[start].downstreams;
                let k = choose|k: int| 0 <= k < ds.len() && ds[k] == x;
                assert(self.is_compute(ds[k] as int));
                assert(self.upstreams(x as int).contains(start as usize));
                let a = choose|a: int|
                    0 <= a < self.upstreams(x as int).len() && self.upstreams(x as int)[a]
                        == start as usize;
                assert(self.feeds(cur, start, self.upstreams(x as int)[a] as int));
            }
            if self.is_compute(x as int) && self.touched(cur, start, x as int) {
                let k = choose|k: int|
                    0 <= k < self.upstreams(x as int).len() && #[trigger] self.feeds(
                        cur,
                        start,
                        self.upstreams(x as int)[k] as int,
                    );
                let u = self.upstreams(x as int)[k];
                assert(self.graph_valid_at(x as int));
                assert(u < x);
                if u as int != start {
                    assert(cur.cells[u as int] == self.cells[u as int]);
                }
                assert(u as int == start);
                assert(self.cells[u as int].downstreams.contains(x as int as usize));
            }
        }
        assert(self.pass_events(cur, start, 0) =~= Seq::<Event<T>>::empty());
        assert(cur.events =~= self.events + self.pass_events(cur, start, 0));
    }

    /// The model after the pass recomputed cell `m` to `value`.
    pub open spec fn stepped(self, cur: Self, m: int, value: T) -> Self {
        cur.with_value(m, value).with_events(
            seq![Event::Recomputed { cell: m as usize }] + if value != self.cells[m].value {
                self.cells[m].firings(m as usize, value)
            } else {
                Seq::empty()
            },
        )
    }

    /// Recomputing the smallest cell of the frontier, and adding its
    /// downstreams to the frontier if its value changed, keeps the invariant
    /// and settles every cell up to that one.
    pub proof fn lemma_pass_step(
        self,
        cur: Self,
        start: int,
        lower: int,
        frontier: Set<usize>,
        m: usize,
        value: T,
        next_frontier: Set<usize>,
    )
        requires
            self.valid(),
            self.pass_inv(cur, start, lower, frontier),
            frontier.contains(m),
            forall|x: usize| frontier.contains(x) ==> m <= x,
            computes(self.func(m as int), cur.values_of(self.upstreams(m as int)), value),
            forall|x: usize| #[trigger]
                next_frontier.contains(x) <==> x != m && (frontier.contains(x) || (value
                    != self.cells[m as int].value && self.cells[m as int].downstreams.contains(x))),
        ensures
            self.pass_inv(self.stepped(cur, m as int, value), start, m + 1, next_frontier),
            self.stepped(cur, m as int, value).cells[start].value == cur.cells[start].value,
    {
        let mi = m as int;
        let next = self.stepped(cur, mi, value);
        let changed = value != self.cells[mi].value;
        assert(self.is_compute(mi));
        assert(self.graph_valid_at(mi));
        assert(cur.cells[mi].value == self.cells[mi].value);
        assert forall|u: int| 0 <= u < self.cells.len() && u != mi implies (
        #[trigger] next.cells[u]) == cur.cells[u] by {}
        assert(next.cells[mi].value == value);
        // the cells between `lower` and `m` are untouched
        assert forall|j: int| lower <= j < mi implies !(self.is_compute(j) && #[trigger] self.touched(
            cur,
            start,
            j,
        )) by {
            if self.is_compute(j) && self.touched(cur, start, j) {
                assert(frontier.contains(j as usize));
            }
        }
        // touched below and at `m` is the same in `cur` and `next`
        assert forall|j: int| self.is_compute(j) && j <= mi implies self.touched(next, start, j)
            == self.touched(cur, start, j) by {
            self.lemma_touched_frame(cur, next, start, j);
        }
        assert forall|j: int| self.is_compute(j) && j < mi + 1 implies #[trigger] next.consistent_at(
            j,
        ) by {
            assert(self.graph_valid_at(j));
            let ups = self.upstreams(j);
            assert(next.cells[j].formula == self.cells[j].formula);
            assert forall|k: int| 0 <= k < ups.len() implies next.cells[ups[k] as int].value
                == cur.cells[ups[k] as int].value by {
                assert(self.upstreams(j)[k] < j);
            }
            assert(next.values_of(ups) =~= cur.values_of(ups));
            if j < lower {
                assert(cur.consistent_at(j));
                assert(cur.cells[j].formula == self.cells[j].formula);
            } else if j < mi {
                assert(!self.touched(cur, start, j));
                self.lemma_untouched_sees_old_values(cur, start, j);
                assert(self.consistent_at(j));
                assert(cur.cells[j].value == self.cells[j].value);
            }
        }
        assert forall|j: int|
            self.is_compute(j) && j < mi + 1 && !self.touched(next, start, j) implies (
        #[trigger] next.cells[j]).value == self.cells[j].value by {
            assert(self.touched(next, start, j) == self.touched(cur, start, j));
            if j < lower {
                assert(cur.cells[j].value == self.cells[j].value);
            } else if j < mi {
                assert(cur.cells[j].value == self.cells[j].value);
            } else {
                assert(frontier.contains(m));
                assert(self.touched(cur, start, mi));
            }
        }
        assert forall|x: usize| #[trigger]
            next_frontier.contains(x) <==> mi + 1 <= x && self.is_compute(x as int)
                && self.touched(next, start, x as int) by {
            let xi = x as int;
            if next_frontier.contains(x) {
                if frontier.contains(x) {
                    assert(self.touched(cur, start, xi));
                    let k = choose|k: int|
                        0 <= k < self.upstreams(xi).len() && #[trigger] self.feeds(
                            cur,
                            start,
                            self.upstreams(xi)[k] as int,
                        );
                    let u = self.upstreams(xi)[k] as int;
                    assert(self.graph_valid_at(xi));
                    assert(self.upstreams(xi)[k] < xi);
                    assert(u != mi);
                    assert(self.feeds(next, start, self.upstreams(xi)[k] as int));
                } else {
                    let ds = self.cells[mi].downstreams;
                    let k = choose|k: int| 0 <= k < ds.len() && ds[k] == x;
                    assert(self.is_compute(ds[k] as int));
                    assert(self.upstreams(xi).contains(mi as usize));
                    let a = choose|a: int|
                        0 <= a < self.upstreams(xi).len() && self.upstreams(xi)[a] == mi as usize;
                    assert(self.graph_valid_at(xi));
                    assert(self.upstreams(xi)[a] < xi);
                    assert(self.feeds(next, start, self.upstreams(xi)[a] as int));
                }
            }
            if mi + 1 <= x && self.is_compute(xi) && self.touched(next, start, xi) {
                let k = choose|k: int|
                    0 <= k < self.upstreams(xi).len() && #[trigger] self.feeds(
                        next,
                        start,
                        self.upstreams(xi)[k] as int,
                    );
                let u = self.upstreams(xi)[k] as int;
                assert(self.graph_valid_at(xi));
                assert(self.upstreams(xi)[k] < xi);
                if u == mi {
                    assert(changed);
                    assert(self.cells[self.upstreams(xi)[k] as int].downstreams.contains(
                        xi as usize,
                    ));
                    assert(next_frontier.contains(x));
                } else {
                    assert(self.feeds(cur, start, self.upstreams(xi)[k] as int));
                    assert(self.touched(cur, start, xi));
                    assert(frontier.contains(x));
                    assert(next_frontier.contains(x));
                }
            }
        }
        // events
        self.lemma_pass_events_skip(cur, start, lower, mi);
        self.lemma_pass_events_frame(cur, next, start, mi);
        assert(self.touched(next, start, mi));
        assert(self.cell_events(next, start, mi) =~= seq![Event::Recomputed { cell: m }] + if value
            != self.cells[mi].value {
            self.cells[mi].firings(m, value)
        } else {
            Seq::empty()
        });
        assert(next.events =~= self.events + self.pass_events(next, start, mi + 1));
    }

    /// When the frontier is empty the pass is over: the model is valid again
    /// and is what setting the input makes of the model before the pass.
    pub proof fn lemma_pass_done(self, cur: Self, start: int, lower: int, frontier: Set<usize>)
        requires
            self.valid(),
            self.pass_inv(cur, start, lower, frontier),
            forall|x: usize| !frontier.contains(x),
        ensures
            cur.valid(),
            self.sets_value(cur, start, cur.cells[start].value),
    {
        let n = self.cells.len() as int;
        self.lemma_graph_valid_transfers(cur);
        self.lemma_callbacks_valid_transfers(cur);
        assert forall|j: int| lower <= j < n implies !(self.is_compute(j) && #[trigger] self.touched(
            cur,
            start,
            j,
        )) by {
            if self.is_compute(j) && self.touched(cur, start, j) {
                assert(frontier.contains(j as usize));
            }
        }
        assert forall|i: int| 0 <= i < cur.cells.len() implies #[trigger] cur.consistent_at(i) by {
            assert(cur.cells[i].formula == self.cells[i].formula);
            if self.is_compute(i) && i >= lower {
                assert(!self.touched(cur, start, i));
                self.lemma_untouched_sees_old_values(cur, start, i);
                assert(self.consistent_at(i));
                assert(cur.cells[i].value == self.cells[i].value);
            }
        }
        assert forall|j: int| self.is_compute(j) && !self.touched(cur, start, j) implies (
        #[trigger] cur.cells[j]).value == self.cells[j].value by {}
        self.lemma_pass_events_skip(cur, start, lower, n);
    }
}

} // verus!
