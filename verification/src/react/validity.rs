//! Every operation of the model keeps it valid.

use vstd::prelude::*;
use crate::react::model::{
    accepts_all, compute_cell, computes, input_cell, occurrences, repeated, total, ReactorView,
};

verus! {

/// Appending an input cell keeps the model valid.
pub proof fn lemma_with_input_valid<T, F: Fn(&[T]) -> T, C: Fn(T)>(
    pre: ReactorView<T, F, C>,
    value: T,
)
    requires
        pre.valid(),
        pre.cells.len() < usize::MAX,
    ensures
        pre.with_input(value).valid(),
{
    let post = pre.with_input(value);
    let n = pre.cells.len() as int;
    assert forall|i: int| 0 <= i < post.cells.len() implies #[trigger] post.graph_valid_at(i) by {
        if i < n {
            assert(pre.graph_valid_at(i));
            assert(post.cells[i] == pre.cells[i]);
            assert forall|k: int| 0 <= k < post.cells[i].downstreams.len() implies {
                let d = #[trigger] post.cells[i].downstreams[k];
                &&& post.is_compute(d as int)
                &&& post.upstreams(d as int).contains(i as usize)
            } by {
                let d = pre.cells[i].downstreams[k];
                assert(pre.is_compute(d as int));
                assert(post.cells[d as int] == pre.cells[d as int]);
            }
            if post.is_compute(i) {
                assert(post.upstreams(i) == pre.upstreams(i));
                assert forall|k: int| 0 <= k < post.upstreams(i).len() implies (
                #[trigger] post.upstreams(i)[k]) < i by {
                    assert(pre.upstreams(i)[k] < i);
                }
            }
        } else {
            assert(post.cells[i] == input_cell::<T, F, C>(value));
        }
    }
    assert forall|i: int| 0 <= i < post.cells.len() implies #[trigger] post.callbacks_valid_at(
        i,
    ) by {
        if i < n {
            assert(pre.callbacks_valid_at(i));
        }
    }
    assert forall|i: int| 0 <= i < post.cells.len() implies #[trigger] post.consistent_at(i) by {
        if i < n {
            assert(pre.consistent_at(i));
            assert(pre.graph_valid_at(i));
            if pre.is_compute(i) {
                assert(post.values_of(post.upstreams(i)) =~= pre.values_of(pre.upstreams(i)));
            }
        }
    }
    assert forall|d: int, k: int|
        post.is_compute(d) && 0 <= k < post.upstreams(d).len() implies post.cells[(
    #[trigger] post.upstreams(d)[k]) as int].downstreams.contains(d as usize) by {
        assert(pre.is_compute(d));
        assert(pre.graph_valid_at(d));
        let u = pre.upstreams(d)[k];
        assert(pre.cells[u as int].downstreams.contains(d as usize));
    }
}

/// A sequence that lists `x` has at least one occurrence of it, and one that
/// has an occurrence lists it.
pub proof fn lemma_occurrences_contains(s: Seq<usize>, x: usize)
    ensures
        occurrences(s, x) > 0 <==> s.contains(x),
    decreases s.len(),
{
    if s.len() > 0 {
        lemma_occurrences_contains(s.drop_last(), x);
        if s.contains(x) {
            let k = choose|k: int| 0 <= k < s.len() && s[k] == x;
            if k < s.len() - 1 {
                assert(s.drop_last()[k] == x);
            }
        }
        if s.drop_last().contains(x) {
            let k = choose|k: int| 0 <= k < s.drop_last().len() && s.drop_last()[k] == x;
            assert(s[k] == x);
        }
        if s.last() == x {
            assert(s[s.len() - 1] == x);
        }
    }
}

/// Appending a compute cell keeps the model valid.
pub proof fn lemma_with_compute_valid<T, F: Fn(&[T]) -> T, C: Fn(T)>(
    pre: ReactorView<T, F, C>,
    ups: Seq<usize>,
    func: F,
    value: T,
)
    requires
        pre.valid(),
        pre.cells.len() < usize::MAX,
        forall|k: int| 0 <= k < ups.len() ==> (#[trigger] ups[k]) < pre.cells.len(),
        total(func),
        computes(func, pre.values_of(ups), value),
    ensures
        pre.with_compute(ups, func, value).valid(),
{
    let post = pre.with_compute(ups, func, value);
    let n = pre.cells.len() as int;
    assert(post.cells[n] == compute_cell::<T, F, C>(value, ups, func));
    assert forall|i: int| 0 <= i < n implies {
        &&& (#[trigger] post.cells[i]).value == pre.cells[i].value
        &&& post.cells[i].formula == pre.cells[i].formula
        &&& post.cells[i].callbacks == pre.cells[i].callbacks
        &&& post.cells[i].next_callback == pre.cells[i].next_callback
        &&& post.cells[i].downstreams == pre.cells[i].downstreams + repeated(
            n as usize,
            occurrences(ups, i as usize),
        )
    } by {
        assert(post.cells[i] == pre.linked(ups, n as usize)[i]);
    }
    assert forall|i: int| 0 <= i < post.cells.len() implies #[trigger] post.graph_valid_at(i) by {
        if i < n {
            assert(pre.graph_valid_at(i));
            let old_ds = pre.cells[i].downstreams;
            assert forall|k: int| 0 <= k < post.cells[i].downstreams.len() implies {
                let d = #[trigger] post.cells[i].downstreams[k];
                &&& post.is_compute(d as int)
                &&& post.upstreams(d as int).contains(i as usize)
            } by {
                if k < old_ds.len() {
                    let d = old_ds[k];
                    assert(post.cells[i].downstreams[k] == d);
                    assert(pre.is_compute(d as int));
                    assert(post.cells[d as int].formula == pre.cells[d as int].formula);
                } else {
                    assert(post.cells[i].downstreams[k] == n as usize);
                    assert(occurrences(ups, i as usize) > 0);
                    lemma_occurrences_contains(ups, i as usize);
                }
            }
            if post.is_compute(i) {
                assert(post.upstreams(i) == pre.upstreams(i));
                assert forall|k: int| 0 <= k < post.upstreams(i).len() implies (
                #[trigger] post.upstreams(i)[k]) < i by {
                    assert(pre.upstreams(i)[k] < i);
                }
            }
        }
    }
    assert forall|i: int| 0 <= i < post.cells.len() implies #[trigger] post.callbacks_valid_at(
        i,
    ) by {
        if i < n {
            assert(pre.callbacks_valid_at(i));
        }
    }
    assert forall|i: int| 0 <= i < post.cells.len() implies #[trigger] post.consistent_at(i) by {
        if i < n {
            assert(pre.consistent_at(i));
            assert(pre.graph_valid_at(i));
            if pre.is_compute(i) {
                let u = pre.upstreams(i);
                assert forall|k: int| 0 <= k < u.len() implies post.cells[u[k] as int].value
                    == pre.cells[u[k] as int].value by {
                    assert(pre.upstreams(i)[k] < i);
                }
                assert(post.values_of(post.upstreams(i)) =~= pre.values_of(pre.upstreams(i)));
            }
        } else {
            assert(post.values_of(ups) =~= pre.values_of(ups));
        }
    }
    assert forall|d: int, k: int|
        post.is_compute(d) && 0 <= k < post.upstreams(d).len() implies post.cells[(
    #[trigger] post.upstreams(d)[k]) as int].downstreams.contains(d as usize) by {
        if d < n {
            assert(pre.is_compute(d));
            assert(pre.graph_valid_at(d));
            let u = pre.upstreams(d)[k];
            assert(u < d);
            let old_ds = pre.cells[u as int].downstreams;
            assert(old_ds.contains(d as usize));
            let j = choose|j: int| 0 <= j < old_ds.len() && old_ds[j] == d as usize;
            assert(post.cells[u as int].downstreams[j] == d as usize);
        } else {
            let u = ups[k];
            assert(ups.contains(u));
            lemma_occurrences_contains(ups, u);
            let old_ds = pre.cells[u as int].downstreams;
            assert(post.cells[u as int].downstreams[old_ds.len() as int] == n as usize);
        }
    }
}

/// Registering a callback keeps the model valid.
pub proof fn lemma_with_callback_valid<T, F: Fn(&[T]) -> T, C: Fn(T)>(
    pre: ReactorView<T, F, C>,
    cell: int,
    callback: C,
)
    requires
        pre.valid(),
        0 <= cell < pre.cells.len(),
        accepts_all(callback),
        pre.cells[cell].next_callback < usize::MAX,
    ensures
        pre.with_callback(cell, callback).valid(),
{
    let post = pre.with_callback(cell, callback);
    pre.lemma_graph_valid_transfers(post);
    pre.lemma_consistent_transfers(post);
    assert forall|i: int| 0 <= i < post.cells.len() implies #[trigger] post.callbacks_valid_at(
        i,
    ) by {
        assert(pre.callbacks_valid_at(i));
        if i == cell {
            let old_cbs = pre.cells[i].callbacks;
            let cbs = post.cells[i].callbacks;
            assert(cbs == old_cbs.push((pre.cells[i].next_callback, callback)));
            assert forall|j: int, k: int| 0 <= j < k < cbs.len() implies (#[trigger] cbs[j]).0 < (
            #[trigger] cbs[k]).0 by {
                assert(cbs[j] == old_cbs[j]);
                if k < old_cbs.len() {
                    assert(cbs[k] == old_cbs[k]);
                }
            }
            assert forall|k: int| 0 <= k < cbs.len() implies accepts_all((#[trigger] cbs[k]).1) by {
                if k < old_cbs.len() {
                    assert(cbs[k] == old_cbs[k]);
                }
            }
            assert forall|k: int| 0 <= k < cbs.len() implies (#[trigger] cbs[k]).0
                < post.cells[i].next_callback by {
                if k < old_cbs.len() {
                    assert(cbs[k] == old_cbs[k]);
                }
            }
        }
    }
}

/// Removing a callback keeps the model valid.
pub proof fn lemma_without_callback_valid<T, F: Fn(&[T]) -> T, C: Fn(T)>(
    pre: ReactorView<T, F, C>,
    cell: int,
    k: int,
)
    requires
        pre.valid(),
        0 <= cell < pre.cells.len(),
        0 <= k < pre.cells[cell].callbacks.len(),
    ensures
        pre.without_callback(cell, k).valid(),
{
    let post = pre.without_callback(cell, k);
    pre.lemma_graph_valid_transfers(post);
    pre.lemma_consistent_transfers(post);
    assert forall|i: int| 0 <= i < post.cells.len() implies #[trigger] post.callbacks_valid_at(
        i,
    ) by {
        assert(pre.callbacks_valid_at(i));
        if i == cell {
            let old_cbs = pre.cells[i].callbacks;
            let cbs = post.cells[i].callbacks;
            assert(cbs == old_cbs.remove(k));
            assert forall|a: int| 0 <= a < cbs.len() implies #[trigger] cbs[a] == old_cbs[if a
                < k {
                a
            } else {
                a + 1
            }] by {}
            assert forall|a: int, b: int| 0 <= a < b < cbs.len() implies (#[trigger] cbs[a]).0 < (
            #[trigger] cbs[b]).0 by {
                let a2 = if a < k { a } else { a + 1 };
                let b2 = if b < k { b } else { b + 1 };
                assert(old_cbs[a2].0 < old_cbs[b2].0);
            }
            assert forall|a: int| 0 <= a < cbs.len() implies accepts_all((#[trigger] cbs[a]).1) by {
                let a2 = if a < k { a } else { a + 1 };
                assert(accepts_all(old_cbs[a2].1));
            }
            assert forall|a: int| 0 <= a < cbs.len() implies (#[trigger] cbs[a]).0
                < post.cells[i].next_callback by {
                let a2 = if a < k { a } else { a + 1 };
                assert(old_cbs[a2].0 < pre.cells[i].next_callback);
            }
        }
    }
}

} // verus!
