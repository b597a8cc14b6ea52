//! What follows from the model of the reactor: laws that hold of every valid
//! reactor and of every propagation pass.

use vstd::prelude::*;
use crate::react::model::{Event, ReactorView};

verus! {

/// The cell that an event happened at.
pub open spec fn event_cell<T>(e: Event<T>) -> usize {
    match e {
        Event::Recomputed { cell } => cell,
        Event::Fired { cell, .. } => cell,
    }
}

/// The event that the callback `callback` of `cell` was invoked with `value`.
pub open spec fn fired<T>(cell: usize, callback: usize, value: T) -> Event<T> {
    Event::Fired { cell, callback, value }
}

/// `path` walks the graph against the flow of values: each cell of it reads
/// the next one.
pub open spec fn reads_along<T, F: Fn(&[T]) -> T, C: Fn(T)>(
    v: ReactorView<T, F, C>,
    path: Seq<int>,
) -> bool {
    forall|k: int|
        0 <= k < path.len() - 1 ==> v.is_compute(#[trigger] path[k]) && v.upstreams(
            path[k],
        ).contains(path[k + 1] as usize) && 0 <= path[k + 1] < v.cells.len()
}

/// The graph has no cycle: whatever a cell reads, directly or through other
/// cells, was created before it, so no cell depends on itself.
pub proof fn lemma_no_cycles<T, F: Fn(&[T]) -> T, C: Fn(T)>(v: ReactorView<T, F, C>, path: Seq<int>)
    requires
        v.valid(),
        path.len() >= 2,
        reads_along(v, path),
    ensures
        path.last() < path.first(),
    decreases path.len(),
{
    let n = path.len() as int;
    assert(v.is_compute(path[n - 2]));
    assert(v.graph_valid_at(path[n - 2]));
    let ups = v.upstreams(path[n - 2]);
    let k = choose|k: int| 0 <= k < ups.len() && ups[k] == path[n - 1] as usize;
    assert(v.upstreams(path[n - 2])[k] < path[n - 2]);
    if n > 2 {
        let shorter = path.drop_last();
        assert forall|k: int| 0 <= k < shorter.len() - 1 implies v.is_compute(
            #[trigger] shorter[k],
        ) && v.upstreams(shorter[k]).contains(shorter[k + 1] as usize) && 0 <= shorter[k + 1]
            < v.cells.len() by {
            assert(shorter[k] == path[k]);
            assert(shorter[k + 1] == path[k + 1]);
        }
        lemma_no_cycles(v, shorter);
    }
}

/// Every event of a pass belongs to one cell: it is among the events of a
/// cell below `n`, and it happened at that cell.
pub proof fn lemma_event_has_cell<T, F: Fn(&[T]) -> T, C: Fn(T)>(
    pre: ReactorView<T, F, C>,
    post: ReactorView<T, F, C>,
    start: int,
    n: int,
    e: Event<T>,
)
    requires
        n <= pre.cells.len() <= usize::MAX,
        pre.pass_events(post, start, n).contains(e),
    ensures
        0 <= event_cell(e) < n,
        pre.cell_events(post, start, event_cell(e) as int).contains(e),
    decreases n,
{
    if n > 0 {
        let head = pre.pass_events(post, start, n - 1);
        let tail = pre.cell_events(post, start, n - 1);
        let i = choose|i: int| 0 <= i < (head + tail).len() && (head + tail)[i] == e;
        if i < head.len() {
            assert(head[i] == e);
            lemma_event_has_cell(pre, post, start, n - 1, e);
        } else {
            let k = i - head.len();
            assert(tail[k] == e);
            let fired = pre.cells[n - 1].firings((n - 1) as usize, post.cells[n - 1].value);
            if k > 0 {
                assert(fired[k - 1] == e);
            }
        }
    }
}

/// A compute cell whose value a pass left as it was has none of its callbacks
/// invoked by that pass.
pub proof fn lemma_unchanged_cell_is_silent<T, F: Fn(&[T]) -> T, C: Fn(T)>(
    pre: ReactorView<T, F, C>,
    post: ReactorView<T, F, C>,
    start: int,
    value: T,
    cell: int,
)
    requires
        pre.valid(),
        pre.sets_value(post, start, value),
        0 <= cell < pre.cells.len(),
        post.cells[cell].value == pre.cells[cell].value,
    ensures
        forall|callback: usize, with: T|
            !(#[trigger] pre.pass_events(post, start, pre.cells.len() as int).contains(
                fired(cell as usize, callback, with),
            )),
{
    let n = pre.cells.len() as int;
    assert forall|callback: usize, with: T|
        !(#[trigger] pre.pass_events(post, start, n).contains(
            fired(cell as usize, callback, with),
        )) by {
        let e = Event::Fired { cell: cell as usize, callback, value: with };
        if pre.pass_events(post, start, n).contains(e) {
            lemma_event_has_cell(pre, post, start, n, e);
            let own = pre.cell_events(post, start, cell);
            let i = choose|i: int| 0 <= i < own.len() && own[i] == e;
            assert(own[i] == e);
        }
    }
}

/// A compute cell none of whose upstreams was set or changed by a pass is not
/// visited by it: its function is not invoked, its value stays, and none of
/// its callbacks is invoked. So a pass does not go on through a cell whose
/// recomputed value equals the old one.
pub proof fn lemma_untouched_cell_is_idle<T, F: Fn(&[T]) -> T, C: Fn(T)>(
    pre: ReactorView<T, F, C>,
    post: ReactorView<T, F, C>,
    start: int,
    value: T,
    cell: int,
)
    requires
        pre.valid(),
        pre.sets_value(post, start, value),
        pre.is_compute(cell),
        !pre.touched(post, start, cell),
    ensures
        post.cells[cell].value == pre.cells[cell].value,
        forall|e: Event<T>|
            #[trigger] pre.pass_events(post, start, pre.cells.len() as int).contains(e)
                ==> event_cell(e) != cell,
{
    let n = pre.cells.len() as int;
    assert forall|e: Event<T>| #[trigger]
        pre.pass_events(post, start, n).contains(e) implies event_cell(e) != cell by {
        lemma_event_has_cell(pre, post, start, n, e);
        if event_cell(e) == cell {
            let own = pre.cell_events(post, start, cell);
            assert(own =~= Seq::<Event<T>>::empty());
            let i = choose|i: int| 0 <= i < own.len() && own[i] == e;
            assert(false);
        }
    }
}

/// A pass invokes only callbacks that are registered when it begins, and
/// only with the value that the cell holds when the pass is over.
pub proof fn lemma_fired_was_registered<T, F: Fn(&[T]) -> T, C: Fn(T)>(
    pre: ReactorView<T, F, C>,
    post: ReactorView<T, F, C>,
    start: int,
    value: T,
    cell: usize,
    callback: usize,
    with: T,
)
    requires
        pre.valid(),
        pre.sets_value(post, start, value),
        pre.pass_events(post, start, pre.cells.len() as int).contains(
            Event::Fired { cell, callback, value: with },
        ),
    ensures
        pre.is_compute(cell as int),
        pre.cells[cell as int].has_callback(callback),
        with == post.cells[cell as int].value,
        post.cells[cell as int].value != pre.cells[cell as int].value,
{
    let n = pre.cells.len() as int;
    let e = Event::Fired { cell, callback, value: with };
    lemma_event_has_cell(pre, post, start, n, e);
    let own = pre.cell_events(post, start, cell as int);
    let i = choose|i: int| 0 <= i < own.len() && own[i] == e;
    assert(own[i] == e);
    let fired = pre.cells[cell as int].firings(cell, post.cells[cell as int].value);
    assert(i > 0);
    assert(fired[i - 1] == e);
    assert(pre.cells[cell as int].callbacks[i - 1].0 == callback);
}

/// What a pass does at a cell below `n` is part of what it does below `n`.
pub proof fn lemma_cell_events_in_pass<T, F: Fn(&[T]) -> T, C: Fn(T)>(
    pre: ReactorView<T, F, C>,
    post: ReactorView<T, F, C>,
    start: int,
    n: int,
    cell: int,
    e: Event<T>,
)
    requires
        0 <= cell < n,
        pre.cell_events(post, start, cell).contains(e),
    ensures
        pre.pass_events(post, start, n).contains(e),
    decreases n,
{
    let head = pre.pass_events(post, start, n - 1);
    let tail = pre.cell_events(post, start, n - 1);
    if cell == n - 1 {
        let i = choose|i: int| 0 <= i < tail.len() && tail[i] == e;
        assert((head + tail)[head.len() + i] == e);
    } else {
        lemma_cell_events_in_pass(pre, post, start, n - 1, cell, e);
        let i = choose|i: int| 0 <= i < head.len() && head[i] == e;
        assert((head + tail)[i] == e);
    }
}

/// A pass invokes every callback of every compute cell whose value it
/// changed, with the new value.
pub proof fn lemma_changed_cell_fires<T, F: Fn(&[T]) -> T, C: Fn(T)>(
    pre: ReactorView<T, F, C>,
    post: ReactorView<T, F, C>,
    start: int,
    value: T,
    cell: usize,
    callback: usize,
)
    requires
        pre.valid(),
        pre.sets_value(post, start, value),
        pre.is_compute(cell as int),
        post.cells[cell as int].value != pre.cells[cell as int].value,
        pre.cells[cell as int].has_callback(callback),
    ensures
        pre.pass_events(post, start, pre.cells.len() as int).contains(
            Event::Fired { cell, callback, value: post.cells[cell as int].value },
        ),
{
    let c = pre.cells[cell as int];
    let e = Event::Fired { cell, callback, value: post.cells[cell as int].value };
    let k = choose|k: int| 0 <= k < c.callbacks.len() && (#[trigger] c.callbacks[k]).0 == callback;
    assert(pre.touched(post, start, cell as int));
    let own = pre.cell_events(post, start, cell as int);
    let fired = c.firings(cell, post.cells[cell as int].value);
    assert(fired[k] == e);
    assert(own[k + 1] == e);
    lemma_cell_events_in_pass(pre, post, start, pre.cells.len() as int, cell as int, e);
}

/// A pass invokes the function of every compute cell one of whose upstreams
/// was set or changed by it.
pub proof fn lemma_touched_cell_is_recomputed<T, F: Fn(&[T]) -> T, C: Fn(T)>(
    pre: ReactorView<T, F, C>,
    post: ReactorView<T, F, C>,
    start: int,
    cell: usize,
)
    requires
        pre.is_compute(cell as int),
        pre.touched(post, start, cell as int),
    ensures
        pre.pass_events(post, start, pre.cells.len() as int).contains(Event::Recomputed { cell }),
{
    let e = Event::Recomputed { cell };
    let own = pre.cell_events(post, start, cell as int);
    assert(own[0] == e);
    lemma_cell_events_in_pass(pre, post, start, pre.cells.len() as int, cell as int, e);
}

/// Nothing happens twice in a pass: no compute function is invoked twice,
/// and no callback is invoked twice.
pub proof fn lemma_pass_events_distinct<T, F: Fn(&[T]) -> T, C: Fn(T)>(
    pre: ReactorView<T, F, C>,
    post: ReactorView<T, F, C>,
    start: int,
    n: int,
)
    requires
        pre.valid(),
        n <= pre.cells.len(),
    ensures
        pre.pass_events(post, start, n).no_duplicates(),
    decreases n,
{
    if n > 0 {
        lemma_pass_events_distinct(pre, post, start, n - 1);
        let head = pre.pass_events(post, start, n - 1);
        let tail = pre.cell_events(post, start, n - 1);
        let c = pre.cells[n - 1];
        assert(pre.callbacks_valid_at(n - 1));
        assert forall|i: int, j: int| 0 <= i < j < tail.len() implies tail[i] != tail[j] by {
            let fired = c.firings((n - 1) as usize, post.cells[n - 1].value);
            assert(tail[j] == fired[j - 1]);
            if i > 0 {
                assert(tail[i] == fired[i - 1]);
                assert(c.callbacks[i - 1].0 < c.callbacks[j - 1].0);
            }
        }
        assert forall|i: int, j: int| 0 <= i < head.len() && 0 <= j < tail.len() implies head[i]
            != tail[j] by {
            assert(head.contains(head[i]));
            lemma_event_has_cell(pre, post, start, n - 1, head[i]);
            assert(tail.contains(tail[j]));
            let fired = c.firings((n - 1) as usize, post.cells[n - 1].value);
            if j > 0 {
                assert(tail[j] == fired[j - 1]);
            }
            assert(event_cell(tail[j]) == (n - 1) as usize);
        }
        vstd::seq_lib::lemma_no_dup_in_concat(head, tail);
    }
}

/// Every function of `v` gives one result only on given arguments.
pub open spec fn deterministic<T, F: Fn(&[T]) -> T, C: Fn(T)>(v: ReactorView<T, F, C>) -> bool {
    forall|i: int, a: &[T], r1: T, r2: T|
        v.is_compute(i) && #[trigger] call_ensures(v.func(i), (a,), r1) && #[trigger] call_ensures(
            v.func(i),
            (a,),
            r2,
        ) ==> r1 == r2
}

/// Where every function gives one result only, the inputs settle everything:
/// two valid models with the same graph and the same values in the input
/// cells hold the same value in every cell below `n`.
pub proof fn lemma_inputs_settle_values<T, F: Fn(&[T]) -> T, C: Fn(T)>(
    a: ReactorView<T, F, C>,
    b: ReactorView<T, F, C>,
    n: int,
)
    requires
        a.valid(),
        b.valid(),
        a.same_graph(b),
        deterministic(a),
        forall|i: int| a.is_input(i) ==> (#[trigger] b.cells[i]).value == a.cells[i].value,
        0 <= n <= a.cells.len(),
    ensures
        forall|i: int| 0 <= i < n ==> (#[trigger] b.cells[i]).value == a.cells[i].value,
    decreases n,
{
    if n > 0 {
        lemma_inputs_settle_values(a, b, n - 1);
        let i = n - 1;
        assert(b.cells[i].formula == a.cells[i].formula);
        if a.is_compute(i) {
            assert(a.consistent_at(i));
            assert(b.consistent_at(i));
            assert(a.graph_valid_at(i));
            let ups = a.upstreams(i);
            assert forall|k: int| 0 <= k < ups.len() implies b.cells[ups[k] as int].value
                == a.cells[ups[k] as int].value by {
                assert(a.upstreams(i)[k] < i);
            }
            assert(b.values_of(ups) =~= a.values_of(ups));
            let args = a.values_of(ups);
            let xa = choose|x: &[T]| x@ == args && #[trigger] call_ensures(
                a.func(i),
                (x,),
                a.cells[i].value,
            );
            let xb = choose|x: &[T]| x@ == args && #[trigger] call_ensures(
                b.func(i),
                (x,),
                b.cells[i].value,
            );
            assert(xa@ =~= xb@);
            assert(xa == xb);
        }
    }
}

/// After a callback was removed its id is retired.
pub proof fn lemma_removed_callback_is_retired<T, F: Fn(&[T]) -> T, C: Fn(T)>(
    pre: ReactorView<T, F, C>,
    cell: int,
    callback: usize,
)
    requires
        pre.valid(),
        0 <= cell < pre.cells.len(),
        pre.cells[cell].has_callback(callback),
    ensures
        pre.without_callback(cell, pre.cells[cell].position(callback)).cells[cell].retired(
            callback,
        ),
{
    let p = pre.cells[cell].position(callback);
    let old_cbs = pre.cells[cell].callbacks;
    let post = pre.without_callback(cell, p);
    let cbs = post.cells[cell].callbacks;
    assert(pre.callbacks_valid_at(cell));
    assert(old_cbs[p].0 == callback);
    assert(cbs == old_cbs.remove(p));
    if post.cells[cell].has_callback(callback) {
        let k = choose|k: int| 0 <= k < cbs.len() && (#[trigger] cbs[k]).0 == callback;
        let k2 = if k < p { k } else { k + 1 };
        assert(cbs[k] == old_cbs[k2]);
        if k2 < p {
            assert(old_cbs[k2].0 < old_cbs[p].0);
        } else {
            assert(old_cbs[p].0 < old_cbs[k2].0);
        }
    }
}

/// A retired callback id stays retired when a callback is registered: the new
/// callback gets an id that was never handed out before.
pub proof fn lemma_retired_survives_registration<T, F: Fn(&[T]) -> T, C: Fn(T)>(
    pre: ReactorView<T, F, C>,
    on: int,
    callback: C,
    cell: int,
    id: usize,
)
    requires
        pre.valid(),
        0 <= on < pre.cells.len(),
        0 <= cell < pre.cells.len(),
        pre.cells[on].next_callback < usize::MAX,
        pre.cells[cell].retired(id),
    ensures
        pre.with_callback(on, callback).cells[cell].retired(id),
{
    let post = pre.with_callback(on, callback);
    if cell == on {
        let old_cbs = pre.cells[cell].callbacks;
        let cbs = post.cells[cell].callbacks;
        assert(cbs == old_cbs.push((pre.cells[cell].next_callback, callback)));
        if post.cells[cell].has_callback(id) {
            let k = choose|k: int| 0 <= k < cbs.len() && (#[trigger] cbs[k]).0 == id;
            if k < old_cbs.len() {
                assert(old_cbs[k].0 == id);
            }
        }
    }
}

/// A retired callback id stays retired when another callback is removed.
pub proof fn lemma_retired_survives_removal<T, F: Fn(&[T]) -> T, C: Fn(T)>(
    pre: ReactorView<T, F, C>,
    on: int,
    k: int,
    cell: int,
    id: usize,
)
    requires
        0 <= on < pre.cells.len(),
        0 <= cell < pre.cells.len(),
        0 <= k < pre.cells[on].callbacks.len(),
        pre.cells[cell].retired(id),
    ensures
        pre.without_callback(on, k).cells[cell].retired(id),
{
    let post = pre.without_callback(on, k);
    if cell == on {
        let old_cbs = pre.cells[cell].callbacks;
        let cbs = post.cells[cell].callbacks;
        assert(cbs == old_cbs.remove(k));
        if post.cells[cell].has_callback(id) {
            let j = choose|j: int| 0 <= j < cbs.len() && (#[trigger] cbs[j]).0 == id;
            let j2 = if j < k { j } else { j + 1 };
            assert(old_cbs[j2].0 == id);
        }
    }
}

/// A retired callback is never invoked again: a pass leaves it retired and
/// none of its events is an invocation of it.
pub proof fn lemma_retired_never_fires<T, F: Fn(&[T]) -> T, C: Fn(T)>(
    pre: ReactorView<T, F, C>,
    post: ReactorView<T, F, C>,
    start: int,
    value: T,
    cell: int,
    id: usize,
)
    requires
        pre.valid(),
        pre.sets_value(post, start, value),
        0 <= cell < pre.cells.len(),
        pre.cells[cell].retired(id),
    ensures
        post.cells[cell].retired(id),
        forall|with: T|
            !(#[trigger] pre.pass_events(post, start, pre.cells.len() as int).contains(
                fired(cell as usize, id, with),
            )),
{
    let n = pre.cells.len() as int;
    assert(post.cells[cell].callbacks == pre.cells[cell].callbacks);
    assert forall|with: T|
        !(#[trigger] pre.pass_events(post, start, n).contains(
            fired(cell as usize, id, with),
        )) by {
        if pre.pass_events(post, start, n).contains(
            Event::Fired { cell: cell as usize, callback: id, value: with },
        ) {
            lemma_fired_was_registered(pre, post, start, value, cell as usize, id, with);
        }
    }
}

/// Each pass stands for itself: after two calls the record holds the events
/// of the first pass, then those of the second, and what the second pass
/// invokes depends only on what it changed itself.
pub proof fn lemma_passes_are_independent<T, F: Fn(&[T]) -> T, C: Fn(T)>(
    s0: ReactorView<T, F, C>,
    s1: ReactorView<T, F, C>,
    s2: ReactorView<T, F, C>,
    first: int,
    first_value: T,
    second: int,
    second_value: T,
)
    requires
        s0.valid(),
        s1.valid(),
        s0.sets_value(s1, first, first_value),
        s1.sets_value(s2, second, second_value),
    ensures
        s2.events == s0.events + s0.pass_events(s1, first, s0.cells.len() as int)
            + s1.pass_events(s2, second, s1.cells.len() as int),
        forall|cell: usize, callback: usize, with: T|
            (#[trigger] s1.pass_events(s2, second, s1.cells.len() as int).contains(
                fired(cell, callback, with),
            )) ==> s2.cells[cell as int].value != s1.cells[cell as int].value && with
                == s2.cells[cell as int].value,
{
    assert forall|cell: usize, callback: usize, with: T|
        (#[trigger] s1.pass_events(s2, second, s1.cells.len() as int).contains(
            fired(cell, callback, with),
        )) implies s2.cells[cell as int].value != s1.cells[cell as int].value && with
        == s2.cells[cell as int].value by {
        lemma_fired_was_registered(s1, s2, second, second_value, cell, callback, with);
    }
}

} // verus!
