//! The queue that `RingBuffer` presents, as a sequence of operations on its
//! view, and the laws that hold of any run of them.
use crate::ring_buffer::RingBuffer;
use vstd::prelude::*;

verus! {

/// The view after one operation: `Some(v)` pushes `v`, as `push` does, and
/// `None` pops, as `pop` does, which leaves an empty queue as it is.
pub open spec fn step<T>(q: Seq<T>, op: Option<T>) -> Seq<T> {
    match op {
        Some(v) => q.push(v),
        None => if q.len() == 0 {
            q
        } else {
            q.drop_first()
        },
    }
}

/// The view after running `ops` on a queue whose view is `q`.
pub open spec fn run<T>(q: Seq<T>, ops: Seq<Option<T>>) -> Seq<T>
    decreases ops.len(),
{
    if ops.len() == 0 {
        q
    } else {
        run(step(q, ops[0]), ops.drop_first())
    }
}

/// The values that the pops among `ops` return, in order.
pub open spec fn popped<T>(q: Seq<T>, ops: Seq<Option<T>>) -> Seq<T>
    decreases ops.len(),
{
    if ops.len() == 0 {
        Seq::empty()
    } else {
        let head = if ops[0] is None && q.len() > 0 {
            seq![q[0]]
        } else {
            Seq::empty()
        };
        head + popped(step(q, ops[0]), ops.drop_first())
    }
}

/// The values that the pushes among `ops` push, in order.
pub open spec fn pushed<T>(ops: Seq<Option<T>>) -> Seq<T>
    decreases ops.len(),
{
    if ops.len() == 0 {
        Seq::empty()
    } else {
        let head = match ops[0] {
            Some(v) => seq![v],
            None => Seq::empty(),
        };
        head + pushed(ops.drop_first())
    }
}

/// The number of pops among `ops`.
pub open spec fn pop_count<T>(ops: Seq<Option<T>>) -> nat
    decreases ops.len(),
{
    if ops.len() == 0 {
        0
    } else {
        (if ops[0] is None {
            1nat
        } else {
            0nat
        }) + pop_count(ops.drop_first())
    }
}

/// No pop among `ops` meets an empty queue, starting from `q`.
pub open spec fn pops_find_elements<T>(q: Seq<T>, ops: Seq<Option<T>>) -> bool
    decreases ops.len(),
{
    ops.len() == 0 || ((ops[0] is Some || q.len() > 0) && pops_find_elements(
        step(q, ops[0]),
        ops.drop_first(),
    ))
}

/// First in, first out: whatever the operations, the values popped followed
/// by those still queued are the values queued at the start followed by
/// those pushed, in the order they were pushed.
pub proof fn lemma_first_in_first_out<T>(q: Seq<T>, ops: Seq<Option<T>>)
    ensures
        popped(q, ops) + run(q, ops) == q + pushed(ops),
    decreases ops.len(),
{
    if ops.len() > 0 {
        let q2 = step(q, ops[0]);
        lemma_first_in_first_out(q2, ops.drop_first());
        match ops[0] {
            Some(v) => {
                assert(q2 + pushed(ops.drop_first()) =~= q + pushed(ops));
            },
            None => {
                if q.len() > 0 {
                    assert(seq![q[0]] + (q2 + pushed(ops.drop_first())) =~= q + pushed(ops));
                    assert(popped(q, ops) + run(q, ops) =~= seq![q[0]] + (popped(
                        q2,
                        ops.drop_first(),
                    ) + run(q2, ops.drop_first())));
                } else {
                    assert(popped(q, ops) =~= popped(q2, ops.drop_first()));
                    assert(pushed(ops) =~= pushed(ops.drop_first()));
                }
            },
        }
    } else {
        assert(q + pushed(ops) =~= q);
        assert(popped(q, ops) + run(q, ops) =~= q);
    }
}

/// Pushing `xs` onto an empty queue and then popping as many times returns
/// `xs` in order and leaves the queue empty.
pub proof fn lemma_push_then_pop_all<T>(xs: Seq<T>)
    ensures
        ({
            let ops = xs.map_values(|v: T| Some(v)) + Seq::new(xs.len(), |i: int| None::<T>);
            popped(Seq::empty(), ops) == xs && run(Seq::empty(), ops) == Seq::<T>::empty()
        }),
{
    let pushes = xs.map_values(|v: T| Some(v));
    let pops = Seq::new(xs.len(), |i: int| None::<T>);
    lemma_run_pushes(Seq::empty(), xs);
    lemma_run_pops(xs, xs.len());
    lemma_run_append(Seq::empty(), pushes, pops);
    assert(Seq::<T>::empty() + xs =~= xs);
    assert(xs.subrange(xs.len() as int, xs.len() as int) =~= Seq::<T>::empty());
    assert(xs.subrange(0, xs.len() as int) =~= xs);
    assert(Seq::<T>::empty() + xs =~= xs);
}

/// Running pushes of `xs` appends `xs` and pops nothing.
proof fn lemma_run_pushes<T>(q: Seq<T>, xs: Seq<T>)
    ensures
        run(q, xs.map_values(|v: T| Some(v))) == q + xs,
        popped(q, xs.map_values(|v: T| Some(v))) == Seq::<T>::empty(),
    decreases xs.len(),
{
    let ops = xs.map_values(|v: T| Some(v));
    if xs.len() == 0 {
        assert(q + xs =~= q);
    } else {
        assert(ops.drop_first() =~= xs.drop_first().map_values(|v: T| Some(v)));
        lemma_run_pushes(q.push(xs[0]), xs.drop_first());
        assert(q.push(xs[0]) + xs.drop_first() =~= q + xs);
        assert(popped(q, ops) =~= Seq::<T>::empty());
    }
}

/// Running `n` pops on `q`, with `n` at most its length, returns its first `n`
/// values.
proof fn lemma_run_pops<T>(q: Seq<T>, n: nat)
    requires
        n <= q.len(),
    ensures
        run(q, Seq::new(n, |i: int| None::<T>)) == q.subrange(n as int, q.len() as int),
        popped(q, Seq::new(n, |i: int| None::<T>)) == q.subrange(0, n as int),
    decreases n,
{
    let ops = Seq::new(n, |i: int| None::<T>);
    if n == 0 {
        assert(q.subrange(0, q.len() as int) =~= q);
        assert(q.subrange(0, 0) =~= Seq::<T>::empty());
    } else {
        assert(ops.drop_first() =~= Seq::new((n - 1) as nat, |i: int| None::<T>));
        lemma_run_pops(q.drop_first(), (n - 1) as nat);
        assert(q.drop_first().subrange((n - 1) as int, q.len() - 1) =~= q.subrange(
            n as int,
            q.len() as int,
        ));
        assert(seq![q[0]] + q.drop_first().subrange(0, (n - 1) as int) =~= q.subrange(0, n as int));
    }
}

/// Running `a + b` is running `a` and then `b`.
proof fn lemma_run_append<T>(q: Seq<T>, a: Seq<Option<T>>, b: Seq<Option<T>>)
    ensures
        run(q, a + b) == run(run(q, a), b),
        popped(q, a + b) == popped(q, a) + popped(run(q, a), b),
    decreases a.len(),
{
    if a.len() == 0 {
        assert(a + b =~= b);
        assert(popped(q, a) + popped(run(q, a), b) =~= popped(q, b));
    } else {
        assert((a + b).drop_first() =~= a.drop_first() + b);
        lemma_run_append(step(q, a[0]), a.drop_first(), b);
        let head = if a[0] is None && q.len() > 0 {
            seq![q[0]]
        } else {
            Seq::empty()
        };
        assert(head + (popped(step(q, a[0]), a.drop_first()) + popped(run(q, a), b)) =~= (head
            + popped(step(q, a[0]), a.drop_first())) + popped(run(q, a), b));
    }
}

/// The length of the queue is what was there, plus the pushes, minus the pops,
/// as long as no pop met an empty queue; so it never exceeds the pushes minus
/// the pops from an empty start.
pub proof fn lemma_len_counts<T>(q: Seq<T>, ops: Seq<Option<T>>)
    requires
        pops_find_elements(q, ops),
    ensures
        run(q, ops).len() + pop_count(ops) == q.len() + pushed(ops).len(),
    decreases ops.len(),
{
    if ops.len() > 0 {
        lemma_len_counts(step(q, ops[0]), ops.drop_first());
    }
}

/// Taking the free slots of a buffer, filling the first `k` of them (the
/// `first` region and then the `second`), and committing `k` queues exactly
/// those `k` values after the ones queued before, in the order written.
pub proof fn lemma_spare_commit<T>(
    before: &RingBuffer<T>,
    after: &RingBuffer<T>,
    first: Seq<Option<T>>,
    second: Seq<Option<T>>,
    k: nat,
)
    requires
        before.wf(),
        after.wf(),
        after@ == before@,
        after.spare_view() == first + second,
        k <= first.len() + second.len(),
        forall|i: int| 0 <= i < k ==> (#[trigger] (first + second)[i]) is Some,
    ensures
        k <= after.spare_len(),
        after.committed(k) == before@ + (first + second).subrange(0, k as int).map_values(
            |v: Option<T>| v->0,
        ),
{
    after.lemma_sizes();
}

} // verus!
