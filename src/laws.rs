//! What holds of every replica: laws over the model of `replica`.
use crate::operation::{
    is_authentic, CRDTInfo, Counter, Operation, OperationData, OperationView, SignedView,
};
use crate::wire::{decoded, lemma_decoded_encoding, Encode};
use crate::replica::{
    above, author_step, counter_limit, drain, fold_contents, lemma_drain_idle, Applyable,
    AuthorState, DescView, ReplicaState,
};
use vstd::prelude::*;

verus! {

/// The state after `ops` arrive one after another, from the first.
pub open spec fn apply_all<T: Applyable>(
    s: ReplicaState<T>,
    ops: Seq<OperationView<DescView<T>>>,
) -> ReplicaState<T>
    decreases ops.len(),
{
    if ops.len() == 0 {
        s
    } else {
        apply_all(s, ops.drop_last()).deliver(ops.last())
    }
}

/// `ops` are what an honest author `a` made from its first operation on:
/// the i-th carries counter i, and every one is signed by `a`.
pub open spec fn authored_run<T: Applyable>(
    a: Seq<u8>,
    ops: Seq<OperationView<DescView<T>>>,
) -> bool {
    &&& ops.len() <= counter_limit()
    &&& forall|i: int|
        0 <= i < ops.len() ==> (#[trigger] ops[i]).user_pub_key == a
            && ops[i].data.payload.counter == i && is_authentic::<T::Description>(ops[i])
}

/// The first `k` of `ops` folded into `v` in counter order.
pub open spec fn fold_run<T: Applyable>(
    v: T::V,
    a: Seq<u8>,
    ops: Seq<OperationView<DescView<T>>>,
    k: nat,
) -> T::V
    decreases k,
{
    if k == 0 || k > ops.len() {
        v
    } else {
        fold_contents::<T>(
            fold_run::<T>(v, a, ops, (k - 1) as nat),
            ops[k - 1].data.payload.contents,
            a,
            (k - 1) as Counter,
        )
    }
}

/// The operations of a sequence, without order or repetition.
pub open spec fn elements<V>(xs: Seq<OperationView<V>>) -> Set<OperationView<V>> {
    Set::new(|y: OperationView<V>| xs.contains(y))
}

/// From `j` on, how far `ops` runs inside `delivered` without a gap.
pub open spec fn run_len<V>(
    ops: Seq<OperationView<V>>,
    delivered: Set<OperationView<V>>,
    j: nat,
) -> nat
    decreases ops.len() - j,
{
    if j < ops.len() && delivered.contains(ops[j as int]) {
        run_len(ops, delivered, j + 1)
    } else {
        j
    }
}

/// What a replica knows of author `a` once it has seen `delivered` out of
/// `ops`, wherever it started from `v`: the gap-free prefix is folded, and
/// what lies beyond the first gap waits.
pub open spec fn run_state<T: Applyable>(
    v: T::V,
    a: Seq<u8>,
    ops: Seq<OperationView<DescView<T>>>,
    delivered: Set<OperationView<DescView<T>>>,
) -> (T::V, AuthorState<DescView<T>>) {
    (fold_run::<T>(v, a, ops, run_len(ops, delivered, 0)), run_author_state(ops, delivered))
}

/// What a replica knows of the author of `ops` once it has seen
/// `delivered`: the counter after the gap-free prefix, and what waits
/// beyond it.
pub open spec fn run_author_state<V>(
    ops: Seq<OperationView<V>>,
    delivered: Set<OperationView<V>>,
) -> AuthorState<V> {
    let k = run_len(ops, delivered, 0);
    AuthorState {
        next: k,
        pending: Map::new(
            |c: Counter| k < c < ops.len() && delivered.contains(ops[c as int]),
            |c: Counter| ops[c as int].data,
        ),
    }
}

proof fn lemma_run_len_from<V>(ops: Seq<OperationView<V>>, d: Set<OperationView<V>>, j: nat)
    requires
        j <= ops.len(),
    ensures
        j <= run_len(ops, d, j) <= ops.len(),
        forall|i: int| j <= i < run_len(ops, d, j) ==> d.contains(#[trigger] ops[i]),
        run_len(ops, d, j) < ops.len() ==> !d.contains(ops[run_len(ops, d, j) as int]),
    decreases ops.len() - j,
{
    if j < ops.len() && d.contains(ops[j as int]) {
        lemma_run_len_from(ops, d, j + 1);
    }
}

/// The gap-free prefix is the one that reaches a missing operation or the end.
proof fn lemma_run_len_is<V>(
    ops: Seq<OperationView<V>>,
    d: Set<OperationView<V>>,
    k: nat,
    j: nat,
)
    requires
        j <= k <= ops.len(),
        forall|i: int| 0 <= i < k ==> d.contains(#[trigger] ops[i]),
        k < ops.len() ==> !d.contains(ops[k as int]),
    ensures
        run_len(ops, d, j) == k,
    decreases k - j,
{
    if j < k {
        lemma_run_len_is(ops, d, k, j + 1);
    }
}

proof fn lemma_distinct<T: Applyable>(a: Seq<u8>, ops: Seq<OperationView<DescView<T>>>, i: int, j: int)
    requires
        authored_run::<T>(a, ops),
        0 <= i < ops.len(),
        0 <= j < ops.len(),
        i != j,
    ensures
        ops[i] != ops[j],
{
    assert(ops[i].data.payload.counter == i);
    assert(ops[j].data.payload.counter == j);
}

/// Folding the run of `pend` from `j` is folding `ops` up to the end of the
/// gap-free prefix.
proof fn lemma_drain_run<T: Applyable>(
    v: T::V,
    a: Seq<u8>,
    ops: Seq<OperationView<DescView<T>>>,
    d: Set<OperationView<DescView<T>>>,
    pend: Map<Counter, SignedView<DescView<T>>>,
    lo: nat,
    j: nat,
)
    requires
        authored_run::<T>(a, ops),
        lo <= j <= run_len(ops, d, 0),
        run_len(ops, d, 0) <= ops.len(),
        forall|i: int| 0 <= i < run_len(ops, d, 0) ==> d.contains(#[trigger] ops[i]),
        run_len(ops, d, 0) < ops.len() ==> !d.contains(ops[run_len(ops, d, 0) as int]),
        forall|c: Counter|
            #[trigger] pend.contains_key(c) <==> lo <= c < ops.len() && d.contains(ops[c as int]),
        forall|c: Counter| #[trigger] pend.contains_key(c) ==> pend[c] == ops[c as int].data,
    ensures
        drain::<T>(fold_run::<T>(v, a, ops, j), a, pend, j) == (
            fold_run::<T>(v, a, ops, run_len(ops, d, 0)),
            run_len(ops, d, 0),
        ),
    decreases run_len(ops, d, 0) - j,
{
    let k = run_len(ops, d, 0);
    if j < k {
        assert(d.contains(ops[j as int]));
        assert(pend.contains_key(j as Counter));
        lemma_drain_run::<T>(v, a, ops, d, pend, lo, j + 1);
    } else {
        if j < counter_limit() && pend.contains_key(j as Counter) {
            assert(d.contains(ops[j as int]));
        }
        lemma_drain_idle::<T>(fold_run::<T>(v, a, ops, j), a, pend, j);
    }
}

/// One more operation of the run reaching the author's state moves it to
/// the state for the larger set of delivered operations.
proof fn lemma_run_step<T: Applyable>(
    v: T::V,
    a: Seq<u8>,
    ops: Seq<OperationView<DescView<T>>>,
    d: Set<OperationView<DescView<T>>>,
    x: OperationView<DescView<T>>,
)
    requires
        authored_run::<T>(a, ops),
        ops.contains(x),
    ensures
        ({
            let (w, st) = run_state::<T>(v, a, ops, d);
            author_step::<T>(w, a, st, x.data)
        }) == run_state::<T>(v, a, ops, d.insert(x)),
{
    let n = ops.len();
    let k = run_len(ops, d, 0);
    let d2 = d.insert(x);
    let (w, st) = run_state::<T>(v, a, ops, d);
    let i = choose|i: int| 0 <= i < ops.len() && ops[i] == x;
    let c = x.data.payload.counter;
    assert(c == i);
    lemma_run_len_from(ops, d, 0);
    let pend = if st.pending.contains_key(c) {
        st.pending
    } else {
        st.pending.insert(c, x.data)
    };
    if c < k {
        assert(d.contains(x));
        assert(d2 =~= d);
        assert(!pend.contains_key(k as Counter) || k >= counter_limit());
        lemma_drain_idle::<T>(w, a, pend, k);
        assert(above(pend, k) =~= st.pending);
    } else if c == k {
        assert(!d.contains(x));
        assert forall|j: int| 0 <= j < k + 1 implies d2.contains(#[trigger] ops[j]) by {
            if j < k {
                assert(d.contains(ops[j]));
            }
        }
        lemma_run_len_from(ops, d2, 0);
        let k2 = run_len(ops, d2, 0);
        if k2 < k + 1 {
            assert(d2.contains(ops[k2 as int]));
        }
        assert(pend == st.pending.insert(c, x.data));
        assert forall|cc: Counter| #[trigger]
            pend.contains_key(cc) implies pend[cc] == ops[cc as int].data by {
            if cc != c {
                assert(st.pending.contains_key(cc));
            }
        }
        assert forall|cc: Counter| #[trigger]
            pend.contains_key(cc) <==> k <= cc < ops.len() && d2.contains(ops[cc as int]) by {
            if cc as nat == k {
                assert(ops[cc as int] == x);
            }
            if k < cc < ops.len() && d2.contains(ops[cc as int]) {
                if ops[cc as int] == x {
                    lemma_distinct::<T>(a, ops, cc as int, i);
                }
                assert(d.contains(ops[cc as int]));
            }
        }
        lemma_drain_run::<T>(v, a, ops, d2, pend, k, k);
        assert(above(pend, k2) =~= run_state::<T>(v, a, ops, d2).1.pending);
    } else {
        assert(c > k);
        assert(k < n);
        assert(ops[k as int] != x) by {
            lemma_distinct::<T>(a, ops, k as int, i);
        }
        lemma_run_len_is(ops, d2, k, 0);
        assert(!pend.contains_key(k as Counter));
        lemma_drain_idle::<T>(w, a, pend, k);
        assert(above(pend, k) =~= pend);
        if d.contains(x) {
            assert(d2 =~= d);
            assert(st.pending.contains_key(c));
        } else {
            assert forall|cc: Counter|
                k < cc < ops.len() && d2.contains(ops[cc as int]) implies #[trigger] pend.contains_key(
                cc,
            ) by {
                if k < cc < ops.len() && d2.contains(ops[cc as int]) && cc != c {
                    if ops[cc as int] == x {
                        lemma_distinct::<T>(a, ops, cc as int, i);
                    }
                }
            }
            assert(pend =~= run_state::<T>(v, a, ops, d2).1.pending);
        }
    }
}

proof fn lemma_elements_push<V>(xs: Seq<OperationView<V>>, x: OperationView<V>)
    ensures
        elements(xs.push(x)) == elements(xs).insert(x),
{
    assert forall|y: OperationView<V>| #[trigger] xs.push(x).contains(y) <==> xs.contains(y)
        || y == x by {
        if xs.contains(y) {
            let i = choose|i: int| 0 <= i < xs.len() && xs[i] == y;
            assert(xs.push(x)[i] == y);
        }
        if y == x {
            assert(xs.push(x)[xs.len() as int] == y);
        }
        if xs.push(x).contains(y) && y != x {
            let i = choose|i: int| 0 <= i < xs.push(x).len() && xs.push(x)[i] == y;
            assert(xs[i] == y);
        }
    }
    assert(elements(xs.push(x)) =~= elements(xs).insert(x));
}

/// Whatever order and repetition the operations of one honest author arrive
/// in, the replica ends in the state that the set of arrived operations
/// determines.
pub proof fn lemma_arrivals_determine_state<T: Applyable>(
    s: ReplicaState<T>,
    a: Seq<u8>,
    ops: Seq<OperationView<DescView<T>>>,
    arrivals: Seq<OperationView<DescView<T>>>,
)
    requires
        !s.authors.contains_key(a),
        authored_run::<T>(a, ops),
        forall|i: int| 0 <= i < arrivals.len() ==> ops.contains(#[trigger] arrivals[i]),
    ensures
        arrivals.len() > 0 ==> {
            let (w, st) = run_state::<T>(s.value, a, ops, elements(arrivals));
            apply_all(s, arrivals) == ReplicaState { value: w, authors: s.authors.insert(a, st), ..s }
        },
    decreases arrivals.len(),
{
    if arrivals.len() > 0 {
        let prev = arrivals.drop_last();
        let x = arrivals.last();
        assert(arrivals =~= prev.push(x));
        assert(forall|i: int| 0 <= i < prev.len() ==> prev[i] == arrivals[i]);
        lemma_arrivals_determine_state(s, a, ops, prev);
        let t = apply_all(s, prev);
        assert(ops.contains(arrivals[arrivals.len() - 1]));
        let i = choose|i: int| 0 <= i < ops.len() && ops[i] == x;
        assert(is_authentic::<T::Description>(x) && x.user_pub_key == a);
        lemma_elements_push(prev, x);
        if prev.len() == 0 {
            assert(elements(prev) =~= Set::empty());
            lemma_run_len_is(ops, elements(prev), 0, 0);
            assert(run_state::<T>(s.value, a, ops, elements(prev)).1.pending =~= Map::empty());
        }
        lemma_run_step::<T>(s.value, a, ops, elements(prev), x);
        let (w, st) = run_state::<T>(s.value, a, ops, elements(arrivals));
        assert(t.deliver(x).authors =~= s.authors.insert(a, st));
    }
}

/// Once every operation of the run has arrived, all of them are folded in
/// counter order and none waits.
proof fn lemma_complete_run<T: Applyable>(
    s: ReplicaState<T>,
    a: Seq<u8>,
    ops: Seq<OperationView<DescView<T>>>,
    arrivals: Seq<OperationView<DescView<T>>>,
)
    requires
        !s.authors.contains_key(a),
        authored_run::<T>(a, ops),
        ops.len() > 0,
        forall|y: OperationView<DescView<T>>| arrivals.contains(y) <==> ops.contains(y),
    ensures
        apply_all(s, arrivals) == (ReplicaState {
            value: fold_run::<T>(s.value, a, ops, ops.len()),
            authors: s.authors.insert(a, AuthorState { next: ops.len(), pending: Map::empty() }),
            ..s
        }),
{
    assert forall|i: int| 0 <= i < arrivals.len() implies ops.contains(#[trigger] arrivals[i]) by {
        assert(arrivals.contains(arrivals[i]));
    }
    assert(arrivals.len() > 0) by {
        assert(ops.contains(ops[0]));
    }
    lemma_arrivals_determine_state(s, a, ops, arrivals);
    let d = elements(arrivals);
    assert forall|i: int| 0 <= i < ops.len() implies d.contains(#[trigger] ops[i]) by {
        assert(ops.contains(ops[i]));
    }
    lemma_run_len_is(ops, d, ops.len(), 0);
    assert(run_state::<T>(s.value, a, ops, d).1.pending =~= Map::empty());
}

/// Order insensitivity: the operations of one honest author delivered in any
/// permutation leave a replica in the same state as in their own order.
pub proof fn lemma_order_insensitive<T: Applyable>(
    s: ReplicaState<T>,
    a: Seq<u8>,
    ops: Seq<OperationView<DescView<T>>>,
    permuted: Seq<OperationView<DescView<T>>>,
)
    requires
        !s.authors.contains_key(a),
        authored_run::<T>(a, ops),
        permuted.to_multiset() == ops.to_multiset(),
    ensures
        apply_all(s, permuted) == apply_all(s, ops),
        apply_all(s, permuted).value == apply_all(s, ops).value,
{
    broadcast use vstd::seq_lib::group_to_multiset_ensures;

    if ops.len() == 0 {
        permuted.to_multiset_ensures();
        ops.to_multiset_ensures();
        assert(permuted.len() == 0);
        assert(permuted =~= ops);
    } else {
        assert forall|y: OperationView<DescView<T>>| permuted.contains(y) <==> ops.contains(
            y,
        ) by {
            assert(permuted.contains(y) <==> permuted.to_multiset().count(y) > 0);
            assert(ops.contains(y) <==> ops.to_multiset().count(y) > 0);
        }
        lemma_complete_run(s, a, ops, permuted);
        lemma_complete_run(s, a, ops, ops);
    }
}

/// Idempotence: delivering the operations of one honest author with any
/// repetitions leaves a replica as delivering each once does; the value is
/// all of them folded in counter order, and none of them waits.
pub proof fn lemma_idempotent<T: Applyable>(
    s: ReplicaState<T>,
    a: Seq<u8>,
    ops: Seq<OperationView<DescView<T>>>,
    repeated: Seq<OperationView<DescView<T>>>,
)
    requires
        !s.authors.contains_key(a),
        authored_run::<T>(a, ops),
        forall|y: OperationView<DescView<T>>| repeated.contains(y) <==> ops.contains(y),
    ensures
        apply_all(s, repeated) == apply_all(s, ops),
        apply_all(s, ops).value == fold_run::<T>(s.value, a, ops, ops.len()),
        ops.len() > 0 ==> apply_all(s, ops).author(a).next == ops.len(),
        apply_all(s, ops).author(a).pending.is_empty(),
        apply_all(s, ops).pending() == s.pending(),
        apply_all(s, repeated).pending() == s.pending(),
{
    if ops.len() == 0 {
        assert(repeated.len() == 0) by {
            if repeated.len() > 0 {
                assert(repeated.contains(repeated[0]));
            }
        }
        assert(repeated =~= ops);
        assert(s.author(a).pending =~= Map::empty());
    } else {
        lemma_complete_run(s, a, ops, repeated);
        lemma_complete_run(s, a, ops, ops);
        let t = apply_all(s, ops);
        assert(t.author(a).pending =~= Map::empty());
        assert(t.pending() =~= s.pending());
    }
}

/// Order insensitivity and idempotence together: any arrangement, with any
/// repetitions, of the operations of one honest author leaves a replica as
/// their own order does, with none of them waiting.
pub proof fn lemma_order_insensitive_and_idempotent<T: Applyable>(
    s: ReplicaState<T>,
    a: Seq<u8>,
    ops: Seq<OperationView<DescView<T>>>,
    repeated: Seq<OperationView<DescView<T>>>,
    shuffled: Seq<OperationView<DescView<T>>>,
)
    requires
        !s.authors.contains_key(a),
        authored_run::<T>(a, ops),
        forall|y: OperationView<DescView<T>>| repeated.contains(y) <==> ops.contains(y),
        shuffled.to_multiset() == repeated.to_multiset(),
    ensures
        apply_all(s, shuffled) == apply_all(s, ops),
        apply_all(s, shuffled).value == apply_all(s, ops).value,
        apply_all(s, shuffled).pending() == s.pending(),
{
    broadcast use vstd::seq_lib::group_to_multiset_ensures;

    assert forall|y: OperationView<DescView<T>>| shuffled.contains(y) <==> ops.contains(y) by {
        assert(shuffled.contains(y) <==> shuffled.to_multiset().count(y) > 0);
        assert(repeated.contains(y) <==> repeated.to_multiset().count(y) > 0);
    }
    lemma_idempotent(s, a, ops, shuffled);
}

/// An operation whose signature does not verify has no effect on the value,
/// the state vector or what waits.
pub proof fn lemma_signature_gate<T: Applyable>(
    s: ReplicaState<T>,
    op: OperationView<DescView<T>>,
)
    requires
        !is_authentic::<T::Description>(op),
    ensures
        s.deliver(op) == s,
        s.deliver_outcome(op) == Err::<(), _>(crate::replica::ApplyError::SignatureInvalid),
{
}

/// An operation that a replica turns away leaves it exactly as it was.
pub proof fn lemma_rejected_changes_nothing<T: Applyable>(
    s: ReplicaState<T>,
    op: OperationView<DescView<T>>,
)
    requires
        s.wf(),
        s.deliver_outcome(op) is Err,
    ensures
        s.deliver(op) == s,
{
    if is_authentic::<T::Description>(op) {
        let a = op.user_pub_key;
        let st = s.author(a);
        assert(s.authors.contains_key(a));
        lemma_drain_idle::<T>(s.value, a, st.pending, st.next);
        assert(above(st.pending, st.next) =~= st.pending);
        assert(s.authors.insert(a, st) =~= s.authors);
    }
}

/// The run of `pend` from counter `from` up to, not including, `to`, folded
/// into `v` in counter order.
pub open spec fn fold_between<T: Applyable>(
    v: T::V,
    a: Seq<u8>,
    pend: Map<Counter, SignedView<DescView<T>>>,
    from: nat,
    to: nat,
) -> T::V
    decreases to - from,
{
    if from >= to {
        v
    } else {
        fold_between::<T>(
            fold_contents::<T>(v, pend[from as Counter].payload.contents, a, from as Counter),
            a,
            pend,
            from + 1,
            to,
        )
    }
}

/// The causal gate, first half: operations of author `a` that all lie
/// beyond the counter the replica expects next change nothing in the value
/// or the state vector, and every one of them waits. (Two payloads under
/// one counter cannot both wait: the first one seen stays, so the
/// operations agree with each other and with what already waits.)
pub proof fn lemma_causal_gate_holds<T: Applyable>(
    s: ReplicaState<T>,
    a: Seq<u8>,
    ops: Seq<OperationView<DescView<T>>>,
)
    requires
        s.wf(),
        forall|i: int|
            0 <= i < ops.len() ==> (#[trigger] ops[i]).user_pub_key == a && is_authentic::<
                T::Description,
            >(ops[i]) && ops[i].data.payload.counter > s.author(a).next && (s.author(
                a,
            ).pending.contains_key(ops[i].data.payload.counter) ==> s.author(
                a,
            ).pending[ops[i].data.payload.counter] == ops[i].data),
        forall|i: int, j: int|
            0 <= i < ops.len() && 0 <= j < ops.len() && (#[trigger] ops[i]).data.payload.counter == (
            #[trigger] ops[j]).data.payload.counter ==> ops[i].data == ops[j].data,
    ensures
        apply_all(s, ops).value == s.value,
        apply_all(s, ops).author(a).next == s.author(a).next,
        forall|i: int|
            0 <= i < ops.len() ==> apply_all(s, ops).author(a).pending.contains_key(
                (#[trigger] ops[i]).data.payload.counter,
            ) && apply_all(s, ops).author(a).pending[ops[i].data.payload.counter] == ops[i].data,
        forall|c: Counter| #[trigger]
            apply_all(s, ops).author(a).pending.contains_key(c) ==> c > s.author(a).next,
        forall|c: Counter| #[trigger]
            apply_all(s, ops).author(a).pending.contains_key(c) ==> (s.author(
                a,
            ).pending.contains_key(c) && apply_all(s, ops).author(a).pending[c] == s.author(
                a,
            ).pending[c]) || exists|i: int|
                0 <= i < ops.len() && ops[i].data.payload.counter == c && apply_all(s, ops).author(
                    a,
                ).pending[c] == ops[i].data,
    decreases ops.len(),
{
    if ops.len() > 0 {
        let prev = ops.drop_last();
        let x = ops.last();
        let n = ops.len() - 1;
        assert(x == ops[n]);
        assert forall|i: int, j: int|
            0 <= i < prev.len() && 0 <= j < prev.len() && (#[trigger] prev[i]).data.payload.counter
                == (#[trigger] prev[j]).data.payload.counter implies prev[i].data
            == prev[j].data by {
            assert(prev[i] == ops[i] && prev[j] == ops[j]);
        }
        assert forall|i: int| 0 <= i < prev.len() implies (#[trigger] prev[i]).user_pub_key == a
            && is_authentic::<T::Description>(prev[i]) && prev[i].data.payload.counter > s.author(
            a,
        ).next && (s.author(a).pending.contains_key(prev[i].data.payload.counter) ==> s.author(
            a,
        ).pending[prev[i].data.payload.counter] == prev[i].data) by {
            assert(prev[i] == ops[i]);
        }
        lemma_causal_gate_holds(s, a, prev);
        let t = apply_all(s, prev);
        let st = t.author(a);
        let k = st.next;
        let c = x.data.payload.counter;
        if st.pending.contains_key(c) {
            if s.author(a).pending.contains_key(c) && st.pending[c] == s.author(a).pending[c] {
            } else {
                let i = choose|i: int|
                    0 <= i < prev.len() && prev[i].data.payload.counter == c && st.pending[c]
                        == prev[i].data;
                assert(prev[i] == ops[i]);
            }
            assert(st.pending[c] == x.data);
        }
        let pend = if st.pending.contains_key(c) {
            st.pending
        } else {
            st.pending.insert(c, x.data)
        };
        assert(pend =~= st.pending.insert(c, x.data));
        assert(!pend.contains_key(k as Counter) || k >= counter_limit());
        lemma_drain_idle::<T>(t.value, a, pend, k);
        assert(above(pend, k) =~= pend);
        let r = apply_all(s, ops).author(a).pending;
        assert(r == pend);
        assert forall|i: int| 0 <= i < ops.len() implies r.contains_key(
            (#[trigger] ops[i]).data.payload.counter,
        ) && r[ops[i].data.payload.counter] == ops[i].data by {
            if i < n {
                assert(prev[i] == ops[i]);
                if ops[i].data.payload.counter == c {
                    assert(ops[i].data == ops[n].data);
                }
            }
        }
        assert forall|cc: Counter| #[trigger]
            r.contains_key(cc) implies (s.author(a).pending.contains_key(cc) && r[cc] == s.author(
            a,
        ).pending[cc]) || exists|i: int|
            0 <= i < ops.len() && ops[i].data.payload.counter == cc && r[cc] == ops[i].data by {
            if cc == c {
                assert(ops[n].data.payload.counter == cc && r[cc] == ops[n].data);
            } else if !(s.author(a).pending.contains_key(cc) && st.pending[cc] == s.author(
                a,
            ).pending[cc]) {
                let i = choose|i: int|
                    0 <= i < prev.len() && prev[i].data.payload.counter == cc && st.pending[cc]
                        == prev[i].data;
                assert(prev[i] == ops[i]);
            }
        }
    } else {
        assert forall|c: Counter| #[trigger] s.author(a).pending.contains_key(c) implies c
            > s.author(a).next by {
            if s.authors.contains_key(a) {
                assert(crate::replica::author_wf(s.authors[a]));
            }
        }
    }
}

proof fn lemma_drain_between<T: Applyable>(
    v: T::V,
    a: Seq<u8>,
    pend: Map<Counter, SignedView<DescView<T>>>,
    j: nat,
    m: nat,
)
    requires
        j <= m <= counter_limit(),
        forall|c: Counter| j <= c < m ==> #[trigger] pend.contains_key(c),
        !(m < counter_limit() && pend.contains_key(m as Counter)),
    ensures
        drain::<T>(v, a, pend, j) == (fold_between::<T>(v, a, pend, j, m), m),
    decreases m - j,
{
    if j < m {
        assert(pend.contains_key(j as Counter));
        lemma_drain_between::<T>(
            fold_contents::<T>(v, pend[j as Counter].payload.contents, a, j as Counter),
            a,
            pend,
            j + 1,
            m,
        );
    }
}

/// The causal gate, second half: when the missing operation of author `a`
/// arrives, it and every waiting operation that follows it without a gap
/// are folded in one go, in counter order, and only what lies beyond the
/// next gap keeps waiting.
pub proof fn lemma_causal_gate_opens<T: Applyable>(
    s: ReplicaState<T>,
    op: OperationView<DescView<T>>,
    m: nat,
)
    requires
        s.wf(),
        is_authentic::<T::Description>(op),
        op.data.payload.counter == s.author(op.user_pub_key).next,
        s.author(op.user_pub_key).next < m <= counter_limit(),
        forall|c: Counter|
            s.author(op.user_pub_key).next < c < m ==> #[trigger] s.author(
                op.user_pub_key,
            ).pending.contains_key(c),
        !(m < counter_limit() && s.author(op.user_pub_key).pending.contains_key(m as Counter)),
    ensures
        ({
            let a = op.user_pub_key;
            let st = s.author(a);
            let t = s.deliver(op);
            &&& t.author(a).next == m
            &&& t.value == fold_between::<T>(
                s.value,
                a,
                st.pending.insert(op.data.payload.counter, op.data),
                st.next,
                m,
            )
            &&& t.author(a).pending == above(st.pending, m)
        }),
{
    let a = op.user_pub_key;
    let st = s.author(a);
    let c = op.data.payload.counter;
    assert(!st.pending.contains_key(c)) by {
        if s.authors.contains_key(a) {
            assert(crate::replica::author_wf(s.authors[a]));
        }
    }
    let pend = st.pending.insert(c, op.data);
    lemma_drain_between::<T>(s.value, a, pend, st.next, m);
    assert(above(pend, m) =~= above(st.pending, m));
}

/// A header read back from its encoding is the header.
pub proof fn lemma_header_round_trip<T: Encode>(info: CRDTInfo<T>)
    ensures
        decoded::<CRDTInfo<T>>(CRDTInfo::<T>::encoding(info@)) == Some(info@),
{
    lemma_decoded_encoding(info);
}

/// An operation read back from its encoding is the operation.
pub proof fn lemma_operation_round_trip<T: Encode>(op: Operation<T>)
    ensures
        decoded::<Operation<T>>(Operation::<T>::encoding(op@)) == Some(op@),
{
    lemma_decoded_encoding(op);
}

proof fn lemma_contents_commute<T: Applyable>(
    v: T::V,
    x: OperationData<DescView<T>>,
    a1: Seq<u8>,
    c1: Counter,
    y: OperationData<DescView<T>>,
    a2: Seq<u8>,
    c2: Counter,
)
    ensures
        fold_contents::<T>(fold_contents::<T>(v, x, a1, c1), y, a2, c2) == fold_contents::<T>(
            fold_contents::<T>(v, y, a2, c2),
            x,
            a1,
            c1,
        ),
{
    if let (OperationData::Desc(d1), OperationData::Desc(d2)) = (x, y) {
        T::lemma_fold_commutes(v, d1, a1, c1, d2, a2, c2);
    }
}

/// Where a run stops does not depend on the value it folds into.
proof fn lemma_drain_stops_alike<T: Applyable>(
    v: T::V,
    w: T::V,
    a: Seq<u8>,
    pend: Map<Counter, SignedView<DescView<T>>>,
    n: nat,
)
    ensures
        drain::<T>(v, a, pend, n).1 == drain::<T>(w, a, pend, n).1,
    decreases counter_limit() - n,
{
    if n < counter_limit() && pend.contains_key(n as Counter) {
        let y = pend[n as Counter].payload.contents;
        lemma_drain_stops_alike::<T>(
            fold_contents::<T>(v, y, a, n as Counter),
            fold_contents::<T>(w, y, a, n as Counter),
            a,
            pend,
            n + 1,
        );
    }
}

/// Folding one description first, then a run, is folding the run first.
proof fn lemma_drain_fold_commute<T: Applyable>(
    v: T::V,
    a: Seq<u8>,
    pend: Map<Counter, SignedView<DescView<T>>>,
    n: nat,
    x: OperationData<DescView<T>>,
    b: Seq<u8>,
    c: Counter,
)
    ensures
        drain::<T>(fold_contents::<T>(v, x, b, c), a, pend, n).0 == fold_contents::<T>(
            drain::<T>(v, a, pend, n).0,
            x,
            b,
            c,
        ),
    decreases counter_limit() - n,
{
    if n < counter_limit() && pend.contains_key(n as Counter) {
        let y = pend[n as Counter].payload.contents;
        lemma_contents_commute::<T>(v, x, b, c, y, a, n as Counter);
        lemma_drain_fold_commute::<T>(fold_contents::<T>(v, y, a, n as Counter), a, pend, n + 1, x, b, c);
    }
}

/// Folding the runs of two authors in either order gives the same value.
proof fn lemma_drains_commute<T: Applyable>(
    v: T::V,
    a: Seq<u8>,
    p: Map<Counter, SignedView<DescView<T>>>,
    n: nat,
    b: Seq<u8>,
    q: Map<Counter, SignedView<DescView<T>>>,
    m: nat,
)
    ensures
        drain::<T>(drain::<T>(v, a, p, n).0, b, q, m).0 == drain::<T>(
            drain::<T>(v, b, q, m).0,
            a,
            p,
            n,
        ).0,
    decreases counter_limit() - m,
{
    if m < counter_limit() && q.contains_key(m as Counter) {
        let x = q[m as Counter].payload.contents;
        lemma_drain_fold_commute::<T>(v, a, p, n, x, b, m as Counter);
        lemma_drains_commute::<T>(fold_contents::<T>(v, x, b, m as Counter), a, p, n, b, q, m + 1);
    }
}

/// Operations of two different authors leave a replica in the same state
/// whichever arrives first: convergence across authors rests on `fold`
/// commuting.
pub proof fn lemma_authors_commute<T: Applyable>(
    s: ReplicaState<T>,
    x: OperationView<DescView<T>>,
    y: OperationView<DescView<T>>,
)
    requires
        x.user_pub_key != y.user_pub_key,
    ensures
        s.deliver(x).deliver(y) == s.deliver(y).deliver(x),
{
    if is_authentic::<T::Description>(x) && is_authentic::<T::Description>(y) {
        let a = x.user_pub_key;
        let b = y.user_pub_key;
        let sa = s.author(a);
        let sb = s.author(b);
        let pa = if sa.pending.contains_key(x.data.payload.counter) {
            sa.pending
        } else {
            sa.pending.insert(x.data.payload.counter, x.data)
        };
        let pb = if sb.pending.contains_key(y.data.payload.counter) {
            sb.pending
        } else {
            sb.pending.insert(y.data.payload.counter, y.data)
        };
        assert(s.deliver(x).author(b) == sb);
        assert(s.deliver(y).author(a) == sa);
        lemma_drains_commute::<T>(s.value, a, pa, sa.next, b, pb, sb.next);
        lemma_drain_stops_alike::<T>(s.value, drain::<T>(s.value, b, pb, sb.next).0, a, pa, sa.next);
        lemma_drain_stops_alike::<T>(s.value, drain::<T>(s.value, a, pa, sa.next).0, b, pb, sb.next);
        assert(s.deliver(x).deliver(y).authors =~= s.deliver(y).deliver(x).authors);
    }
}

/// Arriving operations never touch the outbox: only operations authored
/// here enter it.
pub proof fn lemma_deliver_keeps_outbox<T: Applyable>(
    s: ReplicaState<T>,
    op: OperationView<DescView<T>>,
)
    ensures
        s.deliver(op).outbox == s.outbox,
        s.deliver(op).info == s.info,
{
}

/// `ops[from..to]` folded into `v` in counter order.
pub open spec fn fold_seg<T: Applyable>(
    v: T::V,
    a: Seq<u8>,
    ops: Seq<OperationView<DescView<T>>>,
    from: nat,
    to: nat,
) -> T::V
    decreases to - from,
{
    if from < to && to <= ops.len() {
        fold_seg::<T>(
            fold_contents::<T>(v, ops[from as int].data.payload.contents, a, from as Counter),
            a,
            ops,
            from + 1,
            to,
        )
    } else {
        v
    }
}

/// Whether any operation of `ops` is among `delivered`.
pub open spec fn touched<V>(ops: Seq<OperationView<V>>, delivered: Set<OperationView<V>>) -> bool {
    exists|c: int| 0 <= c < ops.len() && delivered.contains(ops[c])
}

/// `runs[j]` is what the honest author `keys[j]` made, and the authors differ.
pub open spec fn authored_runs<T: Applyable>(
    keys: Seq<Seq<u8>>,
    runs: Seq<Seq<OperationView<DescView<T>>>>,
) -> bool {
    &&& keys.len() == runs.len()
    &&& forall|j: int| 0 <= j < runs.len() ==> authored_run::<T>(#[trigger] keys[j], runs[j])
    &&& forall|i: int, j: int|
        0 <= i < keys.len() && 0 <= j < keys.len() && i != j ==> #[trigger] keys[i] != #[trigger] keys[j]
}

/// The gap-free prefixes of the first `i` runs folded into `v`, one run
/// after another.
pub open spec fn joint_value<T: Applyable>(
    v: T::V,
    keys: Seq<Seq<u8>>,
    runs: Seq<Seq<OperationView<DescView<T>>>>,
    d: Set<OperationView<DescView<T>>>,
    i: nat,
) -> T::V
    decreases i,
{
    if i == 0 || i > runs.len() {
        v
    } else {
        fold_seg::<T>(
            joint_value::<T>(v, keys, runs, d, (i - 1) as nat),
            keys[i - 1],
            runs[i - 1],
            0,
            run_len(runs[i - 1], d, 0),
        )
    }
}

/// `m` with the state of each of the first `i` authors whose operations
/// were seen.
pub open spec fn joint_authors<V>(
    m: Map<Seq<u8>, AuthorState<V>>,
    keys: Seq<Seq<u8>>,
    runs: Seq<Seq<OperationView<V>>>,
    d: Set<OperationView<V>>,
    i: nat,
) -> Map<Seq<u8>, AuthorState<V>>
    decreases i,
{
    if i == 0 || i > runs.len() {
        m
    } else {
        let prev = joint_authors(m, keys, runs, d, (i - 1) as nat);
        if touched(runs[i - 1], d) {
            prev.insert(keys[i - 1], run_author_state(runs[i - 1], d))
        } else {
            prev
        }
    }
}

proof fn lemma_seg_split<T: Applyable>(
    v: T::V,
    a: Seq<u8>,
    ops: Seq<OperationView<DescView<T>>>,
    i: nat,
    k: nat,
    m: nat,
)
    requires
        i <= k <= m <= ops.len(),
    ensures
        fold_seg::<T>(v, a, ops, i, m) == fold_seg::<T>(fold_seg::<T>(v, a, ops, i, k), a, ops, k, m),
    decreases k - i,
{
    if i < k {
        lemma_seg_split::<T>(
            fold_contents::<T>(v, ops[i as int].data.payload.contents, a, i as Counter),
            a,
            ops,
            i + 1,
            k,
            m,
        );
    }
}

proof fn lemma_seg_fold_commute<T: Applyable>(
    v: T::V,
    a: Seq<u8>,
    ops: Seq<OperationView<DescView<T>>>,
    from: nat,
    to: nat,
    y: OperationData<DescView<T>>,
    b: Seq<u8>,
    c: Counter,
)
    ensures
        fold_seg::<T>(fold_contents::<T>(v, y, b, c), a, ops, from, to) == fold_contents::<T>(
            fold_seg::<T>(v, a, ops, from, to),
            y,
            b,
            c,
        ),
    decreases to - from,
{
    if from < to && to <= ops.len() {
        let z = ops[from as int].data.payload.contents;
        lemma_contents_commute::<T>(v, y, b, c, z, a, from as Counter);
        lemma_seg_fold_commute::<T>(fold_contents::<T>(v, z, a, from as Counter), a, ops, from + 1, to, y, b, c);
    }
}

proof fn lemma_segs_commute<T: Applyable>(
    v: T::V,
    a: Seq<u8>,
    p: Seq<OperationView<DescView<T>>>,
    f1: nat,
    t1: nat,
    b: Seq<u8>,
    q: Seq<OperationView<DescView<T>>>,
    f2: nat,
    t2: nat,
)
    ensures
        fold_seg::<T>(fold_seg::<T>(v, a, p, f1, t1), b, q, f2, t2) == fold_seg::<T>(
            fold_seg::<T>(v, b, q, f2, t2),
            a,
            p,
            f1,
            t1,
        ),
    decreases t2 - f2,
{
    if f2 < t2 && t2 <= q.len() {
        let y = q[f2 as int].data.payload.contents;
        lemma_seg_fold_commute::<T>(v, a, p, f1, t1, y, b, f2 as Counter);
        lemma_segs_commute::<T>(fold_contents::<T>(v, y, b, f2 as Counter), a, p, f1, t1, b, q, f2 + 1, t2);
    }
}

/// A run of `pend` whose entries are operations of `ops` folds a segment of
/// `ops`, whatever value it starts from.
proof fn lemma_drain_is_seg<T: Applyable>(
    v: T::V,
    a: Seq<u8>,
    ops: Seq<OperationView<DescView<T>>>,
    pend: Map<Counter, SignedView<DescView<T>>>,
    j: nat,
)
    requires
        ops.len() <= counter_limit(),
        j <= ops.len(),
        forall|c: Counter| #[trigger]
            pend.contains_key(c) ==> c < ops.len() && pend[c] == ops[c as int].data,
    ensures
        j <= drain::<T>(v, a, pend, j).1 <= ops.len(),
        drain::<T>(v, a, pend, j).0 == fold_seg::<T>(v, a, ops, j, drain::<T>(v, a, pend, j).1),
    decreases counter_limit() - j,
{
    if j < counter_limit() && pend.contains_key(j as Counter) {
        let w = fold_contents::<T>(v, pend[j as Counter].payload.contents, a, j as Counter);
        lemma_drain_is_seg::<T>(w, a, ops, pend, j + 1);
    }
}

proof fn lemma_run_len_agree_from<V>(
    ops: Seq<OperationView<V>>,
    d1: Set<OperationView<V>>,
    d2: Set<OperationView<V>>,
    j: nat,
)
    requires
        forall|c: int| 0 <= c < ops.len() ==> d1.contains(#[trigger] ops[c]) == d2.contains(ops[c]),
    ensures
        run_len(ops, d1, j) == run_len(ops, d2, j),
    decreases ops.len() - j,
{
    if j < ops.len() {
        lemma_run_len_agree_from(ops, d1, d2, j + 1);
    }
}

/// What is seen of a run depends only on which of its operations were seen.
proof fn lemma_run_len_agree<V>(
    ops: Seq<OperationView<V>>,
    d1: Set<OperationView<V>>,
    d2: Set<OperationView<V>>,
)
    requires
        forall|c: int| 0 <= c < ops.len() ==> d1.contains(#[trigger] ops[c]) == d2.contains(ops[c]),
    ensures
        run_len(ops, d1, 0) == run_len(ops, d2, 0),
        run_author_state(ops, d1) == run_author_state(ops, d2),
        touched(ops, d1) == touched(ops, d2),
{
    lemma_run_len_agree_from(ops, d1, d2, 0);
    assert(run_author_state(ops, d1).pending =~= run_author_state(ops, d2).pending);
    if touched(ops, d1) {
        let c = choose|c: int| 0 <= c < ops.len() && d1.contains(ops[c]);
        assert(d2.contains(ops[c]));
    }
    if touched(ops, d2) {
        let c = choose|c: int| 0 <= c < ops.len() && d2.contains(ops[c]);
        assert(d1.contains(ops[c]));
    }
}

/// An author that no run belongs to keeps what `m` says of it; the author
/// of a run has its run's state when any of its operations was seen.
proof fn lemma_joint_authors_lookup<T: Applyable>(
    m: Map<Seq<u8>, AuthorState<DescView<T>>>,
    keys: Seq<Seq<u8>>,
    runs: Seq<Seq<OperationView<DescView<T>>>>,
    d: Set<OperationView<DescView<T>>>,
    i: nat,
    j: int,
)
    requires
        authored_runs::<T>(keys, runs),
        i <= runs.len(),
        0 <= j < runs.len(),
        !m.contains_key(keys[j]),
    ensures
        joint_authors(m, keys, runs, d, i).contains_key(keys[j]) == (j < i && touched(runs[j], d)),
        joint_authors(m, keys, runs, d, i).contains_key(keys[j]) ==> joint_authors(
            m,
            keys,
            runs,
            d,
            i,
        )[keys[j]] == run_author_state(runs[j], d),
    decreases i,
{
    if i > 0 {
        lemma_joint_authors_lookup::<T>(m, keys, runs, d, (i - 1) as nat, j);
        if j != i - 1 {
            assert(keys[j] != keys[i - 1]);
        }
    }
}

/// Adding `x`, an operation of run `j`, to what was seen changes only
/// author `j`'s part: its state becomes the new one, and the joint value
/// gains the segment its run grew by.
proof fn lemma_joint_grow<T: Applyable>(
    v: T::V,
    m: Map<Seq<u8>, AuthorState<DescView<T>>>,
    keys: Seq<Seq<u8>>,
    runs: Seq<Seq<OperationView<DescView<T>>>>,
    d: Set<OperationView<DescView<T>>>,
    j: int,
    x: OperationView<DescView<T>>,
    i: nat,
)
    requires
        authored_runs::<T>(keys, runs),
        0 <= j < runs.len(),
        runs[j].contains(x),
        i <= runs.len(),
        run_len(runs[j], d, 0) <= run_len(runs[j], d.insert(x), 0) <= runs[j].len(),
    ensures
        i > j ==> joint_value::<T>(v, keys, runs, d.insert(x), i) == fold_seg::<T>(
            joint_value::<T>(v, keys, runs, d, i),
            keys[j],
            runs[j],
            run_len(runs[j], d, 0),
            run_len(runs[j], d.insert(x), 0),
        ),
        i <= j ==> joint_value::<T>(v, keys, runs, d.insert(x), i) == joint_value::<T>(
            v,
            keys,
            runs,
            d,
            i,
        ),
        i > j ==> joint_authors(m, keys, runs, d.insert(x), i) =~= joint_authors(
            m,
            keys,
            runs,
            d,
            i,
        ).insert(keys[j], run_author_state(runs[j], d.insert(x))),
        i <= j ==> joint_authors(m, keys, runs, d.insert(x), i) == joint_authors(m, keys, runs, d, i),
    decreases i,
{
    if i > 0 {
        let d2 = d.insert(x);
        let h = (i - 1) as int;
        lemma_joint_grow::<T>(v, m, keys, runs, d, j, x, (i - 1) as nat);
        let k = run_len(runs[j], d, 0);
        let k2 = run_len(runs[j], d2, 0);
        if h != j {
            assert forall|c: int| 0 <= c < runs[h].len() implies d.contains(#[trigger] runs[h][c])
                == d2.contains(runs[h][c]) by {
                assert(runs[h][c].user_pub_key == keys[h]);
                let xi = choose|xi: int| 0 <= xi < runs[j].len() && runs[j][xi] == x;
                assert(runs[j][xi].user_pub_key == keys[j]);
                assert(keys[h] != keys[j]);
            }
            lemma_run_len_agree(runs[h], d, d2);
            if i - 1 > j {
                lemma_segs_commute::<T>(
                    joint_value::<T>(v, keys, runs, d, (i - 1) as nat),
                    keys[j],
                    runs[j],
                    k,
                    k2,
                    keys[h],
                    runs[h],
                    0,
                    run_len(runs[h], d, 0),
                );
            }
        } else {
            lemma_seg_split::<T>(
                joint_value::<T>(v, keys, runs, d, (i - 1) as nat),
                keys[j],
                runs[j],
                0,
                k,
                k2,
            );
            let xi = choose|xi: int| 0 <= xi < runs[j].len() && runs[j][xi] == x;
            assert(touched(runs[j], d2)) by {
                assert(d2.contains(runs[j][xi]));
            }
        }
    }
}

/// Whether `y` is an operation of one of the runs.
pub open spec fn in_runs<V>(runs: Seq<Seq<OperationView<V>>>, y: OperationView<V>) -> bool {
    exists|j: int| 0 <= j < runs.len() && runs[j].contains(y)
}

/// The state that seeing `d` out of the runs leaves a replica in, from `s`.
pub open spec fn joint_state<T: Applyable>(
    s: ReplicaState<T>,
    keys: Seq<Seq<u8>>,
    runs: Seq<Seq<OperationView<DescView<T>>>>,
    d: Set<OperationView<DescView<T>>>,
) -> ReplicaState<T> {
    ReplicaState {
        value: joint_value::<T>(s.value, keys, runs, d, runs.len()),
        authors: joint_authors(s.authors, keys, runs, d, runs.len()),
        ..s
    }
}

/// Whatever order and repetition the operations of several honest authors
/// arrive in, the replica ends in the state that the set of arrived
/// operations determines.
pub proof fn lemma_joint_arrivals_determine_state<T: Applyable>(
    s: ReplicaState<T>,
    keys: Seq<Seq<u8>>,
    runs: Seq<Seq<OperationView<DescView<T>>>>,
    arrivals: Seq<OperationView<DescView<T>>>,
)
    requires
        authored_runs::<T>(keys, runs),
        forall|j: int| 0 <= j < keys.len() ==> !s.authors.contains_key(#[trigger] keys[j]),
        forall|i: int| 0 <= i < arrivals.len() ==> #[trigger] in_runs(runs, arrivals[i]),
    ensures
        apply_all(s, arrivals) == joint_state(s, keys, runs, elements(arrivals)),
    decreases arrivals.len(),
{
    if arrivals.len() == 0 {
        assert(elements(arrivals) =~= Set::empty());
        lemma_joint_empty::<T>(s, keys, runs, runs.len());
        assert(joint_state(s, keys, runs, elements(arrivals)) =~= s);
    } else {
        let prev = arrivals.drop_last();
        let x = arrivals.last();
        assert(arrivals =~= prev.push(x));
        assert forall|i: int| 0 <= i < prev.len() implies #[trigger] in_runs(runs, prev[i]) by {
            assert(prev[i] == arrivals[i]);
            assert(in_runs(runs, arrivals[i]));
        }
        lemma_joint_arrivals_determine_state(s, keys, runs, prev);
        let d = elements(prev);
        lemma_elements_push(prev, x);
        let t = apply_all(s, prev);
        assert(in_runs(runs, arrivals[arrivals.len() - 1]));
        let j = choose|j: int| 0 <= j < runs.len() && runs[j].contains(x);
        let a = keys[j];
        let ops = runs[j];
        assert(authored_run::<T>(a, ops));
        let xi = choose|xi: int| 0 <= xi < ops.len() && ops[xi] == x;
        assert(is_authentic::<T::Description>(x) && x.user_pub_key == a);
        lemma_joint_authors_lookup::<T>(s.authors, keys, runs, d, runs.len(), j);
        let st = run_author_state(ops, d);
        assert(t.author(a) == st) by {
            if !touched(ops, d) {
                lemma_run_len_is(ops, d, 0, 0);
                assert(st.pending =~= Map::empty());
            }
        }
        lemma_run_step::<T>(t.value, a, ops, d, x);
        lemma_run_len_from(ops, d, 0);
        let (w0, st0) = run_state::<T>(t.value, a, ops, d);
        let pend = if st.pending.contains_key(x.data.payload.counter) {
            st.pending
        } else {
            st.pending.insert(x.data.payload.counter, x.data)
        };
        assert forall|c: Counter| #[trigger]
            pend.contains_key(c) implies c < ops.len() && pend[c] == ops[c as int].data by {
            if c != x.data.payload.counter {
                assert(st.pending.contains_key(c));
            }
        }
        lemma_drain_is_seg::<T>(t.value, a, ops, pend, st.next);
        lemma_drain_stops_alike::<T>(t.value, w0, a, pend, st.next);
        let k = run_len(ops, d, 0);
        let k2 = run_len(ops, d.insert(x), 0);
        lemma_run_len_from(ops, d.insert(x), 0);
        lemma_joint_grow::<T>(s.value, s.authors, keys, runs, d, j, x, runs.len());
        assert(t.deliver(x).authors =~= joint_authors(s.authors, keys, runs, d.insert(x), runs.len()));
    }
}

/// Once every operation of the runs was seen, the runs' authors have
/// nothing waiting, and what `m` held stays as it was.
proof fn lemma_joint_all_arrived<T: Applyable>(
    m: Map<Seq<u8>, AuthorState<DescView<T>>>,
    keys: Seq<Seq<u8>>,
    runs: Seq<Seq<OperationView<DescView<T>>>>,
    d: Set<OperationView<DescView<T>>>,
    i: nat,
)
    requires
        authored_runs::<T>(keys, runs),
        i <= runs.len(),
        forall|j: int| 0 <= j < keys.len() ==> !m.contains_key(#[trigger] keys[j]),
        forall|j: int, c: int|
            0 <= j < runs.len() && 0 <= c < runs[j].len() ==> d.contains(#[trigger] runs[j][c]),
    ensures
        forall|b: Seq<u8>| #[trigger]
            m.contains_key(b) ==> joint_authors(m, keys, runs, d, i).contains_key(b) && joint_authors(
                m,
                keys,
                runs,
                d,
                i,
            )[b] == m[b],
        forall|b: Seq<u8>|
            #[trigger] joint_authors(m, keys, runs, d, i).contains_key(b) && !m.contains_key(b)
                ==> joint_authors(m, keys, runs, d, i)[b].pending.is_empty(),
    decreases i,
{
    if i > 0 {
        let h = (i - 1) as int;
        lemma_joint_all_arrived::<T>(m, keys, runs, d, (i - 1) as nat);
        assert forall|c: int| 0 <= c < runs[h].len() implies d.contains(#[trigger] runs[h][c]) by {}
        lemma_run_len_is(runs[h], d, runs[h].len(), 0);
        assert(run_author_state(runs[h], d).pending =~= Map::empty());
        assert(run_author_state(runs[h], d).pending.dom() =~= Set::empty());
        let prev = joint_authors(m, keys, runs, d, (i - 1) as nat);
        let cur = joint_authors(m, keys, runs, d, i);
        assert forall|b: Seq<u8>| #[trigger]
            cur.contains_key(b) && !m.contains_key(b) implies cur[b].pending.is_empty() by {
            if touched(runs[h], d) && b == keys[h] {
                assert(cur[b] == run_author_state(runs[h], d));
            } else {
                assert(prev.contains_key(b));
            }
        }
    }
}

proof fn lemma_joint_empty<T: Applyable>(
    s: ReplicaState<T>,
    keys: Seq<Seq<u8>>,
    runs: Seq<Seq<OperationView<DescView<T>>>>,
    i: nat,
)
    requires
        i <= runs.len(),
    ensures
        joint_value::<T>(s.value, keys, runs, Set::empty(), i) == s.value,
        joint_authors(s.authors, keys, runs, Set::empty(), i) == s.authors,
    decreases i,
{
    if i > 0 {
        lemma_joint_empty::<T>(s, keys, runs, (i - 1) as nat);
        assert(run_len(runs[i - 1], Set::empty(), 0) == 0);
    }
}

/// Idempotence and order insensitivity for several honest authors: two
/// arrival sequences that hold the same operations of their runs, in any
/// order and with any repetition, leave a replica in the same state; once
/// every operation has arrived nothing waits.
pub proof fn lemma_joint_order_insensitive_and_idempotent<T: Applyable>(
    s: ReplicaState<T>,
    keys: Seq<Seq<u8>>,
    runs: Seq<Seq<OperationView<DescView<T>>>>,
    xs: Seq<OperationView<DescView<T>>>,
    ys: Seq<OperationView<DescView<T>>>,
)
    requires
        authored_runs::<T>(keys, runs),
        forall|j: int| 0 <= j < keys.len() ==> !s.authors.contains_key(#[trigger] keys[j]),
        forall|y: OperationView<DescView<T>>| xs.contains(y) <==> ys.contains(y),
        forall|i: int| 0 <= i < xs.len() ==> #[trigger] in_runs(runs, xs[i]),
    ensures
        apply_all(s, xs) == apply_all(s, ys),
        apply_all(s, xs).value == apply_all(s, ys).value,
        (forall|j: int, c: int|
            0 <= j < runs.len() && 0 <= c < runs[j].len() ==> xs.contains(#[trigger] runs[j][c]))
            ==> apply_all(s, xs).pending() == s.pending(),
{
    assert forall|i: int| 0 <= i < ys.len() implies #[trigger] in_runs(runs, ys[i]) by {
        assert(ys.contains(ys[i]));
        let k = choose|k: int| 0 <= k < xs.len() && xs[k] == ys[i];
        assert(in_runs(runs, xs[k]));
    }
    lemma_joint_arrivals_determine_state(s, keys, runs, xs);
    lemma_joint_arrivals_determine_state(s, keys, runs, ys);
    assert(elements(xs) =~= elements(ys));
    if forall|j: int, c: int|
        0 <= j < runs.len() && 0 <= c < runs[j].len() ==> xs.contains(#[trigger] runs[j][c]) {
        let d = elements(xs);
        assert forall|j: int, c: int|
            0 <= j < runs.len() && 0 <= c < runs[j].len() implies d.contains(
            #[trigger] runs[j][c],
        ) by {
            assert(xs.contains(runs[j][c]));
        }
        lemma_joint_all_arrived::<T>(s.authors, keys, runs, d, runs.len());
        assert(apply_all(s, xs).pending() =~= s.pending());
    }
}

/// One event in a replica's life: an operation arriving from elsewhere, or
/// one the replica authors itself.
pub enum Event<V> {
    Arrive(OperationView<V>),
    Author(OperationView<V>),
}

/// The state after `events`, from the first.
pub open spec fn run_events<T: Applyable>(
    s: ReplicaState<T>,
    events: Seq<Event<DescView<T>>>,
) -> ReplicaState<T>
    decreases events.len(),
{
    if events.len() == 0 {
        s
    } else {
        let t = run_events(s, events.drop_last());
        match events.last() {
            Event::Arrive(op) => t.deliver(op),
            Event::Author(op) => t.author_locally(op),
        }
    }
}

/// The operations among `events` that the replica authored and took in, by
/// counter.
pub open spec fn authored_in<T: Applyable>(
    s: ReplicaState<T>,
    events: Seq<Event<DescView<T>>>,
) -> Map<Counter, OperationView<DescView<T>>>
    decreases events.len(),
{
    if events.len() == 0 {
        Map::empty()
    } else {
        let m = authored_in(s, events.drop_last());
        match events.last() {
            Event::Arrive(_) => m,
            Event::Author(op) => if run_events(s, events.drop_last()).deliver_outcome(op) is Ok {
                m.insert(op.data.payload.counter, op)
            } else {
                m
            },
        }
    }
}

/// Outbox completeness: from an empty outbox (a new replica, or one just
/// flushed), the outbox holds exactly the operations authored here and
/// taken in since then, whatever arrived from elsewhere in between.
pub proof fn lemma_outbox_holds_what_was_authored<T: Applyable>(
    s: ReplicaState<T>,
    events: Seq<Event<DescView<T>>>,
)
    requires
        s.outbox == Map::<Counter, OperationView<DescView<T>>>::empty(),
    ensures
        run_events(s, events).outbox == authored_in(s, events),
    decreases events.len(),
{
    if events.len() > 0 {
        lemma_outbox_holds_what_was_authored(s, events.drop_last());
    }
}

} // verus!
