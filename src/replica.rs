//! The apply engine: a replica that folds signed operations into a value,
//! once each and in counter order per author.
use crate::identity::{now, Time, UserPubKey};
use crate::operation::{
    authored, is_authentic, Account, CRDTInfo, Counter, Operation, OperationData, OperationSigned,
    OperationView, SignedView,
};
use crate::wire::{bytes_equal, same_value, Encode};
use std::collections::HashMap;
use vstd::prelude::*;

verus! {

broadcast use vstd::std_specs::hash::group_hash_axioms;

/// A data type that a replica can drive.
///
/// `fold` is the effect of one description. It must commute: folding two
/// descriptions in either order gives the same value. The engine makes sure
/// no operation is folded twice, so `fold` itself need not be idempotent.
pub trait Applyable: Encode {
    /// The name of the data type, for diagnostics.
    const NAME: &'static str;

    /// The changes that operations on this type describe.
    type Description: Encode;

    /// The value after folding `desc`, authored by `user_pub_key` under
    /// `counter`, into `v`.
    spec fn fold(
        v: Self::V,
        desc: <Self::Description as View>::V,
        user_pub_key: Seq<u8>,
        counter: Counter,
    ) -> Self::V;

    /// Folding two descriptions in either order gives the same value.
    proof fn lemma_fold_commutes(
        v: Self::V,
        d1: <Self::Description as View>::V,
        a1: Seq<u8>,
        c1: Counter,
        d2: <Self::Description as View>::V,
        a2: Seq<u8>,
        c2: Counter,
    )
        ensures
            Self::fold(Self::fold(v, d1, a1, c1), d2, a2, c2) == Self::fold(
                Self::fold(v, d2, a2, c2),
                d1,
                a1,
                c1,
            ),
    ;

    fn apply_without_idempotency_check(
        &self,
        desc: Self::Description,
        user_pub_key: &UserPubKey,
        counter: Counter,
    ) -> (r: Self)
        ensures
            r@ == Self::fold(self@, desc@, user_pub_key@, counter),
    ;
}

/// The mathematical value of what operations on `T` describe.
pub type DescView<T> = <<T as Applyable>::Description as View>::V;

/// What a replica knows of one author.
pub struct AuthorState<V> {
    /// The counter expected next: how many of the author's operations are
    /// folded into the value.
    pub next: nat,
    /// Verified operations that wait for their predecessors, by counter.
    pub pending: Map<Counter, SignedView<V>>,
}

/// The mathematical state of a replica.
pub struct ReplicaState<T: Applyable> {
    pub info: CRDTInfo<T::V>,
    pub value: T::V,
    /// Every author that a verified operation came from.
    pub authors: Map<Seq<u8>, AuthorState<DescView<T>>>,
    /// Operations authored here since the last flush, by counter.
    pub outbox: Map<Counter, OperationView<DescView<T>>>,
}

/// Why an incoming operation was turned away.
#[derive(Clone, Copy, Debug, PartialEq, Eq, Structural, Hash)]
pub enum ApplyError {
    /// The signature does not verify under the author's key.
    SignatureInvalid,
    /// Another payload already waits under the same author and counter; the
    /// first one stays.
    DuplicateAtDifferentSignature,
}

/// The first counter beyond all of `u32`.
pub open spec fn counter_limit() -> nat {
    0x1_0000_0000
}

/// The effect of an operation's contents on `v`.
pub open spec fn fold_contents<T: Applyable>(
    v: T::V,
    contents: OperationData<DescView<T>>,
    a: Seq<u8>,
    counter: Counter,
) -> T::V {
    match contents {
        OperationData::Initial => v,
        OperationData::Desc(d) => T::fold(v, d, a, counter),
    }
}

/// Folds the run of `pending` that starts at `next`, one counter after
/// another, and gives the value with the first counter missing from the run.
pub open spec fn drain<T: Applyable>(
    v: T::V,
    a: Seq<u8>,
    pending: Map<Counter, SignedView<DescView<T>>>,
    next: nat,
) -> (T::V, nat)
    decreases counter_limit() - next,
{
    if next < counter_limit() && pending.contains_key(next as Counter) {
        drain::<T>(
            fold_contents::<T>(v, pending[next as Counter].payload.contents, a, next as Counter),
            a,
            pending,
            next + 1,
        )
    } else {
        (v, next)
    }
}

/// The entries of `pending` above `n`.
pub open spec fn above<V>(pending: Map<Counter, SignedView<V>>, n: nat) -> Map<
    Counter,
    SignedView<V>,
> {
    pending.filter_keys(|k: Counter| k as nat > n)
}

/// One verified signed payload from author `a` reaching that author's state:
/// it joins the waiting operations unless one already holds its counter,
/// then the run from the expected counter is folded, and only what lies
/// beyond that run keeps waiting.
pub open spec fn author_step<T: Applyable>(
    v: T::V,
    a: Seq<u8>,
    st: AuthorState<DescView<T>>,
    os: SignedView<DescView<T>>,
) -> (T::V, AuthorState<DescView<T>>) {
    let c = os.payload.counter;
    let pend = if st.pending.contains_key(c) {
        st.pending
    } else {
        st.pending.insert(c, os)
    };
    let (w, n) = drain::<T>(v, a, pend, st.next);
    (w, AuthorState { next: n, pending: above(pend, n) })
}

impl<T: Applyable> ReplicaState<T> {
    /// What the replica knows of author `a`; nothing yet reads as counter 0
    /// with nothing waiting.
    pub open spec fn author(self, a: Seq<u8>) -> AuthorState<DescView<T>> {
        if self.authors.contains_key(a) {
            self.authors[a]
        } else {
            AuthorState { next: 0, pending: Map::empty() }
        }
    }

    /// For each author seen, the counter expected next.
    pub open spec fn state_vector(self) -> Map<Seq<u8>, nat> {
        self.authors.map_values(|s: AuthorState<DescView<T>>| s.next)
    }

    /// For each author with operations waiting, those operations by counter.
    pub open spec fn pending(self) -> Map<Seq<u8>, Map<Counter, SignedView<DescView<T>>>> {
        self.authors.filter_keys(|a: Seq<u8>| !self.authors[a].pending.is_empty()).map_values(
            |s: AuthorState<DescView<T>>| s.pending,
        )
    }

    /// The state after `op` arrives. An operation whose signature does not
    /// verify changes nothing.
    pub open spec fn deliver(self, op: OperationView<DescView<T>>) -> Self {
        if !is_authentic::<T::Description>(op) {
            self
        } else {
            let a = op.user_pub_key;
            let (w, st) = author_step::<T>(self.value, a, self.author(a), op.data);
            ReplicaState { value: w, authors: self.authors.insert(a, st), ..self }
        }
    }

    /// What the replica answers when `op` arrives.
    pub open spec fn deliver_outcome(self, op: OperationView<DescView<T>>) -> Result<
        (),
        ApplyError,
    > {
        let st = self.author(op.user_pub_key);
        let c = op.data.payload.counter;
        if !is_authentic::<T::Description>(op) {
            Err(ApplyError::SignatureInvalid)
        } else if st.pending.contains_key(c) && st.pending[c] != op.data {
            Err(ApplyError::DuplicateAtDifferentSignature)
        } else {
            Ok(())
        }
    }

    /// The state after the replica authors `op` itself: it arrives like any
    /// operation and, when taken in, is put in the outbox.
    pub open spec fn author_locally(self, op: OperationView<DescView<T>>) -> Self {
        if self.deliver_outcome(op) is Ok {
            self.deliver(op).record(op)
        } else {
            self
        }
    }

    /// The state with `op` put in the outbox under its counter.
    pub open spec fn record(self, op: OperationView<DescView<T>>) -> Self {
        ReplicaState { outbox: self.outbox.insert(op.data.payload.counter, op), ..self }
    }

    /// Every author's counter fits the counter range plus one, and nothing
    /// waits at or below the counter expected next.
    pub open spec fn wf(self) -> bool {
        forall|a: Seq<u8>| #[trigger]
            self.authors.contains_key(a) ==> author_wf(self.authors[a])
    }
}

/// An author's state is consistent: nothing waits at or below the counter
/// expected next, which is at most one past the largest counter.
pub open spec fn author_wf<V>(st: AuthorState<V>) -> bool {
    &&& st.next <= counter_limit()
    &&& forall|k: Counter| #[trigger] st.pending.contains_key(k) ==> k as nat > st.next
}

/// What a replica answers, and the state it is left in, when it authors
/// `op` itself.
pub open spec fn local_step<T: Applyable>(
    before: ReplicaState<T>,
    op: OperationView<DescView<T>>,
) -> (Result<(), ApplyError>, ReplicaState<T>) {
    (before.deliver_outcome(op), before.author_locally(op))
}

/// One author's entry in a replica.
struct AuthorLog<D> {
    author: UserPubKey,
    next: u64,
    pending: HashMap<Counter, OperationSigned<D>>,
}

impl<D: View> AuthorLog<D> {
    closed spec fn state(&self) -> AuthorState<D::V> {
        AuthorState {
            next: self.next as nat,
            pending: self.pending@.map_values(|os: OperationSigned<D>| os@),
        }
    }
}

/// The authors of a sequence of entries, each with its state; a later entry
/// for the same author would win.
closed spec fn log_map<D: View>(s: Seq<AuthorLog<D>>) -> Map<Seq<u8>, AuthorState<D::V>>
    decreases s.len(),
{
    if s.len() == 0 {
        Map::empty()
    } else {
        log_map(s.drop_last()).insert(s.last().author@, s.last().state())
    }
}

closed spec fn authors_unique<D>(s: Seq<AuthorLog<D>>) -> bool {
    forall|i: int, j: int|
        0 <= i < j < s.len() ==> #[trigger] s[i].author@ != #[trigger] s[j].author@
}

proof fn lemma_log_map_keys<D: View>(s: Seq<AuthorLog<D>>, k: Seq<u8>)
    ensures
        log_map(s).contains_key(k) <==> exists|i: int| 0 <= i < s.len() && s[i].author@ == k,
    decreases s.len(),
{
    if s.len() > 0 {
        lemma_log_map_keys(s.drop_last(), k);
        if log_map(s.drop_last()).contains_key(k) {
            let i = choose|i: int| 0 <= i < s.drop_last().len() && s.drop_last()[i].author@ == k;
            assert(s[i].author@ == k);
        }
        if exists|i: int| 0 <= i < s.len() && s[i].author@ == k {
            let i = choose|i: int| 0 <= i < s.len() && s[i].author@ == k;
            if i < s.len() - 1 {
                assert(s.drop_last()[i].author@ == k);
            }
        }
    }
}

proof fn lemma_log_map_entry<D: View>(s: Seq<AuthorLog<D>>, i: int)
    requires
        authors_unique(s),
        0 <= i < s.len(),
    ensures
        log_map(s).contains_key(s[i].author@),
        log_map(s)[s[i].author@] == s[i].state(),
    decreases s.len(),
{
    lemma_log_map_keys(s, s[i].author@);
    if i < s.len() - 1 {
        assert(s.drop_last()[i] == s[i]);
        assert(s[i].author@ != s[s.len() - 1].author@);
        lemma_log_map_entry(s.drop_last(), i);
    }
}

proof fn lemma_log_map_remove<D: View>(s: Seq<AuthorLog<D>>, i: int)
    requires
        authors_unique(s),
        0 <= i < s.len(),
    ensures
        log_map(s.remove(i)) == log_map(s).remove(s[i].author@),
        authors_unique(s.remove(i)),
    decreases s.len(),
{
    let k = s[i].author@;
    if i == s.len() - 1 {
        assert(s.remove(i) =~= s.drop_last());
        lemma_log_map_keys(s.drop_last(), k);
        assert(!log_map(s.drop_last()).contains_key(k)) by {
            if log_map(s.drop_last()).contains_key(k) {
                let j = choose|j: int| 0 <= j < s.drop_last().len() && s.drop_last()[j].author@ == k;
                assert(s[j].author@ == k);
            }
        }
        assert(log_map(s.drop_last()).insert(k, s[i].state()).remove(k) =~= log_map(
            s.drop_last(),
        ));
    } else {
        let t = s.drop_last();
        assert(authors_unique(t));
        lemma_log_map_remove(t, i);
        assert(s.remove(i).drop_last() =~= t.remove(i));
        assert(s.remove(i).last() == s.last());
        assert(s.last().author@ != k);
        assert(log_map(t).remove(k).insert(s.last().author@, s.last().state()) =~= log_map(
            t,
        ).insert(s.last().author@, s.last().state()).remove(k));
    }
    assert(authors_unique(s.remove(i))) by {
        assert forall|x: int, y: int| 0 <= x < y < s.remove(i).len() implies #[trigger] s.remove(
            i,
        )[x].author@ != #[trigger] s.remove(i)[y].author@ by {
            let x0 = if x < i {
                x
            } else {
                x + 1
            };
            let y0 = if y < i {
                y
            } else {
                y + 1
            };
            assert(s.remove(i)[x] == s[x0]);
            assert(s.remove(i)[y] == s[y0]);
        }
    }
}

/// The effect of an operation's contents on `value`.
fn fold_contents_exec<T: Applyable>(
    value: &T,
    contents: OperationData<T::Description>,
    user_pub_key: &UserPubKey,
    counter: Counter,
) -> (r: T)
    ensures
        r@ == fold_contents::<T>(value@, contents@, user_pub_key@, counter),
{
    match contents {
        OperationData::Initial => value.duplicate(),
        OperationData::Desc(d) => value.apply_without_idempotency_check(d, user_pub_key, counter),
    }
}

/// A run that cannot start folds nothing.
pub proof fn lemma_drain_idle<T: Applyable>(
    v: T::V,
    a: Seq<u8>,
    pending: Map<Counter, SignedView<DescView<T>>>,
    next: nat,
)
    requires
        !(next < counter_limit() && pending.contains_key(next as Counter)),
    ensures
        drain::<T>(v, a, pending, next) == (v, next),
{
}

/// A verified signed payload reaching one author's entry: see `author_step`.
fn receive<T: Applyable>(
    log: &mut AuthorLog<T::Description>,
    value: &mut T,
    data: OperationSigned<T::Description>,
) -> (r: Result<(), ApplyError>)
    requires
        author_wf(old(log).state()),
    ensures
        final(log).author@ == old(log).author@,
        author_wf(final(log).state()),
        (final(value)@, final(log).state()) == author_step::<T>(
            old(value)@,
            old(log).author@,
            old(log).state(),
            data@,
        ),
        r == (if old(log).state().pending.contains_key(data@.payload.counter)
            && old(log).state().pending[data@.payload.counter] != data@ {
            Err(ApplyError::DuplicateAtDifferentSignature)
        } else {
            Ok(())
        }),
{
    let ghost st = log.state();
    let ghost a = log.author@;
    let ghost v0 = value@;
    let c = data.payload.counter;
    let ghost pend = if st.pending.contains_key(c) {
        st.pending
    } else {
        st.pending.insert(c, data@)
    };
    if log.pending.contains_key(&c) {
        let same = match log.pending.get(&c) {
            Some(existing) => same_value(existing, &data),
            None => true,
        };
        proof {
            lemma_drain_idle::<T>(v0, a, pend, st.next);
            assert(above(pend, st.next) =~= st.pending);
        }
        return if same {
            Ok(())
        } else {
            Err(ApplyError::DuplicateAtDifferentSignature)
        };
    }
    if (c as u64) < log.next {
        proof {
            lemma_drain_idle::<T>(v0, a, pend, st.next);
            assert(above(pend, st.next) =~= st.pending);
        }
        return Ok(());
    }
    if (c as u64) > log.next {
        log.pending.insert(c, data);
        proof {
            lemma_drain_idle::<T>(v0, a, pend, st.next);
            assert(above(pend, st.next) =~= pend);
            assert(log.state().pending =~= pend);
        }
        return Ok(());
    }
    let ghost n0 = st.next;
    *value = fold_contents_exec(value, data.payload.contents, &log.author, c);
    let mut n: u64 = log.next + 1;
    proof {
        assert(log.state().pending =~= pend.filter_keys(
            |k: Counter| !(n0 <= k as nat && (k as nat) < n),
        ));
    }
    loop
        invariant
            n0 < n <= counter_limit(),
            log.next == n0,
            log.author@ == a,
            n0 == st.next,
            author_wf(st),
            pend == st.pending.insert(c, data@),
            c == n0,
            log.state().pending == pend.filter_keys(
                |k: Counter| !(n0 <= k as nat && (k as nat) < n),
            ),
            drain::<T>(value@, a, pend, n as nat) == drain::<T>(v0, a, pend, n0),
        ensures
            n as nat >= counter_limit() || !pend.contains_key(n as Counter),
        decreases counter_limit() - n,
    {
        if n > 0xFFFF_FFFF {
            break ;
        }
        let ghost before = log.pending@;
        let ghost before_state = log.state().pending;
        match log.pending.remove(&(n as Counter)) {
            None => {
                proof {
                    assert(!before.contains_key(n as Counter));
                    assert(!log.state().pending.contains_key(n as Counter));
                    if pend.contains_key(n as Counter) {
                        assert(pend.filter_keys(
                            |k: Counter| !(n0 <= k as nat && (k as nat) < n),
                        ).contains_key(n as Counter));
                    }
                }
                break ;
            },
            Some(os) => {
                proof {
                    assert(before.contains_key(n as Counter) && before[n as Counter] == os);
                    assert(before.map_values(|o: OperationSigned<T::Description>| o@).contains_key(n as Counter));
                    assert(before_state[n as Counter] == os@);
                    assert(pend.contains_key(n as Counter));
                    assert(os@ == pend[n as Counter]);
                    assert(log.pending@ == before.remove(n as Counter));
                }
                *value = fold_contents_exec(value, os.payload.contents, &log.author, n as Counter);
                n = n + 1;
                proof {
                    assert(log.state().pending =~= before_state.remove((n - 1) as Counter));
                    assert(log.state().pending =~= pend.filter_keys(
                        |k: Counter| !(n0 <= k as nat && (k as nat) < n),
                    ));
                }
            },
        }
    }
    log.next = n;
    proof {
        lemma_drain_idle::<T>(value@, a, pend, n as nat);
        assert(log.state().pending =~= above(pend, n as nat));
    }
    Ok(())
}

/// A replica of a `T`: the value, what it knows of each author, and the
/// operations authored here that were not yet flushed.
pub struct CRDT<T: Applyable> {
    info: CRDTInfo<T>,
    authors: Vec<AuthorLog<T::Description>>,
    outbox: HashMap<Counter, Operation<T::Description>>,
    pub value: T,
}

impl<T: Applyable> View for CRDT<T> {
    type V = ReplicaState<T>;

    closed spec fn view(&self) -> ReplicaState<T> {
        ReplicaState {
            info: self.info@,
            value: self.value@,
            authors: log_map(self.authors@),
            outbox: self.outbox@.map_values(|op: Operation<T::Description>| op@),
        }
    }
}

impl<T: Applyable> CRDT<T> {
    /// The replica's entries are consistent with its state: one entry per
    /// author, and each author's state is well formed.
    pub closed spec fn wf(&self) -> bool {
        &&& authors_unique(self.authors@)
        &&& forall|i: int|
            0 <= i < self.authors@.len() ==> author_wf(#[trigger] self.authors@[i].state())
    }

    /// A well-formed replica's state is well formed.
    pub proof fn lemma_wf_view(&self)
        requires
            self.wf(),
        ensures
            self@.wf(),
    {
        assert forall|a: Seq<u8>| #[trigger] self@.authors.contains_key(a) implies author_wf(
            self@.authors[a],
        ) by {
            lemma_log_map_keys(self.authors@, a);
            let i = choose|i: int| 0 <= i < self.authors@.len() && self.authors@[i].author@ == a;
            lemma_log_map_entry(self.authors@, i);
        }
    }

    /// Where author `k` stands among the entries, if anywhere.
    fn find_author(&self, k: &UserPubKey) -> (r: Option<usize>)
        ensures
            match r {
                Some(i) => i < self.authors@.len() && self.authors@[i as int].author@ == k@,
                None => forall|i: int|
                    0 <= i < self.authors@.len() ==> #[trigger] self.authors@[i].author@ != k@,
            },
    {
        let mut i: usize = 0;
        while i < self.authors.len()
            invariant
                i <= self.authors@.len(),
                forall|j: int| 0 <= j < i ==> #[trigger] self.authors@[j].author@ != k@,
            decreases self.authors@.len() - i,
        {
            if bytes_equal(&self.authors[i].author, k) {
                return Some(i);
            }
            i = i + 1;
        }
        None
    }

    /// Takes in an operation from anywhere. One whose signature does not
    /// verify is turned away and changes nothing. Otherwise it waits among
    /// its author's operations, unless one already holds its counter, and
    /// the run of that author's operations from the counter expected next is
    /// folded into the value in counter order; what was already folded is
    /// dropped.
    pub fn apply(&mut self, op: Operation<T::Description>) -> (r: Result<(), ApplyError>)
        requires
            old(self).wf(),
        ensures
            final(self).wf(),
            final(self)@.wf(),
            final(self)@ == old(self)@.deliver(op@),
            r == old(self)@.deliver_outcome(op@),
    {
        let ghost old_authors = self.authors@;
        let ghost old_view = self@;
        let ghost a = op@.user_pub_key;
        if !op.data.payload.verify_sig(&op.data.signature, &op.user_pub_key) {
            proof {
                self.lemma_wf_view();
            }
            return Err(ApplyError::SignatureInvalid);
        }
        let idx = self.find_author(&op.user_pub_key);
        let Operation { user_pub_key, data } = op;
        let mut log = match idx {
            Some(i) => self.authors.remove(i),
            None => AuthorLog { author: user_pub_key, next: 0, pending: HashMap::new() },
        };
        proof {
            match idx {
                Some(i) => {
                    lemma_log_map_entry(old_authors, i as int);
                    lemma_log_map_remove(old_authors, i as int);
                    assert(self.authors@ == old_authors.remove(i as int));
                },
                None => {
                    lemma_log_map_keys(old_authors, a);
                    assert(log.state().pending =~= Map::empty());
                    assert(self.authors@ == old_authors);
                },
            }
            assert(log.state() == old_view.author(a)) by {
                if idx is None {
                    assert(!log_map(old_authors).contains_key(a));
                }
            }
            assert(author_wf(log.state())) by {
                if let Some(i) = idx {
                    assert(old_authors[i as int] == log);
                }
            }
            lemma_log_map_keys(self.authors@, a);
        }
        let ghost rest = self.authors@;
        let r = receive(&mut log, &mut self.value, data);
        self.authors.push(log);
        proof {
            assert(self.authors@ == rest.push(log));
            assert(self.authors@.drop_last() == rest);
            assert(!log_map(rest).contains_key(a));
            assert(log_map(old_authors).remove(a).insert(a, log.state()) =~= log_map(
                old_authors,
            ).insert(a, log.state()));
            assert(authors_unique(self.authors@)) by {
                assert forall|x: int, y: int|
                    0 <= x < y < self.authors@.len() implies #[trigger] self.authors@[x].author@
                    != #[trigger] self.authors@[y].author@ by {
                    if y == self.authors@.len() - 1 {
                        assert(self.authors@[x] == rest[x]);
                        assert(rest[x].author@ != a);
                    } else {
                        assert(self.authors@[x] == rest[x]);
                        assert(self.authors@[y] == rest[y]);
                    }
                }
            }
            assert forall|i: int| 0 <= i < self.authors@.len() implies author_wf(
                #[trigger] self.authors@[i].state(),
            ) by {
                if i < self.authors@.len() - 1 {
                    assert(self.authors@[i] == rest[i]);
                    match idx {
                        Some(j) => {
                            let i0 = if i < j {
                                i
                            } else {
                                i + 1
                            };
                            assert(rest[i] == old_authors[i0]);
                        },
                        None => {},
                    }
                }
            }
        }
        proof {
            self.lemma_wf_view();
        }
        r
    }

    /// Authors an operation carrying `desc` from `account`, stamped with the
    /// current time, without applying it anywhere.
    pub fn create_operation_from_description(
        &self,
        account: &mut Account,
        desc: T::Description,
    ) -> (r: Operation<T::Description>)
        requires
            old(account).next() <= u32::MAX,
        ensures
            r@ == authored::<T::Description>(
                old(account).pub_key(),
                old(account).secret(),
                old(account).next() as Counter,
                r@.data.payload.time,
                OperationData::Desc(desc@),
            ),
            r@.data.payload.time.nanos < 1_000_000_000,
            is_authentic::<T::Description>(r@),
            final(account).pub_key() == old(account).pub_key(),
            final(account).secret() == old(account).secret(),
            final(account).next() == old(account).next() + 1,
    {
        account.create_operation(OperationData::Desc(desc), now())
    }

    /// Authors an operation carrying `desc` from `account`, applies it here
    /// and, when it is taken in, keeps it in the outbox under its counter.
    /// The answer is the one any arrival of that operation gets, and when it
    /// is turned away the replica does not change; the account's counter
    /// moves on either way. It is never turned away unless a different
    /// operation already waits under the account's key and counter.
    pub fn apply_desc(&mut self, account: &mut Account, desc: T::Description) -> (r: Result<
        (),
        ApplyError,
    >)
        requires
            old(self).wf(),
            old(account).next() <= u32::MAX,
        ensures
            final(self).wf(),
            final(self)@.wf(),
            final(account).pub_key() == old(account).pub_key(),
            final(account).secret() == old(account).secret(),
            final(account).next() == old(account).next() + 1,
            exists|t: Time|
                t.nanos < 1_000_000_000 && (r, final(self)@) == #[trigger] local_step::<T>(
                    old(self)@,
                    authored::<T::Description>(
                        old(account).pub_key(),
                        old(account).secret(),
                        old(account).next() as Counter,
                        t,
                        OperationData::Desc(desc@),
                    ),
                ),
            !old(self)@.author(old(account).pub_key()).pending.contains_key(
                old(account).next() as Counter,
            ) ==> r is Ok,
    {
        let op = self.create_operation_from_description(account, desc);
        let counter = op.data.payload.counter;
        let copy = op.duplicate();
        let ghost before = self@;
        let ghost t = op@.data.payload.time;
        proof {
            self.lemma_wf_view();
        }
        match self.apply(op) {
            Ok(()) => {
                self.outbox.insert(counter, copy);
                proof {
                    assert(self@.outbox =~= before.deliver(copy@).outbox.insert(counter, copy@));
                    assert((Ok::<(), ApplyError>(()), self@) == local_step::<T>(before, copy@));
                }
                Ok(())
            },
            Err(e) => {
                proof {
                    crate::laws::lemma_rejected_changes_nothing(before, copy@);
                    assert((Err::<(), ApplyError>(e), self@) == local_step::<T>(before, copy@));
                }
                Err(e)
            },
        }
    }

    /// The counter expected next from `author`: how many of its operations
    /// are folded into the value.
    pub fn state_vector_of(&self, author: &UserPubKey) -> (r: u64)
        requires
            self.wf(),
        ensures
            r == self@.author(author@).next,
    {
        match self.find_author(author) {
            Some(i) => {
                proof {
                    lemma_log_map_entry(self.authors@, i as int);
                }
                self.authors[i].next
            },
            None => {
                proof {
                    lemma_log_map_keys(self.authors@, author@);
                }
                0
            },
        }
    }

    /// The operation of `author` that waits under `counter`, if any.
    pub fn pending_of(&self, author: &UserPubKey, counter: Counter) -> (r: Option<
        &OperationSigned<T::Description>,
    >)
        requires
            self.wf(),
        ensures
            match r {
                Some(os) => self@.author(author@).pending.contains_key(counter) && os@ == self@.author(
                    author@,
                ).pending[counter],
                None => !self@.author(author@).pending.contains_key(counter),
            },
    {
        match self.find_author(author) {
            Some(i) => {
                proof {
                    lemma_log_map_entry(self.authors@, i as int);
                }
                self.authors[i].pending.get(&counter)
            },
            None => {
                proof {
                    lemma_log_map_keys(self.authors@, author@);
                }
                None
            },
        }
    }

    /// How many operations of `author` wait.
    pub fn pending_len(&self, author: &UserPubKey) -> (r: usize)
        requires
            self.wf(),
        ensures
            r == self@.author(author@).pending.len(),
    {
        match self.find_author(author) {
            Some(i) => {
                proof {
                    lemma_log_map_entry(self.authors@, i as int);
                    let m = self.authors@[i as int].pending@;
                    assert(m.map_values(|os: OperationSigned<T::Description>| os@).dom() =~= m.dom());
                }
                self.authors[i].pending.len()
            },
            None => {
                proof {
                    lemma_log_map_keys(self.authors@, author@);
                    assert(Map::<Counter, SignedView<DescView<T>>>::empty().dom() =~= Set::empty());
                }
                0
            },
        }
    }

    /// How many operations authored here wait in the outbox.
    pub fn outbox_len(&self) -> (r: usize)
        ensures
            r == self@.outbox.len(),
    {
        proof {
            assert(self.outbox@.map_values(|op: Operation<T::Description>| op@).dom()
                =~= self.outbox@.dom());
        }
        self.outbox.len()
    }

    /// The header this replica was created from.
    pub fn info(&self) -> (r: &CRDTInfo<T>)
        ensures
            r@ == self@.info,
    {
        &self.info
    }

    /// Takes the operations authored here since the last flush, by counter,
    /// and leaves the outbox empty.
    pub fn flush(&mut self) -> (r: HashMap<Counter, Operation<T::Description>>)
        requires
            old(self).wf(),
        ensures
            final(self).wf(),
            final(self)@.wf(),
            r@.map_values(|op: Operation<T::Description>| op@) == old(self)@.outbox,
            final(self)@ == (ReplicaState { outbox: Map::empty(), ..old(self)@ }),
    {
        let mut output: HashMap<Counter, Operation<T::Description>> = HashMap::new();
        std::mem::swap(&mut output, &mut self.outbox);
        proof {
            self.lemma_wf_view();
        }
        assert(self.outbox@.map_values(|op: Operation<T::Description>| op@) =~= Map::empty());
        output
    }
}

/// A fresh replica of the instance that `info` describes: its value is the
/// initial value, and it knows no author and has authored nothing.
pub fn create_crdt<T: Applyable>(info: CRDTInfo<T>) -> (r: CRDT<T>)
    ensures
        r.wf(),
        r@.wf(),
        r@ == (ReplicaState::<T> {
            info: info@,
            value: info@.initial_value,
            authors: Map::empty(),
            outbox: Map::empty(),
        }),
{
    let value = info.initial_value.duplicate();
    let r = CRDT { info, authors: Vec::new(), outbox: HashMap::new(), value };
    assert(r.outbox@.map_values(|op: Operation<T::Description>| op@) =~= Map::empty());
    assert(log_map(r.authors@) =~= Map::empty());
    r
}

} // verus!
