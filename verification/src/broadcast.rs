//! Broadcasts progress information among workers.
//!
//! One [`Progcaster`] lives on each worker for each nested scope. Once per
//! progress round it snapshots the locally accumulated delta maps into a
//! single wire message for every peer, stamps it with this worker's rank and
//! a per-broadcaster sequence number, and folds whatever peer messages have
//! already arrived back into the caller's maps.
//!
//! The channel fabric itself — one outbound endpoint per peer and one
//! multiplexed inbound endpoint — is an external collaborator. The functions
//! here make every decision of a round over plain values: the surrounding
//! harness only pushes the returned message to each peer and hands back the
//! messages its non-blocking drain produced.

use crate::count_map::{
    CountMap, UpdateKey, delta_of, distinct_keys, fold_fits, fold_updates, lemma_take_step,
    no_zero_deltas, seq_to_map, sum_for,
};
use vstd::prelude::*;

verus! {

/// A list of progress updates: one signed delta per (scope, port, timestamp)
/// key.
pub type ProgressVec = Vec<(UpdateKey, i64)>;

/// A progress update message: source worker rank, sequence number, and the
/// update lists for consumed messages and for operator-internal work.
pub type ProgressMsg = (usize, usize, ProgressVec, ProgressVec);

/// The message-count update batches an inbound queue carries, in arrival
/// order.
pub open spec fn message_batches(inbound: Seq<ProgressMsg>) -> Seq<Seq<(UpdateKey, i64)>> {
    inbound.map_values(|m: ProgressMsg| m.2@)
}

/// The internal-work update batches an inbound queue carries, in arrival
/// order.
pub open spec fn internal_batches(inbound: Seq<ProgressMsg>) -> Seq<Seq<(UpdateKey, i64)>> {
    inbound.map_values(|m: ProgressMsg| m.3@)
}

/// Folding a whole queue of update batches into a map, in arrival order.
pub open spec fn merge_batches(
    m: Map<UpdateKey, int>,
    batches: Seq<Seq<(UpdateKey, i64)>>,
) -> Map<UpdateKey, int>
    decreases batches.len(),
{
    if batches.len() == 0 {
        m
    } else {
        fold_updates(merge_batches(m, batches.drop_last()), batches.last())
    }
}

/// Every intermediate sum met while merging the batches stays within `i64`.
pub open spec fn batches_fit(m: Map<UpdateKey, int>, batches: Seq<Seq<(UpdateKey, i64)>>) -> bool
    decreases batches.len(),
{
    batches.len() == 0 || {
        &&& batches_fit(m, batches.drop_last())
        &&& fold_fits(merge_batches(m, batches.drop_last()), batches.last())
    }
}

/// The net change a queue of update batches carries for one key: the sum of
/// each batch's per-key sum.
pub open spec fn batches_sum(batches: Seq<Seq<(UpdateKey, i64)>>, k: UpdateKey) -> int
    decreases batches.len(),
{
    if batches.len() == 0 {
        0
    } else {
        batches_sum(batches.drop_last(), k) + sum_for(batches.last(), k)
    }
}

/// Merging a queue of batches shifts each key's accumulated delta by exactly
/// the queue's per-key sum.
pub proof fn lemma_merge_batches_delta(
    m: Map<UpdateKey, int>,
    batches: Seq<Seq<(UpdateKey, i64)>>,
    k: UpdateKey,
)
    ensures
        delta_of(merge_batches(m, batches), k) == delta_of(m, k) + batches_sum(batches, k),
    decreases batches.len(),
{
    if batches.len() > 0 {
        lemma_merge_batches_delta(m, batches.drop_last(), k);
        crate::count_map::lemma_fold_updates_delta(
            merge_batches(m, batches.drop_last()),
            batches.last(),
            k,
        );
    }
}

/// Merging batches never leaves a zero behind.
pub proof fn lemma_merge_batches_no_zeros(
    m: Map<UpdateKey, int>,
    batches: Seq<Seq<(UpdateKey, i64)>>,
)
    requires
        crate::count_map::no_zeros(m),
    ensures
        crate::count_map::no_zeros(merge_batches(m, batches)),
    decreases batches.len(),
{
    if batches.len() > 0 {
        lemma_merge_batches_no_zeros(m, batches.drop_last());
        crate::count_map::lemma_fold_updates_no_zeros(
            merge_batches(m, batches.drop_last()),
            batches.last(),
        );
    }
}

/// Removing one batch takes exactly its contribution out of the queue's
/// per-key sum.
proof fn lemma_batches_sum_remove(batches: Seq<Seq<(UpdateKey, i64)>>, i: int, k: UpdateKey)
    requires
        0 <= i < batches.len(),
    ensures
        batches_sum(batches, k) == batches_sum(batches.remove(i), k) + sum_for(batches[i], k),
    decreases batches.len(),
{
    if i == batches.len() - 1 {
        assert(batches.remove(i) =~= batches.drop_last());
    } else {
        assert(batches.remove(i).drop_last() =~= batches.drop_last().remove(i));
        assert(batches.remove(i).last() == batches.last());
        lemma_batches_sum_remove(batches.drop_last(), i, k);
    }
}

/// Two queues holding the same batches, in any two orders, carry the same
/// per-key sums.
proof fn lemma_batches_sum_permutation(
    b1: Seq<Seq<(UpdateKey, i64)>>,
    b2: Seq<Seq<(UpdateKey, i64)>>,
    k: UpdateKey,
)
    requires
        b1.to_multiset() == b2.to_multiset(),
    ensures
        batches_sum(b1, k) == batches_sum(b2, k),
    decreases b1.len(),
{
    broadcast use vstd::seq_lib::group_to_multiset_ensures;

    if b1.len() == 0 {
        assert(b1.to_multiset().len() == b1.len());
        assert(b2.to_multiset().len() == b2.len());
        assert(b2.len() == 0);
    } else {
        let x = b1.last();
        let b1p = b1.drop_last();
        assert(b1p.push(x) =~= b1);
        assert(b1.to_multiset() =~= b1p.to_multiset().insert(x));
        assert(b2.to_multiset().count(x) > 0);
        assert(b2.contains(x));
        let j = choose|j: int| 0 <= j < b2.len() && b2[j] == x;
        let b2p = b2.remove(j);
        assert(b2p.to_multiset() =~= b2.to_multiset().remove(x));
        assert(b1p.to_multiset() =~= b2p.to_multiset());
        lemma_batches_sum_permutation(b1p, b2p, k);
        lemma_batches_sum_remove(b2, j, k);
    }
}

/// Mapping a function over two reorderings of the same elements yields
/// reorderings of the same results.
proof fn lemma_map_values_permutation<A, B>(s1: Seq<A>, s2: Seq<A>, f: spec_fn(A) -> B)
    requires
        s1.to_multiset() == s2.to_multiset(),
    ensures
        s1.map_values(f).to_multiset() == s2.map_values(f).to_multiset(),
    decreases s1.len(),
{
    broadcast use vstd::seq_lib::group_to_multiset_ensures;

    if s1.len() == 0 {
        assert(s1.to_multiset().len() == s1.len());
        assert(s2.to_multiset().len() == s2.len());
        assert(s2.len() == 0);
        assert(s1.map_values(f).to_multiset() =~= s2.map_values(f).to_multiset());
    } else {
        let x = s1.last();
        let s1p = s1.drop_last();
        assert(s1p.push(x) =~= s1);
        assert(s1.to_multiset() =~= s1p.to_multiset().insert(x));
        assert(s2.to_multiset().count(x) > 0);
        assert(s2.contains(x));
        let j = choose|j: int| 0 <= j < s2.len() && s2[j] == x;
        let s2p = s2.remove(j);
        assert(s2p.to_multiset() =~= s2.to_multiset().remove(x));
        assert(s1p.to_multiset() =~= s2p.to_multiset());
        lemma_map_values_permutation(s1p, s2p, f);
        assert(s1p.map_values(f).push(f(x)) =~= s1.map_values(f));
        assert(s1.map_values(f).to_multiset() =~= s1p.map_values(f).to_multiset().insert(f(x)));
        assert(s2p.map_values(f) =~= s2.map_values(f).remove(j));
        assert(s2.map_values(f).remove(j).to_multiset() == s2.map_values(f).to_multiset().remove(
            s2.map_values(f)[j],
        ));
        assert(s2.map_values(f)[j] == f(x));
        assert(s2.map_values(f).to_multiset().count(f(x)) > 0) by {
            assert(s2.map_values(f).contains(f(x)));
        }
        assert(s2.map_values(f).to_multiset() =~= s2.map_values(f).to_multiset().remove(
            f(x),
        ).insert(f(x)));
    }
}

/// Merge commutativity law at the wire level: a round that drains the same
/// wire messages, in any arrival order, merges its delta maps to the same
/// final contents.
pub proof fn lemma_arrival_order_irrelevant(
    m: Map<UpdateKey, int>,
    i: Map<UpdateKey, int>,
    q1: Seq<ProgressMsg>,
    q2: Seq<ProgressMsg>,
)
    requires
        crate::count_map::no_zeros(m),
        crate::count_map::no_zeros(i),
        q1.to_multiset() == q2.to_multiset(),
    ensures
        merge_batches(m, message_batches(q1)) == merge_batches(m, message_batches(q2)),
        merge_batches(i, internal_batches(q1)) == merge_batches(i, internal_batches(q2)),
{
    lemma_map_values_permutation(q1, q2, |msg: ProgressMsg| msg.2@);
    lemma_map_values_permutation(q1, q2, |msg: ProgressMsg| msg.3@);
    lemma_merge_batches_no_zeros(m, message_batches(q1));
    lemma_merge_batches_no_zeros(m, message_batches(q2));
    lemma_merge_batches_no_zeros(i, internal_batches(q1));
    lemma_merge_batches_no_zeros(i, internal_batches(q2));
    assert forall|k: UpdateKey|
        delta_of(merge_batches(m, message_batches(q1)), k) == delta_of(
            merge_batches(m, message_batches(q2)),
            k,
        ) by {
        lemma_merge_batches_delta(m, message_batches(q1), k);
        lemma_merge_batches_delta(m, message_batches(q2), k);
        lemma_batches_sum_permutation(message_batches(q1), message_batches(q2), k);
    }
    assert forall|k: UpdateKey|
        delta_of(merge_batches(i, internal_batches(q1)), k) == delta_of(
            merge_batches(i, internal_batches(q2)),
            k,
        ) by {
        lemma_merge_batches_delta(i, internal_batches(q1), k);
        lemma_merge_batches_delta(i, internal_batches(q2), k);
        lemma_batches_sum_permutation(internal_batches(q1), internal_batches(q2), k);
    }
    crate::count_map::lemma_no_zeros_ext(
        merge_batches(m, message_batches(q1)),
        merge_batches(m, message_batches(q2)),
    );
    crate::count_map::lemma_no_zeros_ext(
        merge_batches(i, internal_batches(q1)),
        merge_batches(i, internal_batches(q2)),
    );
}

/// A fit over the whole queue is a fit over every prefix of it.
proof fn lemma_batches_fit_prefix(
    m: Map<UpdateKey, int>,
    batches: Seq<Seq<(UpdateKey, i64)>>,
    n: int,
)
    requires
        batches_fit(m, batches),
        0 <= n <= batches.len(),
    ensures
        batches_fit(m, batches.take(n)),
    decreases batches.len() - n,
{
    if n == batches.len() {
        assert(batches.take(n) =~= batches);
    } else {
        lemma_batches_fit_prefix(m, batches, n + 1);
        lemma_take_step(batches, n);
        assert(batches_fit(m, batches.take(n + 1)));
        assert(batches_fit(m, batches.take(n + 1).drop_last()));
    }
}

/// What one call of `send_and_recv` does, stated over the values involved:
/// the broadcaster before and after, the two delta maps before and after,
/// the inbound messages the non-blocking drain produced, and the message
/// broadcast to every peer, if any.
pub open spec fn round_transition(
    pre: Progcaster,
    m0: Map<UpdateKey, int>,
    i0: Map<UpdateKey, int>,
    inbound: Seq<ProgressMsg>,
    post: Progcaster,
    m1: Map<UpdateKey, int>,
    i1: Map<UpdateKey, int>,
    outbound: Option<ProgressMsg>,
) -> bool {
    let sends = pre.spec_should_send(m0, i0);
    let start_m = if sends {
        Map::<UpdateKey, int>::empty()
    } else {
        m0
    };
    let start_i = if sends {
        Map::<UpdateKey, int>::empty()
    } else {
        i0
    };
    &&& post.spec_source() == pre.spec_source()
    &&& post.spec_peers() == pre.spec_peers()
    &&& post.spec_addr() == pre.spec_addr()
    &&& post.spec_counter() as int == pre.spec_counter() as int + if sends {
        1int
    } else {
        0int
    }
    &&& (outbound is Some <==> sends)
    &&& match outbound {
        Some(msg) => {
            &&& msg.0 == pre.spec_source()
            &&& msg.1 == pre.spec_counter()
            &&& distinct_keys(msg.2@)
            &&& no_zero_deltas(msg.2@)
            &&& distinct_keys(msg.3@)
            &&& no_zero_deltas(msg.3@)
            &&& seq_to_map(msg.2@) == m0
            &&& seq_to_map(msg.3@) == i0
        },
        None => true,
    }
    &&& if pre.spec_peers() <= 1 {
        m1 == m0 && i1 == i0
    } else {
        m1 == merge_batches(start_m, message_batches(inbound)) && i1 == merge_batches(
            start_i,
            internal_batches(inbound),
        )
    }
}

/// Manages broadcasting of progress updates to and receiving updates from
/// workers.
pub struct Progcaster {
    /// This worker's global rank, fixed at construction.
    source: usize,
    /// Sequence number stamped on the next non-empty broadcast; consumed and
    /// incremented only then.
    counter: usize,
    /// Path of nested scope identifiers from the root to this subgraph,
    /// attached to every observability event.
    addr: Vec<usize>,
    /// Total number of workers in the computation.
    peers: usize,
}

impl Progcaster {
    /// This worker's global rank.
    pub closed spec fn spec_source(&self) -> usize {
        self.source
    }

    /// The sequence number the next non-empty broadcast will carry.
    pub closed spec fn spec_counter(&self) -> usize {
        self.counter
    }

    /// Number of workers in the computation.
    pub closed spec fn spec_peers(&self) -> usize {
        self.peers
    }

    /// The scope address path recorded at construction.
    pub closed spec fn spec_addr(&self) -> Seq<usize> {
        self.addr@
    }

    /// A round broadcasts exactly when there is a topology to speak to and
    /// something to say.
    pub open spec fn spec_should_send(
        &self,
        m: Map<UpdateKey, int>,
        i: Map<UpdateKey, int>,
    ) -> bool {
        self.spec_peers() > 1 && (m != Map::<UpdateKey, int>::empty() || i != Map::<
            UpdateKey,
            int,
        >::empty())
    }

    /// Creates a new `Progcaster` for the worker with the given rank among
    /// `peers` workers, recording the scope address path. The harness reads
    /// both values off the channel fabric when it allocates the endpoints.
    pub fn new(source: usize, peers: usize, path: &Vec<usize>) -> (p: Progcaster)
        ensures
            p.spec_source() == source,
            p.spec_peers() == peers,
            p.spec_counter() == 0,
            p.spec_addr() == path@,
    {
        let mut addr: Vec<usize> = Vec::new();
        let n = path.len();
        let mut i: usize = 0;
        while i < n
            invariant
                i <= n,
                n == path@.len(),
                addr@ == path@.take(i as int),
            decreases n - i,
        {
            let x = path[i];
            addr.push(x);
            proof {
                assert(path@.take(i as int + 1) =~= path@.take(i as int).push(x));
            }
            i = i + 1;
        }
        proof {
            assert(path@.take(n as int) =~= path@);
        }
        Progcaster { source, counter: 0, addr, peers }
    }

    /// The send half of a round. When there is more than one worker and
    /// either map is non-empty, snapshots both maps into one wire message
    /// stamped with this worker's rank and the current sequence number,
    /// consumes that number, and clears both maps; otherwise changes nothing
    /// and returns no message. The harness pushes an independent copy of the
    /// returned message to every peer endpoint.
    pub fn begin_round(&mut self, messages: &mut CountMap, internal: &mut CountMap) -> (outbound:
        Option<ProgressMsg>)
        requires
            old(messages).wf(),
            old(internal).wf(),
            old(self).spec_should_send(old(messages)@, old(internal)@) ==> old(self).spec_counter()
                < usize::MAX,
        ensures
            final(messages).wf(),
            final(internal).wf(),
            final(self).spec_source() == old(self).spec_source(),
            final(self).spec_peers() == old(self).spec_peers(),
            final(self).spec_addr() == old(self).spec_addr(),
            (outbound is Some) <==> old(self).spec_should_send(old(messages)@, old(internal)@),
            match outbound {
                Some(msg) => {
                    &&& msg.0 == old(self).spec_source()
                    &&& msg.1 == old(self).spec_counter()
                    &&& final(self).spec_counter() as int == old(self).spec_counter() as int + 1
                    &&& final(messages)@ == Map::<UpdateKey, int>::empty()
                    &&& final(internal)@ == Map::<UpdateKey, int>::empty()
                    &&& distinct_keys(msg.2@)
                    &&& no_zero_deltas(msg.2@)
                    &&& distinct_keys(msg.3@)
                    &&& no_zero_deltas(msg.3@)
                    &&& seq_to_map(msg.2@) == old(messages)@
                    &&& seq_to_map(msg.3@) == old(internal)@
                    &&& (forall|k: UpdateKey| sum_for(msg.2@, k) == delta_of(old(messages)@, k))
                    &&& (forall|k: UpdateKey| sum_for(msg.3@, k) == delta_of(old(internal)@, k))
                },
                None => {
                    &&& final(self).spec_counter() == old(self).spec_counter()
                    &&& *final(messages) == *old(messages)
                    &&& *final(internal) == *old(internal)
                },
            },
    {
        if self.peers > 1 && (messages.len() > 0 || internal.len() > 0) {
            let msg_snapshot = messages.snapshot_and_clear();
            let internal_snapshot = internal.snapshot_and_clear();
            let seq_no = self.counter;
            self.counter = self.counter + 1;
            Some((self.source, seq_no, msg_snapshot, internal_snapshot))
        } else {
            None
        }
    }

    /// The merge step of the drain half of a round: folds one received
    /// message's update lists into the caller's maps, message counts first,
    /// then internal work. The harness calls this once per message its
    /// non-blocking drain pulls.
    pub fn absorb_message(
        &self,
        messages: &mut CountMap,
        internal: &mut CountMap,
        msg: &ProgressMsg,
    )
        requires
            old(messages).wf(),
            old(internal).wf(),
            fold_fits(old(messages)@, msg.2@),
            fold_fits(old(internal)@, msg.3@),
        ensures
            final(messages).wf(),
            final(internal).wf(),
            final(messages)@ == fold_updates(old(messages)@, msg.2@),
            final(internal)@ == fold_updates(old(internal)@, msg.3@),
    {
        messages.absorb(&msg.2);
        internal.absorb(&msg.3);
    }

    /// The sole per-round operation: broadcast the maps' contents if there is
    /// anything to send, then merge every peer update the drain had already
    /// produced. With one worker there is no topology: both maps are left
    /// untouched and nothing is sent. `inbound` holds whatever the harness's
    /// non-blocking drain pulled from the inbound endpoint this round.
    pub fn send_and_recv(
        &mut self,
        messages: &mut CountMap,
        internal: &mut CountMap,
        inbound: &Vec<ProgressMsg>,
    ) -> (outbound: Option<ProgressMsg>)
        requires
            old(messages).wf(),
            old(internal).wf(),
            old(self).spec_should_send(old(messages)@, old(internal)@) ==> old(self).spec_counter()
                < usize::MAX,
            old(self).spec_peers() > 1 ==> batches_fit(
                if old(self).spec_should_send(old(messages)@, old(internal)@) {
                    Map::<UpdateKey, int>::empty()
                } else {
                    old(messages)@
                },
                message_batches(inbound@),
            ),
            old(self).spec_peers() > 1 ==> batches_fit(
                if old(self).spec_should_send(old(messages)@, old(internal)@) {
                    Map::<UpdateKey, int>::empty()
                } else {
                    old(internal)@
                },
                internal_batches(inbound@),
            ),
        ensures
            final(messages).wf(),
            final(internal).wf(),
            round_transition(
                *old(self),
                old(messages)@,
                old(internal)@,
                inbound@,
                *final(self),
                final(messages)@,
                final(internal)@,
                outbound,
            ),
            old(self).spec_peers() <= 1 ==> *final(messages) == *old(messages) && *final(internal)
                == *old(internal),
    {
        let outbound = self.begin_round(messages, internal);
        let ghost start_m = messages@;
        let ghost start_i = internal@;
        if self.peers > 1 {
            let ghost mb = message_batches(inbound@);
            let ghost ib = internal_batches(inbound@);
            let n = inbound.len();
            let mut i: usize = 0;
            while i < n
                invariant
                    i <= n,
                    n == inbound@.len(),
                    messages.wf(),
                    internal.wf(),
                    batches_fit(start_m, mb),
                    batches_fit(start_i, ib),
                    mb == message_batches(inbound@),
                    ib == internal_batches(inbound@),
                    messages@ == merge_batches(start_m, mb.take(i as int)),
                    internal@ == merge_batches(start_i, ib.take(i as int)),
                decreases n - i,
            {
                proof {
                    assert(mb[i as int] == inbound@[i as int].2@);
                    assert(ib[i as int] == inbound@[i as int].3@);
                    lemma_take_step(mb, i as int);
                    lemma_take_step(ib, i as int);
                    lemma_batches_fit_prefix(start_m, mb, i as int + 1);
                    lemma_batches_fit_prefix(start_i, ib, i as int + 1);
                    assert(batches_fit(start_m, mb.take(i as int + 1)));
                    assert(batches_fit(start_i, ib.take(i as int + 1)));
                }
                let msg = &inbound[i];
                messages.absorb(&msg.2);
                internal.absorb(&msg.3);
                proof {
                    assert(merge_batches(start_m, mb.take(i as int + 1)) == fold_updates(
                        merge_batches(start_m, mb.take(i as int)),
                        mb[i as int],
                    ));
                    assert(merge_batches(start_i, ib.take(i as int + 1)) == fold_updates(
                        merge_batches(start_i, ib.take(i as int)),
                        ib[i as int],
                    ));
                }
                i = i + 1;
            }
            proof {
                assert(mb.take(n as int) =~= mb);
                assert(ib.take(n as int) =~= ib);
            }
        }
        outbound
    }

    /// This worker's global rank.
    pub fn source(&self) -> (r: usize)
        ensures
            r == self.spec_source(),
    {
        self.source
    }

    /// The sequence number the next non-empty broadcast will carry.
    pub fn counter(&self) -> (r: usize)
        ensures
            r == self.spec_counter(),
    {
        self.counter
    }

    /// Number of workers in the computation.
    pub fn peers(&self) -> (r: usize)
        ensures
            r == self.spec_peers(),
    {
        self.peers
    }

    /// The scope address path recorded at construction.
    pub fn addr(&self) -> (r: &Vec<usize>)
        ensures
            r@ == self.spec_addr(),
    {
        &self.addr
    }
}

/// Sequence monotonicity law, broadcasting half: when two consecutive rounds
/// of one broadcaster both broadcast, the second message's sequence number is
/// exactly one more than the first's.
pub proof fn lemma_sequence_monotonicity(
    p0: Progcaster,
    m0: Map<UpdateKey, int>,
    i0: Map<UpdateKey, int>,
    in0: Seq<ProgressMsg>,
    p1: Progcaster,
    m1: Map<UpdateKey, int>,
    i1: Map<UpdateKey, int>,
    out0: ProgressMsg,
    m1b: Map<UpdateKey, int>,
    i1b: Map<UpdateKey, int>,
    in1: Seq<ProgressMsg>,
    p2: Progcaster,
    m2: Map<UpdateKey, int>,
    i2: Map<UpdateKey, int>,
    out1: ProgressMsg,
)
    requires
        round_transition(p0, m0, i0, in0, p1, m1, i1, Some(out0)),
        round_transition(p1, m1b, i1b, in1, p2, m2, i2, Some(out1)),
    ensures
        out1.1 as int == out0.1 as int + 1,
{
}

/// Sequence monotonicity law, empty half: a round that broadcasts nothing
/// consumes no sequence number.
pub proof fn lemma_empty_round_keeps_sequence(
    p0: Progcaster,
    m0: Map<UpdateKey, int>,
    i0: Map<UpdateKey, int>,
    in0: Seq<ProgressMsg>,
    p1: Progcaster,
    m1: Map<UpdateKey, int>,
    i1: Map<UpdateKey, int>,
)
    requires
        round_transition(p0, m0, i0, in0, p1, m1, i1, None),
    ensures
        p1.spec_counter() == p0.spec_counter(),
{
}

} // verus!
