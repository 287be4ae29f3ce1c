//! The reference query pipeline: a k-way merge of partition pages by a
//! per-item order key, which never emits an item before every partition has
//! answered at least once.
use vstd::prelude::*;

use crate::query_engine::{option_view, ItemView, PipelineResult, QueryItem, QueryRequest};

verus! {

/// The mathematical value of one partition's execution state.
pub struct PartitionView {
    pub id: Seq<char>,
    /// Whether a page of this partition has been provided.
    pub started: bool,
    /// Items received and not yet emitted.
    pub queue: Seq<ItemView>,
    /// Where the next page of this partition starts, if it has one.
    pub continuation: Option<Seq<char>>,
}

/// The mathematical value of a [`ReferencePipeline`].
pub struct PipelineView {
    pub query: Seq<char>,
    pub completed: bool,
    pub partitions: Seq<PartitionView>,
}

/// A partition is exhausted once it has started, emitted all it received
/// and has no further page.
pub open spec fn exhausted(p: PartitionView) -> bool {
    p.started && p.queue.len() == 0 && p.continuation is None
}

pub open spec fn all_started(ps: Seq<PartitionView>) -> bool {
    forall|i: int| 0 <= i < ps.len() ==> (#[trigger] ps[i]).started
}

/// The partition whose queue head has the lowest order key, the first one
/// on ties; -1 when every queue is empty.
pub open spec fn best_index(ps: Seq<PartitionView>) -> int
    decreases ps.len(),
{
    if ps.len() == 0 {
        -1
    } else {
        let b = best_index(ps.drop_last());
        let l = ps.last();
        if l.queue.len() == 0 {
            b
        } else if b < 0 {
            ps.len() - 1
        } else if l.queue[0].order_key < ps[b].queue[0].order_key {
            ps.len() - 1
        } else {
            b
        }
    }
}

/// The number of items queued over all partitions.
pub open spec fn total(ps: Seq<PartitionView>) -> nat
    decreases ps.len(),
{
    if ps.len() == 0 {
        0
    } else {
        total(ps.drop_last()) + ps.last().queue.len()
    }
}

/// `p` with its queue head removed.
pub open spec fn popped(p: PartitionView) -> PartitionView {
    PartitionView { queue: p.queue.drop_first(), ..p }
}

/// Emitting the lowest queue head, over and over, until every queue is
/// empty: the payloads in the order emitted, and the partitions after.
pub open spec fn drain(ps: Seq<PartitionView>) -> (Seq<Seq<u8>>, Seq<PartitionView>)
    decreases total(ps),
    via drain_decreases
{
    let b = best_index(ps);
    if b < 0 {
        (Seq::empty(), ps)
    } else {
        let rest = drain(ps.update(b, popped(ps[b])));
        (seq![ps[b].queue[0].payload] + rest.0, rest.1)
    }
}

#[via_fn]
proof fn drain_decreases(ps: Seq<PartitionView>) {
    let b = best_index(ps);
    lemma_best_index(ps);
    if b >= 0 {
        lemma_total_update(ps, b, popped(ps[b]));
    }
}

/// The requests of a turn: one per partition that is not exhausted, in
/// partition order, with its continuation.
pub open spec fn requests_for(ps: Seq<PartitionView>) -> Seq<(Seq<char>, Option<Seq<char>>)>
    decreases ps.len(),
{
    if ps.len() == 0 {
        Seq::empty()
    } else {
        let r = requests_for(ps.drop_last());
        if exhausted(ps.last()) {
            r
        } else {
            r.push((ps.last().id, ps.last().continuation))
        }
    }
}

/// What one turn does to the partitions: with every partition started, it
/// drains all queues; otherwise it emits nothing.
pub open spec fn turn(ps: Seq<PartitionView>) -> (Seq<Seq<u8>>, Seq<PartitionView>) {
    if all_started(ps) {
        drain(ps)
    } else {
        (Seq::empty(), ps)
    }
}

pub proof fn lemma_best_index(ps: Seq<PartitionView>)
    ensures
        -1 <= best_index(ps) < ps.len(),
        best_index(ps) >= 0 ==> ps[best_index(ps)].queue.len() > 0,
        best_index(ps) < 0 ==> forall|i: int| 0 <= i < ps.len() ==> (#[trigger] ps[i]).queue.len()
            == 0,
        best_index(ps) >= 0 ==> forall|i: int|
            0 <= i < ps.len() && (#[trigger] ps[i]).queue.len() > 0 ==> ps[best_index(
                ps,
            )].queue[0].order_key <= ps[i].queue[0].order_key,
    decreases ps.len(),
{
    if ps.len() > 0 {
        let t = ps.drop_last();
        lemma_best_index(t);
        let b = best_index(t);
        let n = ps.len() - 1;
        let l = ps.last();
        assert forall|i: int| 0 <= i < t.len() implies ps[i] == #[trigger] t[i] by {}
        if l.queue.len() == 0 {
            assert forall|i: int| 0 <= i < ps.len() && b < 0 implies (#[trigger] ps[i]).queue.len()
                == 0 by {
                if i < n {
                    assert(ps[i] == t[i]);
                }
            }
            assert forall|i: int|
                0 <= i < ps.len() && b >= 0 && (#[trigger] ps[i]).queue.len()
                    > 0 implies ps[b].queue[0].order_key <= ps[i].queue[0].order_key by {
                assert(ps[i] == t[i]);
            }
        } else if b < 0 {
            assert forall|i: int|
                0 <= i < ps.len() && (#[trigger] ps[i]).queue.len() > 0 implies ps[n].queue[0].order_key
                    <= ps[i].queue[0].order_key by {
                if i < n {
                    assert(ps[i] == t[i]);
                }
            }
        } else if l.queue[0].order_key < ps[b].queue[0].order_key {
            assert forall|i: int|
                0 <= i < ps.len() && (#[trigger] ps[i]).queue.len() > 0 implies ps[n].queue[0].order_key
                    <= ps[i].queue[0].order_key by {
                if i < n {
                    assert(ps[i] == t[i]);
                }
            }
        } else {
            assert forall|i: int|
                0 <= i < ps.len() && (#[trigger] ps[i]).queue.len() > 0 implies ps[b].queue[0].order_key
                    <= ps[i].queue[0].order_key by {
                if i < n {
                    assert(ps[i] == t[i]);
                }
            }
        }
    }
}

proof fn lemma_total_update(ps: Seq<PartitionView>, b: int, p: PartitionView)
    requires
        0 <= b < ps.len(),
    ensures
        total(ps.update(b, p)) + ps[b].queue.len() == total(ps) + p.queue.len(),
    decreases ps.len(),
{
    let u = ps.update(b, p);
    if b < ps.len() - 1 {
        assert(u.drop_last() =~= ps.drop_last().update(b, p));
        lemma_total_update(ps.drop_last(), b, p);
    } else {
        assert(u.drop_last() =~= ps.drop_last());
    }
}

/// What `drain` leaves behind: the same partitions, every queue empty.
pub proof fn lemma_drain_empties(ps: Seq<PartitionView>)
    ensures
        drain(ps).1.len() == ps.len(),
        forall|i: int|
            0 <= i < ps.len() ==> (#[trigger] drain(ps).1[i]).queue.len() == 0 && drain(ps).1[i].id
                == ps[i].id && drain(ps).1[i].started == ps[i].started && drain(ps).1[i].continuation
                == ps[i].continuation,
    decreases total(ps),
{
    let b = best_index(ps);
    lemma_best_index(ps);
    if b >= 0 {
        let next = ps.update(b, popped(ps[b]));
        lemma_total_update(ps, b, popped(ps[b]));
        lemma_drain_empties(next);
    }
}

pub open spec fn all_exhausted(ps: Seq<PartitionView>) -> bool {
    forall|i: int| 0 <= i < ps.len() ==> exhausted(#[trigger] ps[i])
}

proof fn lemma_requests_empty(ps: Seq<PartitionView>)
    ensures
        requests_for(ps).len() == 0 <==> all_exhausted(ps),
    decreases ps.len(),
{
    if ps.len() > 0 {
        let t = ps.drop_last();
        lemma_requests_empty(t);
        assert forall|i: int| 0 <= i < t.len() implies ps[i] == #[trigger] t[i] by {}
        if all_exhausted(ps) {
            assert(exhausted(ps[ps.len() - 1]));
        }
        if requests_for(ps).len() == 0 {
            assert forall|i: int| 0 <= i < ps.len() implies exhausted(#[trigger] ps[i]) by {
                if i < t.len() {
                    assert(ps[i] == t[i]);
                }
            }
        }
    }
}

/// A turn yields neither items nor requests exactly when every partition
/// is exhausted on entry to it: this is when the pipeline completes.
pub proof fn lemma_turn_completes(ps: Seq<PartitionView>)
    ensures
        (turn(ps).0.len() == 0 && requests_for(turn(ps).1).len() == 0) <==> all_exhausted(ps),
{
    lemma_requests_empty(ps);
    lemma_best_index(ps);
    if all_started(ps) {
        lemma_drain_empties(ps);
        let after = drain(ps).1;
        lemma_requests_empty(after);
        if all_exhausted(ps) {
            assert forall|i: int| 0 <= i < after.len() implies exhausted(#[trigger] after[i]) by {
                assert(exhausted(ps[i]));
            }
        }
        if turn(ps).0.len() == 0 && requests_for(after).len() == 0 {
            if best_index(ps) >= 0 {
                let rest = drain(ps.update(best_index(ps), popped(ps[best_index(ps)])));
                assert(drain(ps).0 == seq![ps[best_index(ps)].queue[0].payload] + rest.0);
            }
            assert forall|i: int| 0 <= i < ps.len() implies exhausted(#[trigger] ps[i]) by {
                assert(exhausted(after[i]));
            }
        }
    } else {
        let i = choose|i: int| 0 <= i < ps.len() && !(#[trigger] ps[i]).started;
        assert(!exhausted(ps[i]));
    }
}

/// An item of a partition's queue, in its execution state.
#[derive(Debug)]
struct PartitionState {
    pkrange_id: String,
    started: bool,
    queue: Vec<QueryItem>,
    next_continuation: Option<String>,
}

impl View for PartitionState {
    type V = PartitionView;

    closed spec fn view(&self) -> PartitionView {
        PartitionView {
            id: self.pkrange_id@,
            started: self.started,
            queue: self.queue@.map_values(|it: QueryItem| it@),
            continuation: option_view(self.next_continuation),
        }
    }
}

/// Errors of the reference pipeline.
#[derive(Debug, Clone, PartialEq)]
pub enum PipelineError {
    /// Data was provided for a partition the pipeline does not know.
    PartitionNotFound(String),
}

/// The reference pipeline: it keeps, per partition, whether data has come,
/// the items not yet emitted and the continuation, and merges the
/// partitions' items by order key.
#[derive(Debug)]
pub struct ReferencePipeline {
    query: String,
    completed: bool,
    partition_states: Vec<PartitionState>,
}

pub open spec fn payload_views(v: Seq<Vec<u8>>) -> Seq<Seq<u8>> {
    v.map_values(|b: Vec<u8>| b@)
}

pub open spec fn request_views(v: Seq<QueryRequest>) -> Seq<(Seq<char>, Option<Seq<char>>)> {
    v.map_values(|r: QueryRequest| r@)
}

fn clone_option(o: &Option<String>) -> (r: Option<String>)
    ensures
        option_view(r) == option_view(*o),
{
    match o {
        Some(s) => Some(s.clone()),
        None => None,
    }
}

impl View for ReferencePipeline {
    type V = PipelineView;

    closed spec fn view(&self) -> PipelineView {
        PipelineView {
            query: self.query@,
            completed: self.completed,
            partitions: self.partition_states@.map_values(|p: PartitionState| p@),
        }
    }
}

impl ReferencePipeline {
    /// A pipeline for `query` over the given partitions, none of them
    /// started.
    pub fn new(query: String, partition_key_range_ids: Vec<String>) -> (r: ReferencePipeline)
        ensures
            r@.query == query@,
            !r@.completed,
            r@.partitions.len() == partition_key_range_ids.len(),
            forall|i: int|
                0 <= i < partition_key_range_ids.len() ==> (#[trigger] r@.partitions[i]) == (
                PartitionView {
                    id: partition_key_range_ids@[i]@,
                    started: false,
                    queue: Seq::empty(),
                    continuation: None,
                }),
    {
        let mut states: Vec<PartitionState> = Vec::new();
        let mut i: usize = 0;
        while i < partition_key_range_ids.len()
            invariant
                0 <= i <= partition_key_range_ids.len(),
                states.len() == i,
                forall|j: int|
                    0 <= j < i ==> (#[trigger] states@[j])@ == (PartitionView {
                        id: partition_key_range_ids@[j]@,
                        started: false,
                        queue: Seq::empty(),
                        continuation: None,
                    }),
            decreases partition_key_range_ids.len() - i,
        {
            let st = PartitionState {
                pkrange_id: partition_key_range_ids[i].clone(),
                started: false,
                queue: Vec::new(),
                next_continuation: None,
            };
            assert(st@.queue =~= Seq::<ItemView>::empty());
            states.push(st);
            i = i + 1;
        }
        ReferencePipeline { query, completed: false, partition_states: states }
    }

    /// The query to send to each partition.
    pub fn query(&self) -> (r: &str)
        ensures
            r@ == self@.query,
    {
        self.query.as_str()
    }

    /// Whether the pipeline has completed.
    pub fn complete(&self) -> (r: bool)
        ensures
            r == self@.completed,
    {
        self.completed
    }

    fn all_partitions_started(&self) -> (r: bool)
        ensures
            r == all_started(self@.partitions),
    {
        let mut i: usize = 0;
        while i < self.partition_states.len()
            invariant
                0 <= i <= self.partition_states.len(),
                forall|j: int| 0 <= j < i ==> (#[trigger] self@.partitions[j]).started,
            decreases self.partition_states.len() - i,
        {
            if !self.partition_states[i].started {
                assert(!self@.partitions[i as int].started);
                return false;
            }
            i = i + 1;
        }
        true
    }

    fn best(&self) -> (r: Option<usize>)
        ensures
            match r {
                Some(b) => b as int == best_index(self@.partitions),
                None => best_index(self@.partitions) < 0,
            },
    {
        let ghost ps = self@.partitions;
        let mut best: Option<usize> = None;
        let mut i: usize = 0;
        assert(ps.take(0) =~= Seq::<PartitionView>::empty());
        while i < self.partition_states.len()
            invariant
                ps == self@.partitions,
                0 <= i <= self.partition_states.len(),
                match best {
                    Some(b) => b < i && b as int == best_index(ps.take(i as int)),
                    None => best_index(ps.take(i as int)) < 0,
                },
            decreases self.partition_states.len() - i,
        {
            let p = &self.partition_states[i];
            proof {
                lemma_best_index(ps.take(i as int));
            }
            assert(ps.take(i as int + 1).drop_last() =~= ps.take(i as int));
            assert(ps.take(i as int + 1).last() == p@);
            if p.queue.len() > 0 {
                match best {
                    None => {
                        best = Some(i);
                    },
                    Some(b) => {
                        assert(ps.take(i as int + 1)[b as int] == ps[b as int]);
                        if p.queue[0].order_key < self.partition_states[b].queue[0].order_key {
                            best = Some(i);
                        }
                    },
                }
            }
            i = i + 1;
        }
        assert(ps.take(i as int) =~= ps);
        best
    }

    /// One turn of the pipeline.
    ///
    /// When every partition has started, all queued items are emitted,
    /// lowest order key first (the first partition on ties); while any
    /// partition has not started, none is. The requests name each partition
    /// that is not exhausted afterwards, with its continuation. The pipeline
    /// completes when a turn has neither items nor requests.
    pub fn next_batch(&mut self) -> (r: PipelineResult)
        ensures
            payload_views(r.items@) == turn(old(self)@.partitions).0,
            final(self)@.partitions == turn(old(self)@.partitions).1,
            request_views(r.requests@) == requests_for(final(self)@.partitions),
            final(self)@.query == old(self)@.query,
            !all_started(old(self)@.partitions) ==> r.items.len() == 0,
            final(self)@.completed == (old(self)@.completed || (r.items.len() == 0
                && r.requests.len() == 0)),
            final(self)@.completed == (old(self)@.completed || all_exhausted(
                old(self)@.partitions,
            )),
            r.completed == final(self)@.completed,
    {
        let ghost pre = self@.partitions;
        let mut items: Vec<Vec<u8>> = Vec::new();
        if self.all_partitions_started() {
            assert(payload_views(items@) + drain(self@.partitions).0 =~= drain(pre).0);
            loop
                invariant
                    drain(pre) == (payload_views(items@) + drain(self@.partitions).0, drain(
                        self@.partitions,
                    ).1),
                    self@.query == old(self)@.query,
                    self@.completed == old(self)@.completed,
                ensures
                    drain(pre) == (payload_views(items@), self@.partitions),
                    self@.query == old(self)@.query,
                    self@.completed == old(self)@.completed,
                decreases total(self@.partitions),
            {
                let ghost cur = self@.partitions;
                proof {
                    lemma_best_index(cur);
                }
                match self.best() {
                    None => {
                        assert(payload_views(items@) + drain(cur).0 =~= payload_views(items@));
                        break ;
                    },
                    Some(b) => {
                        proof {
                            lemma_total_update(cur, b as int, popped(cur[b as int]));
                        }
                        let mut p = self.partition_states.remove(b);
                        let it = p.queue.remove(0);
                        self.partition_states.insert(b, p);
                        assert(p@ == popped(cur[b as int])) by {
                            assert(p@.queue =~= cur[b as int].queue.drop_first());
                        }
                        assert(self@.partitions =~= cur.update(b as int, popped(cur[b as int])));
                        let ghost x = it.payload@;
                        let ghost prev = items@;
                        items.push(it.payload);
                        assert(payload_views(items@) =~= payload_views(prev).push(x)) by {
                            assert(payload_views(items@).last() == x);
                        }
                        assert(payload_views(items@) + drain(self@.partitions).0 =~= payload_views(prev)
                            + drain(cur).0);
                    },
                }
            }
        } else {
            assert(payload_views(items@) =~= Seq::<Seq<u8>>::empty());
        }
        let ghost ps = self@.partitions;
        let mut requests: Vec<QueryRequest> = Vec::new();
        let mut i: usize = 0;
        assert(ps.take(0) =~= Seq::<PartitionView>::empty());
        while i < self.partition_states.len()
            invariant
                ps == self@.partitions,
                0 <= i <= self.partition_states.len(),
                request_views(requests@) == requests_for(ps.take(i as int)),
            decreases self.partition_states.len() - i,
        {
            let p = &self.partition_states[i];
            assert(ps.take(i as int + 1).drop_last() =~= ps.take(i as int));
            assert(ps.take(i as int + 1).last() == p@);
            let is_exhausted = p.started && p.queue.len() == 0 && p.next_continuation.is_none();
            if !is_exhausted {
                let req = QueryRequest {
                    partition_key_range_id: p.pkrange_id.clone(),
                    continuation: clone_option(&p.next_continuation),
                };
                let ghost before = requests@;
                requests.push(req);
                assert(request_views(requests@) =~= request_views(before).push(req@));
            }
            i = i + 1;
        }
        assert(ps.take(i as int) =~= ps);
        proof {
            lemma_turn_completes(pre);
        }
        if items.len() == 0 && requests.len() == 0 {
            self.completed = true;
        }
        PipelineResult { completed: self.completed, items, requests }
    }

    /// Feeds one partition's page into the pipeline: the partition becomes
    /// started, takes the new continuation and queues the items. Fails
    /// with `PartitionNotFound` when no partition has that id.
    pub fn provide_items(
        &mut self,
        partition_key_range_id: &String,
        items: Vec<QueryItem>,
        next_continuation: Option<String>,
    ) -> (r: Result<(), PipelineError>)
        ensures
            final(self)@.query == old(self)@.query,
            final(self)@.completed == old(self)@.completed,
            ({
                let ps = old(self)@.partitions;
                let found = exists|i: int|
                    0 <= i < ps.len() && #[trigger] ps[i].id == partition_key_range_id@;
                &&& r is Err <==> !found
                &&& !found ==> final(self)@.partitions == ps
                &&& found ==> exists|i: int|
                    0 <= i < ps.len() && #[trigger] ps[i].id == partition_key_range_id@ && (forall|
                        j: int,
                    |
                        0 <= j < i ==> (#[trigger] ps[j]).id != partition_key_range_id@)
                        && final(self)@.partitions == ps.update(
                        i,
                        PartitionView {
                            id: ps[i].id,
                            started: true,
                            queue: ps[i].queue + items@.map_values(|it: QueryItem| it@),
                            continuation: option_view(next_continuation),
                        },
                    )
            }),
    {
        let ghost ps = self@.partitions;
        let ghost added = items@.map_values(|it: QueryItem| it@);
        let mut i: usize = 0;
        while i < self.partition_states.len() && self.partition_states[i].pkrange_id
            != *partition_key_range_id
            invariant
                ps == self@.partitions,
                0 <= i <= self.partition_states.len(),
                forall|j: int| 0 <= j < i ==> (#[trigger] ps[j]).id != partition_key_range_id@,
            decreases self.partition_states.len() - i,
        {
            i = i + 1;
        }
        if i == self.partition_states.len() {
            return Err(PipelineError::PartitionNotFound(partition_key_range_id.clone()));
        }
        let mut p = self.partition_states.remove(i);
        let mut items = items;
        p.started = true;
        p.next_continuation = next_continuation;
        p.queue.append(&mut items);
        self.partition_states.insert(i, p);
        proof {
            let np = PartitionView {
                id: ps[i as int].id,
                started: true,
                queue: ps[i as int].queue + added,
                continuation: option_view(next_continuation),
            };
            assert(p@.queue =~= np.queue);
            assert(self@.partitions =~= ps.update(i as int, np));
        }
        Ok(())
    }
}

} // verus!
