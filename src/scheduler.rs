use vstd::prelude::*;

verus! {

/// What a worker produced for one chunk.
pub enum TaskOutcome {
    /// The chunk's audio, as 16-bit little-endian PCM bytes.
    Audio(Vec<u8>),
    /// Inference failed for this chunk.
    Failed,
}

/// What the coordinator loop must do next.
pub enum Action {
    /// Start inference of chunk `id` on worker `worker`.
    Dispatch { id: usize, worker: usize },
    /// Send the audio of chunk `id` to the transport.
    Emit { id: usize, pcm: Vec<u8> },
    /// Chunk `id` failed: send nothing for it and go on with the next.
    Skip { id: usize },
    /// All chunks are out: send the end-of-stream marker, tagged with the chunk count.
    Finish { id: usize },
    /// Nothing to do until a running task completes.
    Wait,
    /// The stream is complete.
    Done,
}

/// A request that cannot be scheduled at all.
#[derive(PartialEq, Eq, Structural, Debug, Clone, Copy)]
pub enum ConfigError {
    NoWorkers,
    NoChunks,
}

/// One entry of the stream as released to the consumer.
#[derive(PartialEq, Eq, Structural, Debug, Clone, Copy)]
pub enum Released {
    Chunk(usize),
    Skipped(usize),
    Marker(usize),
}

proof fn lemma_audio_stream_prefix(a: Seq<Option<TaskOutcome>>, b: Seq<Option<TaskOutcome>>, k: nat)
    requires
        k <= a.len(),
        k <= b.len(),
        forall|i: int| 0 <= i < k ==> a[i] == b[i],
    ensures
        audio_stream(a, k) == audio_stream(b, k),
    decreases k,
{
    if k > 0 {
        lemma_audio_stream_prefix(a, b, (k - 1) as nat);
    }
}

/// The audio stream lists chunk ids below `k` in strictly ascending order, so no chunk
/// appears twice and none appears out of order.
pub proof fn lemma_audio_stream_ascending(outcomes: Seq<Option<TaskOutcome>>, k: nat)
    requires
        k <= outcomes.len(),
        k <= usize::MAX,
    ensures
        forall|j: int|
            0 <= j < audio_stream(outcomes, k).len() ==> (#[trigger] audio_stream(outcomes, k)[j]).0
                < k,
        forall|i: int, j: int|
            0 <= i < j < audio_stream(outcomes, k).len() ==> (#[trigger] audio_stream(
                outcomes,
                k,
            )[i]).0 < (#[trigger] audio_stream(outcomes, k)[j]).0,
    decreases k,
{
    if k > 0 {
        lemma_audio_stream_ascending(outcomes, (k - 1) as nat);
        let prev = audio_stream(outcomes, (k - 1) as nat);
        let cur = audio_stream(outcomes, k);
        assert forall|j: int| 0 <= j < prev.len() implies (#[trigger] prev[j]).0 < k - 1 by {}
        assert forall|i: int, j: int| 0 <= i < j < cur.len() implies (#[trigger] cur[i]).0 < (
        #[trigger] cur[j]).0 by {
            assert(cur[i] == prev[i]);
            if j < prev.len() {
                assert(cur[j] == prev[j]);
            } else {
                assert(cur[j].0 == k - 1);
            }
        }
    }
}

impl Released {
    pub open spec fn id(self) -> usize {
        match self {
            Released::Chunk(id) => id,
            Released::Skipped(id) => id,
            Released::Marker(id) => id,
        }
    }
}

/// Runs inference for chunks `0..total` on a pool of workers with at most one task in
/// flight per worker, and releases results strictly in chunk order, whatever the order
/// in which tasks complete. A task is in flight from its dispatch until its result
/// is released.
pub struct OrderedScheduler {
    total: usize,
    window: usize,
    next_dispatch: usize,
    next_emit: usize,
    ended: bool,
    stopped: bool,
    results: Vec<Option<TaskOutcome>>,
    released: Ghost<Seq<Released>>,
    accepted: Ghost<Seq<Option<TaskOutcome>>>,
    sent: Ghost<Seq<(usize, Vec<u8>)>>,
}

/// The audio that a stream of chunks `0..k` carries, given the outcome of each task:
/// the id and audio of every chunk whose task produced audio, in ascending id; a failed
/// chunk adds nothing.
pub open spec fn audio_stream(outcomes: Seq<Option<TaskOutcome>>, k: nat) -> Seq<(usize, Vec<u8>)>
    decreases k,
{
    if k == 0 {
        seq![]
    } else {
        match outcomes[k - 1] {
            Some(TaskOutcome::Audio(pcm)) => audio_stream(outcomes, (k - 1) as nat).push(
                ((k - 1) as usize, pcm),
            ),
            _ => audio_stream(outcomes, (k - 1) as nat),
        }
    }
}

impl OrderedScheduler {
    /// The number of chunks.
    pub closed spec fn total(&self) -> nat {
        self.total as nat
    }

    /// The number of workers, which is also the most tasks in flight at once.
    pub closed spec fn window(&self) -> nat {
        self.window as nat
    }

    /// Chunks `0..dispatched()` have been handed to a worker.
    pub closed spec fn dispatched(&self) -> nat {
        self.next_dispatch as nat
    }

    /// Chunks `0..emitted()` have been released, as audio or as skipped.
    pub closed spec fn emitted(&self) -> nat {
        self.next_emit as nat
    }

    /// The end-of-stream marker has been released.
    /// The consumer went away: nothing more is dispatched or released.
    pub closed spec fn stopped(&self) -> bool {
        self.stopped
    }

    pub closed spec fn ended(&self) -> bool {
        self.ended
    }

    /// The outcome held for chunk `id`, once its task completed and until its release.
    pub closed spec fn completed(&self, id: int) -> Option<TaskOutcome> {
        if 0 <= id < self.results@.len() {
            self.results@[id]
        } else {
            None
        }
    }

    /// Everything released so far, in order.
    pub closed spec fn released(&self) -> Seq<Released> {
        self.released@
    }

    /// The outcome accepted for each chunk, kept after its release.
    pub closed spec fn accepted(&self) -> Seq<Option<TaskOutcome>> {
        self.accepted@
    }

    /// The (id, audio) pairs handed to the transport so far, in order.
    pub closed spec fn sent(&self) -> Seq<(usize, Vec<u8>)> {
        self.sent@
    }

    pub closed spec fn wf(&self) -> bool {
        &&& self.window >= 1
        &&& self.total >= 1
        &&& self.next_emit <= self.next_dispatch <= self.total
        &&& self.next_dispatch - self.next_emit <= self.window
        &&& self.results@.len() == self.total
        &&& forall|id: int|
            0 <= id < self.total && (#[trigger] self.results@[id]) is Some ==> self.next_emit <= id
                < self.next_dispatch
        &&& self.ended ==> self.next_emit == self.total
        &&& self.released@.len() == self.next_emit + if self.ended {
            1int
        } else {
            0int
        }
        &&& forall|i: int|
            0 <= i < self.next_emit ==> (#[trigger] self.released@[i] == Released::Chunk(
                i as usize,
            ) || self.released@[i] == Released::Skipped(i as usize))
        &&& self.ended ==> self.released@[self.next_emit as int] == Released::Marker(self.total)
        &&& self.accepted@.len() == self.total
        &&& forall|id: int|
            self.next_emit <= id < self.total ==> #[trigger] self.accepted@[id]
                == self.results@[id]
        &&& forall|id: int|
            0 <= id < self.next_emit ==> (#[trigger] self.accepted@[id]) is Some && (
            self.released@[id] == Released::Chunk(id as usize) <==> self.accepted@[id] matches Some(
                TaskOutcome::Audio(_),
            ))
        &&& self.sent@ == audio_stream(self.accepted@, self.next_emit as nat)
    }

    /// A scheduler for `total_chunks` chunks on `worker_count` workers.
    pub fn new(total_chunks: usize, worker_count: usize) -> (r: Result<Self, ConfigError>)
        ensures
            worker_count == 0 ==> r == Err::<Self, ConfigError>(ConfigError::NoWorkers),
            worker_count > 0 && total_chunks == 0 ==> r == Err::<Self, ConfigError>(
                ConfigError::NoChunks,
            ),
            worker_count > 0 && total_chunks > 0 ==> r is Ok,
            r matches Ok(s) ==> {
                &&& s.wf()
                &&& s.total() == total_chunks
                &&& s.window() == worker_count
                &&& s.dispatched() == 0
                &&& s.emitted() == 0
                &&& !s.ended()
                &&& !s.stopped()
                &&& s.released() == Seq::<Released>::empty()
                &&& s.sent() == Seq::<(usize, Vec<u8>)>::empty()
                &&& s.accepted() == Seq::new(total_chunks as nat, |i: int| None::<TaskOutcome>)
                &&& forall|id: int| (#[trigger] s.completed(id)) is None
            },
    {
        if worker_count == 0 {
            return Err(ConfigError::NoWorkers);
        }
        if total_chunks == 0 {
            return Err(ConfigError::NoChunks);
        }
        let mut results: Vec<Option<TaskOutcome>> = Vec::new();
        for i in 0..total_chunks
            invariant
                results@.len() == i,
                forall|j: int| 0 <= j < i ==> (#[trigger] results@[j]) is None,
        {
            results.push(None);
        }
        Ok(OrderedScheduler {
            total: total_chunks,
            window: worker_count,
            next_dispatch: 0,
            next_emit: 0,
            ended: false,
            stopped: false,
            results,
            released: Ghost(Seq::empty()),
            accepted: Ghost(results@),
            sent: Ghost(Seq::empty()),
        })
    }

    /// Results leave strictly in chunk order: the entry at position `i` of the stream
    /// is chunk `i` (as audio or as a skip), so ids rise along the stream, whatever the
    /// window size and the order of completion.
    pub proof fn lemma_release_order(&self)
        requires
            self.wf(),
        ensures
            forall|i: int| 0 <= i < self.emitted() ==> (#[trigger] self.released()[i]).id() == i,
            forall|i: int, j: int|
                0 <= i < j < self.released().len() ==> (#[trigger] self.released()[i]).id() < (
                #[trigger] self.released()[j]).id(),
    {
        assert forall|i: int| 0 <= i < self.emitted() implies (
        #[trigger] self.released()[i]).id() == i by {
            assert(self.released@[i] == Released::Chunk(i as usize) || self.released@[i]
                == Released::Skipped(i as usize));
        }
        assert forall|i: int, j: int| 0 <= i < j < self.released().len() implies (
        #[trigger] self.released()[i]).id() < (#[trigger] self.released()[j]).id() by {
            assert(self.released@[i] == Released::Chunk(i as usize) || self.released@[i]
                == Released::Skipped(i as usize));
            if j < self.next_emit {
                assert(self.released@[j] == Released::Chunk(j as usize) || self.released@[j]
                    == Released::Skipped(j as usize));
            }
        }
    }

    /// Whatever the number of workers and the order in which tasks complete, the
    /// transport has been handed exactly the audio of the released chunks whose task
    /// produced audio, each once, in ascending id, with the bytes the task returned; a
    /// failed chunk adds nothing and does not stop the stream. Once the marker is out,
    /// every chunk has its outcome and the whole stream is covered.
    pub proof fn lemma_stream_contents(&self)
        requires
            self.wf(),
        ensures
            self.sent() == audio_stream(self.accepted(), self.emitted()),
            forall|i: int| 0 <= i < self.emitted() ==> (#[trigger] self.accepted()[i]) is Some,
            self.ended() ==> self.sent() == audio_stream(self.accepted(), self.total()),
    {
    }

    /// At no point are more tasks in flight than there are workers.
    pub proof fn lemma_window_bound(&self)
        requires
            self.wf(),
        ensures
            self.emitted() <= self.dispatched() <= self.total(),
            self.dispatched() - self.emitted() <= self.window(),
    {
    }

    /// The stream holds an end-of-stream marker only once it has ended, and then exactly
    /// one: the last entry, tagged with the chunk count, after every chunk.
    pub proof fn lemma_single_marker(&self)
        requires
            self.wf(),
        ensures
            forall|i: int|
                0 <= i < self.emitted() ==> !(#[trigger] self.released()[i] is Marker),
            !self.ended() ==> self.released().len() == self.emitted(),
            self.ended() ==> {
                &&& self.emitted() == self.total()
                &&& self.released().len() == self.total() + 1
                &&& self.released().last() == Released::Marker(self.total() as usize)
            },
    {
        assert forall|i: int| 0 <= i < self.emitted() implies !(
        #[trigger] self.released()[i] is Marker) by {
            assert(self.released@[i] == Released::Chunk(i as usize) || self.released@[i]
                == Released::Skipped(i as usize));
        }
    }

    pub fn total_chunks(&self) -> (r: usize)
        ensures
            r == self.total(),
    {
        self.total
    }

    pub fn window_size(&self) -> (r: usize)
        ensures
            r == self.window(),
    {
        self.window
    }

    /// Records that the task of chunk `id` completed with `outcome`. Accepted only for a
    /// chunk in flight whose outcome is not yet held; otherwise nothing changes.
    pub fn on_complete(&mut self, id: usize, outcome: TaskOutcome) -> (accepted: bool)
        requires
            old(self).wf(),
        ensures
            final(self).wf(),
            accepted == (old(self).emitted() <= id < old(self).dispatched() && old(
                self,
            ).completed(id as int) is None),
            accepted ==> final(self).completed(id as int) == Some(outcome),
            forall|j: int| j != id ==> final(self).completed(j) == old(self).completed(j),
            !accepted ==> final(self).completed(id as int) == old(self).completed(id as int),
            final(self).total() == old(self).total(),
            final(self).window() == old(self).window(),
            final(self).dispatched() == old(self).dispatched(),
            final(self).emitted() == old(self).emitted(),
            final(self).ended() == old(self).ended(),
            final(self).stopped() == old(self).stopped(),
            final(self).released() == old(self).released(),
            final(self).sent() == old(self).sent(),
            accepted ==> final(self).accepted() == old(self).accepted().update(
                id as int,
                Some(outcome),
            ),
            !accepted ==> final(self).accepted() == old(self).accepted(),
    {
        if id < self.next_emit || id >= self.next_dispatch {
            return false;
        }
        if self.results[id].is_some() {
            return false;
        }
        proof {
            let before = self.accepted@;
            self.accepted@ = self.accepted@.update(id as int, Some(outcome));
            lemma_audio_stream_prefix(before, self.accepted@, self.next_emit as nat);
        }
        self.results.set(id, Some(outcome));
        true
    }

    /// Records that the consumer of the stream went away: in-flight tasks may finish,
    /// but nothing more is dispatched or released, and the loop is done.
    pub fn on_disconnect(&mut self)
        requires
            old(self).wf(),
        ensures
            final(self).wf(),
            final(self).stopped(),
            final(self).total() == old(self).total(),
            final(self).window() == old(self).window(),
            final(self).dispatched() == old(self).dispatched(),
            final(self).emitted() == old(self).emitted(),
            final(self).ended() == old(self).ended(),
            final(self).released() == old(self).released(),
            final(self).sent() == old(self).sent(),
            final(self).accepted() == old(self).accepted(),
            forall|j: int| #[trigger] final(self).completed(j) == old(self).completed(j),
    {
        self.stopped = true;
    }

    /// Decides the next step of the coordinator loop.
    ///
    /// In order of priority: nothing once the marker is out or the consumer went away;
    /// the marker once every chunk
    /// is out; a dispatch while chunks are left and the window has room; the release of
    /// the next chunk in order once its outcome is held, as audio or, for a failed task,
    /// as a skip that sends nothing; otherwise a wait.
    pub fn next_action(&mut self) -> (a: Action)
        requires
            old(self).wf(),
        ensures
            final(self).wf(),
            final(self).total() == old(self).total(),
            final(self).window() == old(self).window(),
            final(self).accepted() == old(self).accepted(),
            final(self).sent() == match a {
                Action::Emit { id, pcm } => old(self).sent().push((id, pcm)),
                _ => old(self).sent(),
            },
            final(self).stopped() == old(self).stopped(),
            old(self).ended() || old(self).stopped() ==> a is Done,
            !old(self).stopped() && !old(self).ended() && old(self).emitted() == old(self).total()
                ==> a is Finish,
            !old(self).stopped() && !old(self).ended() && old(self).emitted() < old(self).total()
                && old(self).dispatched()
                < old(self).total() && old(self).dispatched() - old(self).emitted() < old(
                self,
            ).window() ==> a is Dispatch,
            !old(self).stopped() && !old(self).ended() && old(self).emitted() < old(self).total()
                && !(old(
                self,
            ).dispatched() < old(self).total() && old(self).dispatched() - old(self).emitted()
                < old(self).window()) ==> match old(self).completed(old(self).emitted() as int) {
                Some(TaskOutcome::Audio(_)) => a is Emit,
                Some(TaskOutcome::Failed) => a is Skip,
                None => a is Wait,
            },
            match a {
                Action::Dispatch { id, worker } => {
                    &&& id == old(self).dispatched()
                    &&& worker as nat == (id as nat) % old(self).window()
                    &&& final(self).dispatched() == old(self).dispatched() + 1
                    &&& final(self).emitted() == old(self).emitted()
                    &&& final(self).ended() == old(self).ended()
                    &&& final(self).released() == old(self).released()
                    &&& forall|j: int| #[trigger] final(self).completed(j) == old(self).completed(j)
                },
                Action::Emit { id, pcm } => {
                    &&& id == old(self).emitted()
                    &&& old(self).completed(id as int) == Some(TaskOutcome::Audio(pcm))
                    &&& final(self).emitted() == old(self).emitted() + 1
                    &&& final(self).dispatched() == old(self).dispatched()
                    &&& final(self).ended() == old(self).ended()
                    &&& final(self).released() == old(self).released().push(Released::Chunk(id))
                    &&& final(self).completed(id as int) is None
                    &&& forall|j: int|
                        j != id ==> #[trigger] final(self).completed(j) == old(self).completed(j)
                },
                Action::Skip { id } => {
                    &&& id == old(self).emitted()
                    &&& old(self).completed(id as int) == Some(TaskOutcome::Failed)
                    &&& final(self).emitted() == old(self).emitted() + 1
                    &&& final(self).dispatched() == old(self).dispatched()
                    &&& final(self).ended() == old(self).ended()
                    &&& final(self).released() == old(self).released().push(Released::Skipped(id))
                    &&& final(self).completed(id as int) is None
                    &&& forall|j: int|
                        j != id ==> #[trigger] final(self).completed(j) == old(self).completed(j)
                },
                Action::Finish { id } => {
                    &&& id == old(self).total()
                    &&& final(self).ended()
                    &&& final(self).emitted() == old(self).emitted()
                    &&& final(self).dispatched() == old(self).dispatched()
                    &&& final(self).released() == old(self).released().push(Released::Marker(id))
                    &&& forall|j: int| #[trigger] final(self).completed(j) == old(self).completed(j)
                },
                _ => *final(self) == *old(self),
            },
    {
        if self.ended || self.stopped {
            return Action::Done;
        }
        if self.next_emit == self.total {
            self.ended = true;
            self.released = Ghost(self.released@.push(Released::Marker(self.total)));
            return Action::Finish { id: self.total };
        }
        if self.next_dispatch < self.total && self.next_dispatch - self.next_emit < self.window {
            let id = self.next_dispatch;
            self.next_dispatch = self.next_dispatch + 1;
            return Action::Dispatch { id, worker: id % self.window };
        }
        let id = self.next_emit;
        if self.results[id].is_none() {
            return Action::Wait;
        }
        let mut slot: Option<TaskOutcome> = None;
        self.results.set_and_swap(id, &mut slot);
        match slot {
            Some(TaskOutcome::Audio(pcm)) => {
                self.next_emit = id + 1;
                self.released = Ghost(self.released@.push(Released::Chunk(id)));
                self.sent = Ghost(self.sent@.push((id, pcm)));
                Action::Emit { id, pcm }
            },
            Some(TaskOutcome::Failed) => {
                self.next_emit = id + 1;
                self.released = Ghost(self.released@.push(Released::Skipped(id)));
                Action::Skip { id }
            },
            None => Action::Wait,
        }
    }
}

} // verus!
