//! Serialises print jobs: a FIFO backlog and one job in flight at a time.
//!
//! An image that arrives for a job which has already been dispatched is
//! dropped: the job has printed (or failed) without it.
use vstd::prelude::*;
use crate::markdown::ReceiptBlock;

verus! {

/// One print request: its id, its blocks, and its image once that has arrived.
#[derive(Debug, Clone)]
pub struct PrintJob {
    pub id: i64,
    pub blocks: Vec<ReceiptBlock>,
    pub image: Option<Vec<u8>>,
}

/// What the scheduler decided.
#[derive(Debug)]
pub enum Dispatch {
    /// Nothing to start: a job is in flight, or the backlog is empty.
    Idle,
    /// Start printing this job; it is now the one in flight.
    Start(PrintJob),
    /// The job with this id fails at once: no printer is selected.
    NoPrinter(i64),
}

/// The backlog and the in-flight flag.
#[derive(Debug)]
pub struct PrintScheduler {
    pub queue: Vec<PrintJob>,
    pub printing: bool,
}

/// The scheduler as the ids of its backlog and the in-flight flag.
pub struct SchedView {
    pub queue: Seq<i64>,
    pub printing: bool,
}

pub open spec fn job_ids(q: Seq<PrintJob>) -> Seq<i64> {
    q.map_values(|j: PrintJob| j.id)
}

impl View for PrintScheduler {
    type V = SchedView;

    open spec fn view(&self) -> SchedView {
        SchedView { queue: job_ids(self.queue@), printing: self.printing }
    }
}

pub open spec fn submit_spec(s: SchedView, id: i64) -> SchedView {
    SchedView { queue: s.queue.push(id), printing: s.printing }
}

pub open spec fn finish_spec(s: SchedView) -> SchedView {
    SchedView { queue: s.queue, printing: false }
}

/// A job starts only when none is in flight; without a printer it fails at once.
pub open spec fn dispatch_spec(s: SchedView, printer_available: bool) -> (SchedView, Option<i64>) {
    if s.printing || s.queue.len() == 0 {
        (s, None)
    } else if !printer_available {
        (SchedView { queue: s.queue.drop_first(), printing: false }, None)
    } else {
        (SchedView { queue: s.queue.drop_first(), printing: true }, Some(s.queue[0]))
    }
}

impl PrintScheduler {
    pub fn new() -> (r: PrintScheduler)
        ensures
            r.queue@.len() == 0,
            !r.printing,
    {
        PrintScheduler { queue: Vec::new(), printing: false }
    }

    /// Adds a job at the back of the backlog.
    pub fn submit(&mut self, job: PrintJob)
        ensures
            final(self).queue@ == old(self).queue@.push(job),
            final(self).printing == old(self).printing,
            final(self)@ == submit_spec(old(self)@, job.id),
    {
        self.queue.push(job);
        assert(job_ids(self.queue@) =~= job_ids(old(self).queue@).push(job.id));
    }

    /// The job in flight has completed, with success or failure.
    pub fn finish(&mut self)
        ensures
            final(self).queue@ == old(self).queue@,
            !final(self).printing,
            final(self)@ == finish_spec(old(self)@),
    {
        self.printing = false;
    }

    /// Starts the next job if none is in flight.
    pub fn try_dispatch(&mut self, printer_available: bool) -> (r: Dispatch)
        ensures
            (old(self).printing || old(self).queue@.len() == 0) ==> r is Idle && final(self).queue@
                == old(self).queue@ && final(self).printing == old(self).printing,
            (!old(self).printing && old(self).queue@.len() > 0 && printer_available) ==> r
                == Dispatch::Start(old(self).queue@[0]) && final(self).queue@ == old(
                self,
            ).queue@.drop_first() && final(self).printing,
            (!old(self).printing && old(self).queue@.len() > 0 && !printer_available) ==> r
                == Dispatch::NoPrinter(old(self).queue@[0].id) && final(self).queue@ == old(
                self,
            ).queue@.drop_first() && !final(self).printing,
            final(self)@ == dispatch_spec(old(self)@, printer_available).0,
    {
        if self.printing || self.queue.len() == 0 {
            return Dispatch::Idle;
        }
        let job = self.queue.remove(0);
        assert(job_ids(self.queue@) =~= job_ids(old(self).queue@).drop_first());
        if !printer_available {
            return Dispatch::NoPrinter(job.id);
        }
        self.printing = true;
        Dispatch::Start(job)
    }

    /// Attaches a late image to the queued job with this id; returns whether
    /// such a job was still waiting (otherwise the image is dropped).
    pub fn attach_image(&mut self, id: i64, bytes: Vec<u8>) -> (r: bool)
        ensures
            r == exists|k: int| 0 <= k < old(self).queue@.len() && (#[trigger] old(self).queue@[k]).id == id,
            !r ==> final(self).queue@ == old(self).queue@,
            r ==> exists|k: int|
                0 <= k < old(self).queue@.len() && (#[trigger] old(self).queue@[k]).id == id
                    && final(self).queue@ == old(self).queue@.update(
                    k,
                    PrintJob {
                        id,
                        blocks: old(self).queue@[k].blocks,
                        image: Some(bytes),
                    },
                ),
            final(self)@ == old(self)@,
    {
        let mut i: usize = 0;
        while i < self.queue.len()
            invariant
                i <= self.queue@.len(),
                self.queue@ == old(self).queue@,
                self.printing == old(self).printing,
                forall|k: int| 0 <= k < i ==> (#[trigger] self.queue@[k]).id != id,
            decreases self.queue.len() - i,
        {
            if self.queue[i].id == id {
                let mut job = self.queue.remove(i);
                let ghost taken = job;
                job.image = Some(bytes);
                self.queue.insert(i, job);
                assert(job == PrintJob { id, blocks: taken.blocks, image: Some(bytes) });
                assert(self.queue@ =~= old(self).queue@.update(i as int, job));
                assert(job_ids(self.queue@) =~= job_ids(old(self).queue@));
                return true;
            }
            i = i + 1;
        }
        false
    }
}

/// `k` rounds of: the job in flight completes, then the next one is dispatched
/// with a printer available. The ids of the jobs started, in order.
pub open spec fn serve(s: SchedView, k: nat) -> Seq<i64>
    decreases k,
{
    if k == 0 {
        Seq::empty()
    } else {
        let (s1, started) = dispatch_spec(finish_spec(s), true);
        match started {
            Some(id) => seq![id] + serve(s1, (k - 1) as nat),
            None => serve(s1, (k - 1) as nat),
        }
    }
}

proof fn lemma_serve_backlog(s: SchedView)
    requires
        s.printing,
    ensures
        serve(s, s.queue.len()) == s.queue,
    decreases s.queue.len(),
{
    if s.queue.len() > 0 {
        let s1 = SchedView { queue: s.queue.drop_first(), printing: true };
        lemma_serve_backlog(s1);
        assert(seq![s.queue[0]] + s.queue.drop_first() =~= s.queue);
    } else {
        assert(s.queue =~= Seq::<i64>::empty());
    }
}

/// Jobs submitted while one is in flight start one at a time, each only after
/// the previous one completed, in the order they were submitted.
pub proof fn lemma_fifo_while_busy(s: SchedView, a: i64, b: i64, c: i64)
    requires
        s.printing,
    ensures
        serve(submit_spec(submit_spec(submit_spec(s, a), b), c), s.queue.len() + 3) == s.queue
            + seq![a, b, c],
{
    let t = submit_spec(submit_spec(submit_spec(s, a), b), c);
    assert(t.queue =~= s.queue + seq![a, b, c]);
    lemma_serve_backlog(t);
}

} // verus!
