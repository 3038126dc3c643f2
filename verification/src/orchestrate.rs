//! The download orchestrator and its per-message tasks.
//!
//! The orchestrator walks the channel's message history: a message with
//! at least one attachment spawns one download task, a message without
//! attachments spawns nothing.  Each task walks its attachments one at
//! a time and records an outcome for every one of them — a failed
//! attachment is skipped, never aborts the task.  The run may report
//! completion only when the history is exhausted and every spawned task
//! has handed its report back.
//!
//! The shell drives these state machines: it performs the page fetches,
//! the HTTP retrievals and the file writes they decide on, and hands
//! the results back as events.

use vstd::prelude::*;
use crate::model::{
    Attachment, Message, DownloadTask, AttachmentOutcome, TaskReport, DownloadSummary, qualifies,
};
use crate::dedup::{Deduplicator, assigned_path};
use crate::names::{derived_name, output_name};

verus! {

/// Chooses the destination path for one fetched attachment: the
/// `{id}_{filename}` base name, disambiguated against every path
/// already spoken for in this run.  The chosen path never collides
/// with one chosen earlier or with a seeded pre-existing file.
pub fn destination_for(paths: &mut Deduplicator, id: u64, filename: &Vec<u8>) -> (p: Vec<u8>)
    ensures
        p@ == assigned_path(old(paths).taken_set(), derived_name(id as nat, filename@)),
        !old(paths).taken_set().contains(p@),
        final(paths).taken_set() == old(paths).taken_set().insert(p@),
{
    let base = output_name(id, filename);
    paths.assign(&base)
}

/// The task a qualifying message spawns: all its attachments, bound to
/// its identifier.
pub open spec fn task_of(m: Message) -> DownloadTask {
    DownloadTask { message_id: m.id, attachments: m.attachments }
}

/// The tasks a message sequence spawns, in order: one per message with
/// a non-empty attachment list, none for the rest.
pub open spec fn spawn_plan(msgs: Seq<Message>) -> Seq<DownloadTask>
    decreases msgs.len(),
{
    if msgs.len() == 0 {
        Seq::empty()
    } else if qualifies(msgs.last()) {
        spawn_plan(msgs.drop_last()).push(task_of(msgs.last()))
    } else {
        spawn_plan(msgs.drop_last())
    }
}

/// The messages of a channel that carry at least one attachment, in
/// order.
pub open spec fn qualifying(msgs: Seq<Message>) -> Seq<Message> {
    msgs.filter(|m: Message| qualifies(m))
}

/// Each message carried to the task it spawns.
pub open spec fn tasks_of(msgs: Seq<Message>) -> Seq<DownloadTask> {
    msgs.map_values(|m: Message| task_of(m))
}

/// The spawn plan is exactly the qualifying messages, in order, each
/// carried to its task: one task per attachment-bearing message, with
/// precisely that message's attachments, and nothing else.
pub proof fn lemma_spawn_plan_exact(msgs: Seq<Message>)
    ensures
        spawn_plan(msgs) == tasks_of(qualifying(msgs)),
    decreases msgs.len(),
{
    reveal(Seq::filter);
    if msgs.len() > 0 {
        lemma_spawn_plan_exact(msgs.drop_last());
        let sub = qualifying(msgs.drop_last());
        if qualifies(msgs.last()) {
            assert(qualifying(msgs) == sub.push(msgs.last()));
            assert(tasks_of(sub.push(msgs.last())) =~= tasks_of(sub).push(task_of(msgs.last())));
        } else {
            assert(qualifying(msgs) == sub);
        }
        assert(spawn_plan(msgs) =~= tasks_of(qualifying(msgs)));
    }
}

/// A channel in which no message carries an attachment spawns no task
/// at all.
pub proof fn lemma_no_attachments_no_tasks(msgs: Seq<Message>)
    requires
        forall|i: int| 0 <= i < msgs.len() ==> !qualifies(#[trigger] msgs[i]),
    ensures
        spawn_plan(msgs).len() == 0,
    decreases msgs.len(),
{
    if msgs.len() > 0 {
        assert(!qualifies(msgs[msgs.len() - 1]));
        lemma_no_attachments_no_tasks(msgs.drop_last());
    }
}

/// How many of a run of outcomes were saved.
pub open spec fn saved_count(outcomes: Seq<AttachmentOutcome>) -> nat
    decreases outcomes.len(),
{
    if outcomes.len() == 0 {
        0
    } else {
        saved_count(outcomes.drop_last()) + if outcomes.last() is Saved {
            1nat
        } else {
            0nat
        }
    }
}

/// How many of a run of outcomes were skipped (fetch or write failed).
pub open spec fn failed_count(outcomes: Seq<AttachmentOutcome>) -> nat
    decreases outcomes.len(),
{
    if outcomes.len() == 0 {
        0
    } else {
        failed_count(outcomes.drop_last()) + if outcomes.last() is Saved {
            0nat
        } else {
            1nat
        }
    }
}

/// Every attachment of a task is accounted for: over any outcomes,
/// saves and skips add up to the number of attachments attempted, so a
/// failure on one never swallows the attempt on another.
pub proof fn lemma_outcomes_accounted(outcomes: Seq<AttachmentOutcome>)
    ensures
        saved_count(outcomes) + failed_count(outcomes) == outcomes.len(),
    decreases outcomes.len(),
{
    if outcomes.len() > 0 {
        lemma_outcomes_accounted(outcomes.drop_last());
    }
}

/// One task's walk over its message's attachments.
///
/// The shell fetches and writes; this machine decides which attachment
/// is next and tallies the outcomes.  It accepts exactly one outcome
/// per attachment, whatever each outcome is.
pub struct TaskRun {
    attachments: Vec<Attachment>,
    next: usize,
    saved: u64,
    failed: u64,
}

impl TaskRun {
    /// The attachments being walked, in message order.
    pub closed spec fn attachments(self) -> Seq<Attachment> {
        self.attachments@
    }

    /// How many attachments have an outcome so far.
    pub closed spec fn processed(self) -> int {
        self.next as int
    }

    pub closed spec fn saved(self) -> int {
        self.saved as int
    }

    pub closed spec fn failed(self) -> int {
        self.failed as int
    }

    /// Each attachment walked so far has exactly one outcome.
    pub open spec fn wf(self) -> bool {
        &&& self.saved() + self.failed() == self.processed()
        &&& self.processed() <= self.attachments().len()
        &&& self.attachments().len() <= usize::MAX
    }

    /// Starts the walk over a task's attachments.
    pub fn start(t: DownloadTask) -> (r: TaskRun)
        ensures
            r.wf(),
            r.attachments() == t.attachments@,
            r.processed() == 0,
            r.saved() == 0,
            r.failed() == 0,
    {
        proof {
            assert(t.attachments.len() == t.attachments@.len());
        }
        TaskRun { attachments: t.attachments, next: 0, saved: 0, failed: 0 }
    }

    /// Whether an attachment still awaits an outcome.
    pub fn pending(&self) -> (r: bool)
        ensures
            r == (self.processed() < self.attachments().len()),
    {
        self.next < self.attachments.len()
    }

    /// The identifier and original filename of the attachment to
    /// attempt next.
    pub fn current(&self) -> (r: (u64, Vec<u8>))
        requires
            self.processed() < self.attachments().len(),
        ensures
            r.0 == self.attachments()[self.processed()].id,
            r.1@ == self.attachments()[self.processed()].filename@,
    {
        let a = &self.attachments[self.next];
        let name = crate::names::copy_range(&a.filename, 0, a.filename.len());
        assert(name@ =~= a.filename@);
        (a.id, name)
    }

    /// Records the outcome of the attachment just attempted and moves
    /// to the next one — a failure is tallied and skipped, never aborts
    /// the walk.
    pub fn record(&mut self, outcome: AttachmentOutcome)
        requires
            old(self).wf(),
            old(self).processed() < old(self).attachments().len(),
        ensures
            final(self).wf(),
            final(self).attachments() == old(self).attachments(),
            final(self).processed() == old(self).processed() + 1,
            final(self).saved() == old(self).saved() + if outcome is Saved {
                1int
            } else {
                0int
            },
            final(self).failed() == old(self).failed() + if outcome is Saved {
                0int
            } else {
                1int
            },
    {
        match outcome {
            AttachmentOutcome::Saved => {
                self.saved = self.saved + 1;
            },
            AttachmentOutcome::FetchFailed => {
                self.failed = self.failed + 1;
            },
            AttachmentOutcome::WriteFailed => {
                self.failed = self.failed + 1;
            },
        }
        self.next = self.next + 1;
    }

    /// Ends the task.  A report is owed only when every attachment has
    /// an outcome, and it accounts for all of them.
    pub fn report(self) -> (r: TaskReport)
        requires
            self.wf(),
            self.processed() == self.attachments().len(),
        ensures
            r.saved == self.saved(),
            r.failed == self.failed(),
            r.saved + r.failed == self.attachments().len(),
    {
        TaskReport { saved: self.saved, failed: self.failed }
    }
}

/// Walks a task's attachments against a given run of outcomes.
///
/// This is the task's whole walk in one call, for a shell or a harness
/// that already knows how each fetch and write went: outcome `i`
/// belongs to attachment `i`.  Exactly one outcome per attachment is
/// consumed, and the report accounts for every attachment.
pub fn run_task(t: DownloadTask, outcomes: &Vec<AttachmentOutcome>) -> (r: TaskReport)
    requires
        outcomes@.len() == t.attachments@.len(),
    ensures
        r.saved == saved_count(outcomes@),
        r.failed == failed_count(outcomes@),
        r.saved + r.failed == t.attachments@.len(),
{
    let ghost n = t.attachments@.len();
    let mut run = TaskRun::start(t);
    let mut i: usize = 0;
    while i < outcomes.len()
        invariant
            run.wf(),
            i <= outcomes.len(),
            outcomes@.len() == run.attachments().len(),
            run.processed() == i,
            run.saved() == saved_count(outcomes@.take(i as int)),
            run.failed() == failed_count(outcomes@.take(i as int)),
        decreases outcomes.len() - i,
    {
        run.record(outcomes[i]);
        i = i + 1;
        assert(outcomes@.take(i as int).drop_last() =~= outcomes@.take(i as int - 1));
    }
    assert(outcomes@.take(outcomes@.len() as int) =~= outcomes@);
    run.report()
}

/// Total attachments saved over a run of task reports.
pub open spec fn reports_saved(rs: Seq<TaskReport>) -> int
    decreases rs.len(),
{
    if rs.len() == 0 {
        0
    } else {
        reports_saved(rs.drop_last()) + rs.last().saved
    }
}

/// Total attachments skipped over a run of task reports.
pub open spec fn reports_failed(rs: Seq<TaskReport>) -> int
    decreases rs.len(),
{
    if rs.len() == 0 {
        0
    } else {
        reports_failed(rs.drop_last()) + rs.last().failed
    }
}

/// The run's barrier state: how much was spawned, how much came back,
/// and whether the history walk is over.
pub struct Orchestrator {
    spawned: u64,
    finished: u64,
    history_done: bool,
    saved: u64,
    failed: u64,
    page_errors: u64,
    joined: Ghost<Seq<TaskReport>>,
}

impl Orchestrator {
    /// Tasks spawned so far.
    pub closed spec fn spawned(self) -> int {
        self.spawned as int
    }

    /// Task reports received so far.
    pub closed spec fn finished(self) -> int {
        self.finished as int
    }

    /// Whether the message history has been walked to its start.
    pub closed spec fn history_done(self) -> bool {
        self.history_done
    }

    pub closed spec fn saved(self) -> int {
        self.saved as int
    }

    pub closed spec fn failed(self) -> int {
        self.failed as int
    }

    pub closed spec fn page_errors(self) -> int {
        self.page_errors as int
    }

    /// The task reports joined so far, in join order.
    pub closed spec fn reports(self) -> Seq<TaskReport> {
        self.joined@
    }

    /// No more reports came back than tasks were spawned, and the
    /// tallies are exactly the aggregation of the joined reports.
    pub open spec fn wf(self) -> bool {
        &&& self.finished() <= self.spawned()
        &&& self.finished() == self.reports().len()
        &&& self.saved() == reports_saved(self.reports())
        &&& self.failed() == reports_failed(self.reports())
    }

    /// The completion barrier: the history is exhausted and every
    /// spawned task has handed its report back.
    pub open spec fn complete(self) -> bool {
        self.history_done() && self.finished() == self.spawned()
    }

    /// A fresh run: nothing spawned, nothing finished, history ahead.
    pub fn new() -> (r: Orchestrator)
        ensures
            r.wf(),
            r.spawned() == 0,
            r.finished() == 0,
            !r.history_done(),
            r.saved() == 0,
            r.failed() == 0,
            r.page_errors() == 0,
            r.reports() == Seq::<TaskReport>::empty(),
    {
        Orchestrator {
            spawned: 0,
            finished: 0,
            history_done: false,
            saved: 0,
            failed: 0,
            page_errors: 0,
            joined: Ghost(Seq::empty()),
        }
    }

    /// Decides on one message of the history walk: a message with
    /// attachments spawns its task, one without spawns nothing.
    pub fn observe(&mut self, m: Message) -> (t: Option<DownloadTask>)
        requires
            old(self).wf(),
            old(self).spawned() < u64::MAX,
        ensures
            final(self).wf(),
            qualifies(m) ==> t == Some(task_of(m)) && final(self).spawned() == old(self).spawned()
                + 1,
            !qualifies(m) ==> t is None && final(self).spawned() == old(self).spawned(),
            final(self).finished() == old(self).finished(),
            final(self).history_done() == old(self).history_done(),
            final(self).saved() == old(self).saved(),
            final(self).failed() == old(self).failed(),
            final(self).page_errors() == old(self).page_errors(),
            final(self).reports() == old(self).reports(),
    {
        if m.attachments.len() > 0 {
            self.spawned = self.spawned + 1;
            Some(DownloadTask { message_id: m.id, attachments: m.attachments })
        } else {
            None
        }
    }

    /// Records a failed page fetch: logged and skipped, the walk goes
    /// on.
    pub fn observe_page_error(&mut self)
        requires
            old(self).page_errors() < u64::MAX,
        ensures
            final(self).page_errors() == old(self).page_errors() + 1,
            final(self).spawned() == old(self).spawned(),
            final(self).finished() == old(self).finished(),
            final(self).history_done() == old(self).history_done(),
            final(self).saved() == old(self).saved(),
            final(self).failed() == old(self).failed(),
            final(self).reports() == old(self).reports(),
    {
        self.page_errors = self.page_errors + 1;
    }

    /// Records that the history walk reached the channel's start.
    pub fn history_exhausted(&mut self)
        ensures
            final(self).history_done(),
            final(self).spawned() == old(self).spawned(),
            final(self).finished() == old(self).finished(),
            final(self).saved() == old(self).saved(),
            final(self).failed() == old(self).failed(),
            final(self).page_errors() == old(self).page_errors(),
            final(self).reports() == old(self).reports(),
    {
        self.history_done = true;
    }

    /// Joins one task: its report is folded into the run's tallies.
    /// Only a spawned, still-outstanding task can be joined.
    pub fn task_finished(&mut self, report: TaskReport)
        requires
            old(self).wf(),
            old(self).finished() < old(self).spawned(),
            old(self).saved() + report.saved <= u64::MAX,
            old(self).failed() + report.failed <= u64::MAX,
        ensures
            final(self).wf(),
            final(self).finished() == old(self).finished() + 1,
            final(self).saved() == old(self).saved() + report.saved,
            final(self).failed() == old(self).failed() + report.failed,
            final(self).spawned() == old(self).spawned(),
            final(self).history_done() == old(self).history_done(),
            final(self).page_errors() == old(self).page_errors(),
            final(self).reports() == old(self).reports().push(report),
    {
        self.finished = self.finished + 1;
        self.saved = self.saved + report.saved;
        self.failed = self.failed + report.failed;
        proof {
            self.joined@ = self.joined@.push(report);
            assert(self.joined@.drop_last() =~= old(self).joined@);
        }
    }

    /// Tasks spawned so far.
    pub fn spawned_count(&self) -> (r: u64)
        ensures
            r as int == self.spawned(),
    {
        self.spawned
    }

    /// Task reports received so far.
    pub fn finished_count(&self) -> (r: u64)
        ensures
            r as int == self.finished(),
    {
        self.finished
    }

    /// Attachments saved so far.
    pub fn saved_so_far(&self) -> (r: u64)
        ensures
            r as int == self.saved(),
    {
        self.saved
    }

    /// Attachments skipped so far.
    pub fn failed_so_far(&self) -> (r: u64)
        ensures
            r as int == self.failed(),
    {
        self.failed
    }

    /// Failed page fetches so far.
    pub fn page_errors_so_far(&self) -> (r: u64)
        ensures
            r as int == self.page_errors(),
    {
        self.page_errors
    }

    /// Whether the run may report completion.
    pub fn is_complete(&self) -> (r: bool)
        ensures
            r == self.complete(),
    {
        self.history_done && self.finished == self.spawned
    }

    /// Ends the run.  A summary is owed only at the barrier: history
    /// exhausted and every spawned task joined.  Its tallies are the
    /// exact aggregation of the joined task reports.
    pub fn finish(self) -> (s: DownloadSummary)
        requires
            self.wf(),
            self.complete(),
        ensures
            s.tasks == self.spawned(),
            s.tasks == self.reports().len(),
            s.saved == self.saved(),
            s.saved == reports_saved(self.reports()),
            s.failed == self.failed(),
            s.failed == reports_failed(self.reports()),
            s.page_errors == self.page_errors(),
    {
        DownloadSummary {
            tasks: self.spawned,
            saved: self.saved,
            failed: self.failed,
            page_errors: self.page_errors,
        }
    }
}

/// Once completion is observed, no task is outstanding: a join (and so
/// a file write) can never follow the completion signal.
pub proof fn lemma_no_join_after_complete(o: Orchestrator)
    requires
        o.wf(),
        o.complete(),
    ensures
        !(o.finished() < o.spawned()),
{
}

/// Walks a whole message sequence: spawns one task per qualifying
/// message, in order, and nothing else.
pub fn plan_tasks(o: &mut Orchestrator, msgs: Vec<Message>) -> (ts: Vec<DownloadTask>)
    requires
        old(o).wf(),
        old(o).spawned() + msgs.len() <= u64::MAX,
    ensures
        final(o).wf(),
        ts@ == spawn_plan(msgs@),
        final(o).spawned() == old(o).spawned() + ts@.len(),
        final(o).finished() == old(o).finished(),
        final(o).history_done() == old(o).history_done(),
        final(o).saved() == old(o).saved(),
        final(o).failed() == old(o).failed(),
        final(o).page_errors() == old(o).page_errors(),
        final(o).reports() == old(o).reports(),
{
    let ghost all = msgs@;
    let mut msgs = msgs;
    let mut ts: Vec<DownloadTask> = Vec::new();
    let ghost done: int = 0;
    while msgs.len() > 0
        invariant
            o.wf(),
            0 <= done <= all.len(),
            msgs@ =~= all.subrange(done, all.len() as int),
            ts@ == spawn_plan(all.take(done)),
            o.spawned() == old(o).spawned() + ts@.len(),
            o.spawned() + msgs@.len() <= u64::MAX,
            o.finished() == old(o).finished(),
            o.history_done() == old(o).history_done(),
            o.saved() == old(o).saved(),
            o.failed() == old(o).failed(),
            o.page_errors() == old(o).page_errors(),
            o.reports() == old(o).reports(),
        decreases msgs@.len(),
    {
        let m = msgs.remove(0);
        assert(m == all[done]);
        match o.observe(m) {
            Some(t) => { ts.push(t) },
            None => {},
        }
        proof {
            done = done + 1;
            assert(all.take(done).drop_last() =~= all.take(done - 1));
            assert(all.take(done).last() == all[done - 1]);
            assert(msgs@ =~= all.subrange(done, all.len() as int));
        }
    }
    assert(all.take(all.len() as int) =~= all);
    ts
}

} // verus!
