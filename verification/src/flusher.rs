//! The decisions of the background flusher of a file writer: which tasks a
//! flush request turns into, when the flusher stops, and in which order a
//! task takes its steps.
use vstd::prelude::*;
use crate::err::StorageError;
use crate::file_writer::FlushKind;
use crate::slice_writer::{FlushReq, SliceHandle};

verus! {

/// One flush that the flusher runs on its own: plan the uploads of `kind`
/// for the slice writer `sw`, perform them and report each, mark the writer
/// as done if `mark_done` says so, and sweep the file writer.
#[derive(Debug, Clone, Copy, PartialEq, Eq, Structural)]
pub struct FlushTask {
    pub sw: SliceHandle,
    pub kind: FlushKind,
    pub mark_done: bool,
}

/// What the flusher waits for.
#[derive(Debug)]
pub enum FlusherEvent {
    /// The file writer is gone.
    Cancelled,
    /// A flush request arrived.
    Received(FlushReq),
    /// The request channel is closed.
    Closed,
}

/// What the flusher does next.
#[derive(Debug)]
pub enum FlusherStep {
    /// Stop. Tasks that run already are left to finish.
    Exit,
    /// Keep waiting.
    Wait,
    /// Start these tasks, each on its own, and keep waiting. When `manual`
    /// is set, the tasks serve a manual flush: once all of them are over,
    /// the file writer is told that its manual flush was served.
    Run { tasks: Vec<FlushTask>, manual: bool },
}

/// The task that serves a full flush of `sw`.
pub open spec fn full_task(sw: SliceHandle) -> FlushTask {
    FlushTask { sw, kind: FlushKind::Full, mark_done: true }
}

/// The tasks that serve the request `req`: a bulk flush leaves its writer
/// writable; a full flush and every flush of a manual request end with the
/// writer marked as done.
pub open spec fn tasks_of(req: FlushReq) -> Seq<FlushTask> {
    match req {
        FlushReq::FlushBulk { sw, offset } => seq![
            FlushTask { sw, kind: FlushKind::Bulk { offset }, mark_done: false },
        ],
        FlushReq::FlushFull(sw) => seq![full_task(sw)],
        FlushReq::ManualFlush { sws } => Seq::new(sws@.len(), |i: int| full_task(sws@[i])),
    }
}

/// The flusher.
pub struct FileWriterFlusher {}

impl FileWriterFlusher {
    /// Decides what the flusher does when `event` happens.
    pub fn run(event: FlusherEvent) -> (step: FlusherStep)
        ensures
            match event {
                FlusherEvent::Cancelled => step is Exit,
                FlusherEvent::Closed => step is Wait,
                FlusherEvent::Received(req) => step matches FlusherStep::Run { tasks, manual }
                    && tasks@ == tasks_of(req) && manual == (req is ManualFlush),
            },
    {
        match event {
            FlusherEvent::Cancelled => FlusherStep::Exit,
            FlusherEvent::Closed => FlusherStep::Wait,
            FlusherEvent::Received(req) => {
                let mut tasks: Vec<FlushTask> = Vec::new();
                match req {
                    FlushReq::FlushBulk { sw, offset } => {
                        tasks.push(
                            FlushTask { sw, kind: FlushKind::Bulk { offset }, mark_done: false },
                        );
                        proof {
                            assert(tasks@ =~= tasks_of(req));
                        }
                        FlusherStep::Run { tasks, manual: false }
                    },
                    FlushReq::FlushFull(sw) => {
                        tasks.push(FlushTask { sw, kind: FlushKind::Full, mark_done: true });
                        proof {
                            assert(tasks@ =~= tasks_of(req));
                        }
                        FlusherStep::Run { tasks, manual: false }
                    },
                    FlushReq::ManualFlush { sws } => {
                        let mut i: usize = 0;
                        while i < sws.len()
                            invariant
                                i <= sws.len(),
                                tasks.len() == i,
                                forall|k: int| 0 <= k < i ==> #[trigger] tasks[k] == full_task(sws[k]),
                            decreases sws.len() - i,
                        {
                            tasks.push(
                                FlushTask { sw: sws[i], kind: FlushKind::Full, mark_done: true },
                            );
                            i = i + 1;
                        }
                        proof {
                            assert(tasks@ =~= tasks_of(req));
                        }
                        FlusherStep::Run { tasks, manual: true }
                    },
                }
            },
        }
    }
}

/// What happened last in a flush task.
#[derive(Debug, Clone, Copy, PartialEq, Eq, Structural)]
pub enum TaskEvent {
    /// The task was started.
    Started,
    /// The plan could not be made: the slice has no id yet.
    NeedsSliceId,
    /// The metadata engine gave the slice id `id`.
    SliceId { id: u64 },
    /// The plan was made: it has `blocks` uploads.
    Planned { blocks: usize },
    /// Upload `at` of the `blocks` uploads of the plan was made and
    /// reported to the file writer.
    Uploaded { at: usize, blocks: usize },
    /// An upload, or the fetch of the slice id, failed with `error`.
    Failed { error: StorageError },
    /// The failure was reported to the file writer.
    Reported,
    /// The slice writer was marked as done.
    Marked,
    /// The file writer was swept.
    Swept,
}

/// What a flush task does next.
#[derive(Debug, Clone, Copy, PartialEq, Eq, Structural)]
pub enum TaskStep {
    /// Plan the uploads, and offer the slice the id `candidate`, if one is
    /// given.
    Plan { candidate: Option<u64> },
    /// Ask the metadata engine for a slice id.
    FetchSliceId,
    /// Make upload `at` of the plan and report it to the file writer.
    Upload { at: usize },
    /// Report the failure `error` to the file writer.
    Report { error: StorageError },
    /// Mark the slice writer as done.
    MarkDone,
    /// Sweep the file writer.
    Sweep,
    /// The task is over.
    Finish,
}

/// What the task `task` does once its uploads are over, for better or for
/// worse: it marks its writer as done if it is to do so, and sweeps.
pub open spec fn after_uploads(task: FlushTask) -> TaskStep {
    if task.mark_done {
        TaskStep::MarkDone
    } else {
        TaskStep::Sweep
    }
}

/// The step of the task `task` that follows `event`.
///
/// A task plans first, with a slice id from the metadata engine if the
/// slice has none; makes the uploads of the plan in their order and reports
/// each; on the first failure reports that and makes no more uploads; then
/// marks its writer as done, if the task is to do so; sweeps the file
/// writer; and is over.
pub open spec fn step_after(task: FlushTask, event: TaskEvent) -> TaskStep {
    match event {
        TaskEvent::Started => TaskStep::Plan { candidate: None },
        TaskEvent::NeedsSliceId => TaskStep::FetchSliceId,
        TaskEvent::SliceId { id } => TaskStep::Plan { candidate: Some(id) },
        TaskEvent::Planned { blocks } => if blocks > 0 {
            TaskStep::Upload { at: 0 }
        } else {
            after_uploads(task)
        },
        TaskEvent::Uploaded { at, blocks } => if at + 1 < blocks {
            TaskStep::Upload { at: (at + 1) as usize }
        } else {
            after_uploads(task)
        },
        TaskEvent::Failed { error } => TaskStep::Report { error },
        TaskEvent::Reported => after_uploads(task),
        TaskEvent::Marked => TaskStep::Sweep,
        TaskEvent::Swept => TaskStep::Finish,
    }
}

/// Decides what the flush task `task` does after `event`.
pub fn next_task_step(task: FlushTask, event: TaskEvent) -> (step: TaskStep)
    ensures
        step == step_after(task, event),
{
    let rest = if task.mark_done {
        TaskStep::MarkDone
    } else {
        TaskStep::Sweep
    };
    match event {
        TaskEvent::Started => TaskStep::Plan { candidate: None },
        TaskEvent::NeedsSliceId => TaskStep::FetchSliceId,
        TaskEvent::SliceId { id } => TaskStep::Plan { candidate: Some(id) },
        TaskEvent::Planned { blocks } => if blocks > 0 {
            TaskStep::Upload { at: 0 }
        } else {
            rest
        },
        TaskEvent::Uploaded { at, blocks } => if at < blocks && at + 1 < blocks {
            TaskStep::Upload { at: at + 1 }
        } else {
            rest
        },
        TaskEvent::Failed { error } => TaskStep::Report { error },
        TaskEvent::Reported => rest,
        TaskEvent::Marked => TaskStep::Sweep,
        TaskEvent::Swept => TaskStep::Finish,
    }
}

} // verus!
