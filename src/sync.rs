use vstd::prelude::*;

verus! {

/// The settings of one synchronisation run.
#[derive(Debug, Clone)]
pub struct CmdSync {
    /// The link to synchronise; without one, the link of the current folder.
    pub name: Option<String>,
    /// The number of workers that run work units.
    pub thread_count: usize,
    /// The largest number of paths in one provider call, if any.
    pub batch_size: Option<usize>,
}

impl CmdSync {
    pub fn new(name: &str) -> (r: CmdSync)
        ensures
            r.name matches Some(n) && n@ == name@,
            r.thread_count == 4,
            r.batch_size is None,
    {
        CmdSync { name: Some(name.to_owned()), thread_count: 4, batch_size: None }
    }
}

/// The stages of one run.
#[derive(PartialEq, Eq, Structural, Debug, Hash, Clone, Copy)]
pub enum SyncPhase {
    LoadLedger,
    SnapshotBoth,
    Reconcile,
    ResolveConflicts,
    Execute,
    UpdateLedger,
    Done,
    Failed,
}

/// How the work of a stage ended.
#[derive(PartialEq, Eq, Structural, Debug, Hash, Clone, Copy)]
pub enum PhaseEvent {
    /// The stage did its work.
    Finished,
    /// The stage waits for decisions (conflicts without a disposition).
    Pending,
    /// The stage met an error that ends the run.
    Fatal,
}

pub open spec fn phase_after(p: SyncPhase, e: PhaseEvent) -> SyncPhase {
    match p {
        SyncPhase::Done => SyncPhase::Done,
        SyncPhase::Failed => SyncPhase::Failed,
        // the ledger is brought up to date whenever execution was entered
        SyncPhase::Execute => SyncPhase::UpdateLedger,
        _ => match e {
            PhaseEvent::Fatal => SyncPhase::Failed,
            PhaseEvent::Pending => p,
            PhaseEvent::Finished => match p {
                SyncPhase::LoadLedger => SyncPhase::SnapshotBoth,
                SyncPhase::SnapshotBoth => SyncPhase::Reconcile,
                SyncPhase::Reconcile => SyncPhase::ResolveConflicts,
                SyncPhase::ResolveConflicts => SyncPhase::Execute,
                _ => SyncPhase::Done,
            },
        },
    }
}

impl SyncPhase {
    /// The stage that follows this one after `e`.
    pub fn next(self, e: PhaseEvent) -> (r: SyncPhase)
        ensures
            r == phase_after(self, e),
    {
        match self {
            SyncPhase::Done => SyncPhase::Done,
            SyncPhase::Failed => SyncPhase::Failed,
            SyncPhase::Execute => SyncPhase::UpdateLedger,
            _ => match e {
                PhaseEvent::Fatal => SyncPhase::Failed,
                PhaseEvent::Pending => self,
                PhaseEvent::Finished => match self {
                    SyncPhase::LoadLedger => SyncPhase::SnapshotBoth,
                    SyncPhase::SnapshotBoth => SyncPhase::Reconcile,
                    SyncPhase::Reconcile => SyncPhase::ResolveConflicts,
                    SyncPhase::ResolveConflicts => SyncPhase::Execute,
                    _ => SyncPhase::Done,
                },
            },
        }
    }

    /// The run is over.
    pub fn is_terminal(&self) -> (r: bool)
        ensures
            r == (*self == SyncPhase::Done || *self == SyncPhase::Failed),
    {
        match self {
            SyncPhase::Done | SyncPhase::Failed => true,
            _ => false,
        }
    }
}

/// The next frame of the waiting indicator.
pub fn next_spinner(c: char) -> (r: char)
    ensures
        r == (if c == '|' {
            '/'
        } else if c == '/' {
            '-'
        } else if c == '-' {
            '\\'
        } else {
            '|'
        }),
{
    if c == '|' {
        '/'
    } else if c == '/' {
        '-'
    } else if c == '-' {
        '\\'
    } else {
        '|'
    }
}

} // verus!
