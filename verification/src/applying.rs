//! Carrying out a plan, safely.
//!
//! Planning decides *what* should be renamed; this module decides what a run
//! reports and when it must refuse, so the safety rules live in one place for
//! every front-end. The front-end reads the filesystem and performs the renames.
//!
//! That safety rests on a two-phase model: the state of every source and
//! destination is recorded when a plan is prepared, and checked again
//! immediately before the renames run. If anything moved in between, nothing is
//! applied at all, so a stale preview can never rename the wrong file.

use vstd::prelude::*;

use crate::paths::{display, display_path, file_name, parent_path, path_parent, sanitized, final_component, stripped_path};
use crate::planning::{RenameOp, RenamePlan};
use crate::text::concat;

verus! {

/// The `(device, inode)` pair that tells two files apart on Unix.
#[derive(Clone, Copy, Debug, PartialEq, Eq, Structural)]
pub struct FileIdentity {
    pub device: u64,
    pub inode: u64,
}

/// A cheap fingerprint of a path, used to spot changes between two points in
/// time.
#[derive(Clone, Copy, Debug, PartialEq, Eq, Structural)]
pub struct FileState {
    pub exists: bool,
    pub is_file: bool,
    /// Where the platform has one.
    pub identity: Option<FileIdentity>,
    pub size: Option<u64>,
    /// Nanoseconds from the Unix epoch, negative before it.
    pub modified: Option<i128>,
}

impl FileState {
    /// The state of a path where nothing is.
    pub fn missing() -> (r: FileState)
        ensures
            r == (FileState { exists: false, is_file: false, identity: None, size: None, modified: None }),
    {
        FileState { exists: false, is_file: false, identity: None, size: None, modified: None }
    }

    /// The state of a path where something is.
    pub fn found(is_file: bool, identity: Option<FileIdentity>, size: u64, modified: Option<i128>) -> (r: FileState)
        ensures
            r == (FileState { exists: true, is_file, identity, size: Some(size), modified }),
    {
        FileState { exists: true, is_file, identity, size: Some(size), modified }
    }
}

/// A planned rename, plus the filesystem state observed when the plan was made.
pub struct PreparedOperation {
    pub id: usize,
    pub operation: RenameOp,
    pub source_state: FileState,
    pub destination_state: FileState,
}

impl PreparedOperation {
    pub fn source(&self) -> (r: &str)
        ensures
            r@ == self.operation.source@,
    {
        self.operation.source.as_str()
    }

    pub fn destination(&self) -> (r: &str)
        ensures
            r@ == self.operation.destination@,
    {
        self.operation.destination.as_str()
    }

    pub fn duplicate(&self) -> (r: PreparedOperation)
        ensures
            r.id == self.id,
            r.operation@ == self.operation@,
            r.source_state == self.source_state,
            r.destination_state == self.destination_state,
    {
        PreparedOperation {
            id: self.id,
            operation: self.operation.duplicate(),
            source_state: self.source_state,
            destination_state: self.destination_state,
        }
    }
}

/// Pair every operation in `plan` with a stable id, counted from one, and the
/// states its source and destination were found in.
pub fn prepare_operations(plan: &RenamePlan, states: &Vec<(FileState, FileState)>) -> (r: Vec<PreparedOperation>)
    requires
        states@.len() == plan.operations@.len(),
        plan.operations@.len() < usize::MAX,
    ensures
        r@.len() == plan.operations@.len(),
        forall|i: int| 0 <= i < r@.len() ==> {
            &&& (#[trigger] r@[i]).id == i + 1
            &&& r@[i].operation@ == plan.operations@[i]@
            &&& r@[i].source_state == states@[i].0
            &&& r@[i].destination_state == states@[i].1
        },
{
    let mut out: Vec<PreparedOperation> = Vec::new();
    let mut index: usize = 0;
    while index < plan.operations.len()
        invariant
            index <= plan.operations@.len(),
            states@.len() == plan.operations@.len(),
            plan.operations@.len() < usize::MAX,
            out@.len() == index,
            forall|i: int| 0 <= i < index ==> {
                &&& (#[trigger] out@[i]).id == i + 1
                &&& out@[i].operation@ == plan.operations@[i]@
                &&& out@[i].source_state == states@[i].0
                &&& out@[i].destination_state == states@[i].1
            },
        decreases plan.operations.len() - index,
    {
        let (source_state, destination_state) = states[index];
        out.push(PreparedOperation {
            id: index + 1,
            operation: plan.operations[index].duplicate(),
            source_state,
            destination_state,
        });
        index += 1;
    }
    out
}

/// The message for a source that moved since the plan was prepared.
pub open spec fn source_changed(path: Seq<char>) -> Seq<char> {
    "source changed: "@ + sanitized(
        match final_component(path) {
            Some(name) => name,
            None => path,
        },
    )
}

/// The message for a destination that moved since the plan was prepared.
pub open spec fn target_changed(path: Seq<char>) -> Seq<char> {
    "target changed: "@ + sanitized(
        match final_component(path) {
            Some(name) => name,
            None => path,
        },
    )
}

/// Every change among the first `n` operations, given the states found now: a
/// moved source, then a moved destination, operation by operation.
pub open spec fn changes_of(operations: Seq<PreparedOperation>, now: Seq<(FileState, FileState)>, n: int) -> Seq<Seq<char>>
    decreases n,
{
    if n <= 0 {
        seq![]
    } else {
        let before = changes_of(operations, now, n - 1);
        let op = operations[n - 1];
        let with_source = if now[n - 1].0 != op.source_state {
            before.push(source_changed(op.operation.source@))
        } else {
            before
        };
        if now[n - 1].1 != op.destination_state {
            with_source.push(target_changed(op.operation.destination@))
        } else {
            with_source
        }
    }
}

/// No change among the first `n` operations exactly when every state found now
/// is the one recorded.
pub proof fn lemma_no_changes(operations: Seq<PreparedOperation>, now: Seq<(FileState, FileState)>, n: int)
    requires
        0 <= n <= operations.len(),
        now.len() == operations.len(),
    ensures
        changes_of(operations, now, n).len() == 0 <==> forall|i: int| 0 <= i < n ==> (#[trigger] now[i]).0 == operations[i].source_state && now[i].1 == operations[i].destination_state,
    decreases n,
{
    if n > 0 {
        lemma_no_changes(operations, now, n - 1);
    }
}

/// Report which prepared operations no longer match what is on disk, given the
/// state each source and destination is in now.
pub fn detect_state_changes(operations: &[PreparedOperation], now: &Vec<(FileState, FileState)>) -> (r: Vec<String>)
    requires
        now@.len() == operations@.len(),
    ensures
        crate::text::views(r@) == changes_of(operations@, now@, operations@.len() as int),
        r@.len() == 0 <==> forall|i: int| 0 <= i < operations@.len() ==> (#[trigger] now@[i]).0 == operations@[i].source_state && now@[i].1 == operations@[i].destination_state,
{
    let mut changes: Vec<String> = Vec::new();
    let mut index: usize = 0;
    while index < operations.len()
        invariant
            index <= operations@.len(),
            now@.len() == operations@.len(),
            crate::text::views(changes@) == changes_of(operations@, now@, index as int),
        decreases operations.len() - index,
    {
        let prepared = &operations[index];
        let ghost before = crate::text::views(changes@);
        let (source_now, destination_now) = now[index];
        if source_now != prepared.source_state {
            let name = file_name(prepared.source());
            changes.push(concat("source changed: ", name.as_str()));
        }
        let ghost middle = crate::text::views(changes@);
        if destination_now != prepared.destination_state {
            let name = file_name(prepared.destination());
            changes.push(concat("target changed: ", name.as_str()));
        }
        assert(crate::text::views(changes@) =~= changes_of(operations@, now@, index + 1));
        index += 1;
    }
    proof {
        lemma_no_changes(operations@, now@, operations@.len() as int);
    }
    changes
}

/// The result of a single rename, with paths already formatted for display.
pub struct ApplyOutcome {
    pub id: usize,
    pub source: String,
    pub target: String,
    pub error: Option<String>,
}

#[derive(Clone, Copy, Debug, PartialEq, Eq, Structural)]
pub enum ApplyStatus {
    Completed,
    Partial,
    Failed,
}

pub struct ApplyResult {
    pub applied: Vec<ApplyOutcome>,
    pub failed: Vec<ApplyOutcome>,
}

impl ApplyResult {
    pub fn new() -> (r: ApplyResult)
        ensures
            r.applied@.len() == 0,
            r.failed@.len() == 0,
    {
        ApplyResult { applied: Vec::new(), failed: Vec::new() }
    }

    /// Completed when nothing failed, failed when nothing was applied, partial
    /// otherwise.
    pub fn status(&self) -> (r: ApplyStatus)
        ensures
            r == if self.failed@.len() == 0 {
                ApplyStatus::Completed
            } else if self.applied@.len() == 0 {
                ApplyStatus::Failed
            } else {
                ApplyStatus::Partial
            },
    {
        if self.failed.len() == 0 {
            ApplyStatus::Completed
        } else if self.applied.len() == 0 {
            ApplyStatus::Failed
        } else {
            ApplyStatus::Partial
        }
    }

    /// Record how the rename of `prepared` went, with its paths shown relative
    /// to `root`.
    pub fn record(&mut self, prepared: &PreparedOperation, root: &str, error: Option<String>)
        ensures
            error is None ==> final(self).applied@.len() == old(self).applied@.len() + 1 && final(self).failed@ == old(self).failed@,
            error is Some ==> final(self).failed@.len() == old(self).failed@.len() + 1 && final(self).applied@ == old(self).applied@,
            ({
                let added = if error is None { final(self).applied@.last() } else { final(self).failed@.last() };
                &&& added.id == prepared.id
                &&& added.source@ == sanitized(match stripped_path(prepared.operation.source@, root@) { Some(rest) => rest, None => prepared.operation.source@ })
                &&& added.target@ == sanitized(match stripped_path(prepared.operation.destination@, root@) { Some(rest) => rest, None => prepared.operation.destination@ })
                &&& crate::planning::opt_view(added.error) == crate::planning::opt_view(error)
            }),
    {
        let failed = error.is_some();
        let outcome = ApplyOutcome {
            id: prepared.id,
            source: display_path(prepared.source(), root),
            target: display_path(prepared.destination(), root),
            error,
        };
        if failed {
            self.failed.push(outcome);
        } else {
            self.applied.push(outcome);
        }
    }
}

/// The first failure's message, for a one-line summary.
pub fn first_error(result: &ApplyResult) -> (r: String)
    ensures
        r@ == if result.failed@.len() > 0 && result.failed@[0].error is Some {
            result.failed@[0].error->0@
        } else {
            "unknown error"@
        },
{
    if result.failed.len() > 0 {
        match &result.failed[0].error {
            Some(message) => return message.clone(),
            None => {},
        }
    }
    "unknown error".to_owned()
}

/// Raised instead of renaming when the filesystem drifted away from the plan.
pub struct PlanChanged {
    pub changes: Vec<String>,
}

impl PlanChanged {
    /// Every change, separated by `; `.
    pub fn message(&self) -> (r: String)
        ensures
            r@ == joined_changes(crate::text::views(self.changes@)),
    {
        let mut text = "".to_owned();
        proof {
            reveal_strlit("");
        }
        assert(text@ =~= seq![]);
        let mut index: usize = 0;
        while index < self.changes.len()
            invariant
                index <= self.changes@.len(),
                text@ == joined_changes(crate::text::views(self.changes@).take(index as int)),
            decreases self.changes.len() - index,
        {
            let ghost prefix = crate::text::views(self.changes@).take(index as int);
            assert(crate::text::views(self.changes@).take(index + 1).drop_last() =~= prefix);
            if index > 0 {
                text = concat(text.as_str(), "; ");
            }
            text = concat(text.as_str(), self.changes[index].as_str());
            index += 1;
        }
        assert(crate::text::views(self.changes@).take(index as int) =~= crate::text::views(self.changes@));
        text
    }
}

/// The changes, separated by `; `.
pub open spec fn joined_changes(changes: Seq<Seq<char>>) -> Seq<char>
    decreases changes.len(),
{
    if changes.len() == 0 {
        seq![]
    } else if changes.len() == 1 {
        changes[0]
    } else {
        joined_changes(changes.drop_last()) + "; "@ + changes.last()
    }
}

/// Whether `destination` already holds a different file than `source`: nothing
/// there is no clash; something there with the source gone is one; otherwise
/// the two identities decide, or, without them, whether both resolve to the same
/// path.
///
/// A rename that only changes letter case resolves to the same file on a
/// case-insensitive filesystem, and must not be mistaken for an overwrite.
pub fn target_is_occupied(destination: &FileState, source: &FileState, same_resolved: bool) -> (r: bool)
    ensures
        r == if !destination.exists {
            false
        } else if !source.exists {
            true
        } else {
            match (destination.identity, source.identity) {
                (Some(left), Some(right)) => left != right,
                _ => !same_resolved,
            }
        },
{
    if !destination.exists {
        return false;
    }
    if !source.exists {
        return true;
    }
    match (destination.identity, source.identity) {
        (Some(left), Some(right)) => left.device != right.device || left.inode != right.inode,
        _ => !same_resolved,
    }
}

/// Why a rename must not run, or `None` when it may: without `force`, an
/// occupied target is refused; a target folder that is gone is refused always.
pub fn rename_refusal(force: bool, occupied: bool, destination: &str, parent_exists: bool) -> (r: Option<String>)
    ensures
        !force && occupied ==> (r matches Some(m) && m@ == "target already exists: "@ + sanitized(
            match final_component(destination@) {
                Some(name) => name,
                None => destination@,
            },
        )),
        !(!force && occupied) && !parent_exists ==> match parent_path(destination@) {
            Some(parent) => (r matches Some(m) && m@ == "target folder is gone: "@ + sanitized(parent)),
            None => r is None,
        },
        !(!force && occupied) && parent_exists ==> r is None,
{
    if !force && occupied {
        let name = file_name(destination);
        return Some(concat("target already exists: ", name.as_str()));
    }
    if !parent_exists {
        match path_parent(destination) {
            Some(parent) => {
                let shown = display(parent.as_str());
                return Some(concat("target folder is gone: ", shown.as_str()));
            },
            None => {},
        }
    }
    None
}

} // verus!
