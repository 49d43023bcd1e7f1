//! Writing a configuration so that readers see the old file or the new one, and
//! nothing in between.
//!
//! The text goes to a temporary file beside the target, which then takes the
//! place of the target.  What is to be done is decided here, step by step; the
//! caller performs each step and reports what came of it.

use vstd::prelude::*;
use crate::error::{five, four, three, PrismError};
use crate::expr::concat;
use crate::ir::hex_digit;
use crate::outside::uuid_simple;
use crate::json_text::json_text;
use crate::reload::is_output_fault;
use crate::target::{adapted_for, compiled, is_yaml_fault, yaml_of, TargetCompiler};
use crate::text::{begins, chars_of, starts_with};
use crate::value::Document;

verus! {

// ---------------------------------------------------------------------------
// Temporary files
// ---------------------------------------------------------------------------

/// The start of the names of temporary files for a file.
pub open spec fn temp_prefix(file: Seq<char>) -> Seq<char> {
    file + ".prism.tmp."@
}

/// Whether a path is one of a temporary file for a file: 32 hexadecimal digits
/// follow the start.
pub open spec fn is_temp_path(path: Seq<char>, file: Seq<char>) -> bool {
    let start = temp_prefix(file);
    &&& starts_with(path, start)
    &&& path.len() == start.len() + 32
    &&& forall|i: int| start.len() <= i < path.len() ==> hex_digit(#[trigger] path[i])
}

/// The path of a new temporary file for a file.
///
/// Of the end of the path only its form is stated: it is random.
pub fn temp_path(path: &str) -> (r: String)
    ensures
        is_temp_path(r@, path@),
{
    let suffix = uuid_simple();
    let r = three(path, ".prism.tmp.", suffix.as_str());
    let ghost start = temp_prefix(path@).len() as int;
    assert(r@.subrange(0, start) =~= temp_prefix(path@));
    assert forall|i: int| start <= i < r@.len() implies hex_digit(#[trigger] r@[i]) by {
        assert(r@[i] == suffix@[i - start]);
    }
    r
}

/// Whether a file is a temporary file for a file, left behind by a write that
/// did not end.
pub fn is_stale_temp(name: &str, file_name: &str) -> (r: bool)
    ensures
        r == starts_with(name@, temp_prefix(file_name@)),
{
    let prefix = concat(file_name, ".prism.tmp.");
    let wanted = chars_of(prefix.as_str());
    let found = chars_of(name);
    begins(found.as_slice(), wanted.as_slice())
}

// ---------------------------------------------------------------------------
// Steps
// ---------------------------------------------------------------------------

/// What is to be done next.
#[derive(Debug, Clone, Copy, PartialEq, Eq, Structural)]
pub enum WriteStep {
    /// Create the directory of the file, and those above it.
    MakeDirectory,
    /// Create the temporary file.
    Create,
    /// Write the text to the temporary file.
    Write,
    /// Wait until the temporary file is on the disk.
    Sync,
    /// Give the temporary file the permissions of the file it replaces.
    CopyMode,
    /// Rename the temporary file to the file.
    Rename,
    /// Copy the temporary file to the file, on another file system.
    Copy,
    /// Remove the temporary file that was copied.
    DropTemp,
    /// Remove the temporary file after a fault.
    Discard,
    /// Nothing: the file is written.
    Done,
}

/// What came of a step.
#[derive(Debug, Clone)]
pub enum StepOutcome {
    /// It was performed.
    Performed,
    /// It failed, for a reason.
    Failed(String),
    /// It failed because the files are on different file systems, in words.
    CrossDevice(String),
}

/// The kinds of outcomes.
pub ghost enum OutcomeKind {
    Performed,
    Failed,
    CrossDevice,
}

impl StepOutcome {
    pub open spec fn kind(&self) -> OutcomeKind {
        match self {
            StepOutcome::Performed => OutcomeKind::Performed,
            StepOutcome::Failed(_) => OutcomeKind::Failed,
            StepOutcome::CrossDevice(_) => OutcomeKind::CrossDevice,
        }
    }

    /// The reason for a failure.
    pub open spec fn reason(&self) -> Seq<char> {
        match self {
            StepOutcome::Performed => Seq::empty(),
            StepOutcome::Failed(t) => t@,
            StepOutcome::CrossDevice(t) => t@,
        }
    }
}

/// The step that follows a step; none where the write ends in a fault.
pub open spec fn follows(step: WriteStep, outcome: OutcomeKind) -> Option<WriteStep> {
    let performed = outcome == OutcomeKind::Performed;
    match step {
        WriteStep::MakeDirectory => if performed {
            Some(WriteStep::Create)
        } else {
            None
        },
        WriteStep::Create => if performed {
            Some(WriteStep::Write)
        } else {
            None
        },
        WriteStep::Write => if performed {
            Some(WriteStep::Sync)
        } else {
            None
        },
        WriteStep::Sync => if performed {
            Some(WriteStep::CopyMode)
        } else {
            None
        },
        WriteStep::CopyMode => Some(WriteStep::Rename),
        WriteStep::Rename => match outcome {
            OutcomeKind::Performed => Some(WriteStep::Done),
            OutcomeKind::CrossDevice => Some(WriteStep::Copy),
            OutcomeKind::Failed => Some(WriteStep::Discard),
        },
        WriteStep::Copy => if performed {
            Some(WriteStep::DropTemp)
        } else {
            Some(WriteStep::Discard)
        },
        WriteStep::DropTemp => Some(WriteStep::Done),
        WriteStep::Discard => None,
        WriteStep::Done => Some(WriteStep::Done),
    }
}

/// A write that is going on.
pub struct AtomicWrite {
    /// The text to write.
    pub output: String,
    /// The file to write.
    pub path: String,
    /// The directory of the file.
    pub parent: String,
    /// The temporary file.
    pub temp_path: String,
    /// What is to be done next.
    pub step: WriteStep,
    /// The fault after which the temporary file is removed.
    pub fault: String,
}

/// The message for a step that failed.
pub open spec fn step_fault(w: AtomicWrite, step: WriteStep, reason: Seq<char>) -> Seq<char> {
    match step {
        WriteStep::MakeDirectory => "无法创建目标目录 "@ + w.parent@ + ": "@ + reason,
        WriteStep::Create => "创建临时文件失败 "@ + w.temp_path@ + ": "@ + reason,
        WriteStep::Write => "写入临时文件失败 "@ + w.temp_path@ + ": "@ + reason,
        WriteStep::Sync => "sync 临时文件失败 "@ + w.temp_path@ + ": "@ + reason,
        WriteStep::Rename => "原子替换失败 ("@ + w.temp_path@ + " → "@ + w.path@ + "): "@ + reason,
        WriteStep::Copy => "跨文件系统复制失败 ("@ + w.temp_path@ + " → "@ + w.path@ + "): "@
            + reason,
        _ => w.fault@,
    }
}

fn replace_fault(head: &str, from: &str, to: &str, reason: &str) -> (r: String)
    ensures
        r@ == head@ + from@ + " → "@ + to@ + "): "@ + reason@,
{
    let start = five(head, from, " → ", to, "): ");
    concat(start.as_str(), reason)
}

impl TargetCompiler {
    /// Starts to write a configuration to a file in a directory.
    ///
    /// The directory is created first, where the path has one.
    pub fn atomic_write(&self, config: &Document, path: &str, parent: Option<&str>) -> (r: Result<
        AtomicWrite,
        PrismError,
    >)
        ensures
            ({
                let json = json_text(adapted_for(config@, self.target));
                match r {
                    Ok(w) => {
                        &&& compiled(config@, self.target, self.pretty, yaml_of(json)) == Some(
                            w.output@,
                        )
                        &&& w.path@ == path@
                        &&& w.parent@ == (match parent {
                            Some(p) => p@,
                            None => ""@,
                        })
                        &&& is_temp_path(w.temp_path@, path@)
                        &&& w.fault@ == ""@
                        &&& w.step == (if parent is Some {
                            WriteStep::MakeDirectory
                        } else {
                            WriteStep::Create
                        })
                    },
                    Err(e) => compiled(config@, self.target, self.pretty, yaml_of(json)) is None
                        && is_yaml_fault(json, e),
                }
            }),
    {
        let output = match self.compile(config) {
            Err(e) => return Err(e),
            Ok(text) => text,
        };
        let (parent, step) = match parent {
            Some(p) => (p.to_owned(), WriteStep::MakeDirectory),
            None => ("".to_owned(), WriteStep::Create),
        };
        Ok(
            AtomicWrite {
                output,
                path: path.to_owned(),
                parent,
                temp_path: temp_path(path),
                step,
                fault: "".to_owned(),
            },
        )
    }
}

impl AtomicWrite {
    /// Goes on to the step that follows.
    pub fn advance(&mut self, outcome: StepOutcome) -> (r: Result<(), PrismError>)
        ensures
            final(self).output@ == old(self).output@,
            final(self).path@ == old(self).path@,
            final(self).parent@ == old(self).parent@,
            final(self).temp_path@ == old(self).temp_path@,
            match follows(old(self).step, outcome.kind()) {
                Some(next) => {
                    &&& r is Ok
                    &&& final(self).step == next
                    &&& final(self).fault@ == (if next == WriteStep::Discard {
                        step_fault(*old(self), old(self).step, outcome.reason())
                    } else {
                        old(self).fault@
                    })
                },
                None => {
                    &&& r matches Err(e) && is_output_fault(
                        e,
                        step_fault(*old(self), old(self).step, outcome.reason()),
                    )
                    &&& final(self).step == old(self).step
                    &&& final(self).fault@ == old(self).fault@
                },
            },
    {
        let (performed, cross, reason) = match outcome {
            StepOutcome::Performed => (true, false, "".to_owned()),
            StepOutcome::Failed(t) => (false, false, t),
            StepOutcome::CrossDevice(t) => (false, true, t),
        };
        let text = reason.as_str();
        match self.step {
            WriteStep::MakeDirectory => {
                if !performed {
                    return Err(
                        PrismError::TargetOutput {
                            message: four("无法创建目标目录 ", self.parent.as_str(), ": ", text),
                        },
                    );
                }
                self.step = WriteStep::Create;
            },
            WriteStep::Create => {
                if !performed {
                    return Err(
                        PrismError::TargetOutput {
                            message: four(
                                "创建临时文件失败 ",
                                self.temp_path.as_str(),
                                ": ",
                                text,
                            ),
                        },
                    );
                }
                self.step = WriteStep::Write;
            },
            WriteStep::Write => {
                if !performed {
                    return Err(
                        PrismError::TargetOutput {
                            message: four(
                                "写入临时文件失败 ",
                                self.temp_path.as_str(),
                                ": ",
                                text,
                            ),
                        },
                    );
                }
                self.step = WriteStep::Sync;
            },
            WriteStep::Sync => {
                if !performed {
                    return Err(
                        PrismError::TargetOutput {
                            message: four(
                                "sync 临时文件失败 ",
                                self.temp_path.as_str(),
                                ": ",
                                text,
                            ),
                        },
                    );
                }
                self.step = WriteStep::CopyMode;
            },
            WriteStep::CopyMode => {
                self.step = WriteStep::Rename;
            },
            WriteStep::Rename => {
                if performed {
                    self.step = WriteStep::Done;
                } else if cross {
                    self.step = WriteStep::Copy;
                } else {
                    self.fault =
                    replace_fault(
                        "原子替换失败 (",
                        self.temp_path.as_str(),
                        self.path.as_str(),
                        text,
                    );
                    self.step = WriteStep::Discard;
                }
            },
            WriteStep::Copy => {
                if performed {
                    self.step = WriteStep::DropTemp;
                } else {
                    self.fault =
                    replace_fault(
                        "跨文件系统复制失败 (",
                        self.temp_path.as_str(),
                        self.path.as_str(),
                        text,
                    );
                    self.step = WriteStep::Discard;
                }
            },
            WriteStep::DropTemp => {
                self.step = WriteStep::Done;
            },
            WriteStep::Discard => {
                return Err(PrismError::TargetOutput { message: self.fault.clone() });
            },
            WriteStep::Done => {},
        }
        Ok(())
    }

    /// The number of bytes of the text.
    pub fn size(&self) -> (r: usize)
        ensures
            r == vstd::utf8::encode_utf8(self.output@).len(),
    {
        self.output.as_str().as_bytes().len()
    }
}

// ---------------------------------------------------------------------------
// Laws
// ---------------------------------------------------------------------------

/// A new temporary file is one that is found when files left behind are
/// searched.
pub proof fn temp_files_are_found(path: Seq<char>, dir: Seq<char>, file: Seq<char>, temp: Seq<char>)
    requires
        path == dir + file,
        starts_with(temp, temp_prefix(path)),
    ensures
        temp.len() >= dir.len(),
        temp.take(dir.len() as int) == dir,
        starts_with(temp.skip(dir.len() as int), temp_prefix(file)),
{
    let n = dir.len() as int;
    let head = temp.subrange(0, temp_prefix(path).len() as int);
    assert(head == temp_prefix(path));
    assert forall|i: int| 0 <= i < n implies temp[i] == dir[i] by {
        assert(head[i] == temp_prefix(path)[i]);
    }
    assert(temp.take(n) =~= dir);
    let rest = temp.skip(n);
    assert(rest.subrange(0, temp_prefix(file).len() as int) =~= temp_prefix(file)) by {
        assert forall|i: int| 0 <= i < temp_prefix(file).len() implies rest[i] == temp_prefix(
            file,
        )[i] by {
            assert(head[n + i] == temp_prefix(path)[n + i]);
        }
    }
}

/// Whether steps follow one another from the start of a write.
pub open spec fn is_write(steps: Seq<WriteStep>, outcomes: Seq<OutcomeKind>) -> bool {
    &&& steps.len() == outcomes.len() + 1
    &&& steps[0] == WriteStep::MakeDirectory || steps[0] == WriteStep::Create
    &&& forall|i: int|
        0 <= i < outcomes.len() ==> follows(steps[i], #[trigger] outcomes[i]) == Some(steps[i + 1])
}

/// Whether a step put the new text in the place of the old.
pub open spec fn replaces(step: WriteStep, outcome: OutcomeKind) -> bool {
    (step == WriteStep::Rename || step == WriteStep::Copy) && outcome == OutcomeKind::Performed
}

/// A write is done only once the file was replaced.
pub proof fn done_means_replaced(steps: Seq<WriteStep>, outcomes: Seq<OutcomeKind>, n: int)
    requires
        is_write(steps, outcomes),
        0 <= n < steps.len(),
        steps[n] == WriteStep::Done || steps[n] == WriteStep::DropTemp,
    ensures
        exists|i: int| 0 <= i < n && replaces(#[trigger] steps[i], outcomes[i]),
    decreases n,
{
    assert(follows(steps[n - 1], outcomes[n - 1]) == Some(steps[n]));
    if steps[n - 1] == WriteStep::Done || steps[n - 1] == WriteStep::DropTemp {
        done_means_replaced(steps, outcomes, n - 1);
    } else {
        assert(replaces(steps[n - 1], outcomes[n - 1]));
    }
}

/// Before the file is renamed or copied, the temporary file was created, written
/// and synced, each with success.
pub proof fn the_text_is_complete_first(steps: Seq<WriteStep>, outcomes: Seq<OutcomeKind>, n: int)
    requires
        is_write(steps, outcomes),
        0 <= n < steps.len(),
        steps[n] == WriteStep::Rename || steps[n] == WriteStep::Copy,
    ensures
        exists|i: int|
            0 <= i < n - 2 && (#[trigger] steps[i]) == WriteStep::Create && outcomes[i]
                == OutcomeKind::Performed && steps[i + 1] == WriteStep::Write && outcomes[i + 1]
                == OutcomeKind::Performed && steps[i + 2] == WriteStep::Sync && outcomes[i + 2]
                == OutcomeKind::Performed,
    decreases n,
{
    assert(follows(steps[n - 1], outcomes[n - 1]) == Some(steps[n]));
    if steps[n] == WriteStep::Copy {
        the_text_is_complete_first(steps, outcomes, n - 1);
        let i = choose|i: int|
            0 <= i < n - 1 - 2 && (#[trigger] steps[i]) == WriteStep::Create && outcomes[i]
                == OutcomeKind::Performed && steps[i + 1] == WriteStep::Write && outcomes[i + 1]
                == OutcomeKind::Performed && steps[i + 2] == WriteStep::Sync && outcomes[i + 2]
                == OutcomeKind::Performed;
        assert(steps[i] == WriteStep::Create);
    } else {
        assert(steps[n - 1] == WriteStep::CopyMode);
        assert(follows(steps[n - 2], outcomes[n - 2]) == Some(steps[n - 1]));
        assert(follows(steps[n - 3], outcomes[n - 3]) == Some(steps[n - 2]));
        assert(follows(steps[n - 4], outcomes[n - 4]) == Some(steps[n - 3]));
        assert(steps[n - 4] == WriteStep::Create);
    }
}

/// A write that meets no fault goes on to its end: the text is written to the
/// temporary file, which takes the place of the file.
pub proof fn undisturbed_writes_end(steps: Seq<WriteStep>, outcomes: Seq<OutcomeKind>, n: int)
    requires
        is_write(steps, outcomes),
        forall|i: int|
            0 <= i < outcomes.len() ==> #[trigger] outcomes[i] == OutcomeKind::Performed,
        0 <= n < steps.len(),
    ensures
        n >= 6 ==> steps[n] == WriteStep::Done,
        steps[n] != WriteStep::Copy && steps[n] != WriteStep::Discard,
        follows(steps[n], OutcomeKind::Performed) is Some,
{
    if n > 0 {
        undisturbed_step(steps, outcomes, n);
    }
}

spec fn rank(step: WriteStep) -> int {
    match step {
        WriteStep::MakeDirectory => 0,
        WriteStep::Create => 1,
        WriteStep::Write => 2,
        WriteStep::Sync => 3,
        WriteStep::CopyMode => 4,
        WriteStep::Rename => 5,
        WriteStep::Done => 6,
        _ => 7,
    }
}

proof fn undisturbed_step(steps: Seq<WriteStep>, outcomes: Seq<OutcomeKind>, n: int)
    requires
        is_write(steps, outcomes),
        forall|i: int|
            0 <= i < outcomes.len() ==> #[trigger] outcomes[i] == OutcomeKind::Performed,
        0 <= n < steps.len(),
    ensures
        rank(steps[n]) <= 6,
        rank(steps[n]) >= n || rank(steps[n]) == 6,
    decreases n,
{
    if n > 0 {
        undisturbed_step(steps, outcomes, n - 1);
        assert(outcomes[n - 1] == OutcomeKind::Performed);
        assert(follows(steps[n - 1], outcomes[n - 1]) == Some(steps[n]));
    }
}

/// Where the temporary file cannot be made, filled or synced, the write ends in a
/// fault at once; where it cannot take the place of the file, it is removed first.
/// Only a file on another device is copied, and what cannot be kept of the mode of
/// the file, or of the temporary file after it was copied, is no fault.
pub proof fn what_follows_a_failure(outcome: OutcomeKind)
    requires
        outcome != OutcomeKind::Performed,
    ensures
        forall|step: WriteStep|
            (#[trigger] follows(step, outcome)) is None <==> step == WriteStep::MakeDirectory
                || step == WriteStep::Create || step == WriteStep::Write || step == WriteStep::Sync
                || step == WriteStep::Discard,
        follows(WriteStep::Rename, outcome) == Some(
            if outcome == OutcomeKind::CrossDevice {
                WriteStep::Copy
            } else {
                WriteStep::Discard
            },
        ),
        follows(WriteStep::Copy, outcome) == Some(WriteStep::Discard),
        follows(WriteStep::CopyMode, outcome) == Some(WriteStep::Rename),
        follows(WriteStep::DropTemp, outcome) == Some(WriteStep::Done),
{
}

} // verus!
