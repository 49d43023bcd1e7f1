//! Writing cached values to files, and tidying up the files.
//!
//! A value goes to a temporary file, which then takes the place of the cached
//! file.  What is to be done is decided here, step by step; the caller performs
//! each step and reports what came of it.

use vstd::prelude::*;
use vstd::slice::slice_subrange;
use vstd::utf8::encode_utf8;
use crate::cache::{hex, is_expired, DiskCache};
use crate::error::five;
use crate::expr::concat;
use crate::outside::sha256;
use crate::output::{OutcomeKind, StepOutcome};
use crate::text::{chars_of, ends, ends_with, text_of};

verus! {

// ---------------------------------------------------------------------------
// Steps
// ---------------------------------------------------------------------------

/// What is to be done next.
#[derive(Debug, Clone, Copy, PartialEq, Eq, Structural)]
pub enum CacheStep {
    /// Create the temporary file.
    Create,
    /// Write the value to the temporary file.
    Write,
    /// Wait until the temporary file is on the disk.
    Sync,
    /// Rename the temporary file to the cached file.
    Rename,
    /// Copy the temporary file to the cached file, on another file system.
    Copy,
    /// Remove the temporary file that was copied.
    DropTemp,
    /// Remove the temporary file after a fault.
    Discard,
    /// Nothing: the value is cached.
    Done,
}

/// The step that follows a step; none where the write ends in a fault.
pub open spec fn cache_follows(step: CacheStep, outcome: OutcomeKind) -> Option<CacheStep> {
    let performed = outcome == OutcomeKind::Performed;
    match step {
        CacheStep::Create => if performed {
            Some(CacheStep::Write)
        } else {
            None
        },
        CacheStep::Write => if performed {
            Some(CacheStep::Sync)
        } else {
            None
        },
        CacheStep::Sync => if performed {
            Some(CacheStep::Rename)
        } else {
            None
        },
        CacheStep::Rename => match outcome {
            OutcomeKind::Performed => Some(CacheStep::Done),
            OutcomeKind::CrossDevice => Some(CacheStep::Copy),
            OutcomeKind::Failed => Some(CacheStep::Discard),
        },
        CacheStep::Copy => if performed {
            Some(CacheStep::DropTemp)
        } else {
            Some(CacheStep::Discard)
        },
        CacheStep::DropTemp => Some(CacheStep::Done),
        CacheStep::Discard => None,
        CacheStep::Done => Some(CacheStep::Done),
    }
}

/// A write to the cache that is going on.
#[derive(Debug)]
pub struct CacheWrite {
    /// The cached file.
    pub target_path: String,
    /// The temporary file.
    pub temp_path: String,
    /// What is to be done next.
    pub step: CacheStep,
    /// The fault after which the temporary file is removed.
    pub fault: String,
}

/// The message for a step that failed.
pub open spec fn cache_fault(w: CacheWrite, step: CacheStep, reason: Seq<char>) -> Seq<char> {
    match step {
        CacheStep::Create => "创建临时文件失败: "@ + reason,
        CacheStep::Write => "写入临时文件失败: "@ + reason,
        CacheStep::Sync => "sync_all 失败: "@ + reason,
        CacheStep::Rename => "原子重命名失败: "@ + reason,
        CacheStep::Copy => "跨文件系统复制失败 ("@ + w.temp_path@ + " → "@ + w.target_path@ + "): "@
            + reason,
        _ => w.fault@,
    }
}

impl DiskCache {
    /// Starts to cache a value under a key.  `dir` is the directory of the cache,
    /// written so that the name of a file can follow it.
    pub fn set(&self, dir: &str, key: &str) -> (r: CacheWrite)
        ensures
            r.target_path@ == dir@ + (hex(sha256(encode_utf8(key@))) + ".cache"@),
            r.temp_path@ == dir@ + (hex(sha256(encode_utf8(key@))) + ".tmp"@),
            r.step == CacheStep::Create,
    {
        let target = DiskCache::file_name(key);
        let temp = DiskCache::temp_name(key);
        CacheWrite {
            target_path: concat(dir, target.as_str()),
            temp_path: concat(dir, temp.as_str()),
            step: CacheStep::Create,
            fault: "".to_owned(),
        }
    }
}

impl CacheWrite {
    /// Goes on to the step that follows.
    pub fn advance(&mut self, outcome: StepOutcome) -> (r: Result<(), String>)
        ensures
            final(self).target_path@ == old(self).target_path@,
            final(self).temp_path@ == old(self).temp_path@,
            match cache_follows(old(self).step, outcome.kind()) {
                Some(next) => {
                    &&& r is Ok
                    &&& final(self).step == next
                    &&& final(self).fault@ == (if next == CacheStep::Discard {
                        cache_fault(*old(self), old(self).step, outcome.reason())
                    } else {
                        old(self).fault@
                    })
                },
                None => {
                    &&& r matches Err(e) && e@ == cache_fault(
                        *old(self),
                        old(self).step,
                        outcome.reason(),
                    )
                    &&& final(self).step == old(self).step
                },
            },
    {
        let (performed, cross, reason) = match outcome {
            StepOutcome::Performed => (true, false, "".to_owned()),
            StepOutcome::Failed(t) => (false, false, t),
            StepOutcome::CrossDevice(t) => (false, true, t),
        };
        let text = reason.as_str();
        match self.step {
            CacheStep::Create => {
                if !performed {
                    return Err(concat("创建临时文件失败: ", text));
                }
                self.step = CacheStep::Write;
            },
            CacheStep::Write => {
                if !performed {
                    return Err(concat("写入临时文件失败: ", text));
                }
                self.step = CacheStep::Sync;
            },
            CacheStep::Sync => {
                if !performed {
                    return Err(concat("sync_all 失败: ", text));
                }
                self.step = CacheStep::Rename;
            },
            CacheStep::Rename => {
                if performed {
                    self.step = CacheStep::Done;
                } else if cross {
                    self.step = CacheStep::Copy;
                } else {
                    self.fault = concat("原子重命名失败: ", text);
                    self.step = CacheStep::Discard;
                }
            },
            CacheStep::Copy => {
                if performed {
                    self.step = CacheStep::DropTemp;
                } else {
                    let head = five(
                        "跨文件系统复制失败 (",
                        self.temp_path.as_str(),
                        " → ",
                        self.target_path.as_str(),
                        "): ",
                    );
                    self.fault = concat(head.as_str(), text);
                    self.step = CacheStep::Discard;
                }
            },
            CacheStep::DropTemp => {
                self.step = CacheStep::Done;
            },
            CacheStep::Discard => {
                return Err(self.fault.clone());
            },
            CacheStep::Done => {},
        }
        Ok(())
    }
}

// ---------------------------------------------------------------------------
// Tidying up
// ---------------------------------------------------------------------------

/// Whether a file name has an extension: something stands before it.
pub open spec fn has_extension(name: Seq<char>, extension: Seq<char>) -> bool {
    ends_with(name, extension) && name.len() > extension.len()
}

/// Whether a file is to be removed because it was cached too long ago.  Times are
/// in nanoseconds since 1970.
pub fn is_old_cache_file(name: &str, modified: u128, now: u128, max_age: u128) -> (r: bool)
    ensures
        r == (has_extension(name@, ".cache"@) && modified + max_age < now),
{
    let c = chars_of(name);
    let extension = chars_of(".cache");
    ends(c.as_slice(), extension.as_slice()) && c.len() > extension.len()
        && is_expired(modified, now, max_age)
}

/// The name of the cached file for a temporary file.  Where the cached file
/// exists, the temporary file was left behind.
pub fn cached_file_of(temp: &str) -> (r: Option<String>)
    ensures
        match r {
            Some(name) => has_extension(temp@, ".tmp"@) && name@ == temp@.take(
                temp@.len() - ".tmp"@.len(),
            ) + ".cache"@,
            None => !has_extension(temp@, ".tmp"@),
        },
{
    let c = chars_of(temp);
    let extension = chars_of(".tmp");
    if !ends(c.as_slice(), extension.as_slice()) || c.len() <= extension.len() {
        return None;
    }
    let n: usize = c.len() - extension.len();
    let stem = text_of(slice_subrange(c.as_slice(), 0, n));
    assert(stem@ =~= temp@.take(n as int));
    Some(concat(stem.as_str(), ".cache"))
}

// ---------------------------------------------------------------------------
// Laws
// ---------------------------------------------------------------------------

/// The temporary file of a key belongs to the cached file of that key.
pub proof fn temp_belongs_to_its_file(digits: Seq<char>)
    requires
        digits.len() > 0,
    ensures
        has_extension(digits + ".tmp"@, ".tmp"@),
        has_extension(digits + ".cache"@, ".cache"@),
        (digits + ".tmp"@).take((digits + ".tmp"@).len() - ".tmp"@.len()) == digits,
{
    let t = digits + ".tmp"@;
    let c = digits + ".cache"@;
    assert(t.subrange(t.len() - ".tmp"@.len(), t.len() as int) =~= ".tmp"@);
    assert(c.subrange(c.len() - ".cache"@.len(), c.len() as int) =~= ".cache"@);
    assert(t.take(t.len() - ".tmp"@.len()) =~= digits);
}

/// Whether steps follow one another from the start of a write.
pub open spec fn is_cache_write(steps: Seq<CacheStep>, outcomes: Seq<OutcomeKind>) -> bool {
    &&& steps.len() == outcomes.len() + 1
    &&& steps[0] == CacheStep::Create
    &&& forall|i: int|
        0 <= i < outcomes.len() ==> cache_follows(steps[i], #[trigger] outcomes[i]) == Some(
            steps[i + 1],
        )
}

/// The cached file is never seen half written: it is replaced only after the
/// temporary file was created, written and synced, each with success.
pub proof fn cached_files_are_complete(
    steps: Seq<CacheStep>,
    outcomes: Seq<OutcomeKind>,
    n: int,
)
    requires
        is_cache_write(steps, outcomes),
        0 <= n < steps.len(),
        steps[n] == CacheStep::Rename || steps[n] == CacheStep::Copy,
    ensures
        n >= 3,
        steps[1] == CacheStep::Write,
        steps[2] == CacheStep::Sync,
        steps[3] == CacheStep::Rename,
        outcomes[0] == OutcomeKind::Performed,
        outcomes[1] == OutcomeKind::Performed,
        outcomes[2] == OutcomeKind::Performed,
{
    assert(cache_follows(steps[0], outcomes[0]) == Some(steps[1]));
    if n >= 2 {
        assert(cache_follows(steps[1], outcomes[1]) == Some(steps[2]));
    }
    if n >= 3 {
        assert(cache_follows(steps[2], outcomes[2]) == Some(steps[3]));
    }
}

/// A write is done only once the cached file was replaced.
pub proof fn done_means_cached(steps: Seq<CacheStep>, outcomes: Seq<OutcomeKind>, n: int)
    requires
        is_cache_write(steps, outcomes),
        0 <= n < steps.len(),
        steps[n] == CacheStep::Done || steps[n] == CacheStep::DropTemp,
    ensures
        exists|i: int|
            0 <= i < n && ((#[trigger] steps[i]) == CacheStep::Rename || steps[i]
                == CacheStep::Copy) && outcomes[i] == OutcomeKind::Performed,
    decreases n,
{
    assert(cache_follows(steps[n - 1], outcomes[n - 1]) == Some(steps[n]));
    if steps[n - 1] == CacheStep::Done || steps[n - 1] == CacheStep::DropTemp {
        done_means_cached(steps, outcomes, n - 1);
    }
}

/// A write that meets no fault goes on to its end, by way of the temporary file.
pub proof fn undisturbed_cache_writes_end(steps: Seq<CacheStep>, outcomes: Seq<OutcomeKind>)
    requires
        is_cache_write(steps, outcomes),
        steps.len() > 4,
        forall|i: int|
            0 <= i < outcomes.len() ==> #[trigger] outcomes[i] == OutcomeKind::Performed,
    ensures
        steps[1] == CacheStep::Write,
        steps[2] == CacheStep::Sync,
        steps[3] == CacheStep::Rename,
        steps[4] == CacheStep::Done,
{
    assert(cache_follows(steps[0], outcomes[0]) == Some(steps[1]));
    assert(cache_follows(steps[1], outcomes[1]) == Some(steps[2]));
    assert(cache_follows(steps[2], outcomes[2]) == Some(steps[3]));
    assert(cache_follows(steps[3], outcomes[3]) == Some(steps[4]));
}

/// Where the temporary file cannot be made, filled or synced, the write ends in a
/// fault at once; where it cannot take the place of the cached file, it is removed
/// first.  Only a file on another device is copied.
pub proof fn what_follows_a_failed_step(outcome: OutcomeKind)
    requires
        outcome != OutcomeKind::Performed,
    ensures
        forall|step: CacheStep|
            (#[trigger] cache_follows(step, outcome)) is None <==> step == CacheStep::Create || step
                == CacheStep::Write || step == CacheStep::Sync || step == CacheStep::Discard,
        cache_follows(CacheStep::Rename, outcome) == Some(
            if outcome == OutcomeKind::CrossDevice {
                CacheStep::Copy
            } else {
                CacheStep::Discard
            },
        ),
        cache_follows(CacheStep::Copy, outcome) == Some(CacheStep::Discard),
        cache_follows(CacheStep::DropTemp, outcome) == Some(CacheStep::Done),
{
}

/// A name with something before its extension has that extension, and one that is
/// nothing but an extension has none.
pub proof fn which_names_have_an_extension(stem: Seq<char>, extension: Seq<char>)
    ensures
        stem.len() > 0 ==> has_extension(stem + extension, extension),
        !has_extension(extension, extension),
{
    let name = stem + extension;
    assert(name.subrange(stem.len() as int, name.len() as int) =~= extension);
}

} // verus!
