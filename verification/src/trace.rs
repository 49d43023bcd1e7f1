//! Records of what patches did, and questions about them.

use vstd::prelude::*;
use crate::error::{
    copy_warnings, count_text, five, four, warning_views, PrismError, TransformWarning, WarningView,
};
use crate::executor::{
    clock_fits, may_run, patch_run, run, run_in_parts, step_count, steps_run, still, sub_patches,
    ContextView, ExecutionContext, PatchExecutor,
};
use crate::expr::push_text;
use crate::ir::{
    copy_texts, op_name, ops_in_order, patch_ref_views, patch_views, sub_op_views, OpView, Patch,
    PatchId, PatchOp, PatchView, SubOpView,
};
use crate::ops::{op_effect, run_op};
use crate::order::texts;
use crate::scope::TimeOfDay;
use crate::source::{source_text, PatchSource, SourceView};
use crate::text::{
    begins, chars_of, contains_text, copy_text, decimal, holds, opt_text, pieces, push_decimal,
    same, same_text, split, split_at_char, starts_with, text_of,
};
use crate::value::{Document, Json};

verus! {

// ---------------------------------------------------------------------------
// Records
// ---------------------------------------------------------------------------

/// What happened to an element.
#[derive(Debug, Clone, Copy, PartialEq, Eq, Structural)]
pub enum TraceAction {
    Added,
    Removed,
    Modified,
}

/// An action in words.
pub open spec fn action_text(a: TraceAction) -> Seq<char> {
    match a {
        TraceAction::Added => "新增"@,
        TraceAction::Removed => "删除"@,
        TraceAction::Modified => "修改"@,
    }
}

impl TraceAction {
    /// The action in words.
    pub fn to_text(self) -> (r: &'static str)
        ensures
            r@ == action_text(self),
    {
        match self {
            TraceAction::Added => "新增",
            TraceAction::Removed => "删除",
            TraceAction::Modified => "修改",
        }
    }
}

/// The numbers of elements that an operation touched.
#[derive(Debug, Clone, Copy, PartialEq, Eq, Structural)]
pub struct TraceSummary {
    pub added: usize,
    pub removed: usize,
    pub modified: usize,
    /// Elements that stayed as they were.
    pub kept: usize,
    pub total_before: usize,
    pub total_after: usize,
}

impl TraceSummary {
    /// A summary.
    pub fn new(
        added: usize,
        removed: usize,
        modified: usize,
        kept: usize,
        total_before: usize,
        total_after: usize,
    ) -> (r: TraceSummary)
        ensures
            r == (TraceSummary { added, removed, modified, kept, total_before, total_after }),
    {
        TraceSummary { added, removed, modified, kept, total_before, total_after }
    }
}

/// A summary of nothing.
pub open spec fn no_summary() -> TraceSummary {
    TraceSummary { added: 0, removed: 0, modified: 0, kept: 0, total_before: 0, total_after: 0 }
}

/// An element that an operation touched.
#[derive(Debug)]
pub struct AffectedItem {
    /// The position of the element.
    pub index: usize,
    /// The element before, where there was one.
    pub before: Option<String>,
    /// The element after, where there is one.
    pub after: Option<String>,
    pub action: TraceAction,
}

/// The model of [`AffectedItem`].
#[verifier::ext_equal]
pub ghost struct ItemView {
    pub index: int,
    pub before: Option<Seq<char>>,
    pub after: Option<Seq<char>>,
    pub action: TraceAction,
}

/// An element that was added.
pub open spec fn added_item(index: int, description: Seq<char>) -> ItemView {
    ItemView { index, before: None, after: Some(description), action: TraceAction::Added }
}

/// An element that was removed.
pub open spec fn removed_item(index: int, description: Seq<char>) -> ItemView {
    ItemView { index, before: Some(description), after: None, action: TraceAction::Removed }
}

/// An element that was modified.
pub open spec fn modified_item(index: int, before: Seq<char>, after: Seq<char>) -> ItemView {
    ItemView { index, before: Some(before), after: Some(after), action: TraceAction::Modified }
}

/// The models of a list of elements.
pub open spec fn item_views(v: Seq<AffectedItem>) -> Seq<ItemView> {
    Seq::new(v.len(), |i: int| v[i]@)
}

impl AffectedItem {
    pub open spec fn view(&self) -> ItemView {
        ItemView {
            index: self.index as int,
            before: opt_text(self.before),
            after: opt_text(self.after),
            action: self.action,
        }
    }

    /// An element that was added.
    pub fn added(index: usize, description: &str) -> (r: AffectedItem)
        ensures
            r@ == added_item(index as int, description@),
    {
        AffectedItem {
            index,
            before: None,
            after: Some(description.to_owned()),
            action: TraceAction::Added,
        }
    }

    /// An element that was removed.
    pub fn removed(index: usize, description: &str) -> (r: AffectedItem)
        ensures
            r@ == removed_item(index as int, description@),
    {
        AffectedItem {
            index,
            before: Some(description.to_owned()),
            after: None,
            action: TraceAction::Removed,
        }
    }

    /// An element that was modified.
    pub fn modified(index: usize, before: &str, after: &str) -> (r: AffectedItem)
        ensures
            r@ == modified_item(index as int, before@, after@),
    {
        AffectedItem {
            index,
            before: Some(before.to_owned()),
            after: Some(after.to_owned()),
            action: TraceAction::Modified,
        }
    }
}

impl Clone for AffectedItem {
    fn clone(&self) -> (r: AffectedItem)
        ensures
            r@ == self@,
    {
        AffectedItem {
            index: self.index,
            before: copy_text(&self.before),
            after: copy_text(&self.after),
            action: self.action,
        }
    }
}

/// What one operation did.
#[derive(Debug)]
pub struct ExecutionTrace {
    pub patch_id: PatchId,
    pub source: PatchSource,
    pub op: PatchOp,
    /// How long the operation took, in microseconds.
    pub duration_us: u64,
    /// Whether the patch applied at all.
    pub condition_matched: bool,
    pub summary: TraceSummary,
    /// The elements that were touched; one entry for all of them where they are
    /// many.
    pub affected_items: Vec<AffectedItem>,
    /// The descriptions of the elements where they are many.
    pub bulk_items: Option<Vec<String>>,
    /// What is doubtful about the outcome.
    pub warnings: Vec<TransformWarning>,
}

/// The model of [`ExecutionTrace`], without the time that the operation took.
#[verifier::ext_equal]
pub ghost struct TraceView {
    pub id: Seq<char>,
    pub source: SourceView,
    pub op: OpView,
    pub matched: bool,
    pub summary: TraceSummary,
    pub items: Seq<ItemView>,
    pub bulk: Option<Seq<Seq<char>>>,
    pub warnings: Seq<WarningView>,
}

/// The texts of an optional list.
pub open spec fn opt_texts(o: Option<Vec<String>>) -> Option<Seq<Seq<char>>> {
    match o {
        Some(v) => Some(texts(v@)),
        None => None,
    }
}

/// The models of a list of traces.
pub open spec fn trace_views(v: Seq<ExecutionTrace>) -> Seq<TraceView> {
    Seq::new(v.len(), |i: int| v[i]@)
}

/// Whether one of two paths is the other or lies below it.
pub open spec fn related_paths(a: Seq<char>, b: Seq<char>) -> bool {
    a == b || starts_with(a, b + "."@) || starts_with(b, a + "."@)
}

/// Whether a path is among the descriptions of an element.
pub open spec fn item_touches(item: ItemView, path: Seq<char>) -> bool {
    ||| item.before matches Some(b) && related_paths(b, path)
    ||| item.after matches Some(a) && related_paths(a, path)
}

/// Whether a trace is about a path: by its elements, or where it has none by
/// the path of its patch.
pub open spec fn trace_touches(
    items: Seq<ItemView>,
    path: Seq<char>,
    patch_path: Option<Seq<char>>,
) -> bool {
    if items.len() > 0 {
        exists|i: int| 0 <= i < items.len() && item_touches(#[trigger] items[i], path)
    } else {
        patch_path matches Some(p) && related_paths(p, path)
    }
}

/// What a trace says in one line.
pub open spec fn change_text(op: OpView, s: TraceSummary, duration_us: u64) -> Seq<char> {
    op_name(op) + " — +"@ + decimal(s.added as nat) + " -"@ + decimal(s.removed as nat) + " ~"@
        + decimal(s.modified as nat) + " ("@ + decimal(duration_us as nat) + "μs)"@
}

/// Whether one path is another or lies below it.
fn is_below(path: &str, root: &str) -> (r: bool)
    ensures
        r == starts_with(path@, root@ + "."@),
{
    let prefix = crate::expr::concat(root, ".");
    let p = chars_of(path);
    let q = chars_of(prefix.as_str());
    begins(p.as_slice(), q.as_slice())
}

fn are_related(a: &str, b: &str) -> (r: bool)
    ensures
        r == related_paths(a@, b@),
{
    same_text(a, b) || is_below(a, b) || is_below(b, a)
}

fn item_is_about(item: &AffectedItem, path: &str) -> (r: bool)
    ensures
        r == item_touches(item@, path@),
{
    let before: bool = match &item.before {
        Some(b) => are_related(b.as_str(), path),
        None => false,
    };
    let after: bool = match &item.after {
        Some(a) => are_related(a.as_str(), path),
        None => false,
    };
    before || after
}

impl ExecutionTrace {
    pub open spec fn view(&self) -> TraceView {
        TraceView {
            id: self.patch_id@,
            source: self.source@,
            op: self.op@,
            matched: self.condition_matched,
            summary: self.summary,
            items: item_views(self.affected_items@),
            bulk: opt_texts(self.bulk_items),
            warnings: warning_views(self.warnings@),
        }
    }

    /// A trace without warnings.
    pub fn new(
        patch_id: PatchId,
        source: PatchSource,
        op: PatchOp,
        duration_us: u64,
        condition_matched: bool,
        summary: TraceSummary,
        affected_items: Vec<AffectedItem>,
    ) -> (r: ExecutionTrace)
        ensures
            r.duration_us == duration_us,
            r@ == (TraceView {
                id: patch_id@,
                source: source@,
                op: op@,
                matched: condition_matched,
                summary,
                items: item_views(affected_items@),
                bulk: None,
                warnings: Seq::empty(),
            }),
    {
        let warnings: Vec<TransformWarning> = Vec::new();
        assert(warning_views(warnings@) =~= Seq::empty());
        ExecutionTrace {
            patch_id,
            source,
            op,
            duration_us,
            condition_matched,
            summary,
            affected_items,
            bulk_items: None,
            warnings,
        }
    }

    /// A trace of an operation on many elements, without warnings.
    pub fn with_bulk_items(
        patch_id: PatchId,
        source: PatchSource,
        op: PatchOp,
        duration_us: u64,
        condition_matched: bool,
        summary: TraceSummary,
        affected_items: Vec<AffectedItem>,
        bulk_items: Vec<String>,
    ) -> (r: ExecutionTrace)
        ensures
            r.duration_us == duration_us,
            r@ == (TraceView {
                id: patch_id@,
                source: source@,
                op: op@,
                matched: condition_matched,
                summary,
                items: item_views(affected_items@),
                bulk: Some(texts(bulk_items@)),
                warnings: Seq::empty(),
            }),
    {
        let warnings: Vec<TransformWarning> = Vec::new();
        assert(warning_views(warnings@) =~= Seq::empty());
        ExecutionTrace {
            patch_id,
            source,
            op,
            duration_us,
            condition_matched,
            summary,
            affected_items,
            bulk_items: Some(bulk_items),
            warnings,
        }
    }

    /// The trace with warnings about the outcome.
    pub fn with_warnings(self, warnings: Vec<TransformWarning>) -> (r: ExecutionTrace)
        ensures
            r.duration_us == self.duration_us,
            r@ == (TraceView { warnings: warning_views(warnings@), ..self@ }),
    {
        ExecutionTrace {
            patch_id: self.patch_id,
            source: self.source,
            op: self.op,
            duration_us: self.duration_us,
            condition_matched: self.condition_matched,
            summary: self.summary,
            affected_items: self.affected_items,
            bulk_items: self.bulk_items,
            warnings,
        }
    }

    /// Whether the trace is about a path.
    pub fn affects_path(&self, path: &str, patch_path: Option<&str>) -> (r: bool)
        ensures
            r == trace_touches(
                self@.items,
                path@,
                match patch_path {
                    Some(p) => Some(p@),
                    None => None,
                },
            ),
    {
        let ghost items = item_views(self.affected_items@);
        if self.affected_items.len() == 0 {
            return match patch_path {
                Some(p) => are_related(p, path),
                None => false,
            };
        }
        let mut i: usize = 0;
        while i < self.affected_items.len()
            invariant
                i <= self.affected_items@.len(),
                items == item_views(self.affected_items@),
                forall|j: int| 0 <= j < i ==> !item_touches(#[trigger] items[j], path@),
            decreases self.affected_items@.len() - i,
        {
            assert(items[i as int] == self.affected_items@[i as int]@);
            if item_is_about(&self.affected_items[i], path) {
                assert(item_touches(items[i as int], path@));
                return true;
            }
            i = i + 1;
        }
        false
    }

    /// What the trace says in one line.
    pub fn describe_change(&self) -> (r: String)
        ensures
            r@ == change_text(self@.op, self.summary, self.duration_us),
    {
        let added = count_text(self.summary.added);
        let removed = count_text(self.summary.removed);
        let modified = count_text(self.summary.modified);
        let duration = crate::text::decimal_text(self.duration_us);
        let mut out = five(
            self.op.display_name(),
            " — +",
            added.as_str(),
            " -",
            removed.as_str(),
        );
        out.append(" ~");
        out.append(modified.as_str());
        out.append(" (");
        out.append(duration.as_str());
        out.append("μs)");
        out
    }
}

impl Clone for ExecutionTrace {
    fn clone(&self) -> (r: ExecutionTrace)
        ensures
            r@ == self@,
            r.duration_us == self.duration_us,
    {
        let mut items: Vec<AffectedItem> = Vec::new();
        let mut i: usize = 0;
        while i < self.affected_items.len()
            invariant
                i <= self.affected_items@.len(),
                items@.len() == i,
                forall|j: int| 0 <= j < i ==> (#[trigger] items@[j])@ == self.affected_items@[j]@,
            decreases self.affected_items@.len() - i,
        {
            items.push(self.affected_items[i].clone());
            i = i + 1;
        }
        assert(item_views(items@) =~= item_views(self.affected_items@));
        ExecutionTrace {
            patch_id: self.patch_id.clone(),
            source: self.source.clone(),
            op: self.op.clone(),
            duration_us: self.duration_us,
            condition_matched: self.condition_matched,
            summary: self.summary,
            affected_items: items,
            bulk_items: match &self.bulk_items {
                Some(v) => Some(copy_texts(v)),
                None => None,
            },
            warnings: copy_warnings(&self.warnings),
        }
    }
}

// ---------------------------------------------------------------------------
// The manager
// ---------------------------------------------------------------------------

/// Traces together with the patches that left them.
pub struct TraceManager {
    /// The traces.
    pub traces: Vec<ExecutionTrace>,
    /// The patches that left the traces.
    pub patches: Vec<Patch>,
}

/// An answer to the question why something is in a configuration.
#[derive(Debug)]
pub struct ExplainEntry {
    pub source: PatchSource,
    pub op_name: String,
    /// What the operation did, in one line.
    pub detail: String,
}

/// The model of [`ExplainEntry`].
#[verifier::ext_equal]
pub ghost struct EntryView {
    pub source: SourceView,
    pub op_name: Seq<char>,
    pub detail: Seq<char>,
}

impl ExplainEntry {
    pub open spec fn view(&self) -> EntryView {
        EntryView { source: self.source@, op_name: self.op_name@, detail: self.detail@ }
    }
}

/// The models of a list of answers.
pub open spec fn entry_views(v: Seq<ExplainEntry>) -> Seq<EntryView> {
    Seq::new(v.len(), |i: int| v[i]@)
}

/// The last of the patches with an identifier.
pub open spec fn last_with_id(patches: Seq<PatchView>, id: Seq<char>) -> Option<PatchView>
    decreases patches.len(),
{
    if patches.len() == 0 {
        None
    } else if patches.last().id == id {
        Some(patches.last())
    } else {
        last_with_id(patches.drop_last(), id)
    }
}

/// Whether the segments of one path begin those of another, longer one.
pub open spec fn leads_to(a: Seq<Seq<char>>, b: Seq<Seq<char>>) -> bool {
    a.len() < b.len() && b.take(a.len() as int) == a
}

/// Whether one of two paths is the other or lies below it, segment by segment.
pub open spec fn on_one_line(a: Seq<char>, b: Seq<char>) -> bool {
    a == b || leads_to(split(a, '.'), split(b, '.')) || leads_to(split(b, '.'), split(a, '.'))
}

/// Whether a trace is about a path, by the path of its patch.
pub open spec fn concerns(t: TraceView, patches: Seq<PatchView>, path: Seq<char>) -> bool {
    last_with_id(patches, t.id) matches Some(p) && on_one_line(p.path, path)
}

/// Whether an element is the key or lies below it.
pub open spec fn keyed(description: Option<Seq<char>>, key: Seq<char>) -> bool {
    description matches Some(d) && (d == key || starts_with(d, key + "."@))
}

/// Whether a trace has an element with the key.
pub open spec fn has_key(items: Seq<ItemView>, key: Seq<char>) -> bool {
    exists|i: int|
        0 <= i < items.len() && (keyed((#[trigger] items[i]).before, key) || keyed(
            items[i].after,
            key,
        ))
}

/// Whether a trace explains a path, and an element where one is asked for: one
/// that applied, comes from a file, and is about the path.
pub open spec fn explains(
    t: TraceView,
    patches: Seq<PatchView>,
    path: Seq<char>,
    key: Option<Seq<char>>,
) -> bool {
    &&& t.matched
    &&& t.source.file is Some
    &&& concerns(t, patches, path)
    &&& key matches Some(k) ==> has_key(t.items, k)
}

/// The answers that the first `n` traces give.
pub open spec fn explanations(
    traces: Seq<ExecutionTrace>,
    patches: Seq<PatchView>,
    path: Seq<char>,
    key: Option<Seq<char>>,
    n: int,
) -> Seq<EntryView>
    decreases n,
{
    if n <= 0 {
        Seq::empty()
    } else {
        let before = explanations(traces, patches, path, key, n - 1);
        let t = traces[n - 1];
        if explains(t@, patches, path, key) {
            before.push(
                EntryView {
                    source: t@.source,
                    op_name: op_name(t@.op),
                    detail: change_text(t@.op, t.summary, t.duration_us),
                },
            )
        } else {
            before
        }
    }
}

/// Whether replaying the first `k + 1` patches can lead to a configuration,
/// whatever the time is.
pub open spec fn may_replay(
    base: Json,
    ctx: ContextView,
    patches: Seq<PatchView>,
    k: int,
    result: Json,
) -> bool {
    exists|clock: Seq<int>|
        clock_fits(clock, step_count(patches.take(k + 1))) && (#[trigger] run(
            base,
            ctx,
            patches.take(k + 1),
            clock,
        )).0 == result
}

/// The line for an element.
pub open spec fn item_line(item: ItemView) -> Seq<char> {
    let before = match item.before {
        Some(b) => b,
        None => "?"@,
    };
    let after = match item.after {
        Some(a) => a,
        None => "?"@,
    };
    match item.action {
        TraceAction::Added => "      + "@ + after + " (新增)\n"@,
        TraceAction::Removed => "      - "@ + before + " (删除)\n"@,
        TraceAction::Modified => "      ~ "@ + before + " → "@ + after + "\n"@,
    }
}

/// The lines for the first `n` elements.
pub open spec fn item_lines(items: Seq<ItemView>, n: int) -> Seq<char>
    decreases n,
{
    if n <= 0 {
        Seq::empty()
    } else {
        item_lines(items, n - 1) + item_line(items[n - 1])
    }
}

/// The line that sums a trace up, where it changed something.
pub open spec fn summary_line(s: TraceSummary) -> Seq<char> {
    if s.added > 0 || s.removed > 0 || s.modified > 0 {
        "      摘要: +"@ + decimal(s.added as nat) + " -"@ + decimal(s.removed as nat) + " ~"@
            + decimal(s.modified as nat) + " ["@ + decimal(s.kept as nat) + " unchanged]\n"@
    } else {
        Seq::empty()
    }
}

/// The lines for a trace.
pub open spec fn trace_lines(t: ExecutionTrace, number: int) -> Seq<char> {
    "  ["@ + decimal(number as nat) + "] "@ + source_text(t@.source) + " — "@ + change_text(
        t@.op,
        t.summary,
        t.duration_us,
    ) + "\n"@ + item_lines(t@.items, t@.items.len() as int) + summary_line(t.summary)
}

/// The lines for the first `n` traces.
pub open spec fn report_lines(traces: Seq<ExecutionTrace>, n: int) -> Seq<char>
    decreases n,
{
    if n <= 0 {
        Seq::empty()
    } else {
        report_lines(traces, n - 1) + trace_lines(traces[n - 1], n)
    }
}

/// The report on what traces changed.
pub open spec fn diff_report(traces: Seq<ExecutionTrace>) -> Seq<char> {
    if traces.len() == 0 {
        "(无执行记录)"@
    } else {
        report_lines(traces, traces.len() as int)
    }
}

/// Sums over traces.
#[derive(Debug, Clone, Copy, PartialEq, Eq, Structural)]
pub struct TraceStatistics {
    pub total_patches: usize,
    /// Traces of patches that applied.
    pub succeeded: usize,
    /// Traces of patches that did not.
    pub skipped: usize,
    pub total_added: usize,
    pub total_removed: usize,
    pub total_modified: usize,
    pub total_duration_us: u64,
    /// The time per trace of a patch that applied.
    pub avg_duration_us: u64,
}

/// Sums over traces, without bounds.
#[verifier::ext_equal]
pub ghost struct Totals {
    pub succeeded: int,
    pub skipped: int,
    pub added: int,
    pub removed: int,
    pub modified: int,
    pub duration: int,
}

/// The sums over the first `n` traces.
pub open spec fn totals(traces: Seq<ExecutionTrace>, n: int) -> Totals
    decreases n,
{
    if n <= 0 {
        Totals { succeeded: 0, skipped: 0, added: 0, removed: 0, modified: 0, duration: 0 }
    } else {
        let before = totals(traces, n - 1);
        let t = traces[n - 1];
        Totals {
            succeeded: before.succeeded + (if t.condition_matched {
                1int
            } else {
                0
            }),
            skipped: before.skipped + (if t.condition_matched {
                0int
            } else {
                1
            }),
            added: before.added + t.summary.added,
            removed: before.removed + t.summary.removed,
            modified: before.modified + t.summary.modified,
            duration: before.duration + t.duration_us,
        }
    }
}

/// Whether the sums over traces can be held.
pub open spec fn totals_fit(traces: Seq<ExecutionTrace>) -> bool {
    let all = totals(traces, traces.len() as int);
    &&& all.added <= usize::MAX
    &&& all.removed <= usize::MAX
    &&& all.modified <= usize::MAX
    &&& all.duration <= u64::MAX
}

/// The statistics over traces.
pub open spec fn statistics_of(traces: Seq<ExecutionTrace>) -> TraceStatistics {
    let all = totals(traces, traces.len() as int);
    TraceStatistics {
        total_patches: traces.len() as usize,
        succeeded: all.succeeded as usize,
        skipped: all.skipped as usize,
        total_added: all.added as usize,
        total_removed: all.removed as usize,
        total_modified: all.modified as usize,
        total_duration_us: all.duration as u64,
        avg_duration_us: if all.succeeded > 0 {
            (all.duration / all.succeeded) as u64
        } else {
            0
        },
    }
}

/// Sums grow with the number of traces.
proof fn totals_grow(traces: Seq<ExecutionTrace>, n: int, m: int)
    requires
        0 <= n <= m <= traces.len(),
    ensures
        ({
            let a = totals(traces, n);
            let b = totals(traces, m);
            &&& 0 <= a.added <= b.added
            &&& 0 <= a.removed <= b.removed
            &&& 0 <= a.modified <= b.modified
            &&& 0 <= a.duration <= b.duration
            &&& 0 <= a.succeeded <= n
            &&& 0 <= a.skipped <= n
            &&& a.succeeded + a.skipped == n
        }),
    decreases m,
{
    if n < m {
        totals_grow(traces, n, m - 1);
    } else if n > 0 {
        totals_grow(traces, n - 1, n - 1);
    }
}

/// Every trace is of a patch that applied or of one that did not.
pub proof fn applied_or_skipped(traces: Seq<ExecutionTrace>)
    ensures
        ({
            let all = totals(traces, traces.len() as int);
            all.succeeded + all.skipped == traces.len()
        }),
{
    totals_grow(traces, traces.len() as int, traces.len() as int);
}

/// Whether a trace comes from a file whose name holds a text.
pub open spec fn from_file(t: TraceView, pattern: Seq<char>) -> bool {
    t.source.file matches Some(f) && contains_text(f, pattern)
}

/// Those of the first `n` traces that come from a file.
pub open spec fn traces_from_file(
    traces: Seq<ExecutionTrace>,
    pattern: Seq<char>,
    n: int,
) -> Seq<ExecutionTrace>
    decreases n,
{
    if n <= 0 {
        Seq::empty()
    } else if from_file(traces[n - 1]@, pattern) {
        traces_from_file(traces, pattern, n - 1).push(traces[n - 1])
    } else {
        traces_from_file(traces, pattern, n - 1)
    }
}

/// Those of the first `n` traces that are of an operation.
pub open spec fn traces_of_op(traces: Seq<ExecutionTrace>, op: OpView, n: int) -> Seq<
    ExecutionTrace,
>
    decreases n,
{
    if n <= 0 {
        Seq::empty()
    } else if traces[n - 1]@.op == op {
        traces_of_op(traces, op, n - 1).push(traces[n - 1])
    } else {
        traces_of_op(traces, op, n - 1)
    }
}

/// What references refer to.
pub open spec fn referred(v: Seq<&ExecutionTrace>) -> Seq<ExecutionTrace> {
    Seq::new(v.len(), |i: int| *v[i])
}

/// The paths of the first `n` patches, each where it appears first.
pub open spec fn first_paths(patches: Seq<PatchView>, n: int) -> Seq<Seq<char>>
    decreases n,
{
    if n <= 0 {
        Seq::empty()
    } else {
        let before = first_paths(patches, n - 1);
        if before.contains(patches[n - 1].path) {
            before
        } else {
            before.push(patches[n - 1].path)
        }
    }
}

/// The lines for the first `n` paths.
pub open spec fn path_lines(paths: Seq<Seq<char>>, n: int) -> Seq<char>
    decreases n,
{
    if n <= 0 {
        Seq::empty()
    } else {
        path_lines(paths, n - 1) + "   • "@ + paths[n - 1] + "\n"@
    }
}

/// A line across a report.
pub open spec fn rule_line() -> Seq<char> {
    Seq::new(50, |i: int| '─').push('\n')
}

/// The report on everything.
pub open spec fn whole_report(traces: Seq<ExecutionTrace>, patches: Seq<PatchView>) -> Seq<char> {
    let s = statistics_of(traces);
    let paths = first_paths(patches, patches.len() as int);
    let head = "╔══ Prism Engine 执行追踪报告 ══╗\n\n"@ + "📊 总览: "@ + decimal(
        s.total_patches as nat,
    ) + " 个 Patch | ✅ 成功 "@ + decimal(s.succeeded as nat) + " | ⏭️ 跳过 "@ + decimal(
        s.skipped as nat,
    ) + "\n"@ + "📝 变更: +"@ + decimal(s.total_added as nat) + " -"@ + decimal(
        s.total_removed as nat,
    ) + " ~"@ + decimal(s.total_modified as nat) + " | ⏱️ 总耗时 "@ + decimal(
        s.total_duration_us as nat,
    ) + "μs (均 "@ + decimal(s.avg_duration_us as nat) + "μs/patch)\n\n"@;
    let scope = if paths.len() > 0 {
        "📂 影响范围:\n"@ + path_lines(paths, paths.len() as int) + "\n"@
    } else {
        Seq::empty()
    };
    head + scope + rule_line() + diff_report(traces) + rule_line()
        + "Powered by Prism Engine — Apache 2.0\n"@
        + "Copyright 2026 Juwan Hwang (黄治文)\n"@
}

fn push_count(out: &mut Vec<char>, n: usize)
    ensures
        final(out)@ == old(out)@ + decimal(n as nat),
{
    push_decimal(out, n as u128);
}

fn push_item(out: &mut Vec<char>, item: &AffectedItem)
    ensures
        final(out)@ == old(out)@ + item_line(item@),
{
    let before: &str = match &item.before {
        Some(b) => b.as_str(),
        None => "?",
    };
    let after: &str = match &item.after {
        Some(a) => a.as_str(),
        None => "?",
    };
    let ghost o = out@;
    match item.action {
        TraceAction::Added => {
            push_text(out, "      + ");
            push_text(out, after);
            push_text(out, " (新增)\n");
        },
        TraceAction::Removed => {
            push_text(out, "      - ");
            push_text(out, before);
            push_text(out, " (删除)\n");
        },
        TraceAction::Modified => {
            push_text(out, "      ~ ");
            push_text(out, before);
            push_text(out, " → ");
            push_text(out, after);
            push_text(out, "\n");
        },
    }
    assert(out@ =~= o + item_line(item@));
}

fn push_summary(out: &mut Vec<char>, s: &TraceSummary)
    ensures
        final(out)@ == old(out)@ + summary_line(*s),
{
    let ghost o = out@;
    if s.added > 0 || s.removed > 0 || s.modified > 0 {
        push_text(out, "      摘要: +");
        push_count(out, s.added);
        push_text(out, " -");
        push_count(out, s.removed);
        push_text(out, " ~");
        push_count(out, s.modified);
        push_text(out, " [");
        push_count(out, s.kept);
        push_text(out, " unchanged]\n");
    }
    assert(out@ =~= o + summary_line(*s));
}

fn push_trace(out: &mut Vec<char>, t: &ExecutionTrace, number: usize)
    ensures
        final(out)@ == old(out)@ + trace_lines(*t, number as int),
{
    let ghost o = out@;
    let source = t.source.short_description();
    let change = t.describe_change();
    push_text(out, "  [");
    push_count(out, number);
    push_text(out, "] ");
    push_text(out, source.as_str());
    push_text(out, " — ");
    push_text(out, change.as_str());
    push_text(out, "\n");
    let ghost head = "  ["@ + decimal(number as nat) + "] "@ + source_text(t@.source) + " — "@
        + change_text(t@.op, t.summary, t.duration_us) + "\n"@;
    let ghost items = item_views(t.affected_items@);
    assert(out@ =~= o + head + item_lines(items, 0));
    let mut i: usize = 0;
    while i < t.affected_items.len()
        invariant
            i <= t.affected_items@.len(),
            items == item_views(t.affected_items@),
            out@ == o + head + item_lines(items, i as int),
        decreases t.affected_items@.len() - i,
    {
        assert(items[i as int] == t.affected_items@[i as int]@);
        push_item(out, &t.affected_items[i]);
        i = i + 1;
        assert(out@ =~= o + head + item_lines(items, i as int));
    }
    push_summary(out, &t.summary);
    assert(out@ =~= o + trace_lines(*t, number as int));
}

fn push_rule(out: &mut Vec<char>)
    ensures
        final(out)@ == old(out)@ + rule_line(),
{
    let ghost o = out@;
    let mut i: usize = 0;
    while i < 50
        invariant
            i <= 50,
            out@ == o + Seq::new(i as nat, |j: int| '─'),
        decreases 50 - i,
    {
        out.push('─');
        i = i + 1;
        assert(out@ =~= o + Seq::new(i as nat, |j: int| '─'));
    }
    out.push('\n');
    assert(out@ =~= o + rule_line());
}

fn same_segments(a: &[char], b: &[char]) -> (r: bool)
    ensures
        r == leads_to(split(a@, '.'), split(b@, '.')),
{
    let x = split_at_char(a, '.');
    let y = split_at_char(b, '.');
    let ghost p = pieces(x@);
    let ghost q = pieces(y@);
    if x.len() >= y.len() {
        return false;
    }
    let mut i: usize = 0;
    while i < x.len()
        invariant
            i <= x@.len() < y@.len(),
            p == pieces(x@),
            q == pieces(y@),
            p == split(a@, '.'),
            q == split(b@, '.'),
            forall|j: int| 0 <= j < i ==> p[j] == q[j],
        decreases x@.len() - i,
    {
        if !same(x[i], y[i]) {
            assert(q.take(p.len() as int)[i as int] != p[i as int]);
            return false;
        }
        assert(p[i as int] == q[i as int]);
        i = i + 1;
    }
    assert(q.take(p.len() as int) =~= p);
    true
}

fn lies_on_line(a: &str, b: &str) -> (r: bool)
    ensures
        r == on_one_line(a@, b@),
{
    let x = chars_of(a);
    let y = chars_of(b);
    same_text(a, b) || same_segments(x.as_slice(), y.as_slice()) || same_segments(
        y.as_slice(),
        x.as_slice(),
    )
}

fn is_keyed(description: &Option<String>, key: &str) -> (r: bool)
    ensures
        r == keyed(opt_text(*description), key@),
{
    match description {
        Some(d) => same_text(d.as_str(), key) || is_below(d.as_str(), key),
        None => false,
    }
}

fn holds_key(items: &Vec<AffectedItem>, key: &str) -> (r: bool)
    ensures
        r == has_key(item_views(items@), key@),
{
    let ghost all = item_views(items@);
    let mut i: usize = 0;
    while i < items.len()
        invariant
            i <= items@.len(),
            all == item_views(items@),
            forall|j: int|
                0 <= j < i ==> !(keyed((#[trigger] all[j]).before, key@) || keyed(
                    all[j].after,
                    key@,
                )),
        decreases items@.len() - i,
    {
        assert(all[i as int] == items@[i as int]@);
        if is_keyed(&items[i].before, key) || is_keyed(&items[i].after, key) {
            assert(keyed(all[i as int].before, key@) || keyed(all[i as int].after, key@));
            return true;
        }
        i = i + 1;
    }
    false
}

/// The text of an optional string slice.
pub open spec fn opt_str(o: Option<&str>) -> Option<Seq<char>> {
    match o {
        Some(s) => Some(s@),
        None => None,
    }
}

impl TraceManager {
    /// The patches, in order.
    pub open spec fn patches(&self) -> Seq<PatchView> {
        patch_views(self.patches@)
    }

    /// A manager without traces.
    pub fn new() -> (r: TraceManager)
        ensures
            r.traces@.len() == 0,
            r.patches() == Seq::<PatchView>::empty(),
    {
        let r = TraceManager { traces: Vec::new(), patches: Vec::new() };
        assert(r.patches() =~= Seq::empty());
        r
    }

    /// Adds a trace and the patch that left it.
    pub fn push(&mut self, trace: ExecutionTrace, patch: Patch)
        ensures
            final(self).traces@ == old(self).traces@.push(trace),
            final(self).patches() == old(self).patches().push(patch@),
    {
        let ghost before = self.patches();
        self.traces.push(trace);
        self.patches.push(patch);
        assert(self.patches() =~= before.push(patch@));
    }

    /// Takes over traces and the patches that left them, one for each.
    pub fn import(&mut self, traces: Vec<ExecutionTrace>, patches: Vec<Patch>) -> (r: Result<
        (),
        PrismError,
    >)
        ensures
            match r {
                Ok(_) => traces@.len() == patches@.len() && final(self).traces@ == traces@
                    && final(self).patches() == patch_views(patches@),
                Err(e) => traces@.len() != patches@.len() && *final(self) == *old(self) && (
                e matches PrismError::PatchExecutionFailed { patch_id, reason } && patch_id@
                    == "TraceManager::import"@ && reason@
                    == "traces 与 patches 长度不一致: traces="@ + decimal(traces@.len())
                    + " patches="@ + decimal(patches@.len())),
            },
    {
        if traces.len() != patches.len() {
            let a = count_text(traces.len());
            let b = count_text(patches.len());
            return Err(
                PrismError::PatchExecutionFailed {
                    patch_id: "TraceManager::import".to_owned(),
                    reason: four(
                        "traces 与 patches 长度不一致: traces=",
                        a.as_str(),
                        " patches=",
                        b.as_str(),
                    ),
                },
            );
        }
        self.traces = traces;
        self.patches = patches;
        Ok(())
    }

    /// The last patch with an identifier.
    fn find_patch(&self, id: &str) -> (r: Option<&Patch>)
        ensures
            match r {
                Some(p) => last_with_id(self.patches(), id@) == Some(p@),
                None => last_with_id(self.patches(), id@) is None,
            },
    {
        let ghost all = self.patches();
        let mut n: usize = self.patches.len();
        assert(all.take(all.len() as int) =~= all);
        while n > 0
            invariant
                n <= self.patches@.len(),
                all == patch_views(self.patches@),
                last_with_id(all, id@) == last_with_id(all.take(n as int), id@),
            decreases n,
        {
            assert(all.take(n as int).last() == self.patches@[n - 1]@);
            assert(all.take(n as int).drop_last() =~= all.take(n - 1));
            if same_text(self.patches[n - 1].id.as_str(), id) {
                return Some(&self.patches[n - 1]);
            }
            n = n - 1;
        }
        None
    }

    /// Whether a trace is about a path, by the path of its patch.
    fn trace_affects_path(&self, trace: &ExecutionTrace, path: &str) -> (r: bool)
        ensures
            r == concerns(trace@, self.patches(), path@),
    {
        match self.find_patch(trace.patch_id.as_str()) {
            Some(p) => lies_on_line(p.path.as_str(), path),
            None => false,
        }
    }

    /// Why something is in the configuration: what the traces say that are about
    /// a path, and about an element where one is asked for.
    pub fn explain_field(&self, field_path: &str, item_key: Option<&str>) -> (r: Vec<ExplainEntry>)
        ensures
            entry_views(r@) == explanations(
                self.traces@,
                self.patches(),
                field_path@,
                opt_str(item_key),
                self.traces@.len() as int,
            ),
    {
        let ghost patches = self.patches();
        let ghost key = opt_str(item_key);
        let mut out: Vec<ExplainEntry> = Vec::new();
        let mut i: usize = 0;
        assert(entry_views(out@) =~= Seq::empty());
        while i < self.traces.len()
            invariant
                i <= self.traces@.len(),
                patches == self.patches(),
                key == opt_str(item_key),
                entry_views(out@) == explanations(
                    self.traces@,
                    patches,
                    field_path@,
                    key,
                    i as int,
                ),
            decreases self.traces@.len() - i,
        {
            let t = &self.traces[i];
            let wanted: bool = t.condition_matched && t.source.file.is_some()
                && self.trace_affects_path(t, field_path) && (match item_key {
                Some(k) => holds_key(&t.affected_items, k),
                None => true,
            });
            if wanted {
                let ghost before = entry_views(out@);
                let e = ExplainEntry {
                    source: t.source.clone(),
                    op_name: t.op.display_name().to_owned(),
                    detail: t.describe_change(),
                };
                let ghost v = e@;
                out.push(e);
                assert(entry_views(out@) =~= before.push(v));
            }
            i = i + 1;
        }
        out
    }

    /// The first `target_step + 1` patches.
    fn first_patches(&self, target_step: usize) -> (r: Option<Vec<&Patch>>)
        ensures
            match r {
                Some(v) => target_step < self.patches().len() && patch_ref_views(v@)
                    == self.patches().take(target_step + 1),
                None => target_step >= self.patches().len(),
            },
    {
        let n: usize = self.patches.len();
        if target_step >= n {
            return None;
        }
        let ghost all = self.patches();
        let mut refs: Vec<&Patch> = Vec::new();
        let mut i: usize = 0;
        while i <= target_step
            invariant
                i <= target_step + 1,
                target_step < n,
                n == self.patches@.len(),
                all == patch_views(self.patches@),
                refs@.len() == i,
                forall|j: int| 0 <= j < i ==> (#[trigger] refs@[j])@ == all[j],
            decreases target_step + 1 - i,
        {
            refs.push(&self.patches[i]);
            i = i + 1;
        }
        assert(patch_ref_views(refs@) =~= all.take(target_step + 1));
        Some(refs)
    }

    /// The configuration after the first `target_step + 1` patches, at a time of
    /// day.
    pub fn replay_at_time(
        &self,
        target_step: usize,
        base_config: &Document,
        context: &ExecutionContext,
        time: TimeOfDay,
    ) -> (r: Option<Document>)
        requires
            time.valid(),
        ensures
            match r {
                Some(v) => target_step < self.patches().len() && v@ == ({
                    let list = self.patches().take(target_step + 1);
                    run(base_config@, context@, list, still(time, step_count(list))).0
                }),
                None => target_step >= self.patches().len(),
            },
    {
        let refs = match self.first_patches(target_step) {
            None => return None,
            Some(v) => v,
        };
        let mut executor = PatchExecutor::with_context(context.clone());
        match executor.execute_at(base_config.clone(), refs.as_slice(), time) {
            Ok(v) => Some(v),
            Err(_) => None,
        }
    }

    /// The configuration after the first `target_step + 1` patches.
    pub fn replay_at_step(
        &self,
        target_step: usize,
        base_config: &Document,
        context: &ExecutionContext,
    ) -> (r: Option<Document>)
        ensures
            match r {
                Some(v) => target_step < self.patches().len() && may_replay(
                    base_config@,
                    context@,
                    self.patches(),
                    target_step as int,
                    v@,
                ),
                None => target_step >= self.patches().len(),
            },
    {
        let refs = match self.first_patches(target_step) {
            None => return None,
            Some(v) => v,
        };
        let ghost all = self.patches();
        let mut executor = PatchExecutor::with_context(context.clone());
        match executor.execute(base_config.clone(), refs.as_slice()) {
            Ok(v) => {
                proof {
                    let list = all.take(target_step + 1);
                    let result = (v@, trace_views(executor.traces@));
                    let clock = choose|clock: Seq<int>|
                        clock_fits(clock, step_count(list)) && #[trigger] run(
                            base_config@,
                            context@,
                            list,
                            clock,
                        ) == result;
                    assert(run(base_config@, context@, list, clock).0 == v@);
                }
                Some(v)
            },
            Err(_) => None,
        }
    }

    /// The report on what the traces changed.
    pub fn diff_view_report(&self) -> (r: String)
        ensures
            r@ == diff_report(self.traces@),
    {
        if self.traces.len() == 0 {
            return "(无执行记录)".to_owned();
        }
        let mut out: Vec<char> = Vec::new();
        self.push_report(&mut out);
        assert(out@ =~= report_lines(self.traces@, self.traces@.len() as int));
        text_of(out.as_slice())
    }

    fn push_report(&self, out: &mut Vec<char>)
        ensures
            final(out)@ == old(out)@ + report_lines(self.traces@, self.traces@.len() as int),
    {
        let ghost o = out@;
        let mut i: usize = 0;
        assert(out@ =~= o + report_lines(self.traces@, 0));
        while i < self.traces.len()
            invariant
                i <= self.traces@.len(),
                out@ == o + report_lines(self.traces@, i as int),
            decreases self.traces@.len() - i,
        {
            push_trace(out, &self.traces[i], i + 1);
            i = i + 1;
            assert(out@ =~= o + report_lines(self.traces@, i as int));
        }
    }

    /// The statistics over the traces.
    pub fn statistics(&self) -> (r: TraceStatistics)
        requires
            totals_fit(self.traces@),
        ensures
            r == statistics_of(self.traces@),
    {
        let n: usize = self.traces.len();
        let mut succeeded: usize = 0;
        let mut skipped: usize = 0;
        let mut added: usize = 0;
        let mut removed: usize = 0;
        let mut modified: usize = 0;
        let mut duration: u64 = 0;
        let mut i: usize = 0;
        while i < n
            invariant
                i <= n,
                n == self.traces@.len(),
                totals_fit(self.traces@),
                ({
                    let a = totals(self.traces@, i as int);
                    &&& succeeded == a.succeeded
                    &&& skipped == a.skipped
                    &&& added == a.added
                    &&& removed == a.removed
                    &&& modified == a.modified
                    &&& duration == a.duration
                }),
            decreases n - i,
        {
            proof {
                totals_grow(self.traces@, i as int, i as int);
                totals_grow(self.traces@, i + 1, n as int);
            }
            let t = &self.traces[i];
            if t.condition_matched {
                succeeded = succeeded + 1;
            } else {
                skipped = skipped + 1;
            }
            added = added + t.summary.added;
            removed = removed + t.summary.removed;
            modified = modified + t.summary.modified;
            duration = duration + t.duration_us;
            i = i + 1;
        }
        proof {
            totals_grow(self.traces@, n as int, n as int);
        }
        let average: u64 = if succeeded > 0 {
            duration / succeeded as u64
        } else {
            0
        };
        TraceStatistics {
            total_patches: n,
            succeeded,
            skipped,
            total_added: added,
            total_removed: removed,
            total_modified: modified,
            total_duration_us: duration,
            avg_duration_us: average,
        }
    }

    /// The traces that come from a file whose name holds a text.
    pub fn filter_by_source_file(&self, file_pattern: &str) -> (r: Vec<&ExecutionTrace>)
        ensures
            referred(r@) == traces_from_file(
                self.traces@,
                file_pattern@,
                self.traces@.len() as int,
            ),
    {
        let pattern = chars_of(file_pattern);
        let mut out: Vec<&ExecutionTrace> = Vec::new();
        let mut i: usize = 0;
        assert(referred(out@) =~= Seq::empty());
        while i < self.traces.len()
            invariant
                i <= self.traces@.len(),
                pattern@ == file_pattern@,
                referred(out@) == traces_from_file(self.traces@, file_pattern@, i as int),
            decreases self.traces@.len() - i,
        {
            let wanted: bool = match &self.traces[i].source.file {
                Some(f) => {
                    let name = chars_of(f.as_str());
                    holds(name.as_slice(), pattern.as_slice())
                },
                None => false,
            };
            if wanted {
                let ghost before = referred(out@);
                out.push(&self.traces[i]);
                assert(referred(out@) =~= before.push(self.traces@[i as int]));
            }
            i = i + 1;
        }
        out
    }

    /// The traces of an operation.
    pub fn filter_by_op(&self, op: &PatchOp) -> (r: Vec<&ExecutionTrace>)
        ensures
            referred(r@) == traces_of_op(self.traces@, op@, self.traces@.len() as int),
    {
        let mut out: Vec<&ExecutionTrace> = Vec::new();
        let mut i: usize = 0;
        assert(referred(out@) =~= Seq::empty());
        while i < self.traces.len()
            invariant
                i <= self.traces@.len(),
                referred(out@) == traces_of_op(self.traces@, op@, i as int),
            decreases self.traces@.len() - i,
        {
            if self.traces[i].op.same(op) {
                let ghost before = referred(out@);
                out.push(&self.traces[i]);
                assert(referred(out@) =~= before.push(self.traces@[i as int]));
            }
            i = i + 1;
        }
        out
    }

    /// The paths of the patches, each once, in the order in which they appear.
    pub fn affected_paths(&self) -> (r: Vec<String>)
        ensures
            texts(r@) == first_paths(self.patches(), self.patches().len() as int),
    {
        let ghost all = self.patches();
        let mut out: Vec<String> = Vec::new();
        let mut i: usize = 0;
        assert(texts(out@) =~= Seq::empty());
        while i < self.patches.len()
            invariant
                i <= self.patches@.len(),
                all == patch_views(self.patches@),
                texts(out@) == first_paths(all, i as int),
            decreases self.patches@.len() - i,
        {
            assert(all[i as int] == self.patches@[i as int]@);
            if !is_listed(&out, self.patches[i].path.as_str()) {
                let ghost before = texts(out@);
                let path = self.patches[i].path.clone();
                let ghost v = path@;
                out.push(path);
                assert(texts(out@) =~= before.push(v));
            }
            i = i + 1;
        }
        out
    }

    /// The report on everything: statistics, paths and traces.
    pub fn full_report(&self) -> (r: String)
        requires
            totals_fit(self.traces@),
        ensures
            r@ == whole_report(self.traces@, self.patches()),
    {
        let s = self.statistics();
        let paths = self.affected_paths();
        let ghost names = texts(paths@);
        let mut out: Vec<char> = Vec::new();
        push_text(&mut out, "╔══ Prism Engine 执行追踪报告 ══╗\n\n");
        push_text(&mut out, "📊 总览: ");
        push_count(&mut out, s.total_patches);
        push_text(&mut out, " 个 Patch | ✅ 成功 ");
        push_count(&mut out, s.succeeded);
        push_text(&mut out, " | ⏭️ 跳过 ");
        push_count(&mut out, s.skipped);
        push_text(&mut out, "\n");
        push_text(&mut out, "📝 变更: +");
        push_count(&mut out, s.total_added);
        push_text(&mut out, " -");
        push_count(&mut out, s.total_removed);
        push_text(&mut out, " ~");
        push_count(&mut out, s.total_modified);
        push_text(&mut out, " | ⏱️ 总耗时 ");
        push_decimal(&mut out, s.total_duration_us as u128);
        push_text(&mut out, "μs (均 ");
        push_decimal(&mut out, s.avg_duration_us as u128);
        push_text(&mut out, "μs/patch)\n\n");
        let ghost head = out@;
        if paths.len() > 0 {
            push_text(&mut out, "📂 影响范围:\n");
            let ghost o = out@;
            let mut i: usize = 0;
            assert(out@ =~= o + path_lines(names, 0));
            while i < paths.len()
                invariant
                    i <= paths@.len(),
                    names == texts(paths@),
                    out@ == o + path_lines(names, i as int),
                decreases paths@.len() - i,
            {
                push_text(&mut out, "   • ");
                push_text(&mut out, paths[i].as_str());
                push_text(&mut out, "\n");
                i = i + 1;
                assert(out@ =~= o + path_lines(names, i as int));
            }
            push_text(&mut out, "\n");
        }
        push_rule(&mut out);
        let report = self.diff_view_report();
        push_text(&mut out, report.as_str());
        push_rule(&mut out);
        push_text(&mut out, "Powered by Prism Engine — Apache 2.0\n");
        push_text(&mut out, "Copyright 2026 Juwan Hwang (黄治文)\n");
        assert(out@ =~= whole_report(self.traces@, self.patches()));
        text_of(out.as_slice())
    }
}

fn is_listed(v: &Vec<String>, s: &str) -> (r: bool)
    ensures
        r == texts(v@).contains(s@),
{
    let ghost all = texts(v@);
    let mut i: usize = 0;
    while i < v.len()
        invariant
            i <= v@.len(),
            all == texts(v@),
            forall|j: int| 0 <= j < i ==> all[j] != s@,
        decreases v@.len() - i,
    {
        if same_text(v[i].as_str(), s) {
            assert(all[i as int] == s@);
            return true;
        }
        assert(all[i as int] != s@);
        i = i + 1;
    }
    false
}

impl Default for TraceManager {
    fn default() -> (r: TraceManager)
        ensures
            r.traces@.len() == 0,
            r.patches() == Seq::<PatchView>::empty(),
    {
        TraceManager::new()
    }
}

// ---------------------------------------------------------------------------
// Replaying one patch
// ---------------------------------------------------------------------------

/// The configuration after the first `n` operations of a patch.
pub open spec fn after_ops(c: Json, path: Seq<char>, ops: Seq<SubOpView>, n: int) -> Json
    decreases n,
{
    if n <= 0 {
        c
    } else {
        op_effect(after_ops(c, path, ops, n - 1), path, ops[n - 1].op, ops[n - 1].value).config
    }
}

/// Runs one operation.
pub fn apply_single_op(config: &mut Document, path: &str, op: &PatchOp, value: &Document)
    ensures
        final(config)@ == op_effect(old(config)@, path@, op@, value@).config,
{
    let _ = run_op(config, path, op, value);
}

/// Runs the operations of a patch in their order, whatever its scope and its
/// condition.
pub fn apply_patch_simple(config: &mut Document, patch: &Patch)
    ensures
        final(config)@ == after_ops(
            old(config)@,
            patch@.path,
            ops_in_order(patch@),
            ops_in_order(patch@).len() as int,
        ),
{
    let ghost c0 = config@;
    let ops = patch.all_ops();
    let ghost all = sub_op_views(ops@);
    let mut i: usize = 0;
    while i < ops.len()
        invariant
            i <= ops@.len(),
            all == sub_op_views(ops@),
            config@ == after_ops(c0, patch@.path, all, i as int),
        decreases ops@.len() - i,
    {
        assert(all[i as int] == ops@[i as int]@);
        apply_single_op(config, patch.path.as_str(), &ops[i].op, &ops[i].value);
        i = i + 1;
    }
}

// ---------------------------------------------------------------------------
// Laws
// ---------------------------------------------------------------------------

/// A replay gives the configuration that an execution of the same patches at
/// the same times ends with.
pub proof fn replay_is_execution(
    base: Json,
    ctx: ContextView,
    patches: Seq<PatchView>,
    k: int,
    result: (Json, Seq<TraceView>),
)
    requires
        0 <= k < patches.len(),
        may_run(base, ctx, patches.take(k + 1), result),
    ensures
        may_replay(base, ctx, patches, k, result.0),
{
    let list = patches.take(k + 1);
    let clock = choose|clock: Seq<int>|
        clock_fits(clock, step_count(list)) && #[trigger] run(base, ctx, list, clock) == result;
    assert(run(base, ctx, list, clock).0 == result.0);
}

/// Executing all patches is going on from a replay of the first ones: the
/// replay shows a configuration that the execution passes through.
pub proof fn execution_passes_through_replays(
    base: Json,
    ctx: ContextView,
    patches: Seq<PatchView>,
    k: int,
    first: Seq<int>,
    second: Seq<int>,
)
    requires
        0 <= k < patches.len(),
        first.len() == step_count(patches.take(k + 1)),
        second.len() == step_count(patches.skip(k + 1)),
    ensures
        run(base, ctx, patches, first + second).0 == run(
            run(base, ctx, patches.take(k + 1), first).0,
            ctx,
            patches.skip(k + 1),
            second,
        ).0,
{
    let a = patches.take(k + 1);
    let b = patches.skip(k + 1);
    assert(a + b =~= patches);
    run_in_parts(base, ctx, a, b, first, second);
}

proof fn simple_steps(c: Json, ctx: ContextView, p: PatchView, clock: Seq<int>, n: int)
    requires
        p.scope is Global || p.scope is Runtime,
        0 <= n <= sub_patches(p).len(),
    ensures
        sub_patches(p).len() == ops_in_order(p).len(),
        steps_run(c, ctx, sub_patches(p).take(n), clock, true).0 == after_ops(
            c,
            p.path,
            ops_in_order(p),
            n,
        ),
    decreases n,
{
    if n > 0 {
        simple_steps(c, ctx, p, clock, n - 1);
        let list = sub_patches(p).take(n);
        assert(list.drop_last() =~= sub_patches(p).take(n - 1));
        assert(list.last() == sub_patches(p)[n - 1]);
    }
}

/// For a patch that always applies, running its operations is executing it.
pub proof fn simple_application_is_execution(
    c: Json,
    ctx: ContextView,
    p: PatchView,
    clock: Seq<int>,
)
    requires
        p.scope is Global || p.scope is Runtime,
        p.condition is None,
    ensures
        patch_run(c, ctx, p, clock).0 == after_ops(
            c,
            p.path,
            ops_in_order(p),
            ops_in_order(p).len() as int,
        ),
{
    reveal(patch_run);
    let n = sub_patches(p).len() as int;
    simple_steps(c, ctx, p, clock, n);
    assert(sub_patches(p).take(n) =~= sub_patches(p));
}

/// No path is listed twice.
pub proof fn paths_are_listed_once(patches: Seq<PatchView>, n: int)
    requires
        0 <= n <= patches.len(),
    ensures
        first_paths(patches, n).no_duplicates(),
        forall|i: int| 0 <= i < n ==> first_paths(patches, n).contains(#[trigger] patches[i].path),
    decreases n,
{
    if n > 0 {
        paths_are_listed_once(patches, n - 1);
        let before = first_paths(patches, n - 1);
        let now = first_paths(patches, n);
        assert forall|i: int| 0 <= i < n implies now.contains(#[trigger] patches[i].path) by {
            if i < n - 1 {
                assert(before.contains(patches[i].path));
                let j = choose|j: int| 0 <= j < before.len() && before[j] == patches[i].path;
                assert(now[j] == patches[i].path);
            } else if !before.contains(patches[n - 1].path) {
                assert(now[now.len() - 1] == patches[n - 1].path);
            }
        }
    }
}

/// A path is related to itself and to what lies below it, and not to a path that
/// only begins with the same name.
pub proof fn which_paths_are_related(a: Seq<char>, c: char, rest: Seq<char>)
    requires
        c != '.',
    ensures
        related_paths(a, a),
        related_paths(a, a + seq!['.'] + rest),
        related_paths(a + seq!['.'] + rest, a),
        !related_paths(a, a + seq![c] + rest),
        !related_paths(a + seq![c] + rest, a),
{
    reveal_strlit(".");
    let below = a + seq!['.'] + rest;
    let beside = a + seq![c] + rest;
    assert(below.subrange(0, a.len() as int + 1) =~= a + "."@);
    assert(beside[a.len() as int] == c);
    assert((a + "."@)[a.len() as int] == '.');
    if starts_with(beside, a + "."@) {
        assert(beside.subrange(0, a.len() as int + 1)[a.len() as int] == '.');
    }
}

/// The pieces of a path are those of what stands before a dot and those of what
/// stands behind it.
proof fn pieces_in_parts(a: Seq<char>, b: Seq<char>)
    ensures
        split(a + seq!['.'] + b, '.') == split(a, '.') + split(b, '.'),
    decreases a.len(),
{
    if a.contains('.') {
        crate::text::char_index_first(a, '.');
        let i = crate::text::char_index(a, '.');
        if i >= a.len() {
            let j = choose|j: int| 0 <= j < a.len() && a[j] == '.';
            assert(a[j] != '.');
        }
        let head = a.subrange(0, i);
        let tail = a.subrange(i + 1, a.len() as int);
        assert(!head.contains('.'));
        pieces_in_parts(tail, b);
        crate::text::split_at_first(head, '.', tail + seq!['.'] + b);
        assert(head + seq!['.'] + (tail + seq!['.'] + b) =~= a + seq!['.'] + b);
        crate::text::split_at_first(head, '.', tail);
        assert(head + seq!['.'] + tail =~= a);
        assert(seq![head] + (split(tail, '.') + split(b, '.')) =~= (seq![head] + split(tail, '.'))
            + split(b, '.'));
    } else {
        crate::text::split_at_first(a, '.', b);
    }
}

/// Where the pieces of a path begin those of a longer one, the longer path is the
/// other, a dot, and more.
proof fn beginning_of_pieces(a: Seq<char>, b: Seq<char>)
    requires
        leads_to(split(a, '.'), split(b, '.')),
    ensures
        starts_with(b, a + seq!['.']),
    decreases a.len(),
{
    crate::text::char_index_first(b, '.');
    crate::text::split_len(a, '.');
    crate::text::split_len(b, '.');
    let sa = split(a, '.');
    let sb = split(b, '.');
    let j = crate::text::char_index(b, '.');
    assert(j < b.len());
    let x = b.subrange(0, j);
    let z = b.subrange(j + 1, b.len() as int);
    assert(sb == seq![x] + split(z, '.'));
    assert(sb.take(sa.len() as int)[0] == x);
    assert(b =~= x + seq!['.'] + z);
    if a.contains('.') {
        crate::text::char_index_first(a, '.');
        let i = crate::text::char_index(a, '.');
        if i >= a.len() {
            let k = choose|k: int| 0 <= k < a.len() && a[k] == '.';
            assert(a[k] != '.');
        }
        let y = a.subrange(i + 1, a.len() as int);
        assert(sa == seq![a.subrange(0, i)] + split(y, '.'));
        assert(sa[0] == a.subrange(0, i));
        assert(a =~= x + seq!['.'] + y);
        let sy = split(y, '.');
        let sz = split(z, '.');
        assert(sz.take(sy.len() as int) =~= sy) by {
            assert forall|k: int| 0 <= k < sy.len() implies sz[k] == sy[k] by {
                assert(sb[k + 1] == sz[k]);
                assert(sa[k + 1] == sy[k]);
                assert(sb.take(sa.len() as int)[k + 1] == sa[k + 1]);
            }
        }
        beginning_of_pieces(y, z);
        assert(z.subrange(0, y.len() as int + 1) == y + seq!['.']);
        assert(b.subrange(0, a.len() as int + 1) =~= x + seq!['.'] + z.subrange(
            0,
            y.len() as int + 1,
        ));
        assert(a + seq!['.'] =~= x + seq!['.'] + (y + seq!['.']));
    } else {
        crate::text::split_at_first(a, '.', a);
        assert(sa[0] == a);
        assert(b.subrange(0, a.len() as int + 1) =~= a + seq!['.']);
    }
}

/// Two paths are on one line exactly where one is the other or begins with the
/// other and a dot.
pub proof fn which_paths_are_on_one_line(a: Seq<char>, b: Seq<char>)
    ensures
        on_one_line(a, b) <==> related_paths(a, b),
{
    reveal_strlit(".");
    assert("."@ =~= seq!['.']);
    if leads_to(split(a, '.'), split(b, '.')) {
        beginning_of_pieces(a, b);
    }
    if leads_to(split(b, '.'), split(a, '.')) {
        beginning_of_pieces(b, a);
    }
    if starts_with(b, a + seq!['.']) {
        below_has_more_pieces(a, b);
    }
    if starts_with(a, b + seq!['.']) {
        below_has_more_pieces(b, a);
    }
}

proof fn below_has_more_pieces(a: Seq<char>, b: Seq<char>)
    requires
        starts_with(b, a + seq!['.']),
    ensures
        leads_to(split(a, '.'), split(b, '.')),
{
    let n = a.len() as int + 1;
    let rest = b.subrange(n, b.len() as int);
    assert(b =~= b.subrange(0, n) + rest);
    assert(b == a + seq!['.'] + rest);
    pieces_in_parts(a, rest);
    crate::text::split_len(rest, '.');
    let sa = split(a, '.');
    assert((sa + split(rest, '.')).take(sa.len() as int) =~= sa);
}

/// Of the patches with an identifier the last counts.
pub proof fn last_patch_counts(patches: Seq<PatchView>, id: Seq<char>)
    ensures
        match last_with_id(patches, id) {
            Some(p) => exists|i: int|
                0 <= i < patches.len() && #[trigger] patches[i] == p && p.id == id && forall|j: int|
                    i < j < patches.len() ==> (#[trigger] patches[j]).id != id,
            None => forall|j: int| 0 <= j < patches.len() ==> (#[trigger] patches[j]).id != id,
        },
    decreases patches.len(),
{
    if patches.len() > 0 {
        let front = patches.drop_last();
        if patches.last().id == id {
            assert(patches[patches.len() - 1] == patches.last());
        } else {
            last_patch_counts(front, id);
            if last_with_id(front, id) is Some {
                let p = last_with_id(front, id)->0;
                let i = choose|i: int|
                    0 <= i < front.len() && #[trigger] front[i] == p && p.id == id && forall|j: int|
                        i < j < front.len() ==> (#[trigger] front[j]).id != id;
                assert(patches[i] == p);
                assert forall|j: int| i < j < patches.len() implies (#[trigger] patches[j]).id
                    != id by {
                    if j < front.len() {
                        assert(front[j] == patches[j]);
                    }
                }
            } else {
                assert forall|j: int| 0 <= j < patches.len() implies (#[trigger] patches[j]).id
                    != id by {
                    if j < front.len() {
                        assert(front[j] == patches[j]);
                    }
                }
            }
        }
    }
}

/// A trace explains a path where it was taken, comes from a file, and its patch
/// works on the path, above it or below it; where an element is asked for, the
/// trace touched that element or what lies below it.
pub proof fn which_traces_explain(
    t: TraceView,
    before: Seq<PatchView>,
    p: PatchView,
    path: Seq<char>,
    key: Seq<char>,
)
    requires
        p.id == t.id,
    ensures
        explains(t, before.push(p), path, None) <==> t.matched && t.source.file is Some
            && related_paths(p.path, path),
        explains(t, before.push(p), path, Some(key)) <==> explains(
            t,
            before.push(p),
            path,
            None,
        ) && exists|i: int|
            0 <= i < t.items.len() && {
                ||| (#[trigger] t.items[i]).before matches Some(d) && (d == key || starts_with(
                    d,
                    key + "."@,
                ))
                ||| t.items[i].after matches Some(d) && (d == key || starts_with(d, key + "."@))
            },
{
    assert(before.push(p).last() == p);
    which_paths_are_on_one_line(p.path, path);
}

/// The answers come from the traces that explain, in their order.
pub proof fn answers_come_in_order(
    traces: Seq<ExecutionTrace>,
    patches: Seq<PatchView>,
    path: Seq<char>,
    key: Option<Seq<char>>,
    n: int,
)
    requires
        0 <= n <= traces.len(),
    ensures
        ({
            let told = traces.take(n).filter(
                |t: ExecutionTrace| explains(t@, patches, path, key),
            );
            let answers = explanations(traces, patches, path, key, n);
            &&& answers.len() == told.len()
            &&& forall|i: int|
                0 <= i < told.len() ==> (#[trigger] answers[i]).source == told[i]@.source
                    && answers[i].op_name == op_name(told[i]@.op)
        }),
    decreases n,
{
    reveal(Seq::filter);
    if n > 0 {
        answers_come_in_order(traces, patches, path, key, n - 1);
        assert(traces.take(n).drop_last() =~= traces.take(n - 1));
        assert(traces.take(n).last() == traces[n - 1]);
    }
}

/// The traces from a file are those whose file has the text in its name, and the
/// traces of an operation those of that operation, all in their order.
pub proof fn traces_are_selected(
    traces: Seq<ExecutionTrace>,
    pattern: Seq<char>,
    op: OpView,
    n: int,
)
    requires
        0 <= n <= traces.len(),
    ensures
        traces_from_file(traces, pattern, n) == traces.take(n).filter(
            |t: ExecutionTrace|
                t@.source.file matches Some(f) && exists|i: int|
                    #[trigger] crate::text::occurs_at(f, pattern, i),
        ),
        traces_of_op(traces, op, n) == traces.take(n).filter(|t: ExecutionTrace| t@.op == op),
    decreases n,
{
    reveal(Seq::filter);
    if n > 0 {
        traces_are_selected(traces, pattern, op, n - 1);
        assert(traces.take(n).drop_last() =~= traces.take(n - 1));
        assert(traces.take(n).last() == traces[n - 1]);
    }
}

/// One more trace adds its own counts and its own time to the sums, whether its
/// patch applied or not, and counts once.
pub proof fn sums_grow_by_one_trace(traces: Seq<ExecutionTrace>, t: ExecutionTrace)
    ensures
        ({
            let before = totals(traces, traces.len() as int);
            let after = totals(traces.push(t), traces.len() as int + 1);
            &&& after.added == before.added + t.summary.added
            &&& after.removed == before.removed + t.summary.removed
            &&& after.modified == before.modified + t.summary.modified
            &&& after.duration == before.duration + t.duration_us
            &&& t.condition_matched ==> after.succeeded == before.succeeded + 1 && after.skipped
                == before.skipped
            &&& !t.condition_matched ==> after.succeeded == before.succeeded && after.skipped
                == before.skipped + 1
        }),
{
    sums_of_the_first(traces, t, traces.len() as int);
    assert(traces.push(t)[traces.len() as int] == t);
}

proof fn sums_of_the_first(traces: Seq<ExecutionTrace>, t: ExecutionTrace, n: int)
    requires
        n <= traces.len(),
    ensures
        totals(traces.push(t), n) == totals(traces, n),
    decreases n,
{
    if n > 0 {
        sums_of_the_first(traces, t, n - 1);
        assert(traces.push(t)[n - 1] == traces[n - 1]);
    }
}

/// The mean time, times the patches that applied, comes to the whole time, up to
/// what is left of a microsecond for each; without such patches it is zero.
pub proof fn mean_time_makes_up_the_whole(traces: Seq<ExecutionTrace>)
    requires
        totals_fit(traces),
        traces.len() <= usize::MAX,
    ensures
        ({
            let s = statistics_of(traces);
            let applied = traces.filter(|t: ExecutionTrace| t.condition_matched).len();
            &&& s.total_patches == traces.len()
            &&& s.succeeded == applied
            &&& s.skipped == traces.len() - applied
            &&& applied == 0 ==> s.avg_duration_us == 0
            &&& applied > 0 ==> s.avg_duration_us * applied <= s.total_duration_us < (
            s.avg_duration_us + 1) * applied
        }),
{
    let n = traces.len() as int;
    totals_grow(traces, n, n);
    applied_are_counted(traces, n);
    assert(traces.take(n) =~= traces);
    let all = totals(traces, n);
    let d = all.duration;
    let k = all.succeeded;
    if k > 0 {
        assert(0 <= d / k <= d && (d / k) * k <= d && d < (d / k + 1) * k) by (nonlinear_arith)
            requires
                k > 0,
                d >= 0,
        ;
    }
}

proof fn applied_are_counted(traces: Seq<ExecutionTrace>, n: int)
    requires
        0 <= n <= traces.len(),
    ensures
        totals(traces, n).succeeded == traces.take(n).filter(
            |t: ExecutionTrace| t.condition_matched,
        ).len(),
    decreases n,
{
    reveal(Seq::filter);
    if n > 0 {
        applied_are_counted(traces, n - 1);
        assert(traces.take(n).drop_last() =~= traces.take(n - 1));
        assert(traces.take(n).last() == traces[n - 1]);
    }
}

/// A trace touches a path where one of its elements, before or after, is related to
/// it; only a trace without elements goes by the path of its patch.
pub proof fn what_a_trace_touches(
    items: Seq<ItemView>,
    i: int,
    path: Seq<char>,
    rest: Seq<char>,
    patch_path: Seq<char>,
)
    requires
        0 <= i < items.len(),
    ensures
        items[i].before == Some(path) || items[i].after == Some(path) ==> trace_touches(
            items,
            path,
            None,
        ) && trace_touches(items, path + seq!['.'] + rest, None),
        items[i].before == Some(path + seq!['.'] + rest) || items[i].after == Some(
            path + seq!['.'] + rest,
        ) ==> trace_touches(items, path, None),
        trace_touches(items, path, Some(patch_path)) == trace_touches(items, path, None),
        trace_touches(Seq::empty(), path, Some(patch_path)) <==> related_paths(patch_path, path),
        !trace_touches(Seq::empty(), path, None),
        (forall|j: int| #![trigger items[j]]
            0 <= j < items.len() ==> {
                &&& items[j].before matches Some(d) ==> !related_paths(d, path)
                &&& items[j].after matches Some(d) ==> !related_paths(d, path)
            }) ==> !trace_touches(items, path, None),
{
    which_paths_are_related(path, 'a', rest);
    let below = path + seq!['.'] + rest;
    assert(item_touches(items[i], path) ==> trace_touches(items, path, None));
    assert(item_touches(items[i], below) ==> trace_touches(items, below, None));
}

} // verus!
