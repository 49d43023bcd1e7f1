//! Execution of patches.

use vstd::prelude::*;
use vstd::slice::slice_subrange;
pub use crate::expr::ExprValue;
pub use crate::merge::deep_merge_json;
pub use crate::ops::{
    apply_append, apply_override, apply_prepend, apply_set_default, is_guarded_path, GUARDED_FIELDS,
};
pub use crate::predicate::evaluate_predicate;
pub use crate::transform::evaluate_transform_expr;
use crate::error::PrismError;
use crate::expr::{compiles, pattern_matches, Fault};
use crate::ir::{
    ops_in_order, opt_predicate, patch_ref_views, patch_views, sub_op_views, CompiledPredicate,
    Patch, PatchView, PredicateView, SubOpView,
};
use crate::merge::merged;
use crate::ops::{op_effect, run_op};
use crate::order::{
    arranged, in_text_order, indices, order_by, permutation_is_onto, permutes, sorted_positions,
    sorted_text_positions, str_texts, text_order, text_order_sorts,
};
use crate::outside::{
    instant_now, lowercase, micros_since, regex_escape, regex_escaped, regex_found,
};
use crate::predicate::predicate;
use crate::scope::{
    no_conditions, opt_platforms, platform_name, scope_priority, Conditions, Platform, Scope,
    ScopeView, TimeOfDay, TimeRange,
};
use crate::text::{
    chars_of, copy_text, is_text, opt_text, replace_each, replace_text, same_text, starts_with,
    text_lt, text_lt_irreflexive, text_lt_total, text_lt_transitive, text_of, tight, trim, trimmed,
};
use crate::trace::{
    item_views, no_summary, trace_views, AffectedItem, ExecutionTrace, TraceSummary, TraceView,
};
use crate::value::{field, ordered_throughout, Document, Json};

verus! {

// ---------------------------------------------------------------------------
// The context
// ---------------------------------------------------------------------------

/// What is known of the system that a configuration is for.
#[derive(Debug)]
pub struct ExecutionContext {
    /// The proxy core.
    pub core_type: Option<String>,
    /// The operating system.
    pub platform: Option<String>,
    /// The active profile.
    pub profile_name: Option<String>,
    /// The wireless network.
    pub ssid: Option<String>,
}

/// The model of [`ExecutionContext`].
#[verifier::ext_equal]
pub ghost struct ContextView {
    pub core_type: Option<Seq<char>>,
    pub platform: Option<Seq<char>>,
    pub profile_name: Option<Seq<char>>,
    pub ssid: Option<Seq<char>>,
}

impl ExecutionContext {
    pub open spec fn view(&self) -> ContextView {
        ContextView {
            core_type: opt_text(self.core_type),
            platform: opt_text(self.platform),
            profile_name: opt_text(self.profile_name),
            ssid: opt_text(self.ssid),
        }
    }
}

/// A context of which nothing is known.
pub open spec fn no_context() -> ContextView {
    ContextView { core_type: None, platform: None, profile_name: None, ssid: None }
}

impl Clone for ExecutionContext {
    fn clone(&self) -> (r: ExecutionContext)
        ensures
            r@ == self@,
    {
        ExecutionContext {
            core_type: copy_text(&self.core_type),
            platform: copy_text(&self.platform),
            profile_name: copy_text(&self.profile_name),
            ssid: copy_text(&self.ssid),
        }
    }
}

impl Default for ExecutionContext {
    fn default() -> (r: ExecutionContext)
        ensures
            r@ == no_context(),
    {
        ExecutionContext { core_type: None, platform: None, profile_name: None, ssid: None }
    }
}

// ---------------------------------------------------------------------------
// Conditions
// ---------------------------------------------------------------------------

/// Whether a text holds a wildcard.
pub open spec fn has_wildcard(s: Seq<char>) -> bool {
    s.contains('*') || s.contains('?')
}

/// The regular expression for a text with wildcards.
pub open spec fn wildcard_pattern(s: Seq<char>) -> Seq<char> {
    "^"@ + replace_each(
        replace_each(regex_escaped(s), seq!['\\', '*'], seq!['.', '*']),
        seq!['\\', '?'],
        seq!['.'],
    ) + "$"@
}

/// Whether a pattern compiles and is found in a text.
pub open spec fn pattern_found(pattern: Seq<char>, text: Seq<char>) -> bool {
    compiles(pattern) && regex_found(pattern, text)
}

/// Whether a profile fits the profile of a scope: the same name, a regular
/// expression between slashes, or a name with wildcards.
pub open spec fn profile_fits(name: Seq<char>, pattern: Seq<char>) -> bool {
    let p = trim(pattern);
    if name == pattern {
        true
    } else if p.len() > 2 && p[0] == '/' && p.last() == '/' {
        pattern_found(p.subrange(1, p.len() - 1), name)
    } else if has_wildcard(p) {
        pattern_found(wildcard_pattern(p), name)
    } else {
        false
    }
}

/// Whether a platform is the one of the context.
pub open spec fn platform_fits(p: Platform, wanted: Seq<char>) -> bool {
    ||| lowercase(platform_name(p)) == lowercase(wanted)
    ||| lowercase(platform_name(p)) == "all"@
    ||| lowercase(wanted) == "all"@
}

/// Whether the wireless network is the one that is wanted, if one is.
pub open spec fn ssid_fits(wanted: Option<Seq<char>>, have: Option<Seq<char>>) -> bool {
    wanted is None || have == wanted
}

/// Whether the proxy core is the one that is wanted, if one is; an unknown core
/// will do.
pub open spec fn core_fits(wanted: Option<Seq<char>>, have: Option<Seq<char>>) -> bool {
    wanted is None || have is None || have == wanted
}

/// Whether one of several platforms is the one of the context.
pub open spec fn platform_among(list: Seq<Platform>, wanted: Seq<char>) -> bool {
    exists|i: int| 0 <= i < list.len() && platform_fits(#[trigger] list[i], wanted)
}

/// Whether the platform is among those that are wanted, if any are; an unknown
/// platform will do.
pub open spec fn platforms_fit(wanted: Option<Seq<Platform>>, have: Option<Seq<char>>) -> bool {
    match (wanted, have) {
        (Some(list), Some(p)) => platform_among(list, p),
        _ => true,
    }
}

/// Whether the profile fits the one that is wanted, if one is; an unknown
/// profile will not do.
pub open spec fn profile_wanted_fits(wanted: Option<Seq<char>>, have: Option<Seq<char>>) -> bool {
    match (wanted, have) {
        (Some(p), Some(name)) => profile_fits(name, p),
        (Some(_), None) => false,
        _ => true,
    }
}

/// Whether a minute of the day lies in the range that is wanted, if one is.
pub open spec fn time_fits(wanted: Option<TimeRange>, minute: int) -> bool {
    match wanted {
        Some(t) => t.covers(minute),
        None => true,
    }
}

/// Whether all conditions hold in a context, at a minute of the day.
pub open spec fn conditions_hold(c: Conditions, ctx: ContextView, minute: int) -> bool {
    &&& c.enabled != Some(false)
    &&& ssid_fits(c.ssid, ctx.ssid)
    &&& time_fits(c.time_range, minute)
    &&& core_fits(c.core, ctx.core_type)
    &&& platforms_fit(c.platform, ctx.platform)
    &&& profile_wanted_fits(c.profile, ctx.profile_name)
}

/// Whether a scope applies in a context, at a minute of the day.
pub open spec fn scope_applies(s: ScopeView, ctx: ContextView, minute: int) -> bool {
    match s {
        ScopeView::Global => true,
        ScopeView::Profile(p) => ctx.profile_name matches Some(have) && profile_fits(have, p),
        ScopeView::Scoped(c) => conditions_hold(c, ctx, minute),
        ScopeView::Runtime => true,
    }
}

fn has_char(s: &[char], c: char) -> (r: bool)
    ensures
        r == s@.contains(c),
{
    let mut i: usize = 0;
    while i < s.len()
        invariant
            i <= s@.len(),
            forall|j: int| 0 <= j < i ==> s@[j] != c,
        decreases s@.len() - i,
    {
        if s[i] == c {
            assert(s@[i as int] == c);
            return true;
        }
        i = i + 1;
    }
    false
}

fn is_found(pattern: &str, text: &str) -> (r: bool)
    ensures
        r == pattern_found(pattern@, text@),
{
    match pattern_matches(pattern, text) {
        Ok(b) => b,
        Err(_) => false,
    }
}

fn pattern_of_wildcards(s: &[char]) -> (r: String)
    ensures
        r@ == wildcard_pattern(s@),
{
    let text = text_of(s);
    let escaped = regex_escape(text.as_str());
    let chars = chars_of(escaped.as_str());
    let star: [char; 2] = ['\\', '*'];
    let any: [char; 2] = ['.', '*'];
    let mark: [char; 2] = ['\\', '?'];
    let one: [char; 1] = ['.'];
    assert(star@ =~= seq!['\\', '*'] && any@ =~= seq!['.', '*']);
    assert(mark@ =~= seq!['\\', '?'] && one@ =~= seq!['.']);
    let step = replace_text(chars.as_slice(), &star, &any);
    let body = replace_text(step.as_slice(), &mark, &one);
    let middle = text_of(body.as_slice());
    crate::error::three("^", middle.as_str(), "$")
}

fn fits_platform(list: &Vec<Platform>, wanted: &str) -> (r: bool)
    ensures
        r == platform_among(list@, wanted@),
{
    let have = wanted.to_lowercase();
    let mut i: usize = 0;
    while i < list.len()
        invariant
            i <= list@.len(),
            have@ == lowercase(wanted@),
            forall|j: int| 0 <= j < i ==> !platform_fits(#[trigger] list@[j], wanted@),
        decreases list@.len() - i,
    {
        let name = list[i].name().to_lowercase();
        if same_text(name.as_str(), have.as_str()) || same_text(name.as_str(), "all") || same_text(
            have.as_str(),
            "all",
        ) {
            assert(platform_fits(list@[i as int], wanted@));
            return true;
        }
        i = i + 1;
    }
    false
}

fn ssid_ok(wanted: &Option<String>, have: &Option<String>) -> (r: bool)
    ensures
        r == ssid_fits(opt_text(*wanted), opt_text(*have)),
{
    match (wanted, have) {
        (Some(w), Some(h)) => same_text(h.as_str(), w.as_str()),
        (Some(_), None) => false,
        _ => true,
    }
}

fn core_ok(wanted: &Option<String>, have: &Option<String>) -> (r: bool)
    ensures
        r == core_fits(opt_text(*wanted), opt_text(*have)),
{
    match (wanted, have) {
        (Some(w), Some(h)) => same_text(w.as_str(), h.as_str()),
        _ => true,
    }
}

fn platform_ok(wanted: &Option<Vec<Platform>>, have: &Option<String>) -> (r: bool)
    ensures
        r == platforms_fit(opt_platforms(*wanted), opt_text(*have)),
{
    match (wanted, have) {
        (Some(list), Some(h)) => fits_platform(list, h.as_str()),
        _ => true,
    }
}

fn profile_ok(wanted: &Option<String>, have: &Option<String>) -> (r: bool)
    ensures
        r == profile_wanted_fits(opt_text(*wanted), opt_text(*have)),
{
    match (wanted, have) {
        (Some(p), Some(name)) => PatchExecutor::profile_matches(name.as_str(), p.as_str()),
        (Some(_), None) => false,
        _ => true,
    }
}

/// Whether a minute of the day is the time that is given, if one is.
pub open spec fn told(at: Option<TimeOfDay>, minute: int) -> bool {
    &&& 0 <= minute < 1440
    &&& at matches Some(t) ==> minute == t.minutes()
}

/// A minute of the day at which the time can be the one that is given.
pub open spec fn some_minute(at: Option<TimeOfDay>) -> int {
    match at {
        Some(t) => t.minutes(),
        None => 0,
    }
}

/// Whether a time that is given occurs on a clock.
pub open spec fn on_clock(at: Option<TimeOfDay>) -> bool {
    at matches Some(t) ==> t.valid()
}

fn time_ok(wanted: &Option<TimeRange>, at: Option<TimeOfDay>) -> (r: (bool, Ghost<int>))
    requires
        on_clock(at),
    ensures
        told(at, r.1@),
        r.0 == time_fits(*wanted, r.1@),
{
    match wanted {
        Some(t) => match at {
            Some(time) => (t.is_active_at(time), Ghost(time.minutes())),
            None => {
                let active = t.is_active_now();
                let minute: Ghost<int> = Ghost(
                    choose|m: int| 0 <= m < 1440 && active == #[trigger] t.covers(m),
                );
                (active, minute)
            },
        },
        None => (true, Ghost(some_minute(at))),
    }
}

/// Whether a patch applies in a context now.
///
/// Only the range of times of day of a scope depends on the clock.
pub fn check_patch_condition(patch: &Patch, context: &ExecutionContext) -> (r: bool)
    ensures
        exists|m: int|
            0 <= m < 1440 && r == #[trigger] scope_applies(patch@.scope, context@, m),
{
    let (r, minute) = condition_now(&patch.scope, context, None);
    proof {
        let m = minute@;
        assert(r == scope_applies(patch@.scope, context@, m));
    }
    r
}

/// Whether a patch applies in a context at a time of day.
pub fn check_patch_condition_at(
    patch: &Patch,
    context: &ExecutionContext,
    time: TimeOfDay,
) -> (r: bool)
    requires
        time.valid(),
    ensures
        r == scope_applies(patch@.scope, context@, time.minutes()),
{
    let (r, _minute) = condition_now(&patch.scope, context, Some(time));
    r
}

/// Whether a scope applies at the time that is given, or else now, and the minute
/// that it was asked at.
fn condition_now(scope: &Scope, context: &ExecutionContext, at: Option<TimeOfDay>) -> (r: (
    bool,
    Ghost<int>,
))
    requires
        on_clock(at),
    ensures
        told(at, r.1@),
        r.0 == scope_applies(scope@, context@, r.1@),
{
    let any: Ghost<int> = Ghost(some_minute(at));
    match scope {
        Scope::Global => (true, any),
        Scope::Runtime => (true, any),
        Scope::Profile(p) => match &context.profile_name {
            Some(have) => (PatchExecutor::profile_matches(have.as_str(), p.as_str()), any),
            None => (false, any),
        },
        Scope::Scoped { profile, platform, core, time_range, enabled, ssid } => {
            let (in_time, minute) = time_ok(time_range, at);
            let switched_on: bool = match enabled {
                Some(b) => *b,
                None => true,
            };
            let ok: bool = switched_on && in_time && ssid_ok(ssid, &context.ssid) && core_ok(
                core,
                &context.core_type,
            ) && platform_ok(platform, &context.platform) && profile_ok(
                profile,
                &context.profile_name,
            );
            (ok, minute)
        },
    }
}

/// Whether the condition of a patch holds of a configuration.  An expression
/// that fails does not hold.
pub open spec fn condition_holds(condition: Option<PredicateView>, c: Json) -> bool {
    match condition {
        None => true,
        Some(p) => trim(p.expr) == "true"@ || predicate(p.expr, c) == Ok::<bool, Fault>(true),
    }
}

fn holds_of(condition: &Option<CompiledPredicate>, config: &Document) -> (r: bool)
    ensures
        r == condition_holds(opt_predicate(*condition), config@),
{
    match condition {
        None => true,
        Some(p) => {
            let chars = chars_of(p.expr.as_str());
            if is_text(trimmed(chars.as_slice()), "true") {
                return true;
            }
            match evaluate_predicate(p.expr.as_str(), config) {
                Ok(b) => b,
                Err(_) => false,
            }
        },
    }
}

// ---------------------------------------------------------------------------
// Steps
// ---------------------------------------------------------------------------

/// A patch with one of its operations.
pub open spec fn sub_patch(p: PatchView, s: SubOpView) -> PatchView {
    PatchView { op: s.op, value: s.value, after: Seq::empty(), sub_ops: Seq::empty(), ..p }
}

/// The patches with one operation each that a patch stands for.
pub open spec fn sub_patches(p: PatchView) -> Seq<PatchView> {
    if p.sub_ops.len() == 0 {
        seq![p]
    } else {
        let ops = ops_in_order(p);
        Seq::new(ops.len(), |i: int| sub_patch(p, ops[i]))
    }
}

/// The number of steps that a list of patches stands for.
pub open spec fn step_count(patches: Seq<PatchView>) -> nat
    decreases patches.len(),
{
    if patches.len() == 0 {
        0
    } else {
        step_count(patches.drop_last()) + sub_patches(patches.last()).len()
    }
}

/// Whether a step of a patch is taken at a minute of the day, where `wanted`
/// tells whether the condition of the patch holds.
pub open spec fn step_taken(ctx: ContextView, p: PatchView, minute: int, wanted: bool) -> bool {
    wanted && scope_applies(p.scope, ctx, minute)
}

/// The configuration and the trace after a step.
pub open spec fn step(c: Json, ctx: ContextView, p: PatchView, minute: int, wanted: bool) -> (
    Json,
    TraceView,
) {
    if step_taken(ctx, p, minute, wanted) {
        let e = op_effect(c, p.path, p.op, p.value);
        (
            e.config,
            TraceView {
                id: p.id,
                source: p.source,
                op: p.op,
                matched: true,
                summary: e.summary,
                items: e.items,
                bulk: e.bulk,
                warnings: e.warnings,
            },
        )
    } else {
        (
            c,
            TraceView {
                id: p.id,
                source: p.source,
                op: p.op,
                matched: false,
                summary: no_summary(),
                items: Seq::empty(),
                bulk: None,
                warnings: Seq::empty(),
            },
        )
    }
}

/// The configuration and the traces after steps, the i-th of them at the
/// minute `clock[i]`.
pub open spec fn steps_run(
    c: Json,
    ctx: ContextView,
    list: Seq<PatchView>,
    clock: Seq<int>,
    wanted: bool,
) -> (Json, Seq<TraceView>)
    decreases list.len(),
{
    if list.len() == 0 {
        (c, Seq::empty())
    } else {
        let before = steps_run(c, ctx, list.drop_last(), clock, wanted);
        let last = step(before.0, ctx, list.last(), clock[list.len() - 1], wanted);
        (last.0, before.1.push(last.1))
    }
}

/// The configuration and the traces after the steps of a patch, whose condition
/// is asked once, before the first of them.
#[verifier::opaque]
pub open spec fn patch_run(c: Json, ctx: ContextView, p: PatchView, clock: Seq<int>) -> (
    Json,
    Seq<TraceView>,
) {
    steps_run(c, ctx, sub_patches(p), clock, condition_holds(p.condition, c))
}

/// The configuration and the traces after patches, whose i-th step is due at
/// the minute `clock[i]`.
pub open spec fn run(c: Json, ctx: ContextView, patches: Seq<PatchView>, clock: Seq<int>) -> (
    Json,
    Seq<TraceView>,
)
    decreases patches.len(),
{
    if patches.len() == 0 {
        (c, Seq::empty())
    } else {
        let init = patches.drop_last();
        let before = run(c, ctx, init, clock);
        let own = patch_run(before.0, ctx, patches.last(), clock.skip(step_count(init) as int));
        (own.0, before.1 + own.1)
    }
}

/// Whether a clock shows a minute of the day for each of `n` steps.
pub open spec fn clock_fits(clock: Seq<int>, n: nat) -> bool {
    clock.len() == n && forall|i: int| 0 <= i < clock.len() ==> 0 <= #[trigger] clock[i] < 1440
}

/// Whether patches can lead to a configuration and traces, whatever the time is.
pub open spec fn may_run(
    c: Json,
    ctx: ContextView,
    patches: Seq<PatchView>,
    result: (Json, Seq<TraceView>),
) -> bool {
    exists|clock: Seq<int>|
        clock_fits(clock, step_count(patches)) && #[trigger] run(c, ctx, patches, clock) == result
}

/// The clock that shows the same time at each of `n` steps.
pub open spec fn still(time: TimeOfDay, n: nat) -> Seq<int> {
    Seq::new(n, |i: int| time.minutes())
}

/// Whether a clock shows the time that is given, if one is, at each step.
pub open spec fn clock_told(at: Option<TimeOfDay>, clock: Seq<int>) -> bool {
    forall|i: int| 0 <= i < clock.len() ==> told(at, #[trigger] clock[i])
}

/// Only the minutes of the steps themselves count.
pub proof fn steps_prefix_clock(
    c: Json,
    ctx: ContextView,
    list: Seq<PatchView>,
    clock: Seq<int>,
    other: Seq<int>,
    wanted: bool,
)
    requires
        forall|i: int| 0 <= i < list.len() ==> #[trigger] clock[i] == other[i],
    ensures
        steps_run(c, ctx, list, clock, wanted) == steps_run(c, ctx, list, other, wanted),
    decreases list.len(),
{
    if list.len() > 0 {
        steps_prefix_clock(c, ctx, list.drop_last(), clock, other, wanted);
        assert(clock[list.len() - 1] == other[list.len() - 1]);
    }
}

/// Only the minutes of the steps of the patches themselves count.
pub proof fn run_prefix_clock(
    c: Json,
    ctx: ContextView,
    patches: Seq<PatchView>,
    clock: Seq<int>,
    other: Seq<int>,
)
    requires
        step_count(patches) <= clock.len(),
        step_count(patches) <= other.len(),
        forall|i: int| 0 <= i < step_count(patches) ==> #[trigger] clock[i] == other[i],
    ensures
        run(c, ctx, patches, clock) == run(c, ctx, patches, other),
    decreases patches.len(),
{
    reveal(patch_run);
    if patches.len() > 0 {
        let init = patches.drop_last();
        let last = patches.last();
        let n = step_count(init) as int;
        run_prefix_clock(c, ctx, init, clock, other);
        let mid = run(c, ctx, init, clock).0;
        let list = sub_patches(last);
        assert forall|i: int| 0 <= i < list.len() implies #[trigger] clock.skip(n)[i]
            == other.skip(n)[i] by {
            assert(clock[n + i] == other[n + i]);
        }
        steps_prefix_clock(
            mid,
            ctx,
            list,
            clock.skip(n),
            other.skip(n),
            condition_holds(last.condition, mid),
        );
    }
}

/// The steps of two lists of patches.
pub proof fn steps_in_parts(a: Seq<PatchView>, b: Seq<PatchView>)
    ensures
        step_count(a + b) == step_count(a) + step_count(b),
    decreases b.len(),
{
    if b.len() == 0 {
        assert(a + b =~= a);
    } else {
        assert((a + b).drop_last() =~= a + b.drop_last());
        steps_in_parts(a, b.drop_last());
    }
}

proof fn run_one_more(c: Json, ctx: ContextView, patches: Seq<PatchView>, clock: Seq<int>)
    requires
        patches.len() > 0,
    ensures
        ({
            let init = patches.drop_last();
            let before = run(c, ctx, init, clock);
            let own = patch_run(before.0, ctx, patches.last(), clock.skip(step_count(init) as int));
            run(c, ctx, patches, clock) == (own.0, before.1 + own.1)
        }),
{
}

/// Runs that end in the same patch, the longer of which has other traces before.
proof fn same_last_patch(
    earlier: Seq<TraceView>,
    short: (Json, Seq<TraceView>),
    own: (Json, Seq<TraceView>),
    whole: (Json, Seq<TraceView>),
    part: (Json, Seq<TraceView>),
)
    requires
        whole == (own.0, (earlier + short.1) + own.1),
        part == (own.0, short.1 + own.1),
    ensures
        whole == (part.0, earlier + part.1),
{
    assert((earlier + short.1) + own.1 =~= earlier + (short.1 + own.1));
}

/// What comes before the last patch of a run in two parts.
proof fn run_but_last(
    c: Json,
    ctx: ContextView,
    a: Seq<PatchView>,
    b: Seq<PatchView>,
    ca: Seq<int>,
    cb: Seq<int>,
)
    requires
        b.len() > 0,
        ca.len() == step_count(a),
        cb.len() == step_count(b),
    ensures
        run(c, ctx, a + b.drop_last(), ca + cb) == ({
            let first = run(c, ctx, a, ca);
            let second = run(first.0, ctx, b.drop_last(), cb);
            (second.0, first.1 + second.1)
        }),
    decreases b.len(), 0int,
{
    let init = b.drop_last();
    let early = cb.take(step_count(init) as int);
    steps_in_parts(a, init);
    run_in_parts(c, ctx, a, init, ca, early);
    run_prefix_clock(c, ctx, a + init, ca + early, ca + cb);
    run_prefix_clock(run(c, ctx, a, ca).0, ctx, init, early, cb);
}

/// Running two lists of patches one after the other is running them as one.
pub proof fn run_in_parts(
    c: Json,
    ctx: ContextView,
    a: Seq<PatchView>,
    b: Seq<PatchView>,
    ca: Seq<int>,
    cb: Seq<int>,
)
    requires
        ca.len() == step_count(a),
        cb.len() == step_count(b),
    ensures
        run(c, ctx, a + b, ca + cb) == ({
            let first = run(c, ctx, a, ca);
            let second = run(first.0, ctx, b, cb);
            (second.0, first.1 + second.1)
        }),
    decreases b.len(), 1int,
{
    let first = run(c, ctx, a, ca);
    if b.len() == 0 {
        assert(a + b =~= a);
        assert(ca + cb =~= ca);
        assert(first.1 + Seq::<TraceView>::empty() =~= first.1);
    } else {
        let init = b.drop_last();
        let whole = a + b;
        let m = step_count(init) as int;
        let n = step_count(a + init) as int;
        assert(whole.drop_last() =~= a + init);
        assert(whole.last() == b.last());
        steps_in_parts(a, init);
        let second = run(first.0, ctx, init, cb);
        run_but_last(c, ctx, a, b, ca, cb);
        assert((ca + cb).skip(n) =~= cb.skip(m));
        let own = patch_run(second.0, ctx, b.last(), cb.skip(m));
        run_one_more(c, ctx, whole, ca + cb);
        run_one_more(first.0, ctx, b, cb);
        same_last_patch(
            first.1,
            second,
            own,
            run(c, ctx, whole, ca + cb),
            run(first.0, ctx, b, cb),
        );
    }
}

/// Every step of a patch leaves one trace.
pub proof fn one_trace_per_step(
    c: Json,
    ctx: ContextView,
    list: Seq<PatchView>,
    clock: Seq<int>,
    wanted: bool,
)
    ensures
        steps_run(c, ctx, list, clock, wanted).1.len() == list.len(),
    decreases list.len(),
{
    if list.len() > 0 {
        one_trace_per_step(c, ctx, list.drop_last(), clock, wanted);
    }
}

/// Every step of every patch leaves one trace.
pub proof fn one_trace_each(c: Json, ctx: ContextView, patches: Seq<PatchView>, clock: Seq<int>)
    ensures
        run(c, ctx, patches, clock).1.len() == step_count(patches),
    decreases patches.len(),
{
    reveal(patch_run);
    if patches.len() > 0 {
        let init = patches.drop_last();
        let last = patches.last();
        let mid = run(c, ctx, init, clock).0;
        one_trace_each(c, ctx, init, clock);
        one_trace_per_step(
            mid,
            ctx,
            sub_patches(last),
            clock.skip(step_count(init) as int),
            condition_holds(last.condition, mid),
        );
    }
}

// ---------------------------------------------------------------------------
// The executor
// ---------------------------------------------------------------------------

/// Applies patches to a configuration and keeps a record of what they did.
pub struct PatchExecutor {
    /// The traces of the last execution.
    pub traces: Vec<ExecutionTrace>,
    /// The system that the configuration is for.
    pub context: ExecutionContext,
}

/// The groups of profile patches, by name.
pub open spec fn group_views(v: Seq<(String, Vec<&Patch>)>) -> Seq<(Seq<char>, Seq<PatchView>)> {
    Seq::new(v.len(), |i: int| (v[i].0@, patch_ref_views(v[i].1@)))
}

/// The names of groups.
pub open spec fn group_names(g: Seq<(Seq<char>, Seq<PatchView>)>) -> Seq<Seq<char>> {
    Seq::new(g.len(), |i: int| g[i].0)
}

/// Groups in the order of their names.
pub open spec fn sorted_groups(g: Seq<(Seq<char>, Seq<PatchView>)>) -> Seq<
    (Seq<char>, Seq<PatchView>),
> {
    arranged(g, text_order(group_names(g)))
}

/// The priorities of patches.
pub open spec fn priorities(p: Seq<PatchView>) -> Seq<int> {
    Seq::new(p.len(), |i: int| scope_priority(p[i].scope))
}

/// Patches in the order of their priorities.
pub open spec fn by_priority(p: Seq<PatchView>) -> Seq<PatchView> {
    arranged(p, order_by(priorities(p)))
}

/// The context with a profile.
pub open spec fn in_profile(ctx: ContextView, name: Seq<char>) -> ContextView {
    ContextView { profile_name: Some(name), ..ctx }
}

/// What a group of profile patches makes of the base configuration.
pub open spec fn group_run(
    base: Json,
    ctx: ContextView,
    group: (Seq<char>, Seq<PatchView>),
    clock: Seq<int>,
) -> (Json, Seq<TraceView>) {
    run(base, in_profile(ctx, group.0), group.1, clock)
}

/// The base configuration with what the first `n` groups make of it merged in,
/// one after the other, and the traces of the groups.
pub open spec fn profiles_run(
    base: Json,
    ctx: ContextView,
    groups: Seq<(Seq<char>, Seq<PatchView>)>,
    clocks: Seq<Seq<int>>,
    n: int,
) -> (Json, Seq<TraceView>)
    decreases n,
{
    if n <= 0 {
        (base, Seq::empty())
    } else {
        let before = profiles_run(base, ctx, groups, clocks, n - 1);
        let own = group_run(base, ctx, groups[n - 1], clocks[n - 1]);
        (merged(before.0, own.0), before.1 + own.1)
    }
}

/// Whether there is a fitting clock for each of the first `n` groups.
pub open spec fn clocks_fit(
    groups: Seq<(Seq<char>, Seq<PatchView>)>,
    clocks: Seq<Seq<int>>,
    n: int,
) -> bool {
    clocks.len() == n && forall|i: int|
        0 <= i < n ==> clock_fits(#[trigger] clocks[i], step_count(groups[i].1))
}

/// Clocks that show the same time at every step of every group.
pub open spec fn still_clocks(
    time: TimeOfDay,
    groups: Seq<(Seq<char>, Seq<PatchView>)>,
) -> Seq<Seq<int>> {
    Seq::new(groups.len(), |k: int| still(time, step_count(groups[k].1)))
}

/// The two phases: each profile on a copy of the base configuration, merged in
/// the order of their names; then the shared patches in the order of their
/// priorities.
pub open spec fn pipeline(
    base: Json,
    ctx: ContextView,
    groups: Seq<(Seq<char>, Seq<PatchView>)>,
    shared: Seq<PatchView>,
    clocks: Seq<Seq<int>>,
    clock: Seq<int>,
) -> (Json, Seq<TraceView>) {
    let first = profiles_run(base, ctx, sorted_groups(groups), clocks, groups.len() as int);
    let second = run(first.0, ctx, by_priority(shared), clock);
    (second.0, first.1 + second.1)
}

/// What the two phases make of a configuration, at a time of day.
pub open spec fn pipeline_at(
    base: Json,
    ctx: ContextView,
    groups: Seq<(Seq<char>, Seq<PatchView>)>,
    shared: Seq<PatchView>,
    time: TimeOfDay,
) -> (Json, Seq<TraceView>) {
    pipeline(
        base,
        ctx,
        groups,
        shared,
        still_clocks(time, sorted_groups(groups)),
        still(time, step_count(by_priority(shared))),
    )
}

/// Whether the two phases can lead to a configuration and traces, whatever the
/// time is.
pub open spec fn may_pipeline(
    base: Json,
    ctx: ContextView,
    groups: Seq<(Seq<char>, Seq<PatchView>)>,
    shared: Seq<PatchView>,
    result: (Json, Seq<TraceView>),
) -> bool {
    exists|clocks: Seq<Seq<int>>, clock: Seq<int>|
        clocks_fit(sorted_groups(groups), clocks, groups.len() as int) && clock_fits(
            clock,
            step_count(by_priority(shared)),
        ) && #[trigger] pipeline(base, ctx, groups, shared, clocks, clock) == result
}

impl PatchExecutor {
    /// An executor that knows nothing of the system.
    pub fn new() -> (r: PatchExecutor)
        ensures
            r.traces@.len() == 0,
            r.context@ == no_context(),
    {
        PatchExecutor { traces: Vec::new(), context: ExecutionContext::default() }
    }

    /// An executor for a system.
    pub fn with_context(context: ExecutionContext) -> (r: PatchExecutor)
        ensures
            r.traces@.len() == 0,
            r.context == context,
    {
        PatchExecutor { traces: Vec::new(), context }
    }

    /// Whether a profile fits the profile of a scope.
    pub fn profile_matches(profile_name: &str, scope_profile: &str) -> (r: bool)
        ensures
            r == profile_fits(profile_name@, scope_profile@),
    {
        if same_text(profile_name, scope_profile) {
            return true;
        }
        let chars = chars_of(scope_profile);
        let p = trimmed(chars.as_slice());
        let n: usize = p.len();
        if n > 2 && p[0] == '/' && p[n - 1] == '/' {
            let inner = text_of(slice_subrange(p, 1, n - 1));
            return is_found(inner.as_str(), profile_name);
        }
        if has_char(p, '*') || has_char(p, '?') {
            let pattern = pattern_of_wildcards(p);
            return is_found(pattern.as_str(), profile_name);
        }
        false
    }

    /// The patches with one operation each that a patch stands for.
    fn prepare_sub_patches(patch: &Patch) -> (r: Vec<Patch>)
        ensures
            patch_views(r@) == sub_patches(patch@),
    {
        let mut out: Vec<Patch> = Vec::new();
        if !patch.is_composite() {
            out.push(patch.clone());
            assert(patch_views(out@) =~= sub_patches(patch@));
            return out;
        }
        let ops = patch.all_ops();
        let ghost all = sub_op_views(ops@);
        let mut i: usize = 0;
        while i < ops.len()
            invariant
                i <= ops@.len(),
                all == sub_op_views(ops@),
                out@.len() == i,
                forall|j: int|
                    0 <= j < i ==> (#[trigger] out@[j])@ == sub_patch(patch@, all[j]),
            decreases ops@.len() - i,
        {
            assert(all[i as int] == ops@[i as int]@);
            let p = Patch {
                id: patch.id.clone(),
                source: patch.source.clone(),
                scope: patch.scope.clone(),
                path: patch.path.clone(),
                op: ops[i].op.clone(),
                value: ops[i].value.clone(),
                condition: crate::ir::copy_predicate(&patch.condition),
                after: Vec::new(),
                sub_ops: Vec::new(),
            };
            assert(p@.after =~= Seq::empty());
            assert(p@.sub_ops =~= Seq::empty());
            out.push(p);
            i = i + 1;
        }
        assert(patch_views(out@) =~= sub_patches(patch@));
        out
    }

    /// Takes one step.
    fn apply_patch_in_place(
        context: &ExecutionContext,
        at: Option<TimeOfDay>,
        config: &mut Document,
        patch: &Patch,
        wanted: bool,
    ) -> (r: (ExecutionTrace, Ghost<int>))
        requires
            on_clock(at),
        ensures
            told(at, r.1@),
            (final(config)@, r.0@) == step(old(config)@, context@, patch@, r.1@, wanted),
    {
        let (applies, minute) = condition_now(&patch.scope, context, at);
        let id = patch.id.clone();
        let source = patch.source.clone();
        let op = patch.op.clone();
        if !applies || !wanted {
            let none: Vec<AffectedItem> = Vec::new();
            assert(item_views(none@) =~= Seq::empty());
            let summary = TraceSummary::new(0, 0, 0, 0, 0, 0);
            return (ExecutionTrace::new(id, source, op, 0, false, summary, none), minute);
        }
        let report = run_op(config, patch.path.as_str(), &patch.op, &patch.value);
        let trace = match report.bulk {
            Some(bulk) => ExecutionTrace::with_bulk_items(
                id,
                source,
                op,
                0,
                true,
                report.summary,
                report.items,
                bulk,
            ),
            None => ExecutionTrace::new(id, source, op, 0, true, report.summary, report.items),
        };
        (trace.with_warnings(report.warnings), minute)
    }

    /// Takes the steps of one patch.
    fn run_patch(
        context: &ExecutionContext,
        at: Option<TimeOfDay>,
        config: &mut Document,
        patch: &Patch,
        traces: &mut Vec<ExecutionTrace>,
    ) -> (clock: Ghost<Seq<int>>)
        requires
            on_clock(at),
        ensures
            clock_fits(clock@, sub_patches(patch@).len()),
            clock_told(at, clock@),
            final(config)@ == patch_run(old(config)@, context@, patch@, clock@).0,
            trace_views(final(traces)@) == trace_views(old(traces)@) + patch_run(
                old(config)@,
                context@,
                patch@,
                clock@,
            ).1,
    {
        reveal(patch_run);
        let subs = PatchExecutor::prepare_sub_patches(patch);
        let ghost list = patch_views(subs@);
        let ghost c0 = config@;
        let ghost t0 = trace_views(traces@);
        let wanted: bool = holds_of(&patch.condition, config);
        let mut clock: Ghost<Seq<int>> = Ghost(Seq::empty());
        let mut i: usize = 0;
        assert(list.take(0) =~= Seq::empty());
        assert(t0 + Seq::<TraceView>::empty() =~= t0);
        while i < subs.len()
            invariant
                i <= subs@.len(),
                on_clock(at),
                list == patch_views(subs@),
                clock_fits(clock@, i as nat),
                clock_told(at, clock@),
                config@ == steps_run(c0, context@, list.take(i as int), clock@, wanted).0,
                trace_views(traces@) == t0 + steps_run(
                    c0,
                    context@,
                    list.take(i as int),
                    clock@,
                    wanted,
                ).1,
            decreases subs@.len() - i,
        {
            let ghost before = steps_run(c0, context@, list.take(i as int), clock@, wanted);
            let ghost ts = trace_views(traces@);
            let start = instant_now();
            let (trace, minute) = PatchExecutor::apply_patch_in_place(
                context,
                at,
                config,
                &subs[i],
                wanted,
            );
            let mut trace = trace;
            trace.duration_us = micros_since(&start);
            let ghost t = trace@;
            traces.push(trace);
            assert(trace_views(traces@) =~= ts.push(t));
            proof {
                let old_clock = clock@;
                let new_clock = old_clock.push(minute@);
                clock@ = new_clock;
                let part = list.take(i + 1);
                assert(part.drop_last() =~= list.take(i as int));
                assert(part.last() == subs@[i as int]@);
                steps_prefix_clock(
                    c0,
                    context@,
                    list.take(i as int),
                    old_clock,
                    new_clock,
                    wanted,
                );
                assert(new_clock[part.len() - 1] == minute@);
                assert((t0 + before.1).push(t) =~= t0 + before.1.push(t));
            }
            i = i + 1;
        }
        assert(list.take(list.len() as int) =~= list);
        clock
    }

    /// Takes the steps of several patches.
    fn run_patches(
        context: &ExecutionContext,
        at: Option<TimeOfDay>,
        config: &mut Document,
        patches: &[&Patch],
        traces: &mut Vec<ExecutionTrace>,
    ) -> (clock: Ghost<Seq<int>>)
        requires
            on_clock(at),
        ensures
            clock_fits(clock@, step_count(patch_ref_views(patches@))),
            clock_told(at, clock@),
            final(config)@ == run(
                old(config)@,
                context@,
                patch_ref_views(patches@),
                clock@,
            ).0,
            trace_views(final(traces)@) == trace_views(old(traces)@) + run(
                old(config)@,
                context@,
                patch_ref_views(patches@),
                clock@,
            ).1,
    {
        let ghost all = patch_ref_views(patches@);
        let ghost c0 = config@;
        let ghost t0 = trace_views(traces@);
        let mut clock: Ghost<Seq<int>> = Ghost(Seq::empty());
        let mut i: usize = 0;
        assert(all.take(0) =~= Seq::empty());
        assert(t0 + Seq::<TraceView>::empty() =~= t0);
        while i < patches.len()
            invariant
                i <= patches@.len(),
                on_clock(at),
                all == patch_ref_views(patches@),
                clock_fits(clock@, step_count(all.take(i as int))),
                clock_told(at, clock@),
                config@ == run(c0, context@, all.take(i as int), clock@).0,
                trace_views(traces@) == t0 + run(c0, context@, all.take(i as int), clock@).1,
            decreases patches@.len() - i,
        {
            let ghost done = all.take(i as int);
            let ghost before = run(c0, context@, done, clock@);
            let ghost p = all[i as int];
            let own = PatchExecutor::run_patch(context, at, config, patches[i], traces);
            proof {
                let after = patch_run(before.0, context@, p, own@);
                let whole = clock@ + own@;
                assert(all.take(i + 1).drop_last() =~= done);
                assert(all.take(i + 1).last() == p);
                run_prefix_clock(c0, context@, done, clock@, whole);
                assert(whole.skip(step_count(done) as int) =~= own@);
                assert(t0 + before.1 + after.1 =~= t0 + (before.1 + after.1));
                clock@ = whole;
            }
            i = i + 1;
        }
        assert(all.take(all.len() as int) =~= all);
        clock
    }

    /// Applies patches, one after the other, to a configuration.
    ///
    /// A patch with several operations takes one step for each of them; its
    /// condition is asked once, before the first.
    pub fn execute(&mut self, config: Document, patches: &[&Patch]) -> (r: Result<Document, PrismError>)
        ensures
            final(self).context == old(self).context,
            r matches Ok(v) && may_run(
                config@,
                old(self).context@,
                patch_ref_views(patches@),
                (v@, trace_views(final(self).traces@)),
            ),
    {
        let mut config = config;
        let ghost c0 = config@;
        let ghost ctx = self.context@;
        let clock = self.run_all(None, &mut config, patches);
        assert(run(c0, ctx, patch_ref_views(patches@), clock@) == (
            config@,
            trace_views(self.traces@),
        ));
        Ok(config)
    }

    /// Applies patches, one after the other, to a configuration, at a time of
    /// day.
    pub fn execute_at(&mut self, config: Document, patches: &[&Patch], time: TimeOfDay) -> (r: Result<
        Document,
        PrismError,
    >)
        requires
            time.valid(),
        ensures
            final(self).context == old(self).context,
            r matches Ok(v) && (v@, trace_views(final(self).traces@)) == run(
                config@,
                old(self).context@,
                patch_ref_views(patches@),
                still(time, step_count(patch_ref_views(patches@))),
            ),
    {
        let mut config = config;
        let clock = self.run_all(Some(time), &mut config, patches);
        proof {
            told_is_still(time, clock@, step_count(patch_ref_views(patches@)));
        }
        Ok(config)
    }

    /// Takes the steps of several patches, and keeps their traces.
    fn run_all(&mut self, at: Option<TimeOfDay>, config: &mut Document, patches: &[&Patch]) -> (clock:
        Ghost<Seq<int>>)
        requires
            on_clock(at),
        ensures
            final(self).context == old(self).context,
            clock_fits(clock@, step_count(patch_ref_views(patches@))),
            clock_told(at, clock@),
            (final(config)@, trace_views(final(self).traces@)) == run(
                old(config)@,
                old(self).context@,
                patch_ref_views(patches@),
                clock@,
            ),
    {
        let ghost c0 = config@;
        let mut traces: Vec<ExecutionTrace> = Vec::new();
        let clock = PatchExecutor::run_patches(&self.context, at, config, patches, &mut traces);
        proof {
            let list = patch_ref_views(patches@);
            let end = run(c0, self.context@, list, clock@);
            assert(trace_views(traces@) =~= end.1);
        }
        self.traces = traces;
        clock
    }

    /// Applies patches, one after the other, to a configuration.
    pub fn execute_owned(&mut self, config: Document, patches: &[Patch]) -> (r: Result<
        Document,
        PrismError,
    >)
        ensures
            final(self).context == old(self).context,
            r matches Ok(v) && may_run(
                config@,
                old(self).context@,
                patch_views(patches@),
                (v@, trace_views(final(self).traces@)),
            ),
    {
        let mut refs: Vec<&Patch> = Vec::new();
        let mut i: usize = 0;
        while i < patches.len()
            invariant
                i <= patches@.len(),
                refs@.len() == i,
                forall|j: int| 0 <= j < i ==> (#[trigger] refs@[j])@ == patches@[j]@,
            decreases patches@.len() - i,
        {
            refs.push(&patches[i]);
            i = i + 1;
        }
        assert(patch_ref_views(refs@) =~= patch_views(patches@));
        self.execute(config, refs.as_slice())
    }

    /// Applies the patches of each profile to a copy of the base configuration,
    /// merges the copies in the order of their names, and applies the shared
    /// patches to the result in the order of their priorities.
    pub fn execute_pipeline(
        &mut self,
        base_config: &Document,
        profile_groups: Vec<(String, Vec<&Patch>)>,
        shared_patches: Vec<&Patch>,
    ) -> (r: Result<(Vec<ExecutionTrace>, Document), PrismError>)
        ensures
            final(self).context == old(self).context,
            final(self).traces@.len() == 0,
            r matches Ok((traces, v)) && may_pipeline(
                base_config@,
                old(self).context@,
                group_views(profile_groups@),
                patch_ref_views(shared_patches@),
                (v@, trace_views(traces@)),
            ),
    {
        self.traces = Vec::new();
        let (traces, v, clocks, clock) = self.run_phases(
            None,
            base_config,
            &profile_groups,
            &shared_patches,
        );
        assert(may_pipeline(
            base_config@,
            self.context@,
            group_views(profile_groups@),
            patch_ref_views(shared_patches@),
            (v@, trace_views(traces@)),
        )) by {
            assert(pipeline(
                base_config@,
                self.context@,
                group_views(profile_groups@),
                patch_ref_views(shared_patches@),
                clocks@,
                clock@,
            ) == (v@, trace_views(traces@)));
        }
        Ok((traces, v))
    }

    /// What [`PatchExecutor::execute_pipeline`] does, at a time of day.
    pub fn execute_pipeline_at(
        &mut self,
        base_config: &Document,
        profile_groups: Vec<(String, Vec<&Patch>)>,
        shared_patches: Vec<&Patch>,
        time: TimeOfDay,
    ) -> (r: Result<(Vec<ExecutionTrace>, Document), PrismError>)
        requires
            time.valid(),
        ensures
            final(self).context == old(self).context,
            final(self).traces@.len() == 0,
            r matches Ok((traces, v)) && (v@, trace_views(traces@)) == pipeline_at(
                base_config@,
                old(self).context@,
                group_views(profile_groups@),
                patch_ref_views(shared_patches@),
                time,
            ),
    {
        self.traces = Vec::new();
        let (traces, v, clocks, clock) = self.run_phases(
            Some(time),
            base_config,
            &profile_groups,
            &shared_patches,
        );
        proof {
            let sorted = sorted_groups(group_views(profile_groups@));
            told_is_still(
                time,
                clock@,
                step_count(by_priority(patch_ref_views(shared_patches@))),
            );
            told_are_still(time, sorted, clocks@);
        }
        Ok((traces, v))
    }

    /// Runs the two phases.
    fn run_phases(
        &self,
        at: Option<TimeOfDay>,
        base_config: &Document,
        profile_groups: &Vec<(String, Vec<&Patch>)>,
        shared_patches: &Vec<&Patch>,
    ) -> (r: (Vec<ExecutionTrace>, Document, Ghost<Seq<Seq<int>>>, Ghost<Seq<int>>))
        requires
            on_clock(at),
        ensures
            ({
                let groups = group_views(profile_groups@);
                let shared = patch_ref_views(shared_patches@);
                &&& sorted_groups(groups).len() == groups.len()
                &&& clocks_fit(sorted_groups(groups), r.2@, groups.len() as int)
                &&& clock_fits(r.3@, step_count(by_priority(shared)))
                &&& forall|k: int| 0 <= k < r.2@.len() ==> clock_told(at, #[trigger] r.2@[k])
                &&& clock_told(at, r.3@)
                &&& (r.1@, trace_views(r.0@)) == pipeline(
                    base_config@,
                    self.context@,
                    groups,
                    shared,
                    r.2@,
                    r.3@,
                )
            }),
    {
        let ghost ctx = self.context@;
        let ghost base = base_config@;
        let ghost groups = group_views(profile_groups@);
        let ghost names = group_names(groups);
        let mut keys: Vec<&str> = Vec::new();
        let mut i: usize = 0;
        while i < profile_groups.len()
            invariant
                i <= profile_groups@.len(),
                keys@.len() == i,
                groups == group_views(profile_groups@),
                names == group_names(groups),
                forall|j: int| 0 <= j < i ==> (#[trigger] keys@[j])@ == names[j],
            decreases profile_groups@.len() - i,
        {
            keys.push(profile_groups[i].0.as_str());
            i = i + 1;
        }
        assert(str_texts(keys@) =~= names);
        let order = sorted_text_positions(&keys);
        let ghost p = indices(order@);
        let ghost sorted = sorted_groups(groups);
        let mut merged_config = base_config.clone();
        let mut all_traces: Vec<ExecutionTrace> = Vec::new();
        let mut clocks: Ghost<Seq<Seq<int>>> = Ghost(Seq::empty());
        let mut k: usize = 0;
        assert(trace_views(all_traces@) =~= Seq::empty());
        while k < order.len()
            invariant
                k <= order@.len(),
                order@.len() == profile_groups@.len(),
                p == indices(order@),
                permutes(p, profile_groups@.len() as int),
                p == text_order(names),
                names == group_names(groups),
                groups == group_views(profile_groups@),
                sorted == sorted_groups(groups),
                base == base_config@,
                ctx == self.context@,
                on_clock(at),
                clocks_fit(sorted, clocks@, k as int),
                forall|j: int| 0 <= j < k ==> clock_told(at, #[trigger] clocks@[j]),
                (merged_config@, trace_views(all_traces@)) == profiles_run(
                    base,
                    ctx,
                    sorted,
                    clocks@,
                    k as int,
                ),
            decreases order@.len() - k,
        {
            assert(p[k as int] == order@[k as int]);
            let place: usize = order[k];
            assert(sorted[k as int] == groups[place as int]);
            let ghost before = profiles_run(base, ctx, sorted, clocks@, k as int);
            let mut context = self.context.clone();
            context.profile_name = Some(profile_groups[place].0.clone());
            assert(context@ =~= in_profile(ctx, sorted[k as int].0));
            let mut config = base_config.clone();
            let clock = PatchExecutor::run_patches(
                &context,
                at,
                &mut config,
                profile_groups[place].1.as_slice(),
                &mut all_traces,
            );
            deep_merge_json(&mut merged_config, &config);
            proof {
                let old_clocks = clocks@;
                let new_clocks = old_clocks.push(clock@);
                clocks@ = new_clocks;
                profiles_run_clocks(base, ctx, sorted, old_clocks, new_clocks, k as int);
                assert(new_clocks[k as int] == clock@);
                assert forall|j: int| 0 <= j < k + 1 implies clock_fits(
                    #[trigger] new_clocks[j],
                    step_count(sorted[j].1),
                ) by {
                    if j < k {
                        assert(new_clocks[j] == old_clocks[j]);
                    }
                }
                assert forall|j: int| 0 <= j < k + 1 implies clock_told(
                    at,
                    #[trigger] new_clocks[j],
                ) by {
                    if j < k {
                        assert(new_clocks[j] == old_clocks[j]);
                    }
                }
            }
            k = k + 1;
        }
        let ghost first = (merged_config@, trace_views(all_traces@));
        let ghost shared = patch_ref_views(shared_patches@);
        let mut ranks: Vec<usize> = Vec::new();
        let mut i: usize = 0;
        while i < shared_patches.len()
            invariant
                i <= shared_patches@.len(),
                shared == patch_ref_views(shared_patches@),
                ranks@.len() == i,
                forall|j: int|
                    0 <= j < i ==> #[trigger] ranks@[j] == scope_priority(shared[j].scope),
            decreases shared_patches@.len() - i,
        {
            assert(shared[i as int] == shared_patches@[i as int]@);
            ranks.push(shared_patches[i].scope.priority() as usize);
            i = i + 1;
        }
        assert(indices(ranks@) =~= priorities(shared));
        let turn = sorted_positions(&ranks);
        let ghost q = indices(turn@);
        let mut ordered: Vec<&Patch> = Vec::new();
        let mut k: usize = 0;
        while k < turn.len()
            invariant
                k <= turn@.len(),
                q == indices(turn@),
                permutes(q, shared_patches@.len() as int),
                shared == patch_ref_views(shared_patches@),
                ordered@.len() == k,
                forall|j: int| 0 <= j < k ==> (#[trigger] ordered@[j])@ == shared[q[j]],
            decreases turn@.len() - k,
        {
            assert(q[k as int] == turn@[k as int]);
            ordered.push(shared_patches[turn[k]]);
            k = k + 1;
        }
        assert(patch_ref_views(ordered@) =~= by_priority(shared));
        let clock = PatchExecutor::run_patches(
            &self.context,
            at,
            &mut merged_config,
            ordered.as_slice(),
            &mut all_traces,
        );
        (all_traces, merged_config, clocks, clock)
    }
}

proof fn told_is_still(time: TimeOfDay, clock: Seq<int>, n: nat)
    requires
        clock_fits(clock, n),
        clock_told(Some(time), clock),
    ensures
        clock == still(time, n),
{
    assert forall|i: int| 0 <= i < n implies clock[i] == still(time, n)[i] by {
        assert(told(Some(time), clock[i]));
    }
    assert(clock =~= still(time, n));
}

proof fn told_are_still(
    time: TimeOfDay,
    groups: Seq<(Seq<char>, Seq<PatchView>)>,
    clocks: Seq<Seq<int>>,
)
    requires
        clocks_fit(groups, clocks, groups.len() as int),
        forall|k: int| 0 <= k < clocks.len() ==> clock_told(Some(time), #[trigger] clocks[k]),
    ensures
        clocks == still_clocks(time, groups),
{
    let all = still_clocks(time, groups);
    assert forall|k: int| 0 <= k < clocks.len() implies clocks[k] == all[k] by {
        told_is_still(time, clocks[k], step_count(groups[k].1));
    }
    assert(clocks =~= all);
}

/// Only the clocks of the groups themselves count.
proof fn profiles_run_clocks(
    base: Json,
    ctx: ContextView,
    groups: Seq<(Seq<char>, Seq<PatchView>)>,
    clocks: Seq<Seq<int>>,
    other: Seq<Seq<int>>,
    n: int,
)
    requires
        forall|i: int| 0 <= i < n ==> #[trigger] clocks[i] == other[i],
    ensures
        profiles_run(base, ctx, groups, clocks, n) == profiles_run(base, ctx, groups, other, n),
    decreases n,
{
    if n > 0 {
        profiles_run_clocks(base, ctx, groups, clocks, other, n - 1);
        assert(clocks[n - 1] == other[n - 1]);
    }
}

impl Default for PatchExecutor {
    fn default() -> (r: PatchExecutor)
        ensures
            r.traces@.len() == 0,
            r.context@ == no_context(),
    {
        PatchExecutor::new()
    }
}

// ---------------------------------------------------------------------------
// Laws
// ---------------------------------------------------------------------------

/// A step that is not taken changes nothing and leaves an empty trace.
pub proof fn skipped_step_changes_nothing(
    c: Json,
    ctx: ContextView,
    p: PatchView,
    minute: int,
    wanted: bool,
)
    requires
        !step_taken(ctx, p, minute, wanted),
    ensures
        step(c, ctx, p, minute, wanted).0 == c,
        !step(c, ctx, p, minute, wanted).1.matched,
        step(c, ctx, p, minute, wanted).1.summary == no_summary(),
{
}

proof fn unwanted_steps_change_nothing(
    c: Json,
    ctx: ContextView,
    list: Seq<PatchView>,
    clock: Seq<int>,
)
    ensures
        steps_run(c, ctx, list, clock, false).0 == c,
        forall|i: int|
            0 <= i < list.len() ==> !(#[trigger] steps_run(c, ctx, list, clock, false).1[i]).matched,
    decreases list.len(),
{
    if list.len() > 0 {
        let init = list.drop_last();
        let before = steps_run(c, ctx, init, clock, false).1;
        let now = steps_run(c, ctx, list, clock, false).1;
        unwanted_steps_change_nothing(c, ctx, init, clock);
        one_trace_per_step(c, ctx, init, clock, false);
        assert forall|i: int| 0 <= i < list.len() implies !(#[trigger] now[i]).matched by {
            if i < init.len() {
                assert(now[i] == before[i]);
            }
        }
    }
}

/// A patch whose condition does not hold takes none of its steps; the condition
/// is asked of the configuration before the first step, whatever the steps do.
pub proof fn condition_decides_for_all_steps(
    c: Json,
    ctx: ContextView,
    p: PatchView,
    clock: Seq<int>,
)
    ensures
        !condition_holds(p.condition, c) ==> patch_run(c, ctx, p, clock).0 == c,
        !condition_holds(p.condition, c) ==> forall|i: int|
            0 <= i < sub_patches(p).len() ==> !(#[trigger] patch_run(c, ctx, p, clock).1[i]).matched,
{
    reveal(patch_run);
    unwanted_steps_change_nothing(c, ctx, sub_patches(p), clock);
}

/// Whether a step leaves the whole configuration in place.
pub open spec fn below_root(p: PatchView) -> bool {
    p.path.len() > 0 || p.op is DeepMerge && p.value is Obj
}

/// Whether no step of a patch replaces the whole configuration.
pub open spec fn stays_below_root(p: PatchView) -> bool {
    forall|i: int| 0 <= i < sub_patches(p).len() ==> below_root(#[trigger] sub_patches(p)[i])
}

/// Whether the values of the steps of a patch have their members in order.
pub open spec fn values_in_order(p: PatchView) -> bool {
    forall|i: int|
        0 <= i < sub_patches(p).len() ==> ordered_throughout(
            (#[trigger] sub_patches(p)[i]).value,
        )
}

proof fn steps_keep_guard(
    c: Json,
    ctx: ContextView,
    list: Seq<PatchView>,
    clock: Seq<int>,
    wanted: bool,
    g: Seq<char>,
)
    requires
        crate::ops::guarded_field(g),
        forall|i: int| 0 <= i < list.len() ==> below_root(#[trigger] list[i]),
    ensures
        field(steps_run(c, ctx, list, clock, wanted).0, g) == field(c, g),
    decreases list.len(),
{
    if list.len() > 0 {
        let init = list.drop_last();
        assert forall|i: int| 0 <= i < init.len() implies below_root(#[trigger] init[i]) by {
            assert(init[i] == list[i]);
        }
        steps_keep_guard(c, ctx, init, clock, wanted, g);
        let last = list[list.len() - 1];
        assert(below_root(last));
        let before = steps_run(c, ctx, init, clock, wanted).0;
        crate::ops::guarded_fields_stay(before, last.path, last.op, last.value, g);
    }
}

/// No execution changes a guarded field, as long as no step replaces the whole
/// configuration.
pub proof fn guarded_fields_survive(
    c: Json,
    ctx: ContextView,
    patches: Seq<PatchView>,
    clock: Seq<int>,
    g: Seq<char>,
)
    requires
        crate::ops::guarded_field(g),
        forall|i: int| 0 <= i < patches.len() ==> stays_below_root(#[trigger] patches[i]),
    ensures
        field(run(c, ctx, patches, clock).0, g) == field(c, g),
    decreases patches.len(),
{
    reveal(patch_run);
    if patches.len() > 0 {
        let init = patches.drop_last();
        let last = patches[patches.len() - 1];
        assert forall|i: int| 0 <= i < init.len() implies stays_below_root(#[trigger] init[i]) by {
            assert(init[i] == patches[i]);
        }
        guarded_fields_survive(c, ctx, init, clock, g);
        assert(stays_below_root(last));
        let mid = run(c, ctx, init, clock).0;
        steps_keep_guard(
            mid,
            ctx,
            sub_patches(last),
            clock.skip(step_count(init) as int),
            condition_holds(last.condition, mid),
            g,
        );
    }
}

proof fn steps_keep_all_in_order(
    c: Json,
    ctx: ContextView,
    list: Seq<PatchView>,
    clock: Seq<int>,
    wanted: bool,
)
    requires
        ordered_throughout(c),
        forall|i: int| 0 <= i < list.len() ==> ordered_throughout((#[trigger] list[i]).value),
    ensures
        ordered_throughout(steps_run(c, ctx, list, clock, wanted).0),
    decreases list.len(),
{
    if list.len() > 0 {
        let init = list.drop_last();
        assert forall|i: int| 0 <= i < init.len() implies ordered_throughout(
            (#[trigger] init[i]).value,
        ) by {
            assert(init[i] == list[i]);
        }
        steps_keep_all_in_order(c, ctx, init, clock, wanted);
        let last = list[list.len() - 1];
        let before = steps_run(c, ctx, init, clock, wanted).0;
        crate::ops::operations_keep_all_in_order(before, last.path, last.op, last.value);
    }
}

/// The members of every object stand in the order of their keys after every
/// execution, as long as they did so before, and in the values of the steps.
pub proof fn execution_keeps_all_in_order(
    c: Json,
    ctx: ContextView,
    patches: Seq<PatchView>,
    clock: Seq<int>,
)
    requires
        ordered_throughout(c),
        forall|i: int| 0 <= i < patches.len() ==> values_in_order(#[trigger] patches[i]),
    ensures
        ordered_throughout(run(c, ctx, patches, clock).0),
    decreases patches.len(),
{
    reveal(patch_run);
    if patches.len() > 0 {
        let init = patches.drop_last();
        let last = patches[patches.len() - 1];
        assert forall|i: int| 0 <= i < init.len() implies values_in_order(#[trigger] init[i]) by {
            assert(init[i] == patches[i]);
        }
        execution_keeps_all_in_order(c, ctx, init, clock);
        assert(values_in_order(last));
        let mid = run(c, ctx, init, clock).0;
        steps_keep_all_in_order(
            mid,
            ctx,
            sub_patches(last),
            clock.skip(step_count(init) as int),
            condition_holds(last.condition, mid),
        );
    }
}

proof fn merge_keeps_same_field(a: Json, b: Json, k: Seq<char>)
    requires
        ordered_throughout(a),
        ordered_throughout(b),
        field(a, k) == field(b, k),
    ensures
        field(merged(a, b), k) == field(a, k),
{
    if let Json::Obj(x) = a {
        if let Json::Obj(y) = b {
            crate::merge::merge_by_members(x, y, k);
            crate::value::members_are_in_order(x, k);
            if let Some(v) = crate::value::member(x, k) {
                crate::merge::merge_with_itself(v);
            }
        }
    }
}

proof fn profiles_keep_guard(
    base: Json,
    ctx: ContextView,
    groups: Seq<(Seq<char>, Seq<PatchView>)>,
    clocks: Seq<Seq<int>>,
    n: int,
    g: Seq<char>,
)
    requires
        crate::ops::guarded_field(g),
        ordered_throughout(base),
        n <= groups.len(),
        forall|k: int, i: int|
            0 <= k < groups.len() && 0 <= i < groups[k].1.len() ==> stays_below_root(
                #[trigger] groups[k].1[i],
            ) && values_in_order(groups[k].1[i]),
    ensures
        field(profiles_run(base, ctx, groups, clocks, n).0, g) == field(base, g),
        ordered_throughout(profiles_run(base, ctx, groups, clocks, n).0),
    decreases n,
{
    if n > 0 {
        let before = profiles_run(base, ctx, groups, clocks, n - 1).0;
        let group = groups[n - 1];
        profiles_keep_guard(base, ctx, groups, clocks, n - 1, g);
        guarded_fields_survive(base, in_profile(ctx, group.0), group.1, clocks[n - 1], g);
        execution_keeps_all_in_order(base, in_profile(ctx, group.0), group.1, clocks[n - 1]);
        let own = group_run(base, ctx, group, clocks[n - 1]).0;
        merge_keeps_same_field(before, own, g);
        crate::merge::merge_keeps_all_in_order(before, own);
    }
}

/// The two phases together change no guarded field, as long as no step replaces
/// the whole configuration; and members in order stay in order.
pub proof fn guarded_fields_survive_both_phases(
    base: Json,
    ctx: ContextView,
    groups: Seq<(Seq<char>, Seq<PatchView>)>,
    shared: Seq<PatchView>,
    clocks: Seq<Seq<int>>,
    clock: Seq<int>,
    g: Seq<char>,
)
    requires
        crate::ops::guarded_field(g),
        ordered_throughout(base),
        forall|k: int, i: int|
            0 <= k < groups.len() && 0 <= i < groups[k].1.len() ==> stays_below_root(
                #[trigger] groups[k].1[i],
            ) && values_in_order(groups[k].1[i]),
        forall|i: int|
            0 <= i < shared.len() ==> stays_below_root(#[trigger] shared[i]) && values_in_order(
                shared[i],
            ),
    ensures
        field(pipeline(base, ctx, groups, shared, clocks, clock).0, g) == field(base, g),
        ordered_throughout(pipeline(base, ctx, groups, shared, clocks, clock).0),
{
    let sorted = sorted_groups(groups);
    let ranked = by_priority(shared);
    text_order_sorts(group_names(groups));
    crate::order::order_by_sorts(priorities(shared));
    assert forall|k: int, i: int| 0 <= k < sorted.len() && 0 <= i < sorted[k].1.len() implies
        stays_below_root(#[trigger] sorted[k].1[i]) && values_in_order(sorted[k].1[i]) by {
        let at = text_order(group_names(groups))[k];
        assert(sorted[k] == groups[at]);
        assert(stays_below_root(groups[at].1[i]));
    }
    assert forall|i: int| 0 <= i < ranked.len() implies stays_below_root(#[trigger] ranked[i])
        && values_in_order(ranked[i]) by {
        assert(ranked[i] == shared[order_by(priorities(shared))[i]]);
    }
    profiles_keep_guard(base, ctx, sorted, clocks, groups.len() as int, g);
    let first = profiles_run(base, ctx, sorted, clocks, groups.len() as int).0;
    guarded_fields_survive(first, ctx, ranked, clock, g);
    execution_keeps_all_in_order(first, ctx, ranked, clock);
}

proof fn ascending_names(names: Seq<Seq<char>>, i: int, j: int)
    requires
        names.no_duplicates(),
        0 <= i < j < names.len(),
    ensures
        ({
            let q = text_order(names);
            text_lt(names[q[i]], names[q[j]])
        }),
{
    let q = text_order(names);
    text_order_sorts(names);
    assert(in_text_order(names, q));
    assert(q[i] != q[j]);
    assert(names[q[i]] != names[q[j]]);
    text_lt_total(names[q[i]], names[q[j]]);
}

proof fn sorted_groups_facts(g: Seq<(Seq<char>, Seq<PatchView>)>)
    requires
        group_names(g).no_duplicates(),
    ensures
        sorted_groups(g).len() == g.len(),
        forall|i: int, j: int|
            0 <= i < j < g.len() ==> text_lt(
                (#[trigger] sorted_groups(g)[i]).0,
                (#[trigger] sorted_groups(g)[j]).0,
            ),
        forall|i: int| 0 <= i < g.len() ==> g.contains(#[trigger] sorted_groups(g)[i]),
        forall|i: int| 0 <= i < g.len() ==> sorted_groups(g).contains(#[trigger] g[i]),
{
    let names = group_names(g);
    let q = text_order(names);
    let s = sorted_groups(g);
    text_order_sorts(names);
    assert forall|i: int, j: int| 0 <= i < j < g.len() implies text_lt(
        (#[trigger] s[i]).0,
        (#[trigger] s[j]).0,
    ) by {
        ascending_names(names, i, j);
        assert(s[i] == g[q[i]] && s[j] == g[q[j]]);
        assert(names[q[i]] == g[q[i]].0 && names[q[j]] == g[q[j]].0);
    }
    assert forall|i: int| 0 <= i < g.len() implies g.contains(#[trigger] s[i]) by {
        assert(s[i] == g[q[i]]);
    }
    assert forall|i: int| 0 <= i < g.len() implies s.contains(#[trigger] g[i]) by {
        permutation_is_onto(q, names.len() as int, i);
        let k = choose|k: int| 0 <= k < q.len() && q[k] == i;
        assert(s[k] == g[i]);
    }
}

/// Two sequences of groups in strictly ascending order of their names, each of
/// which holds what the other holds, agree up to `n`.
proof fn ascending_agree(
    a: Seq<(Seq<char>, Seq<PatchView>)>,
    b: Seq<(Seq<char>, Seq<PatchView>)>,
    n: int,
)
    requires
        a.len() == b.len(),
        0 <= n <= a.len(),
        forall|i: int, j: int|
            0 <= i < j < a.len() ==> text_lt((#[trigger] a[i]).0, (#[trigger] a[j]).0),
        forall|i: int, j: int|
            0 <= i < j < b.len() ==> text_lt((#[trigger] b[i]).0, (#[trigger] b[j]).0),
        forall|i: int| 0 <= i < a.len() ==> b.contains(#[trigger] a[i]),
        forall|i: int| 0 <= i < b.len() ==> a.contains(#[trigger] b[i]),
    ensures
        forall|i: int| 0 <= i < n ==> #[trigger] a[i] == b[i],
    decreases n,
{
    if n > 0 {
        let k = n - 1;
        ascending_agree(a, b, k);
        let x = choose|x: int| 0 <= x < b.len() && b[x] == a[k];
        let y = choose|y: int| 0 <= y < a.len() && a[y] == b[k];
        // Neither can stand among the groups that already agree.
        if x < k {
            assert(a[x] == b[x]);
            assert(text_lt(a[x].0, a[k].0));
            text_lt_irreflexive(a[k].0);
        }
        if y < k {
            assert(a[y] == b[y]);
            assert(text_lt(b[y].0, b[k].0));
            text_lt_irreflexive(b[k].0);
        }
        if x > k && y > k {
            assert(text_lt(b[k].0, b[x].0));
            assert(text_lt(a[k].0, a[y].0));
            text_lt_transitive(a[k].0, b[k].0, a[k].0);
            text_lt_irreflexive(a[k].0);
        }
    }
}

proof fn names_stay_distinct(
    a: Seq<(Seq<char>, Seq<PatchView>)>,
    b: Seq<(Seq<char>, Seq<PatchView>)>,
)
    requires
        group_names(a).no_duplicates(),
        a.to_multiset() == b.to_multiset(),
    ensures
        group_names(b).no_duplicates(),
{
    broadcast use vstd::seq_lib::group_to_multiset_ensures;

    let names = group_names(b);
    assert(a.no_duplicates()) by {
        assert forall|i: int, j: int| 0 <= i < a.len() && 0 <= j < a.len() && i != j implies a[i]
            != a[j] by {
            assert(group_names(a)[i] != group_names(a)[j]);
        }
    }
    a.lemma_multiset_has_no_duplicates();
    b.lemma_multiset_has_no_duplicates_conv();
    assert forall|i: int, j: int|
        0 <= i < names.len() && 0 <= j < names.len() && i != j implies names[i] != names[j] by {
        if names[i] == names[j] {
            assert(b.to_multiset().count(b[i]) > 0);
            assert(b.to_multiset().count(b[j]) > 0);
            assert(a.contains(b[i]) && a.contains(b[j]));
            let x = choose|x: int| 0 <= x < a.len() && a[x] == b[i];
            let y = choose|y: int| 0 <= y < a.len() && a[y] == b[j];
            assert(b[i] != b[j]);
            assert(group_names(a)[x] == group_names(a)[y]);
        }
    }
}

/// The result does not depend on the order of the groups, as long as no two of
/// them have the same name.
pub proof fn order_of_groups_does_not_matter(
    base: Json,
    ctx: ContextView,
    groups: Seq<(Seq<char>, Seq<PatchView>)>,
    other: Seq<(Seq<char>, Seq<PatchView>)>,
    shared: Seq<PatchView>,
    clocks: Seq<Seq<int>>,
    clock: Seq<int>,
    time: TimeOfDay,
)
    requires
        group_names(groups).no_duplicates(),
        groups.to_multiset() == other.to_multiset(),
    ensures
        sorted_groups(groups) == sorted_groups(other),
        pipeline(base, ctx, groups, shared, clocks, clock) == pipeline(
            base,
            ctx,
            other,
            shared,
            clocks,
            clock,
        ),
        pipeline_at(base, ctx, groups, shared, time) == pipeline_at(
            base,
            ctx,
            other,
            shared,
            time,
        ),
{
    broadcast use vstd::seq_lib::group_to_multiset_ensures;

    assert(groups.len() == other.len()) by {
        vstd::seq_lib::to_multiset_len(groups);
        vstd::seq_lib::to_multiset_len(other);
    }
    assert forall|i: int| 0 <= i < groups.len() implies other.contains(#[trigger] groups[i]) by {
        assert(groups.to_multiset().count(groups[i]) > 0);
    }
    assert forall|i: int| 0 <= i < other.len() implies groups.contains(#[trigger] other[i]) by {
        assert(other.to_multiset().count(other[i]) > 0);
    }
    assert(group_names(other).no_duplicates()) by {
        names_stay_distinct(groups, other);
    }
    sorted_groups_facts(groups);
    sorted_groups_facts(other);
    let a = sorted_groups(groups);
    let b = sorted_groups(other);
    assert forall|i: int| 0 <= i < a.len() implies b.contains(#[trigger] a[i]) by {
        let x = choose|x: int| 0 <= x < groups.len() && groups[x] == a[i];
        let y = choose|y: int| 0 <= y < other.len() && other[y] == groups[x];
        assert(b.contains(other[y]));
    }
    assert forall|i: int| 0 <= i < b.len() implies a.contains(#[trigger] b[i]) by {
        let x = choose|x: int| 0 <= x < other.len() && other[x] == b[i];
        let y = choose|y: int| 0 <= y < groups.len() && groups[y] == other[x];
        assert(a.contains(groups[y]));
    }
    ascending_agree(a, b, a.len() as int);
    assert(a =~= b);
}

/// Every group of a profile runs on the base configuration: what it makes of it
/// depends on no other group.
pub proof fn profiles_do_not_see_each_other(
    base: Json,
    ctx: ContextView,
    groups: Seq<(Seq<char>, Seq<PatchView>)>,
    clocks: Seq<Seq<int>>,
    n: int,
)
    requires
        0 < n <= groups.len(),
    ensures
        profiles_run(base, ctx, groups, clocks, n).0 == merged(
            profiles_run(base, ctx, groups, clocks, n - 1).0,
            run(base, in_profile(ctx, groups[n - 1].0), groups[n - 1].1, clocks[n - 1]).0,
        ),
{
}

/// Shared patches run in ascending order of priority: global ones, then those
/// with conditions, then those of the user interface.
pub proof fn shared_patches_run_by_priority(p: Seq<PatchView>)
    ensures
        by_priority(p).len() == p.len(),
        forall|i: int, j: int|
            0 <= i < j < p.len() ==> scope_priority(#[trigger] by_priority(p)[i].scope)
                <= scope_priority(#[trigger] by_priority(p)[j].scope),
{
    let keys = priorities(p);
    crate::order::order_by_sorts(keys);
    let q = order_by(keys);
    assert forall|i: int, j: int| 0 <= i < j < p.len() implies scope_priority(
        #[trigger] by_priority(p)[i].scope,
    ) <= scope_priority(#[trigger] by_priority(p)[j].scope) by {
        assert(keys[q[i]] <= keys[q[j]]);
    }
}

/// The conditions that ask for a profile and nothing else.
pub open spec fn only_profile(q: Seq<char>) -> Conditions {
    Conditions { profile: Some(q), ..no_conditions() }
}

/// The conditions that ask for platforms and nothing else.
pub open spec fn only_platform(list: Seq<Platform>) -> Conditions {
    Conditions { platform: Some(list), ..no_conditions() }
}

/// The conditions that ask for a proxy core and nothing else.
pub open spec fn only_core(core: Seq<char>) -> Conditions {
    Conditions { core: Some(core), ..no_conditions() }
}

/// The conditions that ask for a range of times and nothing else.
pub open spec fn only_time(t: TimeRange) -> Conditions {
    Conditions { time_range: Some(t), ..no_conditions() }
}

/// The conditions that ask for a wireless network and nothing else.
pub open spec fn only_ssid(ssid: Seq<char>) -> Conditions {
    Conditions { ssid: Some(ssid), ..no_conditions() }
}

/// The conditions that switch a patch on or off and ask for nothing else.
pub open spec fn only_enabled(enabled: bool) -> Conditions {
    Conditions { enabled: Some(enabled), ..no_conditions() }
}

/// A scope whose only condition is a profile applies exactly where the scope of
/// that profile does.
pub proof fn profile_condition_is_profile_scope(q: Seq<char>, ctx: ContextView, minute: int)
    ensures
        scope_applies(ScopeView::Scoped(only_profile(q)), ctx, minute) == scope_applies(
            ScopeView::Profile(q),
            ctx,
            minute,
        ),
        ctx.profile_name is None ==> !scope_applies(ScopeView::Profile(q), ctx, minute),
{
}

/// A scope applies exactly where each of its conditions alone does; one without
/// conditions applies everywhere.
pub proof fn conditions_hold_one_by_one(c: Conditions, ctx: ContextView, minute: int)
    ensures
        scope_applies(ScopeView::Scoped(no_conditions()), ctx, minute),
        scope_applies(ScopeView::Global, ctx, minute),
        scope_applies(ScopeView::Runtime, ctx, minute),
        scope_applies(ScopeView::Scoped(c), ctx, minute) <==> {
            &&& c.profile matches Some(q) ==> scope_applies(
                ScopeView::Scoped(only_profile(q)),
                ctx,
                minute,
            )
            &&& c.platform matches Some(list) ==> scope_applies(
                ScopeView::Scoped(only_platform(list)),
                ctx,
                minute,
            )
            &&& c.core matches Some(core) ==> scope_applies(
                ScopeView::Scoped(only_core(core)),
                ctx,
                minute,
            )
            &&& c.time_range matches Some(t) ==> scope_applies(
                ScopeView::Scoped(only_time(t)),
                ctx,
                minute,
            )
            &&& c.ssid matches Some(ssid) ==> scope_applies(
                ScopeView::Scoped(only_ssid(ssid)),
                ctx,
                minute,
            )
            &&& c.enabled matches Some(b) ==> scope_applies(
                ScopeView::Scoped(only_enabled(b)),
                ctx,
                minute,
            )
        },
{
}

/// When each condition alone holds: the network must be the very one; the core and
/// the platform may be unknown; a range of times asks the clock; a patch that is
/// switched off applies nowhere.
pub proof fn when_a_condition_holds(
    text: Seq<char>,
    list: Seq<Platform>,
    t: TimeRange,
    on: bool,
    ctx: ContextView,
    minute: int,
)
    ensures
        scope_applies(ScopeView::Scoped(only_ssid(text)), ctx, minute) == (ctx.ssid == Some(text)),
        scope_applies(ScopeView::Scoped(only_core(text)), ctx, minute) == (ctx.core_type is None
            || ctx.core_type == Some(text)),
        scope_applies(ScopeView::Scoped(only_platform(list)), ctx, minute) == (match ctx.platform {
            None => true,
            Some(have) => exists|i: int|
                0 <= i < list.len() && (lowercase(platform_name(#[trigger] list[i])) == lowercase(
                    have,
                ) || lowercase(platform_name(list[i])) == "all"@ || lowercase(have) == "all"@),
        }),
        scope_applies(ScopeView::Scoped(only_time(t)), ctx, minute) == t.covers(minute),
        scope_applies(ScopeView::Scoped(only_enabled(on)), ctx, minute) == on,
{
    if let Some(have) = ctx.platform {
        if platform_among(list, have) {
            let i = choose|i: int| 0 <= i < list.len() && platform_fits(#[trigger] list[i], have);
            assert(platform_fits(list[i], have));
        }
        if exists|i: int|
            0 <= i < list.len() && (lowercase(platform_name(#[trigger] list[i])) == lowercase(have)
                || lowercase(platform_name(list[i])) == "all"@ || lowercase(have) == "all"@) {
            let i = choose|i: int|
                0 <= i < list.len() && (lowercase(platform_name(#[trigger] list[i])) == lowercase(
                    have,
                ) || lowercase(platform_name(list[i])) == "all"@ || lowercase(have) == "all"@);
            assert(platform_fits(list[i], have));
        }
    }
}

/// Which profiles a profile scope is for: the one of that very name; between
/// slashes, those in which the regular expression is found; with wildcards, those
/// in which the expression is found that has `.*` for each `*` and `.` for each
/// `?`; and else no other.
pub proof fn which_profiles_fit(q: Seq<char>, name: Seq<char>, ctx: ContextView, minute: int)
    requires
        ctx.profile_name == Some(name),
        tight(q),
    ensures
        name == q ==> scope_applies(ScopeView::Profile(q), ctx, minute),
        q.len() > 0 && name != q ==> scope_applies(
            ScopeView::Profile("/"@ + q + "/"@),
            ctx,
            minute,
        ) == (name == "/"@ + q + "/"@ || compiles(q) && regex_found(q, name)),
        name != q && (q.contains('*') || q.contains('?')) && !starts_with(q, "/"@) ==> ({
            let dots = replace_each(
                replace_each(regex_escaped(q), seq!['\\', '*'], seq!['.', '*']),
                seq!['\\', '?'],
                seq!['.'],
            );
            let expression = "^"@ + dots + "$"@;
            scope_applies(ScopeView::Profile(q), ctx, minute) == (compiles(expression)
                && regex_found(expression, name))
        }),
        name != q && !q.contains('*') && !q.contains('?') && !starts_with(q, "/"@)
            ==> !scope_applies(ScopeView::Profile(q), ctx, minute),
{
    reveal_strlit("/");
    crate::text::trim_of_tight(q);
    let s = "/"@ + q + "/"@;
    assert(s[0] == '/' && s.last() == '/');
    crate::text::trim_of_tight(s);
    assert(s.subrange(1, s.len() - 1) =~= q);
    if !starts_with(q, "/"@) && q.len() > 0 {
        assert(q[0] != '/') by {
            if q[0] == '/' {
                assert(q.subrange(0, 1) =~= "/"@);
            }
        }
    }
}

/// A step that is taken does what its operation does, and its trace tells the
/// patch, that it applied, and what the operation reports.
pub proof fn taken_step_is_its_operation(
    c: Json,
    ctx: ContextView,
    p: PatchView,
    minute: int,
    wanted: bool,
)
    requires
        wanted,
        scope_applies(p.scope, ctx, minute),
    ensures
        step(c, ctx, p, minute, wanted).0 == op_effect(c, p.path, p.op, p.value).config,
        ({
            let t = step(c, ctx, p, minute, wanted).1;
            let e = op_effect(c, p.path, p.op, p.value);
            &&& t.matched
            &&& t.id == p.id && t.source == p.source && t.op == p.op
            &&& t.summary == e.summary && t.items == e.items && t.bulk == e.bulk
            &&& t.warnings == e.warnings
        }),
{
}

/// A step is taken only where its patch is wanted and its scope applies.
pub proof fn when_a_step_is_not_taken(
    c: Json,
    ctx: ContextView,
    p: PatchView,
    minute: int,
    wanted: bool,
)
    requires
        !wanted || !scope_applies(p.scope, ctx, minute),
    ensures
        step(c, ctx, p, minute, wanted).0 == c,
        !step(c, ctx, p, minute, wanted).1.matched,
        step(c, ctx, p, minute, wanted).1.id == p.id,
{
}

/// Patches run one after another, each on what the ones before it left: a run of
/// one patch and then others is a run of the others on what the first left.
pub proof fn patches_run_one_after_another(
    c: Json,
    ctx: ContextView,
    first: PatchView,
    rest: Seq<PatchView>,
    clock: Seq<int>,
    later: Seq<int>,
)
    requires
        clock.len() == step_count(seq![first]),
        later.len() == step_count(rest),
    ensures
        run(c, ctx, seq![first] + rest, clock + later).0 == run(
            run(c, ctx, seq![first], clock).0,
            ctx,
            rest,
            later,
        ).0,
{
    run_in_parts(c, ctx, seq![first], rest, clock, later);
}

/// A patch with one operation is one step, taken where its condition holds of the
/// configuration.
pub proof fn simple_patch_is_one_step(c: Json, ctx: ContextView, p: PatchView, minute: int)
    requires
        p.sub_ops.len() == 0,
    ensures
        run(c, ctx, seq![p], seq![minute]).0 == step(
            c,
            ctx,
            p,
            minute,
            condition_holds(p.condition, c),
        ).0,
        run(c, ctx, seq![p], seq![minute]).1 == seq![
            step(c, ctx, p, minute, condition_holds(p.condition, c)).1,
        ],
{
    reveal(patch_run);
    let list = seq![p];
    assert(list.drop_last() =~= Seq::empty());
    assert(list.last() == p);
    assert(step_count(Seq::<PatchView>::empty()) == 0);
    assert(seq![minute].skip(0) =~= seq![minute]);
    let wanted = condition_holds(p.condition, c);
    assert(sub_patches(p) == seq![p]);
    reveal_with_fuel(steps_run, 2);
    let one = step(c, ctx, p, minute, wanted);
    assert(steps_run(c, ctx, list, seq![minute], wanted) == (one.0, Seq::<TraceView>::empty().push(
        one.1,
    )));
    assert(run(c, ctx, Seq::<PatchView>::empty(), seq![minute]) == (c, Seq::<TraceView>::empty()));
    assert(Seq::<TraceView>::empty() + Seq::<TraceView>::empty().push(one.1) =~= seq![one.1]);
}

/// A condition is asked of the whole configuration; no condition, and the word
/// `true`, hold of every configuration, and an expression that fails of none.
pub proof fn when_a_condition_of_a_patch_holds(p: PredicateView, c: Json)
    ensures
        condition_holds(None, c),
        trim(p.expr) == "true"@ ==> condition_holds(Some(p), c),
        trim(p.expr) != "true"@ ==> condition_holds(Some(p), c) == (predicate(p.expr, c) == Ok::<
            bool,
            Fault,
        >(true)),
        predicate(p.expr, c) is Err && trim(p.expr) != "true"@ ==> !condition_holds(Some(p), c),
{
}

/// The steps of a patch are its operations in their order, each with its own value
/// and all with the name, the origin, the scope and the path of the patch.
pub proof fn steps_are_the_operations(p: PatchView, i: int)
    requires
        0 <= i < sub_patches(p).len(),
    ensures
        sub_patches(p).len() == ops_in_order(p).len(),
        ({
            let s = sub_patches(p)[i];
            &&& s.op == ops_in_order(p)[i].op
            &&& s.value == ops_in_order(p)[i].value
            &&& s.id == p.id && s.source == p.source
            &&& s.scope == p.scope && s.path == p.path
        }),
{
}

/// Shared patches run in this order: global ones, then those with conditions, then
/// those of the user interface; of one sort, in the order in which they came.
pub proof fn shared_patches_in_their_order(p: Seq<PatchView>, i: int, j: int)
    requires
        0 <= i < j < p.len(),
    ensures
        by_priority(p).len() == p.len(),
        by_priority(p)[j].scope is Global ==> by_priority(p)[i].scope is Global
            || by_priority(p)[i].scope is Profile,
        by_priority(p)[i].scope is Runtime ==> by_priority(p)[j].scope is Runtime,
        by_priority(p)[j].scope is Scoped ==> !(by_priority(p)[i].scope is Runtime),
        exists|q: Seq<int>|
            #![trigger permutes(q, p.len() as int)]
            permutes(q, p.len() as int) && by_priority(p)[i] == p[q[i]] && by_priority(p)[j]
                == p[q[j]] && (by_priority(p)[i].scope is Global && by_priority(p)[j].scope is Global
                ==> q[i] < q[j]) && (by_priority(p)[i].scope is Scoped
                && by_priority(p)[j].scope is Scoped ==> q[i] < q[j]),
{
    shared_patches_run_by_priority(p);
    let keys = priorities(p);
    crate::order::order_by_sorts(keys);
    let q = order_by(keys);
    assert(permutes(q, p.len() as int));
    assert(keys[q[i]] == scope_priority(p[q[i]].scope));
    assert(keys[q[j]] == scope_priority(p[q[j]].scope));
    assert(scope_priority(by_priority(p)[i].scope) <= scope_priority(by_priority(p)[j].scope));
}

/// What profiles leave behind: a member that the first of two profiles and the
/// second leave as texts or numbers is the one that the profile with the later name
/// leaves.
pub proof fn later_profiles_win(
    base: Json,
    ctx: ContextView,
    groups: Seq<(Seq<char>, Seq<PatchView>)>,
    clocks: Seq<Seq<int>>,
    n: int,
    k: Seq<char>,
    v: Json,
)
    requires
        0 < n <= groups.len(),
        field(group_run(base, ctx, groups[n - 1], clocks[n - 1]).0, k) == Some(v),
        !(v is Obj),
        group_run(base, ctx, groups[n - 1], clocks[n - 1]).0 matches Json::Obj(o)
            && crate::value::ordered(o),
    ensures
        field(profiles_run(base, ctx, groups, clocks, n).0, k) == Some(v),
{
    let before = profiles_run(base, ctx, groups, clocks, n - 1).0;
    let own = group_run(base, ctx, groups[n - 1], clocks[n - 1]).0;
    let o = own->Obj_0;
    if let Json::Obj(b) = before {
        crate::merge::merge_member_by_member(b, o, k);
    }
}

} // verus!
