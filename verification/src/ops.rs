//! The operations of patches on a configuration.

use vstd::prelude::*;
use crate::error::{warning_views, TransformWarning, WarningView};
use crate::expr::{concat, copy_items, Fault};
use crate::ir::{OpView, PatchOp, PredicateView};
use crate::json_path::{
    array_len_at, at_keys, at_path, get_array_at_path_mut, get_array_len, get_json_path,
    get_json_path_mut, get_or_create_json_path_mut, parts_are_in_order, path_keys, reached,
    replace_keeps_all_in_order, replace_then_read, replaced, write_keeps_all_in_order, written,
    Keys,
};
use crate::json_text::{json_text, to_json_text};
use crate::merge::{
    capped, count_merge_diff, deep_merge_json, merge_diff, merge_keeps_all_in_order, merged,
};
use crate::order::texts;
use crate::predicate::{evaluate_predicate, predicate};
use crate::text::{char_index, chars_of, decimal, index_of_char, is_text, split, split_at_char};
use crate::trace::{
    added_item, item_views, modified_item, no_summary, removed_item, AffectedItem, ItemView,
    TraceSummary,
};
use crate::transform::{evaluate_transform_expr, transform_keeps_all_in_order, transformed};
use crate::value::{
    array_view, field, items_ordered_each, member, members_ordered_each, ordered_throughout,
    set_keeps_all_in_order, views, with_member, Document, Json, Members, Object,
};

verus! {

// ---------------------------------------------------------------------------
// Guarded fields
// ---------------------------------------------------------------------------

/// The fields of a configuration that no patch may change.
pub const GUARDED_FIELDS: [&'static str; 7] = [
    "external-controller",
    "secret",
    "mixed-port",
    "external-ui",
    "external-ui-url",
    "api-secret",
    "authentication",
];

/// Whether a field of the configuration is guarded.
pub open spec fn guarded_field(f: Seq<char>) -> bool {
    ||| f == "external-controller"@
    ||| f == "secret"@
    ||| f == "mixed-port"@
    ||| f == "external-ui"@
    ||| f == "external-ui-url"@
    ||| f == "api-secret"@
    ||| f == "authentication"@
}

/// The first segment of a dotted path.
pub open spec fn first_segment(path: Seq<char>) -> Seq<char> {
    path.subrange(0, char_index(path, '.'))
}

/// Whether a path is a guarded field or lies below one.
pub open spec fn guarded_path(path: Seq<char>) -> bool {
    guarded_field(first_segment(path))
}

/// Whether a path is a guarded field or lies below one.
pub fn is_guarded_path(path: &str) -> (r: bool)
    ensures
        r == guarded_path(path@),
{
    let chars = chars_of(path);
    let k: usize = index_of_char(chars.as_slice(), '.');
    let head = vstd::slice::slice_subrange(chars.as_slice(), 0, k);
    is_text(head, "external-controller") || is_text(head, "secret") || is_text(head, "mixed-port")
        || is_text(head, "external-ui") || is_text(head, "external-ui-url") || is_text(
        head,
        "api-secret",
    ) || is_text(head, "authentication")
}

/// The first `n` members without those that are guarded.
pub open spec fn unguarded_members(o: Members, n: nat) -> Members
    decreases n,
{
    if n == 0 || n > o.len() {
        Seq::empty()
    } else if guarded_path(o[n - 1].0) {
        unguarded_members(o, (n - 1) as nat)
    } else {
        unguarded_members(o, (n - 1) as nat).push(o[n - 1])
    }
}

/// What of `overlay` may be merged at a path: at the root of the configuration
/// the guarded members are left out.
pub open spec fn unguarded(path: Seq<char>, overlay: Json) -> Json {
    match overlay {
        Json::Obj(o) => if path.len() == 0 {
            Json::Obj(unguarded_members(o, o.len()))
        } else {
            overlay
        },
        _ => overlay,
    }
}

fn without_guarded(o: &Object) -> (r: Object)
    ensures
        r@ == unguarded_members(o@, o@.len()),
{
    let ghost all = o@;
    let mut out = Object { entries: Vec::new() };
    let mut i: usize = 0;
    assert(out@ =~= Seq::empty());
    while i < o.entries.len()
        invariant
            i <= o.entries@.len(),
            all == o@,
            all.len() == o.entries@.len(),
            out@ == unguarded_members(all, i as nat),
        decreases o.entries@.len() - i,
    {
        assert(all[i as int] == (o.entries@[i as int].0@, o.entries@[i as int].1@));
        if !is_guarded_path(o.entries[i].0.as_str()) {
            let ghost before = out@;
            let key = o.entries[i].0.clone();
            let value = o.entries[i].1.clone();
            let ghost pair = (key@, value@);
            out.entries.push((key, value));
            assert(out@ =~= before.push(pair));
        }
        i = i + 1;
    }
    out
}

// ---------------------------------------------------------------------------
// Arrays
// ---------------------------------------------------------------------------

/// The array at a path.
pub open spec fn array_at(c: Json, path: Seq<char>) -> Option<Seq<Json>> {
    match at_path(c, path) {
        Some(Json::Arr(a)) => Some(a),
        _ => None,
    }
}

/// The configuration with the array at a path replaced.
pub open spec fn with_array(c: Json, path: Seq<char>, a: Seq<Json>) -> Json {
    replaced(c, path_keys(path), Json::Arr(a))
}

/// The items that a value stands for: those of an array, or the value itself.
pub open spec fn items_of(v: Json) -> Seq<Json> {
    match v {
        Json::Arr(a) => a,
        _ => seq![v],
    }
}

fn item_copies(v: &Document) -> (r: Vec<Document>)
    ensures
        views(r@) == items_of(v@),
{
    match v {
        Document::Array(items) => {
            proof {
                array_view(*items);
            }
            copy_items(items)
        },
        _ => {
            let mut out: Vec<Document> = Vec::new();
            out.push(v.clone());
            assert(views(out@) =~= items_of(v@));
            out
        },
    }
}

/// The array at a path, taken out for change.
fn array_mut<'a>(config: &'a mut Document, path: &str) -> (r: Option<&'a mut Vec<Document>>)
    ensures
        match r {
            Some(v) => array_at(old(config)@, path@) == Some(views(v@)) && final(config)@
                == with_array(old(config)@, path@, views(final(v)@)),
            None => array_at(old(config)@, path@) is None && final(config)@ == old(config)@,
        },
{
    proof {
        crate::json_path::arrays_view();
    }
    match get_array_at_path_mut(config, path) {
        Some(Document::Array(items)) => Some(items),
        _ => None,
    }
}

/// The configuration with items put before those of the array at a path.
pub open spec fn prepended(c: Json, path: Seq<char>, value: Json) -> Json {
    match array_at(c, path) {
        Some(a) => with_array(c, path, items_of(value) + a),
        None => c,
    }
}

/// The configuration with items put after those of the array at a path.
pub open spec fn appended(c: Json, path: Seq<char>, value: Json) -> Json {
    match array_at(c, path) {
        Some(a) => with_array(c, path, a + items_of(value)),
        None => c,
    }
}

/// Puts items before those of the array at a path, where there is one.
pub fn apply_prepend(config: &mut Document, path: &str, value: &Document)
    ensures
        final(config)@ == prepended(old(config)@, path@, value@),
{
    let _ = prepend_items(config, path, value);
}

/// Puts items after those of the array at a path, where there is one.
pub fn apply_append(config: &mut Document, path: &str, value: &Document)
    ensures
        final(config)@ == appended(old(config)@, path@, value@),
{
    let _ = append_items(config, path, value);
}

/// Puts items before those of an array; tells the length of the array after.
fn prepend_items(config: &mut Document, path: &str, value: &Document) -> (r: Option<usize>)
    ensures
        final(config)@ == prepended(old(config)@, path@, value@),
        match r {
            Some(n) => array_at(old(config)@, path@) matches Some(a) && n == a.len() + items_of(
                value@,
            ).len(),
            None => array_at(old(config)@, path@) is None,
        },
{
    let mut all = item_copies(value);
    match array_mut(config, path) {
        Some(items) => {
            let ghost before = views(items@);
            let ghost front = views(all@);
            all.append(items);
            assert(views(all@) =~= front + before);
            let n: usize = all.len();
            *items = all;
            Some(n)
        },
        None => None,
    }
}

/// Puts items after those of an array; tells the length of the array after.
fn append_items(config: &mut Document, path: &str, value: &Document) -> (r: Option<usize>)
    ensures
        final(config)@ == appended(old(config)@, path@, value@),
        match r {
            Some(n) => array_at(old(config)@, path@) matches Some(a) && n == a.len() + items_of(
                value@,
            ).len(),
            None => array_at(old(config)@, path@) is None,
        },
{
    let mut new = item_copies(value);
    match array_mut(config, path) {
        Some(items) => {
            let ghost before = views(items@);
            let ghost back = views(new@);
            items.append(&mut new);
            assert(views(items@) =~= before + back);
            let n: usize = items.len();
            Some(n)
        },
        None => None,
    }
}

// ---------------------------------------------------------------------------
// Values
// ---------------------------------------------------------------------------

/// The configuration with a value at the end of keys, objects created on the
/// way; nothing changes where something on the way is no object.
pub open spec fn put_at(c: Json, keys: Keys, value: Json) -> Json {
    if reached(c, keys) is Some {
        written(c, keys, value)
    } else {
        c
    }
}

/// Sets the value at a dotted path through objects.
pub fn apply_override(config: &mut Document, path: &str, value: &Document)
    ensures
        final(config)@ == put_at(old(config)@, split(path@, '.'), value@),
{
    if path.is_empty() {
        proof {
            empty_path_splits(path@);
            written_one(old(config)@, path@, value@);
        }
        if let Some(obj) = config.as_object_mut() {
            obj.insert(path.to_owned(), value.clone());
        }
    } else if let Some(target) = get_or_create_json_path_mut(config, path) {
        *target = value.clone();
    }
}

/// The empty text is one segment.
proof fn empty_path_splits(path: Seq<char>)
    requires
        path.len() == 0,
    ensures
        split(path, '.') == seq![path],
{
    assert(split(path, '.') =~= seq![path]);
}

/// A path of one segment sets a member.
proof fn written_one(c: Json, key: Seq<char>, value: Json)
    ensures
        reached(c, seq![key]) is Some <==> c is Obj,
        c matches Json::Obj(o) ==> written(c, seq![key], value) == Json::Obj(
            with_member(o, key, value),
        ),
{
    let keys = seq![key];
    assert(keys.drop_first() =~= Seq::empty());
    reveal_with_fuel(reached, 2);
    reveal_with_fuel(written, 2);
}

/// The configuration with a value at the end of keys, where there is none or
/// null.
pub open spec fn defaulted(c: Json, keys: Keys, value: Json) -> Json {
    match at_keys(c, keys) {
        None => put_at(c, keys, value),
        Some(Json::Null) => put_at(c, keys, value),
        Some(_) => c,
    }
}

/// Sets the value at a dotted path through objects, where there is none or
/// null.
pub fn apply_set_default(config: &mut Document, path: &str, value: &Document)
    ensures
        final(config)@ == defaulted(old(config)@, split(path@, '.'), value@),
{
    let missing: bool = if path.is_empty() {
        proof {
            empty_path_splits(path@);
            written_one(old(config)@, path@, value@);
            let keys = seq![path@];
            assert(keys.drop_first() =~= Seq::empty());
            reveal_with_fuel(at_keys, 2);
            no_index(path@);
        }
        match config.get(path) {
            None => true,
            Some(v) => v.is_null(),
        }
    } else {
        match get_json_path(config, path) {
            None => true,
            Some(v) => v.is_null(),
        }
    };
    if missing {
        apply_override(config, path, value);
    }
}

/// The empty text is no array index.
proof fn no_index(part: Seq<char>)
    requires
        part.len() == 0,
    ensures
        crate::json_path::index_text(part) is None,
{
}

// ---------------------------------------------------------------------------
// Effects
// ---------------------------------------------------------------------------

/// What an operation does to a configuration, and what it reports.
#[verifier::ext_equal]
pub ghost struct Effect {
    pub config: Json,
    pub summary: TraceSummary,
    pub items: Seq<ItemView>,
    pub bulk: Option<Seq<Seq<char>>>,
    pub warnings: Seq<WarningView>,
}

/// What an operation reports.
pub struct Report {
    pub summary: TraceSummary,
    pub items: Vec<AffectedItem>,
    pub bulk: Option<Vec<String>>,
    /// What is doubtful about the outcome.
    pub warnings: Vec<TransformWarning>,
}

fn no_warnings() -> (r: Vec<TransformWarning>)
    ensures
        warning_views(r@) == Seq::<WarningView>::empty(),
{
    let none: Vec<TransformWarning> = Vec::new();
    assert(warning_views(none@) =~= Seq::empty());
    none
}

impl Report {
    /// Whether the report is that of an effect.
    pub open spec fn tells(&self, e: Effect) -> bool {
        &&& self.summary == e.summary
        &&& item_views(self.items@) == e.items
        &&& crate::trace::opt_texts(self.bulk) == e.bulk
        &&& warning_views(self.warnings@) == e.warnings
    }

    fn plain(summary: TraceSummary) -> (r: Report)
        ensures
            r.summary == summary,
            item_views(r.items@) == Seq::<ItemView>::empty(),
            r.bulk is None,
            warning_views(r.warnings@) == Seq::<WarningView>::empty(),
    {
        let items: Vec<AffectedItem> = Vec::new();
        assert(item_views(items@) =~= Seq::empty());
        Report { summary, items, bulk: None, warnings: no_warnings() }
    }

    fn nothing() -> (r: Report)
        ensures
            r.summary == no_summary(),
            item_views(r.items@) == Seq::<ItemView>::empty(),
            r.bulk is None,
            warning_views(r.warnings@) == Seq::<WarningView>::empty(),
    {
        Report::plain(TraceSummary::new(0, 0, 0, 0, 0, 0))
    }
}

/// The effect of an operation that does nothing.
pub open spec fn no_effect(c: Json) -> Effect {
    Effect {
        config: c,
        summary: no_summary(),
        items: Seq::empty(),
        bulk: None,
        warnings: Seq::empty(),
    }
}

/// The name of an item, where it has one.
pub open spec fn item_name(item: Json) -> Option<Seq<char>> {
    match field(item, "name"@) {
        Some(Json::Str(s)) => Some(s),
        _ => None,
    }
}

/// The name of an item, or a question mark.
pub open spec fn name_or_mark(item: Json) -> Seq<char> {
    match item_name(item) {
        Some(n) => n,
        None => "?"@,
    }
}

/// An item in words: a text as it is, anything with a name by its name, and
/// everything else as JSON.
pub open spec fn item_text(item: Json) -> Seq<char> {
    match item {
        Json::Str(s) => s,
        _ => match item_name(item) {
            Some(n) => n,
            None => json_text(item),
        },
    }
}

fn name_of<'a>(item: &'a Document) -> (r: Option<&'a str>)
    ensures
        match r {
            Some(n) => item_name(item@) == Some(n@),
            None => item_name(item@) is None,
        },
{
    match item.get("name") {
        Some(Document::String(s)) => Some(s.as_str()),
        _ => None,
    }
}

fn name_or_question_mark<'a>(item: &'a Document) -> (r: &'a str)
    ensures
        r@ == name_or_mark(item@),
{
    match name_of(item) {
        Some(n) => n,
        None => "?",
    }
}

/// An item in words.
pub fn extract_item_description(item: &Document) -> (r: String)
    ensures
        r@ == item_text(item@),
{
    match item {
        Document::String(s) => s.clone(),
        _ => match name_of(item) {
            Some(n) => n.to_owned(),
            None => to_json_text(item),
        },
    }
}

/// From this number of items on, a report sums them up in one entry.
pub const TRACE_SUMMARY_THRESHOLD: usize = 100;

/// The descriptions of items.
pub open spec fn item_texts(items: Seq<Json>) -> Seq<Seq<char>> {
    Seq::new(items.len(), |i: int| item_text(items[i]))
}

/// The entries for items that were added from position `start` on.
pub open spec fn listed(items: Seq<Json>, start: int, verb: Seq<char>) -> Seq<ItemView> {
    if items.len() >= TRACE_SUMMARY_THRESHOLD {
        seq![added_item(start, decimal(items.len()) + verb)]
    } else {
        Seq::new(items.len(), |i: int| added_item(start + i, item_text(items[i])))
    }
}

/// The descriptions that go with one entry for many items.
pub open spec fn bulk_of(items: Seq<Json>) -> Option<Seq<Seq<char>>> {
    if items.len() >= TRACE_SUMMARY_THRESHOLD {
        Some(item_texts(items))
    } else {
        None
    }
}

fn list_items(items: &Vec<Document>, start: usize, verb: &str) -> (r: (
    Vec<AffectedItem>,
    Option<Vec<String>>,
))
    requires
        start + items@.len() <= usize::MAX,
    ensures
        item_views(r.0@) == listed(views(items@), start as int, verb@),
        crate::trace::opt_texts(r.1) == bulk_of(views(items@)),
{
    let ghost all = views(items@);
    let mut out: Vec<AffectedItem> = Vec::new();
    let mut i: usize = 0;
    if items.len() >= TRACE_SUMMARY_THRESHOLD {
        let mut bulk: Vec<String> = Vec::new();
        while i < items.len()
            invariant
                i <= items@.len(),
                all == views(items@),
                bulk@.len() == i,
                forall|j: int| 0 <= j < i ==> (#[trigger] bulk@[j])@ == item_text(all[j]),
            decreases items@.len() - i,
        {
            bulk.push(extract_item_description(&items[i]));
            i = i + 1;
        }
        assert(texts(bulk@) =~= item_texts(all));
        let n = crate::error::count_text(items.len());
        let text = concat(n.as_str(), verb);
        out.push(AffectedItem::added(start, text.as_str()));
        assert(item_views(out@) =~= listed(all, start as int, verb@));
        return (out, Some(bulk));
    }
    while i < items.len()
        invariant
            i <= items@.len(),
            start + items@.len() <= usize::MAX,
            all == views(items@),
            out@.len() == i,
            forall|j: int|
                0 <= j < i ==> (#[trigger] out@[j])@ == added_item(start + j, item_text(all[j])),
        decreases items@.len() - i,
    {
        let text = extract_item_description(&items[i]);
        out.push(AffectedItem::added(start + i, text.as_str()));
        i = i + 1;
    }
    assert(item_views(out@) =~= listed(all, start as int, verb@));
    (out, None)
}

/// The summary of an insertion of `new` items among `old`.
pub open spec fn insertion_summary(new: int, old: int) -> TraceSummary {
    TraceSummary {
        added: new as usize,
        removed: 0,
        modified: 0,
        kept: old as usize,
        total_before: old as usize,
        total_after: (old + new) as usize,
    }
}

/// The effect of a prepend.
pub open spec fn prepend_effect(c: Json, path: Seq<char>, value: Json) -> Effect {
    let new = items_of(value);
    Effect {
        config: prepended(c, path, value),
        summary: insertion_summary(
            if array_at(c, path) is Some {
                new.len() as int
            } else {
                0
            },
            array_len_at(c, path),
        ),
        items: listed(new, 0, " items prepended"@),
        bulk: bulk_of(new),
        warnings: Seq::empty(),
    }
}

/// The effect of an append.
pub open spec fn append_effect(c: Json, path: Seq<char>, value: Json) -> Effect {
    let new = items_of(value);
    Effect {
        config: appended(c, path, value),
        summary: insertion_summary(
            if array_at(c, path) is Some {
                new.len() as int
            } else {
                0
            },
            array_len_at(c, path),
        ),
        items: listed(new, array_len_at(c, path), " items appended"@),
        bulk: bulk_of(new),
        warnings: Seq::empty(),
    }
}

/// Prepends, and reports.
pub(crate) fn run_prepend(config: &mut Document, path: &str, value: &Document) -> (r: Report)
    ensures
        final(config)@ == prepend_effect(old(config)@, path@, value@).config,
        r.tells(prepend_effect(old(config)@, path@, value@)),
{
    let old_len: usize = get_array_len(config, path);
    let new = item_copies(value);
    let count: usize = new.len();
    assert(views(new@).len() == count);
    let done: usize = match prepend_items(config, path, value) {
        Some(_) => count,
        None => 0,
    };
    let (items, bulk) = list_items(&new, 0, " items prepended");
    Report {
        summary: TraceSummary::new(done, 0, 0, old_len, old_len, old_len + done),
        items,
        bulk,
        warnings: no_warnings(),
    }
}

/// Appends, and reports.
pub(crate) fn run_append(config: &mut Document, path: &str, value: &Document) -> (r: Report)
    ensures
        final(config)@ == append_effect(old(config)@, path@, value@).config,
        r.tells(append_effect(old(config)@, path@, value@)),
{
    let old_len: usize = get_array_len(config, path);
    let new = item_copies(value);
    let count: usize = new.len();
    assert(views(new@).len() == count);
    let done: usize = match append_items(config, path, value) {
        Some(_) => count,
        None => 0,
    };
    let (items, bulk) = list_items(&new, old_len, " items appended");
    Report {
        summary: TraceSummary::new(done, 0, 0, old_len, old_len, old_len + done),
        items,
        bulk,
        warnings: no_warnings(),
    }
}

// ---------------------------------------------------------------------------
// Selection
// ---------------------------------------------------------------------------

/// Whether an item goes, where items go for which the expression is `outcome`;
/// an item on which the expression fails stays.
pub open spec fn goes(expr: Seq<char>, item: Json, outcome: bool) -> bool {
    predicate(expr, item) == Ok::<bool, Fault>(outcome)
}

/// Those of the first `n` items that stay.
pub open spec fn staying(items: Seq<Json>, expr: Seq<char>, outcome: bool, n: int) -> Seq<Json>
    decreases n,
{
    if n <= 0 {
        Seq::empty()
    } else if goes(expr, items[n - 1], outcome) {
        staying(items, expr, outcome, n - 1)
    } else {
        staying(items, expr, outcome, n - 1).push(items[n - 1])
    }
}

/// The entries for those of the first `n` items that go.
pub open spec fn going(items: Seq<Json>, expr: Seq<char>, outcome: bool, n: int) -> Seq<ItemView>
    decreases n,
{
    if n <= 0 {
        Seq::empty()
    } else if goes(expr, items[n - 1], outcome) {
        going(items, expr, outcome, n - 1).push(removed_item(n - 1, name_or_mark(items[n - 1])))
    } else {
        going(items, expr, outcome, n - 1)
    }
}

/// The effect of a selection among the items of an array.
pub open spec fn selection_effect(c: Json, path: Seq<char>, expr: Seq<char>, outcome: bool) -> Effect {
    match array_at(c, path) {
        None => no_effect(c),
        Some(a) => {
            let kept = staying(a, expr, outcome, a.len() as int);
            let gone = going(a, expr, outcome, a.len() as int);
            Effect {
                config: with_array(c, path, kept),
                summary: TraceSummary {
                    added: 0,
                    removed: gone.len() as usize,
                    modified: 0,
                    kept: kept.len() as usize,
                    total_before: a.len() as usize,
                    total_after: kept.len() as usize,
                },
                items: gone,
                bulk: None,
                warnings: Seq::empty(),
            }
        },
    }
}

/// Every item either stays or goes.
pub proof fn stay_or_go(items: Seq<Json>, expr: Seq<char>, outcome: bool, n: int)
    requires
        0 <= n <= items.len(),
    ensures
        staying(items, expr, outcome, n).len() + going(items, expr, outcome, n).len() == n,
    decreases n,
{
    if n > 0 {
        stay_or_go(items, expr, outcome, n - 1);
    }
}

/// Removes the items for which an expression has the given outcome, and
/// reports.
pub(crate) fn run_selection(config: &mut Document, path: &str, expr: &str, outcome: bool) -> (r:
    Report)
    ensures
        final(config)@ == selection_effect(old(config)@, path@, expr@, outcome).config,
        r.tells(selection_effect(old(config)@, path@, expr@, outcome)),
{
    match array_mut(config, path) {
        None => Report::nothing(),
        Some(items) => {
            let total: usize = items.len();
            let ghost all = views(items@);
            let mut kept: Vec<Document> = Vec::new();
            let mut gone: Vec<AffectedItem> = Vec::new();
            let mut i: usize = 0;
            assert(views(kept@) =~= Seq::empty());
            assert(item_views(gone@) =~= Seq::empty());
            while i < total
                invariant
                    i <= total,
                    total == items@.len(),
                    all == views(items@),
                    views(kept@) == staying(all, expr@, outcome, i as int),
                    item_views(gone@) == going(all, expr@, outcome, i as int),
                decreases total - i,
            {
                let ghost before = views(kept@);
                let ghost removed = item_views(gone@);
                assert(all[i as int] == items@[i as int]@);
                let leaves: bool = match evaluate_predicate(expr, &items[i]) {
                    Ok(b) => b == outcome,
                    Err(_) => false,
                };
                if leaves {
                    let entry = AffectedItem::removed(i, name_or_question_mark(&items[i]));
                    let ghost e = entry@;
                    gone.push(entry);
                    assert(item_views(gone@) =~= removed.push(e));
                } else {
                    let copy = items[i].clone();
                    let ghost v = copy@;
                    kept.push(copy);
                    assert(views(kept@) =~= before.push(v));
                }
                i = i + 1;
            }
            proof {
                stay_or_go(all, expr@, outcome, all.len() as int);
            }
            let stays: usize = kept.len();
            let goes_away: usize = gone.len();
            *items = kept;
            Report {
                summary: TraceSummary::new(0, goes_away, 0, stays, total, stays),
                items: gone,
                bulk: None,
                warnings: no_warnings(),
            }
        },
    }
}

// ---------------------------------------------------------------------------
// Transformation
// ---------------------------------------------------------------------------

/// An item after a transformation; one on which the expression fails stays as
/// it was.
pub open spec fn changed(expr: Seq<char>, item: Json) -> Json {
    match transformed(expr, item) {
        Ok(v) => v,
        Err(_) => item,
    }
}

/// The items after a transformation.
pub open spec fn changed_items(items: Seq<Json>, expr: Seq<char>) -> Seq<Json> {
    Seq::new(items.len(), |i: int| changed(expr, items[i]))
}

/// The entries for those of the first `n` items that were transformed.
pub open spec fn changes(items: Seq<Json>, expr: Seq<char>, n: int) -> Seq<ItemView>
    decreases n,
{
    if n <= 0 {
        Seq::empty()
    } else {
        match transformed(expr, items[n - 1]) {
            Ok(v) => changes(items, expr, n - 1).push(
                modified_item(n - 1, name_or_mark(items[n - 1]), name_or_mark(v)),
            ),
            Err(_) => changes(items, expr, n - 1),
        }
    }
}

/// The effect of a transformation of the items of an array.
pub open spec fn transform_effect(c: Json, path: Seq<char>, expr: Seq<char>) -> Effect {
    match array_at(c, path) {
        None => no_effect(c),
        Some(a) => {
            let entries = changes(a, expr, a.len() as int);
            Effect {
                config: with_array(c, path, changed_items(a, expr)),
                summary: TraceSummary {
                    added: 0,
                    removed: 0,
                    modified: entries.len() as usize,
                    kept: (a.len() - entries.len()) as usize,
                    total_before: a.len() as usize,
                    total_after: a.len() as usize,
                },
                items: entries,
                bulk: None,
                warnings: doubts(a, changed_items(a, expr)),
            }
        },
    }
}

proof fn changes_len(items: Seq<Json>, expr: Seq<char>, n: int)
    requires
        0 <= n,
    ensures
        changes(items, expr, n).len() <= n,
    decreases n,
{
    if n > 0 {
        changes_len(items, expr, n - 1);
    }
}

/// Transforms the items of an array, and reports.
pub(crate) fn run_transform(config: &mut Document, path: &str, expr: &str) -> (r: Report)
    ensures
        final(config)@ == transform_effect(old(config)@, path@, expr@).config,
        r.tells(transform_effect(old(config)@, path@, expr@)),
{
    match array_mut(config, path) {
        None => Report::nothing(),
        Some(items) => {
            let total: usize = items.len();
            let ghost all = views(items@);
            let mut new: Vec<Document> = Vec::new();
            let mut entries: Vec<AffectedItem> = Vec::new();
            let mut i: usize = 0;
            assert(item_views(entries@) =~= Seq::empty());
            while i < total
                invariant
                    i <= total,
                    total == items@.len(),
                    all == views(items@),
                    new@.len() == i,
                    forall|j: int| 0 <= j < i ==> (#[trigger] new@[j])@ == changed(expr@, all[j]),
                    item_views(entries@) == changes(all, expr@, i as int),
                decreases total - i,
            {
                let ghost before = item_views(entries@);
                assert(all[i as int] == items@[i as int]@);
                match evaluate_transform_expr(expr, &items[i]) {
                    Ok(v) => {
                        let entry = AffectedItem::modified(
                            i,
                            name_or_question_mark(&items[i]),
                            name_or_question_mark(&v),
                        );
                        let ghost e = entry@;
                        entries.push(entry);
                        assert(item_views(entries@) =~= before.push(e));
                        new.push(v);
                    },
                    Err(_) => {
                        new.push(items[i].clone());
                    },
                }
                i = i + 1;
            }
            assert(views(new@) =~= changed_items(all, expr@));
            proof {
                changes_len(all, expr@, all.len() as int);
            }
            let modified: usize = entries.len();
            let warnings = validate_transform_results(items.as_slice(), new.as_slice());
            *items = new;
            Report {
                summary: TraceSummary::new(0, 0, modified, total - modified, total, total),
                items: entries,
                bulk: None,
                warnings,
            }
        },
    }
}

/// The fields that every proxy needs.
pub open spec fn required_field(k: int) -> Seq<char> {
    if k == 0 {
        "name"@
    } else if k == 1 {
        "type"@
    } else if k == 2 {
        "server"@
    } else {
        "port"@
    }
}

/// How many items are looked at after a transformation.
pub const TRANSFORM_VALIDATE_SAMPLE_SIZE: usize = 5;

/// The name by which a warning calls an item.
pub open spec fn warned_name(original: Seq<Json>, results: Seq<Json>, i: int) -> Seq<char> {
    let before = if i < original.len() {
        item_name(original[i])
    } else {
        None
    };
    match before {
        Some(n) => n,
        None => match item_name(results[i]) {
            Some(n) => n,
            None => "unknown"@,
        },
    }
}

/// The warnings about the first `n` pairs of a result and a required field.
pub open spec fn missing_fields(original: Seq<Json>, results: Seq<Json>, n: int) -> Seq<WarningView>
    decreases n,
{
    if n <= 0 {
        Seq::empty()
    } else {
        let before = missing_fields(original, results, n - 1);
        let i = (n - 1) / 4;
        let f = required_field((n - 1) % 4);
        if field(results[i], f) is None {
            before.push(
                WarningView {
                    node: i,
                    name: warned_name(original, results, i),
                    field: f,
                    hint: spread_hint(),
                },
            )
        } else {
            before
        }
    }
}

/// What a warning recommends.
pub open spec fn spread_hint() -> Seq<char> {
    "Did you forget to spread the original proxy? Use ({...p, name: ...}) instead of ({name: ...})."@
}

/// The warnings about the first results of a transformation.
pub open spec fn doubts(original: Seq<Json>, results: Seq<Json>) -> Seq<WarningView> {
    let looked_at = if results.len() < TRANSFORM_VALIDATE_SAMPLE_SIZE {
        results.len() as int
    } else {
        TRANSFORM_VALIDATE_SAMPLE_SIZE as int
    };
    missing_fields(original, results, 4 * looked_at)
}

fn required_name(k: usize) -> (r: &'static str)
    ensures
        r@ == required_field(k as int),
{
    if k == 0 {
        "name"
    } else if k == 1 {
        "type"
    } else if k == 2 {
        "server"
    } else {
        "port"
    }
}

/// Warns of required fields that are missing among the first results of a
/// transformation.
pub fn validate_transform_results(original: &[Document], results: &[Document]) -> (r: Vec<
    TransformWarning,
>)
    ensures
        warning_views(r@) == doubts(views(original@), views(results@)),
{
    let size: usize = if results.len() < TRANSFORM_VALIDATE_SAMPLE_SIZE {
        results.len()
    } else {
        TRANSFORM_VALIDATE_SAMPLE_SIZE
    };
    let ghost old_items = views(original@);
    let ghost new_items = views(results@);
    let mut out: Vec<TransformWarning> = Vec::new();
    let mut n: usize = 0;
    assert(warning_views(out@) =~= Seq::empty());
    while n < 4 * size
        invariant
            size <= 5,
            size <= results@.len(),
            n <= 4 * size,
            old_items == views(original@),
            new_items == views(results@),
            warning_views(out@) == missing_fields(old_items, new_items, n as int),
        decreases 4 * size - n,
    {
        let i: usize = n / 4;
        let f = required_name(n % 4);
        assert(new_items[i as int] == results@[i as int]@);
        let lacks: bool = results[i].get(f).is_none();
        if lacks {
            let before = if i < original.len() {
                assert(old_items[i as int] == original@[i as int]@);
                name_of(&original[i])
            } else {
                None
            };
            let name: &str = match before {
                Some(s) => s,
                None => match name_of(&results[i]) {
                    Some(s) => s,
                    None => "unknown",
                },
            };
            let ghost old_warnings = warning_views(out@);
            let w = TransformWarning {
                node_index: i,
                node_name: name.to_owned(),
                field: f.to_owned(),
                hint: "Did you forget to spread the original proxy? Use ({...p, name: ...}) instead of ({name: ...}).".to_owned(),
            };
            let ghost v = w@;
            out.push(w);
            assert(warning_views(out@) =~= old_warnings.push(v));
        }
        n = n + 1;
    }
    out
}

// ---------------------------------------------------------------------------
// Whole values
// ---------------------------------------------------------------------------

/// The effect of a merge.
pub open spec fn merge_effect(c: Json, path: Seq<char>, value: Json) -> Effect {
    if guarded_path(path) {
        no_effect(c)
    } else {
        match reached(c, path_keys(path)) {
            None => no_effect(c),
            Some(t) => {
                let new = merged(t, unguarded(path, value));
                let modified = capped(merge_diff(t, new).0);
                let total = capped(merge_diff(t, new).1);
                Effect {
                    config: written(c, path_keys(path), new),
                    summary: TraceSummary {
                        added: 0,
                        removed: 0,
                        modified,
                        kept: if total >= modified {
                            (total - modified) as usize
                        } else {
                            0
                        },
                        total_before: total,
                        total_after: total,
                    },
                    items: Seq::empty(),
                    bulk: None,
                    warnings: Seq::empty(),
                }
            },
        }
    }
}

/// Merges, and reports.
pub(crate) fn run_merge(config: &mut Document, path: &str, value: &Document) -> (r: Report)
    ensures
        final(config)@ == merge_effect(old(config)@, path@, value@).config,
        r.tells(merge_effect(old(config)@, path@, value@)),
{
    if is_guarded_path(path) {
        return Report::nothing();
    }
    match get_or_create_json_path_mut(config, path) {
        None => Report::nothing(),
        Some(target) => {
            let before = target.clone();
            match value {
                Document::Object(o) => if path.is_empty() {
                    let allowed = Document::Object(without_guarded(o));
                    deep_merge_json(target, &allowed);
                } else {
                    deep_merge_json(target, value);
                },
                _ => deep_merge_json(target, value),
            }
            let (modified, total) = count_merge_diff(&before, target);
            let kept: usize = if total >= modified {
                total - modified
            } else {
                0
            };
            Report::plain(TraceSummary::new(0, 0, modified, kept, total, total))
        },
    }
}

/// The summary of one replaced value.
pub open spec fn one_modified() -> TraceSummary {
    TraceSummary { added: 0, removed: 0, modified: 1, kept: 0, total_before: 1, total_after: 1 }
}

/// The effect of an override; where the path passes through something that is
/// no object, it sets the member that the whole path names.
pub open spec fn override_effect(c: Json, path: Seq<char>, value: Json) -> Effect {
    if guarded_path(path) {
        no_effect(c)
    } else if reached(c, path_keys(path)) is Some {
        Effect {
            config: written(c, path_keys(path), value),
            summary: one_modified(),
            items: Seq::empty(),
            bulk: None,
            warnings: Seq::empty(),
        }
    } else {
        match c {
            Json::Obj(o) => Effect {
                config: Json::Obj(with_member(o, path, value)),
                summary: one_modified(),
                items: Seq::empty(),
                bulk: None,
                warnings: Seq::empty(),
            },
            _ => no_effect(c),
        }
    }
}

/// Overrides, and reports.
pub(crate) fn run_override(config: &mut Document, path: &str, value: &Document) -> (r: Report)
    ensures
        final(config)@ == override_effect(old(config)@, path@, value@).config,
        r.tells(override_effect(old(config)@, path@, value@)),
{
    if is_guarded_path(path) {
        return Report::nothing();
    }
    let mut done: bool = false;
    if let Some(target) = get_or_create_json_path_mut(config, path) {
        *target = value.clone();
        done = true;
    }
    if !done {
        match config.as_object_mut() {
            Some(obj) => {
                obj.insert(path.to_owned(), value.clone());
            },
            None => {
                return Report::nothing();
            },
        }
    }
    Report::plain(TraceSummary::new(0, 0, 1, 0, 1, 1))
}

/// Whether there is a value at a path; a path of one segment names a member of
/// the configuration itself.
pub open spec fn present(c: Json, path: Seq<char>) -> bool {
    if split(path, '.').len() == 1 {
        field(c, path) is Some
    } else {
        at_path(c, path) is Some
    }
}

/// The configuration with a default set, where it is wanted.
pub open spec fn default_set(c: Json, path: Seq<char>, value: Json) -> Option<Json> {
    if !present(c, path) {
        if reached(c, path_keys(path)) is Some {
            Some(written(c, path_keys(path), value))
        } else {
            None
        }
    } else if at_path(c, path) == Some(Json::Null) {
        Some(replaced(c, path_keys(path), value))
    } else {
        None
    }
}

/// The effect of a default.
pub open spec fn default_effect(c: Json, path: Seq<char>, value: Json) -> Effect {
    match default_set(c, path, value) {
        Some(new) => Effect {
            config: new,
            summary: TraceSummary {
                added: 0,
                removed: 0,
                modified: 1,
                kept: 0,
                total_before: 0,
                total_after: 1,
            },
            items: Seq::empty(),
            bulk: None,
            warnings: Seq::empty(),
        },
        None => Effect {
            config: c,
            summary: TraceSummary {
                added: 0,
                removed: 0,
                modified: 0,
                kept: 1,
                total_before: 0,
                total_after: 0,
            },
            items: Seq::empty(),
            bulk: None,
            warnings: Seq::empty(),
        },
    }
}

/// Sets a default, and reports.
pub(crate) fn run_set_default(config: &mut Document, path: &str, value: &Document) -> (r: Report)
    ensures
        final(config)@ == default_effect(old(config)@, path@, value@).config,
        r.tells(default_effect(old(config)@, path@, value@)),
{
    let chars = chars_of(path);
    let parts = split_at_char(chars.as_slice(), '.');
    assert(crate::text::pieces(parts@).len() == parts@.len());
    let exists_already: bool = if parts.len() == 1 {
        config.get(path).is_some()
    } else {
        get_json_path(config, path).is_some()
    };
    let mut done: bool = false;
    if !exists_already {
        if let Some(target) = get_or_create_json_path_mut(config, path) {
            *target = value.clone();
            done = true;
        }
    } else {
        let is_null: bool = match get_json_path(config, path) {
            Some(v) => v.is_null(),
            None => false,
        };
        if is_null {
            if let Some(target) = get_json_path_mut(config, path) {
                *target = value.clone();
                done = true;
            }
        }
    }
    if done {
        Report::plain(TraceSummary::new(0, 0, 1, 0, 0, 1))
    } else {
        Report::plain(TraceSummary::new(0, 0, 0, 1, 0, 0))
    }
}

// ---------------------------------------------------------------------------
// All operations
// ---------------------------------------------------------------------------

/// The effect of an operation.
pub open spec fn op_effect(c: Json, path: Seq<char>, op: OpView, value: Json) -> Effect {
    match op {
        OpView::DeepMerge => merge_effect(c, path, value),
        OpView::Override => override_effect(c, path, value),
        _ => if guarded_path(path) {
            no_effect(c)
        } else {
            match op {
                OpView::Prepend => prepend_effect(c, path, value),
                OpView::Append => append_effect(c, path, value),
                OpView::Filter(p) => selection_effect(c, path, p.expr, false),
                OpView::Remove(p) => selection_effect(c, path, p.expr, true),
                OpView::Transform(p) => transform_effect(c, path, p.expr),
                _ => default_effect(c, path, value),
            }
        },
    }
}

/// Runs an operation, and reports.
pub fn run_op(config: &mut Document, path: &str, op: &PatchOp, value: &Document) -> (r: Report)
    ensures
        final(config)@ == op_effect(old(config)@, path@, op@, value@).config,
        r.tells(op_effect(old(config)@, path@, op@, value@)),
{
    match op {
        PatchOp::DeepMerge => return run_merge(config, path, value),
        PatchOp::Override => return run_override(config, path, value),
        _ => {},
    }
    if is_guarded_path(path) {
        return Report::nothing();
    }
    match op {
        PatchOp::Prepend => run_prepend(config, path, value),
        PatchOp::Append => run_append(config, path, value),
        PatchOp::Filter { expr } => run_selection(config, path, expr.expr.as_str(), false),
        PatchOp::Remove { expr } => run_selection(config, path, expr.expr.as_str(), true),
        PatchOp::Transform { expr } => run_transform(config, path, expr.expr.as_str()),
        _ => run_set_default(config, path, value),
    }
}

// ---------------------------------------------------------------------------
// Laws
// ---------------------------------------------------------------------------

/// A text without a character ends before it is found.
proof fn no_char(s: Seq<char>, c: char)
    requires
        forall|i: int| 0 <= i < s.len() ==> s[i] != c,
    ensures
        char_index(s, c) == s.len(),
{
    crate::text::char_index_first(s, c);
}

/// A guarded field is one segment.
proof fn guarded_field_is_path(g: Seq<char>)
    requires
        guarded_field(g),
    ensures
        first_segment(g) == g,
        guarded_path(g),
{
    reveal_strlit("external-controller");
    reveal_strlit("secret");
    reveal_strlit("mixed-port");
    reveal_strlit("external-ui");
    reveal_strlit("external-ui-url");
    reveal_strlit("api-secret");
    reveal_strlit("authentication");
    assert forall|i: int| 0 <= i < g.len() implies g[i] != '.' by {}
    no_char(g, '.');
    assert(first_segment(g) =~= g);
}

/// The first key of a path is its first segment.
proof fn first_key(path: Seq<char>)
    requires
        path.len() > 0,
    ensures
        path_keys(path).len() > 0,
        path_keys(path)[0] == first_segment(path),
{
    crate::text::split_first(path, '.');
}

/// Replacing below one member leaves the others as they were.
proof fn replace_keeps_others(c: Json, keys: Keys, new: Json, other: Seq<char>)
    requires
        keys.len() > 0,
        keys[0] != other,
    ensures
        field(replaced(c, keys, new), other) == field(c, other),
{
    if let Some(child) = crate::json_path::child(c, keys[0]) {
        if let Json::Obj(o) = c {
            crate::value::set_then_get(o, keys[0], replaced(child, keys.drop_first(), new), other);
        }
    }
}

/// Members that the overlay does not have stay as they were.
proof fn merge_leaves(b: Members, o: Members, n: nat, k: Seq<char>)
    requires
        n <= o.len(),
        forall|i: int| 0 <= i < n ==> (#[trigger] o[i]).0 != k,
    ensures
        member(crate::merge::merged_members(b, o, n), k) == member(b, k),
    decreases n,
{
    if n > 0 {
        merge_leaves(b, o, (n - 1) as nat, k);
        let m = crate::merge::merged_members(b, o, (n - 1) as nat);
        let key = o[n - 1].0;
        let v = o[n - 1].1;
        crate::value::set_then_get(
            m,
            key,
            match member(m, key) {
                Some(e) => merged(e, v),
                None => v,
            },
            k,
        );
    }
}

/// No guarded member is left.
proof fn none_guarded(o: Members, n: nat)
    requires
        n <= o.len(),
    ensures
        forall|i: int|
            0 <= i < unguarded_members(o, n).len() ==> !guarded_path(
                (#[trigger] unguarded_members(o, n)[i]).0,
            ),
    decreases n,
{
    if n > 0 {
        none_guarded(o, (n - 1) as nat);
        let before = unguarded_members(o, (n - 1) as nat);
        let now = unguarded_members(o, n);
        assert forall|i: int| 0 <= i < now.len() implies !guarded_path((#[trigger] now[i]).0) by {
            if i < before.len() {
                assert(now[i] == before[i]);
            }
        }
    }
}

proof fn member_of_none(o: Members, k: Seq<char>)
    requires
        forall|i: int| 0 <= i < o.len() ==> (#[trigger] o[i]).0 != k,
    ensures
        member(o, k) is None,
{
    crate::value::key_index_first(o, k);
}

/// No operation changes a guarded field.  Left out are the operations on the
/// whole configuration, other than the merge of an object.
pub proof fn guarded_fields_stay(c: Json, path: Seq<char>, op: OpView, value: Json, g: Seq<char>)
    requires
        guarded_field(g),
        path.len() > 0 || op is DeepMerge && value is Obj,
    ensures
        field(op_effect(c, path, op, value).config, g) == field(c, g),
{
    guarded_field_is_path(g);
    if guarded_path(path) {
    } else if path.len() == 0 {
        let o = value->Obj_0;
        none_guarded(o, o.len());
        let rest = unguarded_members(o, o.len());
        assert forall|i: int| 0 <= i < rest.len() implies (#[trigger] rest[i]).0 != g by {}
        if let Json::Obj(b) = c {
            merge_leaves(b, rest, rest.len(), g);
        } else {
            member_of_none(rest, g);
        }
    } else {
        first_key(path);
        let keys = path_keys(path);
        assert(keys[0] != g);
        match op {
            OpView::DeepMerge => {
                if let Some(t) = reached(c, keys) {
                    crate::json_path::write_keeps_others(
                        c,
                        keys,
                        merged(t, unguarded(path, value)),
                        g,
                    );
                }
            },
            OpView::Override => {
                if reached(c, keys) is Some {
                    crate::json_path::write_keeps_others(c, keys, value, g);
                } else if let Json::Obj(o) = c {
                    crate::value::set_then_get(o, path, value, g);
                }
            },
            _ => {
                if let Some(a) = array_at(c, path) {
                    replace_keeps_others(c, keys, Json::Arr(items_of(value) + a), g);
                    replace_keeps_others(c, keys, Json::Arr(a + items_of(value)), g);
                    if let OpView::Filter(p) = op {
                        let kept = staying(a, p.expr, false, a.len() as int);
                        replace_keeps_others(c, keys, Json::Arr(kept), g);
                    }
                    if let OpView::Remove(p) = op {
                        let kept = staying(a, p.expr, true, a.len() as int);
                        replace_keeps_others(c, keys, Json::Arr(kept), g);
                    }
                    if let OpView::Transform(p) = op {
                        replace_keeps_others(c, keys, Json::Arr(changed_items(a, p.expr)), g);
                    }
                }
                replace_keeps_others(c, keys, value, g);
                crate::json_path::write_keeps_others(c, keys, value, g);
            },
        }
    }
}

proof fn rest_in_order(o: Members, n: nat)
    requires
        ordered_throughout(Json::Obj(o)),
        n <= o.len(),
    ensures
        ordered_throughout(Json::Obj(unguarded_members(o, n))),
        forall|i: int|
            0 <= i < unguarded_members(o, n).len() ==> exists|j: int|
                0 <= j < n && #[trigger] unguarded_members(o, n)[i] == #[trigger] o[j],
    decreases n,
{
    if n > 0 {
        let before = unguarded_members(o, (n - 1) as nat);
        let rest = unguarded_members(o, n);
        rest_in_order(o, (n - 1) as nat);
        members_ordered_each(o, o.len());
        members_ordered_each(before, before.len());
        assert forall|i: int| 0 <= i < rest.len() implies exists|j: int|
            0 <= j < n && #[trigger] rest[i] == #[trigger] o[j] by {
            if i < before.len() {
                assert(rest[i] == before[i]);
            } else {
                assert(rest[i] == o[n - 1]);
            }
        }
        members_ordered_each(rest, rest.len());
    }
}

proof fn array_in_order(c: Json, path: Seq<char>, a: Seq<Json>)
    requires
        ordered_throughout(c),
        forall|i: int| 0 <= i < a.len() ==> ordered_throughout(#[trigger] a[i]),
    ensures
        ordered_throughout(with_array(c, path, a)),
{
    items_ordered_each(a, a.len());
    replace_keeps_all_in_order(c, path_keys(path), Json::Arr(a));
}

proof fn items_in_order(v: Json)
    requires
        ordered_throughout(v),
    ensures
        forall|i: int| 0 <= i < items_of(v).len() ==> ordered_throughout(#[trigger] items_of(v)[i]),
{
    if let Json::Arr(a) = v {
        items_ordered_each(a, a.len());
    }
}

proof fn staying_in_order(items: Seq<Json>, expr: Seq<char>, outcome: bool, n: int)
    requires
        n <= items.len(),
        forall|i: int| 0 <= i < items.len() ==> ordered_throughout(#[trigger] items[i]),
    ensures
        forall|i: int|
            0 <= i < staying(items, expr, outcome, n).len() ==> ordered_throughout(
                #[trigger] staying(items, expr, outcome, n)[i],
            ),
    decreases n,
{
    if n > 0 {
        let before = staying(items, expr, outcome, n - 1);
        let now = staying(items, expr, outcome, n);
        staying_in_order(items, expr, outcome, n - 1);
        assert forall|i: int| 0 <= i < now.len() implies ordered_throughout(#[trigger] now[i]) by {
            if i < before.len() {
                assert(now[i] == before[i]);
            } else {
                assert(now[i] == items[n - 1]);
            }
        }
    }
}

/// The members of every object stand in the order of their keys after every
/// operation, as long as they did so before, and in its value.
pub proof fn operations_keep_all_in_order(c: Json, path: Seq<char>, op: OpView, value: Json)
    requires
        ordered_throughout(c),
        ordered_throughout(value),
    ensures
        ordered_throughout(op_effect(c, path, op, value).config),
{
    let keys = path_keys(path);
    write_keeps_all_in_order(c, keys, value);
    replace_keeps_all_in_order(c, keys, value);
    parts_are_in_order(c, keys);
    items_in_order(value);
    match op {
        OpView::DeepMerge => {
            if let Json::Obj(o) = value {
                rest_in_order(o, o.len());
            }
            if let Some(t) = reached(c, keys) {
                let new = merged(t, unguarded(path, value));
                merge_keeps_all_in_order(t, unguarded(path, value));
                write_keeps_all_in_order(c, keys, new);
            }
        },
        OpView::Override => {
            if let Json::Obj(o) = c {
                set_keeps_all_in_order(o, path, value);
            }
        },
        _ => {
            if let Some(a) = array_at(c, path) {
                items_ordered_each(a, a.len());
                array_in_order(c, path, items_of(value) + a);
                array_in_order(c, path, a + items_of(value));
                if let OpView::Filter(p) = op {
                    staying_in_order(a, p.expr, false, a.len() as int);
                    array_in_order(c, path, staying(a, p.expr, false, a.len() as int));
                }
                if let OpView::Remove(p) = op {
                    staying_in_order(a, p.expr, true, a.len() as int);
                    array_in_order(c, path, staying(a, p.expr, true, a.len() as int));
                }
                if let OpView::Transform(p) = op {
                    let b = changed_items(a, p.expr);
                    assert forall|i: int| 0 <= i < b.len() implies ordered_throughout(
                        #[trigger] b[i],
                    ) by {
                        assert(ordered_throughout(a[i]));
                        transform_keeps_all_in_order(p.expr, a[i]);
                    }
                    array_in_order(c, path, b);
                }
            }
        },
    }
}

/// After an override, the path holds the value.
pub proof fn override_then_read(c: Json, path: Seq<char>, value: Json)
    requires
        !guarded_path(path),
        reached(c, path_keys(path)) is Some,
    ensures
        at_path(override_effect(c, path, value).config, path) == Some(value),
{
    crate::json_path::write_then_read(c, path_keys(path), value);
}

/// A default changes nothing where there is a value other than null, even an
/// empty array or an empty object.
pub proof fn default_keeps_values(c: Json, path: Seq<char>, value: Json)
    requires
        present(c, path),
        at_path(c, path) != Some(Json::Null),
    ensures
        default_effect(c, path, value).config == c,
{
}

/// What a filter removes a remove keeps, and the other way round, except for
/// items on which the expression fails: both keep those.
pub proof fn filter_and_remove_are_opposite(expr: Seq<char>, item: Json)
    ensures
        predicate(expr, item) is Ok ==> goes(expr, item, true) != goes(expr, item, false),
        predicate(expr, item) is Err ==> !goes(expr, item, true) && !goes(expr, item, false),
{
    match predicate(expr, item) {
        Ok(b) => {
            if b {
                assert(goes(expr, item, true));
            } else {
                assert(goes(expr, item, false));
            }
        },
        Err(_) => {},
    }
}

/// Every item that stays was there before and does not go.
proof fn staying_stay(items: Seq<Json>, expr: Seq<char>, outcome: bool, n: int)
    requires
        0 <= n <= items.len(),
    ensures
        forall|i: int|
            0 <= i < staying(items, expr, outcome, n).len() ==> !goes(
                expr,
                #[trigger] staying(items, expr, outcome, n)[i],
                outcome,
            ),
    decreases n,
{
    if n > 0 {
        staying_stay(items, expr, outcome, n - 1);
        let before = staying(items, expr, outcome, n - 1);
        let now = staying(items, expr, outcome, n);
        assert forall|i: int| 0 <= i < now.len() implies !goes(
            expr,
            #[trigger] now[i],
            outcome,
        ) by {
            if i < before.len() {
                assert(now[i] == before[i]);
            }
        }
    }
}

proof fn all_stay(items: Seq<Json>, expr: Seq<char>, outcome: bool, n: int)
    requires
        0 <= n <= items.len(),
        forall|i: int| 0 <= i < n ==> !goes(expr, #[trigger] items[i], outcome),
    ensures
        staying(items, expr, outcome, n) == items.take(n),
    decreases n,
{
    if n > 0 {
        all_stay(items, expr, outcome, n - 1);
        assert(items.take(n - 1).push(items[n - 1]) =~= items.take(n));
    } else {
        assert(items.take(0) =~= Seq::empty());
    }
}

/// Selecting a second time removes nothing more.
pub proof fn select_twice(items: Seq<Json>, expr: Seq<char>, outcome: bool)
    ensures
        ({
            let once = staying(items, expr, outcome, items.len() as int);
            staying(once, expr, outcome, once.len() as int) == once
        }),
{
    let once = staying(items, expr, outcome, items.len() as int);
    staying_stay(items, expr, outcome, items.len() as int);
    all_stay(once, expr, outcome, once.len() as int);
    assert(once.take(once.len() as int) =~= once);
}

/// Whether a result has every field that a proxy needs.
pub open spec fn complete(result: Json) -> bool {
    forall|k: int| 0 <= k < 4 ==> field(result, #[trigger] required_field(k)) is Some
}

proof fn missing_or_present(original: Seq<Json>, results: Seq<Json>, n: int)
    requires
        0 <= n,
    ensures
        missing_fields(original, results, n).len() == 0 <==> forall|m: int|
            0 <= m < n ==> field(results[m / 4], #[trigger] required_field(m % 4)) is Some,
    decreases n,
{
    if n > 0 {
        missing_or_present(original, results, n - 1);
    }
}

/// A transformation is warned of exactly where one of the results that are
/// looked at lacks a required field.
pub proof fn warned_of_what_is_missing(original: Seq<Json>, results: Seq<Json>)
    ensures
        doubts(original, results).len() == 0 <==> forall|i: int|
            0 <= i < results.len() && i < TRANSFORM_VALIDATE_SAMPLE_SIZE ==> complete(
                #[trigger] results[i],
            ),
{
    let size = if results.len() < TRANSFORM_VALIDATE_SAMPLE_SIZE {
        results.len() as int
    } else {
        TRANSFORM_VALIDATE_SAMPLE_SIZE as int
    };
    let n = 4 * size;
    missing_or_present(original, results, n);
    if doubts(original, results).len() == 0 {
        assert forall|i: int| 0 <= i < size implies complete(#[trigger] results[i]) by {
            assert forall|k: int| 0 <= k < 4 implies field(
                results[i],
                #[trigger] required_field(k),
            ) is Some by {
                let m = 4 * i + k;
                assert(m / 4 == i && m % 4 == k);
                assert(required_field(m % 4) == required_field(k));
            }
        }
    } else if forall|i: int| 0 <= i < size ==> complete(#[trigger] results[i]) {
        assert forall|m: int| 0 <= m < n implies field(
            results[m / 4],
            #[trigger] required_field(m % 4),
        ) is Some by {
            assert(complete(results[m / 4]));
        }
    }
}

/// After a prepend the array at the path holds the new items first, in the order
/// in which they were given, and then the items that were there, in their order.
pub proof fn prepended_items_come_first(c: Json, path: Seq<char>, a: Seq<Json>, v: Seq<Json>)
    requires
        !guarded_path(path),
        at_path(c, path) == Some(Json::Arr(a)),
    ensures
        prepended(c, path, Json::Arr(v)) == op_effect(
            c,
            path,
            OpView::Prepend,
            Json::Arr(v),
        ).config,
        at_path(prepended(c, path, Json::Arr(v)), path) matches Some(Json::Arr(b)) && b.len()
            == v.len() + a.len() && (forall|i: int| 0 <= i < v.len() ==> #[trigger] b[i] == v[i])
            && (forall|j: int| 0 <= j < a.len() ==> b[v.len() + j] == #[trigger] a[j]),
{
    replace_then_read(c, path_keys(path), Json::Arr(v + a));
    assert(at_path(prepended(c, path, Json::Arr(v)), path) == Some(Json::Arr(v + a)));
}

/// After an append the array at the path holds the items that were there, in their
/// order, and then the new items in the order in which they were given.
pub proof fn appended_items_come_last(c: Json, path: Seq<char>, a: Seq<Json>, v: Seq<Json>)
    requires
        !guarded_path(path),
        at_path(c, path) == Some(Json::Arr(a)),
    ensures
        appended(c, path, Json::Arr(v)) == op_effect(c, path, OpView::Append, Json::Arr(v)).config,
        at_path(appended(c, path, Json::Arr(v)), path) matches Some(Json::Arr(b)) && b.len()
            == a.len() + v.len() && (forall|i: int| 0 <= i < a.len() ==> #[trigger] b[i] == a[i])
            && (forall|j: int| 0 <= j < v.len() ==> b[a.len() + j] == #[trigger] v[j]),
{
    replace_then_read(c, path_keys(path), Json::Arr(a + v));
    assert(at_path(appended(c, path, Json::Arr(v)), path) == Some(Json::Arr(a + v)));
}

/// A value that is no array is inserted as one item, and where there is no array
/// nothing is inserted.
pub proof fn one_item_or_none_is_inserted(c: Json, path: Seq<char>, v: Json)
    requires
        !guarded_path(path),
        !(v is Arr),
    ensures
        match at_path(c, path) {
            Some(Json::Arr(a)) => {
                &&& at_path(op_effect(c, path, OpView::Prepend, v).config, path) == Some(
                    Json::Arr(a.insert(0, v)),
                )
                &&& at_path(op_effect(c, path, OpView::Append, v).config, path) == Some(
                    Json::Arr(a.push(v)),
                )
            },
            _ => {
                &&& op_effect(c, path, OpView::Prepend, v).config == c
                &&& op_effect(c, path, OpView::Append, v).config == c
            },
        },
{
    if let Some(Json::Arr(a)) = at_path(c, path) {
        assert(seq![v] + a =~= a.insert(0, v));
        assert(a + seq![v] =~= a.push(v));
        replace_then_read(c, path_keys(path), Json::Arr(a.insert(0, v)));
        replace_then_read(c, path_keys(path), Json::Arr(a.push(v)));
    }
}

proof fn staying_is_a_filter(items: Seq<Json>, expr: Seq<char>, outcome: bool, n: int)
    requires
        0 <= n <= items.len(),
    ensures
        staying(items, expr, outcome, n) == items.take(n).filter(
            |x: Json| predicate(expr, x) != Ok::<bool, Fault>(outcome),
        ),
    decreases n,
{
    reveal(Seq::filter);
    if n > 0 {
        staying_is_a_filter(items, expr, outcome, n - 1);
        assert(items.take(n).drop_last() =~= items.take(n - 1));
    } else {
        assert(items.take(0) =~= Seq::empty());
    }
}

/// A filter keeps the items for which its expression holds, and those on which it
/// fails; a remove keeps the items for which its expression does not hold, and
/// those on which it fails.  What is kept stays in its order.
pub proof fn what_selection_keeps(
    c: Json,
    path: Seq<char>,
    a: Seq<Json>,
    p: PredicateView,
    value: Json,
)
    requires
        !guarded_path(path),
        at_path(c, path) == Some(Json::Arr(a)),
    ensures
        at_path(op_effect(c, path, OpView::Filter(p), value).config, path) == Some(
            Json::Arr(a.filter(|x: Json| predicate(p.expr, x) != Ok::<bool, Fault>(false))),
        ),
        at_path(op_effect(c, path, OpView::Remove(p), value).config, path) == Some(
            Json::Arr(a.filter(|x: Json| predicate(p.expr, x) != Ok::<bool, Fault>(true))),
        ),
{
    assert(a.take(a.len() as int) =~= a);
    staying_is_a_filter(a, p.expr, false, a.len() as int);
    staying_is_a_filter(a, p.expr, true, a.len() as int);
    replace_then_read(
        c,
        path_keys(path),
        Json::Arr(staying(a, p.expr, false, a.len() as int)),
    );
    replace_then_read(c, path_keys(path), Json::Arr(staying(a, p.expr, true, a.len() as int)));
}

/// A transformation gives each item what the expression makes of it, in its place;
/// an item on which the expression fails stays as it was.
pub proof fn each_item_is_transformed(
    c: Json,
    path: Seq<char>,
    a: Seq<Json>,
    p: PredicateView,
    value: Json,
)
    requires
        !guarded_path(path),
        at_path(c, path) == Some(Json::Arr(a)),
    ensures
        at_path(op_effect(c, path, OpView::Transform(p), value).config, path) matches Some(
            Json::Arr(b),
        ) && b.len() == a.len() && forall|i: int|
            0 <= i < a.len() ==> match transformed(p.expr, a[i]) {
                Ok(v) => #[trigger] b[i] == v,
                Err(_) => b[i] == a[i],
            },
{
    replace_then_read(c, path_keys(path), Json::Arr(changed_items(a, p.expr)));
    assert(at_path(op_effect(c, path, OpView::Transform(p), value).config, path) == Some(
        Json::Arr(changed_items(a, p.expr)),
    ));
}

/// A default leaves the configuration as it is where there is a value other than
/// null at the path.  Left out is the empty path, at which a default replaces the
/// whole configuration.
pub proof fn default_leaves_what_is_there(c: Json, path: Seq<char>, value: Json, v: Json)
    requires
        path.len() > 0,
        at_path(c, path) == Some(v),
        !(v is Null),
    ensures
        default_effect(c, path, value).config == c,
        op_effect(c, path, OpView::SetDefault, value).config == c,
        op_effect(c, path, OpView::SetDefault, value).summary.modified == 0,
{
    let keys = path_keys(path);
    crate::text::split_len(path, '.');
    if keys.len() == 1 {
        assert(keys[0] == path);
        assert(keys.drop_first() =~= Seq::empty());
        reveal_with_fuel(at_keys, 2);
        reveal_with_fuel(reached, 2);
    }
}

/// A default fills in what is missing or null: afterwards the path holds the
/// value, as long as the way there leads through objects.
pub proof fn default_fills_in_what_is_missing(c: Json, path: Seq<char>, value: Json)
    requires
        !guarded_path(path),
        path.len() > 0,
        at_path(c, path) is None || at_path(c, path) == Some(Json::Null),
        reached(c, path_keys(path)) is Some,
    ensures
        at_path(default_effect(c, path, value).config, path) == Some(value),
        at_path(op_effect(c, path, OpView::SetDefault, value).config, path) == Some(value),
        op_effect(c, path, OpView::SetDefault, value).summary.modified == 1,
{
    let keys = path_keys(path);
    crate::text::split_len(path, '.');
    if keys.len() == 1 {
        assert(keys[0] == path);
        assert(keys.drop_first() =~= Seq::empty());
        reveal_with_fuel(at_keys, 2);
        reveal_with_fuel(reached, 2);
    }
    crate::json_path::write_then_read(c, keys, value);
    if at_path(c, path) is Some {
        replace_then_read(c, keys, value);
    }
}

/// After an override the path holds the value and nothing of what it held before,
/// and the rest of the configuration beside the path is as it was.
pub proof fn override_replaces_the_value(c: Json, path: Seq<char>, value: Json, other: Seq<char>)
    requires
        !guarded_path(path),
        path.len() > 0,
        reached(c, path_keys(path)) is Some,
        other != first_segment(path),
    ensures
        at_path(op_effect(c, path, OpView::Override, value).config, path) == Some(value),
        field(op_effect(c, path, OpView::Override, value).config, other) == field(c, other),
        op_effect(c, path, OpView::Override, value).summary.modified == 1,
{
    first_key(path);
    crate::json_path::write_then_read(c, path_keys(path), value);
    crate::json_path::write_keeps_others(c, path_keys(path), value, other);
}

/// After a merge the path holds what was there with the value merged in.
pub proof fn merge_at_a_path(c: Json, path: Seq<char>, value: Json, t: Json, other: Seq<char>)
    requires
        !guarded_path(path),
        path.len() > 0,
        reached(c, path_keys(path)) == Some(t),
        other != first_segment(path),
    ensures
        at_path(op_effect(c, path, OpView::DeepMerge, value).config, path) == Some(
            merged(t, value),
        ),
        field(op_effect(c, path, OpView::DeepMerge, value).config, other) == field(c, other),
{
    first_key(path);
    crate::json_path::write_then_read(c, path_keys(path), merged(t, value));
    crate::json_path::write_keeps_others(c, path_keys(path), merged(t, value), other);
}

proof fn unguarded_member(o: Members, n: nat, k: Seq<char>)
    requires
        n <= o.len(),
        !guarded_path(k),
    ensures
        member(unguarded_members(o, n), k) == member(o.take(n as int), k),
    decreases n,
{
    if n > 0 {
        unguarded_member(o, (n - 1) as nat, k);
        let before = o.take(n - 1);
        let now = o.take(n as int);
        assert(now =~= before.push(o[n - 1]));
        let kept = unguarded_members(o, (n - 1) as nat);
        member_of_longer(before, o[n - 1], k);
        member_of_longer(kept, o[n - 1], k);
    } else {
        assert(o.take(0) =~= Seq::empty());
    }
}

proof fn member_of_longer(o: Members, e: (Seq<char>, Json), k: Seq<char>)
    ensures
        member(o.push(e), k) == (match member(o, k) {
            Some(v) => Some(v),
            None => if e.0 == k {
                Some(e.1)
            } else {
                None
            },
        }),
{
    let p = o.push(e);
    crate::value::key_index_first(o, k);
    crate::value::key_index_first(p, k);
    let i = crate::value::key_index(o, k);
    let j = crate::value::key_index(p, k);
    if i < o.len() {
        assert(p[i] == o[i]);
        if j < i {
            assert(p[j] == o[j]);
        }
        assert(j == i);
    } else {
        if j < o.len() {
            assert(p[j] == o[j]);
        }
        assert(p[o.len() as int] == e);
    }
}

proof fn unguarded_in_order(o: Members, n: nat)
    requires
        crate::value::ordered(o),
        n <= o.len(),
    ensures
        crate::value::ordered(unguarded_members(o, n)),
        forall|i: int|
            0 <= i < unguarded_members(o, n).len() ==> exists|j: int|
                0 <= j < n && #[trigger] unguarded_members(o, n)[i] == #[trigger] o[j],
    decreases n,
{
    if n > 0 {
        unguarded_in_order(o, (n - 1) as nat);
        let before = unguarded_members(o, (n - 1) as nat);
        let rest = unguarded_members(o, n);
        assert forall|i: int| 0 <= i < rest.len() implies exists|j: int|
            0 <= j < n && #[trigger] rest[i] == #[trigger] o[j] by {
            if i < before.len() {
                assert(rest[i] == before[i]);
            } else {
                assert(rest[i] == o[n - 1]);
            }
        }
        assert forall|i: int, j: int| 0 <= i < j < rest.len() implies crate::text::text_lt(
            #[trigger] rest[i].0,
            #[trigger] rest[j].0,
        ) by {
            assert(rest[i] == before[i]);
            if j < before.len() {
                assert(rest[j] == before[j]);
            } else {
                let m = choose|m: int| 0 <= m < n - 1 && before[i] == #[trigger] o[m];
                assert(crate::text::text_lt(o[m].0, o[n - 1].0));
            }
        }
    }
}

/// A merge into the whole configuration: a member of the value is merged into the
/// member of that name, or put in where there is none; members that the value does
/// not have stay, and so do the guarded ones.
pub proof fn merge_at_the_root(b: Members, o: Members, k: Seq<char>)
    requires
        crate::value::ordered(o),
    ensures
        field(
            op_effect(Json::Obj(b), Seq::empty(), OpView::DeepMerge, Json::Obj(o)).config,
            k,
        ) == (if guarded_path(k) {
            member(b, k)
        } else {
            match (member(b, k), member(o, k)) {
                (Some(w), Some(v)) => Some(merged(w, v)),
                (None, Some(v)) => Some(v),
                (old_one, None) => old_one,
            }
        }),
{
    let rest = unguarded_members(o, o.len());
    let path = Seq::<char>::empty();
    assert(first_segment(path) =~= Seq::empty());
    reveal_strlit("external-controller");
    reveal_strlit("secret");
    reveal_strlit("mixed-port");
    reveal_strlit("external-ui");
    reveal_strlit("external-ui-url");
    reveal_strlit("api-secret");
    reveal_strlit("authentication");
    assert(!guarded_path(path));
    unguarded_in_order(o, o.len());
    crate::merge::merge_member_by_member(b, rest, k);
    if guarded_path(k) {
        none_guarded(o, o.len());
        member_of_none(rest, k);
    } else {
        unguarded_member(o, o.len(), k);
        assert(o.take(o.len() as int) =~= o);
    }
}

/// Whether a name is one of the fields that the user interface and the core depend
/// on.
pub open spec fn protected_name(g: Seq<char>) -> bool {
    ||| g == "external-controller"@
    ||| g == "external-ui"@
    ||| g == "external-ui-url"@
    ||| g == "secret"@
    ||| g == "api-secret"@
    ||| g == "mixed-port"@
    ||| g == "authentication"@
}

/// At a protected field, and at every path below one, no operation does anything.
pub proof fn nothing_happens_at_protected_fields(
    c: Json,
    g: Seq<char>,
    rest: Seq<char>,
    op: OpView,
    value: Json,
)
    requires
        protected_name(g),
    ensures
        op_effect(c, g, op, value).config == c,
        op_effect(c, g + "."@ + rest, op, value).config == c,
{
    reveal_strlit(".");
    guarded_field_is_path(g);
    let path = g + "."@ + rest;
    crate::text::char_index_first(path, '.');
    crate::text::char_index_first(g, '.');
    assert(path[g.len() as int] == '.');
    let i = char_index(path, '.');
    if i < g.len() {
        assert(g[i] == '.');
        assert(first_segment(g) == g);
        assert(char_index(g, '.') <= i);
        assert(first_segment(g).len() == char_index(g, '.'));
    }
    assert(path.subrange(0, i) =~= g);
}

/// Every other field can be changed: what stands in the way of an operation is
/// only the first name of its path.
pub proof fn only_protected_fields_are_guarded(path: Seq<char>)
    ensures
        guarded_path(path) ==> protected_name(first_segment(path)),
{
}

/// The counts of an operation on an array add up: what was there is removed,
/// modified or kept, and what is there afterwards is what was there, without what
/// was removed and with what was added.
pub proof fn counts_add_up(c: Json, path: Seq<char>, op: OpView, value: Json, a: Seq<Json>)
    requires
        !guarded_path(path),
        at_path(c, path) == Some(Json::Arr(a)),
        op is Prepend || op is Append || op is Filter || op is Remove || op is Transform,
        a.len() + items_of(value).len() <= usize::MAX,
    ensures
        ({
            let e = op_effect(c, path, op, value);
            let s = e.summary;
            &&& s.total_before == a.len()
            &&& s.removed + s.modified + s.kept == s.total_before
            &&& s.total_after == s.total_before - s.removed + s.added
            &&& at_path(e.config, path) matches Some(Json::Arr(b)) && s.total_after == b.len()
            &&& op is Filter || op is Remove ==> s.removed == e.items.len() && s.added == 0
                && s.modified == 0
            &&& op is Transform ==> s.modified == e.items.len() && s.added == 0 && s.removed == 0
            &&& op is Prepend || op is Append ==> s.removed == 0 && s.modified == 0
        }),
{
    match op {
        OpView::Prepend => replace_then_read(
            c,
            path_keys(path),
            Json::Arr(items_of(value) + a),
        ),
        OpView::Append => replace_then_read(c, path_keys(path), Json::Arr(a + items_of(value))),
        OpView::Filter(p) => {
            stay_or_go(a, p.expr, false, a.len() as int);
            replace_then_read(
                c,
                path_keys(path),
                Json::Arr(staying(a, p.expr, false, a.len() as int)),
            );
        },
        OpView::Remove(p) => {
            stay_or_go(a, p.expr, true, a.len() as int);
            replace_then_read(
                c,
                path_keys(path),
                Json::Arr(staying(a, p.expr, true, a.len() as int)),
            );
        },
        OpView::Transform(p) => {
            changes_len(a, p.expr, a.len() as int);
            replace_then_read(c, path_keys(path), Json::Arr(changed_items(a, p.expr)));
        },
        _ => {},
    }
}

/// A result is complete where it has a name, a type, a server and a port.
pub proof fn which_results_are_complete(result: Json)
    ensures
        complete(result) <==> field(result, "name"@) is Some && field(result, "type"@) is Some
            && field(result, "server"@) is Some && field(result, "port"@) is Some,
{
    if complete(result) {
        assert(field(result, required_field(0)) is Some);
        assert(field(result, required_field(1)) is Some);
        assert(field(result, required_field(2)) is Some);
        assert(field(result, required_field(3)) is Some);
    }
}

/// Each warning is about one of the first five results and names a field that the
/// result lacks.
pub proof fn warnings_name_what_is_missing(original: Seq<Json>, results: Seq<Json>, w: int)
    requires
        0 <= w < doubts(original, results).len(),
    ensures
        ({
            let warning = doubts(original, results)[w];
            &&& 0 <= warning.node < results.len()
            &&& warning.node < 5
            &&& field(results[warning.node as int], warning.field) is None
            &&& warning.field == "name"@ || warning.field == "type"@ || warning.field == "server"@
                || warning.field == "port"@
        }),
{
    let size = if results.len() < 5 {
        results.len() as int
    } else {
        5
    };
    each_warning_is_due(original, results, 4 * size, w);
}

proof fn each_warning_is_due(original: Seq<Json>, results: Seq<Json>, n: int, w: int)
    requires
        0 <= w < missing_fields(original, results, n).len(),
    ensures
        ({
            let warning = missing_fields(original, results, n)[w];
            &&& 0 <= warning.node && 4 * warning.node < n
            &&& field(results[warning.node as int], warning.field) is None
            &&& exists|k: int| 0 <= k < 4 && warning.field == #[trigger] required_field(k)
        }),
    decreases n,
{
    if n > 0 {
        let before = missing_fields(original, results, n - 1);
        if w < before.len() {
            each_warning_is_due(original, results, n - 1, w);
        } else {
            assert(0 <= (n - 1) % 4 < 4);
            assert(missing_fields(original, results, n)[w].field == required_field((n - 1) % 4));
        }
    }
}

} // verus!
