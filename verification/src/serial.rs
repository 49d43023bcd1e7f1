//! Deterministic serialisation: documents that say the same give the same text,
//! whatever the order of their members.

use vstd::prelude::*;
use vstd::utf8::encode_utf8;
use crate::expr::{bool_text, push_text};
use crate::json_text::{json_text, to_json_text};
use crate::number::{json_number_text, push_number};
use crate::outside::{json_quote, json_quoted, sha256, sha256_of};
use crate::text::{text_lt, text_lt_irreflexive, text_lt_transitive, text_of};
use crate::value::{
    array_view, items_ordered, items_ordered_each, key_index, key_index_first, key_index_unique,
    key_slot, key_slot_bounds, member, members_ordered, members_ordered_each, ordered,
    ordered_throughout, set_keeps_order, set_then_get, set_values, views, with_member, Document,
    Json, Members, Object,
};

verus! {

// ---------------------------------------------------------------------------
// The order of members
// ---------------------------------------------------------------------------

/// A document with the members of every object in the order of their keys.
pub open spec fn key_sorted(v: Json) -> Json
    decreases v, 0nat,
{
    match v {
        Json::Arr(a) => Json::Arr(sorted_items(a, a.len())),
        Json::Obj(o) => Json::Obj(sorted_members(o, o.len())),
        _ => v,
    }
}

/// The first `n` items, each sorted.
pub open spec fn sorted_items(a: Seq<Json>, n: nat) -> Seq<Json>
    decreases a, n,
{
    if n == 0 || n > a.len() {
        Seq::empty()
    } else {
        sorted_items(a, (n - 1) as nat).push(key_sorted(a[n - 1]))
    }
}

/// The first `n` members, each sorted, in the order of their keys.  Of two
/// members with the same key the later one counts.
pub open spec fn sorted_members(o: Members, n: nat) -> Members
    decreases o, n,
{
    if n == 0 || n > o.len() {
        Seq::empty()
    } else {
        with_member(
            sorted_members(o, (n - 1) as nat),
            o[n - 1].0,
            key_sorted(o[n - 1].1),
        )
    }
}

fn sort_items(items: &Vec<Document>) -> (r: Vec<Document>)
    ensures
        views(r@) == sorted_items(views(items@), items@.len()),
    decreases items,
{
    let ghost a = views(items@);
    let mut out: Vec<Document> = Vec::new();
    let mut i: usize = 0;
    assert(views(out@) =~= Seq::empty());
    while i < items.len()
        invariant
            i <= items@.len(),
            a == views(items@),
            views(out@) == sorted_items(a, i as nat),
        decreases items@.len() - i,
    {
        let ghost before = views(out@);
        assert(a[i as int] == items@[i as int]@);
        let sorted = sort_value(&items[i]);
        out.push(sorted);
        assert(views(out@) =~= before.push(sorted@));
        i = i + 1;
    }
    out
}

fn sort_members(obj: &Object) -> (r: Object)
    ensures
        r@ == sorted_members(obj@, obj@.len()),
    decreases obj,
{
    let ghost o = obj@;
    let mut out = Object::new();
    let mut i: usize = 0;
    while i < obj.entries.len()
        invariant
            i <= obj.entries@.len(),
            o == obj@,
            o.len() == obj.entries@.len(),
            out@ == sorted_members(o, i as nat),
        decreases obj.entries@.len() - i,
    {
        assert(o[i as int] == (obj.entries@[i as int].0@, obj.entries@[i as int].1@));
        let sorted = sort_value(&obj.entries[i].1);
        out.insert(obj.entries[i].0.clone(), sorted);
        i = i + 1;
    }
    out
}

fn sort_value(v: &Document) -> (r: Document)
    ensures
        r@ == key_sorted(v@),
    decreases v,
{
    match v {
        Document::Array(items) => {
            proof {
                array_view(*items);
            }
            let sorted = sort_items(items);
            proof {
                array_view(sorted);
            }
            Document::Array(sorted)
        },
        Document::Object(obj) => Document::Object(sort_members(obj)),
        Document::Null => Document::Null,
        Document::Bool(b) => Document::Bool(*b),
        Document::Number(n) => Document::Number(*n),
        Document::String(s) => Document::String(s.clone()),
    }
}

/// Puts the members of every object in the order of their keys.
pub fn sort_keys_recursive(value: &mut Document)
    ensures
        final(value)@ == key_sorted(old(value)@),
{
    *value = sort_value(value);
}

// ---------------------------------------------------------------------------
// Indented text
// ---------------------------------------------------------------------------

/// A line break and the indentation of a level: two spaces for each.
pub open spec fn new_line(level: nat) -> Seq<char>
    decreases level,
{
    if level == 0 {
        "\n"@
    } else {
        new_line((level - 1) as nat) + "  "@
    }
}

/// A document as JSON text, with an item or a member on each line.
pub open spec fn pretty_text(v: Json, level: nat) -> Seq<char>
    decreases v, 0nat,
{
    match v {
        Json::Null => "null"@,
        Json::Bool(b) => bool_text(b),
        Json::Num(n) => json_number_text(n),
        Json::Str(s) => json_quoted(s),
        Json::Arr(a) => if a.len() == 0 {
            "[]"@
        } else {
            "["@ + pretty_items(a, a.len(), level + 1) + new_line(level) + "]"@
        },
        Json::Obj(o) => if o.len() == 0 {
            "{}"@
        } else {
            "{"@ + pretty_members(o, o.len(), level + 1) + new_line(level) + "}"@
        },
    }
}

/// The first `n` items, each on a line, with commas between them.
pub open spec fn pretty_items(a: Seq<Json>, n: nat, level: nat) -> Seq<char>
    decreases a, n,
{
    if n == 0 || n > a.len() {
        Seq::empty()
    } else {
        let before = pretty_items(a, (n - 1) as nat, level);
        (if n == 1 {
            before
        } else {
            before + ","@
        }) + new_line(level) + pretty_text(a[n - 1], level)
    }
}

/// The first `n` members, each on a line, with commas between them.
pub open spec fn pretty_members(o: Seq<(Seq<char>, Json)>, n: nat, level: nat) -> Seq<char>
    decreases o, n,
{
    if n == 0 || n > o.len() {
        Seq::empty()
    } else {
        let before = pretty_members(o, (n - 1) as nat, level);
        (if n == 1 {
            before
        } else {
            before + ","@
        }) + new_line(level) + json_quoted(o[n - 1].0) + ": "@ + pretty_text(o[n - 1].1, level)
    }
}

fn push_new_line(out: &mut Vec<char>, indent: &Vec<char>, Ghost(level): Ghost<nat>)
    requires
        "\n"@ + indent@ == new_line(level),
    ensures
        final(out)@ == old(out)@ + new_line(level),
{
    push_text(out, "\n");
    crate::text::push_chars(out, indent.as_slice());
    assert(out@ =~= old(out)@ + new_line(level));
}

fn deeper(indent: &Vec<char>, Ghost(level): Ghost<nat>) -> (r: Vec<char>)
    requires
        "\n"@ + indent@ == new_line(level),
    ensures
        "\n"@ + r@ == new_line(level + 1),
{
    let mut out: Vec<char> = Vec::new();
    crate::text::push_chars(&mut out, indent.as_slice());
    push_text(&mut out, "  ");
    assert("\n"@ + out@ =~= new_line(level) + "  "@);
    out
}

fn push_pretty_items(
    out: &mut Vec<char>,
    items: &Vec<Document>,
    indent: &Vec<char>,
    Ghost(level): Ghost<nat>,
)
    requires
        "\n"@ + indent@ == new_line(level),
    ensures
        final(out)@ == old(out)@ + pretty_items(views(items@), items@.len(), level),
    decreases items,
{
    let ghost a = views(items@);
    let mut i: usize = 0;
    assert(out@ =~= old(out)@ + pretty_items(a, 0, level));
    while i < items.len()
        invariant
            i <= items@.len(),
            a == views(items@),
            "\n"@ + indent@ == new_line(level),
            out@ == old(out)@ + pretty_items(a, i as nat, level),
        decreases items@.len() - i,
    {
        let ghost before = pretty_items(a, i as nat, level);
        if i > 0 {
            push_text(out, ",");
            assert(out@ =~= old(out)@ + (before + ","@));
        }
        let ghost lead = if i == 0 {
            before
        } else {
            before + ","@
        };
        assert(a[i as int] == items@[i as int]@);
        push_new_line(out, indent, Ghost(level));
        push_pretty(out, &items[i], indent, Ghost(level));
        assert(out@ =~= old(out)@ + (lead + new_line(level) + pretty_text(a[i as int], level)));
        i = i + 1;
    }
}

fn push_pretty_members(
    out: &mut Vec<char>,
    obj: &Object,
    indent: &Vec<char>,
    Ghost(level): Ghost<nat>,
)
    requires
        "\n"@ + indent@ == new_line(level),
    ensures
        final(out)@ == old(out)@ + pretty_members(obj@, obj@.len(), level),
    decreases obj,
{
    let ghost o = obj@;
    let mut i: usize = 0;
    assert(out@ =~= old(out)@ + pretty_members(o, 0, level));
    while i < obj.entries.len()
        invariant
            i <= obj.entries@.len(),
            o == obj@,
            o.len() == obj.entries@.len(),
            "\n"@ + indent@ == new_line(level),
            out@ == old(out)@ + pretty_members(o, i as nat, level),
        decreases obj.entries@.len() - i,
    {
        let ghost before = pretty_members(o, i as nat, level);
        if i > 0 {
            push_text(out, ",");
            assert(out@ =~= old(out)@ + (before + ","@));
        }
        let ghost lead = if i == 0 {
            before
        } else {
            before + ","@
        };
        assert(o[i as int] == (obj.entries@[i as int].0@, obj.entries@[i as int].1@));
        push_new_line(out, indent, Ghost(level));
        let key = json_quote(obj.entries[i].0.as_str());
        push_text(out, key.as_str());
        push_text(out, ": ");
        push_pretty(out, &obj.entries[i].1, indent, Ghost(level));
        assert(out@ =~= old(out)@ + (lead + new_line(level) + json_quoted(o[i as int].0) + ": "@
            + pretty_text(o[i as int].1, level)));
        i = i + 1;
    }
}

fn push_pretty(out: &mut Vec<char>, v: &Document, indent: &Vec<char>, Ghost(level): Ghost<nat>)
    requires
        "\n"@ + indent@ == new_line(level),
    ensures
        final(out)@ == old(out)@ + pretty_text(v@, level),
    decreases v,
{
    match v {
        Document::Null => push_text(out, "null"),
        Document::Bool(b) => if *b {
            push_text(out, "true");
        } else {
            push_text(out, "false");
        },
        Document::Number(n) => push_number(out, *n),
        Document::String(s) => {
            let quoted = json_quote(s.as_str());
            push_text(out, quoted.as_str());
        },
        Document::Array(items) => {
            proof {
                array_view(*items);
            }
            if items.len() == 0 {
                push_text(out, "[]");
            } else {
                let inner = deeper(indent, Ghost(level));
                push_text(out, "[");
                push_pretty_items(out, items, &inner, Ghost(level + 1));
                push_new_line(out, indent, Ghost(level));
                push_text(out, "]");
                assert(out@ =~= old(out)@ + pretty_text(v@, level));
            }
        },
        Document::Object(obj) => {
            if obj.is_empty() {
                push_text(out, "{}");
            } else {
                let inner = deeper(indent, Ghost(level));
                push_text(out, "{");
                push_pretty_members(out, obj, &inner, Ghost(level + 1));
                push_new_line(out, indent, Ghost(level));
                push_text(out, "}");
                assert(out@ =~= old(out)@ + pretty_text(v@, level));
            }
        },
    }
}

// ---------------------------------------------------------------------------
// Serialisation
// ---------------------------------------------------------------------------

/// A document as indented text.
pub fn to_pretty_text(value: &Document) -> (r: String)
    ensures
        r@ == pretty_text(value@, 0),
{
    let mut out: Vec<char> = Vec::new();
    let indent: Vec<char> = Vec::new();
    assert("\n"@ + indent@ =~= new_line(0));
    push_pretty(&mut out, value, &indent, Ghost(0));
    assert(out@ =~= pretty_text(value@, 0));
    text_of(out.as_slice())
}

/// A document as indented text, with its members in the order of their keys.
pub fn deterministic_serialize(value: &Document) -> (r: String)
    ensures
        r@ == pretty_text(key_sorted(value@), 0),
{
    let sorted = sort_value(value);
    to_pretty_text(&sorted)
}

/// A document as text without white space, with its members in the order of
/// their keys.
pub fn deterministic_serialize_compact(value: &Document) -> (r: String)
    ensures
        r@ == json_text(key_sorted(value@)),
{
    let sorted = sort_value(value);
    to_json_text(&sorted)
}

/// The SHA-256 digest of the compact text of a document.
pub fn config_content_hash(value: &Document) -> (r: [u8; 32])
    ensures
        r@ == sha256(encode_utf8(json_text(key_sorted(value@)))),
{
    let text = deterministic_serialize_compact(value);
    sha256_of(text.as_str().as_bytes())
}

// ---------------------------------------------------------------------------
// Laws
// ---------------------------------------------------------------------------

/// Whether no two members have the same key.
pub open spec fn keys_distinct(o: Members) -> bool {
    forall|i: int, j: int| 0 <= i < j < o.len() ==> (#[trigger] o[i]).0 != (#[trigger] o[j]).0
}

/// Whether two documents say the same: their objects have the same members, in
/// whatever order.
pub open spec fn says_the_same(a: Json, b: Json) -> bool
    decreases a, 0nat,
{
    match (a, b) {
        (Json::Arr(x), Json::Arr(y)) => x.len() == y.len() && items_say_the_same(x, y, x.len()),
        (Json::Obj(x), Json::Obj(y)) => keys_distinct(x) && keys_distinct(y) && (forall|k: Seq<char>|
            #[trigger] member(y, k) is Some ==> member(x, k) is Some) && members_say_the_same(
            x,
            y,
            x.len(),
        ),
        _ => a == b,
    }
}

/// Whether the first `n` items say the same.
pub open spec fn items_say_the_same(x: Seq<Json>, y: Seq<Json>, n: nat) -> bool
    decreases x, n,
{
    n == 0 || n > x.len() || (items_say_the_same(x, y, (n - 1) as nat) && says_the_same(
        x[n - 1],
        y[n - 1],
    ))
}

/// Whether each of the first `n` members of `x` says the same as the member of
/// `y` with its key.
pub open spec fn members_say_the_same(x: Members, y: Members, n: nat) -> bool
    decreases x, n,
{
    n == 0 || n > x.len() || (members_say_the_same(x, y, (n - 1) as nat) && match member(
        y,
        x[n - 1].0,
    ) {
        Some(w) => says_the_same(x[n - 1].1, w),
        None => false,
    })
}

/// Sorting puts the members of every object in the order of their keys.
pub proof fn sorting_orders(v: Json)
    ensures
        ordered_throughout(key_sorted(v)),
    decreases v, 0nat,
{
    match v {
        Json::Arr(a) => {
            sorting_orders_items(a, a.len());
            items_ordered_each(sorted_items(a, a.len()), a.len());
        },
        Json::Obj(o) => {
            sorting_orders_members(o, o.len());
            let m = sorted_members(o, o.len());
            members_ordered_each(m, m.len());
        },
        _ => {},
    }
}

proof fn sorting_orders_items(a: Seq<Json>, n: nat)
    requires
        n <= a.len(),
    ensures
        sorted_items(a, n).len() == n,
        forall|i: int| 0 <= i < n ==> ordered_throughout(#[trigger] sorted_items(a, n)[i]),
    decreases a, n,
{
    if n > 0 {
        sorting_orders_items(a, (n - 1) as nat);
        sorting_orders(a[n - 1]);
    }
}

proof fn sorting_orders_members(o: Members, n: nat)
    requires
        n <= o.len(),
    ensures
        ordered(sorted_members(o, n)),
        forall|i: int|
            0 <= i < sorted_members(o, n).len() ==> ordered_throughout(
                (#[trigger] sorted_members(o, n)[i]).1,
            ),
    decreases o, n,
{
    if n > 0 {
        let m = sorted_members(o, (n - 1) as nat);
        let k = o[n - 1].0;
        let v = key_sorted(o[n - 1].1);
        sorting_orders_members(o, (n - 1) as nat);
        sorting_orders(o[n - 1].1);
        set_keeps_order(m, k, v);
        assert forall|i: int| 0 <= i < sorted_members(o, n).len() implies ordered_throughout(
            (#[trigger] sorted_members(o, n)[i]).1,
        ) by {
            set_values(m, k, v, i);
        }
    }
}

proof fn add_last(o: Members, k: Seq<char>, v: Json)
    requires
        forall|i: int| 0 <= i < o.len() ==> text_lt((#[trigger] o[i]).0, k),
    ensures
        with_member(o, k, v) == o.push((k, v)),
{
    text_lt_irreflexive(k);
    key_index_first(o, k);
    key_slot_bounds(o, k);
    let s = key_slot(o, k);
    if s < o.len() {
        text_lt_transitive(k, o[s].0, k);
    }
    assert(with_member(o, k, v) =~= o.push((k, v)));
}

/// A document whose members stand in order is left as it is: sorting twice is
/// sorting once.
pub proof fn sorted_stays_sorted(v: Json)
    requires
        ordered_throughout(v),
    ensures
        key_sorted(v) == v,
    decreases v, 0nat,
{
    match v {
        Json::Arr(a) => {
            sorted_items_stay(a, a.len());
            assert(a.take(a.len() as int) =~= a);
        },
        Json::Obj(o) => {
            sorted_members_stay(o, o.len());
            assert(o.take(o.len() as int) =~= o);
        },
        _ => {},
    }
}

proof fn sorted_items_stay(a: Seq<Json>, n: nat)
    requires
        n <= a.len(),
        items_ordered(a, n),
    ensures
        sorted_items(a, n) == a.take(n as int),
    decreases a, n,
{
    if n > 0 {
        sorted_items_stay(a, (n - 1) as nat);
        sorted_stays_sorted(a[n - 1]);
        assert(a.take(n as int) =~= a.take(n - 1).push(a[n - 1]));
    } else {
        assert(a.take(0) =~= Seq::empty());
    }
}

proof fn sorted_members_stay(o: Members, n: nat)
    requires
        n <= o.len(),
        ordered(o),
        members_ordered(o, n),
    ensures
        sorted_members(o, n) == o.take(n as int),
    decreases o, n,
{
    if n > 0 {
        sorted_members_stay(o, (n - 1) as nat);
        sorted_stays_sorted(o[n - 1].1);
        let before = o.take(n - 1);
        let k = o[n - 1].0;
        assert forall|i: int| 0 <= i < before.len() implies text_lt((#[trigger] before[i]).0, k) by {
            assert(before[i] == o[i]);
        }
        add_last(before, k, o[n - 1].1);
        assert(o.take(n as int) =~= before.push(o[n - 1]));
    } else {
        assert(o.take(0) =~= Seq::empty());
    }
}

proof fn sorted_member_found(o: Members, n: nat, i: int)
    requires
        keys_distinct(o),
        0 <= i < n <= o.len(),
    ensures
        member(sorted_members(o, n), o[i].0) == Some(key_sorted(o[i].1)),
    decreases n,
{
    let m = sorted_members(o, (n - 1) as nat);
    set_then_get(m, o[n - 1].0, key_sorted(o[n - 1].1), o[i].0);
    if i < n - 1 {
        sorted_member_found(o, (n - 1) as nat, i);
    }
}

proof fn sorted_member_missing(o: Members, n: nat, k: Seq<char>)
    requires
        n <= o.len(),
        forall|i: int| 0 <= i < n ==> (#[trigger] o[i]).0 != k,
    ensures
        member(sorted_members(o, n), k) is None,
    decreases n,
{
    if n > 0 {
        let m = sorted_members(o, (n - 1) as nat);
        set_then_get(m, o[n - 1].0, key_sorted(o[n - 1].1), k);
        sorted_member_missing(o, (n - 1) as nat, k);
    }
}

/// Sorting keeps every member, sorted in turn.
pub proof fn sorting_keeps_members(o: Members, k: Seq<char>)
    requires
        keys_distinct(o),
    ensures
        member(sorted_members(o, o.len()), k) == match member(o, k) {
            Some(v) => Some(key_sorted(v)),
            None => None,
        },
{
    key_index_first(o, k);
    let i = key_index(o, k);
    if i < o.len() {
        sorted_member_found(o, o.len(), i);
    } else {
        sorted_member_missing(o, o.len(), k);
    }
}

proof fn first_is_member(o: Members, i: int)
    requires
        ordered(o),
        0 <= i < o.len(),
    ensures
        member(o, o[i].0) == Some(o[i].1),
        key_index(o, o[i].0) == i,
{
    text_lt_irreflexive(o[i].0);
    key_index_unique(o, o[i].0, i);
}

/// Ordered objects with the same members are the same.
pub proof fn ordered_members_agree(x: Members, y: Members)
    requires
        ordered(x),
        ordered(y),
        forall|k: Seq<char>| #[trigger] member(x, k) == member(y, k),
    ensures
        x == y,
    decreases x.len(),
{
    if x.len() == 0 {
        if y.len() > 0 {
            first_is_member(y, 0);
            assert(member(x, y[0].0) == member(y, y[0].0));
        }
        assert(x =~= y);
    } else {
        first_is_member(x, 0);
        assert(member(x, x[0].0) == member(y, x[0].0));
        assert(y.len() > 0);
        first_is_member(y, 0);
        assert(member(x, y[0].0) == member(y, y[0].0));
        key_index_first(x, y[0].0);
        key_index_first(y, x[0].0);
        if x[0].0 != y[0].0 {
            let i = key_index(x, y[0].0);
            let j = key_index(y, x[0].0);
            assert(text_lt(x[0].0, x[i].0));
            assert(text_lt(y[0].0, y[j].0));
            text_lt_transitive(x[0].0, y[0].0, x[0].0);
            text_lt_irreflexive(x[0].0);
        }
        let xr = x.drop_first();
        let yr = y.drop_first();
        assert forall|k: Seq<char>| #[trigger] member(xr, k) == member(yr, k) by {
            assert(member(x, k) == member(y, k));
            key_index_first(xr, k);
            key_index_first(yr, k);
            if k == x[0].0 {
                text_lt_irreflexive(k);
                if key_index(xr, k) < xr.len() {
                    assert(xr[key_index(xr, k)] == x[key_index(xr, k) + 1]);
                }
                if key_index(yr, k) < yr.len() {
                    assert(yr[key_index(yr, k)] == y[key_index(yr, k) + 1]);
                }
            }
        }
        assert forall|i: int, j: int| 0 <= i < j < xr.len() implies text_lt(
            #[trigger] xr[i].0,
            #[trigger] xr[j].0,
        ) by {
            assert(xr[i] == x[i + 1] && xr[j] == x[j + 1]);
        }
        assert forall|i: int, j: int| 0 <= i < j < yr.len() implies text_lt(
            #[trigger] yr[i].0,
            #[trigger] yr[j].0,
        ) by {
            assert(yr[i] == y[i + 1] && yr[j] == y[j + 1]);
        }
        ordered_members_agree(xr, yr);
        assert(x[0] == y[0]);
        assert(x =~= seq![x[0]] + xr);
        assert(y =~= seq![y[0]] + yr);
    }
}

proof fn same_items_sort_alike(x: Seq<Json>, y: Seq<Json>, n: nat)
    requires
        n <= x.len(),
        x.len() == y.len(),
        items_say_the_same(x, y, n),
    ensures
        sorted_items(x, n) == sorted_items(y, n),
    decreases x, n,
{
    if n > 0 {
        same_items_sort_alike(x, y, (n - 1) as nat);
        same_sorts_alike(x[n - 1], y[n - 1]);
    }
}

proof fn same_member_sorts_alike(x: Members, y: Members, n: nat, i: int)
    requires
        0 <= i < n <= x.len(),
        members_say_the_same(x, y, n),
    ensures
        member(y, x[i].0) matches Some(w) && key_sorted(x[i].1) == key_sorted(w),
    decreases x, n,
{
    if i == n - 1 {
        same_sorts_alike(x[i].1, member(y, x[i].0)->0);
    } else {
        same_member_sorts_alike(x, y, (n - 1) as nat, i);
    }
}

proof fn same_sorts_alike(a: Json, b: Json)
    requires
        says_the_same(a, b),
    ensures
        key_sorted(a) == key_sorted(b),
    decreases a, 0nat,
{
    match (a, b) {
        (Json::Arr(x), Json::Arr(y)) => same_items_sort_alike(x, y, x.len()),
        (Json::Obj(x), Json::Obj(y)) => {
            let xs = sorted_members(x, x.len());
            let ys = sorted_members(y, y.len());
            sorting_orders_members(x, x.len());
            sorting_orders_members(y, y.len());
            assert forall|k: Seq<char>| #[trigger] member(xs, k) == member(ys, k) by {
                sorting_keeps_members(x, k);
                sorting_keeps_members(y, k);
                key_index_first(x, k);
                let i = key_index(x, k);
                if i < x.len() {
                    same_member_sorts_alike(x, y, x.len(), i);
                }
            }
            ordered_members_agree(xs, ys);
        },
        _ => {},
    }
}

/// Documents that say the same give the same indented text, the same compact
/// text and the same digest.
pub proof fn the_same_is_written_alike(a: Json, b: Json)
    requires
        says_the_same(a, b),
    ensures
        pretty_text(key_sorted(a), 0) == pretty_text(key_sorted(b), 0),
        json_text(key_sorted(a)) == json_text(key_sorted(b)),
        sha256(encode_utf8(json_text(key_sorted(a)))) == sha256(
            encode_utf8(json_text(key_sorted(b))),
        ),
{
    same_sorts_alike(a, b);
}

/// A line begins with a line break and two spaces for each level.
pub proof fn how_lines_begin(level: nat, i: int)
    requires
        0 < i <= 2 * level,
    ensures
        new_line(level).len() == 1 + 2 * level,
        new_line(level)[0] == '\n',
        new_line(level)[i] == ' ',
    decreases level,
{
    reveal_strlit("\n");
    reveal_strlit("  ");
    if level == 1 {
        assert(new_line(0) == "\n"@);
    } else {
        if i <= 2 * (level - 1) {
            how_lines_begin((level - 1) as nat, i);
        } else {
            how_lines_begin((level - 1) as nat, 1);
        }
    }
}

proof fn first_pretty_items(a: Seq<Json>, x: Json, n: nat, level: nat)
    requires
        n <= a.len(),
    ensures
        pretty_items(a.push(x), n, level) == pretty_items(a, n, level),
    decreases n,
{
    if n > 0 {
        first_pretty_items(a, x, (n - 1) as nat, level);
        assert(a.push(x)[n - 1] == a[n - 1]);
    }
}

proof fn first_pretty_members(o: Members, e: (Seq<char>, Json), n: nat, level: nat)
    requires
        n <= o.len(),
    ensures
        pretty_members(o.push(e), n, level) == pretty_members(o, n, level),
    decreases n,
{
    if n > 0 {
        first_pretty_members(o, e, (n - 1) as nat, level);
        assert(o.push(e)[n - 1] == o[n - 1]);
    }
}

/// The items of an array and the members of an object stand on lines of their own,
/// one level further in, and the closing bracket on a line of its own on the level
/// of the whole.
pub proof fn how_indented_text_is_laid_out(
    a: Seq<Json>,
    x: Json,
    o: Members,
    k: Seq<char>,
    level: nat,
)
    requires
        a.len() > 0,
        o.len() > 0,
    ensures
        pretty_text(Json::Arr(Seq::empty()), level) == "[]"@,
        pretty_text(Json::Obj(Seq::empty()), level) == "{}"@,
        pretty_text(Json::Arr(seq![x]), level) == "["@ + new_line(level + 1) + pretty_text(
            x,
            level + 1,
        ) + new_line(level) + "]"@,
        pretty_text(Json::Obj(seq![(k, x)]), level) == "{"@ + new_line(level + 1) + json_quoted(k)
            + ": "@ + pretty_text(x, level + 1) + new_line(level) + "}"@,
        exists|lines: Seq<char>|
            pretty_text(Json::Arr(a), level) == #[trigger] between("["@, lines, level, "]"@)
                && pretty_text(Json::Arr(a.push(x)), level) == between(
                "["@,
                lines + ","@ + new_line(level + 1) + pretty_text(x, level + 1),
                level,
                "]"@,
            ),
        exists|lines: Seq<char>|
            pretty_text(Json::Obj(o), level) == #[trigger] between("{"@, lines, level, "}"@)
                && pretty_text(Json::Obj(o.push((k, x))), level) == between(
                "{"@,
                lines + ","@ + new_line(level + 1) + json_quoted(k) + ": "@ + pretty_text(
                    x,
                    level + 1,
                ),
                level,
                "}"@,
            ),
{
    one_pretty_item(x, level);
    one_pretty_member(k, x, level);
    first_pretty_items(a, x, a.len(), level + 1);
    first_pretty_members(o, (k, x), o.len(), level + 1);
    let lines = pretty_items(a, a.len(), level + 1);
    assert(a.push(x)[a.len() as int] == x);
    assert(pretty_text(Json::Arr(a), level) == between("["@, lines, level, "]"@));
    let rows = pretty_members(o, o.len(), level + 1);
    assert(o.push((k, x))[o.len() as int] == (k, x));
    assert(pretty_text(Json::Obj(o), level) == between("{"@, rows, level, "}"@));
}

/// Lines between brackets.
pub open spec fn between(
    open: Seq<char>,
    lines: Seq<char>,
    level: nat,
    close: Seq<char>,
) -> Seq<char> {
    open + lines + new_line(level) + close
}

proof fn one_pretty_item(x: Json, level: nat)
    ensures
        pretty_text(Json::Arr(seq![x]), level) == "["@ + new_line(level + 1) + pretty_text(
            x,
            level + 1,
        ) + new_line(level) + "]"@,
{
    let a = seq![x];
    assert(a[0] == x);
    assert(pretty_items(a, 0, level + 1) == Seq::<char>::empty());
    assert(pretty_items(a, 1, level + 1) == Seq::<char>::empty() + new_line(level + 1)
        + pretty_text(x, level + 1));
    assert("["@ + (Seq::<char>::empty() + new_line(level + 1) + pretty_text(x, level + 1))
        =~= "["@ + new_line(level + 1) + pretty_text(x, level + 1));
}

proof fn one_pretty_member(k: Seq<char>, x: Json, level: nat)
    ensures
        pretty_text(Json::Obj(seq![(k, x)]), level) == "{"@ + new_line(level + 1) + json_quoted(k)
            + ": "@ + pretty_text(x, level + 1) + new_line(level) + "}"@,
{
    let o = seq![(k, x)];
    let v = pretty_text(x, level + 1);
    assert(o[0] == (k, x));
    assert(pretty_members(o, 0, level + 1) == Seq::<char>::empty());
    assert(pretty_members(o, 1, level + 1) == Seq::<char>::empty() + new_line(level + 1)
        + json_quoted(k) + ": "@ + v);
    assert("{"@ + (Seq::<char>::empty() + new_line(level + 1) + json_quoted(k) + ": "@ + v)
        =~= "{"@ + new_line(level + 1) + json_quoted(k) + ": "@ + v);
}

} // verus!
