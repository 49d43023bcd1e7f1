//! Documents as compact JSON text.

use vstd::prelude::*;
use crate::expr::{bool_text, push_text};
use crate::number::{json_number_text, push_number};
use crate::outside::{json_quote, json_quoted};
use crate::text::text_of;
use crate::value::{array_view, views, Document, Json, Object};

verus! {

/// A document as JSON text, without white space.
pub open spec fn json_text(v: Json) -> Seq<char>
    decreases v, 0nat,
{
    match v {
        Json::Null => "null"@,
        Json::Bool(b) => bool_text(b),
        Json::Num(n) => json_number_text(n),
        Json::Str(s) => json_quoted(s),
        Json::Arr(a) => "["@ + items_text(a, a.len()) + "]"@,
        Json::Obj(o) => "{"@ + members_text(o, o.len()) + "}"@,
    }
}

/// The first `n` items, with commas between them.
pub open spec fn items_text(a: Seq<Json>, n: nat) -> Seq<char>
    decreases a, n,
{
    if n == 0 || n > a.len() {
        Seq::empty()
    } else {
        let before = items_text(a, (n - 1) as nat);
        (if n == 1 {
            before
        } else {
            before + ","@
        }) + json_text(a[n - 1])
    }
}

/// The first `n` members, with commas between them.
pub open spec fn members_text(o: Seq<(Seq<char>, Json)>, n: nat) -> Seq<char>
    decreases o, n,
{
    if n == 0 || n > o.len() {
        Seq::empty()
    } else {
        let before = members_text(o, (n - 1) as nat);
        (if n == 1 {
            before
        } else {
            before + ","@
        }) + json_quoted(o[n - 1].0) + ":"@ + json_text(o[n - 1].1)
    }
}

fn push_items(out: &mut Vec<char>, items: &Vec<Document>)
    ensures
        final(out)@ == old(out)@ + items_text(views(items@), items@.len()),
    decreases items,
{
    let ghost a = views(items@);
    let mut i: usize = 0;
    assert(out@ =~= old(out)@ + items_text(a, 0));
    while i < items.len()
        invariant
            i <= items@.len(),
            a == views(items@),
            out@ == old(out)@ + items_text(a, i as nat),
        decreases items@.len() - i,
    {
        let ghost before = items_text(a, i as nat);
        if i > 0 {
            push_text(out, ",");
            assert(out@ =~= old(out)@ + (before + ","@));
        }
        let ghost lead = if i == 0 {
            before
        } else {
            before + ","@
        };
        assert(a[i as int] == items@[i as int]@);
        push_json(out, &items[i]);
        assert(out@ =~= old(out)@ + (lead + json_text(a[i as int])));
        i = i + 1;
    }
}

fn push_members(out: &mut Vec<char>, obj: &Object)
    ensures
        final(out)@ == old(out)@ + members_text(obj@, obj@.len()),
    decreases obj,
{
    let ghost o = obj@;
    let mut i: usize = 0;
    assert(out@ =~= old(out)@ + members_text(o, 0));
    while i < obj.entries.len()
        invariant
            i <= obj.entries@.len(),
            o == obj@,
            o.len() == obj.entries@.len(),
            out@ == old(out)@ + members_text(o, i as nat),
        decreases obj.entries@.len() - i,
    {
        let ghost before = members_text(o, i as nat);
        if i > 0 {
            push_text(out, ",");
            assert(out@ =~= old(out)@ + (before + ","@));
        }
        let ghost lead = if i == 0 {
            before
        } else {
            before + ","@
        };
        assert(o[i as int] == (obj.entries@[i as int].0@, obj.entries@[i as int].1@));
        let key = json_quote(obj.entries[i].0.as_str());
        push_text(out, key.as_str());
        push_text(out, ":");
        push_json(out, &obj.entries[i].1);
        assert(out@ =~= old(out)@ + (lead + json_quoted(o[i as int].0) + ":"@ + json_text(
            o[i as int].1,
        )));
        i = i + 1;
    }
}

fn push_json(out: &mut Vec<char>, v: &Document)
    ensures
        final(out)@ == old(out)@ + json_text(v@),
    decreases v,
{
    match v {
        Document::Null => push_text(out, "null"),
        Document::Bool(b) => if *b {
            push_text(out, "true");
        } else {
            push_text(out, "false");
        },
        Document::Number(n) => push_number(out, *n),
        Document::String(s) => {
            let quoted = json_quote(s.as_str());
            push_text(out, quoted.as_str());
        },
        Document::Array(items) => {
            proof {
                array_view(*items);
            }
            push_text(out, "[");
            push_items(out, items);
            push_text(out, "]");
            assert(out@ =~= old(out)@ + json_text(v@));
        },
        Document::Object(obj) => {
            push_text(out, "{");
            push_members(out, obj);
            push_text(out, "}");
            assert(out@ =~= old(out)@ + json_text(v@));
        },
    }
}

/// Writes a document as JSON text, without white space.
pub fn to_json_text(v: &Document) -> (r: String)
    ensures
        r@ == json_text(v@),
{
    let mut out: Vec<char> = Vec::new();
    push_json(&mut out, v);
    assert(out@ =~= json_text(v@));
    text_of(out.as_slice())
}

// ---------------------------------------------------------------------------
// Laws
// ---------------------------------------------------------------------------

proof fn items_in_parts(a: Seq<Json>, b: Seq<Json>, n: nat)
    requires
        a.len() > 0,
        n <= b.len(),
    ensures
        n == 0 ==> items_text(a + b, a.len()) == items_text(a, a.len()),
        n > 0 ==> items_text(a + b, a.len() + n) == items_text(a, a.len()) + ","@ + items_text(b, n),
    decreases n,
{
    if n == 0 {
        first_items(a, b, a.len());
    } else {
        items_in_parts(a, b, (n - 1) as nat);
        assert((a + b)[a.len() + n - 1] == b[n - 1]);
        let x = json_text(b[n - 1]);
        let front = items_text(a, a.len());
        if n == 1 {
            assert(items_text(b, 0) + x =~= x);
        } else {
            let before = items_text(b, (n - 1) as nat);
            assert((front + ","@ + before) + ","@ + x =~= front + ","@ + (before + ","@ + x));
        }
    }
}

proof fn first_items(a: Seq<Json>, b: Seq<Json>, n: nat)
    requires
        n <= a.len(),
    ensures
        items_text(a + b, n) == items_text(a, n),
    decreases n,
{
    if n > 0 {
        first_items(a, b, (n - 1) as nat);
        assert((a + b)[n - 1] == a[n - 1]);
    }
}

proof fn members_in_parts(a: Seq<(Seq<char>, Json)>, b: Seq<(Seq<char>, Json)>, n: nat)
    requires
        a.len() > 0,
        n <= b.len(),
    ensures
        n == 0 ==> members_text(a + b, a.len()) == members_text(a, a.len()),
        n > 0 ==> members_text(a + b, a.len() + n) == members_text(a, a.len()) + ","@
            + members_text(b, n),
    decreases n,
{
    if n == 0 {
        first_members(a, b, a.len());
    } else {
        members_in_parts(a, b, (n - 1) as nat);
        assert((a + b)[a.len() + n - 1] == b[n - 1]);
        let k = json_quoted(b[n - 1].0);
        let x = json_text(b[n - 1].1);
        let front = members_text(a, a.len());
        if n == 1 {
            assert(members_text(b, 0) + k + ":"@ + x =~= k + ":"@ + x);
            assert(front + ","@ + k + ":"@ + x =~= front + ","@ + (k + ":"@ + x));
        } else {
            let before = members_text(b, (n - 1) as nat);
            assert((front + ","@ + before) + ","@ + k + ":"@ + x =~= front + ","@ + (before + ","@
                + k + ":"@ + x));
        }
    }
}

proof fn first_members(a: Seq<(Seq<char>, Json)>, b: Seq<(Seq<char>, Json)>, n: nat)
    requires
        n <= a.len(),
    ensures
        members_text(a + b, n) == members_text(a, n),
    decreases n,
{
    if n > 0 {
        first_members(a, b, (n - 1) as nat);
        assert((a + b)[n - 1] == a[n - 1]);
    }
}

/// An array is written as its items in square brackets, in their order, with
/// commas between them: one item as it is, and two parts of an array as the parts
/// without the brackets where they meet.
pub proof fn how_arrays_are_written(x: Json, a: Seq<Json>, b: Seq<Json>)
    requires
        a.len() > 0,
        b.len() > 0,
    ensures
        json_text(Json::Arr(Seq::empty())) == "[]"@,
        json_text(Json::Arr(seq![x])) == "["@ + json_text(x) + "]"@,
        json_text(Json::Arr(a + b)) == json_text(Json::Arr(a)).drop_last() + ","@ + json_text(
            Json::Arr(b),
        ).drop_first(),
{
    reveal_strlit("[");
    reveal_strlit("]");
    reveal_strlit("[]");
    assert("["@ + Seq::<char>::empty() + "]"@ =~= "[]"@);
    let only = seq![x];
    assert(only[0] == x);
    assert(items_text(only, 0) == Seq::<char>::empty());
    assert(items_text(only, 1) == Seq::<char>::empty() + json_text(x));
    assert(Seq::<char>::empty() + json_text(x) =~= json_text(x));
    items_in_parts(a, b, b.len());
    let p = items_text(a, a.len());
    let q = items_text(b, b.len());
    assert(("["@ + p + "]"@).drop_last() =~= "["@ + p);
    assert(("["@ + q + "]"@).drop_first() =~= q + "]"@);
    assert("["@ + (p + ","@ + q) + "]"@ =~= ("["@ + p) + ","@ + (q + "]"@));
}

/// An object is written as its members in curly brackets, in their order, with
/// commas between them: a member as its quoted name, a colon and its value.
pub proof fn how_objects_are_written(
    k: Seq<char>,
    x: Json,
    a: Seq<(Seq<char>, Json)>,
    b: Seq<(Seq<char>, Json)>,
)
    requires
        a.len() > 0,
        b.len() > 0,
    ensures
        json_text(Json::Obj(Seq::empty())) == "{}"@,
        json_text(Json::Obj(seq![(k, x)])) == "{"@ + (json_quoted(k) + ":"@ + json_text(x)) + "}"@,
        json_text(Json::Obj(a + b)) == json_text(Json::Obj(a)).drop_last() + ","@ + json_text(
            Json::Obj(b),
        ).drop_first(),
{
    reveal_strlit("{");
    reveal_strlit("}");
    reveal_strlit("{}");
    assert("{"@ + Seq::<char>::empty() + "}"@ =~= "{}"@);
    let only = seq![(k, x)];
    assert(only[0] == (k, x));
    assert(members_text(only, 0) == Seq::<char>::empty());
    assert(members_text(only, 1) == Seq::<char>::empty() + json_quoted(k) + ":"@ + json_text(x));
    assert(Seq::<char>::empty() + json_quoted(k) + ":"@ + json_text(x) =~= json_quoted(k) + ":"@
        + json_text(x));
    members_in_parts(a, b, b.len());
    let p = members_text(a, a.len());
    let q = members_text(b, b.len());
    assert(("{"@ + p + "}"@).drop_last() =~= "{"@ + p);
    assert(("{"@ + q + "}"@).drop_first() =~= q + "}"@);
    assert("{"@ + (p + ","@ + q) + "}"@ =~= ("{"@ + p) + ","@ + (q + "}"@));
}

/// Plain values are written as their words, digits and quoted texts.
pub proof fn how_plain_values_are_written(n: u64, s: Seq<char>)
    ensures
        json_text(Json::Null) == "null"@,
        json_text(Json::Bool(true)) == "true"@,
        json_text(Json::Bool(false)) == "false"@,
        json_text(Json::Num(crate::number::Number::UInt(n))) == crate::text::decimal(n as nat),
        0 < n <= i64::MAX ==> json_text(Json::Num(crate::number::Number::Int((-(n as int)) as i64)))
            == "-"@ + crate::text::decimal(n as nat),
        json_text(Json::Str(s)) == json_quoted(s),
{
    reveal_strlit("-");
    assert("-"@ =~= seq!['-']);
}

} // verus!
