//! Navigation in JSON documents along dotted paths.
//!
//! A path such as `proxies.0.name` names object members by key and array
//! items by index; the empty path names the document itself.

use vstd::prelude::*;
use crate::text::{
    chars_of, decimal, decimal_is_read_back, is_digit, pieces, read_unsigned, split, split_at_char,
    split_at_first, split_len, text_of, unsigned,
};
use crate::value::{
    array_view, field, items_ordered_each, key_index_first, member, members_are_in_order,
    ordered_throughout, set_keeps_all_in_order, set_then_get, views, with_member, Document, Json,
    Object,
};

verus! {

/// The keys along a path.
pub type Keys = Seq<Seq<char>>;

// ---------------------------------------------------------------------------
// The model
// ---------------------------------------------------------------------------

/// The array index that a path segment denotes.
pub open spec fn index_text(part: Seq<char>) -> Option<int> {
    unsigned(part, usize::MAX as int)
}

/// The child of a document that a path segment names.
pub open spec fn child(v: Json, part: Seq<char>) -> Option<Json> {
    match v {
        Json::Obj(o) => member(o, part),
        Json::Arr(a) => match index_text(part) {
            Some(i) => if i < a.len() {
                Some(a[i])
            } else {
                None
            },
            None => None,
        },
        _ => None,
    }
}

/// The document with the named child replaced.
pub open spec fn with_child(v: Json, part: Seq<char>, new: Json) -> Json {
    match v {
        Json::Obj(o) => Json::Obj(with_member(o, part, new)),
        Json::Arr(a) => Json::Arr(a.update(index_text(part)->0, new)),
        _ => v,
    }
}

/// What stands at the end of a path.
pub open spec fn at_keys(v: Json, keys: Keys) -> Option<Json>
    decreases keys.len(),
{
    if keys.len() == 0 {
        Some(v)
    } else {
        match child(v, keys[0]) {
            Some(c) => at_keys(c, keys.drop_first()),
            None => None,
        }
    }
}

/// The document with what stands at the end of a path replaced.
pub open spec fn replaced(v: Json, keys: Keys, new: Json) -> Json
    decreases keys.len(),
{
    if keys.len() == 0 {
        new
    } else {
        match child(v, keys[0]) {
            Some(c) => with_child(v, keys[0], replaced(c, keys.drop_first(), new)),
            None => v,
        }
    }
}

/// The empty object.
pub open spec fn empty_object() -> Json {
    Json::Obj(Seq::empty())
}

/// The member named `k`, or an empty object where there is none.
pub open spec fn member_or_empty(o: Seq<(Seq<char>, Json)>, k: Seq<char>) -> Json {
    match member(o, k) {
        Some(v) => v,
        None => empty_object(),
    }
}

/// What stands at the end of a path through objects, missing members counting
/// as empty objects.
pub open spec fn reached(v: Json, keys: Keys) -> Option<Json>
    decreases keys.len(),
{
    if keys.len() == 0 {
        Some(v)
    } else {
        match v {
            Json::Obj(o) => reached(member_or_empty(o, keys[0]), keys.drop_first()),
            _ => None,
        }
    }
}

/// The document with `new` at the end of a path through objects, missing
/// members on the way created as objects.
pub open spec fn written(v: Json, keys: Keys, new: Json) -> Json
    decreases keys.len(),
{
    if keys.len() == 0 {
        new
    } else {
        match v {
            Json::Obj(o) => Json::Obj(
                with_member(
                    o,
                    keys[0],
                    written(member_or_empty(o, keys[0]), keys.drop_first(), new),
                ),
            ),
            _ => v,
        }
    }
}

/// The keys of a dotted path; none for the empty path.
pub open spec fn path_keys(path: Seq<char>) -> Keys {
    if path.len() == 0 {
        Seq::empty()
    } else {
        split(path, '.')
    }
}

/// What stands at a dotted path.
pub open spec fn at_path(v: Json, path: Seq<char>) -> Option<Json> {
    at_keys(v, path_keys(path))
}

/// The document with `new` set at a dotted path.  Nothing changes where the
/// path is empty or passes through something that is no object.
pub open spec fn set_at(v: Json, path: Seq<char>, new: Json) -> Json {
    if path.len() > 0 && reached(v, path_keys(path)) is Some {
        written(v, path_keys(path), new)
    } else {
        v
    }
}

/// The number of items of the array at a dotted path, zero where there is none.
pub open spec fn array_len_at(v: Json, path: Seq<char>) -> int {
    match at_path(v, path) {
        Some(Json::Arr(a)) => a.len() as int,
        _ => 0,
    }
}

// ---------------------------------------------------------------------------
// Laws
// ---------------------------------------------------------------------------

/// What stands at a path of a document in order is in order.
pub proof fn parts_are_in_order(v: Json, keys: Keys)
    requires
        ordered_throughout(v),
    ensures
        at_keys(v, keys) matches Some(c) ==> ordered_throughout(c),
    decreases keys.len(),
{
    if keys.len() > 0 {
        child_in_order(v, keys[0]);
        if let Some(c) = child(v, keys[0]) {
            parts_are_in_order(c, keys.drop_first());
        }
    }
}

proof fn child_in_order(v: Json, part: Seq<char>)
    requires
        ordered_throughout(v),
    ensures
        child(v, part) matches Some(c) ==> ordered_throughout(c),
{
    match v {
        Json::Obj(o) => members_are_in_order(o, part),
        Json::Arr(a) => {
            items_ordered_each(a, a.len());
            digits_nonnegative(part);
        },
        _ => {},
    }
}

/// Replacing what stands at a path by a document in order keeps a document in
/// order.
pub proof fn replace_keeps_all_in_order(v: Json, keys: Keys, new: Json)
    requires
        ordered_throughout(v),
        ordered_throughout(new),
    ensures
        ordered_throughout(replaced(v, keys, new)),
    decreases keys.len(),
{
    if keys.len() > 0 {
        child_in_order(v, keys[0]);
        if let Some(c) = child(v, keys[0]) {
            let w = replaced(c, keys.drop_first(), new);
            replace_keeps_all_in_order(c, keys.drop_first(), new);
            match v {
                Json::Obj(o) => set_keeps_all_in_order(o, keys[0], w),
                Json::Arr(a) => {
                    let b = a.update(index_text(keys[0])->0, w);
                    digits_nonnegative(keys[0]);
                    items_ordered_each(a, a.len());
                    items_ordered_each(b, b.len());
                },
                _ => {},
            }
        }
    }
}

/// Writing a document in order at the end of a path keeps a document in order,
/// and what stood at the end of the path is in order.
pub proof fn write_keeps_all_in_order(v: Json, keys: Keys, new: Json)
    requires
        ordered_throughout(v),
        ordered_throughout(new),
    ensures
        ordered_throughout(written(v, keys, new)),
        reached(v, keys) matches Some(c) ==> ordered_throughout(c),
    decreases keys.len(),
{
    if keys.len() > 0 {
        if let Json::Obj(o) = v {
            let c = member_or_empty(o, keys[0]);
            members_are_in_order(o, keys[0]);
            write_keeps_all_in_order(c, keys.drop_first(), new);
            set_keeps_all_in_order(o, keys[0], written(c, keys.drop_first(), new));
        }
    }
}

/// Below an empty object every path can be created.
pub proof fn reached_below_empty(keys: Keys)
    ensures
        reached(empty_object(), keys) == Some(empty_object()),
    decreases keys.len(),
{
    if keys.len() > 0 {
        key_index_first(Seq::empty(), keys[0]);
        assert(member_or_empty(Seq::empty(), keys[0]) == empty_object());
        reached_below_empty(keys.drop_first());
    }
}

/// Writing back what a member holds changes nothing.
pub proof fn rewrite_member(o: Seq<(Seq<char>, Json)>, k: Seq<char>, v: Json)
    requires
        member(o, k) == Some(v),
    ensures
        with_member(o, k, v) == o,
{
    key_index_first(o, k);
    assert(with_member(o, k, v) =~= o);
}

/// What is written at a path is read back there.
pub proof fn write_then_read(v: Json, keys: Keys, new: Json)
    requires
        reached(v, keys) is Some,
    ensures
        at_keys(written(v, keys, new), keys) == Some(new),
    decreases keys.len(),
{
    if keys.len() > 0 {
        let o = v->Obj_0;
        let c = member_or_empty(o, keys[0]);
        let w = written(c, keys.drop_first(), new);
        write_then_read(c, keys.drop_first(), new);
        set_then_get(o, keys[0], w, keys[0]);
    }
}

/// What `set_json_path` sets, `get_json_path` reads.
pub proof fn set_then_read(v: Json, path: Seq<char>, new: Json)
    requires
        path.len() > 0,
        reached(v, path_keys(path)) is Some,
    ensures
        at_path(set_at(v, path, new), path) == Some(new),
{
    write_then_read(v, path_keys(path), new);
}

/// A write leaves every other member of the document's top level as it was.
pub proof fn write_keeps_others(v: Json, keys: Keys, new: Json, other: Seq<char>)
    requires
        keys.len() > 0,
        other != keys[0],
    ensures
        field(written(v, keys, new), other) == field(v, other),
{
    if v is Obj {
        let o = v->Obj_0;
        set_then_get(
            o,
            keys[0],
            written(member_or_empty(o, keys[0]), keys.drop_first(), new),
            other,
        );
    }
}

/// Replacing what stands at a path is read back there.
pub proof fn replace_then_read(v: Json, keys: Keys, new: Json)
    requires
        at_keys(v, keys) is Some,
    ensures
        at_keys(replaced(v, keys, new), keys) == Some(new),
    decreases keys.len(),
{
    if keys.len() > 0 {
        let c = child(v, keys[0])->0;
        replace_then_read(c, keys.drop_first(), new);
        let w = replaced(c, keys.drop_first(), new);
        match v {
            Json::Obj(o) => set_then_get(o, keys[0], w, keys[0]),
            _ => {
                digits_nonnegative(keys[0]);
            },
        }
    }
}

proof fn digits_nonnegative(part: Seq<char>)
    ensures
        index_text(part) matches Some(i) ==> 0 <= i <= usize::MAX,
{
    let t = if part.len() > 0 && part[0] == '+' {
        part.drop_first()
    } else {
        part
    };
    if index_text(part) is Some {
        crate::text::digits_value_grows(t, 0);
    }
}

/// Replacing what stands at a path by itself changes nothing.
pub proof fn replace_by_same(v: Json, keys: Keys)
    requires
        at_keys(v, keys) is Some,
    ensures
        replaced(v, keys, at_keys(v, keys)->0) == v,
    decreases keys.len(),
{
    if keys.len() > 0 {
        let c = child(v, keys[0])->0;
        replace_by_same(c, keys.drop_first());
        match v {
            Json::Obj(o) => rewrite_member(o, keys[0], c),
            Json::Arr(a) => {
                digits_nonnegative(keys[0]);
                assert(a.update(index_text(keys[0])->0, c) =~= a);
            },
            _ => {},
        }
    }
}

// ---------------------------------------------------------------------------
// Navigation
// ---------------------------------------------------------------------------

/// The keys of a dotted path.
fn keys_of<'a>(path: &'a [char]) -> (r: Vec<&'a [char]>)
    ensures
        pieces(r@) == path_keys(path@),
{
    if path.len() == 0 {
        let r: Vec<&'a [char]> = Vec::new();
        assert(pieces(r@) =~= path_keys(path@));
        r
    } else {
        split_at_char(path, '.')
    }
}

/// The keys from position `at` on.
pub open spec fn rest(keys: Seq<&[char]>, at: int) -> Keys {
    pieces(keys).subrange(at, keys.len() as int)
}

proof fn rest_step(keys: Seq<&[char]>, at: int)
    requires
        0 <= at < keys.len(),
    ensures
        rest(keys, at)[0] == keys[at]@,
        rest(keys, at).drop_first() == rest(keys, at + 1),
        rest(keys, at).len() == keys.len() - at,
{
    assert(rest(keys, at).drop_first() =~= rest(keys, at + 1));
}

proof fn rest_all(keys: Seq<&[char]>)
    ensures
        rest(keys, 0) == pieces(keys),
{
    assert(rest(keys, 0) =~= pieces(keys));
}

/// The child that a path segment names.
fn child_ref<'a>(value: &'a Document, part: &[char]) -> (r: Option<&'a Document>)
    ensures
        match r {
            Some(c) => child(value@, part@) == Some(c@),
            None => child(value@, part@) is None,
        },
{
    match value {
        Document::Object(obj) => {
            let key = text_of(part);
            obj.get(key.as_str())
        },
        Document::Array(items) => {
            proof {
                array_view(*items);
                digits_nonnegative(part@);
            }
            match read_unsigned(part, usize::MAX as u64) {
                Some(i) => if i < items.len() as u64 {
                    assert(views(items@)[i as int] == items@[i as int]@);
                    Some(&items[i as usize])
                } else {
                    None
                },
                None => None,
            }
        },
        _ => None,
    }
}

/// Follows the keys from position `at` on.
fn follow<'a>(value: &'a Document, keys: &Vec<&[char]>, at: usize) -> (r: Option<&'a Document>)
    requires
        at <= keys@.len(),
    ensures
        match r {
            Some(v) => at_keys(value@, rest(keys@, at as int)) == Some(v@),
            None => at_keys(value@, rest(keys@, at as int)) is None,
        },
    decreases keys@.len() - at,
{
    if at == keys.len() {
        return Some(value);
    }
    proof {
        rest_step(keys@, at as int);
    }
    match child_ref(value, keys[at]) {
        Some(c) => follow(c, keys, at + 1),
        None => None,
    }
}

/// Follows the keys from position `at` on, to change what stands at the end.
fn follow_mut<'a>(value: &'a mut Document, keys: &Vec<&[char]>, at: usize) -> (r: Option<&'a mut Document>)
    requires
        at <= keys@.len(),
    ensures
        match r {
            Some(v) => at_keys(old(value)@, rest(keys@, at as int)) == Some(v@) && final(value)@
                == replaced(old(value)@, rest(keys@, at as int), final(v)@),
            None => at_keys(old(value)@, rest(keys@, at as int)) is None && final(value)@ == old(
                value,
            )@,
        },
    decreases keys@.len() - at,
{
    if at == keys.len() {
        return Some(value);
    }
    proof {
        rest_step(keys@, at as int);
    }
    let part = keys[at];
    let ghost before = value@;
    match value {
        Document::Object(obj) => {
            let key = text_of(part);
            let ghost members = obj@;
            match obj.get_mut(key.as_str()) {
                Some(c) => {
                    let ghost inner = c@;
                    proof {
                        rewrite_member(members, part@, inner);
                    }
                    follow_mut(c, keys, at + 1)
                },
                None => None,
            }
        },
        Document::Array(items) => {
            proof {
                array_view(*items);
                digits_nonnegative(part@);
            }
            let ghost a = views(items@);
            match read_unsigned(part, usize::MAX as u64) {
                Some(i) => if i < items.len() as u64 {
                    let ghost vals = items@;
                    let c = &mut items[i as usize];
                    proof {
                        let fin = *final(c);
                        assert(views(vals.update(i as int, fin)) =~= a.update(i as int, fin@));
                        assert(a.update(i as int, a[i as int]) =~= a);
                    }
                    proof { arrays_view(); }
                    follow_mut(c, keys, at + 1)
                } else {
                    None
                },
                None => None,
            }
        },
        _ => None,
    }
}

/// The documents that arrays stand for.
pub proof fn arrays_view()
    ensures
        forall|items: Vec<Document>| #[trigger] Document::Array(items)@ == Json::Arr(views(items@)),
{
    assert forall|items: Vec<Document>| #[trigger] Document::Array(items)@ == Json::Arr(views(items@)) by {
        array_view(items);
    }
}

/// What stands at a dotted path.
pub fn get_json_path<'a>(value: &'a Document, path: &str) -> (r: Option<&'a Document>)
    ensures
        match r {
            Some(v) => at_path(value@, path@) == Some(v@),
            None => at_path(value@, path@) is None,
        },
{
    let chars = chars_of(path);
    let keys = keys_of(chars.as_slice());
    proof {
        rest_all(keys@);
    }
    follow(value, &keys, 0)
}

/// What stands at a dotted path, to be changed.
pub fn get_json_path_mut<'a>(value: &'a mut Document, path: &str) -> (r: Option<&'a mut Document>)
    ensures
        match r {
            Some(v) => at_path(old(value)@, path@) == Some(v@) && final(value)@ == replaced(
                old(value)@,
                path_keys(path@),
                final(v)@,
            ),
            None => at_path(old(value)@, path@) is None && final(value)@ == old(value)@,
        },
{
    let chars = chars_of(path);
    let keys = keys_of(chars.as_slice());
    proof {
        rest_all(keys@);
    }
    follow_mut(value, &keys, 0)
}

/// Follows the keys through objects, creating what is missing.
fn reach_mut<'a>(value: &'a mut Document, keys: &Vec<&[char]>, at: usize) -> (r: Option<&'a mut Document>)
    requires
        at <= keys@.len(),
    ensures
        match r {
            Some(v) => reached(old(value)@, rest(keys@, at as int)) == Some(v@) && final(value)@
                == written(old(value)@, rest(keys@, at as int), final(v)@),
            None => reached(old(value)@, rest(keys@, at as int)) is None && final(value)@ == old(
                value,
            )@,
        },
    decreases keys@.len() - at,
{
    if at == keys.len() {
        return Some(value);
    }
    proof {
        rest_step(keys@, at as int);
    }
    let part = keys[at];
    match value {
        Document::Object(obj) => {
            let key = text_of(part);
            let ghost members = obj@;
            if !obj.contains_key(key.as_str()) {
                obj.insert(key.clone(), Document::Object(Object::new()));
            }
            let ghost filled = obj@;
            proof {
                set_then_get(members, part@, empty_object(), part@);
                reached_below_empty(rest(keys@, at + 1));
            }
            match obj.get_mut(key.as_str()) {
                Some(c) => {
                    let ghost inner = c@;
                    proof {
                        let fin = final(c)@;
                        if member(members, part@) is Some {
                            rewrite_member(members, part@, inner);
                        } else {
                            set_twice(members, part@, empty_object(), fin);
                        }
                    }
                    reach_mut(c, keys, at + 1)
                },
                None => None,
            }
        },
        _ => None,
    }
}

/// The later of two writes to one member is the one that counts.
pub proof fn set_twice(o: Seq<(Seq<char>, Json)>, k: Seq<char>, first: Json, second: Json)
    ensures
        with_member(with_member(o, k, first), k, second) == with_member(o, k, second),
{
    key_index_first(o, k);
    crate::value::key_slot_bounds(o, k);
    set_then_get(o, k, first, k);
    let n = with_member(o, k, first);
    let i = crate::value::key_index(o, k);
    key_index_first(n, k);
    if i < o.len() {
        crate::value::key_index_unique(n, k, i);
    } else {
        let s = crate::value::key_slot(o, k);
        assert forall|j: int| 0 <= j < s implies (#[trigger] n[j]).0 != k by {
            assert(n[j] == o[j]);
        }
        crate::value::key_index_unique(n, k, s);
    }
    assert(with_member(n, k, second) =~= with_member(o, k, second));
}

/// What stands at a dotted path through objects; missing members are created.
pub fn get_or_create_json_path_mut<'a>(value: &'a mut Document, path: &str) -> (r: Option<
    &'a mut Document,
>)
    ensures
        match r {
            Some(v) => reached(old(value)@, path_keys(path@)) == Some(v@) && final(value)@
                == written(old(value)@, path_keys(path@), final(v)@),
            None => reached(old(value)@, path_keys(path@)) is None && final(value)@ == old(value)@,
        },
{
    let chars = chars_of(path);
    let keys = keys_of(chars.as_slice());
    proof {
        rest_all(keys@);
    }
    reach_mut(value, &keys, 0)
}

/// The array at a dotted path, to be changed.
pub fn get_array_at_path_mut<'a>(value: &'a mut Document, path: &str) -> (r: Option<&'a mut Document>)
    ensures
        match r {
            Some(v) => at_path(old(value)@, path@) == Some(v@) && v@ is Arr && final(value)@
                == replaced(old(value)@, path_keys(path@), final(v)@),
            None => !(at_path(old(value)@, path@) matches Some(Json::Arr(_))) && final(value)@
                == old(value)@,
        },
{
    let is_array: bool = match get_json_path(value, path) {
        Some(v) => v.is_array(),
        None => false,
    };
    if is_array {
        get_json_path_mut(value, path)
    } else {
        None
    }
}

/// The number of items of the array at a dotted path.
pub fn get_array_len(config: &Document, path: &str) -> (r: usize)
    ensures
        r == array_len_at(config@, path@),
{
    match get_json_path(config, path) {
        Some(Document::Array(items)) => {
            proof {
                array_view(*items);
            }
            items.len()
        },
        _ => 0,
    }
}

/// Sets the value at a dotted path through objects.
pub fn set_json_path(config: &mut Document, path: &str, value: Document)
    ensures
        final(config)@ == set_at(old(config)@, path@, value@),
{
    if path.is_empty() {
        return ;
    }
    if let Some(target) = get_or_create_json_path_mut(config, path) {
        *target = value;
    }
}

/// A path leads through the members of objects, name by name, and through the
/// items of arrays, by their numbers.
pub proof fn paths_lead_to_children(o: Seq<(Seq<char>, Json)>, a: Seq<Json>, k: Seq<char>, n: nat, rest: Seq<char>)
    requires
        k.len() > 0,
        !k.contains('.'),
        rest.len() > 0,
        n < a.len() <= usize::MAX,
    ensures
        at_path(Json::Obj(o), k) == member(o, k),
        at_path(Json::Obj(o), k + seq!['.'] + rest) == (match member(o, k) {
            Some(v) => at_path(v, rest),
            None => None,
        }),
        at_path(Json::Arr(a), decimal(n)) == Some(a[n as int]),
        at_path(Json::Arr(a), decimal(n) + seq!['.'] + rest) == at_path(a[n as int], rest),
        at_path(Json::Obj(o), Seq::empty()) == Some(Json::Obj(o)),
{
    split_at_first(k, '.', rest);
    decimal_is_read_back(n);
    let d = decimal(n);
    assert(!d.contains('.')) by {
        if d.contains('.') {
            let i = choose|i: int| 0 <= i < d.len() && d[i] == '.';
            assert(is_digit(d[i]));
        }
    }
    split_at_first(d, '.', rest);
    assert(is_digit(d[0]));
    assert(index_text(d) == Some(n as int));
    reveal_with_fuel(at_keys, 2);
    let tail = split(rest, '.');
    assert((seq![k] + tail).drop_first() =~= tail);
    assert((seq![d] + tail).drop_first() =~= tail);
    assert(seq![k].drop_first() =~= Seq::<Seq<char>>::empty());
    assert(seq![d].drop_first() =~= Seq::<Seq<char>>::empty());
}

/// Nothing lies below a text, a number, a truth value or null.
pub proof fn nothing_lies_below_plain_values(v: Json, path: Seq<char>)
    requires
        !(v is Obj),
        !(v is Arr),
        path.len() > 0,
    ensures
        at_path(v, path) is None,
        set_at(v, path, Json::Null) == v,
{
    split_len(path, '.');
}

/// Setting a member sets it, and setting what lies below a member sets it there,
/// in an object that is made where there was none.
pub proof fn setting_leads_through_members(
    o: Seq<(Seq<char>, Json)>,
    k: Seq<char>,
    rest: Seq<char>,
    new: Json,
)
    requires
        k.len() > 0,
        !k.contains('.'),
        rest.len() > 0,
    ensures
        set_at(Json::Obj(o), k, new) == Json::Obj(with_member(o, k, new)),
        member(o, k) is None ==> set_at(Json::Obj(o), k + seq!['.'] + rest, new) == Json::Obj(
            with_member(o, k, set_at(Json::Obj(Seq::empty()), rest, new)),
        ),
        match member(o, k) {
            Some(Json::Obj(sub)) => set_at(Json::Obj(sub), rest, new) != Json::Obj(sub)
                ==> set_at(Json::Obj(o), k + seq!['.'] + rest, new) == Json::Obj(
                with_member(o, k, set_at(Json::Obj(sub), rest, new)),
            ),
            Some(_) => set_at(Json::Obj(o), k + seq!['.'] + rest, new) == Json::Obj(o),
            None => true,
        },
{
    split_at_first(k, '.', rest);
    split_len(rest, '.');
    let tail = split(rest, '.');
    assert((seq![k] + tail).drop_first() =~= tail);
    assert(seq![k].drop_first() =~= Seq::<Seq<char>>::empty());
    reveal_with_fuel(reached, 2);
    reveal_with_fuel(written, 2);
    reached_below_empty(tail);
}

} // verus!
