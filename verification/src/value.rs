//! JSON documents.
//!
//! An object keeps its members ordered by key, as long as it is only changed
//! through [`Object::insert`] and [`Object::remove`]: what these keep is
//! [`Object::wf`].

use vstd::prelude::*;
use crate::number::Number;
use crate::text::{
    chars_before, chars_of, same, same_text, text_lt, text_lt_irreflexive, text_lt_total,
    text_lt_transitive,
};

verus! {

/// The members of a JSON object, in order.
pub type Members = Seq<(Seq<char>, Json)>;

/// The mathematical model of a JSON document.
#[verifier::ext_equal]
pub ghost enum Json {
    Null,
    Bool(bool),
    Num(Number),
    Str(Seq<char>),
    Arr(Seq<Json>),
    Obj(Seq<(Seq<char>, Json)>),
}

/// A JSON document.
#[derive(Debug)]
pub enum Document {
    Null,
    Bool(bool),
    Number(Number),
    String(String),
    Array(Vec<Document>),
    Object(Object),
}

/// The members of a JSON object.
#[derive(Debug)]
pub struct Object {
    pub entries: Vec<(String, Document)>,
}

// ---------------------------------------------------------------------------
// The model of objects
// ---------------------------------------------------------------------------

/// The position of the first member named `k`, or the number of members.
pub open spec fn key_index(o: Members, k: Seq<char>) -> int
    decreases o.len(),
{
    if o.len() == 0 || o[0].0 == k {
        0
    } else {
        1 + key_index(o.drop_first(), k)
    }
}

/// The position before the first member whose key comes after `k`.
pub open spec fn key_slot(o: Members, k: Seq<char>) -> int
    decreases o.len(),
{
    if o.len() == 0 || text_lt(k, o[0].0) {
        0
    } else {
        1 + key_slot(o.drop_first(), k)
    }
}

/// The value of the member named `k`.
pub open spec fn member(o: Members, k: Seq<char>) -> Option<Json> {
    let i = key_index(o, k);
    if 0 <= i < o.len() {
        Some(o[i].1)
    } else {
        None
    }
}

/// The object with the member `k` set to `v`.
pub open spec fn with_member(o: Members, k: Seq<char>, v: Json) -> Members {
    let i = key_index(o, k);
    if 0 <= i < o.len() {
        o.update(i, (o[i].0, v))
    } else {
        o.insert(key_slot(o, k), (k, v))
    }
}

/// The object without its first member named `k`.
pub open spec fn without_member(o: Members, k: Seq<char>) -> Members {
    let i = key_index(o, k);
    if 0 <= i < o.len() {
        o.remove(i)
    } else {
        o
    }
}

/// Whether the members stand in strictly ascending order of their keys.
pub open spec fn ordered(o: Members) -> bool {
    forall|i: int, j: int| 0 <= i < j < o.len() ==> text_lt(#[trigger] o[i].0, #[trigger] o[j].0)
}

/// `key_index` is the first position with that key.
pub proof fn key_index_first(o: Members, k: Seq<char>)
    ensures
        0 <= key_index(o, k) <= o.len(),
        key_index(o, k) < o.len() ==> o[key_index(o, k)].0 == k,
        forall|j: int| 0 <= j < key_index(o, k) ==> (#[trigger] o[j]).0 != k,
    decreases o.len(),
{
    if o.len() > 0 && o[0].0 != k {
        key_index_first(o.drop_first(), k);
        assert forall|j: int| 0 <= j < key_index(o, k) implies (#[trigger] o[j]).0 != k by {
            if j > 0 {
                assert(o.drop_first()[j - 1] == o[j]);
            }
        }
    }
}

/// A position with the key, and none before it, is `key_index`.
pub proof fn key_index_unique(o: Members, k: Seq<char>, i: int)
    requires
        0 <= i <= o.len(),
        i < o.len() ==> o[i].0 == k,
        forall|j: int| 0 <= j < i ==> (#[trigger] o[j]).0 != k,
    ensures
        key_index(o, k) == i,
{
    key_index_first(o, k);
    let x = key_index(o, k);
    if x < i {
        assert(o[x].0 != k);
    } else if x > i {
        assert(o[i].0 != k);
    }
}

/// `key_slot` stands after every member it passes and before the rest.
pub proof fn key_slot_bounds(o: Members, k: Seq<char>)
    ensures
        0 <= key_slot(o, k) <= o.len(),
        key_slot(o, k) < o.len() ==> text_lt(k, o[key_slot(o, k)].0),
        forall|j: int| 0 <= j < key_slot(o, k) ==> !text_lt(k, (#[trigger] o[j]).0),
    decreases o.len(),
{
    if o.len() > 0 && !text_lt(k, o[0].0) {
        key_slot_bounds(o.drop_first(), k);
        assert forall|j: int| 0 <= j < key_slot(o, k) implies !text_lt(
            k,
            (#[trigger] o[j]).0,
        ) by {
            if j > 0 {
                assert(o.drop_first()[j - 1] == o[j]);
            }
        }
    }
}

/// Setting a member makes it readable, and leaves every other member as it was.
pub proof fn set_then_get(o: Members, k: Seq<char>, v: Json, other: Seq<char>)
    ensures
        member(with_member(o, k, v), k) == Some(v),
        other != k ==> member(with_member(o, k, v), other) == member(o, other),
{
    key_index_first(o, k);
    key_index_first(o, other);
    key_slot_bounds(o, k);
    let n = with_member(o, k, v);
    let i = key_index(o, k);
    if i < o.len() {
        assert(forall|j: int| 0 <= j < o.len() ==> (#[trigger] n[j]).0 == o[j].0);
        key_index_unique(n, k, i);
        key_index_unique(n, other, key_index(o, other));
    } else {
        let s = key_slot(o, k);
        assert(n[s] == (k, v));
        assert(forall|j: int| 0 <= j < s ==> #[trigger] n[j] == o[j]);
        assert(forall|j: int| s < j < n.len() ==> #[trigger] n[j] == o[j - 1]);
        assert forall|j: int| 0 <= j < s implies (#[trigger] n[j]).0 != k by {
            assert(o[j].0 != k);
        }
        key_index_unique(n, k, s);
        if other != k {
            let x = key_index(o, other);
            let y = if x < s {
                x
            } else {
                x + 1
            };
            assert forall|j: int| 0 <= j < y implies (#[trigger] n[j]).0 != other by {
                if j < s {
                    assert(o[j].0 != other);
                } else if j > s {
                    assert(o[j - 1].0 != other);
                }
            }
            key_index_unique(n, other, y);
        }
    }
}

/// Setting a member keeps the order of an ordered object.
pub proof fn set_keeps_order(o: Members, k: Seq<char>, v: Json)
    requires
        ordered(o),
    ensures
        ordered(with_member(o, k, v)),
{
    key_index_first(o, k);
    key_slot_bounds(o, k);
    let n = with_member(o, k, v);
    let i = key_index(o, k);
    if i < o.len() {
        assert forall|a: int, b: int| 0 <= a < b < n.len() implies text_lt(
            #[trigger] n[a].0,
            #[trigger] n[b].0,
        ) by {
            assert(n[a].0 == o[a].0 && n[b].0 == o[b].0);
        }
    } else {
        let s = key_slot(o, k);
        assert forall|a: int, b: int| 0 <= a < b < n.len() implies text_lt(
            #[trigger] n[a].0,
            #[trigger] n[b].0,
        ) by {
            if a < s && b > s {
                assert(n[a] == o[a] && n[b] == o[b - 1]);
            } else if a < s && b == s {
                assert(n[a] == o[a]);
                text_lt_total(o[a].0, k);
            } else if a == s {
                assert(n[b] == o[b - 1]);
                if b - 1 > s {
                    text_lt_transitive(k, o[s].0, o[b - 1].0);
                }
            } else if b < s {
                assert(n[a] == o[a] && n[b] == o[b]);
            } else {
                assert(n[a] == o[a - 1] && n[b] == o[b - 1]);
            }
        }
    }
}

/// Removing a member of an ordered object makes it absent, leaves every other
/// member as it was, and keeps the order.
pub proof fn remove_then_get(o: Members, k: Seq<char>, other: Seq<char>)
    requires
        ordered(o),
    ensures
        member(without_member(o, k), k) is None,
        other != k ==> member(without_member(o, k), other) == member(o, other),
        ordered(without_member(o, k)),
{
    key_index_first(o, k);
    key_index_first(o, other);
    let n = without_member(o, k);
    let i = key_index(o, k);
    if i < o.len() {
        assert(forall|j: int| 0 <= j < i ==> #[trigger] n[j] == o[j]);
        assert(forall|j: int| i <= j < n.len() ==> #[trigger] n[j] == o[j + 1]);
        assert forall|j: int| 0 <= j < n.len() implies (#[trigger] n[j]).0 != k by {
            if j < i {
                assert(o[j].0 != k);
            } else {
                assert(text_lt(o[i].0, o[j + 1].0));
                text_lt_irreflexive(k);
            }
        }
        key_index_unique(n, k, n.len() as int);
        if other != k {
            let x = key_index(o, other);
            let y = if x < i {
                x
            } else {
                x - 1
            };
            assert forall|j: int| 0 <= j < y implies (#[trigger] n[j]).0 != other by {
                if j < i {
                    assert(o[j].0 != other);
                } else {
                    assert(o[j + 1].0 != other);
                }
            }
            assert(x != i);
            key_index_unique(n, other, y);
        }
        assert forall|a: int, b: int| 0 <= a < b < n.len() implies text_lt(
            #[trigger] n[a].0,
            #[trigger] n[b].0,
        ) by {
            let x = if a < i {
                a
            } else {
                a + 1
            };
            let y = if b < i {
                b
            } else {
                b + 1
            };
            assert(n[a] == o[x] && n[b] == o[y]);
        }
    }
}

// ---------------------------------------------------------------------------
// Documents in order
// ---------------------------------------------------------------------------

/// Whether the members of every object stand in the order of their keys.
pub open spec fn ordered_throughout(v: Json) -> bool
    decreases v, 0nat,
{
    match v {
        Json::Arr(a) => items_ordered(a, a.len()),
        Json::Obj(o) => ordered(o) && members_ordered(o, o.len()),
        _ => true,
    }
}

/// Whether that holds of the first `n` items.
pub open spec fn items_ordered(a: Seq<Json>, n: nat) -> bool
    decreases a, n,
{
    n == 0 || n > a.len() || (items_ordered(a, (n - 1) as nat) && ordered_throughout(a[n - 1]))
}

/// Whether that holds of the first `n` members.
pub open spec fn members_ordered(o: Members, n: nat) -> bool
    decreases o, n,
{
    n == 0 || n > o.len() || (members_ordered(o, (n - 1) as nat) && ordered_throughout(
        o[n - 1].1,
    ))
}

/// The items are in order throughout exactly where each of them is.
pub proof fn items_ordered_each(a: Seq<Json>, n: nat)
    requires
        n <= a.len(),
    ensures
        items_ordered(a, n) <==> (forall|i: int| 0 <= i < n ==> ordered_throughout(#[trigger] a[i])),
    decreases n,
{
    if n > 0 {
        items_ordered_each(a, (n - 1) as nat);
    }
}

/// The members are in order throughout exactly where each of them is.
pub proof fn members_ordered_each(o: Members, n: nat)
    requires
        n <= o.len(),
    ensures
        members_ordered(o, n) <==> (forall|i: int|
            0 <= i < n ==> ordered_throughout((#[trigger] o[i]).1)),
    decreases n,
{
    if n > 0 {
        members_ordered_each(o, (n - 1) as nat);
    }
}

/// A member of an object with `k` set holds what was set, or stood in the object
/// before.
pub proof fn set_values(o: Members, k: Seq<char>, v: Json, i: int)
    requires
        0 <= i < with_member(o, k, v).len(),
    ensures
        with_member(o, k, v)[i].1 == v || exists|j: int|
            0 <= j < o.len() && #[trigger] o[j] == with_member(o, k, v)[i],
{
    key_index_first(o, k);
    key_slot_bounds(o, k);
    let x = key_index(o, k);
    let n = with_member(o, k, v);
    if x < o.len() {
        if i != x {
            assert(o[i] == n[i]);
        }
    } else {
        let s = key_slot(o, k);
        if i < s {
            assert(o[i] == n[i]);
        } else if i > s {
            assert(o[i - 1] == n[i]);
        }
    }
}

/// Setting a member to a document in order keeps an object in order throughout.
pub proof fn set_keeps_all_in_order(o: Members, k: Seq<char>, v: Json)
    requires
        ordered_throughout(Json::Obj(o)),
        ordered_throughout(v),
    ensures
        ordered_throughout(Json::Obj(with_member(o, k, v))),
{
    let n = with_member(o, k, v);
    set_keeps_order(o, k, v);
    members_ordered_each(o, o.len());
    members_ordered_each(n, n.len());
    assert forall|i: int| 0 <= i < n.len() implies ordered_throughout((#[trigger] n[i]).1) by {
        set_values(o, k, v, i);
    }
}

/// Removing a member keeps an object in order throughout.
pub proof fn remove_keeps_all_in_order(o: Members, k: Seq<char>)
    requires
        ordered_throughout(Json::Obj(o)),
    ensures
        ordered_throughout(Json::Obj(without_member(o, k))),
{
    let n = without_member(o, k);
    remove_then_get(o, k, k);
    members_ordered_each(o, o.len());
    members_ordered_each(n, n.len());
    key_index_first(o, k);
    assert forall|i: int| 0 <= i < n.len() implies ordered_throughout((#[trigger] n[i]).1) by {
        if i < key_index(o, k) {
            assert(n[i] == o[i]);
        } else {
            assert(n[i] == o[i + 1]);
        }
    }
}

/// Every member of an object in order throughout is in order throughout.
pub proof fn members_are_in_order(o: Members, k: Seq<char>)
    requires
        ordered_throughout(Json::Obj(o)),
    ensures
        member(o, k) matches Some(v) ==> ordered_throughout(v),
{
    key_index_first(o, k);
    members_ordered_each(o, o.len());
}

// ---------------------------------------------------------------------------
// Objects
// ---------------------------------------------------------------------------

impl Object {
    /// The members, in order.
    pub open spec fn view(&self) -> Members
        decreases self,
    {
        Seq::new(
            self.entries@.len(),
            |i: int|
                if 0 <= i < self.entries@.len() {
                    (self.entries@[i].0@, self.entries@[i].1.view())
                } else {
                    (Seq::empty(), Json::Null)
                },
        )
    }

    /// Whether the members stand in the order of their keys, and those of every
    /// object among them.
    pub open spec fn wf(&self) -> bool {
        ordered_throughout(Json::Obj(self@))
    }

    /// An object without members.
    pub fn new() -> (r: Object)
        ensures
            r@ == Seq::<(Seq<char>, Json)>::empty(),
            r.wf(),
    {
        let r = Object { entries: Vec::new() };
        assert(r@ =~= Seq::<(Seq<char>, Json)>::empty());
        r
    }

    /// The number of members.
    pub fn len(&self) -> (r: usize)
        ensures
            r == self@.len(),
    {
        self.entries.len()
    }

    /// Whether there are no members.
    pub fn is_empty(&self) -> (r: bool)
        ensures
            r == (self@.len() == 0),
    {
        self.entries.len() == 0
    }

    /// The position of the member named `key`.
    pub fn position(&self, key: &str) -> (r: Option<usize>)
        ensures
            match r {
                Some(i) => i == key_index(self@, key@) && i < self@.len(),
                None => key_index(self@, key@) == self@.len(),
            },
    {
        let wanted = chars_of(key);
        let mut i: usize = 0;
        while i < self.entries.len()
            invariant
                i <= self@.len(),
                self@.len() == self.entries@.len(),
                wanted@ == key@,
                forall|j: int| 0 <= j < i ==> (#[trigger] self@[j]).0 != key@,
            decreases self.entries@.len() - i,
        {
            let found = chars_of(self.entries[i].0.as_str());
            assert(self@[i as int].0 == self.entries@[i as int].0@);
            if same(found.as_slice(), wanted.as_slice()) {
                proof {
                    key_index_unique(self@, key@, i as int);
                }
                return Some(i);
            }
            i = i + 1;
        }
        proof {
            key_index_unique(self@, key@, self@.len() as int);
        }
        None
    }

    /// Whether there is a member named `key`.
    pub fn contains_key(&self, key: &str) -> (r: bool)
        ensures
            r == (member(self@, key@) is Some),
    {
        self.position(key).is_some()
    }

    /// The value of the member named `key`.
    pub fn get(&self, key: &str) -> (r: Option<&Document>)
        ensures
            match r {
                Some(v) => member(self@, key@) == Some(v@) && decreases_to!(self => *v),
                None => member(self@, key@) is None,
            },
    {
        match self.position(key) {
            Some(i) => {
                assert(self@[i as int].1 == self.entries@[i as int].1@);
                Some(&self.entries[i].1)
            },
            None => None,
        }
    }

    /// The value of the member named `key`, to be changed.
    pub fn get_mut(&mut self, key: &str) -> (r: Option<&mut Document>)
        ensures
            match r {
                Some(v) => member(old(self)@, key@) == Some(v@) && decreases_to!(*old(self) => *v)
                    && final(self)@ == with_member(old(self)@, key@, final(v)@),
                None => member(old(self)@, key@) is None && final(self)@ == old(self)@,
            },
    {
        match self.position(key) {
            Some(i) => {
                let ghost before = self@;
                let ghost entries = self.entries@;
                assert(self@[i as int].1 == self.entries@[i as int].1@);
                assert(decreases_to!(self.entries@ => self.entries@[i as int]));
                let r = &mut self.entries[i].1;
                assert(with_member(before, key@, final(r)@) =~= before.update(
                    i as int,
                    (before[i as int].0, final(r)@),
                ));
                Some(r)
            },
            None => None,
        }
    }

    /// Sets the member named `key`.
    pub fn insert(&mut self, key: String, value: Document)
        ensures
            final(self)@ == with_member(old(self)@, key@, value@),
            old(self).wf() && value.wf() ==> final(self).wf(),
    {
        let ghost before = self@;
        proof {
            if self.wf() && value.wf() {
                set_keeps_all_in_order(self@, key@, value@);
            }
        }
        match self.position(key.as_str()) {
            Some(i) => {
                self.entries[i].1 = value;
                assert(self@ =~= with_member(before, key@, value@));
            },
            None => {
                let slot = self.slot(key.as_str());
                let ghost pair = (key@, value@);
                self.entries.insert(slot, (key, value));
                assert(self@ =~= before.insert(slot as int, pair));
            },
        }
    }

    /// The position where a new member named `key` belongs.
    fn slot(&self, key: &str) -> (r: usize)
        ensures
            r == key_slot(self@, key@),
            r <= self@.len(),
    {
        let wanted = chars_of(key);
        let mut i: usize = 0;
        assert(self@.subrange(0, self@.len() as int) =~= self@);
        while i < self.entries.len()
            invariant
                i <= self@.len(),
                self@.len() == self.entries@.len(),
                wanted@ == key@,
                key_slot(self@, key@) == i + key_slot(
                    self@.subrange(i as int, self@.len() as int),
                    key@,
                ),
            decreases self.entries@.len() - i,
        {
            let found = chars_of(self.entries[i].0.as_str());
            assert(self@[i as int].0 == self.entries@[i as int].0@);
            if chars_before(wanted.as_slice(), found.as_slice()) {
                return i;
            }
            assert(self@.subrange(i as int, self@.len() as int).drop_first() =~= self@.subrange(
                i + 1,
                self@.len() as int,
            ));
            i = i + 1;
        }
        i
    }

    /// Removes the member named `key` and returns its value.
    pub fn remove(&mut self, key: &str) -> (r: Option<Document>)
        ensures
            final(self)@ == without_member(old(self)@, key@),
            match r {
                Some(v) => member(old(self)@, key@) == Some(v@),
                None => member(old(self)@, key@) is None,
            },
            old(self).wf() ==> final(self).wf(),
    {
        let ghost before = self@;
        proof {
            if self.wf() {
                remove_keeps_all_in_order(self@, key@);
            }
        }
        match self.position(key) {
            Some(i) => {
                assert(self@[i as int].1 == self.entries@[i as int].1@);
                let (_, v) = self.entries.remove(i);
                assert(self@ =~= before.remove(i as int));
                Some(v)
            },
            None => None,
        }
    }
}

impl Clone for Object {
    fn clone(&self) -> (r: Self)
        ensures
            r@ == self@,
        decreases self,
    {
        let mut out: Vec<(String, Document)> = Vec::new();
        let mut i: usize = 0;
        while i < self.entries.len()
            invariant
                i <= self.entries@.len(),
                out@.len() == i,
                forall|j: int|
                    0 <= j < i ==> (#[trigger] out@[j]).0@ == self.entries@[j].0@ && out@[j].1@
                        == self.entries@[j].1@,
            decreases self.entries@.len() - i,
        {
            out.push((self.entries[i].0.clone(), self.entries[i].1.clone()));
            i = i + 1;
        }
        let r = Object { entries: out };
        assert(r@ =~= self@);
        r
    }
}

// ---------------------------------------------------------------------------
// Values
// ---------------------------------------------------------------------------

/// The views of a sequence of values.
pub open spec fn views(items: Seq<Document>) -> Seq<Json> {
    Seq::new(items.len(), |i: int| items[i]@)
}

impl Document {
    /// Whether the members of every object stand in the order of their keys.
    pub open spec fn wf(&self) -> bool {
        ordered_throughout(self@)
    }

    /// The document that the value stands for.
    pub open spec fn view(&self) -> Json
        decreases self,
    {
        match self {
            Document::Null => Json::Null,
            Document::Bool(b) => Json::Bool(*b),
            Document::Number(n) => Json::Num(*n),
            Document::String(s) => Json::Str(s@),
            Document::Array(items) => Json::Arr(
                Seq::new(
                    items@.len(),
                    |i: int|
                        if 0 <= i < items@.len() {
                            items@[i].view()
                        } else {
                            Json::Null
                        },
                ),
            ),
            Document::Object(obj) => Json::Obj(obj.view()),
        }
    }

    /// Whether the value is null.
    pub fn is_null(&self) -> (r: bool)
        ensures
            r == (self@ is Null),
    {
        matches!(self, Document::Null)
    }

    /// Whether the value is an object.
    pub fn is_object(&self) -> (r: bool)
        ensures
            r == (self@ is Obj),
    {
        matches!(self, Document::Object(_))
    }

    /// Whether the value is an array.
    pub fn is_array(&self) -> (r: bool)
        ensures
            r == (self@ is Arr),
    {
        matches!(self, Document::Array(_))
    }

    /// The text of a string value.
    pub fn as_str(&self) -> (r: Option<&str>)
        ensures
            match r {
                Some(s) => self@ == Json::Str(s@),
                None => !(self@ is Str),
            },
    {
        match self {
            Document::String(s) => Some(s.as_str()),
            _ => None,
        }
    }

    /// The truth value of a boolean.
    pub fn as_bool(&self) -> (r: Option<bool>)
        ensures
            match r {
                Some(b) => self@ == Json::Bool(b),
                None => !(self@ is Bool),
            },
    {
        match self {
            Document::Bool(b) => Some(*b),
            _ => None,
        }
    }

    /// The number as an unsigned integer, if it is one.
    pub fn as_u64(&self) -> (r: Option<u64>)
        ensures
            r == (match self@ {
                Json::Num(n) => n.unsigned_spec(),
                _ => None,
            }),
    {
        match self {
            Document::Number(n) => n.as_u64(),
            _ => None,
        }
    }

    /// The items of an array.
    pub fn as_array(&self) -> (r: Option<&Vec<Document>>)
        ensures
            match r {
                Some(items) => self@ == Json::Arr(views(items@)) && decreases_to!(self => *items),
                None => !(self@ is Arr),
            },
    {
        match self {
            Document::Array(items) => {
                assert(self@->Arr_0 =~= views(items@));
                Some(items)
            },
            _ => None,
        }
    }

    /// The members of an object.
    pub fn as_object(&self) -> (r: Option<&Object>)
        ensures
            match r {
                Some(obj) => self@ == Json::Obj(obj@) && decreases_to!(self => *obj),
                None => !(self@ is Obj),
            },
    {
        match self {
            Document::Object(obj) => Some(obj),
            _ => None,
        }
    }

    /// The members of an object, to be changed.
    pub fn as_object_mut(&mut self) -> (r: Option<&mut Object>)
        ensures
            match r {
                Some(obj) => old(self)@ == Json::Obj(obj@) && decreases_to!(*old(self) => *obj)
                    && final(self)@ == Json::Obj(final(obj)@),
                None => !(old(self)@ is Obj) && final(self)@ == old(self)@,
            },
    {
        match self {
            Document::Object(obj) => Some(obj),
            _ => None,
        }
    }

    /// The member named `key`, where the value is an object that has it.
    pub fn get(&self, key: &str) -> (r: Option<&Document>)
        ensures
            match r {
                Some(v) => field(self@, key@) == Some(v@) && decreases_to!(self => *v),
                None => field(self@, key@) is None,
            },
    {
        match self {
            Document::Object(obj) => obj.get(key),
            _ => None,
        }
    }

    /// Whether two values stand for the same document.
    pub fn same(&self, other: &Document) -> (r: bool)
        ensures
            r == (self@ == other@),
        decreases self,
    {
        match (self, other) {
            (Document::Null, Document::Null) => true,
            (Document::Bool(a), Document::Bool(b)) => *a == *b,
            (Document::Number(a), Document::Number(b)) => *a == *b,
            (Document::String(a), Document::String(b)) => same_text(a.as_str(), b.as_str()),
            (Document::Array(a), Document::Array(b)) => {
                let ghost x = self@->Arr_0;
                let ghost y = other@->Arr_0;
                if a.len() != b.len() {
                    assert(x.len() != y.len());
                    return false;
                }
                let mut i: usize = 0;
                while i < a.len()
                    invariant
                        i <= a@.len(),
                        a@.len() == b@.len(),
                        self == Document::Array(*a),
                        x == self@->Arr_0,
                        y == other@->Arr_0,
                        self@ == Json::Arr(x),
                        other@ == Json::Arr(y),
                        x.len() == a@.len(),
                        y.len() == b@.len(),
                        forall|j: int| 0 <= j < a@.len() ==> #[trigger] x[j] == a@[j]@,
                        forall|j: int| 0 <= j < b@.len() ==> #[trigger] y[j] == b@[j]@,
                        forall|j: int| 0 <= j < i ==> #[trigger] x[j] == y[j],
                    decreases a@.len() - i,
                {
                    assert(decreases_to!(self => a@[i as int]));
                    if !a[i].same(&b[i]) {
                        assert(x[i as int] != y[i as int]);
                        return false;
                    }
                    i = i + 1;
                }
                assert(x =~= y);
                true
            },
            (Document::Object(a), Document::Object(b)) => a.same(b),
            _ => false,
        }
    }
}

/// The document that an array stands for.
pub proof fn array_view(items: Vec<Document>)
    ensures
        Document::Array(items)@ == Json::Arr(views(items@)),
{
    assert(Document::Array(items)@->Arr_0 =~= views(items@));
}

/// The member named `key` of a document, where it is an object that has one.
pub open spec fn field(v: Json, key: Seq<char>) -> Option<Json> {
    match v {
        Json::Obj(o) => member(o, key),
        _ => None,
    }
}

impl Object {
    /// Whether two objects have the same members in the same order.
    pub fn same(&self, other: &Object) -> (r: bool)
        ensures
            r == (self@ == other@),
        decreases self,
    {
        if self.entries.len() != other.entries.len() {
            assert(self@.len() != other@.len());
            return false;
        }
        let mut i: usize = 0;
        while i < self.entries.len()
            invariant
                i <= self.entries@.len(),
                self.entries@.len() == other.entries@.len(),
                forall|j: int| 0 <= j < i ==> #[trigger] self@[j] == other@[j],
            decreases self.entries@.len() - i,
        {
            assert(self@[i as int] == (self.entries@[i as int].0@, self.entries@[i as int].1@));
            assert(other@[i as int] == (other.entries@[i as int].0@, other.entries@[i as int].1@));
            if !same_text(self.entries[i].0.as_str(), other.entries[i].0.as_str())
                || !self.entries[i].1.same(&other.entries[i].1) {
                assert(self@[i as int] != other@[i as int]);
                return false;
            }
            i = i + 1;
        }
        assert(self@ =~= other@);
        true
    }
}

impl Clone for Document {
    fn clone(&self) -> (r: Self)
        ensures
            r@ == self@,
        decreases self,
    {
        match self {
            Document::Null => Document::Null,
            Document::Bool(b) => Document::Bool(*b),
            Document::Number(n) => Document::Number(*n),
            Document::String(s) => Document::String(s.clone()),
            Document::Array(items) => {
                let mut out: Vec<Document> = Vec::new();
                let mut i: usize = 0;
                while i < items.len()
                    invariant
                        i <= items@.len(),
                        out@.len() == i,
                        forall|j: int| 0 <= j < i ==> (#[trigger] out@[j])@ == items@[j]@,
                        decreases_to!(self => items),
                    decreases items@.len() - i,
                {
                    out.push(items[i].clone());
                    i = i + 1;
                }
                let r = Document::Array(out);
                assert(r@->Arr_0 =~= self@->Arr_0);
                r
            },
            Document::Object(obj) => Document::Object(obj.clone()),
        }
    }
}

impl PartialEq for Document {
    fn eq(&self, other: &Document) -> (r: bool) {
        self.same(other)
    }
}

impl vstd::std_specs::cmp::PartialEqSpecImpl for Document {
    open spec fn obeys_eq_spec() -> bool {
        true
    }

    open spec fn eq_spec(&self, other: &Document) -> bool {
        self@ == other@
    }
}

} // verus!
