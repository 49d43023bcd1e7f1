//! Merging of documents.

use vstd::prelude::*;
use crate::serial::ordered_members_agree;
use crate::text::text_lt_irreflexive;
use crate::value::{
    field, key_index, key_index_first, key_index_unique, member, members_are_in_order,
    members_ordered, members_ordered_each, ordered, ordered_throughout, set_keeps_all_in_order,
    set_keeps_order, set_then_get, with_member, Document, Json, Members, Object,
};

verus! {

/// `base` with `overlay` merged in: objects are merged member by member, and
/// anything else is replaced.
pub open spec fn merged(base: Json, overlay: Json) -> Json
    decreases overlay, 0nat,
{
    match (base, overlay) {
        (Json::Obj(b), Json::Obj(o)) => Json::Obj(merged_members(b, o, o.len())),
        _ => overlay,
    }
}

/// What a member becomes where `overlay` is merged in.
pub open spec fn merged_member(base: Option<Json>, overlay: Json) -> Json
    decreases overlay, 1nat,
{
    match base {
        Some(b) => merged(b, overlay),
        None => overlay,
    }
}

/// `b` with the first `n` members of `o` merged in.
pub open spec fn merged_members(b: Members, o: Members, n: nat) -> Members
    decreases o, n,
{
    if n == 0 || n > o.len() {
        b
    } else {
        let m = merged_members(b, o, (n - 1) as nat);
        let k = o[n - 1].0;
        let v = o[n - 1].1;
        with_member(
            m,
            k,
            match member(m, k) {
                Some(e) => merged(e, v),
                None => v,
            },
        )
    }
}

/// Merges `overlay` into `base`.
pub fn deep_merge_json(base: &mut Document, overlay: &Document)
    ensures
        final(base)@ == merged(old(base)@, overlay@),
    decreases overlay,
{
    if base.is_object() && overlay.is_object() {
        if let (Document::Object(b), Document::Object(o)) = (&mut *base, overlay) {
            merge_members(b, o);
        }
    } else {
        *base = overlay.clone();
    }
}

fn merge_members(b: &mut Object, o: &Object)
    ensures
        final(b)@ == merged_members(old(b)@, o@, o@.len()),
    decreases o,
{
    let ghost before = b@;
    let ghost all = o@;
    let mut i: usize = 0;
    while i < o.entries.len()
        invariant
            i <= o.entries@.len(),
            all == o@,
            all.len() == o.entries@.len(),
            b@ == merged_members(before, all, i as nat),
        decreases o.entries@.len() - i,
    {
        let ghost m = b@;
        let key = o.entries[i].0.clone();
        assert(all[i as int] == (o.entries@[i as int].0@, o.entries@[i as int].1@));
        let value = &o.entries[i].1;
        let present: bool = b.contains_key(key.as_str());
        if present {
            if let Some(existing) = b.get_mut(key.as_str()) {
                deep_merge_json(existing, value);
            }
        } else {
            b.insert(key, value.clone());
        }
        i = i + 1;
        assert(b@ == merged_members(before, all, i as nat));
    }
}

// ---------------------------------------------------------------------------
// Differences
// ---------------------------------------------------------------------------

/// The changed members and all members of `merged`, on every level, counted
/// against `base`: the first `n` members of an object.
pub open spec fn members_diff(b: Members, m: Members, n: nat) -> (nat, nat)
    decreases m, n,
{
    if n == 0 || n > m.len() {
        (0, 0)
    } else {
        let before = members_diff(b, m, (n - 1) as nat);
        let v = m[n - 1].1;
        match member(b, m[n - 1].0) {
            Some(bv) => if bv is Obj && v is Obj {
                let sub = merge_diff(bv, v);
                (
                    before.0 + sub.0 + (if sub.0 > 0 {
                        1nat
                    } else {
                        0nat
                    }),
                    before.1 + sub.1 + 1,
                )
            } else if bv == v {
                (before.0, before.1 + 1)
            } else {
                (before.0 + 1, before.1 + 1)
            },
            None => (before.0 + 1, before.1 + 1),
        }
    }
}

/// The number of changed members and of all members of `merged`, on every
/// level, counted against `base`; what is no object counts as one member where
/// it has changed.
pub open spec fn merge_diff(base: Json, merged: Json) -> (nat, nat)
    decreases merged, 0nat,
{
    match (base, merged) {
        (Json::Obj(b), Json::Obj(m)) => members_diff(b, m, m.len()),
        _ => if base == merged {
            (0, 0)
        } else {
            (1, 1)
        },
    }
}

/// A count as far as `usize` can hold it.
pub open spec fn capped(n: nat) -> usize {
    if n <= usize::MAX {
        n as usize
    } else {
        usize::MAX
    }
}

fn capped_sum(a: usize, b: usize) -> (r: usize)
    ensures
        r == capped((a + b) as nat),
{
    if a <= usize::MAX - b {
        a + b
    } else {
        usize::MAX
    }
}

/// Counts the changed members and all members of `merged`.
pub fn count_merge_diff(base: &Document, merged: &Document) -> (r: (usize, usize))
    ensures
        r.0 == capped(merge_diff(base@, merged@).0),
        r.1 == capped(merge_diff(base@, merged@).1),
    decreases merged,
{
    match (base, merged) {
        (Document::Object(b), Document::Object(m)) => count_members_diff(b, m),
        _ => if base.same(merged) {
            (0, 0)
        } else {
            (1, 1)
        },
    }
}

fn count_members_diff(b: &Object, m: &Object) -> (r: (usize, usize))
    ensures
        r.0 == capped(members_diff(b@, m@, m@.len()).0),
        r.1 == capped(members_diff(b@, m@, m@.len()).1),
    decreases m,
{
    let ghost old = b@;
    let ghost new = m@;
    let mut modified: usize = 0;
    let mut total: usize = 0;
    let mut i: usize = 0;
    while i < m.entries.len()
        invariant
            i <= m.entries@.len(),
            old == b@,
            new == m@,
            new.len() == m.entries@.len(),
            modified == capped(members_diff(old, new, i as nat).0),
            total == capped(members_diff(old, new, i as nat).1),
        decreases m.entries@.len() - i,
    {
        assert(new[i as int] == (m.entries@[i as int].0@, m.entries@[i as int].1@));
        let v = &m.entries[i].1;
        match b.get(m.entries[i].0.as_str()) {
            Some(bv) => if bv.is_object() && v.is_object() {
                let (sub_modified, sub_total) = count_merge_diff(bv, v);
                modified = capped_sum(modified, sub_modified);
                if sub_modified > 0 {
                    modified = capped_sum(modified, 1);
                }
                total = capped_sum(capped_sum(total, sub_total), 1);
            } else {
                if !bv.same(v) {
                    modified = capped_sum(modified, 1);
                }
                total = capped_sum(total, 1);
            },
            None => {
                modified = capped_sum(modified, 1);
                total = capped_sum(total, 1);
            },
        }
        i = i + 1;
    }
    (modified, total)
}

// ---------------------------------------------------------------------------
// Laws
// ---------------------------------------------------------------------------

proof fn merged_members_step(b: Members, o: Members, n: nat, k: Seq<char>)
    requires
        ordered(o),
        n <= o.len(),
    ensures
        member(merged_members(b, o, n), k) == (if key_index(o, k) < n {
            Some(merged_member(member(b, k), o[key_index(o, k)].1))
        } else {
            member(b, k)
        }),
    decreases n,
{
    key_index_first(o, k);
    if n > 0 {
        let m = merged_members(b, o, (n - 1) as nat);
        let key = o[n - 1].0;
        let v = o[n - 1].1;
        key_index_unique_in_order(o, n - 1);
        merged_members_step(b, o, (n - 1) as nat, k);
        merged_members_step(b, o, (n - 1) as nat, key);
        let w = match member(m, key) {
            Some(e) => merged(e, v),
            None => v,
        };
        set_then_get(m, key, w, k);
        if k == key {
            assert(key_index(o, k) == n - 1);
        } else if key_index(o, k) == n - 1 {
            assert(o[n - 1].0 == k);
        }
    }
}

proof fn key_index_unique_in_order(o: Members, i: int)
    requires
        ordered(o),
        0 <= i < o.len(),
    ensures
        key_index(o, o[i].0) == i,
{
    assert forall|j: int| 0 <= j < i implies (#[trigger] o[j]).0 != o[i].0 by {
        text_lt_irreflexive(o[i].0);
    }
    key_index_unique(o, o[i].0, i);
}

/// After a merge of objects, a member that the overlay has is the merge of both
/// members, and every other member is as it was.
pub proof fn merge_by_members(b: Members, o: Members, k: Seq<char>)
    requires
        ordered(o),
    ensures
        field(merged(Json::Obj(b), Json::Obj(o)), k) == (match member(o, k) {
            Some(v) => Some(merged_member(member(b, k), v)),
            None => member(b, k),
        }),
{
    key_index_first(o, k);
    merged_members_step(b, o, o.len(), k);
}

/// A merge of ordered objects is ordered.
pub proof fn merge_keeps_order(b: Members, o: Members, n: nat)
    requires
        ordered(b),
        n <= o.len(),
    ensures
        ordered(merged_members(b, o, n)),
    decreases n,
{
    if n > 0 {
        merge_keeps_order(b, o, (n - 1) as nat);
        let m = merged_members(b, o, (n - 1) as nat);
        let k = o[n - 1].0;
        let v = o[n - 1].1;
        set_keeps_order(
            m,
            k,
            match member(m, k) {
                Some(e) => merged(e, v),
                None => v,
            },
        );
    }
}

/// An overlay that is no object replaces the document; an object without
/// members leaves an object as it was.
pub proof fn merge_extremes(base: Json, overlay: Json)
    ensures
        !(overlay is Obj) ==> merged(base, overlay) == overlay,
        !(base is Obj) ==> merged(base, overlay) == overlay,
        base is Obj && overlay == Json::Obj(Seq::empty()) ==> merged(base, overlay) == base,
{
}

/// What is merged from two documents in order is in order.
pub proof fn merge_keeps_all_in_order(base: Json, overlay: Json)
    requires
        ordered_throughout(base),
        ordered_throughout(overlay),
    ensures
        ordered_throughout(merged(base, overlay)),
    decreases overlay, 0nat,
{
    match (base, overlay) {
        (Json::Obj(b), Json::Obj(o)) => {
            members_keep_all_in_order(b, o, o.len());
        },
        _ => {},
    }
}

proof fn members_keep_all_in_order(b: Members, o: Members, n: nat)
    requires
        ordered_throughout(Json::Obj(b)),
        ordered_throughout(Json::Obj(o)),
        n <= o.len(),
    ensures
        ordered_throughout(Json::Obj(merged_members(b, o, n))),
    decreases o, n,
{
    if n > 0 {
        let m = merged_members(b, o, (n - 1) as nat);
        let k = o[n - 1].0;
        let v = o[n - 1].1;
        members_keep_all_in_order(b, o, (n - 1) as nat);
        members_ordered_each(o, o.len());
        members_are_in_order(m, k);
        if let Some(w) = member(m, k) {
            merge_keeps_all_in_order(w, v);
        }
        set_keeps_all_in_order(m, k, merged_member(member(m, k), v));
    }
}

/// Merging a document with itself leaves it as it was.
pub proof fn merge_with_itself(v: Json)
    requires
        ordered_throughout(v),
    ensures
        merged(v, v) == v,
    decreases v, 0nat,
{
    if let Json::Obj(o) = v {
        members_with_themselves(o, o.len());
    }
}

proof fn members_with_themselves(o: Members, n: nat)
    requires
        ordered(o),
        members_ordered(o, o.len()),
        n <= o.len(),
    ensures
        merged_members(o, o, n) == o,
    decreases o, n,
{
    if n > 0 {
        members_with_themselves(o, (n - 1) as nat);
        members_ordered_each(o, o.len());
        key_index_unique_in_order(o, n - 1);
        merge_with_itself(o[n - 1].1);
        assert(o.update(n - 1, o[n - 1]) =~= o);
    }
}

/// Merging an overlay a second time changes nothing more.
pub proof fn merging_twice_is_merging_once(base: Json, overlay: Json)
    requires
        ordered_throughout(base),
        ordered_throughout(overlay),
    ensures
        merged(merged(base, overlay), overlay) == merged(base, overlay),
    decreases overlay,
{
    match (base, overlay) {
        (Json::Obj(b), Json::Obj(o)) => {
            let once = merged_members(b, o, o.len());
            let twice = merged_members(once, o, o.len());
            merge_keeps_order(b, o, o.len());
            merge_keeps_order(once, o, o.len());
            members_ordered_each(b, b.len());
            members_ordered_each(o, o.len());
            assert forall|k: Seq<char>| #[trigger] member(twice, k) == member(once, k) by {
                merge_by_members(b, o, k);
                merge_by_members(once, o, k);
                key_index_first(o, k);
                key_index_first(b, k);
                let i = key_index(o, k);
                if i < o.len() {
                    let v = o[i].1;
                    merge_with_itself(v);
                    if key_index(b, k) < b.len() {
                        merging_twice_is_merging_once(b[key_index(b, k)].1, v);
                    }
                }
            }
            ordered_members_agree(twice, once);
        },
        _ => {
            merge_with_itself(overlay);
        },
    }
}

/// A merge of objects, member by member: what the overlay has wins, except that
/// two objects are merged in turn; what the overlay does not have stays.
pub proof fn merge_member_by_member(b: Members, o: Members, k: Seq<char>)
    requires
        ordered(o),
    ensures
        field(merged(Json::Obj(b), Json::Obj(o)), k) == (match (member(b, k), member(o, k)) {
            (Some(w), Some(v)) => Some(
                if w is Obj && v is Obj {
                    merged(w, v)
                } else {
                    v
                },
            ),
            (None, Some(v)) => Some(v),
            (old_one, None) => old_one,
        }),
{
    merge_by_members(b, o, k);
}

/// One more member counts once; it counts as changed where it is new, where it
/// differs, or where something below it has changed, and then all that counts
/// below it counts too.
pub proof fn one_more_member_is_counted(b: Members, m: Members, k: Seq<char>, v: Json)
    ensures
        ({
            let before = merge_diff(Json::Obj(b), Json::Obj(m));
            let after = merge_diff(Json::Obj(b), Json::Obj(m.push((k, v))));
            match member(b, k) {
                None => after == (before.0 + 1, before.1 + 1),
                Some(w) => if w is Obj && v is Obj {
                    let sub = merge_diff(w, v);
                    &&& after.1 == before.1 + sub.1 + 1
                    &&& sub.0 == 0 ==> after.0 == before.0
                    &&& sub.0 > 0 ==> after.0 == before.0 + sub.0 + 1
                } else {
                    &&& after.1 == before.1 + 1
                    &&& w == v ==> after.0 == before.0
                    &&& w != v ==> after.0 == before.0 + 1
                },
            }
        }),
        merge_diff(Json::Obj(b), Json::Obj(Seq::empty())) == (0nat, 0nat),
{
    diff_of_the_first(b, m, (k, v), m.len());
    assert(m.push((k, v))[m.len() as int] == (k, v));
}

proof fn diff_of_the_first(b: Members, m: Members, e: (Seq<char>, Json), n: nat)
    requires
        n <= m.len(),
    ensures
        members_diff(b, m.push(e), n) == members_diff(b, m, n),
    decreases n,
{
    if n > 0 {
        diff_of_the_first(b, m, e, (n - 1) as nat);
        assert(m.push(e)[n - 1] == m[n - 1]);
    }
}

/// What is not an object counts as one change or as none.
pub proof fn plain_values_change_or_not(base: Json, merged: Json)
    requires
        !(base is Obj && merged is Obj),
    ensures
        merge_diff(base, merged).0 == 0 <==> base == merged,
        merge_diff(base, merged).0 <= 1,
{
}

/// Nothing has changed between a document and itself.
pub proof fn nothing_changes_without_a_difference(v: Json)
    requires
        ordered_throughout(v),
    ensures
        merge_diff(v, v).0 == 0,
    decreases v, 1nat,
{
    if let Json::Obj(o) = v {
        no_member_differs(o, o.len());
    }
}

proof fn no_member_differs(o: Members, n: nat)
    requires
        n <= o.len(),
        ordered_throughout(Json::Obj(o)),
    ensures
        members_diff(o, o, n).0 == 0,
    decreases o, n,
{
    if n > 0 {
        no_member_differs(o, (n - 1) as nat);
        key_index_unique_in_order(o, n - 1);
        members_ordered_each(o, o.len());
        assert(member(o, o[n - 1].0) == Some(o[n - 1].1));
        assert(ordered_throughout(o[n - 1].1));
        nothing_changes_without_a_difference(o[n - 1].1);
    }
}

} // verus!
