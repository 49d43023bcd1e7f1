//! Lists of named values.

use vstd::prelude::*;
use crate::order::texts;
use crate::text::same_text;

verus! {

/// The position of the first value of that name, or the number of values.
pub open spec fn name_index<V>(s: Seq<(Seq<char>, V)>, name: Seq<char>) -> int
    decreases s.len(),
{
    if s.len() == 0 || s[0].0 == name {
        0
    } else {
        1 + name_index(s.drop_first(), name)
    }
}

/// The value of that name.
pub open spec fn lookup<V>(s: Seq<(Seq<char>, V)>, name: Seq<char>) -> Option<V> {
    let i = name_index(s, name);
    if 0 <= i < s.len() {
        Some(s[i].1)
    } else {
        None
    }
}

/// The list with the value of that name set; a new name comes last.
pub open spec fn put<V>(s: Seq<(Seq<char>, V)>, name: Seq<char>, value: V) -> Seq<(Seq<char>, V)> {
    let i = name_index(s, name);
    if 0 <= i < s.len() {
        s.update(i, (name, value))
    } else {
        s.push((name, value))
    }
}

/// The values whose names are not among `gone`.
pub open spec fn without<V>(s: Seq<(Seq<char>, V)>, gone: Seq<Seq<char>>) -> Seq<(Seq<char>, V)>
    decreases s.len(),
{
    if s.len() == 0 {
        Seq::empty()
    } else if gone.contains(s[0].0) {
        without(s.drop_first(), gone)
    } else {
        seq![s[0]] + without(s.drop_first(), gone)
    }
}

/// The names that are not among `gone`.
pub open spec fn remaining(names: Seq<Seq<char>>, gone: Seq<Seq<char>>) -> Seq<Seq<char>>
    decreases names.len(),
{
    if names.len() == 0 {
        Seq::empty()
    } else if gone.contains(names[0]) {
        remaining(names.drop_first(), gone)
    } else {
        seq![names[0]] + remaining(names.drop_first(), gone)
    }
}

/// The list without the first value of that name.
pub open spec fn taken<V>(s: Seq<(Seq<char>, V)>, name: Seq<char>) -> Seq<(Seq<char>, V)> {
    let i = name_index(s, name);
    if 0 <= i < s.len() {
        s.remove(i)
    } else {
        s
    }
}

/// Whether no name occurs twice.
pub open spec fn names_distinct<V>(s: Seq<(Seq<char>, V)>) -> bool {
    forall|i: int, j: int| 0 <= i < j < s.len() ==> (#[trigger] s[i]).0 != (#[trigger] s[j]).0
}

/// The model of a list of named values.
pub open spec fn named<V>(v: Seq<(String, V)>) -> Seq<(Seq<char>, V)> {
    Seq::new(v.len(), |i: int| (v[i].0@, v[i].1))
}

// ---------------------------------------------------------------------------
// Facts
// ---------------------------------------------------------------------------

/// `name_index` is the first position of that name.
pub proof fn name_index_first<V>(s: Seq<(Seq<char>, V)>, name: Seq<char>)
    ensures
        0 <= name_index(s, name) <= s.len(),
        name_index(s, name) < s.len() ==> s[name_index(s, name)].0 == name,
        forall|j: int| 0 <= j < name_index(s, name) ==> (#[trigger] s[j]).0 != name,
    decreases s.len(),
{
    if s.len() > 0 && s[0].0 != name {
        name_index_first(s.drop_first(), name);
        assert forall|j: int| 0 <= j < name_index(s, name) implies (#[trigger] s[j]).0 != name by {
            if j > 0 {
                assert(s.drop_first()[j - 1] == s[j]);
            }
        }
    }
}

proof fn name_index_is<V>(s: Seq<(Seq<char>, V)>, name: Seq<char>, i: int)
    requires
        0 <= i <= s.len(),
        i < s.len() ==> s[i].0 == name,
        forall|j: int| 0 <= j < i ==> (#[trigger] s[j]).0 != name,
    ensures
        name_index(s, name) == i,
{
    name_index_first(s, name);
    let x = name_index(s, name);
    if x < i {
        assert(s[x].0 != name);
    } else if x > i {
        assert(s[i].0 != name);
    }
}

/// A value that is set is found, and every other stays as it was; names stay
/// distinct.
pub proof fn put_then_lookup<V>(
    s: Seq<(Seq<char>, V)>,
    name: Seq<char>,
    value: V,
    other: Seq<char>,
)
    ensures
        lookup(put(s, name, value), name) == Some(value),
        other != name ==> lookup(put(s, name, value), other) == lookup(s, other),
        names_distinct(s) ==> names_distinct(put(s, name, value)),
{
    name_index_first(s, name);
    name_index_first(s, other);
    let t = put(s, name, value);
    let i = name_index(s, name);
    assert forall|j: int| 0 <= j < i implies (#[trigger] t[j]).0 != name by {
        assert(t[j] == s[j]);
    }
    name_index_is(t, name, i);
    if other != name {
        let x = name_index(s, other);
        if i == s.len() && x == s.len() {
            assert forall|j: int| 0 <= j < t.len() implies (#[trigger] t[j]).0 != other by {
                if j < s.len() {
                    assert(t[j] == s[j]);
                }
            }
            name_index_is(t, other, t.len() as int);
        } else {
            assert forall|j: int| 0 <= j < x implies (#[trigger] t[j]).0 != other by {
                assert(t[j].0 == s[j].0);
            }
            name_index_is(t, other, x);
        }
    }
    if names_distinct(s) {
        assert forall|a: int, b: int| 0 <= a < b < t.len() implies (#[trigger] t[a]).0 != (
        #[trigger] t[b]).0 by {
            if b < s.len() {
                assert(t[a].0 == s[a].0 && t[b].0 == s[b].0);
            } else {
                assert(t[a].0 == s[a].0);
            }
        }
    }
}

/// What is taken out is not found, everything else is found as before, and
/// names stay distinct.
pub proof fn without_then_lookup<V>(
    s: Seq<(Seq<char>, V)>,
    gone: Seq<Seq<char>>,
    name: Seq<char>,
)
    ensures
        lookup(without(s, gone), name) == (if gone.contains(name) {
            None
        } else {
            lookup(s, name)
        }),
        names_distinct(s) ==> names_distinct(without(s, gone)),
        without(s, gone).len() <= s.len(),
    decreases s.len(),
{
    if s.len() > 0 {
        let rest = s.drop_first();
        let kept = without(rest, gone);
        without_then_lookup(rest, gone, name);
        name_index_first(rest, name);
        name_index_first(kept, name);
        if names_distinct(s) {
            assert forall|a: int, b: int| 0 <= a < b < rest.len() implies (#[trigger] rest[a]).0
                != (#[trigger] rest[b]).0 by {
                assert(rest[a] == s[a + 1] && rest[b] == s[b + 1]);
            }
        }
        if !gone.contains(s[0].0) {
            let t = seq![s[0]] + kept;
            assert(t.drop_first() =~= kept);
            if names_distinct(s) {
                let first = s[0].0;
                without_then_lookup(rest, gone, first);
                name_index_first(rest, first);
                name_index_first(kept, first);
                let x = name_index(rest, first);
                if x < rest.len() {
                    assert(rest[x] == s[x + 1]);
                }
                assert(lookup(kept, first) is None);
                assert forall|a: int, b: int| 0 <= a < b < t.len() implies (#[trigger] t[a]).0 != (
                #[trigger] t[b]).0 by {
                    assert(t[b] == kept[b - 1]);
                    if a > 0 {
                        assert(t[a] == kept[a - 1]);
                    }
                }
            }
        }
    }
}

/// A value that is taken is not found again, everything else is found as before,
/// and names stay distinct.
pub proof fn taken_then_lookup<V>(s: Seq<(Seq<char>, V)>, name: Seq<char>, other: Seq<char>)
    requires
        names_distinct(s),
    ensures
        lookup(taken(s, name), name) is None,
        other != name ==> lookup(taken(s, name), other) == lookup(s, other),
        names_distinct(taken(s, name)),
        taken(s, name).len() == s.len() - (if lookup(s, name) is Some {
            1int
        } else {
            0int
        }),
{
    name_index_first(s, name);
    name_index_first(s, other);
    let i = name_index(s, name);
    let t = taken(s, name);
    if i < s.len() {
        assert forall|a: int, b: int| 0 <= a < b < t.len() implies (#[trigger] t[a]).0 != (
        #[trigger] t[b]).0 by {
            let x = if a < i {
                a
            } else {
                a + 1
            };
            let y = if b < i {
                b
            } else {
                b + 1
            };
            assert(t[a] == s[x] && t[b] == s[y]);
        }
        assert forall|j: int| 0 <= j < t.len() implies (#[trigger] t[j]).0 != name by {
            let x = if j < i {
                j
            } else {
                j + 1
            };
            assert(t[j] == s[x]);
            if x < i {
                assert(s[x].0 != s[i].0);
            } else {
                assert(s[i].0 != s[x].0);
            }
        }
        name_index_is(t, name, t.len() as int);
        if other != name {
            let x = name_index(s, other);
            let y = if x < i {
                x
            } else {
                x - 1
            };
            assert forall|j: int| 0 <= j < y implies (#[trigger] t[j]).0 != other by {
                if j < i {
                    assert(t[j] == s[j]);
                } else {
                    assert(t[j] == s[j + 1]);
                }
            }
            name_index_is(t, other, y);
        }
    }
}

/// Where no name comes twice, taking one out is taking out its place.
pub proof fn remaining_but_one(names: Seq<Seq<char>>, name: Seq<char>, i: int)
    requires
        names.no_duplicates(),
        0 <= i <= names.len(),
        i < names.len() ==> names[i] == name,
        i == names.len() ==> !names.contains(name),
    ensures
        remaining(names, seq![name]) == (if i < names.len() {
            names.remove(i)
        } else {
            names
        }),
    decreases names.len(),
{
    let own = seq![name];
    assert(own[0] == name);
    assert forall|n: Seq<char>| #[trigger] own.contains(n) <==> n == name by {
        if n == name {
            assert(own[0] == n);
        }
    }
    if names.len() > 0 {
        let rest = names.drop_first();
        assert(rest.no_duplicates()) by {
            assert forall|a: int, b: int|
                0 <= a < rest.len() && 0 <= b < rest.len() && a != b implies rest[a] != rest[b] by {
                assert(rest[a] == names[a + 1] && rest[b] == names[b + 1]);
            }
        }
        if i == 0 {
            assert(!rest.contains(name)) by {
                if rest.contains(name) {
                    let k = choose|k: int| 0 <= k < rest.len() && rest[k] == name;
                    assert(names[k + 1] == rest[k]);
                }
            }
            remaining_but_one(rest, name, rest.len() as int);
            assert(names.remove(0) =~= rest);
        } else {
            if i == names.len() {
                assert(!rest.contains(name)) by {
                    if rest.contains(name) {
                        let k = choose|k: int| 0 <= k < rest.len() && rest[k] == name;
                        assert(names[k + 1] == rest[k]);
                    }
                }
                assert(names.contains(names[0]));
            } else {
                assert(rest[i - 1] == names[i]);
                assert(names[0] != names[i]);
            }
            remaining_but_one(rest, name, i - 1);
            if i < names.len() {
                assert(seq![names[0]] + rest.remove(i - 1) =~= names.remove(i));
            } else {
                assert(seq![names[0]] + rest =~= names);
            }
        }
    } else {
        assert(remaining(names, own) =~= names);
    }
}

/// The names that remain are those that were there and are not gone; none comes
/// twice that did not before.
pub proof fn remaining_names(names: Seq<Seq<char>>, gone: Seq<Seq<char>>)
    ensures
        forall|n: Seq<char>| #[trigger]
            remaining(names, gone).contains(n) <==> names.contains(n) && !gone.contains(n),
        names.no_duplicates() ==> remaining(names, gone).no_duplicates(),
    decreases names.len(),
{
    if names.len() > 0 {
        let rest = names.drop_first();
        let kept = remaining(rest, gone);
        let all = remaining(names, gone);
        remaining_names(rest, gone);
        assert forall|n: Seq<char>| #[trigger] all.contains(n) <==> names.contains(n)
            && !gone.contains(n) by {
            assert(names.contains(n) <==> n == names[0] || rest.contains(n)) by {
                if rest.contains(n) {
                    let i = choose|i: int| 0 <= i < rest.len() && rest[i] == n;
                    assert(names[i + 1] == n);
                }
                if names.contains(n) && n != names[0] {
                    let i = choose|i: int| 0 <= i < names.len() && names[i] == n;
                    assert(rest[i - 1] == n);
                }
                if n == names[0] {
                    assert(names.contains(names[0]));
                }
            }
            if !gone.contains(names[0]) {
                assert(all.contains(n) <==> n == names[0] || kept.contains(n)) by {
                    if kept.contains(n) {
                        let i = choose|i: int| 0 <= i < kept.len() && kept[i] == n;
                        assert(all[i + 1] == n);
                    }
                    if all.contains(n) && n != names[0] {
                        let i = choose|i: int| 0 <= i < all.len() && all[i] == n;
                        assert(kept[i - 1] == n);
                    }
                    if n == names[0] {
                        assert(all[0] == n);
                    }
                }
                assert(kept.contains(n) <==> rest.contains(n) && !gone.contains(n));
            } else {
                assert(kept.contains(n) <==> rest.contains(n) && !gone.contains(n));
            }
        }
        if names.no_duplicates() {
            assert(rest.no_duplicates()) by {
                assert forall|a: int, b: int|
                    0 <= a < rest.len() && 0 <= b < rest.len() && a != b implies rest[a]
                    != rest[b] by {
                    assert(rest[a] == names[a + 1] && rest[b] == names[b + 1]);
                }
            }
            if !gone.contains(names[0]) {
                assert forall|a: int, b: int|
                    0 <= a < all.len() && 0 <= b < all.len() && a != b implies all[a] != all[b] by {
                    if a == 0 {
                        assert(all[b] == kept[b - 1]);
                        assert(kept.contains(kept[b - 1]));
                        let i = choose|i: int| 0 <= i < rest.len() && rest[i] == kept[b - 1];
                        assert(names[i + 1] == rest[i]);
                    } else if b == 0 {
                        assert(all[a] == kept[a - 1]);
                        assert(kept.contains(kept[a - 1]));
                        let i = choose|i: int| 0 <= i < rest.len() && rest[i] == kept[a - 1];
                        assert(names[i + 1] == rest[i]);
                    } else {
                        assert(all[a] == kept[a - 1] && all[b] == kept[b - 1]);
                    }
                }
            }
        }
    }
}

// ---------------------------------------------------------------------------
// Operations
// ---------------------------------------------------------------------------

/// The position of the first value of that name, or the number of values.
pub fn position<V>(v: &Vec<(String, V)>, name: &str) -> (r: usize)
    ensures
        r == name_index(named(v@), name@),
        r <= v@.len(),
{
    let ghost s = named(v@);
    let n: usize = v.len();
    let mut i: usize = 0;
    while i < n
        invariant
            i <= n,
            n == v@.len(),
            s == named(v@),
            forall|j: int| 0 <= j < i ==> (#[trigger] s[j]).0 != name@,
        decreases n - i,
    {
        assert(s[i as int].0 == v@[i as int].0@);
        if same_text(v[i].0.as_str(), name) {
            proof {
                name_index_is(s, name@, i as int);
            }
            return i;
        }
        i = i + 1;
    }
    proof {
        name_index_is(s, name@, n as int);
    }
    n
}

/// The value of that name.
pub fn value_of<V: Copy>(v: &Vec<(String, V)>, name: &str) -> (r: Option<V>)
    ensures
        r == lookup(named(v@), name@),
{
    let i: usize = position(v, name);
    if i < v.len() {
        Some(v[i].1)
    } else {
        None
    }
}

/// Sets the value of that name.
pub fn put_value<V>(v: &mut Vec<(String, V)>, name: &str, value: V)
    ensures
        named(final(v)@) == put(named(old(v)@), name@, value),
{
    let ghost before = named(v@);
    let i: usize = position(v, name);
    if i < v.len() {
        v.set(i, (name.to_owned(), value));
    } else {
        v.push((name.to_owned(), value));
    }
    assert(named(v@) =~= put(before, name@, value));
}

/// Takes out the first value of that name.
pub fn take_value<V>(v: &mut Vec<(String, V)>, name: &str)
    ensures
        named(final(v)@) == taken(named(old(v)@), name@),
{
    let ghost before = named(v@);
    let i: usize = position(v, name);
    if i < v.len() {
        let _ = v.remove(i);
        assert(named(v@) =~= before.remove(i as int));
    }
}

/// Whether a name is among `names`.
pub fn is_name(names: &Vec<String>, name: &str) -> (r: bool)
    ensures
        r == texts(names@).contains(name@),
{
    let ghost all = texts(names@);
    let n: usize = names.len();
    let mut i: usize = 0;
    while i < n
        invariant
            i <= n,
            n == names@.len(),
            all == texts(names@),
            forall|j: int| 0 <= j < i ==> all[j] != name@,
        decreases n - i,
    {
        if same_text(names[i].as_str(), name) {
            assert(all[i as int] == name@);
            return true;
        }
        assert(all[i as int] != name@);
        i = i + 1;
    }
    false
}

/// Takes out the values whose names are among `gone`.
pub fn take_out<V: Copy>(v: &Vec<(String, V)>, gone: &Vec<String>) -> (r: Vec<(String, V)>)
    ensures
        named(r@) == without(named(v@), texts(gone@)),
{
    let ghost s = named(v@);
    let ghost g = texts(gone@);
    let n: usize = v.len();
    let mut out: Vec<(String, V)> = Vec::new();
    let mut i: usize = 0;
    assert(s.skip(0) =~= s);
    assert(named(out@) + without(s, g) =~= without(s, g));
    while i < n
        invariant
            i <= n,
            n == v@.len(),
            s == named(v@),
            g == texts(gone@),
            named(out@) + without(s.skip(i as int), g) == without(s, g),
        decreases n - i,
    {
        let ghost rest = s.skip(i as int);
        let ghost kept = named(out@);
        assert(rest[0] == s[i as int]);
        assert(rest.drop_first() =~= s.skip(i + 1));
        if !is_name(gone, v[i].0.as_str()) {
            out.push((v[i].0.clone(), v[i].1));
            assert(named(out@) =~= kept.push(s[i as int]));
            assert(named(out@) + without(s.skip(i + 1), g) =~= kept + without(rest, g));
        }
        i = i + 1;
    }
    assert(s.skip(n as int) =~= Seq::empty());
    assert(named(out@) =~= without(s, g));
    out
}

/// Takes out the names that are among `gone`.
pub fn names_left(names: &Vec<String>, gone: &Vec<String>) -> (r: Vec<String>)
    ensures
        texts(r@) == remaining(texts(names@), texts(gone@)),
{
    let ghost s = texts(names@);
    let ghost g = texts(gone@);
    let n: usize = names.len();
    let mut out: Vec<String> = Vec::new();
    let mut i: usize = 0;
    assert(s.skip(0) =~= s);
    assert(texts(out@) + remaining(s, g) =~= remaining(s, g));
    while i < n
        invariant
            i <= n,
            n == names@.len(),
            s == texts(names@),
            g == texts(gone@),
            texts(out@) + remaining(s.skip(i as int), g) == remaining(s, g),
        decreases n - i,
    {
        let ghost rest = s.skip(i as int);
        let ghost kept = texts(out@);
        assert(rest[0] == s[i as int]);
        assert(rest.drop_first() =~= s.skip(i + 1));
        if !is_name(gone, names[i].as_str()) {
            out.push(names[i].clone());
            assert(texts(out@) =~= kept.push(s[i as int]));
            assert(texts(out@) + remaining(s.skip(i + 1), g) =~= kept + remaining(rest, g));
        }
        i = i + 1;
    }
    assert(s.skip(n as int) =~= Seq::empty());
    assert(texts(out@) =~= remaining(s, g));
    out
}

} // verus!
