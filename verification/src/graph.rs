//! Dependency graphs: order, and cycles where there is none.

use vstd::prelude::*;
use crate::order::distinct_bounded;
use crate::text::{same_text, text_before, text_lt, text_lt_irreflexive, text_lt_transitive};

verus! {

/// What each node needs, by position.
pub type Needs = Seq<Seq<int>>;

/// Whether every need is a node.
pub open spec fn within(needs: Needs) -> bool {
    forall|x: int, j: int|
        0 <= x < needs.len() && 0 <= j < needs[x].len() ==> 0 <= #[trigger] needs[x][j]
            < needs.len()
}

/// Whether a node can come next: it has not come yet, and all its needs have.
pub open spec fn ready(needs: Needs, done: Seq<int>, x: int) -> bool {
    &&& 0 <= x < needs.len()
    &&& !done.contains(x)
    &&& forall|j: int| 0 <= j < needs[x].len() ==> done.contains(#[trigger] needs[x][j])
}

/// Whether one node is preferred to another: by the first of their texts, and
/// by the second where the first are equal.
pub open spec fn preferred(keys: Seq<(Seq<char>, Seq<char>)>, x: int, y: int) -> bool {
    text_lt(keys[x].0, keys[y].0) || keys[x].0 == keys[y].0 && text_lt(keys[x].1, keys[y].1)
}

/// Whether a node comes next: it is ready, and preferred to all others that
/// are.
pub open spec fn comes_next(
    needs: Needs,
    keys: Seq<(Seq<char>, Seq<char>)>,
    done: Seq<int>,
    x: int,
) -> bool {
    ready(needs, done, x) && forall|y: int| #[trigger]
        ready(needs, done, y) && y != x ==> preferred(keys, x, y)
}

/// Whether nodes come in order, each when all its needs have come.
pub open spec fn in_turn(needs: Needs, keys: Seq<(Seq<char>, Seq<char>)>, r: Seq<int>) -> bool {
    forall|i: int| 0 <= i < r.len() ==> comes_next(needs, keys, r.take(i), #[trigger] r[i])
}

/// Whether no more nodes can come.
pub open spec fn stuck(needs: Needs, done: Seq<int>) -> bool {
    forall|x: int| !#[trigger] ready(needs, done, x)
}

/// Positions as numbers.
pub open spec fn numbers(v: Seq<usize>) -> Seq<int> {
    Seq::new(v.len(), |i: int| v[i] as int)
}

/// Lists of positions as numbers.
pub open spec fn number_lists(v: Seq<Vec<usize>>) -> Needs {
    Seq::new(v.len(), |i: int| numbers(v[i]@))
}

/// The texts of nodes.
pub open spec fn key_views(v: Seq<(String, String)>) -> Seq<(Seq<char>, Seq<char>)> {
    Seq::new(v.len(), |i: int| (v[i].0@, v[i].1@))
}

/// Whether the second texts of nodes tell them apart.
pub open spec fn told_apart(keys: Seq<(Seq<char>, Seq<char>)>) -> bool {
    forall|i: int, j: int|
        0 <= i < keys.len() && 0 <= j < keys.len() && i != j ==> (#[trigger] keys[i]).1 != (
        #[trigger] keys[j]).1
}

/// Whether a position is among others.
pub fn is_among(v: &Vec<usize>, x: usize) -> (r: bool)
    ensures
        r == numbers(v@).contains(x as int),
{
    let ghost all = numbers(v@);
    let mut i: usize = 0;
    while i < v.len()
        invariant
            i <= v@.len(),
            all == numbers(v@),
            forall|j: int| 0 <= j < i ==> all[j] != x,
        decreases v@.len() - i,
    {
        if v[i] == x {
            assert(all[i as int] == x);
            return true;
        }
        assert(all[i as int] != x);
        i = i + 1;
    }
    false
}

fn is_ready(needs: &Vec<Vec<usize>>, done: &Vec<usize>, x: usize) -> (r: bool)
    requires
        x < needs@.len(),
    ensures
        r == ready(number_lists(needs@), numbers(done@), x as int),
{
    let ghost n = number_lists(needs@);
    let ghost d = numbers(done@);
    if is_among(done, x) {
        return false;
    }
    let list = &needs[x];
    assert(n[x as int] == numbers(list@));
    let mut j: usize = 0;
    while j < list.len()
        invariant
            j <= list@.len(),
            x < n.len(),
            n == number_lists(needs@),
            d == numbers(done@),
            n[x as int] == numbers(list@),
            forall|k: int| 0 <= k < j ==> d.contains(#[trigger] n[x as int][k]),
        decreases list@.len() - j,
    {
        assert(n[x as int][j as int] == list@[j as int]);
        if !is_among(done, list[j]) {
            assert(!d.contains(n[x as int][j as int]));
            return false;
        }
        j = j + 1;
    }
    true
}

fn is_preferred(keys: &Vec<(String, String)>, x: usize, y: usize) -> (r: bool)
    requires
        x < keys@.len(),
        y < keys@.len(),
    ensures
        r == preferred(key_views(keys@), x as int, y as int),
{
    let ghost k = key_views(keys@);
    assert(k[x as int] == (keys@[x as int].0@, keys@[x as int].1@));
    assert(k[y as int] == (keys@[y as int].0@, keys@[y as int].1@));
    let a = &keys[x];
    let b = &keys[y];
    text_before(a.0.as_str(), b.0.as_str()) || (same_text(a.0.as_str(), b.0.as_str())
        && text_before(a.1.as_str(), b.1.as_str()))
}

/// Preference carries over, and of two nodes that are told apart one is
/// preferred.
proof fn preference(keys: Seq<(Seq<char>, Seq<char>)>, x: int, y: int, z: int)
    requires
        told_apart(keys),
        0 <= x < keys.len(),
        0 <= y < keys.len(),
        0 <= z < keys.len(),
    ensures
        preferred(keys, x, y) && preferred(keys, y, z) ==> preferred(keys, x, z),
        x != y ==> preferred(keys, x, y) || preferred(keys, y, x),
        !preferred(keys, x, x),
        preferred(keys, x, y) ==> !preferred(keys, y, x),
{
    text_lt_irreflexive(keys[x].0);
    text_lt_irreflexive(keys[x].1);
    if text_lt(keys[x].0, keys[y].0) && text_lt(keys[y].0, keys[z].0) {
        text_lt_transitive(keys[x].0, keys[y].0, keys[z].0);
    }
    if text_lt(keys[x].1, keys[y].1) && text_lt(keys[y].1, keys[z].1) {
        text_lt_transitive(keys[x].1, keys[y].1, keys[z].1);
    }
    if text_lt(keys[x].0, keys[y].0) && text_lt(keys[y].0, keys[x].0) {
        text_lt_transitive(keys[x].0, keys[y].0, keys[x].0);
    }
    if text_lt(keys[x].1, keys[y].1) && text_lt(keys[y].1, keys[x].1) {
        text_lt_transitive(keys[x].1, keys[y].1, keys[x].1);
    }
    crate::text::text_lt_total(keys[x].0, keys[y].0);
    crate::text::text_lt_total(keys[x].1, keys[y].1);
}

fn find_next(needs: &Vec<Vec<usize>>, keys: &Vec<(String, String)>, done: &Vec<usize>) -> (r:
    Option<usize>)
    requires
        keys@.len() == needs@.len(),
        told_apart(key_views(keys@)),
    ensures
        match r {
            Some(x) => comes_next(
                number_lists(needs@),
                key_views(keys@),
                numbers(done@),
                x as int,
            ),
            None => stuck(number_lists(needs@), numbers(done@)),
        },
{
    let ghost n = number_lists(needs@);
    let ghost k = key_views(keys@);
    let ghost d = numbers(done@);
    let mut best: Option<usize> = None;
    let mut i: usize = 0;
    while i < needs.len()
        invariant
            i <= needs@.len(),
            keys@.len() == needs@.len(),
            told_apart(k),
            n == number_lists(needs@),
            k == key_views(keys@),
            d == numbers(done@),
            match best {
                Some(b) => b < i && ready(n, d, b as int) && forall|y: int|
                    0 <= y < i && #[trigger] ready(n, d, y) && y != b ==> preferred(
                        k,
                        b as int,
                        y,
                    ),
                None => forall|y: int| 0 <= y < i ==> !#[trigger] ready(n, d, y),
            },
        decreases needs@.len() - i,
    {
        if is_ready(needs, done, i) {
            match best {
                None => {
                    best = Some(i);
                },
                Some(b) => {
                    if is_preferred(keys, i, b) {
                        proof {
                            assert forall|y: int|
                                0 <= y < i + 1 && #[trigger] ready(n, d, y) && y
                                    != i implies preferred(k, i as int, y) by {
                                if y != b {
                                    preference(k, i as int, b as int, y);
                                }
                            }
                        }
                        best = Some(i);
                    } else {
                        proof {
                            preference(k, i as int, b as int, b as int);
                        }
                    }
                },
            }
        }
        i = i + 1;
    }
    best
}

proof fn contains_push(s: Seq<int>, x: int)
    ensures
        forall|y: int| #[trigger] s.push(x).contains(y) <==> s.contains(y) || y == x,
{
    assert forall|y: int| #[trigger] s.push(x).contains(y) <==> s.contains(y) || y == x by {
        if s.contains(y) {
            let i = choose|i: int| 0 <= i < s.len() && s[i] == y;
            assert(s.push(x)[i] == y);
        }
        if y == x {
            assert(s.push(x)[s.len() as int] == y);
        }
    }
}

/// Nodes that come in turn are nodes, and none comes twice.
pub proof fn in_turn_distinct(needs: Needs, keys: Seq<(Seq<char>, Seq<char>)>, r: Seq<int>)
    requires
        in_turn(needs, keys, r),
    ensures
        r.no_duplicates(),
        forall|i: int| 0 <= i < r.len() ==> 0 <= #[trigger] r[i] < needs.len(),
        r.len() <= needs.len(),
{
    assert forall|i: int| 0 <= i < r.len() implies 0 <= #[trigger] r[i] < needs.len() by {
        assert(comes_next(needs, keys, r.take(i), r[i]));
    }
    assert forall|i: int, j: int| 0 <= i < r.len() && 0 <= j < r.len() && i != j implies r[i]
        != r[j] by {
        let (a, b) = if i < j {
            (i, j)
        } else {
            (j, i)
        };
        assert(comes_next(needs, keys, r.take(b), r[b]));
        assert(r.take(b)[a] == r[a]);
    }
    distinct_bounded(r, needs.len() as int);
}

/// The nodes in the order in which they come, as far as they do.
pub fn put_in_turn(needs: &Vec<Vec<usize>>, keys: &Vec<(String, String)>) -> (r: Vec<usize>)
    requires
        keys@.len() == needs@.len(),
        told_apart(key_views(keys@)),
    ensures
        in_turn(number_lists(needs@), key_views(keys@), numbers(r@)),
        stuck(number_lists(needs@), numbers(r@)),
        r@.len() <= needs@.len(),
        forall|i: int| 0 <= i < r@.len() ==> #[trigger] r@[i] < needs@.len(),
{
    let ghost n = number_lists(needs@);
    let ghost k = key_views(keys@);
    let mut done: Vec<usize> = Vec::new();
    proof {
        in_turn_distinct(n, k, numbers(done@));
    }
    loop
        invariant
            keys@.len() == needs@.len(),
            told_apart(k),
            n == number_lists(needs@),
            k == key_views(keys@),
            in_turn(n, k, numbers(done@)),
            done@.len() <= needs@.len(),
        decreases needs@.len() - done@.len(),
    {
        let ghost d = numbers(done@);
        match find_next(needs, keys, &done) {
            None => {
                proof {
                    in_turn_distinct(n, k, d);
                    assert forall|i: int| 0 <= i < done@.len() implies #[trigger] done@[i]
                        < needs@.len() by {
                        assert(d[i] == done@[i]);
                    }
                }
                return done;
            },
            Some(x) => {
                done.push(x);
                proof {
                    let e = numbers(done@);
                    assert(e =~= d.push(x as int));
                    assert forall|i: int| 0 <= i < e.len() implies comes_next(
                        n,
                        k,
                        e.take(i),
                        #[trigger] e[i],
                    ) by {
                        if i < d.len() {
                            assert(e.take(i) =~= d.take(i));
                            assert(comes_next(n, k, d.take(i), d[i]));
                        } else {
                            assert(e.take(i) =~= d);
                        }
                    }
                    in_turn_distinct(n, k, e);
                }
            },
        }
    }
}

/// The order is determined: two orders that come to their end are the same.
pub proof fn order_is_unique(
    needs: Needs,
    keys: Seq<(Seq<char>, Seq<char>)>,
    a: Seq<int>,
    b: Seq<int>,
    n: int,
)
    requires
        told_apart(keys),
        keys.len() == needs.len(),
        in_turn(needs, keys, a),
        in_turn(needs, keys, b),
        stuck(needs, a),
        stuck(needs, b),
        0 <= n <= a.len(),
    ensures
        n <= b.len(),
        a.take(n) == b.take(n),
        n == a.len() ==> a == b,
    decreases n,
{
    if n > 0 {
        order_is_unique(needs, keys, a, b, n - 1);
        let i = n - 1;
        assert(comes_next(needs, keys, a.take(i), a[i]));
        if b.len() == i {
            assert(b.take(i) =~= b);
            assert(!ready(needs, b, a[i]));
            assert(false);
        }
        assert(comes_next(needs, keys, b.take(i), b[i]));
        if a[i] != b[i] {
            preference(keys, a[i], b[i], a[i]);
        }
        assert(a.take(n) =~= b.take(n));
    } else {
        assert(a.take(0) =~= b.take(0));
    }
    if n == a.len() {
        assert(a.take(n) =~= a);
        if b.len() > n {
            assert(comes_next(needs, keys, b.take(n), b[n]));
            assert(!ready(needs, a, b[n]));
        }
        assert(b.take(n) =~= b);
    }
}

// ---------------------------------------------------------------------------
// Cycles
// ---------------------------------------------------------------------------

/// Whether each node of a path needs the next.
pub open spec fn linked(needs: Needs, path: Seq<int>) -> bool {
    &&& forall|i: int| 0 <= i < path.len() ==> 0 <= #[trigger] path[i] < needs.len()
    &&& forall|i: int|
        0 <= i < path.len() - 1 ==> (#[trigger] needs[path[i]]).contains(path[i + 1])
}

/// Whether a path is a cycle: it ends where it begins.
pub open spec fn is_cycle(needs: Needs, path: Seq<int>) -> bool {
    path.len() > 1 && linked(needs, path) && path[0] == path.last()
}

/// A way from the end of a path back to its beginning, over the needs from the
/// i-th on and over nodes that are not on the path.
pub open spec fn search(needs: Needs, path: Seq<int>, i: int) -> Option<Seq<int>>
    decreases needs.len() - path.len(), needs[path.last()].len() - i,
{
    if path.len() == 0 || i < 0 || i >= needs[path.last()].len() {
        None
    } else {
        let next = needs[path.last()][i];
        if next == path[0] {
            Some(path.push(next))
        } else if path.contains(next) || path.len() >= needs.len() {
            search(needs, path, i + 1)
        } else {
            match search(needs, path.push(next), 0) {
                Some(c) => Some(c),
                None => search(needs, path, i + 1),
            }
        }
    }
}

/// The number of moves of a search.
spec fn moves(needs: Needs, path: Seq<int>, i: int) -> nat
    decreases needs.len() - path.len(), needs[path.last()].len() - i,
{
    if path.len() == 0 || i < 0 || i >= needs[path.last()].len() {
        1
    } else {
        let next = needs[path.last()][i];
        if next == path[0] {
            1
        } else if path.contains(next) || path.len() >= needs.len() {
            1 + moves(needs, path, i + 1)
        } else {
            1 + moves(needs, path.push(next), 0) + moves(needs, path, i + 1)
        }
    }
}

/// A search that goes on from every node of a path, the last one first.
spec fn resumed(needs: Needs, path: Seq<int>, at: Seq<int>) -> Option<Seq<int>>
    decreases at.len(),
{
    if at.len() == 0 {
        None
    } else {
        match search(needs, path, at.last()) {
            Some(c) => Some(c),
            None => resumed(needs, path.drop_last(), at.drop_last()),
        }
    }
}

spec fn moves_left(needs: Needs, path: Seq<int>, at: Seq<int>) -> nat
    decreases at.len(),
{
    if at.len() == 0 {
        0
    } else {
        moves(needs, path, at.last()) + moves_left(needs, path.drop_last(), at.drop_last())
    }
}

/// Searches a way from a node back to itself.
fn find_way_back(needs: &Vec<Vec<usize>>, start: usize) -> (r: Option<Vec<usize>>)
    requires
        start < needs@.len(),
        within(number_lists(needs@)),
    ensures
        match r {
            Some(c) => search(number_lists(needs@), seq![start as int], 0) == Some(numbers(c@)),
            None => search(number_lists(needs@), seq![start as int], 0) is None,
        },
        r matches Some(c) ==> forall|i: int| 0 <= i < c@.len() ==> #[trigger] c@[i] < needs@.len(),
{
    let ghost n = number_lists(needs@);
    let mut path: Vec<usize> = Vec::new();
    let mut at: Vec<usize> = Vec::new();
    path.push(start);
    at.push(0);
    let ghost whole = search(n, seq![start as int], 0);
    proof {
        assert(numbers(path@) =~= seq![start as int]);
        assert(numbers(at@) =~= seq![0int]);
        assert(numbers(at@).drop_last() =~= Seq::empty());
        assert(resumed(n, numbers(path@).drop_last(), Seq::empty()) is None);
        assert(resumed(n, numbers(path@), numbers(at@)) == whole);
    }
    while path.len() > 0
        invariant
            n == number_lists(needs@),
            within(n),
            path@.len() == at@.len(),
            path@.len() <= needs@.len(),
            forall|j: int| 0 <= j < path@.len() ==> #[trigger] path@[j] < needs@.len(),
            whole == search(n, seq![start as int], 0),
            resumed(n, numbers(path@), numbers(at@)) == whole,
        decreases moves_left(n, numbers(path@), numbers(at@)),
    {
        let ghost p = numbers(path@);
        let ghost a = numbers(at@);
        let top: usize = path.len() - 1;
        let last: usize = path[top];
        let i: usize = at[top];
        assert(p.last() == last && a.last() == i);
        let list = &needs[last];
        assert(n[last as int] == numbers(list@));
        if i >= list.len() {
            path.pop();
            at.pop();
            assert(numbers(path@) =~= p.drop_last());
            assert(numbers(at@) =~= a.drop_last());
            assert(search(n, p, i as int) is None);
            assert(moves(n, p, i as int) == 1);
        } else {
            let next: usize = list[i];
            assert(n[last as int][i as int] == next);
            assert(0 <= n[last as int][i as int] < n.len());
            assert(p[0] == path@[0]);
            if next == path[0] {
                let ghost before = path@;
                path.push(next);
                assert(numbers(path@) =~= p.push(next as int));
                return Some(path);
            }
            let ghost b = a.update(top as int, i + 1);
            at.set(top, i + 1);
            assert(numbers(at@) =~= b);
            assert(b.drop_last() =~= a.drop_last());
            assert(b.last() == i + 1);
            let ghost rest = resumed(n, p.drop_last(), a.drop_last());
            let ghost left = moves_left(n, p.drop_last(), a.drop_last());
            assert(resumed(n, p, a) == (match search(n, p, i as int) {
                Some(c) => Some(c),
                None => rest,
            }));
            assert(resumed(n, p, b) == (match search(n, p, i + 1) {
                Some(c) => Some(c),
                None => rest,
            }));
            assert(moves_left(n, p, a) == moves(n, p, i as int) + left);
            assert(moves_left(n, p, b) == moves(n, p, i + 1) + left);
            if !is_among(&path, next) && path.len() < needs.len() {
                path.push(next);
                at.push(0);
                assert(numbers(path@) =~= p.push(next as int));
                assert(numbers(at@) =~= b.push(0));
                assert(p.push(next as int).drop_last() =~= p);
                assert(b.push(0).drop_last() =~= b);
            }
        }
    }
    proof {
        assert(numbers(at@) =~= Seq::empty());
    }
    None
}

/// What is found is a cycle.
proof fn search_finds_cycles(needs: Needs, path: Seq<int>, i: int)
    requires
        within(needs),
        linked(needs, path),
        path.len() > 0,
        0 <= i,
    ensures
        search(needs, path, i) matches Some(c) ==> is_cycle(needs, c) && c[0] == path[0],
    decreases needs.len() - path.len(), needs[path.last()].len() - i,
{
    if i < needs[path.last()].len() {
        let next = needs[path.last()][i];
        let longer = path.push(next);
        assert(linked(needs, longer)) by {
            assert forall|j: int| 0 <= j < longer.len() - 1 implies (
            #[trigger] needs[longer[j]]).contains(longer[j + 1]) by {
                if j < path.len() - 1 {
                    assert(longer[j] == path[j] && longer[j + 1] == path[j + 1]);
                    assert(needs[path[j]].contains(path[j + 1]));
                } else {
                    assert(longer[j] == path.last() && longer[j + 1] == next);
                    assert(needs[path.last()][i] == next);
                }
            }
            assert forall|j: int| 0 <= j < longer.len() implies 0 <= #[trigger] longer[j]
                < needs.len() by {
                if j < path.len() {
                    assert(longer[j] == path[j]);
                } else {
                    assert(0 <= path[path.len() - 1] < needs.len());
                }
            }
        }
        if next == path[0] {
        } else if path.contains(next) || path.len() >= needs.len() {
            search_finds_cycles(needs, path, i + 1);
        } else {
            search_finds_cycles(needs, longer, 0);
            search_finds_cycles(needs, path, i + 1);
        }
    }
}

/// Where there is a way back over nodes that are not on the path, the search
/// finds one.
proof fn search_misses_none(needs: Needs, path: Seq<int>, i: int, way: Seq<int>, first: int)
    requires
        within(needs),
        linked(needs, path),
        path.len() > 0,
        path.no_duplicates(),
        way.len() > 0,
        way.last() == path[0],
        0 <= i <= first < needs[path.last()].len(),
        needs[path.last()][first] == way[0],
        forall|j: int|
            0 <= j < way.len() - 1 ==> 0 <= #[trigger] way[j] < needs.len() && !path.contains(
                way[j],
            ),
        forall|j: int, k: int|
            0 <= j < k < way.len() - 1 ==> #[trigger] way[j] != #[trigger] way[k],
        forall|j: int|
            0 <= j < way.len() - 1 ==> (#[trigger] needs[way[j]]).contains(way[j + 1]),
    ensures
        search(needs, path, i) is Some,
    decreases way.len(), first - i,
{
    let next = needs[path.last()][i];
    assert(0 <= path[path.len() - 1] < needs.len());
    assert(0 <= next < needs.len());
    if next == path[0] {
    } else if i < first {
        search_misses_none(needs, path, i + 1, way, first);
    } else {
        assert(next == way[0]);
        assert(way.len() > 1);
        assert(!path.contains(way[0]));
        let longer = path.push(next);
        contains_push(path, next);
        assert(longer.no_duplicates());
        assert forall|j: int| 0 <= j < longer.len() implies 0 <= #[trigger] longer[j]
            < needs.len() by {
            if j < path.len() {
                assert(longer[j] == path[j]);
            }
        }
        distinct_bounded(longer, needs.len() as int);
        assert(linked(needs, longer)) by {
            assert forall|j: int| 0 <= j < longer.len() - 1 implies (
            #[trigger] needs[longer[j]]).contains(longer[j + 1]) by {
                if j < path.len() - 1 {
                    assert(longer[j] == path[j] && longer[j + 1] == path[j + 1]);
                    assert(needs[path[j]].contains(path[j + 1]));
                } else {
                    assert(longer[j] == path.last() && longer[j + 1] == next);
                    assert(needs[path.last()][i] == next);
                }
            }
        }
        let rest = way.drop_first();
        assert(needs[way[0]].contains(way[1]));
        let f = choose|f: int| 0 <= f < needs[way[0]].len() && needs[way[0]][f] == way[1];
        assert forall|j: int| 0 <= j < rest.len() - 1 implies 0 <= #[trigger] rest[j] < needs.len()
            && !longer.contains(rest[j]) by {
            assert(rest[j] == way[j + 1]);
            assert(way[0] != way[j + 1]);
        }
        assert forall|j: int, k: int| 0 <= j < k < rest.len() - 1 implies #[trigger] rest[j]
            != #[trigger] rest[k] by {
            assert(rest[j] == way[j + 1] && rest[k] == way[k + 1]);
        }
        assert forall|j: int| 0 <= j < rest.len() - 1 implies (#[trigger] needs[rest[j]]).contains(
            rest[j + 1],
        ) by {
            assert(rest[j] == way[j + 1] && rest[j + 1] == way[j + 2]);
            assert(needs[way[j + 1]].contains(way[j + 1 + 1]));
        }
        search_misses_none(needs, longer, 0, rest, f);
    }
}

/// The first cycle that is found from one of the first `n` nodes of a list.
pub open spec fn first_cycle(needs: Needs, from: Seq<int>, n: int) -> Option<Seq<int>>
    decreases n,
{
    if n <= 0 {
        None
    } else {
        match first_cycle(needs, from, n - 1) {
            Some(c) => Some(c),
            None => search(needs, seq![from[n - 1]], 0),
        }
    }
}

/// A cycle among nodes, searched from each of them in turn.
pub fn find_cycle(needs: &Vec<Vec<usize>>, from: &Vec<usize>) -> (r: Option<Vec<usize>>)
    requires
        within(number_lists(needs@)),
        forall|i: int| 0 <= i < from@.len() ==> #[trigger] from@[i] < needs@.len(),
    ensures
        match r {
            Some(c) => first_cycle(number_lists(needs@), numbers(from@), from@.len() as int)
                == Some(numbers(c@)),
            None => first_cycle(
                number_lists(needs@),
                numbers(from@),
                from@.len() as int,
            ) is None,
        },
        r matches Some(c) ==> forall|i: int| 0 <= i < c@.len() ==> #[trigger] c@[i] < needs@.len(),
{
    let ghost n = number_lists(needs@);
    let ghost f = numbers(from@);
    let mut i: usize = 0;
    while i < from.len()
        invariant
            i <= from@.len(),
            n == number_lists(needs@),
            f == numbers(from@),
            within(n),
            forall|j: int| 0 <= j < from@.len() ==> #[trigger] from@[j] < needs@.len(),
            first_cycle(n, f, i as int) is None,
        decreases from@.len() - i,
    {
        assert(f[i as int] == from@[i as int]);
        match find_way_back(needs, from[i]) {
            Some(c) => {
                proof {
                    first_cycle_stays(n, f, i + 1, f.len() as int);
                }
                return Some(c);
            },
            None => {},
        }
        i = i + 1;
    }
    None
}

proof fn first_cycle_stays(needs: Needs, from: Seq<int>, n: int, m: int)
    requires
        0 <= n <= m,
        first_cycle(needs, from, n) is Some,
    ensures
        first_cycle(needs, from, m) == first_cycle(needs, from, n),
    decreases m,
{
    if n < m {
        first_cycle_stays(needs, from, n, m - 1);
    }
}

/// A cycle that is found is one.
pub proof fn found_cycles_are_cycles(needs: Needs, from: Seq<int>, n: int)
    requires
        within(needs),
        0 <= n <= from.len(),
        forall|i: int| 0 <= i < from.len() ==> 0 <= #[trigger] from[i] < needs.len(),
    ensures
        first_cycle(needs, from, n) matches Some(c) ==> is_cycle(needs, c),
    decreases n,
{
    if n > 0 {
        found_cycles_are_cycles(needs, from, n - 1);
        search_finds_cycles(needs, seq![from[n - 1]], 0);
    }
}

/// What nodes need of those that have not come.
pub open spec fn left_over(needs: Needs, done: Seq<int>) -> Needs {
    Seq::new(needs.len(), |x: int| not_among(needs[x], done, needs[x].len() as int))
}

/// Those of the first `n` nodes of a list that have not come.
pub open spec fn not_among(list: Seq<int>, done: Seq<int>, n: int) -> Seq<int>
    decreases n,
{
    if n <= 0 {
        Seq::empty()
    } else if done.contains(list[n - 1]) {
        not_among(list, done, n - 1)
    } else {
        not_among(list, done, n - 1).push(list[n - 1])
    }
}

fn keep_left(list: &Vec<usize>, done: &Vec<usize>) -> (r: Vec<usize>)
    ensures
        numbers(r@) == not_among(numbers(list@), numbers(done@), list@.len() as int),
{
    let ghost l = numbers(list@);
    let ghost d = numbers(done@);
    let mut out: Vec<usize> = Vec::new();
    let mut i: usize = 0;
    assert(numbers(out@) =~= Seq::empty());
    while i < list.len()
        invariant
            i <= list@.len(),
            l == numbers(list@),
            d == numbers(done@),
            numbers(out@) == not_among(l, d, i as int),
        decreases list@.len() - i,
    {
        assert(l[i as int] == list@[i as int]);
        if !is_among(done, list[i]) {
            let ghost before = numbers(out@);
            out.push(list[i]);
            assert(numbers(out@) =~= before.push(l[i as int]));
        }
        i = i + 1;
    }
    out
}

/// What nodes need of those that have not come.
pub fn find_left_over(needs: &Vec<Vec<usize>>, done: &Vec<usize>) -> (r: Vec<Vec<usize>>)
    ensures
        number_lists(r@) == left_over(number_lists(needs@), numbers(done@)),
{
    let ghost n = number_lists(needs@);
    let ghost d = numbers(done@);
    let mut out: Vec<Vec<usize>> = Vec::new();
    let mut i: usize = 0;
    while i < needs.len()
        invariant
            i <= needs@.len(),
            n == number_lists(needs@),
            d == numbers(done@),
            out@.len() == i,
            forall|j: int|
                0 <= j < i ==> numbers((#[trigger] out@[j])@) == not_among(
                    n[j],
                    d,
                    n[j].len() as int,
                ),
        decreases needs@.len() - i,
    {
        assert(n[i as int] == numbers(needs@[i as int]@));
        let part = keep_left(&needs[i], done);
        out.push(part);
        i = i + 1;
    }
    assert(number_lists(out@) =~= left_over(n, d));
    out
}

/// What is left over are needs that have not come.
proof fn not_among_members(list: Seq<int>, done: Seq<int>, n: int)
    requires
        0 <= n <= list.len(),
    ensures
        forall|k: int|
            0 <= k < not_among(list, done, n).len() ==> !done.contains(
                #[trigger] not_among(list, done, n)[k],
            ) && list.contains(not_among(list, done, n)[k]),
        (exists|j: int| 0 <= j < n && !done.contains(#[trigger] list[j])) ==> not_among(
            list,
            done,
            n,
        ).len() > 0,
    decreases n,
{
    if n > 0 {
        not_among_members(list, done, n - 1);
        let before = not_among(list, done, n - 1);
        let now = not_among(list, done, n);
        assert forall|k: int| 0 <= k < now.len() implies !done.contains(#[trigger] now[k])
            && list.contains(now[k]) by {
            if k < before.len() {
                assert(now[k] == before[k]);
            } else {
                assert(now[k] == list[n - 1]);
            }
        }
        if exists|j: int| 0 <= j < n && !done.contains(#[trigger] list[j]) {
            let j = choose|j: int| 0 <= j < n && !done.contains(#[trigger] list[j]);
            if j < n - 1 {
                assert(before.len() > 0);
            }
        }
    }
}

/// What is left over are nodes.
pub proof fn left_over_within(needs: Needs, done: Seq<int>)
    requires
        within(needs),
    ensures
        within(left_over(needs, done)),
        left_over(needs, done).len() == needs.len(),
{
    let l = left_over(needs, done);
    assert forall|x: int, j: int| 0 <= x < l.len() && 0 <= j < l[x].len() implies 0
        <= #[trigger] l[x][j] < l.len() by {
        not_among_members(needs[x], done, needs[x].len() as int);
        assert(needs[x].contains(l[x][j]));
        let k = choose|k: int| 0 <= k < needs[x].len() && needs[x][k] == l[x][j];
        assert(0 <= needs[x][k] < needs.len());
    }
}

/// A walk along the first of what is left over.
spec fn walk(left: Needs, x: int, n: int) -> Seq<int>
    decreases n,
{
    if n <= 0 {
        seq![x]
    } else {
        let w = walk(left, x, n - 1);
        w.push(left[w.last()][0])
    }
}

proof fn walk_goes_on(needs: Needs, done: Seq<int>, x: int, n: int)
    requires
        within(needs),
        stuck(needs, done),
        0 <= x < needs.len(),
        !done.contains(x),
        0 <= n,
    ensures
        ({
            let left = left_over(needs, done);
            let w = walk(left, x, n);
            &&& w.len() == n + 1
            &&& forall|i: int|
                0 <= i < w.len() ==> 0 <= #[trigger] w[i] < needs.len() && !done.contains(w[i])
                    && left[w[i]].len() > 0
            &&& forall|i: int| 0 <= i < w.len() - 1 ==> left[#[trigger] w[i]][0] == w[i + 1]
        }),
    decreases n,
{
    let left = left_over(needs, done);
    let w = walk(left, x, n);
    let y = if n == 0 {
        x
    } else {
        let v = walk(left, x, n - 1);
        walk_goes_on(needs, done, x, n - 1);
        assert(0 <= v[v.len() - 1] < needs.len() && left[v[v.len() - 1]].len() > 0);
        not_among_members(needs[v.last()], done, needs[v.last()].len() as int);
        left_over_within(needs, done);
        assert(0 <= left[v.last()][0] < left.len());
        left[v.last()][0]
    };
    assert(!ready(needs, done, y));
    let j = choose|j: int| 0 <= j < needs[y].len() && !done.contains(#[trigger] needs[y][j]);
    assert(!done.contains(needs[y][j]));
    not_among_members(needs[y], done, needs[y].len() as int);
    if n > 0 {
        let v = walk(left, x, n - 1);
        assert forall|i: int| 0 <= i < w.len() implies 0 <= #[trigger] w[i] < needs.len()
            && !done.contains(w[i]) && left[w[i]].len() > 0 by {
            if i < v.len() {
                assert(w[i] == v[i]);
            } else {
                assert(w[i] == y);
            }
        }
        assert forall|i: int| 0 <= i < w.len() - 1 implies left[#[trigger] w[i]][0] == w[i + 1] by {
            assert(w[i] == v[i]);
            if i < v.len() - 1 {
                assert(w[i + 1] == v[i + 1]);
            }
        }
    }
}

/// A sequence without repetition, or its first repetition.
proof fn first_repetition(w: Seq<int>, n: int) -> (r: (int, int))
    requires
        0 <= n <= w.len(),
        !w.take(n).no_duplicates(),
    ensures
        0 <= r.0 < r.1 < n,
        w[r.0] == w[r.1],
        w.take(r.1).no_duplicates(),
    decreases n,
{
    if w.take(n - 1).no_duplicates() {
        let (i, j) = choose|i: int, j: int|
            0 <= i < n && 0 <= j < n && i != j && w.take(n)[i] == w.take(n)[j];
        let (a, b) = if i < j {
            (i, j)
        } else {
            (j, i)
        };
        if b < n - 1 {
            assert(w.take(n - 1)[a] == w.take(n)[a]);
            assert(w.take(n - 1)[b] == w.take(n)[b]);
            assert(false);
        }
        assert(w.take(n)[a] == w[a] && w.take(n)[b] == w[b]);
        (a, b)
    } else {
        first_repetition(w, n - 1)
    }
}

/// A walk that comes back to a node shows a way from that node to itself.
proof fn way_back_is_found(left: Needs, w: Seq<int>, i: int, j: int)
    requires
        within(left),
        0 <= i < j < w.len(),
        w[i] == w[j],
        w.take(j).no_duplicates(),
        forall|k: int| 0 <= k < w.len() ==> 0 <= #[trigger] w[k] < left.len(),
        forall|k: int| 0 <= k < w.len() ==> (#[trigger] left[w[k]]).len() > 0,
        forall|k: int| 0 <= k < w.len() - 1 ==> left[#[trigger] w[k]][0] == w[k + 1],
    ensures
        search(left, seq![w[i]], 0) is Some,
{
    let s = w[i];
    let way = w.subrange(i + 1, j + 1);
    let path = seq![s];
    let d = w.take(j);
    assert(left[w[i]][0] == w[i + 1]);
    assert forall|k: int| 0 <= k < way.len() - 1 implies 0 <= #[trigger] way[k] < left.len()
        && !path.contains(way[k]) by {
        assert(way[k] == w[i + 1 + k]);
        assert(d[i + 1 + k] == w[i + 1 + k] && d[i] == w[i]);
    }
    assert forall|k: int, m: int| 0 <= k < m < way.len() - 1 implies #[trigger] way[k]
        != #[trigger] way[m] by {
        assert(way[k] == w[i + 1 + k] && way[m] == w[i + 1 + m]);
        assert(d[i + 1 + k] == w[i + 1 + k] && d[i + 1 + m] == w[i + 1 + m]);
    }
    assert forall|k: int| 0 <= k < way.len() - 1 implies (#[trigger] left[way[k]]).contains(
        way[k + 1],
    ) by {
        let here = i + 1 + k;
        assert(way[k] == w[here] && way[k + 1] == w[here + 1]);
        assert(left[w[here]][0] == w[here + 1]);
    }
    assert(linked(left, path));
    search_misses_none(left, path, 0, way, 0);
}

/// Where nodes are left over, a cycle among them is found.
pub proof fn what_is_left_holds_a_cycle(needs: Needs, done: Seq<int>, from: Seq<int>, x: int)
    requires
        within(needs),
        stuck(needs, done),
        0 <= x < needs.len(),
        !done.contains(x),
        forall|y: int| 0 <= y < needs.len() && !done.contains(y) ==> from.contains(y),
    ensures
        first_cycle(left_over(needs, done), from, from.len() as int) is Some,
{
    let left = left_over(needs, done);
    let n = needs.len() as int;
    let w = walk(left, x, n);
    walk_goes_on(needs, done, x, n);
    left_over_within(needs, done);
    assert(w.take(w.len() as int) =~= w);
    if w.no_duplicates() {
        distinct_bounded(w, n);
    }
    let (i, j) = first_repetition(w, w.len() as int);
    way_back_is_found(left, w, i, j);
    let s = w[i];
    assert(from.contains(s));
    let t = choose|t: int| 0 <= t < from.len() && from[t] == s;
    cycle_from_any(left, from, t);
}

proof fn cycle_from_any(needs: Needs, from: Seq<int>, t: int)
    requires
        0 <= t < from.len(),
        search(needs, seq![from[t]], 0) is Some,
    ensures
        first_cycle(needs, from, from.len() as int) is Some,
{
    if first_cycle(needs, from, t) is Some {
        first_cycle_stays(needs, from, t, from.len() as int);
    } else {
        assert(first_cycle(needs, from, t + 1) is Some);
        first_cycle_stays(needs, from, t + 1, from.len() as int);
    }
}

/// As many distinct nodes as there are include every node.
pub proof fn all_distinct_is_all(s: Seq<int>, n: int, x: int)
    requires
        s.no_duplicates(),
        forall|i: int| 0 <= i < s.len() ==> 0 <= #[trigger] s[i] < n,
        s.len() == n,
        0 <= x < n,
    ensures
        s.contains(x),
{
    if !s.contains(x) {
        let t = s.push(x);
        contains_push(s, x);
        assert(t.no_duplicates());
        assert forall|i: int| 0 <= i < t.len() implies 0 <= #[trigger] t[i] < n by {
            if i < s.len() {
                assert(t[i] == s[i]);
            }
        }
        distinct_bounded(t, n);
    }
}

/// In an order, every node comes after all its needs.
pub proof fn needs_come_first(
    needs: Needs,
    keys: Seq<(Seq<char>, Seq<char>)>,
    r: Seq<int>,
    i: int,
    x: int,
)
    requires
        in_turn(needs, keys, r),
        0 <= i < r.len(),
        needs[r[i]].contains(x),
    ensures
        exists|j: int| 0 <= j < i && r[j] == x,
{
    assert(comes_next(needs, keys, r.take(i), r[i]));
    let k = choose|k: int| 0 <= k < needs[r[i]].len() && needs[r[i]][k] == x;
    assert(r.take(i).contains(needs[r[i]][k]));
    let j = choose|j: int| 0 <= j < r.take(i).len() && r.take(i)[j] == x;
    assert(r[j] == x);
}

/// The nodes of a cycle never come.
pub proof fn cycles_never_come(
    needs: Needs,
    keys: Seq<(Seq<char>, Seq<char>)>,
    r: Seq<int>,
    path: Seq<int>,
    n: int,
)
    requires
        in_turn(needs, keys, r),
        is_cycle(needs, path),
        0 <= n <= r.len(),
    ensures
        forall|i: int, k: int|
            0 <= i < n && 0 <= k < path.len() ==> #[trigger] r[i] != #[trigger] path[k],
    decreases n,
{
    if n > 0 {
        cycles_never_come(needs, keys, r, path, n - 1);
        assert forall|i: int, k: int| 0 <= i < n && 0 <= k < path.len() implies #[trigger] r[i]
            != #[trigger] path[k] by {
            if r[i] == path[k] {
                let m = if k == path.len() - 1 {
                    0
                } else {
                    k
                };
                assert(r[i] == path[m]);
                assert(needs[path[m]].contains(path[m + 1]));
                needs_come_first(needs, keys, r, i, path[m + 1]);
                let j = choose|j: int| 0 <= j < i && r[j] == path[m + 1];
                assert(r[j] != path[m + 1]);
            }
        }
    }
}

/// Every node comes exactly where there is no cycle.
pub proof fn complete_without_cycles(
    needs: Needs,
    keys: Seq<(Seq<char>, Seq<char>)>,
    r: Seq<int>,
)
    requires
        within(needs),
        in_turn(needs, keys, r),
        stuck(needs, r),
    ensures
        r.len() == needs.len() <==> forall|path: Seq<int>| !#[trigger] is_cycle(needs, path),
{
    in_turn_distinct(needs, keys, r);
    if r.len() == needs.len() {
        assert forall|path: Seq<int>| !#[trigger] is_cycle(needs, path) by {
            if is_cycle(needs, path) {
                all_distinct_is_all(r, needs.len() as int, path[0]);
                let i = choose|i: int| 0 <= i < r.len() && r[i] == path[0];
                cycles_never_come(needs, keys, r, path, r.len() as int);
                assert(r[i] != path[0]);
            }
        }
    } else {
        let all = Seq::new(needs.len(), |y: int| y);
        let x = someone_missing(r, needs.len() as int);
        assert forall|y: int| 0 <= y < needs.len() && !r.contains(y) implies all.contains(y) by {
            assert(all[y] == y);
        }
        what_is_left_holds_a_cycle(needs, r, all, x);
        let left = left_over(needs, r);
        left_over_within(needs, r);
        found_cycles_are_cycles(left, all, all.len() as int);
        let c = first_cycle(left, all, all.len() as int)->0;
        left_over_cycles(needs, r, c);
    }
}

/// A cycle among what is left over is a cycle.
pub proof fn left_over_cycles(needs: Needs, done: Seq<int>, c: Seq<int>)
    requires
        is_cycle(left_over(needs, done), c),
    ensures
        is_cycle(needs, c),
{
    let left = left_over(needs, done);
    assert forall|i: int| 0 <= i < c.len() - 1 implies (#[trigger] needs[c[i]]).contains(
        c[i + 1],
    ) by {
        assert(left[c[i]].contains(c[i + 1]));
        not_among_members(needs[c[i]], done, needs[c[i]].len() as int);
        let l = not_among(needs[c[i]], done, needs[c[i]].len() as int);
        let k = choose|k: int| 0 <= k < l.len() && l[k] == c[i + 1];
        assert(needs[c[i]].contains(l[k]));
    }
}

/// Of fewer nodes than there are, one is missing.
pub proof fn someone_missing(s: Seq<int>, n: int) -> (x: int)
    requires
        s.len() < n,
    ensures
        0 <= x < n,
        !s.contains(x),
{
    if forall|x: int| 0 <= x < n ==> s.contains(x) {
        covers_all(s, n);
    }
    choose|x: int| 0 <= x < n && !s.contains(x)
}

/// Nodes that include every node are no fewer than there are.
proof fn covers_all(s: Seq<int>, n: int)
    requires
        0 <= n,
        forall|x: int| 0 <= x < n ==> s.contains(x),
    ensures
        s.len() >= n,
{
    let positions = Seq::new(
        n as nat,
        |x: int| choose|i: int| 0 <= i < s.len() && s[i] == x,
    );
    assert forall|x: int| 0 <= x < n implies 0 <= #[trigger] positions[x] < s.len()
        && s[positions[x]] == x by {
        assert(s.contains(x));
    }
    assert(positions.no_duplicates());
    distinct_bounded(positions, s.len() as int);
}

/// Of the first `n` nodes, the one that is ready and preferred to all others
/// that are.
proof fn best_of(
    needs: Needs,
    keys: Seq<(Seq<char>, Seq<char>)>,
    done: Seq<int>,
    n: int,
) -> (r: Option<int>)
    requires
        told_apart(keys),
        keys.len() == needs.len(),
        0 <= n <= needs.len(),
    ensures
        match r {
            Some(b) => 0 <= b < n && ready(needs, done, b) && forall|y: int|
                0 <= y < n && #[trigger] ready(needs, done, y) && y != b ==> preferred(keys, b, y),
            None => forall|y: int| 0 <= y < n ==> !#[trigger] ready(needs, done, y),
        },
    decreases n,
{
    if n == 0 {
        None
    } else {
        let x = n - 1;
        let before = best_of(needs, keys, done, n - 1);
        if !ready(needs, done, x) {
            before
        } else {
            match before {
                None => Some(x),
                Some(b) => {
                    preference(keys, x, b, b);
                    if preferred(keys, x, b) {
                        assert forall|y: int|
                            0 <= y < n && #[trigger] ready(needs, done, y) && y
                                != x implies preferred(keys, x, y) by {
                            if y != b {
                                preference(keys, x, b, y);
                            }
                        }
                        Some(x)
                    } else {
                        Some(b)
                    }
                },
            }
        }
    }
}

/// There is an order that comes to its end.
pub proof fn an_order_exists(
    needs: Needs,
    keys: Seq<(Seq<char>, Seq<char>)>,
    done: Seq<int>,
) -> (r: Seq<int>)
    requires
        told_apart(keys),
        keys.len() == needs.len(),
        in_turn(needs, keys, done),
    ensures
        in_turn(needs, keys, r),
        stuck(needs, r),
    decreases needs.len() - done.len(),
{
    in_turn_distinct(needs, keys, done);
    match best_of(needs, keys, done, needs.len() as int) {
        None => done,
        Some(x) => {
            let e = done.push(x);
            assert forall|i: int| 0 <= i < e.len() implies comes_next(
                needs,
                keys,
                e.take(i),
                #[trigger] e[i],
            ) by {
                if i < done.len() {
                    assert(e.take(i) =~= done.take(i));
                    assert(comes_next(needs, keys, done.take(i), done[i]));
                } else {
                    assert(e.take(i) =~= done);
                }
            }
            in_turn_distinct(needs, keys, e);
            an_order_exists(needs, keys, e)
        },
    }
}

} // verus!
