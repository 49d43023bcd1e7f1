//! Compilation and execution in two phases.
//!
//! The patches of each profile run on a copy of the base configuration; the
//! copies are merged, and the shared patches run on the result.  A dependency
//! that this order cannot honour is refused.

use vstd::prelude::*;
use crate::compiler::{
    all_patches, id_index, id_views, patch_ids, queried_file, resolution, tells, FileView,
    PatchCompiler,
};
use crate::error::{five, PrismError};
use crate::executor::{
    by_priority, group_views, may_pipeline, pipeline_at, priorities, PatchExecutor,
};
use crate::ir::{patch_ref_views, DepView, DependencyRef, Patch, PatchId, PatchView};
use crate::order::{
    arranged, indices, order_by, order_by_sorts, permutes, sorted_positions, sorted_text_positions,
    str_texts, text_order,
};
use crate::scope::{scope_priority, Scope, ScopeView, TimeOfDay};
use crate::text::same_text;
use crate::trace::{trace_views, ExecutionTrace};
use crate::value::Document;

verus! {

// ---------------------------------------------------------------------------
// Groups
// ---------------------------------------------------------------------------

/// The profile that a patch is for.
pub open spec fn profile_of(p: PatchView) -> Option<Seq<char>> {
    match p.scope {
        ScopeView::Profile(n) => Some(n),
        _ => None,
    }
}

/// The profiles of the first `n` patches, each where it appears first.
pub open spec fn profiles(all: Seq<PatchView>, n: int) -> Seq<Seq<char>>
    decreases n,
{
    if n <= 0 {
        Seq::empty()
    } else {
        let before = profiles(all, n - 1);
        match profile_of(all[n - 1]) {
            Some(name) => if before.contains(name) {
                before
            } else {
                before.push(name)
            },
            None => before,
        }
    }
}

/// Those of the first `n` patches that are for a profile, or for none.
pub open spec fn patches_for(all: Seq<PatchView>, profile: Option<Seq<char>>, n: int) -> Seq<
    PatchView,
>
    decreases n,
{
    if n <= 0 {
        Seq::empty()
    } else if profile_of(all[n - 1]) == profile {
        patches_for(all, profile, n - 1).push(all[n - 1])
    } else {
        patches_for(all, profile, n - 1)
    }
}

/// The places of patches in an order.
pub open spec fn ranks(list: Seq<PatchView>, order: Seq<Seq<char>>) -> Seq<int> {
    Seq::new(list.len(), |i: int| id_index(order, list[i].id))
}

/// Patches in the order of their dependencies.
pub open spec fn ranked(list: Seq<PatchView>, order: Seq<Seq<char>>) -> Seq<PatchView> {
    arranged(list, order_by(ranks(list, order)))
}

/// The profiles in the order of their names.
pub open spec fn sorted_profiles(all: Seq<PatchView>) -> Seq<Seq<char>> {
    let names = profiles(all, all.len() as int);
    arranged(names, text_order(names))
}

/// The patches of each profile, in the order of their dependencies.
pub open spec fn profile_groups(all: Seq<PatchView>, order: Seq<Seq<char>>) -> Seq<
    (Seq<char>, Seq<PatchView>),
> {
    let names = sorted_profiles(all);
    Seq::new(
        names.len(),
        |i: int| (names[i], ranked(patches_for(all, Some(names[i]), all.len() as int), order)),
    )
}

/// The shared patches, in the order of their dependencies.
pub open spec fn shared_patches(all: Seq<PatchView>, order: Seq<Seq<char>>) -> Seq<PatchView> {
    ranked(patches_for(all, None, all.len() as int), order)
}

/// The profile patches of the first `n` groups, with the names of their groups.
pub open spec fn members(groups: Seq<(Seq<char>, Seq<PatchView>)>, n: int) -> Seq<
    (Seq<char>, PatchView),
>
    decreases n,
{
    if n <= 0 {
        Seq::empty()
    } else {
        let g = groups[n - 1];
        members(groups, n - 1) + Seq::new(g.1.len(), |i: int| (g.0, g.1[i]))
    }
}

// ---------------------------------------------------------------------------
// Dependencies between groups
// ---------------------------------------------------------------------------

/// The patches that a dependency names, as far as it names any.
pub open spec fn dep_ids(files: Seq<FileView>, dep: DepView) -> Seq<Seq<char>> {
    match dep {
        DepView::PatchId(id) => seq![id],
        DepView::FileName(name) => match queried_file(files, name) {
            Some(i) => patch_ids(files[i].patches),
            None => Seq::empty(),
        },
    }
}

/// The group of a profile patch.
pub open spec fn group_of(list: Seq<(Seq<char>, PatchView)>, id: Seq<char>) -> Option<Seq<char>>
    decreases list.len(),
{
    if list.len() == 0 {
        None
    } else if list[0].1.id == id {
        Some(list[0].0)
    } else {
        group_of(list.drop_first(), id)
    }
}

/// The first group other than `own` among those of the first `n` patches.
pub open spec fn other_group(
    list: Seq<(Seq<char>, PatchView)>,
    own: Seq<char>,
    ids: Seq<Seq<char>>,
    n: int,
) -> Option<Seq<char>>
    decreases n,
{
    if n <= 0 {
        None
    } else {
        match other_group(list, own, ids, n - 1) {
            Some(g) => Some(g),
            None => match group_of(list, ids[n - 1]) {
                Some(g) => if g == own {
                    None
                } else {
                    Some(g)
                },
                None => None,
            },
        }
    }
}

/// The message for a dependency between groups.
pub open spec fn cross_group_text(id: Seq<char>, own: Seq<char>, other: Seq<char>) -> Seq<char> {
    "跨 Profile 组依赖不允许: Patch '"@ + id + "' (Profile '"@ + own + "') 依赖 Profile '"@ + other
        + "' 中的 Patch。Profile 组在 Phase 1 中并发执行，跨组依赖无法保证顺序。请将相关 Patch 移至同一 Profile 组或改用 Shared 级 Scope。"@
}

/// The message for the first of the first `n` dependencies of a patch that
/// leads to another group.
pub open spec fn cross_group_dep(
    files: Seq<FileView>,
    list: Seq<(Seq<char>, PatchView)>,
    own: Seq<char>,
    p: PatchView,
    n: int,
) -> Option<Seq<char>>
    decreases n,
{
    if n <= 0 {
        None
    } else {
        match cross_group_dep(files, list, own, p, n - 1) {
            Some(m) => Some(m),
            None => {
                let ids = dep_ids(files, p.after[n - 1]);
                match other_group(list, own, ids, ids.len() as int) {
                    Some(g) => Some(cross_group_text(p.id, own, g)),
                    None => None,
                }
            },
        }
    }
}

/// The message for the first of the first `n` profile patches that depends on
/// one of another group.
pub open spec fn cross_group(
    files: Seq<FileView>,
    list: Seq<(Seq<char>, PatchView)>,
    n: int,
) -> Option<Seq<char>>
    decreases n,
{
    if n <= 0 {
        None
    } else {
        match cross_group(files, list, n - 1) {
            Some(m) => Some(m),
            None => cross_group_dep(
                files,
                list,
                list[n - 1].0,
                list[n - 1].1,
                list[n - 1].1.after.len() as int,
            ),
        }
    }
}

/// The message for a dependency of a profile patch on a shared one.
pub open spec fn cross_phase_text(id: Seq<char>, own: Seq<char>, other: Seq<char>) -> Seq<char> {
    "跨阶段依赖不允许: Profile Patch '"@ + id + "' (Profile '"@ + own + "') 依赖 Shared Patch '"@
        + other
        + "'。Profile 在 Phase 1 先于 Phase 2 的 Shared 执行，此依赖无法满足。请将依赖的 Patch 改为 Profile 级 Scope，或将依赖方移至 Shared 级。"@
}

/// The first of the first `n` patches that is shared.
pub open spec fn first_shared(shared: Seq<Seq<char>>, ids: Seq<Seq<char>>, n: int) -> Option<
    Seq<char>,
>
    decreases n,
{
    if n <= 0 {
        None
    } else {
        match first_shared(shared, ids, n - 1) {
            Some(i) => Some(i),
            None => if shared.contains(ids[n - 1]) {
                Some(ids[n - 1])
            } else {
                None
            },
        }
    }
}

/// The message for the first of the first `n` dependencies of a patch that
/// leads to a shared patch.
pub open spec fn cross_phase_dep(
    files: Seq<FileView>,
    shared: Seq<Seq<char>>,
    own: Seq<char>,
    p: PatchView,
    n: int,
) -> Option<Seq<char>>
    decreases n,
{
    if n <= 0 {
        None
    } else {
        match cross_phase_dep(files, shared, own, p, n - 1) {
            Some(m) => Some(m),
            None => {
                let ids = dep_ids(files, p.after[n - 1]);
                match first_shared(shared, ids, ids.len() as int) {
                    Some(i) => Some(cross_phase_text(p.id, own, i)),
                    None => None,
                }
            },
        }
    }
}

/// The message for the first of the first `n` profile patches that depends on a
/// shared one.
pub open spec fn cross_phase(
    files: Seq<FileView>,
    shared: Seq<Seq<char>>,
    list: Seq<(Seq<char>, PatchView)>,
    n: int,
) -> Option<Seq<char>>
    decreases n,
{
    if n <= 0 {
        None
    } else {
        match cross_phase(files, shared, list, n - 1) {
            Some(m) => Some(m),
            None => cross_phase_dep(
                files,
                shared,
                list[n - 1].0,
                list[n - 1].1,
                list[n - 1].1.after.len() as int,
            ),
        }
    }
}

/// The message for the first dependency that two phases cannot honour.
pub open spec fn phase_fault(files: Seq<FileView>, order: Seq<Seq<char>>) -> Option<Seq<char>> {
    let all = all_patches(files);
    let groups = profile_groups(all, order);
    let list = members(groups, groups.len() as int);
    match cross_group(files, list, list.len() as int) {
        Some(m) => Some(m),
        None => cross_phase(
            files,
            patch_ids(shared_patches(all, order)),
            list,
            list.len() as int,
        ),
    }
}

// ---------------------------------------------------------------------------
// Building the groups
// ---------------------------------------------------------------------------

fn profile_name<'a>(p: &'a Patch) -> (r: Option<&'a str>)
    ensures
        match r {
            Some(n) => profile_of(p@) == Some(n@),
            None => profile_of(p@) is None,
        },
{
    match &p.scope {
        Scope::Profile(n) => Some(n.as_str()),
        _ => None,
    }
}

fn is_listed(v: &Vec<&str>, s: &str) -> (r: bool)
    ensures
        r == str_texts(v@).contains(s@),
{
    let ghost all = str_texts(v@);
    let mut i: usize = 0;
    while i < v.len()
        invariant
            i <= v@.len(),
            all == str_texts(v@),
            forall|j: int| 0 <= j < i ==> all[j] != s@,
        decreases v@.len() - i,
    {
        if same_text(v[i], s) {
            assert(all[i as int] == s@);
            return true;
        }
        assert(all[i as int] != s@);
        i = i + 1;
    }
    false
}

fn list_profiles<'a>(all: &Vec<&'a Patch>) -> (r: Vec<&'a str>)
    ensures
        str_texts(r@) == profiles(patch_ref_views(all@), all@.len() as int),
{
    let ghost p = patch_ref_views(all@);
    let mut out: Vec<&'a str> = Vec::new();
    let mut i: usize = 0;
    assert(str_texts(out@) =~= Seq::empty());
    while i < all.len()
        invariant
            i <= all@.len(),
            p == patch_ref_views(all@),
            str_texts(out@) == profiles(p, i as int),
        decreases all@.len() - i,
    {
        let patch: &'a Patch = all[i];
        assert(p[i as int] == patch@);
        if let Some(name) = profile_name(patch) {
            if !is_listed(&out, name) {
                let ghost before = str_texts(out@);
                out.push(name);
                assert(str_texts(out@) =~= before.push(name@));
            }
        }
        i = i + 1;
    }
    out
}

/// The text of an optional string slice.
pub open spec fn opt_name(o: Option<&str>) -> Option<Seq<char>> {
    match o {
        Some(s) => Some(s@),
        None => None,
    }
}

fn select<'a>(all: &Vec<&'a Patch>, profile: Option<&str>) -> (r: Vec<&'a Patch>)
    ensures
        patch_ref_views(r@) == patches_for(
            patch_ref_views(all@),
            opt_name(profile),
            all@.len() as int,
        ),
{
    let ghost p = patch_ref_views(all@);
    let ghost wanted = opt_name(profile);
    let mut out: Vec<&'a Patch> = Vec::new();
    let mut i: usize = 0;
    assert(patch_ref_views(out@) =~= Seq::empty());
    while i < all.len()
        invariant
            i <= all@.len(),
            p == patch_ref_views(all@),
            wanted == opt_name(profile),
            patch_ref_views(out@) == patches_for(p, wanted, i as int),
        decreases all@.len() - i,
    {
        let patch: &'a Patch = all[i];
        assert(p[i as int] == patch@);
        let fits: bool = match (profile_name(patch), profile) {
            (Some(a), Some(b)) => same_text(a, b),
            (None, None) => true,
            _ => false,
        };
        if fits {
            let ghost before = patch_ref_views(out@);
            out.push(patch);
            assert(patch_ref_views(out@) =~= before.push(p[i as int]));
        }
        i = i + 1;
    }
    out
}

fn place_of(order: &Vec<PatchId>, id: &str) -> (r: usize)
    ensures
        r == id_index(id_views(order@), id@),
{
    let ghost all = id_views(order@);
    let n: usize = order.len();
    let mut i: usize = 0;
    assert(all.skip(0) =~= all);
    while i < n
        invariant
            i <= n,
            n == order@.len(),
            all == id_views(order@),
            id_index(all, id@) == i + id_index(all.skip(i as int), id@),
        decreases n - i,
    {
        assert(all.skip(i as int)[0] == all[i as int]);
        assert(all[i as int] == order@[i as int]@);
        if same_text(order[i].as_str(), id) {
            return i;
        }
        assert(all.skip(i as int).drop_first() =~= all.skip(i + 1));
        i = i + 1;
    }
    n
}

fn sort_by_place<'a>(list: &Vec<&'a Patch>, order: &Vec<PatchId>) -> (r: Vec<&'a Patch>)
    ensures
        patch_ref_views(r@) == ranked(patch_ref_views(list@), id_views(order@)),
{
    let ghost p = patch_ref_views(list@);
    let ghost o = id_views(order@);
    let mut keys: Vec<usize> = Vec::new();
    let mut i: usize = 0;
    while i < list.len()
        invariant
            i <= list@.len(),
            p == patch_ref_views(list@),
            o == id_views(order@),
            keys@.len() == i,
            forall|j: int| 0 <= j < i ==> #[trigger] keys@[j] == id_index(o, p[j].id),
        decreases list@.len() - i,
    {
        assert(p[i as int] == list@[i as int]@);
        keys.push(place_of(order, list[i].id.as_str()));
        i = i + 1;
    }
    assert(indices(keys@) =~= ranks(p, o));
    let turn = sorted_positions(&keys);
    let ghost q = indices(turn@);
    let mut out: Vec<&'a Patch> = Vec::new();
    let mut k: usize = 0;
    while k < turn.len()
        invariant
            k <= turn@.len(),
            q == indices(turn@),
            permutes(q, list@.len() as int),
            p == patch_ref_views(list@),
            out@.len() == k,
            forall|j: int| 0 <= j < k ==> (#[trigger] out@[j])@ == p[q[j]],
        decreases turn@.len() - k,
    {
        assert(q[k as int] == turn@[k as int]);
        out.push(list[turn[k]]);
        k = k + 1;
    }
    assert(patch_ref_views(out@) =~= ranked(p, o));
    out
}

fn build_groups<'a>(all: &Vec<&'a Patch>, order: &Vec<PatchId>) -> (r: Vec<
    (String, Vec<&'a Patch>),
>)
    ensures
        group_views(r@) == profile_groups(patch_ref_views(all@), id_views(order@)),
{
    let ghost p = patch_ref_views(all@);
    let ghost o = id_views(order@);
    let names = list_profiles(all);
    let ghost texts = str_texts(names@);
    let turn = sorted_text_positions(&names);
    let ghost q = indices(turn@);
    let ghost sorted = sorted_profiles(p);
    let ghost groups = profile_groups(p, o);
    let mut out: Vec<(String, Vec<&'a Patch>)> = Vec::new();
    let mut k: usize = 0;
    while k < turn.len()
        invariant
            k <= turn@.len(),
            q == indices(turn@),
            permutes(q, names@.len() as int),
            q == text_order(texts),
            texts == str_texts(names@),
            texts == profiles(p, p.len() as int),
            sorted == sorted_profiles(p),
            groups == profile_groups(p, o),
            p == patch_ref_views(all@),
            o == id_views(order@),
            out@.len() == k,
            forall|j: int|
                0 <= j < k ==> ((#[trigger] out@[j]).0@, patch_ref_views(out@[j].1@)) == groups[j],
        decreases turn@.len() - k,
    {
        assert(q[k as int] == turn@[k as int]);
        let name = names[turn[k]];
        assert(sorted[k as int] == name@);
        let own = select(all, Some(name));
        let ordered = sort_by_place(&own, order);
        out.push((name.to_owned(), ordered));
        k = k + 1;
    }
    assert(group_views(out@) =~= groups);
    out
}

/// The models of profile patches with the names of their groups.
pub open spec fn member_views(v: Seq<(&str, &Patch)>) -> Seq<(Seq<char>, PatchView)> {
    Seq::new(v.len(), |i: int| (v[i].0@, v[i].1@))
}

fn list_members<'a, 'b>(groups: &'b Vec<(String, Vec<&'a Patch>)>) -> (r: Vec<(&'b str, &'a Patch)>)
    ensures
        member_views(r@) == members(group_views(groups@), groups@.len() as int),
{
    let ghost g = group_views(groups@);
    let mut out: Vec<(&'b str, &'a Patch)> = Vec::new();
    let mut i: usize = 0;
    assert(member_views(out@) =~= Seq::empty());
    while i < groups.len()
        invariant
            i <= groups@.len(),
            g == group_views(groups@),
            member_views(out@) == members(g, i as int),
        decreases groups@.len() - i,
    {
        let list = &groups[i].1;
        let name = groups[i].0.as_str();
        assert(g[i as int] == (name@, patch_ref_views(list@)));
        let ghost before = member_views(out@);
        let ghost own = Seq::new(g[i as int].1.len(), |j: int| (g[i as int].0, g[i as int].1[j]));
        let mut j: usize = 0;
        assert(before + own.take(0) =~= before);
        while j < list.len()
            invariant
                j <= list@.len(),
                own.len() == list@.len(),
                forall|k: int| 0 <= k < own.len() ==> #[trigger] own[k] == (name@, list@[k]@),
                member_views(out@) == before + own.take(j as int),
            decreases list@.len() - j,
        {
            let ghost prev = member_views(out@);
            out.push((name, list[j]));
            assert(own[j as int] == (name@, list@[j as int]@));
            assert(member_views(out@) =~= prev.push(own[j as int]));
            assert(own.take(j + 1) =~= own.take(j as int).push(own[j as int]));
            j = j + 1;
            assert(member_views(out@) =~= before + own.take(j as int));
        }
        assert(own.take(own.len() as int) =~= own);
        i = i + 1;
    }
    out
}

// ---------------------------------------------------------------------------
// Looking for faults
// ---------------------------------------------------------------------------

fn find_group<'b>(list: &Vec<(&'b str, &Patch)>, id: &str) -> (r: Option<&'b str>)
    ensures
        match r {
            Some(g) => group_of(member_views(list@), id@) == Some(g@),
            None => group_of(member_views(list@), id@) is None,
        },
{
    let ghost all = member_views(list@);
    let n: usize = list.len();
    let mut i: usize = 0;
    assert(all.skip(0) =~= all);
    while i < n
        invariant
            i <= n,
            n == list@.len(),
            all == member_views(list@),
            group_of(all, id@) == group_of(all.skip(i as int), id@),
        decreases n - i,
    {
        assert(all.skip(i as int)[0] == all[i as int]);
        assert(all[i as int] == (list@[i as int].0@, list@[i as int].1@));
        if same_text(list[i].1.id.as_str(), id) {
            return Some(list[i].0);
        }
        assert(all.skip(i as int).drop_first() =~= all.skip(i + 1));
        i = i + 1;
    }
    None
}

/// The identifiers that a dependency names.
fn ids_named<'c>(compiler: &'c PatchCompiler, dep: &'c DependencyRef) -> (r: Vec<&'c str>)
    requires
        compiler.wf(),
    ensures
        str_texts(r@) == dep_ids(compiler.files(), dep@),
{
    let mut out: Vec<&'c str> = Vec::new();
    match dep {
        DependencyRef::PatchId(id) => {
            out.push(id.as_str());
            assert(str_texts(out@) =~= seq![id@]);
        },
        DependencyRef::FileName(name) => match compiler.get_patch_ids_for_file(name.as_str()) {
            None => {
                assert(str_texts(out@) =~= Seq::empty());
            },
            Some(ids) => {
                let ghost all = id_views(ids@);
                let mut i: usize = 0;
                while i < ids.len()
                    invariant
                        i <= ids@.len(),
                        all == id_views(ids@),
                        out@.len() == i,
                        forall|j: int| 0 <= j < i ==> (#[trigger] out@[j])@ == all[j],
                    decreases ids@.len() - i,
                {
                    assert(all[i as int] == ids@[i as int]@);
                    out.push(ids[i].as_str());
                    i = i + 1;
                }
                assert(str_texts(out@) =~= all);
            },
        },
    }
    out
}

proof fn other_group_stays(
    list: Seq<(Seq<char>, PatchView)>,
    own: Seq<char>,
    ids: Seq<Seq<char>>,
    n: int,
    m: int,
)
    requires
        0 <= n <= m,
        other_group(list, own, ids, n) is Some,
    ensures
        other_group(list, own, ids, m) == other_group(list, own, ids, n),
    decreases m,
{
    if n < m {
        other_group_stays(list, own, ids, n, m - 1);
    }
}

fn find_other_group<'b>(list: &Vec<(&'b str, &Patch)>, own: &str, ids: &Vec<&str>) -> (r: Option<
    &'b str,
>)
    ensures
        match r {
            Some(g) => other_group(
                member_views(list@),
                own@,
                str_texts(ids@),
                ids@.len() as int,
            ) == Some(g@),
            None => other_group(
                member_views(list@),
                own@,
                str_texts(ids@),
                ids@.len() as int,
            ) is None,
        },
{
    let ghost l = member_views(list@);
    let ghost t = str_texts(ids@);
    let mut i: usize = 0;
    while i < ids.len()
        invariant
            i <= ids@.len(),
            l == member_views(list@),
            t == str_texts(ids@),
            other_group(l, own@, t, i as int) is None,
        decreases ids@.len() - i,
    {
        assert(t[i as int] == ids@[i as int]@);
        if let Some(g) = find_group(list, ids[i]) {
            if !same_text(g, own) {
                proof {
                    other_group_stays(l, own@, t, i + 1, t.len() as int);
                }
                return Some(g);
            }
        }
        i = i + 1;
    }
    None
}

proof fn cross_group_dep_stays(
    files: Seq<FileView>,
    list: Seq<(Seq<char>, PatchView)>,
    own: Seq<char>,
    p: PatchView,
    n: int,
    m: int,
)
    requires
        0 <= n <= m,
        cross_group_dep(files, list, own, p, n) is Some,
    ensures
        cross_group_dep(files, list, own, p, m) == cross_group_dep(files, list, own, p, n),
    decreases m,
{
    if n < m {
        cross_group_dep_stays(files, list, own, p, n, m - 1);
    }
}

proof fn cross_group_stays(
    files: Seq<FileView>,
    list: Seq<(Seq<char>, PatchView)>,
    n: int,
    m: int,
)
    requires
        0 <= n <= m,
        cross_group(files, list, n) is Some,
    ensures
        cross_group(files, list, m) == cross_group(files, list, n),
    decreases m,
{
    if n < m {
        cross_group_stays(files, list, n, m - 1);
    }
}

fn cross_group_message(id: &str, own: &str, other: &str) -> (r: String)
    ensures
        r@ == cross_group_text(id@, own@, other@),
{
    let mut out = five(
        "跨 Profile 组依赖不允许: Patch '",
        id,
        "' (Profile '",
        own,
        "') 依赖 Profile '",
    );
    out.append(other);
    out.append(
        "' 中的 Patch。Profile 组在 Phase 1 中并发执行，跨组依赖无法保证顺序。请将相关 Patch 移至同一 Profile 组或改用 Shared 级 Scope。",
    );
    out
}

fn find_cross_group(compiler: &PatchCompiler, list: &Vec<(&str, &Patch)>) -> (r: Option<String>)
    requires
        compiler.wf(),
    ensures
        match r {
            Some(m) => cross_group(
                compiler.files(),
                member_views(list@),
                list@.len() as int,
            ) == Some(m@),
            None => cross_group(
                compiler.files(),
                member_views(list@),
                list@.len() as int,
            ) is None,
        },
{
    let ghost files = compiler.files();
    let ghost l = member_views(list@);
    let mut i: usize = 0;
    while i < list.len()
        invariant
            i <= list@.len(),
            compiler.wf(),
            files == compiler.files(),
            l == member_views(list@),
            cross_group(files, l, i as int) is None,
        decreases list@.len() - i,
    {
        let own = list[i].0;
        let patch = list[i].1;
        assert(l[i as int] == (own@, patch@));
        let mut d: usize = 0;
        while d < patch.after.len()
            invariant
                d <= patch.after@.len(),
                i < list@.len(),
                compiler.wf(),
                files == compiler.files(),
                l == member_views(list@),
                l[i as int] == (own@, patch@),
                cross_group(files, l, i as int) is None,
                cross_group_dep(files, l, own@, patch@, d as int) is None,
            decreases patch.after@.len() - d,
        {
            assert(patch@.after[d as int] == patch.after@[d as int]@);
            let ids = ids_named(compiler, &patch.after[d]);
            if let Some(g) = find_other_group(list, own, &ids) {
                proof {
                    cross_group_dep_stays(
                        files,
                        l,
                        own@,
                        patch@,
                        d + 1,
                        patch@.after.len() as int,
                    );
                    cross_group_stays(files, l, i + 1, l.len() as int);
                }
                return Some(cross_group_message(patch.id.as_str(), own, g));
            }
            d = d + 1;
        }
        i = i + 1;
    }
    None
}

proof fn first_shared_stays(shared: Seq<Seq<char>>, ids: Seq<Seq<char>>, n: int, m: int)
    requires
        0 <= n <= m,
        first_shared(shared, ids, n) is Some,
    ensures
        first_shared(shared, ids, m) == first_shared(shared, ids, n),
    decreases m,
{
    if n < m {
        first_shared_stays(shared, ids, n, m - 1);
    }
}

fn find_shared<'c>(shared: &Vec<&str>, ids: &Vec<&'c str>) -> (r: Option<&'c str>)
    ensures
        match r {
            Some(i) => first_shared(
                str_texts(shared@),
                str_texts(ids@),
                ids@.len() as int,
            ) == Some(i@),
            None => first_shared(str_texts(shared@), str_texts(ids@), ids@.len() as int) is None,
        },
{
    let ghost s = str_texts(shared@);
    let ghost t = str_texts(ids@);
    let mut i: usize = 0;
    while i < ids.len()
        invariant
            i <= ids@.len(),
            s == str_texts(shared@),
            t == str_texts(ids@),
            first_shared(s, t, i as int) is None,
        decreases ids@.len() - i,
    {
        assert(t[i as int] == ids@[i as int]@);
        if is_listed(shared, ids[i]) {
            proof {
                first_shared_stays(s, t, i + 1, t.len() as int);
            }
            return Some(ids[i]);
        }
        i = i + 1;
    }
    None
}

proof fn cross_phase_dep_stays(
    files: Seq<FileView>,
    shared: Seq<Seq<char>>,
    own: Seq<char>,
    p: PatchView,
    n: int,
    m: int,
)
    requires
        0 <= n <= m,
        cross_phase_dep(files, shared, own, p, n) is Some,
    ensures
        cross_phase_dep(files, shared, own, p, m) == cross_phase_dep(files, shared, own, p, n),
    decreases m,
{
    if n < m {
        cross_phase_dep_stays(files, shared, own, p, n, m - 1);
    }
}

proof fn cross_phase_stays(
    files: Seq<FileView>,
    shared: Seq<Seq<char>>,
    list: Seq<(Seq<char>, PatchView)>,
    n: int,
    m: int,
)
    requires
        0 <= n <= m,
        cross_phase(files, shared, list, n) is Some,
    ensures
        cross_phase(files, shared, list, m) == cross_phase(files, shared, list, n),
    decreases m,
{
    if n < m {
        cross_phase_stays(files, shared, list, n, m - 1);
    }
}

fn cross_phase_message(id: &str, own: &str, other: &str) -> (r: String)
    ensures
        r@ == cross_phase_text(id@, own@, other@),
{
    let mut out = five(
        "跨阶段依赖不允许: Profile Patch '",
        id,
        "' (Profile '",
        own,
        "') 依赖 Shared Patch '",
    );
    out.append(other);
    out.append(
        "'。Profile 在 Phase 1 先于 Phase 2 的 Shared 执行，此依赖无法满足。请将依赖的 Patch 改为 Profile 级 Scope，或将依赖方移至 Shared 级。",
    );
    out
}

fn find_cross_phase(
    compiler: &PatchCompiler,
    shared: &Vec<&str>,
    list: &Vec<(&str, &Patch)>,
) -> (r: Option<String>)
    requires
        compiler.wf(),
    ensures
        match r {
            Some(m) => cross_phase(
                compiler.files(),
                str_texts(shared@),
                member_views(list@),
                list@.len() as int,
            ) == Some(m@),
            None => cross_phase(
                compiler.files(),
                str_texts(shared@),
                member_views(list@),
                list@.len() as int,
            ) is None,
        },
{
    let ghost files = compiler.files();
    let ghost s = str_texts(shared@);
    let ghost l = member_views(list@);
    let mut i: usize = 0;
    while i < list.len()
        invariant
            i <= list@.len(),
            compiler.wf(),
            files == compiler.files(),
            s == str_texts(shared@),
            l == member_views(list@),
            cross_phase(files, s, l, i as int) is None,
        decreases list@.len() - i,
    {
        let own = list[i].0;
        let patch = list[i].1;
        assert(l[i as int] == (own@, patch@));
        let mut d: usize = 0;
        while d < patch.after.len()
            invariant
                d <= patch.after@.len(),
                i < list@.len(),
                compiler.wf(),
                files == compiler.files(),
                s == str_texts(shared@),
                l == member_views(list@),
                l[i as int] == (own@, patch@),
                cross_phase(files, s, l, i as int) is None,
                cross_phase_dep(files, s, own@, patch@, d as int) is None,
            decreases patch.after@.len() - d,
        {
            assert(patch@.after[d as int] == patch.after@[d as int]@);
            let ids = ids_named(compiler, &patch.after[d]);
            if let Some(id) = find_shared(shared, &ids) {
                proof {
                    cross_phase_dep_stays(
                        files,
                        s,
                        own@,
                        patch@,
                        d + 1,
                        patch@.after.len() as int,
                    );
                    cross_phase_stays(files, s, l, i + 1, l.len() as int);
                }
                return Some(cross_phase_message(patch.id.as_str(), own, id));
            }
            d = d + 1;
        }
        i = i + 1;
    }
    None
}

fn list_ids<'a>(list: &Vec<&'a Patch>) -> (r: Vec<&'a str>)
    ensures
        str_texts(r@) == patch_ids(patch_ref_views(list@)),
{
    let ghost p = patch_ref_views(list@);
    let mut out: Vec<&'a str> = Vec::new();
    let mut i: usize = 0;
    while i < list.len()
        invariant
            i <= list@.len(),
            p == patch_ref_views(list@),
            out@.len() == i,
            forall|j: int| 0 <= j < i ==> (#[trigger] out@[j])@ == p[j].id,
        decreases list@.len() - i,
    {
        let patch: &'a Patch = list[i];
        assert(p[i as int] == patch@);
        out.push(patch.id.as_str());
        i = i + 1;
    }
    assert(str_texts(out@) =~= patch_ids(p));
    out
}

// ---------------------------------------------------------------------------
// The pipeline
// ---------------------------------------------------------------------------

/// Sorts the registered patches into the groups of the profiles and the shared
/// ones, each in the order of dependencies.
fn plan<'a>(compiler: &'a PatchCompiler) -> (r: Result<
    (Vec<(String, Vec<&'a Patch>)>, Vec<&'a Patch>),
    PrismError,
>)
    requires
        compiler.wf(),
    ensures
        match r {
            Ok((groups, shared)) => resolution(compiler.files()) matches Ok(order) && phase_fault(
                compiler.files(),
                order,
            ) is None && group_views(groups@) == profile_groups(
                all_patches(compiler.files()),
                order,
            ) && patch_ref_views(shared@) == shared_patches(all_patches(compiler.files()), order),
            Err(e) => is_plan_fault(compiler.files(), e),
        },
{
    let ghost files = compiler.files();
    let all = compiler.get_all_patches();
    let order = match compiler.resolve_dependencies() {
        Err(e) => return Err(e),
        Ok(v) => v,
    };
    let groups = build_groups(&all, &order);
    let list = list_members(&groups);
    if let Some(message) = find_cross_group(compiler, &list) {
        return Err(PrismError::DslParse { message, file: None, line: None });
    }
    let rest = select(&all, None);
    let shared = sort_by_place(&rest, &order);
    let ids = list_ids(&shared);
    if let Some(message) = find_cross_phase(compiler, &ids, &list) {
        return Err(PrismError::DslParse { message, file: None, line: None });
    }
    Ok((groups, shared))
}

/// Whether a fault says why patches cannot be put in an order that two phases
/// honour.
pub open spec fn is_plan_fault(files: Seq<FileView>, e: PrismError) -> bool {
    match resolution(files) {
        Err(u) => tells(e, u),
        Ok(order) => e matches PrismError::DslParse { message, file, line } && file is None
            && line is None && phase_fault(files, order) == Some(message@),
    }
}

/// Resolves the dependencies of the registered patches, and applies the patches
/// to a configuration in two phases.
///
/// On a fault the configuration stays as it was.
pub fn compile_and_execute_pipeline(
    compiler: &PatchCompiler,
    base_config: &mut Document,
    executor: &mut PatchExecutor,
) -> (r: Result<Vec<ExecutionTrace>, PrismError>)
    requires
        compiler.wf(),
    ensures
        final(executor).context == old(executor).context,
        match r {
            Ok(traces) => resolution(compiler.files()) matches Ok(order)
                && final(executor).traces@.len() == 0 && phase_fault(
                compiler.files(),
                order,
            ) is None && may_pipeline(
                old(base_config)@,
                old(executor).context@,
                profile_groups(all_patches(compiler.files()), order),
                shared_patches(all_patches(compiler.files()), order),
                (final(base_config)@, trace_views(traces@)),
            ),
            Err(e) => final(base_config)@ == old(base_config)@ && final(executor).traces
                == old(executor).traces && is_plan_fault(compiler.files(), e),
        },
{
    let (groups, shared) = match plan(compiler) {
        Err(e) => return Err(e),
        Ok(v) => v,
    };
    match executor.execute_pipeline(base_config, groups, shared) {
        Ok((traces, merged)) => {
            *base_config = merged;
            Ok(traces)
        },
        Err(e) => Err(e),
    }
}

/// What [`compile_and_execute_pipeline`] does, at a time of day.
pub fn compile_and_execute_pipeline_at(
    compiler: &PatchCompiler,
    base_config: &mut Document,
    executor: &mut PatchExecutor,
    time: TimeOfDay,
) -> (r: Result<Vec<ExecutionTrace>, PrismError>)
    requires
        compiler.wf(),
        time.valid(),
    ensures
        final(executor).context == old(executor).context,
        match r {
            Ok(traces) => resolution(compiler.files()) matches Ok(order)
                && final(executor).traces@.len() == 0 && phase_fault(
                compiler.files(),
                order,
            ) is None && (final(base_config)@, trace_views(traces@)) == pipeline_at(
                old(base_config)@,
                old(executor).context@,
                profile_groups(all_patches(compiler.files()), order),
                shared_patches(all_patches(compiler.files()), order),
                time,
            ),
            Err(e) => final(base_config)@ == old(base_config)@ && final(executor).traces
                == old(executor).traces && is_plan_fault(compiler.files(), e),
        },
{
    let (groups, shared) = match plan(compiler) {
        Err(e) => return Err(e),
        Ok(v) => v,
    };
    match executor.execute_pipeline_at(base_config, groups, shared, time) {
        Ok((traces, merged)) => {
            *base_config = merged;
            Ok(traces)
        },
        Err(e) => Err(e),
    }
}

// ---------------------------------------------------------------------------
// Laws
// ---------------------------------------------------------------------------

/// The patches of a group, and the shared ones, are put in the order of their
/// dependencies.
pub proof fn ranked_in_order(list: Seq<PatchView>, order: Seq<Seq<char>>)
    ensures
        ranked(list, order).len() == list.len(),
        forall|i: int, j: int|
            0 <= i < j < list.len() ==> id_index(order, #[trigger] ranked(list, order)[i].id)
                <= id_index(order, #[trigger] ranked(list, order)[j].id),
{
    let keys = ranks(list, order);
    order_by_sorts(keys);
    let p = order_by(keys);
    assert forall|i: int, j: int| 0 <= i < j < list.len() implies id_index(
        order,
        #[trigger] ranked(list, order)[i].id,
    ) <= id_index(order, #[trigger] ranked(list, order)[j].id) by {
        assert(keys[p[i]] <= keys[p[j]]);
    }
}

/// Shared patches of the same priority run in the order of their dependencies.
pub proof fn equal_priorities_keep_the_order(
    list: Seq<PatchView>,
    order: Seq<Seq<char>>,
    i: int,
    j: int,
)
    requires
        0 <= i < j < list.len(),
        ({
            let run = by_priority(ranked(list, order));
            scope_priority(run[i].scope) == scope_priority(run[j].scope)
        }),
    ensures
        ({
            let run = by_priority(ranked(list, order));
            id_index(order, run[i].id) <= id_index(order, run[j].id)
        }),
{
    let first = ranked(list, order);
    ranked_in_order(list, order);
    let keys = priorities(first);
    order_by_sorts(keys);
    let q = order_by(keys);
    assert(keys[q[i]] == keys[q[j]]);
    assert(q[i] < q[j]);
    assert(first[q[i]].id == by_priority(first)[i].id);
    assert(first[q[j]].id == by_priority(first)[j].id);
}

/// Where no fault is found, every dependency of a profile patch on a profile
/// patch stays within the group, and none leads to a shared patch.
pub proof fn dependencies_stay_in_the_group(
    files: Seq<FileView>,
    order: Seq<Seq<char>>,
    i: int,
    d: int,
    k: int,
)
    requires
        phase_fault(files, order) is None,
        0 <= i < members(
            profile_groups(all_patches(files), order),
            profile_groups(all_patches(files), order).len() as int,
        ).len(),
        ({
            let groups = profile_groups(all_patches(files), order);
            let p = members(groups, groups.len() as int)[i].1;
            0 <= d < p.after.len() && 0 <= k < dep_ids(files, p.after[d]).len()
        }),
    ensures
        ({
            let groups = profile_groups(all_patches(files), order);
            let list = members(groups, groups.len() as int);
            let id = dep_ids(files, list[i].1.after[d])[k];
            &&& group_of(list, id) matches Some(g) ==> g == list[i].0
            &&& !patch_ids(shared_patches(all_patches(files), order)).contains(id)
        }),
{
    let groups = profile_groups(all_patches(files), order);
    let list = members(groups, groups.len() as int);
    let own = list[i].0;
    let p = list[i].1;
    let ids = dep_ids(files, p.after[d]);
    let shared = patch_ids(shared_patches(all_patches(files), order));
    if cross_group(files, list, i + 1) is Some {
        cross_group_stays(files, list, i + 1, list.len() as int);
    }
    if cross_group_dep(files, list, own, p, d + 1) is Some {
        cross_group_dep_stays(files, list, own, p, d + 1, p.after.len() as int);
    }
    if other_group(list, own, ids, k + 1) is Some {
        other_group_stays(list, own, ids, k + 1, ids.len() as int);
    }
    if cross_phase(files, shared, list, i + 1) is Some {
        cross_phase_stays(files, shared, list, i + 1, list.len() as int);
    }
    if cross_phase_dep(files, shared, own, p, d + 1) is Some {
        cross_phase_dep_stays(files, shared, own, p, d + 1, p.after.len() as int);
    }
    if first_shared(shared, ids, k + 1) is Some {
        first_shared_stays(shared, ids, k + 1, ids.len() as int);
    }
}

proof fn chosen_patches(all: Seq<PatchView>, name: Seq<char>, n: int)
    requires
        0 <= n <= all.len(),
    ensures
        patches_for(all, Some(name), n) == all.take(n).filter(
            |p: PatchView| p.scope == ScopeView::Profile(name),
        ),
        patches_for(all, None, n) == all.take(n).filter(
            |p: PatchView| !(p.scope is Profile),
        ),
    decreases n,
{
    reveal(Seq::filter);
    if n > 0 {
        chosen_patches(all, name, n - 1);
        assert(all.take(n).drop_last() =~= all.take(n - 1));
    } else {
        assert(all.take(0) =~= Seq::empty());
    }
}

/// A group holds the patches of its profile, and the shared ones are those of no
/// profile, before they are put in the order of their dependencies.
pub proof fn groups_hold_their_patches(all: Seq<PatchView>, order: Seq<Seq<char>>, name: Seq<char>)
    ensures
        ranked(patches_for(all, Some(name), all.len() as int), order) == ranked(
            all.filter(|p: PatchView| p.scope == ScopeView::Profile(name)),
            order,
        ),
        shared_patches(all, order) == ranked(
            all.filter(|p: PatchView| !(p.scope is Profile)),
            order,
        ),
        forall|i: int|
            0 <= i < profile_groups(all, order).len() ==> (#[trigger] profile_groups(
                all,
                order,
            )[i]).1 == ranked(
                patches_for(all, Some(profile_groups(all, order)[i].0), all.len() as int),
                order,
            ),
{
    assert(all.take(all.len() as int) =~= all);
    chosen_patches(all, name, all.len() as int);
}

proof fn profiles_once(all: Seq<PatchView>, n: int, name: Seq<char>)
    requires
        0 <= n <= all.len(),
    ensures
        profiles(all, n).no_duplicates(),
        profiles(all, n).contains(name) <==> exists|i: int|
            0 <= i < n && (#[trigger] all[i]).scope == ScopeView::Profile(name),
    decreases n,
{
    if n > 0 {
        profiles_once(all, n - 1, name);
        let before = profiles(all, n - 1);
        let now = profiles(all, n);
        if let Some(own) = profile_of(all[n - 1]) {
            profiles_once(all, n - 1, own);
            if !before.contains(own) {
                assert(now == before.push(own));
                assert(now[before.len() as int] == own);
                assert forall|x: Seq<char>| before.contains(x) implies now.contains(x) by {
                    let k = choose|k: int| 0 <= k < before.len() && before[k] == x;
                    assert(now[k] == x);
                }
                if now.contains(name) && name != own {
                    let k = choose|k: int| 0 <= k < now.len() && now[k] == name;
                    assert(before[k] == name);
                }
                assert(now.no_duplicates());
            }
            if own == name {
                assert(all[n - 1].scope == ScopeView::Profile(name));
            }
        }
        if exists|i: int| 0 <= i < n && (#[trigger] all[i]).scope == ScopeView::Profile(name) {
            let i = choose|i: int|
                0 <= i < n && (#[trigger] all[i]).scope == ScopeView::Profile(name);
            if i == n - 1 {
                assert(profile_of(all[n - 1]) == Some(name));
            }
        }
    }
}

/// There is one group for each profile that a patch is for, in the order of the
/// names.
pub proof fn one_group_for_each_profile(all: Seq<PatchView>, order: Seq<Seq<char>>)
    ensures
        forall|i: int, j: int|
            0 <= i < j < profile_groups(all, order).len() ==> crate::text::text_lt(
                #[trigger] profile_groups(all, order)[i].0,
                #[trigger] profile_groups(all, order)[j].0,
            ),
        forall|k: int|
            0 <= k < all.len() && (#[trigger] all[k]).scope is Profile ==> exists|i: int|
                0 <= i < profile_groups(all, order).len() && #[trigger] profile_groups(
                    all,
                    order,
                )[i].0 == all[k].scope->Profile_0,
{
    let names = profiles(all, all.len() as int);
    let q = text_order(names);
    crate::order::text_order_sorts(names);
    profiles_once(all, all.len() as int, Seq::empty());
    let groups = profile_groups(all, order);
    assert forall|i: int, j: int| 0 <= i < j < groups.len() implies crate::text::text_lt(
        #[trigger] groups[i].0,
        #[trigger] groups[j].0,
    ) by {
        assert(groups[i].0 == names[q[i]]);
        assert(groups[j].0 == names[q[j]]);
        assert(q[i] != q[j]);
        assert(names[q[i]] != names[q[j]]);
    }
    assert forall|k: int| 0 <= k < all.len() && (#[trigger] all[k]).scope is Profile implies exists|
        i: int,
    |
        0 <= i < groups.len() && #[trigger] groups[i].0 == all[k].scope->Profile_0 by {
        let name = all[k].scope->Profile_0;
        profiles_once(all, all.len() as int, name);
        assert(names.contains(name));
        let m = choose|m: int| 0 <= m < names.len() && names[m] == name;
        crate::order::permutation_is_onto(q, names.len() as int, m);
        let i = choose|i: int| 0 <= i < q.len() && q[i] == m;
        assert(groups[i].0 == name);
    }
}

proof fn none_elsewhere(
    list: Seq<(Seq<char>, PatchView)>,
    shared: Seq<Seq<char>>,
    own: Seq<char>,
    ids: Seq<Seq<char>>,
    n: int,
)
    requires
        0 <= n <= ids.len(),
        forall|k: int|
            0 <= k < ids.len() ==> (group_of(list, #[trigger] ids[k]) matches Some(g) ==> g == own)
                && !shared.contains(ids[k]),
    ensures
        other_group(list, own, ids, n) is None,
        first_shared(shared, ids, n) is None,
    decreases n,
{
    if n > 0 {
        none_elsewhere(list, shared, own, ids, n - 1);
        let id = ids[n - 1];
        assert((group_of(list, id) matches Some(g) ==> g == own) && !shared.contains(id));
    }
}

proof fn patch_stays(
    files: Seq<FileView>,
    list: Seq<(Seq<char>, PatchView)>,
    shared: Seq<Seq<char>>,
    own: Seq<char>,
    p: PatchView,
    n: int,
)
    requires
        0 <= n <= p.after.len(),
        forall|d: int, k: int|
            0 <= d < p.after.len() && 0 <= k < dep_ids(files, p.after[d]).len() ==> (group_of(
                list,
                #[trigger] dep_ids(files, p.after[d])[k],
            ) matches Some(g) ==> g == own) && !shared.contains(dep_ids(files, p.after[d])[k]),
    ensures
        cross_group_dep(files, list, own, p, n) is None,
        cross_phase_dep(files, shared, own, p, n) is None,
    decreases n,
{
    if n > 0 {
        patch_stays(files, list, shared, own, p, n - 1);
        let ids = dep_ids(files, p.after[n - 1]);
        assert forall|k: int| 0 <= k < ids.len() implies (group_of(
            list,
            #[trigger] ids[k],
        ) matches Some(g) ==> g == own) && !shared.contains(ids[k]) by {
            assert(ids[k] == dep_ids(files, p.after[n - 1])[k]);
        }
        none_elsewhere(list, shared, own, ids, ids.len() as int);
    }
}

proof fn all_stay_home(
    files: Seq<FileView>,
    list: Seq<(Seq<char>, PatchView)>,
    shared: Seq<Seq<char>>,
    n: int,
)
    requires
        0 <= n <= list.len(),
        forall|i: int, d: int, k: int|
            0 <= i < list.len() && 0 <= d < list[i].1.after.len() && 0 <= k < dep_ids(
                files,
                list[i].1.after[d],
            ).len() ==> (group_of(
                list,
                #[trigger] dep_ids(files, list[i].1.after[d])[k],
            ) matches Some(g) ==> g == list[i].0) && !shared.contains(
                dep_ids(files, list[i].1.after[d])[k],
            ),
    ensures
        cross_group(files, list, n) is None,
        cross_phase(files, shared, list, n) is None,
    decreases n,
{
    if n > 0 {
        all_stay_home(files, list, shared, n - 1);
        let p = list[n - 1].1;
        let own = list[n - 1].0;
        assert forall|d: int, k: int|
            0 <= d < p.after.len() && 0 <= k < dep_ids(files, p.after[d]).len() implies (group_of(
            list,
            #[trigger] dep_ids(files, p.after[d])[k],
        ) matches Some(g) ==> g == own) && !shared.contains(dep_ids(files, p.after[d])[k]) by {
            assert(dep_ids(files, list[n - 1].1.after[d])[k] == dep_ids(files, p.after[d])[k]);
        }
        patch_stays(files, list, shared, own, p, p.after.len() as int);
    }
}

/// A fault is found only where there is reason for one: where every dependency of a
/// profile patch stays within its group and none leads to a shared patch, the two
/// phases can run.
pub proof fn no_fault_without_reason(files: Seq<FileView>, order: Seq<Seq<char>>)
    requires
        ({
            let all = all_patches(files);
            let groups = profile_groups(all, order);
            let list = members(groups, groups.len() as int);
            let shared = patch_ids(shared_patches(all, order));
            forall|i: int, d: int, k: int|
                0 <= i < list.len() && 0 <= d < list[i].1.after.len() && 0 <= k < dep_ids(
                    files,
                    list[i].1.after[d],
                ).len() ==> (group_of(
                    list,
                    #[trigger] dep_ids(files, list[i].1.after[d])[k],
                ) matches Some(g) ==> g == list[i].0) && !shared.contains(
                    dep_ids(files, list[i].1.after[d])[k],
                )
        }),
    ensures
        phase_fault(files, order) is None,
{
    let all = all_patches(files);
    let groups = profile_groups(all, order);
    let list = members(groups, groups.len() as int);
    all_stay_home(files, list, patch_ids(shared_patches(all, order)), list.len() as int);
}

} // verus!
