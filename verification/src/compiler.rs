//! Registration of patches and resolution of their dependencies.

use vstd::prelude::*;
pub use crate::condition::ConditionPrecompiler;
pub use crate::pipeline::{compile_and_execute_pipeline, compile_and_execute_pipeline_at};
use crate::error::{five, CompileError, PrismError};
use crate::expr::push_text;
use crate::graph::{
    complete_without_cycles, find_cycle, find_left_over, first_cycle, in_turn, in_turn_distinct,
    is_among, key_views, left_over, left_over_within, number_lists, numbers, order_is_unique,
    put_in_turn, stuck, told_apart, within, Needs,
};
use crate::ir::{patch_ref_views, patch_views, DepView, DependencyRef, Patch, PatchId, PatchView};
use crate::text::{chars_of, ends, ends_with, same_text, text_lt, text_of};
use crate::trace::last_with_id;

verus! {

// ---------------------------------------------------------------------------
// Files
// ---------------------------------------------------------------------------

/// A file with its patches.
#[verifier::ext_equal]
pub ghost struct FileView {
    pub name: Seq<char>,
    pub patches: Seq<PatchView>,
}

/// The patches of a file, and their identifiers.
struct FileEntry {
    name: String,
    patches: Vec<Patch>,
    ids: Vec<PatchId>,
}

impl FileEntry {
    closed spec fn view(&self) -> FileView {
        FileView { name: self.name@, patches: patch_views(self.patches@) }
    }

    closed spec fn wf(&self) -> bool {
        id_views(self.ids@) == patch_ids(patch_views(self.patches@))
    }
}

/// The texts of identifiers.
pub open spec fn id_views(v: Seq<PatchId>) -> Seq<Seq<char>> {
    Seq::new(v.len(), |i: int| v[i]@)
}

/// The identifiers of patches.
pub open spec fn patch_ids(p: Seq<PatchView>) -> Seq<Seq<char>> {
    Seq::new(p.len(), |i: int| p[i].id)
}

/// Patches, grouped by the files that they come from, in the order in which
/// the files were registered.
pub struct PatchCompiler {
    files: Vec<FileEntry>,
}

/// The first file with a name, or the number of files.
pub open spec fn file_index(files: Seq<FileView>, name: Seq<char>) -> int
    decreases files.len(),
{
    if files.len() == 0 || files[0].name == name {
        0
    } else {
        1 + file_index(files.drop_first(), name)
    }
}

/// The files with the patches of one set.
pub open spec fn with_file(files: Seq<FileView>, name: Seq<char>, patches: Seq<PatchView>) -> Seq<
    FileView,
> {
    let i = file_index(files, name);
    if 0 <= i < files.len() {
        files.update(i, FileView { name, patches })
    } else {
        files.push(FileView { name, patches })
    }
}

/// A file name without its suffix.
pub open spec fn short_name(name: Seq<char>) -> Seq<char> {
    if ends_with(name, ".prism.yaml"@) {
        name.subrange(0, name.len() - ".prism.yaml"@.len())
    } else if ends_with(name, ".prism.yml"@) {
        name.subrange(0, name.len() - ".prism.yml"@.len())
    } else {
        name
    }
}

/// The first file with a short name, or the number of files.
pub open spec fn short_index(files: Seq<FileView>, name: Seq<char>) -> int
    decreases files.len(),
{
    if files.len() == 0 || short_name(files[0].name) == name {
        0
    } else {
        1 + short_index(files.drop_first(), name)
    }
}

/// The file that a dependency names: by its name, or by its name without the
/// suffix.
pub open spec fn named_file(files: Seq<FileView>, name: Seq<char>) -> Option<int> {
    let i = file_index(files, name);
    let j = short_index(files, name);
    if i < files.len() {
        Some(i)
    } else if j < files.len() {
        Some(j)
    } else {
        None
    }
}

/// The file that a query names: as a dependency would, or by the short form of
/// the query.
pub open spec fn queried_file(files: Seq<FileView>, name: Seq<char>) -> Option<int> {
    match named_file(files, name) {
        Some(i) => Some(i),
        None => {
            let i = file_index(files, short_name(name));
            if i < files.len() {
                Some(i)
            } else {
                None
            }
        },
    }
}

/// All patches of the first `n` files.
pub open spec fn patches_upto(files: Seq<FileView>, n: int) -> Seq<PatchView>
    decreases n,
{
    if n <= 0 {
        Seq::empty()
    } else {
        patches_upto(files, n - 1) + files[n - 1].patches
    }
}

/// All patches.
pub open spec fn all_patches(files: Seq<FileView>) -> Seq<PatchView> {
    patches_upto(files, files.len() as int)
}

proof fn file_index_bounds(files: Seq<FileView>, name: Seq<char>)
    ensures
        0 <= file_index(files, name) <= files.len(),
        file_index(files, name) < files.len() ==> files[file_index(files, name)].name == name,
    decreases files.len(),
{
    if files.len() > 0 && files[0].name != name {
        file_index_bounds(files.drop_first(), name);
    }
}

proof fn short_index_bounds(files: Seq<FileView>, name: Seq<char>)
    ensures
        0 <= short_index(files, name) <= files.len(),
    decreases files.len(),
{
    if files.len() > 0 && short_name(files[0].name) != name {
        short_index_bounds(files.drop_first(), name);
    }
}

fn short_form(name: &str) -> (r: String)
    ensures
        r@ == short_name(name@),
{
    let chars = chars_of(name);
    let long = chars_of(".prism.yaml");
    let short = chars_of(".prism.yml");
    let n: usize = chars.len();
    if ends(chars.as_slice(), long.as_slice()) {
        text_of(vstd::slice::slice_subrange(chars.as_slice(), 0, n - long.len()))
    } else if ends(chars.as_slice(), short.as_slice()) {
        text_of(vstd::slice::slice_subrange(chars.as_slice(), 0, n - short.len()))
    } else {
        name.to_owned()
    }
}

fn ids_of(patches: &Vec<Patch>) -> (r: Vec<PatchId>)
    ensures
        id_views(r@) == patch_ids(patch_views(patches@)),
{
    let ghost all = patch_views(patches@);
    let mut out: Vec<PatchId> = Vec::new();
    let mut i: usize = 0;
    while i < patches.len()
        invariant
            i <= patches@.len(),
            all == patch_views(patches@),
            out@.len() == i,
            forall|j: int| 0 <= j < i ==> (#[trigger] out@[j])@ == all[j].id,
        decreases patches@.len() - i,
    {
        assert(all[i as int] == patches@[i as int]@);
        out.push(patches[i].id.clone());
        i = i + 1;
    }
    assert(id_views(out@) =~= patch_ids(all));
    out
}

impl PatchCompiler {
    /// The files with their patches.
    pub closed spec fn files(&self) -> Seq<FileView> {
        Seq::new(self.files@.len(), |i: int| self.files@[i]@)
    }

    /// Whether the identifiers that are kept are those of the patches.
    pub closed spec fn wf(&self) -> bool {
        forall|i: int| 0 <= i < self.files@.len() ==> (#[trigger] self.files@[i]).wf()
    }

    /// A compiler without patches.
    pub fn new() -> (r: PatchCompiler)
        ensures
            r.wf(),
            r.files() == Seq::<FileView>::empty(),
    {
        let r = PatchCompiler { files: Vec::new() };
        assert(r.files() =~= Seq::empty());
        r
    }

    /// The position of the file with a name.
    fn position(&self, name: &str) -> (r: Option<usize>)
        ensures
            match r {
                Some(i) => i == file_index(self.files(), name@) && i < self.files@.len(),
                None => file_index(self.files(), name@) == self.files().len(),
            },
    {
        let ghost all = self.files();
        let n: usize = self.files.len();
        let mut i: usize = 0;
        assert(all.skip(0) =~= all);
        while i < n
            invariant
                i <= n,
                n == self.files@.len(),
                all == self.files(),
                file_index(all, name@) == i + file_index(all.skip(i as int), name@),
            decreases n - i,
        {
            assert(all.skip(i as int)[0] == all[i as int]);
            assert(all[i as int] == self.files@[i as int]@);
            if same_text(self.files[i].name.as_str(), name) {
                return Some(i);
            }
            assert(all.skip(i as int).drop_first() =~= all.skip(i + 1));
            i = i + 1;
        }
        None
    }

    /// The position of the file with a short name.
    fn short_position(&self, name: &str) -> (r: Option<usize>)
        ensures
            match r {
                Some(i) => i == short_index(self.files(), name@) && i < self.files@.len(),
                None => short_index(self.files(), name@) == self.files().len(),
            },
    {
        let ghost all = self.files();
        let n: usize = self.files.len();
        let mut i: usize = 0;
        assert(all.skip(0) =~= all);
        while i < n
            invariant
                i <= n,
                n == self.files@.len(),
                all == self.files(),
                short_index(all, name@) == i + short_index(all.skip(i as int), name@),
            decreases n - i,
        {
            assert(all.skip(i as int)[0] == all[i as int]);
            assert(all[i as int] == self.files@[i as int]@);
            let short = short_form(self.files[i].name.as_str());
            if same_text(short.as_str(), name) {
                return Some(i);
            }
            assert(all.skip(i as int).drop_first() =~= all.skip(i + 1));
            i = i + 1;
        }
        None
    }

    /// The position of the file that a dependency names.
    fn named_position(&self, name: &str) -> (r: Option<usize>)
        ensures
            match r {
                Some(i) => named_file(self.files(), name@) == Some(i as int) && i
                    < self.files@.len(),
                None => named_file(self.files(), name@) is None,
            },
    {
        match self.position(name) {
            Some(i) => Some(i),
            None => self.short_position(name),
        }
    }

    /// Sets the patches of a file.
    pub fn register_patches(&mut self, file_name: &str, patches: Vec<Patch>) -> (r: Result<
        (),
        PrismError,
    >)
        requires
            old(self).wf(),
        ensures
            r is Ok,
            final(self).wf(),
            final(self).files() == with_file(old(self).files(), file_name@, patch_views(patches@)),
    {
        let ghost before = self.files();
        let ghost old_files = self.files@;
        let ids = ids_of(&patches);
        let entry = FileEntry { name: file_name.to_owned(), patches, ids };
        let ghost e = entry;
        assert(entry.wf());
        proof {
            file_index_bounds(before, file_name@);
        }
        match self.position(file_name) {
            Some(i) => {
                self.files.set(i, entry);
                assert(self.files() =~= before.update(i as int, e@));
                assert forall|j: int| 0 <= j < self.files@.len() implies (
                #[trigger] self.files@[j]).wf() by {
                    if j != i {
                        assert(self.files@[j] == old_files[j]);
                    }
                }
            },
            None => {
                self.files.push(entry);
                assert(self.files() =~= before.push(e@));
                assert forall|j: int| 0 <= j < self.files@.len() implies (
                #[trigger] self.files@[j]).wf() by {
                    if j < old_files.len() {
                        assert(self.files@[j] == old_files[j]);
                    }
                }
            },
        }
        Ok(())
    }

    /// The identifiers of the patches of a file, named in full, without its
    /// suffix, or with a suffix that it does not have.
    pub fn get_patch_ids_for_file(&self, file_name: &str) -> (r: Option<&[PatchId]>)
        requires
            self.wf(),
        ensures
            match r {
                Some(ids) => queried_file(self.files(), file_name@) matches Some(i) && id_views(
                    ids@,
                ) == patch_ids(self.files()[i].patches),
                None => queried_file(self.files(), file_name@) is None,
            },
    {
        let found = match self.named_position(file_name) {
            Some(i) => Some(i),
            None => {
                let short = short_form(file_name);
                proof {
                    file_index_bounds(self.files(), short@);
                }
                self.position(short.as_str())
            },
        };
        match found {
            Some(i) => {
                assert(self.files@[i as int].wf());
                assert(self.files()[i as int] == self.files@[i as int]@);
                Some(self.files[i].ids.as_slice())
            },
            None => None,
        }
    }

    /// All patches, file by file.
    pub fn get_all_patches(&self) -> (r: Vec<&Patch>)
        ensures
            patch_ref_views(r@) == all_patches(self.files()),
    {
        let ghost all = self.files();
        let mut out: Vec<&Patch> = Vec::new();
        let mut i: usize = 0;
        assert(patch_ref_views(out@) =~= Seq::empty());
        while i < self.files.len()
            invariant
                i <= self.files@.len(),
                all == self.files(),
                patch_ref_views(out@) == patches_upto(all, i as int),
            decreases self.files@.len() - i,
        {
            let list = &self.files[i].patches;
            assert(all[i as int] == self.files@[i as int]@);
            let ghost before = patch_ref_views(out@);
            let ghost own = patch_views(list@);
            assert(all[i as int].patches == own);
            let mut j: usize = 0;
            assert(before + own.take(0) =~= before);
            while j < list.len()
                invariant
                    j <= list@.len(),
                    own == patch_views(list@),
                    patch_ref_views(out@) == before + own.take(j as int),
                decreases list@.len() - j,
            {
                let ghost prev = patch_ref_views(out@);
                out.push(&list[j]);
                assert(patch_ref_views(out@) =~= prev.push(own[j as int]));
                assert(own.take(j + 1) =~= own.take(j as int).push(own[j as int]));
                j = j + 1;
                assert(patch_ref_views(out@) =~= before + own.take(j as int));
            }
            assert(own.take(own.len() as int) =~= own);
            i = i + 1;
        }
        out
    }

    /// The patches of a file.
    pub fn get_file_patches(&self, file_name: &str) -> (r: Option<&[Patch]>)
        ensures
            match r {
                Some(p) => ({
                    let i = file_index(self.files(), file_name@);
                    i < self.files().len() && patch_views(p@) == self.files()[i].patches
                }),
                None => file_index(self.files(), file_name@) == self.files().len(),
            },
    {
        match self.position(file_name) {
            Some(i) => {
                assert(self.files()[i as int] == self.files@[i as int]@);
                Some(self.files[i].patches.as_slice())
            },
            None => None,
        }
    }
}

impl Default for PatchCompiler {
    fn default() -> (r: PatchCompiler)
        ensures
            r.wf(),
            r.files() == Seq::<FileView>::empty(),
    {
        PatchCompiler::new()
    }
}

// ---------------------------------------------------------------------------
// Short names
// ---------------------------------------------------------------------------

/// Whether two files could be meant by one short name.
pub open spec fn clash(a: Seq<char>, b: Seq<char>) -> bool {
    short_name(a) == short_name(b) || short_name(a) == b || a == short_name(b)
}

/// The first of the first `n` files that clashes with an earlier one.
pub open spec fn first_clash(files: Seq<FileView>, n: int) -> Option<int>
    decreases n,
{
    if n <= 0 {
        None
    } else {
        match first_clash(files, n - 1) {
            Some(i) => Some(i),
            None => if clashes_before(files, n - 1) {
                Some(n - 1)
            } else {
                None
            },
        }
    }
}

/// Whether a file clashes with an earlier one.
pub open spec fn clashes_before(files: Seq<FileView>, i: int) -> bool {
    exists|j: int| 0 <= j < i && clash(files[i].name, (#[trigger] files[j]).name)
}

/// The message for a short name that two files share.
pub open spec fn clash_text(name: Seq<char>) -> Seq<char> {
    "短名称 '"@ + short_name(name) + "' 存在歧义：文件 '"@ + name
        + "' 与已注册的文件共享同一短名称。依赖引用可能匹配到非预期的文件。请使用完整文件名（如 '"@ + short_name(
        name,
    ) + ".prism.yaml'）避免歧义。"@
}

impl PatchCompiler {
    fn find_clash(&self) -> (r: Option<usize>)
        ensures
            match r {
                Some(i) => first_clash(self.files(), self.files().len() as int) == Some(i as int)
                    && i < self.files@.len(),
                None => first_clash(self.files(), self.files().len() as int) is None,
            },
    {
        let ghost all = self.files();
        let n: usize = self.files.len();
        let mut i: usize = 0;
        while i < n
            invariant
                i <= n,
                n == self.files@.len(),
                all == self.files(),
                first_clash(all, i as int) is None,
            decreases n - i,
        {
            let name = self.files[i].name.as_str();
            let short = short_form(name);
            assert(all[i as int] == self.files@[i as int]@);
            let mut j: usize = 0;
            while j < i
                invariant
                    j <= i < n,
                    n == self.files@.len(),
                    all == self.files(),
                    name@ == all[i as int].name,
                    short@ == short_name(name@),
                    first_clash(all, i as int) is None,
                    forall|k: int|
                        0 <= k < j ==> !clash(all[i as int].name, (#[trigger] all[k]).name),
                decreases i - j,
            {
                assert(all[j as int] == self.files@[j as int]@);
                let other = self.files[j].name.as_str();
                let other_short = short_form(other);
                if same_text(short.as_str(), other_short.as_str()) || same_text(
                    short.as_str(),
                    other,
                ) || same_text(name, other_short.as_str()) {
                    proof {
                        assert(clash(all[i as int].name, all[j as int].name));
                        assert(clashes_before(all, i as int));
                        first_clash_stays(all, i + 1, n as int);
                    }
                    return Some(i);
                }
                j = j + 1;
            }
            i = i + 1;
        }
        None
    }
}

proof fn first_clash_stays(files: Seq<FileView>, n: int, m: int)
    requires
        0 <= n <= m,
        first_clash(files, n) is Some,
    ensures
        first_clash(files, m) == first_clash(files, n),
    decreases m,
{
    if n < m {
        first_clash_stays(files, n, m - 1);
    }
}

// ---------------------------------------------------------------------------
// Dependencies
// ---------------------------------------------------------------------------

/// The patches that a dependency names, by their identifiers.
pub open spec fn dep_targets(files: Seq<FileView>, dep: DepView) -> Option<Seq<Seq<char>>> {
    match dep {
        DepView::FileName(name) => match named_file(files, name) {
            Some(i) => Some(patch_ids(files[i].patches)),
            None => None,
        },
        DepView::PatchId(id) => if last_with_id(all_patches(files), id) is Some {
            Some(seq![id])
        } else {
            None
        },
    }
}

/// The text of a dependency.
pub open spec fn dep_text(dep: DepView) -> Seq<char> {
    match dep {
        DepView::FileName(name) => name,
        DepView::PatchId(id) => id,
    }
}

/// The message for a dependency that names nothing.
pub open spec fn missing_text(p: PatchView, dep: DepView) -> Seq<char> {
    "`"@ + dep_text(dep) + "` 在文件 `"@ + (match p.source.file {
        Some(f) => f,
        None => "unknown"@,
    }) + "` 中未找到"@
}

/// The patches that the first `n` dependencies of a patch name, or the message
/// for the first of them that names nothing.
pub open spec fn patch_targets(files: Seq<FileView>, p: PatchView, n: int) -> Result<
    Seq<Seq<char>>,
    Seq<char>,
>
    decreases n,
{
    if n <= 0 {
        Ok(Seq::empty())
    } else {
        match patch_targets(files, p, n - 1) {
            Err(m) => Err(m),
            Ok(v) => match dep_targets(files, p.after[n - 1]) {
                Some(t) => Ok(v + t),
                None => Err(missing_text(p, p.after[n - 1])),
            },
        }
    }
}

/// The patches that each of the first `n` patches depends on, or the message
/// for the first dependency that names nothing.
pub open spec fn all_targets(files: Seq<FileView>, all: Seq<PatchView>, n: int) -> Result<
    Seq<Seq<Seq<char>>>,
    Seq<char>,
>
    decreases n,
{
    if n <= 0 {
        Ok(Seq::empty())
    } else {
        match all_targets(files, all, n - 1) {
            Err(m) => Err(m),
            Ok(v) => match patch_targets(files, all[n - 1], all[n - 1].after.len() as int) {
                Err(m) => Err(m),
                Ok(t) => Ok(v.push(t)),
            },
        }
    }
}

/// The identifiers of the first `n` patches, each where it appears first.
pub open spec fn distinct_ids(all: Seq<PatchView>, n: int) -> Seq<Seq<char>>
    decreases n,
{
    if n <= 0 {
        Seq::empty()
    } else {
        let before = distinct_ids(all, n - 1);
        if before.contains(all[n - 1].id) {
            before
        } else {
            before.push(all[n - 1].id)
        }
    }
}

/// The position of an identifier among others.
pub open spec fn id_index(ids: Seq<Seq<char>>, id: Seq<char>) -> int
    decreases ids.len(),
{
    if ids.len() == 0 || ids[0] == id {
        0
    } else {
        1 + id_index(ids.drop_first(), id)
    }
}

/// What the patches with an identifier depend on, among the first `n` patches.
pub open spec fn id_targets(
    all: Seq<PatchView>,
    targets: Seq<Seq<Seq<char>>>,
    id: Seq<char>,
    n: int,
) -> Seq<Seq<char>>
    decreases n,
{
    if n <= 0 {
        Seq::empty()
    } else if all[n - 1].id == id {
        id_targets(all, targets, id, n - 1) + targets[n - 1]
    } else {
        id_targets(all, targets, id, n - 1)
    }
}

/// The positions of identifiers among others.
pub open spec fn id_positions(ids: Seq<Seq<char>>, list: Seq<Seq<char>>) -> Seq<int> {
    Seq::new(list.len(), |k: int| id_index(ids, list[k]))
}

/// The dependency graph: its nodes are identifiers.
pub open spec fn graph_of(all: Seq<PatchView>, targets: Seq<Seq<Seq<char>>>) -> Needs {
    let ids = distinct_ids(all, all.len() as int);
    Seq::new(
        ids.len(),
        |x: int| id_positions(ids, id_targets(all, targets, ids[x], all.len() as int)),
    )
}

/// What a patch is sorted by: its file, or its identifier where it has none.
pub open spec fn sort_text(p: PatchView) -> Seq<char> {
    match p.source.file {
        Some(f) => f,
        None => p.id,
    }
}

/// What the nodes are sorted by, and their identifiers.
pub open spec fn graph_keys(all: Seq<PatchView>) -> Seq<(Seq<char>, Seq<char>)> {
    let ids = distinct_ids(all, all.len() as int);
    Seq::new(
        ids.len(),
        |x: int|
            (
                match last_with_id(all, ids[x]) {
                    Some(p) => sort_text(p),
                    None => Seq::empty(),
                },
                ids[x],
            ),
    )
}

/// The order in which the nodes come, as far as they do.
pub open spec fn turn_order(needs: Needs, keys: Seq<(Seq<char>, Seq<char>)>) -> Seq<int> {
    choose|r: Seq<int>| in_turn(needs, keys, r) && stuck(needs, r)
}

/// Texts with a separator between them.
pub open spec fn joined_texts(list: Seq<Seq<char>>, sep: Seq<char>) -> Seq<char>
    decreases list.len(),
{
    if list.len() == 0 {
        Seq::empty()
    } else if list.len() == 1 {
        list[0]
    } else {
        joined_texts(list.drop_last(), sep) + sep + list.last()
    }
}

/// The identifiers at positions.
pub open spec fn ids_at(ids: Seq<Seq<char>>, p: Seq<int>) -> Seq<Seq<char>> {
    Seq::new(p.len(), |i: int| ids[p[i]])
}

/// The nodes of those of the first `n` patches that have not come.
pub open spec fn waiting(all: Seq<PatchView>, ids: Seq<Seq<char>>, done: Seq<int>, n: int) -> Seq<
    int,
>
    decreases n,
{
    if n <= 0 {
        Seq::empty()
    } else {
        let x = id_index(ids, all[n - 1].id);
        let before = waiting(all, ids, done, n - 1);
        if done.contains(x) {
            before
        } else {
            before.push(x)
        }
    }
}

/// The description of a cycle: the identifiers along it where one is found, or
/// those of all patches that have not come.
pub open spec fn cycle_text(all: Seq<PatchView>, needs: Needs, done: Seq<int>) -> Seq<char> {
    let ids = distinct_ids(all, all.len() as int);
    let from = waiting(all, ids, done, all.len() as int);
    match first_cycle(left_over(needs, done), from, from.len() as int) {
        Some(c) => joined_texts(ids_at(ids, c), " → "@),
        None => joined_texts(ids_at(ids, from), ", "@),
    }
}

/// Why dependencies cannot be resolved.
#[verifier::ext_equal]
pub ghost enum Unresolved {
    /// A name that is ambiguous or names nothing.
    Name(Seq<char>),
    /// Patches that depend on themselves.
    Cycle(Seq<char>),
}

/// The order of patches, by their identifiers, or why there is none.
pub open spec fn resolution(files: Seq<FileView>) -> Result<Seq<Seq<char>>, Unresolved> {
    let all = all_patches(files);
    match first_clash(files, files.len() as int) {
        Some(i) => Err(Unresolved::Name(clash_text(files[i].name))),
        None => match all_targets(files, all, all.len() as int) {
            Err(m) => Err(Unresolved::Name(m)),
            Ok(targets) => {
                let ids = distinct_ids(all, all.len() as int);
                let needs = graph_of(all, targets);
                let order = turn_order(needs, graph_keys(all));
                if order.len() == all.len() {
                    Ok(ids_at(ids, order))
                } else {
                    Err(Unresolved::Cycle(cycle_text(all, needs, order)))
                }
            },
        },
    }
}

/// Whether a fault says why dependencies cannot be resolved.
pub open spec fn tells(e: PrismError, u: Unresolved) -> bool {
    match u {
        Unresolved::Name(m) => e matches PrismError::DslParse { message, file, line } && message@
            == m && file is None && line is None,
        Unresolved::Cycle(c) => e matches PrismError::CircularDependency { cycle } && cycle@ == c,
    }
}

// --- lemmas ---

proof fn id_index_bounds(ids: Seq<Seq<char>>, id: Seq<char>)
    ensures
        0 <= id_index(ids, id) <= ids.len(),
        id_index(ids, id) < ids.len() ==> ids[id_index(ids, id)] == id,
        ids.contains(id) ==> id_index(ids, id) < ids.len(),
    decreases ids.len(),
{
    if ids.len() > 0 && ids[0] != id {
        id_index_bounds(ids.drop_first(), id);
        if ids.contains(id) {
            let i = choose|i: int| 0 <= i < ids.len() && ids[i] == id;
            assert(ids.drop_first()[i - 1] == id);
        }
    }
}

/// Every identifier is listed once, and every listed one is that of a patch.
proof fn distinct_ids_list(all: Seq<PatchView>, n: int)
    requires
        0 <= n <= all.len(),
    ensures
        distinct_ids(all, n).no_duplicates(),
        distinct_ids(all, n).len() <= n,
        forall|i: int| 0 <= i < n ==> distinct_ids(all, n).contains(#[trigger] all[i].id),
        forall|k: int|
            0 <= k < distinct_ids(all, n).len() ==> last_with_id(
                all.take(n),
                #[trigger] distinct_ids(all, n)[k],
            ) is Some,
    decreases n,
{
    if n > 0 {
        distinct_ids_list(all, n - 1);
        let before = distinct_ids(all, n - 1);
        let now = distinct_ids(all, n);
        assert forall|i: int| 0 <= i < n implies now.contains(#[trigger] all[i].id) by {
            if i < n - 1 {
                assert(before.contains(all[i].id));
                let j = choose|j: int| 0 <= j < before.len() && before[j] == all[i].id;
                assert(now[j] == all[i].id);
            } else if !before.contains(all[n - 1].id) {
                assert(now[now.len() - 1] == all[n - 1].id);
            }
        }
        assert(all.take(n).drop_last() =~= all.take(n - 1));
        assert forall|k: int| 0 <= k < now.len() implies last_with_id(
            all.take(n),
            #[trigger] now[k],
        ) is Some by {
            if k < before.len() {
                assert(now[k] == before[k]);
            }
        }
    }
}

/// An identifier of which there is a patch is that of a patch.
proof fn last_with_id_is_one(all: Seq<PatchView>, id: Seq<char>)
    requires
        last_with_id(all, id) is Some,
    ensures
        exists|i: int| 0 <= i < all.len() && #[trigger] all[i].id == id,
    decreases all.len(),
{
    if all.last().id == id {
        assert(all[all.len() - 1].id == id);
    } else {
        last_with_id_is_one(all.drop_last(), id);
        let i = choose|i: int| 0 <= i < all.drop_last().len() && #[trigger] all.drop_last()[i].id == id;
        assert(all[i].id == id);
    }
}

proof fn file_patches_are_patches(files: Seq<FileView>, n: int, f: int, k: int)
    requires
        0 <= f < n <= files.len(),
        0 <= k < files[f].patches.len(),
    ensures
        exists|i: int|
            0 <= i < patches_upto(files, n).len() && #[trigger] patches_upto(files, n)[i]
                == files[f].patches[k],
    decreases n,
{
    let before = patches_upto(files, n - 1);
    let now = patches_upto(files, n);
    if f == n - 1 {
        assert(now[before.len() + k] == files[f].patches[k]);
    } else {
        file_patches_are_patches(files, n - 1, f, k);
        let i = choose|i: int|
            0 <= i < before.len() && #[trigger] before[i] == files[f].patches[k];
        assert(now[i] == files[f].patches[k]);
    }
}

/// What dependencies name are identifiers of patches.
proof fn targets_are_ids(files: Seq<FileView>, dep: DepView)
    ensures
        dep_targets(files, dep) matches Some(t) ==> forall|k: int|
            0 <= k < t.len() ==> distinct_ids(
                all_patches(files),
                all_patches(files).len() as int,
            ).contains(#[trigger] t[k]),
{
    let all = all_patches(files);
    distinct_ids_list(all, all.len() as int);
    if let Some(t) = dep_targets(files, dep) {
        match dep {
            DepView::FileName(name) => {
                file_index_bounds(files, name);
                short_index_bounds(files, name);
                let f = named_file(files, name)->0;
                assert forall|k: int| 0 <= k < t.len() implies distinct_ids(
                    all,
                    all.len() as int,
                ).contains(#[trigger] t[k]) by {
                    file_patches_are_patches(files, files.len() as int, f, k);
                    let i = choose|i: int|
                        0 <= i < all.len() && #[trigger] all[i] == files[f].patches[k];
                    assert(distinct_ids(all, all.len() as int).contains(all[i].id));
                }
            },
            DepView::PatchId(id) => {
                last_with_id_is_one(all, id);
                let i = choose|i: int| 0 <= i < all.len() && #[trigger] all[i].id == id;
                assert(distinct_ids(all, all.len() as int).contains(all[i].id));
            },
        }
    }
}

proof fn patch_targets_are_ids(files: Seq<FileView>, p: PatchView, n: int)
    requires
        0 <= n <= p.after.len(),
    ensures
        patch_targets(files, p, n) matches Ok(t) ==> forall|k: int|
            0 <= k < t.len() ==> distinct_ids(
                all_patches(files),
                all_patches(files).len() as int,
            ).contains(#[trigger] t[k]),
    decreases n,
{
    if n > 0 {
        patch_targets_are_ids(files, p, n - 1);
        targets_are_ids(files, p.after[n - 1]);
        if let Ok(t) = patch_targets(files, p, n) {
            let before = patch_targets(files, p, n - 1)->Ok_0;
            let own = dep_targets(files, p.after[n - 1])->0;
            assert forall|k: int| 0 <= k < t.len() implies distinct_ids(
                all_patches(files),
                all_patches(files).len() as int,
            ).contains(#[trigger] t[k]) by {
                if k < before.len() {
                    assert(t[k] == before[k]);
                } else {
                    assert(t[k] == own[k - before.len()]);
                }
            }
        }
    }
}

/// A fault among the first dependencies is the fault of all of them.
proof fn patch_targets_fail(files: Seq<FileView>, p: PatchView, n: int, m: int)
    requires
        0 <= n <= m,
        patch_targets(files, p, n) is Err,
    ensures
        patch_targets(files, p, m) == patch_targets(files, p, n),
    decreases m,
{
    if n < m {
        patch_targets_fail(files, p, n, m - 1);
    }
}

/// A fault among the first patches is the fault of all of them.
proof fn all_targets_fail(files: Seq<FileView>, all: Seq<PatchView>, n: int, m: int)
    requires
        0 <= n <= m,
        all_targets(files, all, n) is Err,
    ensures
        all_targets(files, all, m) == all_targets(files, all, n),
    decreases m,
{
    if n < m {
        all_targets_fail(files, all, n, m - 1);
    }
}

// --- the graph ---

fn is_id_among(ids: &Vec<&PatchId>, id: &str) -> (r: Option<usize>)
    ensures
        match r {
            Some(i) => i == id_index(ref_ids(ids@), id@) && i < ids@.len(),
            None => id_index(ref_ids(ids@), id@) == ids@.len() && !ref_ids(ids@).contains(id@),
        },
{
    let ghost all = ref_ids(ids@);
    let n: usize = ids.len();
    let mut i: usize = 0;
    assert(all.skip(0) =~= all);
    while i < n
        invariant
            i <= n,
            n == ids@.len(),
            all == ref_ids(ids@),
            id_index(all, id@) == i + id_index(all.skip(i as int), id@),
            forall|j: int| 0 <= j < i ==> all[j] != id@,
        decreases n - i,
    {
        assert(all.skip(i as int)[0] == all[i as int]);
        assert(all[i as int] == ids@[i as int]@);
        if same_text(ids[i].as_str(), id) {
            return Some(i);
        }
        assert(all.skip(i as int).drop_first() =~= all.skip(i + 1));
        i = i + 1;
    }
    None
}

/// The texts of references to identifiers.
pub open spec fn ref_ids(v: Seq<&PatchId>) -> Seq<Seq<char>> {
    Seq::new(v.len(), |i: int| v[i]@)
}

fn list_distinct<'a>(all: &Vec<&'a Patch>) -> (r: Vec<&'a PatchId>)
    ensures
        ref_ids(r@) == distinct_ids(patch_ref_views(all@), all@.len() as int),
{
    let ghost p = patch_ref_views(all@);
    let mut out: Vec<&'a PatchId> = Vec::new();
    let mut i: usize = 0;
    assert(ref_ids(out@) =~= Seq::empty());
    while i < all.len()
        invariant
            i <= all@.len(),
            p == patch_ref_views(all@),
            ref_ids(out@) == distinct_ids(p, i as int),
        decreases all@.len() - i,
    {
        let patch: &'a Patch = all[i];
        assert(p[i as int] == patch@);
        let ghost before = ref_ids(out@);
        proof {
            id_index_bounds(before, patch.id@);
        }
        if is_id_among(&out, patch.id.as_str()).is_none() {
            out.push(&patch.id);
            assert(ref_ids(out@) =~= before.push(p[i as int].id));
        } else {
            assert(before.contains(p[i as int].id)) by {
                let k = id_index(before, patch.id@);
                assert(before[k] == patch.id@);
            }
        }
        i = i + 1;
    }
    out
}

fn fault_of_missing(patch: &Patch, dep: &DependencyRef) -> (r: CompileError)
    ensures
        r matches CompileError::DependencyNotFound(m) && m@ == missing_text(patch@, dep@),
{
    let file: &str = match &patch.source.file {
        Some(f) => f.as_str(),
        None => "unknown",
    };
    let name: &str = match dep {
        DependencyRef::FileName(n) => n.as_str(),
        DependencyRef::PatchId(id) => id.as_str(),
    };
    CompileError::DependencyNotFound(five("`", name, "` 在文件 `", file, "` 中未找到"))
}

/// Positions of identifiers, with those of more of them behind.
proof fn positions_append(ids: Seq<Seq<char>>, a: Seq<Seq<char>>, b: Seq<Seq<char>>)
    ensures
        id_positions(ids, a + b) == id_positions(ids, a) + id_positions(ids, b),
{
    assert(id_positions(ids, a + b) =~= id_positions(ids, a) + id_positions(ids, b));
}

impl PatchCompiler {
    /// Adds what a dependency names, by position among the nodes.
    fn push_dep(
        &self,
        dep: &DependencyRef,
        ids: &Vec<&PatchId>,
        out: &mut Vec<usize>,
    ) -> (r: bool)
        requires
            self.wf(),
            ref_ids(ids@) == distinct_ids(
                all_patches(self.files()),
                all_patches(self.files()).len() as int,
            ),
        ensures
            r == dep_targets(self.files(), dep@) is Some,
            r ==> numbers(final(out)@) == numbers(old(out)@) + id_positions(
                ref_ids(ids@),
                dep_targets(self.files(), dep@)->0,
            ),
    {
        let ghost files = self.files();
        let ghost all = all_patches(files);
        let ghost nodes = ref_ids(ids@);
        proof {
            targets_are_ids(files, dep@);
            distinct_ids_list(all, all.len() as int);
        }
        match dep {
            DependencyRef::FileName(name) => match self.named_position(name.as_str()) {
                None => false,
                Some(f) => {
                    assert(self.files@[f as int].wf());
                    assert(files[f as int] == self.files@[f as int]@);
                    let list = &self.files[f].ids;
                    let ghost t = patch_ids(files[f as int].patches);
                    assert(id_views(list@) == t);
                    assert(dep_targets(files, dep@) == Some(t));
                    assert forall|j: int| 0 <= j < t.len() implies nodes.contains(
                        #[trigger] t[j],
                    ) by {
                        assert(nodes.contains(dep_targets(files, dep@)->0[j]));
                    }
                    let ghost before = numbers(out@);
                    let mut k: usize = 0;
                    assert(before + id_positions(nodes, t.take(0)) =~= before);
                    while k < list.len()
                        invariant
                            k <= list@.len(),
                            id_views(list@) == t,
                            nodes == ref_ids(ids@),
                            numbers(out@) == before + id_positions(nodes, t.take(k as int)),
                            forall|j: int| 0 <= j < t.len() ==> nodes.contains(#[trigger] t[j]),
                        decreases list@.len() - k,
                    {
                        assert(t[k as int] == list@[k as int]@);
                        assert(nodes.contains(t[k as int]));
                        let ghost sofar = numbers(out@);
                        match is_id_among(ids, list[k].as_str()) {
                            Some(x) => {
                                out.push(x);
                                assert(numbers(out@) =~= sofar.push(x as int));
                            },
                            None => {
                                assert(false);
                            },
                        }
                        assert(t.take(k + 1) =~= t.take(k as int).push(t[k as int]));
                        k = k + 1;
                        assert(numbers(out@) =~= before + id_positions(nodes, t.take(k as int)));
                    }
                    assert(t.take(t.len() as int) =~= t);
                    true
                },
            },
            DependencyRef::PatchId(id) => match is_id_among(ids, id.as_str()) {
                Some(x) => {
                    proof {
                        id_index_bounds(nodes, id@);
                        assert(nodes[x as int] == id@);
                        assert(all.take(all.len() as int) =~= all);
                        assert(last_with_id(all, nodes[x as int]) is Some);
                    }
                    let ghost before = numbers(out@);
                    out.push(x);
                    assert(numbers(out@) =~= before + id_positions(nodes, seq![id@]));
                    true
                },
                None => {
                    proof {
                        if last_with_id(all, id@) is Some {
                            last_with_id_is_one(all, id@);
                            let i = choose|i: int|
                                0 <= i < all.len() && #[trigger] all[i].id == id@;
                            assert(nodes.contains(all[i].id));
                        }
                    }
                    false
                },
            },
        }
    }

    /// What each patch depends on, by position among the nodes.
    fn collect_targets(&self, all: &Vec<&Patch>, ids: &Vec<&PatchId>) -> (r: Result<
        Vec<Vec<usize>>,
        CompileError,
    >)
        requires
            self.wf(),
            patch_ref_views(all@) == all_patches(self.files()),
            ref_ids(ids@) == distinct_ids(
                all_patches(self.files()),
                all_patches(self.files()).len() as int,
            ),
        ensures
            match r {
                Ok(v) => ({
                    let t = all_targets(
                        self.files(),
                        patch_ref_views(all@),
                        all@.len() as int,
                    );
                    &&& t is Ok
                    &&& t->Ok_0.len() == all@.len()
                    &&& v@.len() == all@.len()
                    &&& forall|i: int|
                        0 <= i < v@.len() ==> numbers((#[trigger] v@[i])@) == id_positions(
                            ref_ids(ids@),
                            t->Ok_0[i],
                        )
                }),
                Err(e) => e matches CompileError::DependencyNotFound(m) && all_targets(
                    self.files(),
                    patch_ref_views(all@),
                    all@.len() as int,
                ) == Err::<Seq<Seq<Seq<char>>>, Seq<char>>(m@),
            },
    {
        let ghost files = self.files();
        let ghost p = patch_ref_views(all@);
        let ghost nodes = ref_ids(ids@);
        let mut out: Vec<Vec<usize>> = Vec::new();
        let mut i: usize = 0;
        while i < all.len()
            invariant
                i <= all@.len(),
                self.wf(),
                files == self.files(),
                p == patch_ref_views(all@),
                p == all_patches(files),
                nodes == ref_ids(ids@),
                nodes == distinct_ids(p, p.len() as int),
                all_targets(files, p, i as int) is Ok,
                all_targets(files, p, i as int)->Ok_0.len() == i,
                out@.len() == i,
                forall|j: int|
                    0 <= j < i ==> numbers((#[trigger] out@[j])@) == id_positions(
                        nodes,
                        all_targets(files, p, i as int)->Ok_0[j],
                    ),
            decreases all@.len() - i,
        {
            let patch: &Patch = all[i];
            assert(p[i as int] == patch@);
            let ghost before = all_targets(files, p, i as int)->Ok_0;
            let mut own: Vec<usize> = Vec::new();
            let mut d: usize = 0;
            assert(numbers(own@) =~= id_positions(nodes, Seq::empty()));
            while d < patch.after.len()
                invariant
                    d <= patch.after@.len(),
                    i < all@.len(),
                    self.wf(),
                    files == self.files(),
                    p == patch_ref_views(all@),
                    p == all_patches(files),
                    p[i as int] == patch@,
                    nodes == ref_ids(ids@),
                    nodes == distinct_ids(p, p.len() as int),
                    all_targets(files, p, i as int) is Ok,
                    patch_targets(files, patch@, d as int) is Ok,
                    numbers(own@) == id_positions(
                        nodes,
                        patch_targets(files, patch@, d as int)->Ok_0,
                    ),
                decreases patch.after@.len() - d,
            {
                assert(patch@.after[d as int] == patch.after@[d as int]@);
                let ghost sofar = patch_targets(files, patch@, d as int)->Ok_0;
                if !self.push_dep(&patch.after[d], ids, &mut own) {
                    proof {
                        patch_targets_fail(files, patch@, d + 1, patch@.after.len() as int);
                        all_targets_fail(files, p, i + 1, p.len() as int);
                    }
                    return Err(fault_of_missing(patch, &patch.after[d]));
                }
                proof {
                    positions_append(
                        nodes,
                        sofar,
                        dep_targets(files, patch@.after[d as int])->0,
                    );
                }
                d = d + 1;
            }
            out.push(own);
            proof {
                let now = all_targets(files, p, i + 1)->Ok_0;
                assert forall|j: int| 0 <= j < i + 1 implies numbers((#[trigger] out@[j])@)
                    == id_positions(nodes, now[j]) by {
                    if j < i {
                        assert(now[j] == before[j]);
                    }
                }
            }
            i = i + 1;
        }
        Ok(out)
    }
}

/// What patches depend on are identifiers of patches.
proof fn all_targets_are_ids(files: Seq<FileView>, n: int)
    requires
        0 <= n <= all_patches(files).len(),
        all_targets(files, all_patches(files), n) is Ok,
    ensures
        ({
            let all = all_patches(files);
            let t = all_targets(files, all, n)->Ok_0;
            &&& t.len() == n
            &&& forall|i: int, k: int|
                0 <= i < n && 0 <= k < t[i].len() ==> distinct_ids(
                    all,
                    all.len() as int,
                ).contains(#[trigger] t[i][k])
        }),
    decreases n,
{
    if n > 0 {
        let all = all_patches(files);
        all_targets_are_ids(files, n - 1);
        let p = all[n - 1];
        patch_targets_are_ids(files, p, p.after.len() as int);
        let before = all_targets(files, all, n - 1)->Ok_0;
        let t = all_targets(files, all, n)->Ok_0;
        assert forall|i: int, k: int| 0 <= i < n && 0 <= k < t[i].len() implies distinct_ids(
            all,
            all.len() as int,
        ).contains(#[trigger] t[i][k]) by {
            if i < n - 1 {
                assert(t[i] == before[i]);
            }
        }
    }
}

proof fn id_targets_are_ids(
    all: Seq<PatchView>,
    targets: Seq<Seq<Seq<char>>>,
    ids: Seq<Seq<char>>,
    id: Seq<char>,
    n: int,
)
    requires
        0 <= n <= all.len(),
        targets.len() == all.len(),
        forall|i: int, k: int|
            0 <= i < all.len() && 0 <= k < targets[i].len() ==> ids.contains(
                #[trigger] targets[i][k],
            ),
    ensures
        forall|k: int|
            0 <= k < id_targets(all, targets, id, n).len() ==> ids.contains(
                #[trigger] id_targets(all, targets, id, n)[k],
            ),
    decreases n,
{
    if n > 0 {
        id_targets_are_ids(all, targets, ids, id, n - 1);
        let before = id_targets(all, targets, id, n - 1);
        let now = id_targets(all, targets, id, n);
        assert forall|k: int| 0 <= k < now.len() implies ids.contains(#[trigger] now[k]) by {
            if k < before.len() {
                assert(now[k] == before[k]);
            } else {
                assert(now[k] == targets[n - 1][k - before.len()]);
            }
        }
    }
}

/// The dependency graph is one.
proof fn graph_is_within(files: Seq<FileView>)
    requires
        all_targets(files, all_patches(files), all_patches(files).len() as int) is Ok,
    ensures
        ({
            let all = all_patches(files);
            let targets = all_targets(files, all, all.len() as int)->Ok_0;
            within(graph_of(all, targets)) && told_apart(graph_keys(all)) && graph_keys(all).len()
                == graph_of(all, targets).len()
        }),
{
    let all = all_patches(files);
    let n = all.len() as int;
    let targets = all_targets(files, all, n)->Ok_0;
    let ids = distinct_ids(all, n);
    let needs = graph_of(all, targets);
    all_targets_are_ids(files, n);
    distinct_ids_list(all, n);
    assert forall|x: int, j: int| 0 <= x < needs.len() && 0 <= j < needs[x].len() implies 0
        <= #[trigger] needs[x][j] < needs.len() by {
        id_targets_are_ids(all, targets, ids, ids[x], n);
        let t = id_targets(all, targets, ids[x], n);
        assert(ids.contains(t[j]));
        id_index_bounds(ids, t[j]);
    }
    let keys = graph_keys(all);
    assert forall|i: int, j: int| 0 <= i < keys.len() && 0 <= j < keys.len() && i != j implies (
    #[trigger] keys[i]).1 != (#[trigger] keys[j]).1 by {
        assert(ids[i] != ids[j]);
    }
}

/// The last patch with an identifier.
fn last_of<'a>(all: &Vec<&'a Patch>, id: &str) -> (r: Option<&'a Patch>)
    ensures
        match r {
            Some(p) => last_with_id(patch_ref_views(all@), id@) == Some(p@),
            None => last_with_id(patch_ref_views(all@), id@) is None,
        },
{
    let ghost p = patch_ref_views(all@);
    let mut n: usize = all.len();
    assert(p.take(p.len() as int) =~= p);
    while n > 0
        invariant
            n <= all@.len(),
            p == patch_ref_views(all@),
            last_with_id(p, id@) == last_with_id(p.take(n as int), id@),
        decreases n,
    {
        assert(p.take(n as int).last() == all@[n - 1]@);
        assert(p.take(n as int).drop_last() =~= p.take(n - 1));
        if same_text(all[n - 1].id.as_str(), id) {
            return Some(all[n - 1]);
        }
        n = n - 1;
    }
    None
}

fn build_keys(all: &Vec<&Patch>, ids: &Vec<&PatchId>) -> (r: Vec<(String, String)>)
    requires
        ref_ids(ids@) == distinct_ids(patch_ref_views(all@), all@.len() as int),
    ensures
        key_views(r@) == graph_keys(patch_ref_views(all@)),
{
    let ghost p = patch_ref_views(all@);
    let ghost nodes = ref_ids(ids@);
    let ghost keys = graph_keys(p);
    let mut out: Vec<(String, String)> = Vec::new();
    let mut x: usize = 0;
    while x < ids.len()
        invariant
            x <= ids@.len(),
            p == patch_ref_views(all@),
            nodes == ref_ids(ids@),
            nodes == distinct_ids(p, p.len() as int),
            keys == graph_keys(p),
            out@.len() == x,
            forall|j: int| 0 <= j < x ==> ((#[trigger] out@[j]).0@, out@[j].1@) == keys[j],
        decreases ids@.len() - x,
    {
        assert(nodes[x as int] == ids@[x as int]@);
        let id = ids[x].as_str();
        let key: String = match last_of(all, id) {
            Some(patch) => match &patch.source.file {
                Some(f) => f.clone(),
                None => patch.id.as_str().to_owned(),
            },
            None => String::new(),
        };
        out.push((key, id.to_owned()));
        x = x + 1;
    }
    assert(key_views(out@) =~= keys);
    out
}

fn build_graph(
    all: &Vec<&Patch>,
    ids: &Vec<&PatchId>,
    lists: &Vec<Vec<usize>>,
    targets: Ghost<Seq<Seq<Seq<char>>>>,
) -> (r: Vec<Vec<usize>>)
    requires
        ref_ids(ids@) == distinct_ids(patch_ref_views(all@), all@.len() as int),
        targets@.len() == all@.len(),
        lists@.len() == all@.len(),
        forall|i: int|
            0 <= i < lists@.len() ==> numbers((#[trigger] lists@[i])@) == id_positions(
                ref_ids(ids@),
                targets@[i],
            ),
    ensures
        number_lists(r@) == graph_of(patch_ref_views(all@), targets@),
{
    let ghost p = patch_ref_views(all@);
    let ghost nodes = ref_ids(ids@);
    let ghost graph = graph_of(p, targets@);
    let mut out: Vec<Vec<usize>> = Vec::new();
    let mut x: usize = 0;
    while x < ids.len()
        invariant
            x <= ids@.len(),
            p == patch_ref_views(all@),
            nodes == ref_ids(ids@),
            nodes == distinct_ids(p, p.len() as int),
            graph == graph_of(p, targets@),
            targets@.len() == all@.len(),
            lists@.len() == all@.len(),
            forall|i: int|
                0 <= i < lists@.len() ==> numbers((#[trigger] lists@[i])@) == id_positions(
                    nodes,
                    targets@[i],
                ),
            out@.len() == x,
            forall|j: int| 0 <= j < x ==> numbers((#[trigger] out@[j])@) == graph[j],
        decreases ids@.len() - x,
    {
        let id = ids[x].as_str();
        assert(nodes[x as int] == id@);
        let mut own: Vec<usize> = Vec::new();
        let mut i: usize = 0;
        assert(numbers(own@) =~= id_positions(nodes, Seq::empty()));
        while i < all.len()
            invariant
                i <= all@.len(),
                p == patch_ref_views(all@),
                nodes == ref_ids(ids@),
                targets@.len() == all@.len(),
                lists@.len() == all@.len(),
                forall|k: int|
                    0 <= k < lists@.len() ==> numbers((#[trigger] lists@[k])@) == id_positions(
                        nodes,
                        targets@[k],
                    ),
                numbers(own@) == id_positions(nodes, id_targets(p, targets@, id@, i as int)),
            decreases all@.len() - i,
        {
            assert(p[i as int] == all@[i as int]@);
            if same_text(all[i].id.as_str(), id) {
                let ghost before = numbers(own@);
                proof {
                    positions_append(
                        nodes,
                        id_targets(p, targets@, id@, i as int),
                        targets@[i as int],
                    );
                }
                push_all(&mut own, &lists[i]);
            }
            i = i + 1;
        }
        out.push(own);
        x = x + 1;
    }
    assert(number_lists(out@) =~= graph);
    out
}

fn push_all(out: &mut Vec<usize>, list: &Vec<usize>)
    ensures
        numbers(final(out)@) == numbers(old(out)@) + numbers(list@),
{
    let ghost before = numbers(out@);
    let ghost l = numbers(list@);
    let mut i: usize = 0;
    assert(before + l.take(0) =~= before);
    while i < list.len()
        invariant
            i <= list@.len(),
            l == numbers(list@),
            numbers(out@) == before + l.take(i as int),
        decreases list@.len() - i,
    {
        let ghost prev = numbers(out@);
        out.push(list[i]);
        assert(numbers(out@) =~= prev.push(l[i as int]));
        assert(l.take(i + 1) =~= l.take(i as int).push(l[i as int]));
        i = i + 1;
        assert(numbers(out@) =~= before + l.take(i as int));
    }
    assert(l.take(l.len() as int) =~= l);
}

fn join_ids(ids: &Vec<&PatchId>, list: &Vec<usize>, sep: &str) -> (r: String)
    requires
        forall|i: int| 0 <= i < list@.len() ==> #[trigger] list@[i] < ids@.len(),
    ensures
        r@ == joined_texts(ids_at(ref_ids(ids@), numbers(list@)), sep@),
{
    let ghost nodes = ref_ids(ids@);
    let ghost names = ids_at(nodes, numbers(list@));
    let mut out: Vec<char> = Vec::new();
    let mut i: usize = 0;
    while i < list.len()
        invariant
            i <= list@.len(),
            nodes == ref_ids(ids@),
            names == ids_at(nodes, numbers(list@)),
            forall|j: int| 0 <= j < list@.len() ==> #[trigger] list@[j] < ids@.len(),
            out@ == joined_texts(names.take(i as int), sep@),
        decreases list@.len() - i,
    {
        assert(numbers(list@)[i as int] == list@[i as int]);
        assert(names[i as int] == ids@[list@[i as int] as int]@);
        assert(names.take(i + 1).drop_last() =~= names.take(i as int));
        if i > 0 {
            push_text(&mut out, sep);
        }
        push_text(&mut out, ids[list[i]].as_str());
        i = i + 1;
        assert(out@ =~= joined_texts(names.take(i as int), sep@));
    }
    assert(names.take(names.len() as int) =~= names);
    text_of(out.as_slice())
}

fn list_waiting(all: &Vec<&Patch>, ids: &Vec<&PatchId>, done: &Vec<usize>) -> (r: Vec<usize>)
    requires
        ref_ids(ids@) == distinct_ids(patch_ref_views(all@), all@.len() as int),
    ensures
        numbers(r@) == waiting(
            patch_ref_views(all@),
            ref_ids(ids@),
            numbers(done@),
            all@.len() as int,
        ),
        forall|i: int| 0 <= i < r@.len() ==> #[trigger] r@[i] < ids@.len(),
{
    let ghost p = patch_ref_views(all@);
    let ghost nodes = ref_ids(ids@);
    let ghost d = numbers(done@);
    let mut out: Vec<usize> = Vec::new();
    let mut i: usize = 0;
    proof {
        distinct_ids_list(p, p.len() as int);
    }
    assert(numbers(out@) =~= Seq::empty());
    while i < all.len()
        invariant
            i <= all@.len(),
            p == patch_ref_views(all@),
            nodes == ref_ids(ids@),
            d == numbers(done@),
            forall|j: int| 0 <= j < p.len() ==> nodes.contains(#[trigger] p[j].id),
            numbers(out@) == waiting(p, nodes, d, i as int),
            forall|j: int| 0 <= j < out@.len() ==> #[trigger] out@[j] < ids@.len(),
        decreases all@.len() - i,
    {
        assert(p[i as int] == all@[i as int]@);
        assert(nodes.contains(p[i as int].id));
        match is_id_among(ids, all[i].id.as_str()) {
            Some(x) => {
                if !is_among(done, x) {
                    let ghost before = numbers(out@);
                    out.push(x);
                    assert(numbers(out@) =~= before.push(x as int));
                }
            },
            None => {
                assert(false);
            },
        }
        i = i + 1;
    }
    out
}

/// The order that comes to its end is the one that is chosen.
proof fn turn_order_is(needs: Needs, keys: Seq<(Seq<char>, Seq<char>)>, r: Seq<int>)
    requires
        told_apart(keys),
        keys.len() == needs.len(),
        in_turn(needs, keys, r),
        stuck(needs, r),
    ensures
        turn_order(needs, keys) == r,
{
    let t = turn_order(needs, keys);
    order_is_unique(needs, keys, t, r, t.len() as int);
}

impl PatchCompiler {
    /// Puts patches in the order of their dependencies; those without mutual
    /// dependency in the order of their files.
    fn topological_sort<'a>(&self, all: &Vec<&'a Patch>) -> (r: Result<
        Vec<&'a PatchId>,
        CompileError,
    >)
        requires
            self.wf(),
            patch_ref_views(all@) == all_patches(self.files()),
            first_clash(self.files(), self.files().len() as int) is None,
        ensures
            match r {
                Ok(v) => resolution(self.files()) == Ok::<Seq<Seq<char>>, Unresolved>(ref_ids(v@)),
                Err(CompileError::DependencyNotFound(m)) => resolution(self.files()) == Err::<
                    Seq<Seq<char>>,
                    Unresolved,
                >(Unresolved::Name(m@)),
                Err(CompileError::CircularDependency(c)) => resolution(self.files()) == Err::<
                    Seq<Seq<char>>,
                    Unresolved,
                >(Unresolved::Cycle(c@)),
                Err(_) => false,
            },
    {
        let ghost files = self.files();
        let ghost p = patch_ref_views(all@);
        let ids = list_distinct(all);
        let ghost nodes = ref_ids(ids@);
        let lists = match self.collect_targets(all, &ids) {
            Err(e) => return Err(e),
            Ok(v) => v,
        };
        let ghost targets = all_targets(files, p, p.len() as int)->Ok_0;
        let graph = build_graph(all, &ids, &lists, Ghost(targets));
        let keys = build_keys(all, &ids);
        let ghost needs = graph_of(p, targets);
        proof {
            graph_is_within(files);
        }
        let order = put_in_turn(&graph, &keys);
        proof {
            turn_order_is(needs, graph_keys(p), numbers(order@));
        }
        if order.len() != all.len() {
            let left = find_left_over(&graph, &order);
            let from = list_waiting(all, &ids, &order);
            proof {
                left_over_within(needs, numbers(order@));
            }
            let text = match find_cycle(&left, &from) {
                Some(c) => join_ids(&ids, &c, " → "),
                None => join_ids(&ids, &from, ", "),
            };
            return Err(CompileError::CircularDependency(text));
        }
        let mut out: Vec<&'a PatchId> = Vec::new();
        let mut i: usize = 0;
        while i < order.len()
            invariant
                i <= order@.len(),
                nodes == ref_ids(ids@),
                forall|j: int| 0 <= j < order@.len() ==> #[trigger] order@[j] < ids@.len(),
                out@.len() == i,
                forall|j: int|
                    0 <= j < i ==> (#[trigger] out@[j])@ == nodes[numbers(order@)[j]],
            decreases order@.len() - i,
        {
            assert(numbers(order@)[i as int] == order@[i as int]);
            out.push(ids[order[i]]);
            i = i + 1;
        }
        assert(ref_ids(out@) =~= ids_at(nodes, numbers(order@)));
        Ok(out)
    }

    /// The identifiers of all patches, in the order of their dependencies.
    ///
    /// A dependency names a file in full or without its suffix, or a patch.
    pub fn resolve_dependencies(&self) -> (r: Result<Vec<PatchId>, PrismError>)
        requires
            self.wf(),
        ensures
            match r {
                Ok(v) => resolution(self.files()) == Ok::<Seq<Seq<char>>, Unresolved>(
                    id_views(v@),
                ),
                Err(e) => resolution(self.files()) matches Err(u) && tells(e, u),
            },
    {
        if let Some(i) = self.find_clash() {
            let name = self.files[i].name.as_str();
            assert(self.files()[i as int] == self.files@[i as int]@);
            let short = short_form(name);
            let mut m = five(
                "短名称 '",
                short.as_str(),
                "' 存在歧义：文件 '",
                name,
                "' 与已注册的文件共享同一短名称。依赖引用可能匹配到非预期的文件。请使用完整文件名（如 '",
            );
            m.append(short.as_str());
            m.append(".prism.yaml'）避免歧义。");
            return Err(PrismError::DslParse { message: m, file: None, line: None });
        }
        let all = self.get_all_patches();
        match self.topological_sort(&all) {
            Ok(sorted) => {
                let ghost s = ref_ids(sorted@);
                let mut out: Vec<PatchId> = Vec::new();
                let mut i: usize = 0;
                while i < sorted.len()
                    invariant
                        i <= sorted@.len(),
                        s == ref_ids(sorted@),
                        out@.len() == i,
                        forall|j: int| 0 <= j < i ==> (#[trigger] out@[j])@ == s[j],
                    decreases sorted@.len() - i,
                {
                    assert(s[i as int] == sorted@[i as int]@);
                    out.push(sorted[i].clone());
                    i = i + 1;
                }
                assert(id_views(out@) =~= s);
                Ok(out)
            },
            Err(CompileError::CircularDependency(cycle)) => Err(
                PrismError::CircularDependency { cycle },
            ),
            Err(CompileError::DependencyNotFound(message)) => Err(
                PrismError::DslParse { message, file: None, line: None },
            ),
            Err(other) => Err(
                PrismError::DslParse { message: other.message(), file: None, line: None },
            ),
        }
    }
}

// ---------------------------------------------------------------------------
// Laws of resolution
// ---------------------------------------------------------------------------

/// Where dependencies name patches, there is an order.
proof fn turn_order_exists(files: Seq<FileView>)
    requires
        all_targets(files, all_patches(files), all_patches(files).len() as int) is Ok,
    ensures
        ({
            let all = all_patches(files);
            let targets = all_targets(files, all, all.len() as int)->Ok_0;
            let needs = graph_of(all, targets);
            let order = turn_order(needs, graph_keys(all));
            in_turn(needs, graph_keys(all), order) && stuck(needs, order)
        }),
{
    let all = all_patches(files);
    let targets = all_targets(files, all, all.len() as int)->Ok_0;
    let needs = graph_of(all, targets);
    let keys = graph_keys(all);
    graph_is_within(files);
    let none = Seq::<int>::empty();
    assert(in_turn(needs, keys, none));
    let r = crate::graph::an_order_exists(needs, keys, none);
    assert(in_turn(needs, keys, r) && stuck(needs, r));
}

/// An order holds every patch once.
pub proof fn order_holds_every_patch(files: Seq<FileView>, order: Seq<Seq<char>>, a: int)
    requires
        resolution(files) == Ok::<Seq<Seq<char>>, Unresolved>(order),
        0 <= a < all_patches(files).len(),
    ensures
        order.len() == all_patches(files).len(),
        order.no_duplicates(),
        order.contains(all_patches(files)[a].id),
{
    let all = all_patches(files);
    let n = all.len() as int;
    let targets = all_targets(files, all, n)->Ok_0;
    let ids = distinct_ids(all, n);
    let needs = graph_of(all, targets);
    let keys = graph_keys(all);
    let turn = turn_order(needs, keys);
    turn_order_exists(files);
    in_turn_distinct(needs, keys, turn);
    distinct_ids_list(all, n);
    assert(ids.len() == n);
    assert forall|i: int, j: int| 0 <= i < order.len() && 0 <= j < order.len() && i
        != j implies order[i] != order[j] by {
        assert(turn[i] != turn[j]);
        assert(ids[turn[i]] != ids[turn[j]]);
    }
    assert(ids.contains(all[a].id));
    let x = choose|x: int| 0 <= x < ids.len() && ids[x] == all[a].id;
    crate::graph::all_distinct_is_all(turn, n, x);
    let i = choose|i: int| 0 <= i < turn.len() && turn[i] == x;
    assert(order[i] == all[a].id);
}

/// In an order, every patch comes after the patches that it depends on.
pub proof fn dependencies_come_first(
    files: Seq<FileView>,
    order: Seq<Seq<char>>,
    j: int,
    a: int,
    k: int,
)
    requires
        resolution(files) == Ok::<Seq<Seq<char>>, Unresolved>(order),
        0 <= j < order.len(),
        0 <= a < all_patches(files).len(),
        order[j] == all_patches(files)[a].id,
        patch_targets(
            files,
            all_patches(files)[a],
            all_patches(files)[a].after.len() as int,
        ) is Ok,
        0 <= k < patch_targets(
            files,
            all_patches(files)[a],
            all_patches(files)[a].after.len() as int,
        )->Ok_0.len(),
    ensures
        exists|i: int|
            0 <= i < j && #[trigger] order[i] == patch_targets(
                files,
                all_patches(files)[a],
                all_patches(files)[a].after.len() as int,
            )->Ok_0[k],
{
    let all = all_patches(files);
    let n = all.len() as int;
    let targets = all_targets(files, all, n)->Ok_0;
    let ids = distinct_ids(all, n);
    let needs = graph_of(all, targets);
    let keys = graph_keys(all);
    let turn = turn_order(needs, keys);
    let wanted = patch_targets(files, all[a], all[a].after.len() as int)->Ok_0;
    turn_order_exists(files);
    in_turn_distinct(needs, keys, turn);
    distinct_ids_list(all, n);
    graph_is_within(files);
    all_targets_are_ids(files, n);
    targets_of_patch(files, all, n, a);
    assert(targets[a] == wanted);
    let x = turn[j];
    assert(ids[x] == all[a].id);
    id_targets_hold(all, targets, ids[x], n, a, k);
    let list = id_targets(all, targets, ids[x], n);
    let m = choose|m: int| 0 <= m < list.len() && list[m] == targets[a][k];
    let y = needs[x][m];
    assert(y == id_index(ids, list[m]));
    assert(ids.contains(targets[a][k]));
    id_index_bounds(ids, list[m]);
    assert(needs[x].contains(y));
    crate::graph::needs_come_first(needs, keys, turn, j, y);
    let i = choose|i: int| 0 <= i < j && turn[i] == y;
    assert(order[i] == wanted[k]);
}

proof fn targets_of_patch(files: Seq<FileView>, all: Seq<PatchView>, n: int, a: int)
    requires
        0 <= a < n <= all.len(),
        all_targets(files, all, n) is Ok,
    ensures
        all_targets(files, all, n)->Ok_0.len() == n,
        patch_targets(files, all[a], all[a].after.len() as int) == Ok::<
            Seq<Seq<char>>,
            Seq<char>,
        >(all_targets(files, all, n)->Ok_0[a]),
    decreases n,
{
    if a < n - 1 {
        targets_of_patch(files, all, n - 1, a);
    } else if n > 1 {
        targets_of_patch(files, all, n - 1, 0);
    }
}

proof fn id_targets_hold(
    all: Seq<PatchView>,
    targets: Seq<Seq<Seq<char>>>,
    id: Seq<char>,
    n: int,
    a: int,
    k: int,
)
    requires
        0 <= a < n <= all.len(),
        all[a].id == id,
        0 <= k < targets[a].len(),
    ensures
        id_targets(all, targets, id, n).contains(targets[a][k]),
    decreases n,
{
    let before = id_targets(all, targets, id, n - 1);
    let now = id_targets(all, targets, id, n);
    if a == n - 1 {
        assert(now[before.len() + k] == targets[a][k]);
    } else {
        id_targets_hold(all, targets, id, n - 1, a, k);
        let i = choose|i: int| 0 <= i < before.len() && before[i] == targets[a][k];
        assert(now[i] == targets[a][k]);
    }
}

proof fn all_ids_differ(all: Seq<PatchView>, n: int)
    requires
        0 <= n <= all.len(),
        distinct_ids(all, n).len() == n,
    ensures
        forall|i: int| 0 <= i < n ==> distinct_ids(all, n)[i] == #[trigger] all[i].id,
    decreases n,
{
    if n > 0 {
        distinct_ids_list(all, n - 1);
        all_ids_differ(all, n - 1);
        let before = distinct_ids(all, n - 1);
        assert forall|i: int| 0 <= i < n implies distinct_ids(all, n)[i] == #[trigger] all[i].id by {
            if i < n - 1 {
                assert(before[i] == all[i].id);
            }
        }
    }
}

proof fn only_with_id(all: Seq<PatchView>, targets: Seq<Seq<Seq<char>>>, n: int, b: int)
    requires
        0 <= b < n <= all.len(),
        forall|i: int, j: int|
            0 <= i < j < all.len() ==> (#[trigger] all[i]).id != (#[trigger] all[j]).id,
    ensures
        id_targets(all, targets, all[b].id, n) == targets[b],
        last_with_id(all.take(n), all[b].id) == Some(all[b]),
    decreases n,
{
    assert(all.take(n).drop_last() =~= all.take(n - 1));
    assert(all.take(n).last() == all[n - 1]);
    if b < n - 1 {
        only_with_id(all, targets, n - 1, b);
        assert(all[b].id != all[n - 1].id);
    } else {
        nothing_with_id(all, targets, n - 1, b);
        assert(Seq::<Seq<char>>::empty() + targets[b] =~= targets[b]);
    }
}

proof fn nothing_with_id(all: Seq<PatchView>, targets: Seq<Seq<Seq<char>>>, n: int, b: int)
    requires
        0 <= n <= b < all.len(),
        forall|i: int, j: int|
            0 <= i < j < all.len() ==> (#[trigger] all[i]).id != (#[trigger] all[j]).id,
    ensures
        id_targets(all, targets, all[b].id, n) == Seq::<Seq<char>>::empty(),
    decreases n,
{
    if n > 0 {
        nothing_with_id(all, targets, n - 1, b);
        assert(all[n - 1].id != all[b].id);
    }
}

/// Among patches whose dependencies have all come, the one whose file name comes
/// first in the order of texts comes first; patches of one file come in the order
/// of their identifiers.
pub proof fn names_decide(
    files: Seq<FileView>,
    order: Seq<Seq<char>>,
    i: int,
    j: int,
    a: int,
    b: int,
)
    requires
        resolution(files) == Ok::<Seq<Seq<char>>, Unresolved>(order),
        0 <= i < j < order.len(),
        0 <= a < all_patches(files).len(),
        0 <= b < all_patches(files).len(),
        order[i] == all_patches(files)[a].id,
        order[j] == all_patches(files)[b].id,
        ({
            let p = all_patches(files)[b];
            patch_targets(files, p, p.after.len() as int) matches Ok(t) && forall|k: int|
                0 <= k < t.len() ==> order.take(i).contains(#[trigger] t[k])
        }),
    ensures
        ({
            let first = all_patches(files)[a];
            let second = all_patches(files)[b];
            text_lt(sort_text(first), sort_text(second)) || sort_text(first) == sort_text(second)
                && text_lt(first.id, second.id)
        }),
{
    let all = all_patches(files);
    let n = all.len() as int;
    let targets = all_targets(files, all, n)->Ok_0;
    let ids = distinct_ids(all, n);
    let needs = graph_of(all, targets);
    let keys = graph_keys(all);
    let turn = turn_order(needs, keys);
    turn_order_exists(files);
    in_turn_distinct(needs, keys, turn);
    distinct_ids_list(all, n);
    targets_of_patch(files, all, n, b);
    all_ids_differ(all, n);
    assert forall|x: int, y: int| 0 <= x < y < all.len() implies (#[trigger] all[x]).id != (
    #[trigger] all[y]).id by {
        assert(ids[x] == all[x].id && ids[y] == all[y].id);
    }
    only_with_id(all, targets, n, a);
    only_with_id(all, targets, n, b);
    assert(all.take(n) =~= all);
    assert(ids[turn[i]] == ids[a] && ids[turn[j]] == ids[b]);
    assert(turn[i] == a && turn[j] == b);
    let done = turn.take(i);
    let wanted = patch_targets(files, all[b], all[b].after.len() as int)->Ok_0;
    assert(wanted == targets[b]);
    assert(ids[b] == all[b].id);
    assert(needs[b] == id_positions(ids, wanted));
    assert forall|k: int| 0 <= k < needs[b].len() implies done.contains(#[trigger] needs[b][k]) by {
        let t = wanted[k];
        assert(order.take(i).contains(t));
        let m = choose|m: int| 0 <= m < i && order.take(i)[m] == t;
        assert(ids[turn[m]] == t);
        id_index_bounds(ids, t);
        assert(ids.contains(t));
        assert(ids[id_index(ids, t)] == ids[turn[m]]);
        assert(needs[b][k] == turn[m]);
        assert(done[m] == turn[m]);
    }
    assert(!done.contains(b)) by {
        if done.contains(b) {
            let m = choose|m: int| 0 <= m < i && done[m] == b;
            assert(turn[m] == turn[j]);
        }
    }
    assert(crate::graph::ready(needs, done, b));
    assert(crate::graph::comes_next(needs, keys, done, turn[i]));
}

/// Patches with different identifiers, whose dependencies all name something,
/// have an order exactly where the dependencies form no cycle.
pub proof fn cycles_are_the_only_obstacle(files: Seq<FileView>)
    requires
        first_clash(files, files.len() as int) is None,
        all_targets(files, all_patches(files), all_patches(files).len() as int) is Ok,
        distinct_ids(all_patches(files), all_patches(files).len() as int).len() == all_patches(
            files,
        ).len(),
    ensures
        ({
            let all = all_patches(files);
            let targets = all_targets(files, all, all.len() as int)->Ok_0;
            resolution(files) is Ok <==> forall|path: Seq<int>|
                !#[trigger] crate::graph::is_cycle(graph_of(all, targets), path)
        }),
{
    let all = all_patches(files);
    let targets = all_targets(files, all, all.len() as int)->Ok_0;
    let needs = graph_of(all, targets);
    graph_is_within(files);
    turn_order_exists(files);
    complete_without_cycles(needs, graph_keys(all), turn_order(needs, graph_keys(all)));
}

proof fn waiting_holds(all: Seq<PatchView>, ids: Seq<Seq<char>>, done: Seq<int>, n: int, a: int)
    requires
        0 <= a < n <= all.len(),
        !done.contains(id_index(ids, all[a].id)),
    ensures
        waiting(all, ids, done, n).contains(id_index(ids, all[a].id)),
    decreases n,
{
    let before = waiting(all, ids, done, n - 1);
    let now = waiting(all, ids, done, n);
    let x = id_index(ids, all[a].id);
    if a == n - 1 {
        assert(now[now.len() - 1] == x);
    } else {
        waiting_holds(all, ids, done, n - 1, a);
        let i = choose|i: int| 0 <= i < before.len() && before[i] == x;
        assert(now[i] == x);
    }
}

proof fn waiting_are_nodes(all: Seq<PatchView>, ids: Seq<Seq<char>>, done: Seq<int>, n: int)
    requires
        0 <= n <= all.len(),
        forall|i: int| 0 <= i < all.len() ==> ids.contains(#[trigger] all[i].id),
    ensures
        forall|i: int|
            0 <= i < waiting(all, ids, done, n).len() ==> 0 <= #[trigger] waiting(
                all,
                ids,
                done,
                n,
            )[i] < ids.len(),
    decreases n,
{
    if n > 0 {
        waiting_are_nodes(all, ids, done, n - 1);
        let before = waiting(all, ids, done, n - 1);
        let now = waiting(all, ids, done, n);
        assert(ids.contains(all[n - 1].id));
        id_index_bounds(ids, all[n - 1].id);
        assert forall|i: int| 0 <= i < now.len() implies 0 <= #[trigger] now[i] < ids.len() by {
            if i < before.len() {
                assert(now[i] == before[i]);
            }
        }
    }
}

/// Where patches with different identifiers have no order, the fault names the
/// patches along a cycle of dependencies.
pub proof fn reported_cycle_is_a_cycle(files: Seq<FileView>, text: Seq<char>)
    requires
        resolution(files) == Err::<Seq<Seq<char>>, Unresolved>(Unresolved::Cycle(text)),
        distinct_ids(all_patches(files), all_patches(files).len() as int).len() == all_patches(
            files,
        ).len(),
    ensures
        ({
            let all = all_patches(files);
            let targets = all_targets(files, all, all.len() as int)->Ok_0;
            let ids = distinct_ids(all, all.len() as int);
            exists|c: Seq<int>| #[trigger]
                crate::graph::is_cycle(graph_of(all, targets), c) && text == joined_texts(
                    ids_at(ids, c),
                    " → "@,
                )
        }),
{
    let all = all_patches(files);
    let n = all.len() as int;
    let targets = all_targets(files, all, n)->Ok_0;
    let ids = distinct_ids(all, n);
    let needs = graph_of(all, targets);
    let keys = graph_keys(all);
    let turn = turn_order(needs, keys);
    graph_is_within(files);
    turn_order_exists(files);
    in_turn_distinct(needs, keys, turn);
    distinct_ids_list(all, n);
    let from = waiting(all, ids, turn, n);
    let left = left_over(needs, turn);
    left_over_within(needs, turn);
    assert forall|y: int| 0 <= y < needs.len() && !turn.contains(y) implies from.contains(y) by {
        assert(all.take(n) =~= all);
        assert(last_with_id(all, ids[y]) is Some);
        last_with_id_is_one(all, ids[y]);
        let a = choose|a: int| 0 <= a < all.len() && #[trigger] all[a].id == ids[y];
        id_index_bounds(ids, ids[y]);
        assert(ids.contains(ids[y]));
        assert(id_index(ids, ids[y]) == y);
        waiting_holds(all, ids, turn, n, a);
    }
    let x = crate::graph::someone_missing(turn, needs.len() as int);
    crate::graph::what_is_left_holds_a_cycle(needs, turn, from, x);
    waiting_are_nodes(all, ids, turn, n);
    crate::graph::found_cycles_are_cycles(left, from, from.len() as int);
    let c = first_cycle(left, from, from.len() as int)->0;
    crate::graph::left_over_cycles(needs, turn, c);
}

// --- names and what they mean ---

/// The suffix of a file of patches is not part of its short name.
pub proof fn suffixes_are_left_out(stem: Seq<char>)
    ensures
        short_name(stem + ".prism.yaml"@) == stem,
        short_name(stem + ".prism.yml"@) == stem,
        !ends_with(stem, ".prism.yaml"@) && !ends_with(stem, ".prism.yml"@) ==> short_name(stem)
            == stem,
{
    reveal_strlit(".prism.yaml");
    reveal_strlit(".prism.yml");
    let long = stem + ".prism.yaml"@;
    let short = stem + ".prism.yml"@;
    assert(long.subrange(stem.len() as int, long.len() as int) =~= ".prism.yaml"@);
    assert(short.subrange(stem.len() as int, short.len() as int) =~= ".prism.yml"@);
    assert(long.subrange(0, stem.len() as int) =~= stem);
    assert(short.subrange(0, stem.len() as int) =~= stem);
    if ends_with(short, ".prism.yaml"@) {
        let end = short.subrange(short.len() - 11, short.len() as int);
        assert(end == ".prism.yaml"@);
        assert(end[8] == 'a');
        assert(end[8] == short[short.len() - 3]);
        assert(short[short.len() - 3] == ".prism.yml"@[7]);
    }
}

proof fn file_index_first(files: Seq<FileView>, name: Seq<char>)
    ensures
        forall|j: int| 0 <= j < file_index(files, name) ==> (#[trigger] files[j]).name != name,
    decreases files.len(),
{
    file_index_bounds(files, name);
    if files.len() > 0 && files[0].name != name {
        let rest = files.drop_first();
        file_index_first(rest, name);
        assert forall|j: int| 0 <= j < file_index(files, name) implies (#[trigger] files[j]).name
            != name by {
            if j > 0 {
                assert(rest[j - 1] == files[j]);
            }
        }
    }
}

proof fn short_index_first(files: Seq<FileView>, name: Seq<char>)
    ensures
        forall|j: int|
            0 <= j < short_index(files, name) ==> short_name((#[trigger] files[j]).name) != name,
        short_index(files, name) < files.len() ==> short_name(
            files[short_index(files, name)].name,
        ) == name,
    decreases files.len(),
{
    short_index_bounds(files, name);
    if files.len() > 0 && short_name(files[0].name) != name {
        let rest = files.drop_first();
        short_index_first(rest, name);
        short_index_bounds(rest, name);
        if short_index(rest, name) < rest.len() {
            assert(rest[short_index(rest, name)] == files[short_index(files, name)]);
        }
        assert forall|j: int| 0 <= j < short_index(files, name) implies short_name(
            (#[trigger] files[j]).name,
        ) != name by {
            if j > 0 {
                assert(rest[j - 1] == files[j]);
            }
        }
    }
}

/// A name means the first file of that name, and where there is none the first
/// file of that short name; it means nothing only where there is neither.
pub proof fn which_file_is_meant(files: Seq<FileView>, name: Seq<char>)
    ensures
        match named_file(files, name) {
            Some(i) => 0 <= i < files.len() && {
                ||| files[i].name == name && forall|j: int|
                    0 <= j < i ==> (#[trigger] files[j]).name != name
                ||| (forall|j: int| 0 <= j < files.len() ==> (#[trigger] files[j]).name != name)
                    && short_name(files[i].name) == name && forall|j: int|
                    0 <= j < i ==> short_name((#[trigger] files[j]).name) != name
            },
            None => forall|j: int|
                0 <= j < files.len() ==> (#[trigger] files[j]).name != name && short_name(
                    files[j].name,
                ) != name,
        },
{
    file_index_bounds(files, name);
    short_index_bounds(files, name);
    file_index_first(files, name);
    short_index_first(files, name);
}

/// A query means what a dependency of that name means, and where that is nothing
/// the first file whose name is the query without its suffix.
pub proof fn which_file_is_queried(files: Seq<FileView>, name: Seq<char>)
    ensures
        named_file(files, name) is Some ==> queried_file(files, name) == named_file(files, name),
        named_file(files, name) is None ==> match queried_file(files, name) {
            Some(i) => 0 <= i < files.len() && files[i].name == short_name(name) && forall|j: int|
                0 <= j < i ==> (#[trigger] files[j]).name != short_name(name),
            None => forall|j: int|
                0 <= j < files.len() ==> (#[trigger] files[j]).name != short_name(name),
        },
{
    file_index_bounds(files, short_name(name));
    file_index_first(files, short_name(name));
}

/// The patches of a file that is registered once more replace those that it had;
/// a new file comes last, and no other file changes.
pub proof fn files_are_replaced_or_added(
    files: Seq<FileView>,
    name: Seq<char>,
    patches: Seq<PatchView>,
    i: int,
)
    requires
        0 <= i < files.len(),
        forall|j: int| 0 <= j < i ==> (#[trigger] files[j]).name != name,
    ensures
        files[i].name == name ==> with_file(files, name, patches) == files.update(
            i,
            FileView { name, patches },
        ),
        (forall|j: int| 0 <= j < files.len() ==> (#[trigger] files[j]).name != name)
            ==> with_file(files, name, patches) == files.push(FileView { name, patches }),
{
    file_index_bounds(files, name);
    file_index_first(files, name);
}

/// The patches of all files are those of the first files and then those of the
/// last one.
pub proof fn patches_come_file_by_file(files: Seq<FileView>, file: FileView)
    ensures
        all_patches(files.push(file)) == all_patches(files) + file.patches,
        all_patches(Seq::empty()) == Seq::<PatchView>::empty(),
{
    patches_of_the_first(files, file, files.len() as int);
}

proof fn patches_of_the_first(files: Seq<FileView>, file: FileView, n: int)
    requires
        n <= files.len(),
    ensures
        patches_upto(files.push(file), n) == patches_upto(files, n),
    decreases n,
{
    if n > 0 {
        patches_of_the_first(files, file, n - 1);
        assert(files.push(file)[n - 1] == files[n - 1]);
    }
}

/// Patches are sorted by their files, and those without a file by their
/// identifiers.
pub proof fn what_patches_are_sorted_by(p: PatchView, file: Seq<char>)
    ensures
        p.source.file == Some(file) ==> sort_text(p) == file,
        p.source.file is None ==> sort_text(p) == p.id,
{
}

proof fn no_two_clash(files: Seq<FileView>, n: int)
    requires
        0 <= n <= files.len(),
        first_clash(files, n) is None,
    ensures
        forall|i: int, j: int|
            0 <= j < i < n ==> !clash((#[trigger] files[i]).name, (#[trigger] files[j]).name),
    decreases n,
{
    if n > 0 {
        no_two_clash(files, n - 1);
        assert(!clashes_before(files, n - 1));
    }
}

proof fn named_patches_are_targets(files: Seq<FileView>, p: PatchView, n: int, d: int)
    requires
        0 <= d < n <= p.after.len(),
        patch_targets(files, p, n) is Ok,
    ensures
        dep_targets(files, p.after[d]) is Some,
        forall|k: int|
            0 <= k < dep_targets(files, p.after[d])->Some_0.len() ==> patch_targets(
                files,
                p,
                n,
            )->Ok_0.contains(#[trigger] dep_targets(files, p.after[d])->Some_0[k]),
    decreases n,
{
    let all = patch_targets(files, p, n)->Ok_0;
    let before = patch_targets(files, p, n - 1)->Ok_0;
    let last = dep_targets(files, p.after[n - 1])->Some_0;
    let t = dep_targets(files, p.after[d])->Some_0;
    assert(all == before + last);
    if d < n - 1 {
        named_patches_are_targets(files, p, n - 1, d);
        assert forall|k: int| 0 <= k < t.len() implies all.contains(#[trigger] t[k]) by {
            assert(before.contains(t[k]));
            let i = choose|i: int| 0 <= i < before.len() && before[i] == t[k];
            assert(all[i] == t[k]);
        }
    } else {
        assert forall|k: int| 0 <= k < t.len() implies all.contains(#[trigger] t[k]) by {
            assert(all[before.len() + k] == t[k]);
        }
    }
}

proof fn targets_come_first(
    files: Seq<FileView>,
    order: Seq<Seq<char>>,
    a: int,
    d: int,
    k: int,
)
    requires
        resolution(files) == Ok::<Seq<Seq<char>>, Unresolved>(order),
        0 <= a < all_patches(files).len(),
        0 <= d < all_patches(files)[a].after.len(),
    ensures
        ({
            let p = all_patches(files)[a];
            &&& dep_targets(files, p.after[d]) is Some
            &&& 0 <= k < dep_targets(files, p.after[d])->Some_0.len() ==> exists|i: int, j: int|
                0 <= i < j < order.len() && #[trigger] order[i] == dep_targets(
                    files,
                    p.after[d],
                )->Some_0[k] && #[trigger] order[j] == p.id
        }),
{
    let all = all_patches(files);
    let p = all[a];
    let n = p.after.len() as int;
    targets_of_patch(files, all, all.len() as int, a);
    named_patches_are_targets(files, p, n, d);
    let t = dep_targets(files, p.after[d])->Some_0;
    if 0 <= k < t.len() {
        let wanted = patch_targets(files, p, n)->Ok_0;
        assert(wanted.contains(t[k]));
        let w = choose|w: int| 0 <= w < wanted.len() && wanted[w] == t[k];
        order_holds_every_patch(files, order, a);
        let j = choose|j: int| 0 <= j < order.len() && order[j] == p.id;
        dependencies_come_first(files, order, j, a, w);
        let i = choose|i: int| 0 <= i < j && #[trigger] order[i] == wanted[w];
        assert(order[i] == t[k] && order[j] == p.id);
    }
}

/// A patch that names another comes after it.
pub proof fn patches_follow_the_patches_they_name(
    files: Seq<FileView>,
    order: Seq<Seq<char>>,
    a: int,
    d: int,
    id: Seq<char>,
)
    requires
        resolution(files) == Ok::<Seq<Seq<char>>, Unresolved>(order),
        0 <= a < all_patches(files).len(),
        0 <= d < all_patches(files)[a].after.len(),
        all_patches(files)[a].after[d] == DepView::PatchId(id),
    ensures
        exists|i: int, j: int|
            0 <= i < j < order.len() && #[trigger] order[i] == id && #[trigger] order[j]
                == all_patches(files)[a].id,
{
    targets_come_first(files, order, a, d, 0);
    let t = dep_targets(files, DepView::PatchId(id))->Some_0;
    assert(t == seq![id]);
    let (i, j) = choose|i: int, j: int|
        0 <= i < j < order.len() && #[trigger] order[i] == t[0] && #[trigger] order[j]
            == all_patches(files)[a].id;
    assert(order[i] == id && order[j] == all_patches(files)[a].id);
}

/// A patch that names a file, with its suffix or without, comes after every patch
/// of that file.
pub proof fn patches_follow_the_files_they_name(
    files: Seq<FileView>,
    order: Seq<Seq<char>>,
    a: int,
    d: int,
    name: Seq<char>,
    f: int,
    q: int,
)
    requires
        resolution(files) == Ok::<Seq<Seq<char>>, Unresolved>(order),
        0 <= a < all_patches(files).len(),
        0 <= d < all_patches(files)[a].after.len(),
        all_patches(files)[a].after[d] == DepView::FileName(name),
        0 <= f < files.len(),
        files[f].name == name || short_name(files[f].name) == name,
        0 <= q < files[f].patches.len(),
    ensures
        exists|i: int, j: int|
            0 <= i < j < order.len() && #[trigger] order[i] == files[f].patches[q].id
                && #[trigger] order[j] == all_patches(files)[a].id,
{
    which_file_is_meant(files, name);
    no_two_clash(files, files.len() as int);
    let g = named_file(files, name)->Some_0;
    assert(named_file(files, name) is Some);
    if g != f {
        assert(clash(files[g].name, files[f].name));
        assert(clash(files[f].name, files[g].name));
    }
    targets_come_first(files, order, a, d, q);
    let t = dep_targets(files, DepView::FileName(name))->Some_0;
    assert(t == patch_ids(files[f].patches));
    assert(t[q] == files[f].patches[q].id);
    let (i, j) = choose|i: int, j: int|
        0 <= i < j < order.len() && #[trigger] order[i] == t[q] && #[trigger] order[j]
            == all_patches(files)[a].id;
    assert(order[i] == files[f].patches[q].id && order[j] == all_patches(files)[a].id);
}

/// A dependency on a patch or a file that does not exist is a fault of names, and
/// so are two files that one name could mean.
pub proof fn what_names_nothing_is_refused(
    files: Seq<FileView>,
    a: int,
    d: int,
    text: Seq<char>,
    f: int,
    g: int,
)
    requires
        0 <= a < all_patches(files).len(),
        0 <= d < all_patches(files)[a].after.len(),
        0 <= f < g < files.len(),
    ensures
        all_patches(files)[a].after[d] == DepView::PatchId(text) && (forall|b: int|
            0 <= b < all_patches(files).len() ==> (#[trigger] all_patches(files)[b]).id != text)
            ==> resolution(files) matches Err(Unresolved::Name(_)),
        all_patches(files)[a].after[d] == DepView::FileName(text) && (forall|h: int|
            0 <= h < files.len() ==> (#[trigger] files[h]).name != text && short_name(files[h].name)
                != text) ==> resolution(files) matches Err(Unresolved::Name(_)),
        short_name(files[f].name) == short_name(files[g].name) || short_name(files[f].name)
            == files[g].name || files[f].name == short_name(files[g].name) ==> resolution(
            files,
        ) matches Err(Unresolved::Name(_)),
{
    let all = all_patches(files);
    let n = all.len() as int;
    if first_clash(files, files.len() as int) is None {
        no_two_clash(files, files.len() as int);
        assert(!clash(files[g].name, files[f].name));
        if all_targets(files, all, n) is Ok {
            targets_of_patch(files, all, n, a);
            named_patches_are_targets(files, all[a], all[a].after.len() as int, d);
            match all[a].after[d] {
                DepView::PatchId(id) => {
                    last_with_id_is_one(all, id);
                },
                DepView::FileName(name) => {
                    which_file_is_meant(files, name);
                },
            }
        }
    }
}

} // verus!
