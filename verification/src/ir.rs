//! Patches: the one form that every configuration change takes.
//!
//! A patch names a path of the configuration, an operation and a value.  Where
//! several operations share a path they are kept as sub-operations, and run in
//! the order of [`execution_order`].

use vstd::prelude::*;
use crate::error::PrismError;
use crate::order::{arranged, indices, order_by, permutes, sorted_positions, texts};
use crate::outside::uuid_v4;
use crate::scope::{Scope, ScopeView};
use crate::source::{PatchSource, SourceView};
use crate::text::same_text;
use crate::value::{Document, Json};

verus! {

// ---------------------------------------------------------------------------
// Identifiers
// ---------------------------------------------------------------------------

/// The identifier of a patch.
#[derive(Debug, PartialEq, Eq, Hash, PartialOrd, Ord)]
pub struct PatchId(String);

/// A lower-case hexadecimal digit.
pub open spec fn hex_digit(c: char) -> bool {
    '0' <= c <= '9' || 'a' <= c <= 'f'
}

/// Whether a text has the form of a random UUID: 36 characters, hyphens after
/// 8, 13, 18 and 23 of them, the version digit 4, hexadecimal digits elsewhere.
pub open spec fn uuid_text(s: Seq<char>) -> bool {
    &&& s.len() == 36
    &&& s[8] == '-' && s[13] == '-' && s[18] == '-' && s[23] == '-'
    &&& s[14] == '4'
    &&& forall|i: int|
        0 <= i < 36 && i != 8 && i != 13 && i != 18 && i != 23 ==> hex_digit(#[trigger] s[i])
}

/// The warning for an identifier with a dot.
pub open spec fn dotted_id_text() -> Seq<char> {
    "PatchId contains '.' characters, which may cause prefix matching issues. Use UUID v4 or simple identifiers without dots."@
}

impl PatchId {
    /// The text of the identifier.
    pub closed spec fn view(&self) -> Seq<char> {
        self.0@
    }

    /// A random identifier.
    pub fn new() -> (r: PatchId)
        ensures
            uuid_text(r@),
    {
        PatchId(uuid_v4())
    }

    /// The identifier with this text.
    ///
    /// A text with dots is accepted too; `validate_format` warns of it.
    pub fn from_identifier(s: &str) -> (r: PatchId)
        ensures
            r@ == s@,
    {
        PatchId(s.to_owned())
    }

    /// Whether a text makes an identifier that cannot be taken for a path: a
    /// UUID, or any text without dots.
    pub fn validate_format(s: &str) -> (r: Result<(), String>)
        ensures
            match r {
                Ok(_) => !s@.contains('.'),
                Err(m) => s@.contains('.') && m@ == dotted_id_text(),
            },
    {
        let chars = crate::text::chars_of(s);
        let mut i: usize = 0;
        while i < chars.len()
            invariant
                i <= chars@.len(),
                chars@ == s@,
                forall|j: int| 0 <= j < i ==> s@[j] != '.',
            decreases chars@.len() - i,
        {
            if chars[i] == '.' {
                assert(s@[i as int] == '.');
                return Err(
                    "PatchId contains '.' characters, which may cause prefix matching issues. Use UUID v4 or simple identifiers without dots.".to_owned(),
                );
            }
            i = i + 1;
        }
        Ok(())
    }

    /// The text of the identifier.
    pub fn as_str(&self) -> (r: &str)
        ensures
            r@ == self@,
    {
        self.0.as_str()
    }
}

impl Clone for PatchId {
    fn clone(&self) -> (r: PatchId)
        ensures
            r@ == self@,
    {
        PatchId(self.0.clone())
    }
}

impl Default for PatchId {
    fn default() -> (r: PatchId)
        ensures
            uuid_text(r@),
    {
        PatchId::new()
    }
}

/// A random identifier passes the format check.
pub proof fn uuid_has_no_dots(s: Seq<char>)
    requires
        uuid_text(s),
    ensures
        !s.contains('.'),
{
    assert forall|i: int| 0 <= i < s.len() implies s[i] != '.' by {
        if i != 8 && i != 13 && i != 18 && i != 23 {
            assert(hex_digit(s[i]));
        }
    }
}

/// What a patch must come after.
#[derive(Debug, PartialEq)]
pub enum DependencyRef {
    /// All patches of a file.
    FileName(String),
    /// One patch.
    PatchId(PatchId),
}

/// The model of [`DependencyRef`].
#[verifier::ext_equal]
pub ghost enum DepView {
    FileName(Seq<char>),
    PatchId(Seq<char>),
}

impl DependencyRef {
    pub open spec fn view(&self) -> DepView {
        match self {
            DependencyRef::FileName(s) => DepView::FileName(s@),
            DependencyRef::PatchId(id) => DepView::PatchId(id@),
        }
    }
}

impl Clone for DependencyRef {
    fn clone(&self) -> (r: DependencyRef)
        ensures
            r@ == self@,
    {
        match self {
            DependencyRef::FileName(s) => DependencyRef::FileName(s.clone()),
            DependencyRef::PatchId(id) => DependencyRef::PatchId(id.clone()),
        }
    }
}

// ---------------------------------------------------------------------------
// Operations
// ---------------------------------------------------------------------------

/// An expression together with the fields that it refers to.
#[derive(Debug, PartialEq)]
pub struct CompiledPredicate {
    pub expr: String,
    pub referenced_fields: Vec<String>,
}

/// The model of [`CompiledPredicate`].
#[verifier::ext_equal]
pub ghost struct PredicateView {
    pub expr: Seq<char>,
    pub fields: Seq<Seq<char>>,
}

/// A copy of a list of strings.
pub fn copy_texts(v: &Vec<String>) -> (r: Vec<String>)
    ensures
        texts(r@) == texts(v@),
{
    let mut out: Vec<String> = Vec::new();
    let mut i: usize = 0;
    while i < v.len()
        invariant
            i <= v@.len(),
            out@.len() == i,
            forall|j: int| 0 <= j < i ==> (#[trigger] out@[j])@ == v@[j]@,
        decreases v@.len() - i,
    {
        out.push(v[i].clone());
        i = i + 1;
    }
    assert(texts(out@) =~= texts(v@));
    out
}

impl CompiledPredicate {
    pub open spec fn view(&self) -> PredicateView {
        PredicateView { expr: self.expr@, fields: texts(self.referenced_fields@) }
    }

    /// An expression with the fields that it refers to.
    pub fn new(expr: &str, referenced_fields: Vec<String>) -> (r: CompiledPredicate)
        ensures
            r@ == (PredicateView { expr: expr@, fields: texts(referenced_fields@) }),
    {
        CompiledPredicate { expr: expr.to_owned(), referenced_fields }
    }

    /// An expression that is always true or always false.
    pub fn constant(value: bool) -> (r: CompiledPredicate)
        ensures
            r@ == (PredicateView {
                expr: crate::expr::bool_text(value),
                fields: Seq::empty(),
            }),
    {
        let fields: Vec<String> = Vec::new();
        assert(texts(fields@) =~= Seq::empty());
        let expr = if value {
            "true".to_owned()
        } else {
            "false".to_owned()
        };
        CompiledPredicate { expr, referenced_fields: fields }
    }
}

impl Clone for CompiledPredicate {
    fn clone(&self) -> (r: CompiledPredicate)
        ensures
            r@ == self@,
    {
        CompiledPredicate {
            expr: self.expr.clone(),
            referenced_fields: copy_texts(&self.referenced_fields),
        }
    }
}

/// An operation on the value at a path.
#[derive(Debug, PartialEq)]
pub enum PatchOp {
    /// Merges objects member by member; replaces anything else.
    DeepMerge,
    /// Replaces the value.
    Override,
    /// Puts items before those of an array.
    Prepend,
    /// Puts items after those of an array.
    Append,
    /// Keeps the items for which the expression holds.
    Filter { expr: CompiledPredicate },
    /// Replaces every item by what the expression makes of it.
    Transform { expr: CompiledPredicate },
    /// Removes the items for which the expression holds.
    Remove { expr: CompiledPredicate },
    /// Sets the value where there is none.
    SetDefault,
}

/// The model of [`PatchOp`].
#[verifier::ext_equal]
pub ghost enum OpView {
    DeepMerge,
    Override,
    Prepend,
    Append,
    Filter(PredicateView),
    Transform(PredicateView),
    Remove(PredicateView),
    SetDefault,
}

/// The name of an operation.
pub open spec fn op_name(op: OpView) -> Seq<char> {
    match op {
        OpView::DeepMerge => "DeepMerge"@,
        OpView::Override => "Override"@,
        OpView::Prepend => "Prepend"@,
        OpView::Append => "Append"@,
        OpView::Filter(_) => "Filter"@,
        OpView::Transform(_) => "Transform"@,
        OpView::Remove(_) => "Remove"@,
        OpView::SetDefault => "SetDefault"@,
    }
}

/// Whether an operation works on arrays.
pub open spec fn array_op(op: OpView) -> bool {
    op is Prepend || op is Append || op is Filter || op is Transform || op is Remove
}

/// The place of an operation among those on the same path.
pub open spec fn op_order(op: OpView) -> int {
    match op {
        OpView::Filter(_) => 0,
        OpView::Remove(_) => 1,
        OpView::Transform(_) => 2,
        OpView::SetDefault => 3,
        OpView::Prepend => 4,
        OpView::Append => 5,
        OpView::DeepMerge => 6,
        OpView::Override => 7,
    }
}

impl PatchOp {
    pub open spec fn view(&self) -> OpView {
        match self {
            PatchOp::DeepMerge => OpView::DeepMerge,
            PatchOp::Override => OpView::Override,
            PatchOp::Prepend => OpView::Prepend,
            PatchOp::Append => OpView::Append,
            PatchOp::Filter { expr } => OpView::Filter(expr@),
            PatchOp::Transform { expr } => OpView::Transform(expr@),
            PatchOp::Remove { expr } => OpView::Remove(expr@),
            PatchOp::SetDefault => OpView::SetDefault,
        }
    }

    /// The name of the operation.
    pub fn display_name(&self) -> (r: &'static str)
        ensures
            r@ == op_name(self@),
    {
        match self {
            PatchOp::DeepMerge => "DeepMerge",
            PatchOp::Override => "Override",
            PatchOp::Prepend => "Prepend",
            PatchOp::Append => "Append",
            PatchOp::Filter { .. } => "Filter",
            PatchOp::Transform { .. } => "Transform",
            PatchOp::Remove { .. } => "Remove",
            PatchOp::SetDefault => "SetDefault",
        }
    }

    /// Whether the operation works on arrays.
    pub fn is_array_op(&self) -> (r: bool)
        ensures
            r == array_op(self@),
    {
        match self {
            PatchOp::Prepend => true,
            PatchOp::Append => true,
            PatchOp::Filter { .. } => true,
            PatchOp::Transform { .. } => true,
            PatchOp::Remove { .. } => true,
            _ => false,
        }
    }

    /// Whether the operation works on whole values.
    pub fn is_map_op(&self) -> (r: bool)
        ensures
            r == !array_op(self@),
    {
        match self {
            PatchOp::DeepMerge => true,
            PatchOp::Override => true,
            PatchOp::SetDefault => true,
            _ => false,
        }
    }
}

/// Whether two lists of strings are the same.
fn same_texts(a: &Vec<String>, b: &Vec<String>) -> (r: bool)
    ensures
        r == (texts(a@) == texts(b@)),
{
    let ghost x = texts(a@);
    let ghost y = texts(b@);
    if a.len() != b.len() {
        assert(x.len() != y.len());
        return false;
    }
    let mut i: usize = 0;
    while i < a.len()
        invariant
            i <= a@.len(),
            a@.len() == b@.len(),
            x == texts(a@),
            y == texts(b@),
            forall|j: int| 0 <= j < i ==> x[j] == y[j],
        decreases a@.len() - i,
    {
        if !same_text(a[i].as_str(), b[i].as_str()) {
            assert(x[i as int] != y[i as int]);
            return false;
        }
        assert(x[i as int] == y[i as int]);
        i = i + 1;
    }
    assert(x =~= y);
    true
}

impl CompiledPredicate {
    /// Whether two expressions and their fields are the same.
    pub fn same(&self, other: &CompiledPredicate) -> (r: bool)
        ensures
            r == (self@ == other@),
    {
        same_text(self.expr.as_str(), other.expr.as_str()) && same_texts(
            &self.referenced_fields,
            &other.referenced_fields,
        )
    }
}

impl PatchOp {
    /// Whether two operations are the same.
    pub fn same(&self, other: &PatchOp) -> (r: bool)
        ensures
            r == (self@ == other@),
    {
        match (self, other) {
            (PatchOp::DeepMerge, PatchOp::DeepMerge) => true,
            (PatchOp::Override, PatchOp::Override) => true,
            (PatchOp::Prepend, PatchOp::Prepend) => true,
            (PatchOp::Append, PatchOp::Append) => true,
            (PatchOp::SetDefault, PatchOp::SetDefault) => true,
            (PatchOp::Filter { expr: a }, PatchOp::Filter { expr: b }) => a.same(b),
            (PatchOp::Transform { expr: a }, PatchOp::Transform { expr: b }) => a.same(b),
            (PatchOp::Remove { expr: a }, PatchOp::Remove { expr: b }) => a.same(b),
            _ => false,
        }
    }
}

impl Clone for PatchOp {
    fn clone(&self) -> (r: PatchOp)
        ensures
            r@ == self@,
    {
        match self {
            PatchOp::DeepMerge => PatchOp::DeepMerge,
            PatchOp::Override => PatchOp::Override,
            PatchOp::Prepend => PatchOp::Prepend,
            PatchOp::Append => PatchOp::Append,
            PatchOp::Filter { expr } => PatchOp::Filter { expr: expr.clone() },
            PatchOp::Transform { expr } => PatchOp::Transform { expr: expr.clone() },
            PatchOp::Remove { expr } => PatchOp::Remove { expr: expr.clone() },
            PatchOp::SetDefault => PatchOp::SetDefault,
        }
    }
}

/// The place of an operation among those on the same path: filter, remove,
/// transform, default, prepend, append, merge, override.
pub fn execution_order(op: &PatchOp) -> (r: u8)
    ensures
        r == op_order(op@),
        r <= 7,
{
    match op {
        PatchOp::Filter { .. } => 0,
        PatchOp::Remove { .. } => 1,
        PatchOp::Transform { .. } => 2,
        PatchOp::SetDefault => 3,
        PatchOp::Prepend => 4,
        PatchOp::Append => 5,
        PatchOp::DeepMerge => 6,
        PatchOp::Override => 7,
    }
}

/// One of several operations on the same path.
#[derive(Debug, PartialEq)]
pub struct SubOp {
    pub op: PatchOp,
    pub value: Document,
}

/// The model of [`SubOp`].
#[verifier::ext_equal]
pub ghost struct SubOpView {
    pub op: OpView,
    pub value: Json,
}

impl SubOp {
    pub open spec fn view(&self) -> SubOpView {
        SubOpView { op: self.op@, value: self.value@ }
    }
}

impl Clone for SubOp {
    fn clone(&self) -> (r: SubOp)
        ensures
            r@ == self@,
    {
        SubOp { op: self.op.clone(), value: self.value.clone() }
    }
}

// ---------------------------------------------------------------------------
// Patches
// ---------------------------------------------------------------------------

/// One change to a configuration.
#[derive(Debug, PartialEq)]
pub struct Patch {
    pub id: PatchId,
    pub source: PatchSource,
    pub scope: Scope,
    /// The path of the configuration that the patch changes.
    pub path: String,
    /// The operation; where there are sub-operations, they count instead.
    pub op: PatchOp,
    pub value: Document,
    pub condition: Option<CompiledPredicate>,
    /// What the patch must come after.
    pub after: Vec<DependencyRef>,
    /// All operations of a patch with more than one.
    pub sub_ops: Vec<SubOp>,
}

/// The model of [`Patch`].
#[verifier::ext_equal]
pub ghost struct PatchView {
    pub id: Seq<char>,
    pub source: SourceView,
    pub scope: ScopeView,
    pub path: Seq<char>,
    pub op: OpView,
    pub value: Json,
    pub condition: Option<PredicateView>,
    pub after: Seq<DepView>,
    pub sub_ops: Seq<SubOpView>,
}

/// The models of a list of dependencies.
pub open spec fn dep_views(v: Seq<DependencyRef>) -> Seq<DepView> {
    Seq::new(v.len(), |i: int| v[i]@)
}

/// The models of a list of operations.
pub open spec fn sub_op_views(v: Seq<SubOp>) -> Seq<SubOpView> {
    Seq::new(v.len(), |i: int| v[i]@)
}

/// The models of a list of patches.
pub open spec fn patch_views(v: Seq<Patch>) -> Seq<PatchView> {
    Seq::new(v.len(), |i: int| v[i]@)
}

/// The models of a list of references to patches.
pub open spec fn patch_ref_views(v: Seq<&Patch>) -> Seq<PatchView> {
    Seq::new(v.len(), |i: int| v[i]@)
}

/// The model of an optional expression.
pub open spec fn opt_predicate(o: Option<CompiledPredicate>) -> Option<PredicateView> {
    match o {
        Some(p) => Some(p@),
        None => None,
    }
}

/// The places of operations.
pub open spec fn op_orders(s: Seq<SubOpView>) -> Seq<int> {
    Seq::new(s.len(), |i: int| op_order(s[i].op))
}

/// The operations of a patch, in the order in which they run.
pub open spec fn ops_in_order(p: PatchView) -> Seq<SubOpView> {
    if p.sub_ops.len() == 0 {
        seq![SubOpView { op: p.op, value: p.value }]
    } else {
        arranged(p.sub_ops, order_by(op_orders(p.sub_ops)))
    }
}

/// Whether an override stands among several operations.
pub open spec fn override_conflict(s: Seq<SubOpView>) -> bool {
    s.len() > 1 && exists|i: int| 0 <= i < s.len() && (#[trigger] s[i]).op is Override
}

impl Patch {
    pub open spec fn view(&self) -> PatchView {
        PatchView {
            id: self.id@,
            source: self.source@,
            scope: self.scope@,
            path: self.path@,
            op: self.op@,
            value: self.value@,
            condition: opt_predicate(self.condition),
            after: dep_views(self.after@),
            sub_ops: sub_op_views(self.sub_ops@),
        }
    }

    /// A patch with a random identifier, without condition, dependencies and
    /// sub-operations.
    pub fn new(source: PatchSource, scope: Scope, path: &str, op: PatchOp, value: Document) -> (r:
        Patch)
        ensures
            uuid_text(r@.id),
            r@ == (PatchView {
                id: r@.id,
                source: source@,
                scope: scope@,
                path: path@,
                op: op@,
                value: value@,
                condition: None,
                after: Seq::empty(),
                sub_ops: Seq::empty(),
            }),
    {
        let r = Patch {
            id: PatchId::new(),
            source,
            scope,
            path: path.to_owned(),
            op,
            value,
            condition: None,
            after: Vec::new(),
            sub_ops: Vec::new(),
        };
        assert(dep_views(r.after@) =~= Seq::empty());
        assert(sub_op_views(r.sub_ops@) =~= Seq::empty());
        r
    }

    /// Sets the condition.
    pub fn with_condition(self, condition: CompiledPredicate) -> (r: Patch)
        ensures
            r@ == (PatchView { condition: Some(condition@), ..self@ }),
    {
        let mut p = self;
        p.condition = Some(condition);
        p
    }

    /// Adds a dependency.
    pub fn with_after(self, dep: DependencyRef) -> (r: Patch)
        ensures
            r@ == (PatchView { after: self@.after.push(dep@), ..self@ }),
    {
        let mut p = self;
        p.after.push(dep);
        assert(dep_views(p.after@) =~= dep_views(self.after@).push(dep@));
        p
    }

    /// Sets all dependencies.
    pub fn with_deps(self, deps: Vec<DependencyRef>) -> (r: Patch)
        ensures
            r@ == (PatchView { after: dep_views(deps@), ..self@ }),
    {
        let mut p = self;
        p.after = deps;
        p
    }

    /// Sets the sub-operations; an override stands alone.
    pub fn with_sub_ops(self, sub_ops: Vec<SubOp>) -> (r: Result<Patch, PrismError>)
        ensures
            match r {
                Ok(p) => !override_conflict(sub_op_views(sub_ops@)) && p@ == (PatchView {
                    sub_ops: sub_op_views(sub_ops@),
                    ..self@
                }),
                Err(e) => override_conflict(sub_op_views(sub_ops@))
                    && (e matches PrismError::OverrideConflict { field } && field@ == self@.path),
            },
    {
        let ghost all = sub_op_views(sub_ops@);
        let mut found: bool = false;
        let mut i: usize = 0;
        while i < sub_ops.len()
            invariant
                i <= sub_ops@.len(),
                all == sub_op_views(sub_ops@),
                found == exists|j: int| 0 <= j < i && (#[trigger] all[j]).op is Override,
            decreases sub_ops@.len() - i,
        {
            assert(all[i as int] == sub_ops@[i as int]@);
            if let PatchOp::Override = sub_ops[i].op {
                found = true;
                assert(all[i as int].op is Override);
            }
            i = i + 1;
        }
        if found && sub_ops.len() > 1 {
            return Err(PrismError::OverrideConflict { field: self.path.clone() });
        }
        let mut p = self;
        p.sub_ops = sub_ops;
        Ok(p)
    }

    /// Whether the patch has sub-operations.
    pub fn is_composite(&self) -> (r: bool)
        ensures
            r == (self@.sub_ops.len() > 0),
    {
        self.sub_ops.len() > 0
    }

    /// The operations, in the order in which they run.
    pub fn all_ops(&self) -> (r: Vec<SubOp>)
        ensures
            sub_op_views(r@) == ops_in_order(self@),
    {
        if self.sub_ops.len() == 0 {
            let mut out: Vec<SubOp> = Vec::new();
            out.push(SubOp { op: self.op.clone(), value: self.value.clone() });
            assert(sub_op_views(out@) =~= ops_in_order(self@));
            return out;
        }
        let ghost all = sub_op_views(self.sub_ops@);
        let mut keys: Vec<usize> = Vec::new();
        let mut i: usize = 0;
        while i < self.sub_ops.len()
            invariant
                i <= self.sub_ops@.len(),
                all == sub_op_views(self.sub_ops@),
                keys@.len() == i,
                forall|j: int| 0 <= j < i ==> #[trigger] keys@[j] == op_order(all[j].op),
            decreases self.sub_ops@.len() - i,
        {
            assert(all[i as int] == self.sub_ops@[i as int]@);
            keys.push(execution_order(&self.sub_ops[i].op) as usize);
            i = i + 1;
        }
        assert(indices(keys@) =~= op_orders(all));
        let order = sorted_positions(&keys);
        let ghost p = indices(order@);
        let mut out: Vec<SubOp> = Vec::new();
        let mut k: usize = 0;
        while k < order.len()
            invariant
                k <= order@.len(),
                all == sub_op_views(self.sub_ops@),
                p == indices(order@),
                permutes(p, self.sub_ops@.len() as int),
                out@.len() == k,
                forall|j: int| 0 <= j < k ==> (#[trigger] out@[j])@ == all[p[j]],
            decreases order@.len() - k,
        {
            assert(p[k as int] == order@[k as int]);
            out.push(self.sub_ops[order[k]].clone());
            k = k + 1;
        }
        assert(sub_op_views(out@) =~= arranged(all, p));
        out
    }
}

fn copy_deps(v: &Vec<DependencyRef>) -> (r: Vec<DependencyRef>)
    ensures
        dep_views(r@) == dep_views(v@),
{
    let mut out: Vec<DependencyRef> = Vec::new();
    let mut i: usize = 0;
    while i < v.len()
        invariant
            i <= v@.len(),
            out@.len() == i,
            forall|j: int| 0 <= j < i ==> (#[trigger] out@[j])@ == v@[j]@,
        decreases v@.len() - i,
    {
        out.push(v[i].clone());
        i = i + 1;
    }
    assert(dep_views(out@) =~= dep_views(v@));
    out
}

fn copy_sub_ops(v: &Vec<SubOp>) -> (r: Vec<SubOp>)
    ensures
        sub_op_views(r@) == sub_op_views(v@),
{
    let mut out: Vec<SubOp> = Vec::new();
    let mut i: usize = 0;
    while i < v.len()
        invariant
            i <= v@.len(),
            out@.len() == i,
            forall|j: int| 0 <= j < i ==> (#[trigger] out@[j])@ == v@[j]@,
        decreases v@.len() - i,
    {
        out.push(v[i].clone());
        i = i + 1;
    }
    assert(sub_op_views(out@) =~= sub_op_views(v@));
    out
}

/// A copy of an optional expression.
pub fn copy_predicate(o: &Option<CompiledPredicate>) -> (r: Option<CompiledPredicate>)
    ensures
        opt_predicate(r) == opt_predicate(*o),
{
    match o {
        Some(p) => Some(p.clone()),
        None => None,
    }
}

impl Clone for Patch {
    fn clone(&self) -> (r: Patch)
        ensures
            r@ == self@,
    {
        Patch {
            id: self.id.clone(),
            source: self.source.clone(),
            scope: self.scope.clone(),
            path: self.path.clone(),
            op: self.op.clone(),
            value: self.value.clone(),
            condition: copy_predicate(&self.condition),
            after: copy_deps(&self.after),
            sub_ops: copy_sub_ops(&self.sub_ops),
        }
    }
}

// ---------------------------------------------------------------------------
// Fields
// ---------------------------------------------------------------------------

/// The fields of a proxy that are known before it runs.
pub const STATIC_PROXY_FIELDS: [&'static str; 30] = [
    "name",
    "type",
    "server",
    "port",
    "uuid",
    "password",
    "cipher",
    "tls",
    "sni",
    "skip-cert-verify",
    "fingerprint",
    "alpn",
    "network",
    "ws-opts",
    "grpc-opts",
    "h2-opts",
    "reality-opts",
    "flow",
    "username",
    "alterId",
    "protocol",
    "plugin",
    "plugin-opts",
    "udp",
    "udp-over-tcp",
    "smux",
    "servername",
    "client-fingerprint",
    "shadow-tls",
    "hy2-opts",
];

/// The fields of a proxy that are known only once it has been measured.
pub const RUNTIME_PROXY_FIELDS: [&'static str; 8] = [
    "delay",
    "latency",
    "speed",
    "loss_rate",
    "success_rate",
    "history",
    "alive",
    "last_test",
];

/// Whether a field is known only once a proxy has been measured.
pub open spec fn runtime_field(f: Seq<char>) -> bool {
    ||| f == "delay"@
    ||| f == "latency"@
    ||| f == "speed"@
    ||| f == "loss_rate"@
    ||| f == "success_rate"@
    ||| f == "history"@
    ||| f == "alive"@
    ||| f == "last_test"@
}

/// Whether a field is known before a proxy runs.
pub open spec fn static_field(f: Seq<char>) -> bool {
    ||| f == "name"@
    ||| f == "type"@
    ||| f == "server"@
    ||| f == "port"@
    ||| f == "uuid"@
    ||| f == "password"@
    ||| f == "cipher"@
    ||| f == "tls"@
    ||| f == "sni"@
    ||| f == "skip-cert-verify"@
    ||| f == "fingerprint"@
    ||| f == "alpn"@
    ||| f == "network"@
    ||| f == "ws-opts"@
    ||| f == "grpc-opts"@
    ||| f == "h2-opts"@
    ||| f == "reality-opts"@
    ||| f == "flow"@
    ||| f == "username"@
    ||| f == "alterId"@
    ||| f == "protocol"@
    ||| f == "plugin"@
    ||| f == "plugin-opts"@
    ||| f == "udp"@
    ||| f == "udp-over-tcp"@
    ||| f == "smux"@
    ||| f == "servername"@
    ||| f == "client-fingerprint"@
    ||| f == "shadow-tls"@
    ||| f == "hy2-opts"@
}

/// Whether a field is known only once a proxy has been measured.
pub fn is_runtime_field(field: &str) -> (r: bool)
    ensures
        r == runtime_field(field@),
{
    same_text(field, "delay") ||
        same_text(field, "latency") ||
        same_text(field, "speed") ||
        same_text(field, "loss_rate") ||
        same_text(field, "success_rate") ||
        same_text(field, "history") ||
        same_text(field, "alive") ||
        same_text(field, "last_test")
}

/// Whether a field is known before a proxy runs.
pub fn is_static_field(field: &str) -> (r: bool)
    ensures
        r == static_field(field@),
{
    same_text(field, "name") ||
        same_text(field, "type") ||
        same_text(field, "server") ||
        same_text(field, "port") ||
        same_text(field, "uuid") ||
        same_text(field, "password") ||
        same_text(field, "cipher") ||
        same_text(field, "tls") ||
        same_text(field, "sni") ||
        same_text(field, "skip-cert-verify") ||
        same_text(field, "fingerprint") ||
        same_text(field, "alpn") ||
        same_text(field, "network") ||
        same_text(field, "ws-opts") ||
        same_text(field, "grpc-opts") ||
        same_text(field, "h2-opts") ||
        same_text(field, "reality-opts") ||
        same_text(field, "flow") ||
        same_text(field, "username") ||
        same_text(field, "alterId") ||
        same_text(field, "protocol") ||
        same_text(field, "plugin") ||
        same_text(field, "plugin-opts") ||
        same_text(field, "udp") ||
        same_text(field, "udp-over-tcp") ||
        same_text(field, "smux") ||
        same_text(field, "servername") ||
        same_text(field, "client-fingerprint") ||
        same_text(field, "shadow-tls") ||
        same_text(field, "hy2-opts")
}

// ---------------------------------------------------------------------------
// Laws
// ---------------------------------------------------------------------------

/// The operations run in ascending order of their places, and those of the same
/// place in the order in which they were given.
pub proof fn ops_run_in_order(p: PatchView)
    requires
        p.sub_ops.len() > 0,
    ensures
        ops_in_order(p).len() == p.sub_ops.len(),
        forall|i: int, j: int|
            0 <= i < j < p.sub_ops.len() ==> op_order(#[trigger] ops_in_order(p)[i].op) <= op_order(
                #[trigger] ops_in_order(p)[j].op,
            ),
        permutes(order_by(op_orders(p.sub_ops)), p.sub_ops.len() as int),
{
    let keys = op_orders(p.sub_ops);
    crate::order::order_by_sorts(keys);
    let q = order_by(keys);
    assert forall|i: int, j: int| 0 <= i < j < p.sub_ops.len() implies op_order(
        #[trigger] ops_in_order(p)[i].op,
    ) <= op_order(#[trigger] ops_in_order(p)[j].op) by {
        assert(keys[q[i]] <= keys[q[j]]);
    }
}

/// Whether an operation may run before another one on the same path: the order is
/// filter, remove, transform, default, prepend, append, merge, override.
pub open spec fn may_run_before(a: OpView, b: OpView) -> bool {
    match b {
        OpView::Filter(_) => a is Filter,
        OpView::Remove(_) => a is Filter || a is Remove,
        OpView::Transform(_) => a is Filter || a is Remove || a is Transform,
        OpView::SetDefault => a is Filter || a is Remove || a is Transform || a is SetDefault,
        OpView::Prepend => !(a is Append || a is DeepMerge || a is Override),
        OpView::Append => !(a is DeepMerge || a is Override),
        OpView::DeepMerge => !(a is Override),
        OpView::Override => true,
    }
}

/// The operations of a patch all run, each once, in the fixed order; several of one
/// sort run in the order in which they were given.
pub proof fn operations_run_in_the_fixed_order(p: PatchView)
    requires
        p.sub_ops.len() > 0,
    ensures
        forall|i: int, j: int|
            0 <= i < j < ops_in_order(p).len() ==> may_run_before(
                #[trigger] ops_in_order(p)[i].op,
                #[trigger] ops_in_order(p)[j].op,
            ),
        exists|q: Seq<int>|
            #![trigger permutes(q, p.sub_ops.len() as int)]
            permutes(q, p.sub_ops.len() as int) && ops_in_order(p).len() == p.sub_ops.len() && (
            forall|i: int| 0 <= i < q.len() ==> ops_in_order(p)[i] == p.sub_ops[#[trigger] q[i]])
                && (forall|i: int, j: int|
                0 <= i < j < q.len() && may_run_before(
                    p.sub_ops[q[j]].op,
                    p.sub_ops[q[i]].op,
                ) ==> #[trigger] q[i] < #[trigger] q[j]),
{
    ops_run_in_order(p);
    let keys = op_orders(p.sub_ops);
    crate::order::order_by_sorts(keys);
    let q = order_by(keys);
    assert forall|i: int, j: int| 0 <= i < j < ops_in_order(p).len() implies may_run_before(
        #[trigger] ops_in_order(p)[i].op,
        #[trigger] ops_in_order(p)[j].op,
    ) by {
        assert(op_order(ops_in_order(p)[i].op) <= op_order(ops_in_order(p)[j].op));
    }
    assert forall|i: int, j: int|
        0 <= i < j < q.len() && may_run_before(
            p.sub_ops[q[j]].op,
            p.sub_ops[q[i]].op,
        ) implies #[trigger] q[i] < #[trigger] q[j] by {
        assert(keys[q[i]] == op_order(p.sub_ops[q[i]].op));
        assert(keys[q[j]] == op_order(p.sub_ops[q[j]].op));
    }
    assert(permutes(q, p.sub_ops.len() as int));
}

/// A patch without further operations has the one of its own.
pub proof fn simple_patch_has_one_operation(p: PatchView)
    requires
        p.sub_ops.len() == 0,
    ensures
        ops_in_order(p) == seq![SubOpView { op: p.op, value: p.value }],
{
}

/// Which operations work on arrays, and which on whole values.
pub proof fn what_operations_work_on(x: PredicateView)
    ensures
        array_op(OpView::Prepend) && array_op(OpView::Append) && array_op(OpView::Filter(x)),
        array_op(OpView::Remove(x)) && array_op(OpView::Transform(x)),
        !array_op(OpView::DeepMerge) && !array_op(OpView::Override) && !array_op(
            OpView::SetDefault,
        ),
{
}

/// No field is known both before a proxy runs and only once it was measured.
pub proof fn fields_are_known_early_or_late(f: Seq<char>)
    ensures
        !(runtime_field(f) && static_field(f)),
{
    reveal_strlit("delay");
    reveal_strlit("latency");
    reveal_strlit("speed");
    reveal_strlit("loss_rate");
    reveal_strlit("success_rate");
    reveal_strlit("history");
    reveal_strlit("alive");
    reveal_strlit("last_test");
    reveal_strlit("name");
    reveal_strlit("type");
    reveal_strlit("server");
    reveal_strlit("port");
    reveal_strlit("uuid");
    reveal_strlit("password");
    reveal_strlit("cipher");
    reveal_strlit("tls");
    reveal_strlit("sni");
    reveal_strlit("skip-cert-verify");
    reveal_strlit("fingerprint");
    reveal_strlit("alpn");
    reveal_strlit("network");
    reveal_strlit("ws-opts");
    reveal_strlit("grpc-opts");
    reveal_strlit("h2-opts");
    reveal_strlit("reality-opts");
    reveal_strlit("flow");
    reveal_strlit("username");
    reveal_strlit("alterId");
    reveal_strlit("protocol");
    reveal_strlit("plugin");
    reveal_strlit("plugin-opts");
    reveal_strlit("udp");
    reveal_strlit("udp-over-tcp");
    reveal_strlit("smux");
    reveal_strlit("servername");
    reveal_strlit("client-fingerprint");
    reveal_strlit("shadow-tls");
    reveal_strlit("hy2-opts");
    if runtime_field(f) {
        assert(f.len() == 5 || f.len() == 7 || f.len() == 9 || f.len() == 12);
        assert(f.len() == 7 ==> f[1] == 'a' || f[1] == 'i');
        assert(f.len() == 9 ==> f[0] == 'l');
        assert(f.len() == 12 ==> f[0] == 's');
        if static_field(f) {
            assert(f.len() == 7 ==> f[1] != 'a' && f[1] != 'i');
            assert(f.len() == 9 ==> f[0] == 'g');
            assert(f.len() == 12 ==> f[0] != 's');
            assert(f.len() != 5);
        }
    }
}

} // verus!
