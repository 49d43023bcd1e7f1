//! The faults of the engine.

use vstd::prelude::*;
use crate::expr::concat;
use crate::outside::{io_error_kind, io_error_text, io_kind, json_error_text, yaml_error_text};
use crate::text::{decimal, push_decimal, starts_with, text_of};

verus! {

/// A fault at run time.
#[derive(Debug)]
#[allow(inconsistent_fields)]
pub enum PrismError {
    DslParse { message: String, file: Option<String>, line: Option<u32> },
    RuntimeFieldInStaticFilter { field: String, hint: String },
    ExpressionCompileFailed { expr: String, reason: String },
    CircularDependency { cycle: String },
    DependencyNotFound { dep: String, file: String },
    PatchExecutionFailed { patch_id: String, reason: String },
    PathNotFound { path: String },
    TypeMismatch { expected: String, actual: String, path: String },
    OverrideConflict { field: String },
    Validation { message: String, path: Option<String> },
    DuplicateProxyName { name: String, count: usize },
    ProxyGroupMissingProxy { group: String, proxy: String },
    Io { detail: String, source: std::io::Error },
    Serialization(serde_json::Error),
    YamlParse(serde_yml::Error),
    TargetOutput { message: String },
}

/// A fault of the system during compilation.
#[derive(Debug)]
pub enum IoFault {
    /// The fault as the system gave it.
    System(std::io::Error),
    /// A fault of the engine, with the fault of the system behind it.
    Engine { detail: String, source: std::io::Error },
}

/// A fault of compilation.
#[derive(Debug)]
pub enum CompileError {
    DslParse(PrismError),
    RuntimeFieldInStaticContext { field: String, hint: String },
    SyntaxError { expr: String, reason: String },
    DuplicateWhenClause,
    ConditionPrecompile(String),
    CircularDependency(String),
    DependencyNotFound(String),
    Io(IoFault),
    Serialization(serde_json::Error),
}

/// What an operation of the engine returns.
pub type PrismResult<T> = Result<T, PrismError>;

/// The message of a fault, where the fault holds all of it.
///
/// The message of a fault of `serde_json` or `serde_yml` is known only to
/// those crates.
pub open spec fn error_text(e: PrismError) -> Option<Seq<char>> {
    match e {
        PrismError::DslParse { message, .. } => Some("DSL 解析错误: "@ + message@),
        PrismError::RuntimeFieldInStaticFilter { field, hint } => Some(
            "运行时字段在静态过滤器中引用: `"@ + field@ + "`. "@ + hint@,
        ),
        PrismError::ExpressionCompileFailed { expr, reason } => Some(
            "表达式编译失败: "@ + expr@ + " — "@ + reason@,
        ),
        PrismError::CircularDependency { cycle } => Some("循环依赖检测到: "@ + cycle@),
        PrismError::DependencyNotFound { dep, file } => Some(
            "依赖解析失败: `"@ + dep@ + "` 在文件 `"@ + file@ + "` 中未找到"@,
        ),
        PrismError::PatchExecutionFailed { patch_id, reason } => Some(
            "Patch 执行失败 (id="@ + patch_id@ + "): "@ + reason@,
        ),
        PrismError::PathNotFound { path } => Some("路径不存在: "@ + path@),
        PrismError::TypeMismatch { expected, actual, path } => Some(
            "类型不匹配: 期望 "@ + expected@ + ", 实际 "@ + actual@ + ", 路径: "@ + path@,
        ),
        PrismError::OverrideConflict { field } => Some(
            "$override 与其他操作混用: 字段 `"@ + field@
                + "` 不允许同时使用 $override 和其他操作"@,
        ),
        PrismError::Validation { message, .. } => Some("校验失败: "@ + message@),
        PrismError::DuplicateProxyName { name, count } => Some(
            "代理名称重复: `"@ + name@ + "` 出现 "@ + decimal(count as nat) + " 次"@,
        ),
        PrismError::ProxyGroupMissingProxy { group, proxy } => Some(
            "代理组引用不存在的代理: 组=`"@ + group@ + "`, 代理=`"@ + proxy@ + "`"@,
        ),
        PrismError::Io { detail, .. } => Some("IO 错误: "@ + detail@),
        PrismError::Serialization(_) => None,
        PrismError::YamlParse(_) => None,
        PrismError::TargetOutput { message } => Some("配置输出失败: "@ + message@),
    }
}

/// Three pieces one after another.
pub fn three(a: &str, b: &str, c: &str) -> (r: String)
    ensures
        r@ == a@ + b@ + c@,
{
    let mut out = concat(a, b);
    out.append(c);
    out
}

/// Four pieces one after another.
pub fn four(a: &str, b: &str, c: &str, d: &str) -> (r: String)
    ensures
        r@ == a@ + b@ + c@ + d@,
{
    let mut out = three(a, b, c);
    out.append(d);
    out
}

/// Five pieces one after another.
pub fn five(a: &str, b: &str, c: &str, d: &str, e: &str) -> (r: String)
    ensures
        r@ == a@ + b@ + c@ + d@ + e@,
{
    let mut out = four(a, b, c, d);
    out.append(e);
    out
}

/// A number in decimal.
pub fn count_text(n: usize) -> (r: String)
    ensures
        r@ == decimal(n as nat),
{
    let mut out: Vec<char> = Vec::new();
    push_decimal(&mut out, n as u128);
    assert(out@ =~= decimal(n as nat));
    text_of(out.as_slice())
}

impl PrismError {
    /// The message of the fault.
    ///
    /// Of a fault of `serde_json` or `serde_yml`, what follows the heading is
    /// that crate's own message.
    pub fn message(&self) -> (r: String)
        ensures
            error_text(*self) matches Some(t) ==> r@ == t,
            self is Serialization ==> starts_with(r@, "序列化错误: "@),
            self is YamlParse ==> starts_with(r@, "YAML 解析错误: "@),
    {
        match self {
            PrismError::DslParse { message, .. } => concat("DSL 解析错误: ", message.as_str()),
            PrismError::RuntimeFieldInStaticFilter { field, hint } => four(
                "运行时字段在静态过滤器中引用: `",
                field.as_str(),
                "`. ",
                hint.as_str(),
            ),
            PrismError::ExpressionCompileFailed { expr, reason } => four(
                "表达式编译失败: ",
                expr.as_str(),
                " — ",
                reason.as_str(),
            ),
            PrismError::CircularDependency { cycle } => concat(
                "循环依赖检测到: ",
                cycle.as_str(),
            ),
            PrismError::DependencyNotFound { dep, file } => five(
                "依赖解析失败: `",
                dep.as_str(),
                "` 在文件 `",
                file.as_str(),
                "` 中未找到",
            ),
            PrismError::PatchExecutionFailed { patch_id, reason } => four(
                "Patch 执行失败 (id=",
                patch_id.as_str(),
                "): ",
                reason.as_str(),
            ),
            PrismError::PathNotFound { path } => concat("路径不存在: ", path.as_str()),
            PrismError::TypeMismatch { expected, actual, path } => {
                let mut out = four(
                    "类型不匹配: 期望 ",
                    expected.as_str(),
                    ", 实际 ",
                    actual.as_str(),
                );
                out.append(", 路径: ");
                out.append(path.as_str());
                out
            },
            PrismError::OverrideConflict { field } => three(
                "$override 与其他操作混用: 字段 `",
                field.as_str(),
                "` 不允许同时使用 $override 和其他操作",
            ),
            PrismError::Validation { message, .. } => concat("校验失败: ", message.as_str()),
            PrismError::DuplicateProxyName { name, count } => {
                let n = count_text(*count);
                five("代理名称重复: `", name.as_str(), "` 出现 ", n.as_str(), " 次")
            },
            PrismError::ProxyGroupMissingProxy { group, proxy } => five(
                "代理组引用不存在的代理: 组=`",
                group.as_str(),
                "`, 代理=`",
                proxy.as_str(),
                "`",
            ),
            PrismError::Io { detail, .. } => concat("IO 错误: ", detail.as_str()),
            PrismError::Serialization(e) => {
                let m = json_error_text(e);
                headed("序列化错误: ", m.as_str())
            },
            PrismError::YamlParse(e) => {
                let m = yaml_error_text(e);
                headed("YAML 解析错误: ", m.as_str())
            },
            PrismError::TargetOutput { message } => concat(
                "配置输出失败: ",
                message.as_str(),
            ),
        }
    }
}

/// A text behind a heading.
pub fn headed(heading: &str, text: &str) -> (r: String)
    ensures
        r@ == heading@ + text@,
        starts_with(r@, heading@),
{
    let r = concat(heading, text);
    assert(r@.subrange(0, heading@.len() as int) =~= heading@);
    r
}

impl IoFault {
    /// The fault of the system.
    pub open spec fn origin(self) -> std::io::Error {
        match self {
            IoFault::System(e) => e,
            IoFault::Engine { source, .. } => source,
        }
    }

    /// The fault of the system.
    pub fn system_error(&self) -> (r: &std::io::Error)
        ensures
            *r == self.origin(),
    {
        match self {
            IoFault::System(e) => e,
            IoFault::Engine { source, .. } => source,
        }
    }

    /// The kind of the fault of the system.
    pub fn kind(&self) -> (r: std::io::ErrorKind)
        ensures
            r == io_kind(self.origin()),
    {
        io_error_kind(self.system_error())
    }
}

impl CompileError {
    /// The message of the fault.
    ///
    /// Of a fault of the system as the system gave it, or of `serde_json`, what
    /// follows the heading is the message of its origin.
    pub fn message(&self) -> (r: String)
        ensures
            match self {
                CompileError::DslParse(e) => error_text(*e) matches Some(t) ==> r@ == t,
                CompileError::RuntimeFieldInStaticContext { field, hint } => r@
                    == "运行时字段在静态上下文中引用: `"@ + field@ + "` — "@ + hint@,
                CompileError::SyntaxError { expr, reason } => r@ == "表达式语法错误: `"@ + expr@
                    + "` — "@ + reason@,
                CompileError::DuplicateWhenClause => r@
                    == "__when__ 重复声明: 一个 .prism.yaml 文件只能有一个 __when__"@,
                CompileError::ConditionPrecompile(m) => r@ == "条件预编译失败: "@ + m@,
                CompileError::CircularDependency(m) => r@ == "循环依赖: "@ + m@,
                CompileError::DependencyNotFound(m) => r@ == "依赖未找到: "@ + m@,
                CompileError::Io(IoFault::System(_)) => starts_with(r@, "IO 错误: "@),
                CompileError::Io(IoFault::Engine { detail, .. }) => r@ == "IO 错误: "@
                    + "IO 错误: "@ + detail@,
                CompileError::Serialization(_) => starts_with(r@, "序列化错误: "@),
            },
    {
        match self {
            CompileError::DslParse(e) => e.message(),
            CompileError::RuntimeFieldInStaticContext { field, hint } => four(
                "运行时字段在静态上下文中引用: `",
                field.as_str(),
                "` — ",
                hint.as_str(),
            ),
            CompileError::SyntaxError { expr, reason } => four(
                "表达式语法错误: `",
                expr.as_str(),
                "` — ",
                reason.as_str(),
            ),
            CompileError::DuplicateWhenClause =>
            "__when__ 重复声明: 一个 .prism.yaml 文件只能有一个 __when__".to_owned(),
            CompileError::ConditionPrecompile(m) => concat("条件预编译失败: ", m.as_str()),
            CompileError::CircularDependency(m) => concat("循环依赖: ", m.as_str()),
            CompileError::DependencyNotFound(m) => concat("依赖未找到: ", m.as_str()),
            CompileError::Io(IoFault::System(e)) => {
                let m = io_error_text(e);
                headed("IO 错误: ", m.as_str())
            },
            CompileError::Io(IoFault::Engine { detail, .. }) => three(
                "IO 错误: ",
                "IO 错误: ",
                detail.as_str(),
            ),
            CompileError::Serialization(e) => {
                let m = json_error_text(e);
                headed("序列化错误: ", m.as_str())
            },
        }
    }
}

impl vstd::std_specs::convert::FromSpecImpl<std::io::Error> for PrismError {
    open spec fn obeys_from_spec() -> bool {
        false
    }

    open spec fn from_spec(e: std::io::Error) -> PrismError {
        arbitrary()
    }
}

impl From<std::io::Error> for PrismError {
    /// A fault of the system, with its message as the detail.
    fn from(e: std::io::Error) -> (r: PrismError)
        ensures
            r matches PrismError::Io { source, .. } && source == e,
    {
        PrismError::Io { detail: io_error_text(&e), source: e }
    }
}

impl vstd::std_specs::convert::FromSpecImpl<serde_json::Error> for PrismError {
    open spec fn obeys_from_spec() -> bool {
        true
    }

    open spec fn from_spec(e: serde_json::Error) -> PrismError {
        PrismError::Serialization(e)
    }
}

impl From<serde_json::Error> for PrismError {
    fn from(e: serde_json::Error) -> PrismError {
        PrismError::Serialization(e)
    }
}

impl vstd::std_specs::convert::FromSpecImpl<serde_yml::Error> for PrismError {
    open spec fn obeys_from_spec() -> bool {
        true
    }

    open spec fn from_spec(e: serde_yml::Error) -> PrismError {
        PrismError::YamlParse(e)
    }
}

impl From<serde_yml::Error> for PrismError {
    fn from(e: serde_yml::Error) -> PrismError {
        PrismError::YamlParse(e)
    }
}

impl vstd::std_specs::convert::FromSpecImpl<std::io::Error> for CompileError {
    open spec fn obeys_from_spec() -> bool {
        true
    }

    open spec fn from_spec(e: std::io::Error) -> CompileError {
        CompileError::Io(IoFault::System(e))
    }
}

impl From<std::io::Error> for CompileError {
    fn from(e: std::io::Error) -> CompileError {
        CompileError::Io(IoFault::System(e))
    }
}

impl vstd::std_specs::convert::FromSpecImpl<serde_json::Error> for CompileError {
    open spec fn obeys_from_spec() -> bool {
        true
    }

    open spec fn from_spec(e: serde_json::Error) -> CompileError {
        CompileError::Serialization(e)
    }
}

impl From<serde_json::Error> for CompileError {
    fn from(e: serde_json::Error) -> CompileError {
        CompileError::Serialization(e)
    }
}

impl vstd::std_specs::convert::FromSpecImpl<PrismError> for CompileError {
    open spec fn obeys_from_spec() -> bool {
        false
    }

    open spec fn from_spec(e: PrismError) -> CompileError {
        arbitrary()
    }
}

impl From<PrismError> for CompileError {
    /// Dependency faults, system faults and serialization faults keep their
    /// kind, and a system fault all that it holds; every other fault is a parse
    /// fault.
    fn from(e: PrismError) -> (r: CompileError)
        ensures
            match e {
                PrismError::CircularDependency { cycle } => r == CompileError::CircularDependency(
                    cycle,
                ),
                PrismError::DependencyNotFound { dep, file } => r matches CompileError::DependencyNotFound(m)
                    && m@ == "`"@ + dep@ + "` 在文件 `"@ + file@ + "` 中未找到"@,
                PrismError::Io { detail, source } => r == CompileError::Io(
                    IoFault::Engine { detail, source },
                ),
                PrismError::Serialization(s) => r == CompileError::Serialization(s),
                _ => r == CompileError::DslParse(e),
            },
    {
        match e {
            PrismError::CircularDependency { cycle } => CompileError::CircularDependency(cycle),
            PrismError::DependencyNotFound { dep, file } => CompileError::DependencyNotFound(
                five("`", dep.as_str(), "` 在文件 `", file.as_str(), "` 中未找到"),
            ),
            PrismError::Io { detail, source } => CompileError::Io(
                IoFault::Engine { detail, source },
            ),
            PrismError::Serialization(s) => CompileError::Serialization(s),
            other => CompileError::DslParse(other),
        }
    }
}

/// A warning about the outcome of a transformation.
#[derive(Debug)]
pub struct TransformWarning {
    pub node_index: usize,
    pub node_name: String,
    pub field: String,
    pub hint: String,
}

/// The model of [`TransformWarning`].
#[verifier::ext_equal]
pub ghost struct WarningView {
    pub node: int,
    pub name: Seq<char>,
    pub field: Seq<char>,
    pub hint: Seq<char>,
}

/// The models of warnings.
pub open spec fn warning_views(v: Seq<TransformWarning>) -> Seq<WarningView> {
    Seq::new(v.len(), |i: int| v[i]@)
}

/// Copies warnings.
pub fn copy_warnings(v: &Vec<TransformWarning>) -> (r: Vec<TransformWarning>)
    ensures
        warning_views(r@) == warning_views(v@),
{
    let mut out: Vec<TransformWarning> = Vec::new();
    let mut i: usize = 0;
    while i < v.len()
        invariant
            i <= v@.len(),
            out@.len() == i,
            forall|j: int| 0 <= j < i ==> (#[trigger] out@[j])@ == v@[j]@,
        decreases v@.len() - i,
    {
        out.push(v[i].clone());
        i = i + 1;
    }
    assert(warning_views(out@) =~= warning_views(v@));
    out
}

impl Clone for TransformWarning {
    fn clone(&self) -> (r: TransformWarning)
        ensures
            r@ == self@,
    {
        TransformWarning {
            node_index: self.node_index,
            node_name: self.node_name.clone(),
            field: self.field.clone(),
            hint: self.hint.clone(),
        }
    }
}

impl TransformWarning {
    pub open spec fn view(&self) -> WarningView {
        WarningView {
            node: self.node_index as int,
            name: self.node_name@,
            field: self.field@,
            hint: self.hint@,
        }
    }

    /// The warning in words.
    pub fn message(&self) -> (r: String)
        ensures
            r@ == "Node #"@ + decimal(self.node_index as nat) + " '"@ + self.node_name@
                + "' missing required field '"@ + self.field@ + "': "@ + self.hint@,
    {
        let n = count_text(self.node_index);
        let mut out = five(
            "Node #",
            n.as_str(),
            " '",
            self.node_name.as_str(),
            "' missing required field '",
        );
        out.append(self.field.as_str());
        out.append("': ");
        out.append(self.hint.as_str());
        out
    }
}

} // verus!
