//! Faults as they are shown to users.

use vstd::prelude::*;
use crate::error::{count_text, five, four, headed, three, PrismError};
use crate::expr::concat;
use crate::outside::{debug_quoted, debug_text, json_error_text, yaml_error_text};
use crate::text::{decimal, opt_text, starts_with};

verus! {

/// The kinds of faults that users are told apart.
#[derive(Debug, Clone, Copy, PartialEq, Eq, Structural)]
pub enum ErrorCategory {
    /// Files and directories.
    FileSystem,
    /// The structure of a configuration.
    ConfigStructure,
    /// Permissions.
    Security,
    /// Execution.
    Runtime,
    /// Connections.
    Network,
    /// Scripts.
    Script,
    /// Plugins.
    Plugin,
    /// The content of a configuration.
    Validation,
    /// Anything else.
    Unknown,
}

/// The name of a category.
pub open spec fn category_name(c: ErrorCategory) -> Seq<char> {
    match c {
        ErrorCategory::FileSystem => "FileSystem"@,
        ErrorCategory::ConfigStructure => "ConfigStructure"@,
        ErrorCategory::Security => "Security"@,
        ErrorCategory::Runtime => "Runtime"@,
        ErrorCategory::Network => "Network"@,
        ErrorCategory::Script => "Script"@,
        ErrorCategory::Plugin => "Plugin"@,
        ErrorCategory::Validation => "Validation"@,
        ErrorCategory::Unknown => "Unknown"@,
    }
}

impl ErrorCategory {
    /// The name of the category.
    pub fn name(self) -> (r: &'static str)
        ensures
            r@ == category_name(self),
    {
        match self {
            ErrorCategory::FileSystem => "FileSystem",
            ErrorCategory::ConfigStructure => "ConfigStructure",
            ErrorCategory::Security => "Security",
            ErrorCategory::Runtime => "Runtime",
            ErrorCategory::Network => "Network",
            ErrorCategory::Script => "Script",
            ErrorCategory::Plugin => "Plugin",
            ErrorCategory::Validation => "Validation",
            ErrorCategory::Unknown => "Unknown",
        }
    }
}

/// A fault in the words that a user is shown.
pub struct UserError {
    pub category: ErrorCategory,
    pub title: String,
    pub detail: String,
    /// What the user may do about it.
    pub suggestion: Option<String>,
}

/// The lines that show a fault.
pub open spec fn user_text(
    category: ErrorCategory,
    title: Seq<char>,
    detail: Seq<char>,
    suggestion: Option<Seq<char>>,
) -> Seq<char> {
    let head = "["@ + category_name(category) + "] "@ + title + "\n"@ + "  "@ + detail + "\n"@;
    match suggestion {
        Some(s) => head + "  Suggestion: "@ + s + "\n"@,
        None => head,
    }
}

/// The form for programmers.
pub open spec fn user_debug(
    category: ErrorCategory,
    title: Seq<char>,
    detail: Seq<char>,
    suggestion: Option<Seq<char>>,
) -> Seq<char> {
    "UserError { category: "@ + category_name(category) + ", title: "@ + debug_quoted(title)
        + ", detail: "@ + debug_quoted(detail) + ", suggestion: "@ + (match suggestion {
        Some(s) => "Some("@ + debug_quoted(s) + ")"@,
        None => "None"@,
    }) + " }"@
}

impl UserError {
    /// The lines that show the fault.
    pub fn to_text(&self) -> (r: String)
        ensures
            r@ == user_text(self.category, self.title@, self.detail@, opt_text(self.suggestion)),
    {
        let mut out = five("[", self.category.name(), "] ", self.title.as_str(), "\n");
        out.append("  ");
        out.append(self.detail.as_str());
        out.append("\n");
        if let Some(s) = &self.suggestion {
            out.append("  Suggestion: ");
            out.append(s.as_str());
            out.append("\n");
        }
        out
    }

    /// The form for programmers.
    pub fn to_debug_text(&self) -> (r: String)
        ensures
            r@ == user_debug(self.category, self.title@, self.detail@, opt_text(self.suggestion)),
    {
        let title = debug_text(self.title.as_str());
        let detail = debug_text(self.detail.as_str());
        let mut out = five(
            "UserError { category: ",
            self.category.name(),
            ", title: ",
            title.as_str(),
            ", detail: ",
        );
        out.append(detail.as_str());
        out.append(", suggestion: ");
        let shown = match &self.suggestion {
            Some(s) => {
                let quoted = debug_text(s.as_str());
                three("Some(", quoted.as_str(), ")")
            },
            None => "None".to_owned(),
        };
        out.append(shown.as_str());
        out.append(" }");
        out
    }
}

/// The category of a fault.
pub open spec fn category_of(e: PrismError) -> ErrorCategory {
    match e {
        PrismError::Io { .. } => ErrorCategory::FileSystem,
        PrismError::PathNotFound { .. } => ErrorCategory::FileSystem,
        PrismError::TypeMismatch { .. } => ErrorCategory::ConfigStructure,
        PrismError::OverrideConflict { .. } => ErrorCategory::ConfigStructure,
        PrismError::Validation { .. } => ErrorCategory::Validation,
        PrismError::DuplicateProxyName { .. } => ErrorCategory::Validation,
        PrismError::ProxyGroupMissingProxy { .. } => ErrorCategory::Validation,
        PrismError::DslParse { .. } => ErrorCategory::ConfigStructure,
        PrismError::RuntimeFieldInStaticFilter { .. } => ErrorCategory::ConfigStructure,
        PrismError::ExpressionCompileFailed { .. } => ErrorCategory::ConfigStructure,
        PrismError::CircularDependency { .. } => ErrorCategory::ConfigStructure,
        PrismError::DependencyNotFound { .. } => ErrorCategory::ConfigStructure,
        PrismError::PatchExecutionFailed { .. } => ErrorCategory::Runtime,
        PrismError::Serialization(_) => ErrorCategory::ConfigStructure,
        PrismError::YamlParse(_) => ErrorCategory::ConfigStructure,
        PrismError::TargetOutput { .. } => ErrorCategory::FileSystem,
    }
}

/// The title of a fault.
pub open spec fn title_of(e: PrismError) -> Seq<char> {
    match e {
        PrismError::Io { .. } => "File operation failed"@,
        PrismError::PathNotFound { .. } => "Path not found"@,
        PrismError::TypeMismatch { .. } => "Type mismatch"@,
        PrismError::OverrideConflict { .. } => "Operation conflict"@,
        PrismError::Validation { .. } => "Configuration validation failed"@,
        PrismError::DuplicateProxyName { .. } => "Duplicate proxy name"@,
        PrismError::ProxyGroupMissingProxy { .. } => "Proxy reference not found"@,
        PrismError::DslParse { .. } => "DSL parse error"@,
        PrismError::RuntimeFieldInStaticFilter { .. } => "Runtime field referenced in static context"@,
        PrismError::ExpressionCompileFailed { .. } => "Expression compilation failed"@,
        PrismError::CircularDependency { .. } => "Circular dependency"@,
        PrismError::DependencyNotFound { .. } => "Dependency not found"@,
        PrismError::PatchExecutionFailed { .. } => "Patch execution failed"@,
        PrismError::Serialization(_) => "Serialization error"@,
        PrismError::YamlParse(_) => "YAML parse error"@,
        PrismError::TargetOutput { .. } => "Configuration output failed"@,
    }
}

/// Where in a document a fault lies.
pub open spec fn place_text(path: Option<Seq<char>>) -> Seq<char> {
    match path {
        Some(p) => " (path: "@ + p + ")"@,
        None => Seq::empty(),
    }
}

/// Where in which file a fault lies.
pub open spec fn origin_text(file: Option<Seq<char>>, line: Option<u32>) -> Seq<char> {
    match file {
        Some(f) => " (file: "@ + f + (match line {
            Some(l) => ", line: "@ + decimal(l as nat),
            None => Seq::empty(),
        }) + ")"@,
        None => Seq::empty(),
    }
}

/// The detail of a fault, where the fault holds all of it.
pub open spec fn detail_of(e: PrismError) -> Option<Seq<char>> {
    match e {
        PrismError::Io { detail, .. } => Some("IO error: "@ + detail@),
        PrismError::PathNotFound { path } => Some("Path not found: "@ + path@),
        PrismError::TypeMismatch { expected, actual, path } => Some("Path '"@ + path@ + "' expected type '"@ + expected@ + "', got '"@ + actual@ + "'"@),
        PrismError::OverrideConflict { field } => Some("Field '"@ + field@ + "' does not allow mixing $override with other operations."@),
        PrismError::Validation { message, path } => Some(message@ + place_text(opt_text(path))),
        PrismError::DuplicateProxyName { name, count } => Some("Proxy '"@ + name@ + "' appears "@ + decimal(count as nat) + " times; names must be unique."@),
        PrismError::ProxyGroupMissingProxy { group, proxy } => Some("Proxy group '"@ + group@ + "' references non-existent proxy '"@ + proxy@ + "'."@),
        PrismError::DslParse { message, file, line } => Some(message@ + origin_text(opt_text(file), line)),
        PrismError::RuntimeFieldInStaticFilter { field, hint } => Some("Field '"@ + field@ + "' is a runtime field and cannot be used in static filters. "@ + hint@),
        PrismError::ExpressionCompileFailed { expr, reason } => Some("Expression '"@ + expr@ + "' failed to compile: "@ + reason@),
        PrismError::CircularDependency { cycle } => Some("Circular dependency detected: "@ + cycle@),
        PrismError::DependencyNotFound { dep, file } => Some("Dependency '"@ + dep@ + "' not found in file '"@ + file@ + "'."@),
        PrismError::PatchExecutionFailed { patch_id, reason } => Some("Patch '"@ + patch_id@ + "' execution failed: "@ + reason@),
        PrismError::Serialization(_) => None,
        PrismError::YamlParse(_) => None,
        PrismError::TargetOutput { message } => Some(message@),
    }
}

/// What a user may do about a fault.
pub open spec fn suggestion_of(e: PrismError) -> Seq<char> {
    match e {
        PrismError::Io { .. } => "Check file permissions and disk space."@,
        PrismError::PathNotFound { .. } => "Verify the path is spelled correctly and the file/directory exists."@,
        PrismError::TypeMismatch { expected, path, .. } => "Change the value at path '"@ + path@ + "' to type '"@ + expected@ + "'."@,
        PrismError::OverrideConflict { field } => "Remove either $override or other operations from field '"@ + field@ + "'; they cannot be mixed."@,
        PrismError::Validation { .. } => "Check the relevant fields in the configuration file."@,
        PrismError::DuplicateProxyName { name, .. } => "Rename duplicate proxy '"@ + name@ + "' to a unique name."@,
        PrismError::ProxyGroupMissingProxy { group, proxy } => "Ensure proxy '"@ + proxy@ + "' is defined in 'proxies', or remove the reference from group '"@ + group@ + "'."@,
        PrismError::DslParse { .. } => "Check the DSL file syntax for errors."@,
        PrismError::RuntimeFieldInStaticFilter { field, .. } => "Move field '"@ + field@ + "' to a runtime context, or use a static field instead."@,
        PrismError::ExpressionCompileFailed { .. } => "Check the expression syntax for errors."@,
        PrismError::CircularDependency { .. } => "Check import/dependency declarations and remove circular references."@,
        PrismError::DependencyNotFound { dep, .. } => "Ensure the file corresponding to dependency '"@ + dep@ + "' exists and the path is correct."@,
        PrismError::PatchExecutionFailed { .. } => "Check the target path and operation of the patch."@,
        PrismError::Serialization(_) => "Check if the configuration value contains unsupported data types."@,
        PrismError::YamlParse(_) => "Check YAML syntax (indentation, colons, quotes, etc.)."@,
        PrismError::TargetOutput { .. } => "Check write permissions and disk space for the output directory."@,
    }
}

/// Classifies a fault.
pub fn classify_error(err: &PrismError) -> (r: ErrorCategory)
    ensures
        r == category_of(*err),
{
    match err {
        PrismError::Io { .. } => ErrorCategory::FileSystem,
        PrismError::PathNotFound { .. } => ErrorCategory::FileSystem,
        PrismError::TypeMismatch { .. } => ErrorCategory::ConfigStructure,
        PrismError::OverrideConflict { .. } => ErrorCategory::ConfigStructure,
        PrismError::Validation { .. } => ErrorCategory::Validation,
        PrismError::DuplicateProxyName { .. } => ErrorCategory::Validation,
        PrismError::ProxyGroupMissingProxy { .. } => ErrorCategory::Validation,
        PrismError::DslParse { .. } => ErrorCategory::ConfigStructure,
        PrismError::RuntimeFieldInStaticFilter { .. } => ErrorCategory::ConfigStructure,
        PrismError::ExpressionCompileFailed { .. } => ErrorCategory::ConfigStructure,
        PrismError::CircularDependency { .. } => ErrorCategory::ConfigStructure,
        PrismError::DependencyNotFound { .. } => ErrorCategory::ConfigStructure,
        PrismError::PatchExecutionFailed { .. } => ErrorCategory::Runtime,
        PrismError::Serialization(_) => ErrorCategory::ConfigStructure,
        PrismError::YamlParse(_) => ErrorCategory::ConfigStructure,
        PrismError::TargetOutput { .. } => ErrorCategory::FileSystem,
    }
}

fn place_of(path: &Option<String>) -> (r: String)
    ensures
        r@ == place_text(opt_text(*path)),
{
    match path {
        Some(p) => three(" (path: ", p.as_str(), ")"),
        None => String::new(),
    }
}

fn origin_of(file: &Option<String>, line: Option<u32>) -> (r: String)
    ensures
        r@ == origin_text(opt_text(*file), line),
{
    match file {
        Some(f) => {
            let at = match line {
                Some(l) => {
                    let n = crate::text::decimal_text(l as u64);
                    concat(", line: ", n.as_str())
                },
                None => String::new(),
            };
            four(" (file: ", f.as_str(), at.as_str(), ")")
        },
        None => String::new(),
    }
}

fn title_text(err: &PrismError) -> (r: &'static str)
    ensures
        r@ == title_of(*err),
{
    match err {
        PrismError::Io { .. } => "File operation failed",
        PrismError::PathNotFound { .. } => "Path not found",
        PrismError::TypeMismatch { .. } => "Type mismatch",
        PrismError::OverrideConflict { .. } => "Operation conflict",
        PrismError::Validation { .. } => "Configuration validation failed",
        PrismError::DuplicateProxyName { .. } => "Duplicate proxy name",
        PrismError::ProxyGroupMissingProxy { .. } => "Proxy reference not found",
        PrismError::DslParse { .. } => "DSL parse error",
        PrismError::RuntimeFieldInStaticFilter { .. } => "Runtime field referenced in static context",
        PrismError::ExpressionCompileFailed { .. } => "Expression compilation failed",
        PrismError::CircularDependency { .. } => "Circular dependency",
        PrismError::DependencyNotFound { .. } => "Dependency not found",
        PrismError::PatchExecutionFailed { .. } => "Patch execution failed",
        PrismError::Serialization(_) => "Serialization error",
        PrismError::YamlParse(_) => "YAML parse error",
        PrismError::TargetOutput { .. } => "Configuration output failed",
    }
}

fn detail_text(err: &PrismError) -> (r: String)
    ensures
        detail_of(*err) matches Some(t) ==> r@ == t,
        err is Serialization ==> starts_with(r@, "JSON serialization failed: "@),
        err is YamlParse ==> starts_with(r@, "YAML parse failed: "@),
{
    match err {
        PrismError::Io { detail, .. } => concat("IO error: ", detail.as_str()),
        PrismError::PathNotFound { path } => concat("Path not found: ", path.as_str()),
        PrismError::TypeMismatch { expected, actual, path } => {
            let mut out = five("Path '", path.as_str(), "' expected type '", expected.as_str(), "', got '");
            out.append(actual.as_str());
            out.append("'");
            out
        },
        PrismError::OverrideConflict { field } => three("Field '", field.as_str(), "' does not allow mixing $override with other operations."),
        PrismError::Validation { message, path } => {
            let place = place_of(path);
            concat(message.as_str(), place.as_str())
        },
        PrismError::DuplicateProxyName { name, count } => {
            let n = count_text(*count);
            five("Proxy '", name.as_str(), "' appears ", n.as_str(), " times; names must be unique.")
        },
        PrismError::ProxyGroupMissingProxy { group, proxy } => five("Proxy group '", group.as_str(), "' references non-existent proxy '", proxy.as_str(), "'."),
        PrismError::DslParse { message, file, line } => {
            let origin = origin_of(file, *line);
            concat(message.as_str(), origin.as_str())
        },
        PrismError::RuntimeFieldInStaticFilter { field, hint } => four("Field '", field.as_str(), "' is a runtime field and cannot be used in static filters. ", hint.as_str()),
        PrismError::ExpressionCompileFailed { expr, reason } => four("Expression '", expr.as_str(), "' failed to compile: ", reason.as_str()),
        PrismError::CircularDependency { cycle } => concat("Circular dependency detected: ", cycle.as_str()),
        PrismError::DependencyNotFound { dep, file } => five("Dependency '", dep.as_str(), "' not found in file '", file.as_str(), "'."),
        PrismError::PatchExecutionFailed { patch_id, reason } => four("Patch '", patch_id.as_str(), "' execution failed: ", reason.as_str()),
        PrismError::Serialization(e) => {
            let m = json_error_text(e);
            headed("JSON serialization failed: ", m.as_str())
        },
        PrismError::YamlParse(e) => {
            let m = yaml_error_text(e);
            headed("YAML parse failed: ", m.as_str())
        },
        PrismError::TargetOutput { message } => message.clone(),
    }
}

fn suggestion_text(err: &PrismError) -> (r: String)
    ensures
        r@ == suggestion_of(*err),
{
    match err {
        PrismError::Io { .. } => "Check file permissions and disk space.".to_owned(),
        PrismError::PathNotFound { .. } => "Verify the path is spelled correctly and the file/directory exists.".to_owned(),
        PrismError::TypeMismatch { expected, path, .. } => five("Change the value at path '", path.as_str(), "' to type '", expected.as_str(), "'."),
        PrismError::OverrideConflict { field } => three("Remove either $override or other operations from field '", field.as_str(), "'; they cannot be mixed."),
        PrismError::Validation { .. } => "Check the relevant fields in the configuration file.".to_owned(),
        PrismError::DuplicateProxyName { name, .. } => three("Rename duplicate proxy '", name.as_str(), "' to a unique name."),
        PrismError::ProxyGroupMissingProxy { group, proxy } => five("Ensure proxy '", proxy.as_str(), "' is defined in 'proxies', or remove the reference from group '", group.as_str(), "'."),
        PrismError::DslParse { .. } => "Check the DSL file syntax for errors.".to_owned(),
        PrismError::RuntimeFieldInStaticFilter { field, .. } => three("Move field '", field.as_str(), "' to a runtime context, or use a static field instead."),
        PrismError::ExpressionCompileFailed { .. } => "Check the expression syntax for errors.".to_owned(),
        PrismError::CircularDependency { .. } => "Check import/dependency declarations and remove circular references.".to_owned(),
        PrismError::DependencyNotFound { dep, .. } => three("Ensure the file corresponding to dependency '", dep.as_str(), "' exists and the path is correct."),
        PrismError::PatchExecutionFailed { .. } => "Check the target path and operation of the patch.".to_owned(),
        PrismError::Serialization(_) => "Check if the configuration value contains unsupported data types.".to_owned(),
        PrismError::YamlParse(_) => "Check YAML syntax (indentation, colons, quotes, etc.).".to_owned(),
        PrismError::TargetOutput { .. } => "Check write permissions and disk space for the output directory.".to_owned(),
    }
}

/// Puts a fault in the words that a user is shown.
///
/// Of a fault of `serde_json` or `serde_yml`, what follows the heading of the
/// detail is that crate's own message.
pub fn format_user_facing_error(err: &PrismError) -> (r: UserError)
    ensures
        r.category == category_of(*err),
        r.title@ == title_of(*err),
        detail_of(*err) matches Some(t) ==> r.detail@ == t,
        err is Serialization ==> starts_with(r.detail@, "JSON serialization failed: "@),
        err is YamlParse ==> starts_with(r.detail@, "YAML parse failed: "@),
        opt_text(r.suggestion) == Some(suggestion_of(*err)),
{
    UserError {
        category: classify_error(err),
        title: title_text(err).to_owned(),
        detail: detail_text(err),
        suggestion: Some(suggestion_text(err)),
    }
}

} // verus!
