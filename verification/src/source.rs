//! Where a patch comes from.

use vstd::prelude::*;
use crate::error::{count_text, three, PrismError};
use crate::expr::concat;
use crate::text::{chars_of, code_point, copy_text, decimal, opt_text, trim, trimmed};

verus! {

/// The kind of origin.
#[derive(Debug, PartialEq)]
#[allow(inconsistent_fields)]
pub enum SourceKind {
    /// A file that the user wrote.
    YamlFile,
    /// A component of the visual editor.
    VisualEditor { source: String },
    /// A script.
    Script { name: String },
    /// A plugin.
    Plugin { id: String },
    /// The engine itself.
    Builtin,
}

/// The origin of a patch.
#[derive(Debug, PartialEq)]
pub struct PatchSource {
    pub kind: SourceKind,
    /// The file, where there is one.
    pub file: Option<String>,
    /// The line in the file.
    pub line: Option<u32>,
    /// The plugin, where there is one.
    pub plugin_id: Option<String>,
}

/// The model of [`SourceKind`].
#[verifier::ext_equal]
pub ghost enum KindView {
    YamlFile,
    VisualEditor(Seq<char>),
    Script(Seq<char>),
    Plugin(Seq<char>),
    Builtin,
}

/// The model of [`PatchSource`].
#[verifier::ext_equal]
pub ghost struct SourceView {
    pub kind: KindView,
    pub file: Option<Seq<char>>,
    pub line: Option<u32>,
    pub plugin_id: Option<Seq<char>>,
}

impl SourceKind {
    pub open spec fn view(&self) -> KindView {
        match self {
            SourceKind::YamlFile => KindView::YamlFile,
            SourceKind::VisualEditor { source } => KindView::VisualEditor(source@),
            SourceKind::Script { name } => KindView::Script(name@),
            SourceKind::Plugin { id } => KindView::Plugin(id@),
            SourceKind::Builtin => KindView::Builtin,
        }
    }
}

/// A control character.
pub open spec fn is_control(c: char) -> bool {
    c as int <= 0x1f || 0x7f <= c as int <= 0x9f
}

/// Why the name of an editor component is refused.
pub open spec fn editor_fault(s: Seq<char>) -> Option<Seq<char>> {
    if trim(s).len() == 0 {
        Some("VisualEditor.source 不能为空字符串"@)
    } else if trim(s).len() > 256 {
        Some(
            "VisualEditor.source 长度不能超过 256 字符 (当前 "@ + decimal(trim(s).len())
                + " 字符)"@,
        )
    } else if s.contains('\0') {
        Some("VisualEditor.source 不能包含 null 字节"@)
    } else if exists|i: int| 0 <= i < s.len() && is_control(#[trigger] s[i]) {
        Some("VisualEditor.source 不能包含控制字符"@)
    } else {
        None
    }
}

/// The origin in a few words.
pub open spec fn source_text(s: SourceView) -> Seq<char> {
    match s.kind {
        KindView::YamlFile => match s.file {
            Some(f) => f,
            None => "未知文件"@,
        },
        KindView::VisualEditor(source) => "编辑器("@ + source + ")"@,
        KindView::Script(name) => "脚本: "@ + name,
        KindView::Plugin(id) => "插件: "@ + id,
        KindView::Builtin => "引擎内建"@,
    }
}

fn has_null(s: &[char]) -> (r: bool)
    ensures
        r == s@.contains('\0'),
{
    let mut i: usize = 0;
    while i < s.len()
        invariant
            i <= s@.len(),
            forall|j: int| 0 <= j < i ==> s@[j] != '\0',
        decreases s@.len() - i,
    {
        if s[i] == '\0' {
            assert(s@[i as int] == '\0');
            return true;
        }
        i = i + 1;
    }
    false
}

fn has_control(s: &[char]) -> (r: bool)
    ensures
        r == exists|i: int| 0 <= i < s@.len() && is_control(#[trigger] s@[i]),
{
    let mut i: usize = 0;
    while i < s.len()
        invariant
            i <= s@.len(),
            forall|j: int| 0 <= j < i ==> !is_control(#[trigger] s@[j]),
        decreases s@.len() - i,
    {
        let n: u32 = code_point(s[i]);
        if n <= 0x1f || (0x7f <= n && n <= 0x9f) {
            assert(is_control(s@[i as int]));
            return true;
        }
        i = i + 1;
    }
    false
}

fn refused(message: String) -> (r: PrismError)
    ensures
        r == (PrismError::Validation { message, path: None }),
{
    PrismError::Validation { message, path: None }
}

impl PatchSource {
    pub open spec fn view(&self) -> SourceView {
        SourceView {
            kind: self.kind@,
            file: opt_text(self.file),
            line: self.line,
            plugin_id: opt_text(self.plugin_id),
        }
    }

    /// A file, with the line where the patch stands.
    pub fn yaml_file(file: &str, line: Option<u32>) -> (r: PatchSource)
        ensures
            r@ == (SourceView {
                kind: KindView::YamlFile,
                file: Some(file@),
                line,
                plugin_id: None,
            }),
    {
        PatchSource {
            kind: SourceKind::YamlFile,
            file: Some(file.to_owned()),
            line,
            plugin_id: None,
        }
    }

    /// A component of the visual editor.
    ///
    /// Its name must not be blank, must not be longer than 256 characters
    /// without the white space around it, and must hold no control characters.
    pub fn visual_editor(source: &str) -> (r: Result<PatchSource, PrismError>)
        ensures
            match r {
                Ok(s) => editor_fault(source@) is None && s@ == (SourceView {
                    kind: KindView::VisualEditor(source@),
                    file: None,
                    line: None,
                    plugin_id: None,
                }),
                Err(e) => e matches PrismError::Validation { message, path } && path is None
                    && editor_fault(source@) == Some(message@),
            },
    {
        let chars = chars_of(source);
        let name = trimmed(chars.as_slice());
        if name.len() == 0 {
            return Err(refused("VisualEditor.source 不能为空字符串".to_owned()));
        }
        if name.len() > 256 {
            let n = count_text(name.len());
            return Err(
                refused(
                    three(
                        "VisualEditor.source 长度不能超过 256 字符 (当前 ",
                        n.as_str(),
                        " 字符)",
                    ),
                ),
            );
        }
        if has_null(chars.as_slice()) {
            return Err(refused("VisualEditor.source 不能包含 null 字节".to_owned()));
        }
        if has_control(chars.as_slice()) {
            return Err(refused("VisualEditor.source 不能包含控制字符".to_owned()));
        }
        Ok(
            PatchSource {
                kind: SourceKind::VisualEditor { source: source.to_owned() },
                file: None,
                line: None,
                plugin_id: None,
            },
        )
    }

    /// A script.
    pub fn script(name: &str) -> (r: PatchSource)
        ensures
            r@ == (SourceView {
                kind: KindView::Script(name@),
                file: None,
                line: None,
                plugin_id: None,
            }),
    {
        PatchSource {
            kind: SourceKind::Script { name: name.to_owned() },
            file: None,
            line: None,
            plugin_id: None,
        }
    }

    /// A plugin.
    pub fn plugin(id: &str) -> (r: PatchSource)
        ensures
            r@ == (SourceView {
                kind: KindView::Plugin(id@),
                file: None,
                line: None,
                plugin_id: Some(id@),
            }),
    {
        PatchSource {
            kind: SourceKind::Plugin { id: id.to_owned() },
            file: None,
            line: None,
            plugin_id: Some(id.to_owned()),
        }
    }

    /// The engine itself.
    pub fn builtin() -> (r: PatchSource)
        ensures
            r@ == (SourceView {
                kind: KindView::Builtin,
                file: None,
                line: None,
                plugin_id: None,
            }),
    {
        PatchSource { kind: SourceKind::Builtin, file: None, line: None, plugin_id: None }
    }

    /// The origin in a few words.
    pub fn short_description(&self) -> (r: String)
        ensures
            r@ == source_text(self@),
    {
        match &self.kind {
            SourceKind::YamlFile => match &self.file {
                Some(f) => f.clone(),
                None => "未知文件".to_owned(),
            },
            SourceKind::VisualEditor { source } => three("编辑器(", source.as_str(), ")"),
            SourceKind::Script { name } => concat("脚本: ", name.as_str()),
            SourceKind::Plugin { id } => concat("插件: ", id.as_str()),
            SourceKind::Builtin => "引擎内建".to_owned(),
        }
    }
}

impl Clone for SourceKind {
    fn clone(&self) -> (r: SourceKind)
        ensures
            r@ == self@,
    {
        match self {
            SourceKind::YamlFile => SourceKind::YamlFile,
            SourceKind::VisualEditor { source } => SourceKind::VisualEditor {
                source: source.clone(),
            },
            SourceKind::Script { name } => SourceKind::Script { name: name.clone() },
            SourceKind::Plugin { id } => SourceKind::Plugin { id: id.clone() },
            SourceKind::Builtin => SourceKind::Builtin,
        }
    }
}

impl Clone for PatchSource {
    fn clone(&self) -> (r: PatchSource)
        ensures
            r@ == self@,
    {
        PatchSource {
            kind: self.kind.clone(),
            file: copy_text(&self.file),
            line: self.line,
            plugin_id: copy_text(&self.plugin_id),
        }
    }
}

/// The name of an editor component is accepted exactly when it holds no control
/// character and, without the white space around it, one to 256 characters.
pub proof fn which_editor_names_are_accepted(s: Seq<char>)
    ensures
        editor_fault(s) is None <==> 1 <= trim(s).len() <= 256 && forall|i: int|
            0 <= i < s.len() ==> !(#[trigger] s[i] as int <= 0x1f || 0x7f <= s[i] as int <= 0x9f),
{
    if s.contains('\0') {
        let i = choose|i: int| 0 <= i < s.len() && s[i] == '\0';
        assert(s[i] as int <= 0x1f);
    }
    if exists|i: int| 0 <= i < s.len() && is_control(#[trigger] s[i]) {
        let i = choose|i: int| 0 <= i < s.len() && is_control(#[trigger] s[i]);
        assert(s[i] as int <= 0x1f || 0x7f <= s[i] as int <= 0x9f);
    } else {
        assert forall|i: int| 0 <= i < s.len() implies !(#[trigger] s[i] as int <= 0x1f || 0x7f
            <= s[i] as int <= 0x9f) by {
            assert(!is_control(s[i]));
        }
    }
}

} // verus!
