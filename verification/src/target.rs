//! Output of configurations for the proxy cores.

use vstd::prelude::*;
use vstd::slice::slice_subrange;
pub use crate::reload::{HotReloadResult, HotReloadStrategy};
use crate::error::PrismError;
use crate::json_path::{
    at_keys, at_path, get_json_path_mut, path_keys, reached, replace_then_read, replaced, set_at,
    set_json_path,
};
use crate::json_text::{json_text, to_json_text};
use crate::outside::{yaml_read, yaml_text, yaml_value, yaml_write};
use crate::serial::{pretty_text, to_pretty_text};
use crate::text::{
    char_index, chars_of, index_of_char, is_digit, is_white, push_chars, split, split_in_two,
    text_of, tight, trim, trim_end, trimmed, trimmed_end, white,
};
use crate::value::{
    field, member, members_are_in_order, ordered, ordered_throughout, remove_keeps_all_in_order,
    remove_then_get, set_keeps_all_in_order, set_then_get, with_member, without_member, Document,
    Json,
};

verus! {

// ---------------------------------------------------------------------------
// Cores
// ---------------------------------------------------------------------------

/// What a configuration is written for.
#[derive(Debug, Clone, Copy, PartialEq, Eq, Structural)]
pub enum TargetCore {
    /// The core mihomo, which reads YAML.
    Mihomo,
    /// The core clash-rs, which reads YAML.
    ClashRs,
    /// No core: the configuration as JSON.
    Json,
}

/// The name of a target.
pub open spec fn target_name(t: TargetCore) -> Seq<char> {
    match t {
        TargetCore::Mihomo => "mihomo"@,
        TargetCore::ClashRs => "clash-rs"@,
        TargetCore::Json => "json"@,
    }
}

impl TargetCore {
    /// The name of the target.
    pub fn name(self) -> (r: &'static str)
        ensures
            r@ == target_name(self),
    {
        match self {
            TargetCore::Mihomo => "mihomo",
            TargetCore::ClashRs => "clash-rs",
            TargetCore::Json => "json",
        }
    }
}

impl Default for TargetCore {
    fn default() -> (r: TargetCore)
        ensures
            r == TargetCore::Mihomo,
    {
        TargetCore::Mihomo
    }
}

// ---------------------------------------------------------------------------
// Fields that differ between cores
// ---------------------------------------------------------------------------

/// What becomes of a field.
#[derive(Debug, Clone)]
pub enum FieldMappingAction {
    /// The field goes.
    Remove,
    /// The field gets another name.
    Rename { to: String },
    /// The field moves to another place.
    MoveTo { new_path: String },
}

/// A field that a core does not take as it is.
#[derive(Debug, Clone)]
pub struct FieldMapping {
    /// The dotted path of the field.
    pub path: String,
    /// The core.
    pub target: TargetCore,
    /// What becomes of the field.
    pub action: FieldMappingAction,
}

/// The model of [`FieldMapping`]: a field, a core, and the place to which the
/// field goes, if it stays at all.
#[verifier::ext_equal]
pub ghost struct MappingView {
    pub path: Seq<char>,
    pub target: TargetCore,
    pub moved_to: Option<Seq<char>>,
}

impl FieldMapping {
    pub open spec fn view(&self) -> MappingView {
        MappingView {
            path: self.path@,
            target: self.target,
            moved_to: match self.action {
                FieldMappingAction::Remove => None,
                FieldMappingAction::Rename { to } => Some(to@),
                FieldMappingAction::MoveTo { new_path } => Some(new_path@),
            },
        }
    }
}

/// The models of field mappings.
pub open spec fn mapping_views(v: Seq<FieldMapping>) -> Seq<MappingView> {
    Seq::new(v.len(), |i: int| v[i]@)
}

/// The fields that differ between the cores.
pub open spec fn mapping_table() -> Seq<MappingView> {
    seq![
        MappingView { path: "tun.device"@, target: TargetCore::ClashRs, moved_to: None },
        MappingView {
            path: "tun.stack"@,
            target: TargetCore::ClashRs,
            moved_to: Some("tun.interface-name"@),
        },
        MappingView {
            path: "experimental.ignore-certificate-errors"@,
            target: TargetCore::ClashRs,
            moved_to: None,
        },
        MappingView { path: "external-controller-tls"@, target: TargetCore::ClashRs, moved_to: None },
        MappingView { path: "secret"@, target: TargetCore::ClashRs, moved_to: None },
        MappingView {
            path: "log.level"@,
            target: TargetCore::Mihomo,
            moved_to: Some("log-level"@),
        },
    ]
}

fn removal(path: &str, target: TargetCore) -> (r: FieldMapping)
    ensures
        r@ == (MappingView { path: path@, target, moved_to: None }),
{
    FieldMapping { path: path.to_owned(), target, action: FieldMappingAction::Remove }
}

fn renaming(path: &str, target: TargetCore, to: &str) -> (r: FieldMapping)
    ensures
        r@ == (MappingView { path: path@, target, moved_to: Some(to@) }),
{
    FieldMapping {
        path: path.to_owned(),
        target,
        action: FieldMappingAction::Rename { to: to.to_owned() },
    }
}

/// The fields that differ between the cores.
pub fn field_mappings() -> (r: Vec<FieldMapping>)
    ensures
        mapping_views(r@) == mapping_table(),
{
    let mut out: Vec<FieldMapping> = Vec::new();
    out.push(removal("tun.device", TargetCore::ClashRs));
    out.push(renaming("tun.stack", TargetCore::ClashRs, "tun.interface-name"));
    out.push(removal("experimental.ignore-certificate-errors", TargetCore::ClashRs));
    out.push(removal("external-controller-tls", TargetCore::ClashRs));
    out.push(removal("secret", TargetCore::ClashRs));
    out.push(renaming("log.level", TargetCore::Mihomo, "log-level"));
    assert(mapping_views(out@) =~= mapping_table());
    out
}

// ---------------------------------------------------------------------------
// Removing and moving fields
// ---------------------------------------------------------------------------

/// The position of the last dot in a path, or -1.
pub open spec fn last_dot(path: Seq<char>) -> int
    decreases path.len(),
{
    if path.len() == 0 {
        -1
    } else if path.last() == '.' {
        path.len() - 1
    } else {
        last_dot(path.drop_last())
    }
}

/// The path of the object that holds a field.
pub open spec fn parent_path(path: Seq<char>) -> Seq<char> {
    if last_dot(path) < 0 {
        Seq::empty()
    } else {
        path.take(last_dot(path))
    }
}

/// The name of a field in the object that holds it.
pub open spec fn leaf_name(path: Seq<char>) -> Seq<char> {
    path.skip(last_dot(path) + 1)
}

/// The value of a field.
pub open spec fn leaf(v: Json, path: Seq<char>) -> Option<Json> {
    match at_path(v, parent_path(path)) {
        Some(Json::Obj(o)) => member(o, leaf_name(path)),
        _ => None,
    }
}

/// A document without a field.
pub open spec fn field_removed(v: Json, path: Seq<char>) -> Json {
    match at_path(v, parent_path(path)) {
        Some(Json::Obj(o)) => replaced(
            v,
            path_keys(parent_path(path)),
            Json::Obj(without_member(o, leaf_name(path))),
        ),
        _ => v,
    }
}

/// A document with a field moved, where it has the field.
pub open spec fn field_moved(v: Json, from: Seq<char>, to: Seq<char>) -> Json {
    match leaf(v, from) {
        Some(value) => set_at(field_removed(v, from), to, value),
        None => field_removed(v, from),
    }
}

proof fn last_dot_bounds(path: Seq<char>)
    ensures
        -1 <= last_dot(path) < path.len(),
    decreases path.len(),
{
    if path.len() > 0 && path.last() != '.' {
        last_dot_bounds(path.drop_last());
    }
}

/// Takes a field out of a document.
fn take_field(config: &mut Document, path: &str) -> (r: Option<Document>)
    ensures
        final(config)@ == field_removed(old(config)@, path@),
        match r {
            Some(v) => leaf(old(config)@, path@) == Some(v@),
            None => leaf(old(config)@, path@) is None,
        },
{
    let chars = chars_of(path);
    let n: usize = chars.len();
    let mut cut: usize = n;
    assert(path@.take(n as int) =~= path@);
    while cut > 0 && chars[cut - 1] != '.'
        invariant
            cut <= n,
            n == chars@.len(),
            chars@ == path@,
            last_dot(path@) == last_dot(path@.take(cut as int)),
        decreases cut,
    {
        assert(path@.take(cut as int).drop_last() =~= path@.take(cut - 1));
        cut = cut - 1;
    }
    proof {
        if cut > 0 {
            assert(path@.take(cut as int).last() == path@[cut - 1]);
        }
        assert(last_dot(path@) == cut - 1);
    }
    let head = slice_subrange(
        chars.as_slice(),
        0,
        if cut > 0 {
            cut - 1
        } else {
            0
        },
    );
    let parent = text_of(head);
    assert(parent@ =~= parent_path(path@));
    let name = text_of(slice_subrange(chars.as_slice(), cut, n));
    assert(name@ =~= leaf_name(path@));
    match get_json_path_mut(config, parent.as_str()) {
        Some(holder) => match holder.as_object_mut() {
            Some(obj) => obj.remove(name.as_str()),
            None => {
                proof {
                    crate::json_path::replace_by_same(
                        old(config)@,
                        path_keys(parent_path(path@)),
                    );
                }
                None
            },
        },
        None => None,
    }
}

/// Removes a field.
pub fn remove_field(config: &mut Document, path: &str)
    ensures
        final(config)@ == field_removed(old(config)@, path@),
{
    let _ = take_field(config, path);
}

/// Moves a field to another path, where the document has the field.
pub fn rename_field(config: &mut Document, old_path: &str, new_path: &str)
    ensures
        final(config)@ == field_moved(old(config)@, old_path@, new_path@),
{
    match take_field(config, old_path) {
        Some(value) => set_json_path(config, new_path, value),
        None => {},
    }
}

/// A document after the first `n` mappings for a core.
pub open spec fn adapted(
    v: Json,
    table: Seq<MappingView>,
    target: TargetCore,
    n: int,
) -> Json
    decreases n,
{
    if n <= 0 {
        v
    } else {
        let before = adapted(v, table, target, n - 1);
        let m = table[n - 1];
        if m.target != target {
            before
        } else {
            match m.moved_to {
                None => field_removed(before, m.path),
                Some(to) => field_moved(before, m.path, to),
            }
        }
    }
}

/// A configuration with the fields that a core takes.
pub open spec fn adapted_for(v: Json, target: TargetCore) -> Json {
    adapted(v, mapping_table(), target, mapping_table().len() as int)
}

// ---------------------------------------------------------------------------
// Compact YAML
// ---------------------------------------------------------------------------

/// The lines of a text, without line ends.
pub open spec fn lines(s: Seq<char>) -> Seq<Seq<char>>
    decreases s.len(),
{
    let i = char_index(s, '\n');
    if s.len() == 0 {
        Seq::empty()
    } else if 0 <= i < s.len() {
        seq![without_return(s.take(i))] + lines(s.skip(i + 1))
    } else {
        seq![s]
    }
}

/// A line without the carriage return at its end.
pub open spec fn without_return(line: Seq<char>) -> Seq<char> {
    if line.len() > 0 && line.last() == '\r' {
        line.drop_last()
    } else {
        line
    }
}

/// The bytes that a character takes.
pub open spec fn char_width(c: char) -> int {
    if (c as int) < 0x80 {
        1
    } else if (c as int) < 0x800 {
        2
    } else if (c as int) < 0x10000 {
        3
    } else {
        4
    }
}

/// The bytes of the white space at the start of a line.
pub open spec fn indentation(line: Seq<char>) -> int
    decreases line.len(),
{
    if line.len() == 0 || !white(line[0]) {
        0
    } else {
        char_width(line[0]) + indentation(line.drop_first())
    }
}

/// Whether a character opens a block of text.
pub open spec fn block_sign(c: char) -> bool {
    c == '|' || c == '>'
}

/// Whether a character says how the line ends behind a block of text are kept.
pub open spec fn chomping_sign(c: char) -> bool {
    c == '-' || c == '+'
}

/// Whether a character says how far a block of text is indented.
pub open spec fn indentation_digit(c: char) -> bool {
    '1' <= c <= '9'
}

/// Where the sign stands with which a text ends, or -1: `|` or `>`, and behind it
/// a chomping sign, an indentation digit, or both.
pub open spec fn sign_place(t: Seq<char>) -> int {
    let n = t.len() as int;
    if n > 0 && block_sign(t[n - 1]) {
        n - 1
    } else if n > 1 && (chomping_sign(t[n - 1]) || indentation_digit(t[n - 1])) && block_sign(
        t[n - 2],
    ) {
        n - 2
    } else if n > 2 && (chomping_sign(t[n - 1]) && indentation_digit(t[n - 2])
        || indentation_digit(t[n - 1]) && chomping_sign(t[n - 2])) && block_sign(t[n - 3]) {
        n - 3
    } else {
        -1
    }
}

/// Whether a value can follow a text on its line: there is none, or it ends in a
/// colon or in the dash of a list item.
pub open spec fn leads_to_value(before: Seq<char>) -> bool {
    let n = before.len() as int;
    n == 0 || before[n - 1] == ':' || (before[n - 1] == '-' && (n == 1 || before[n - 2] == ' '))
}

/// Whether a line opens a block of text.
pub open spec fn opens_block(line: Seq<char>) -> bool {
    let t = trim(line);
    sign_place(t) >= 0 && leads_to_value(trim_end(t.take(sign_place(t))))
}

/// The text so far, and the indentation of the line that opened the block of
/// text that is going on, if one is.
#[verifier::ext_equal]
pub ghost struct Compacted {
    pub text: Seq<char>,
    pub block: Option<int>,
}

/// What another line adds: empty lines go, except in a block of text, which goes
/// on as long as lines are indented further than the one that opened it.
pub open spec fn with_line(c: Compacted, line: Seq<char>) -> Compacted {
    if trim(line).len() == 0 {
        Compacted {
            text: if c.block is Some {
                c.text + "\n"@
            } else {
                c.text
            },
            ..c
        }
    } else {
        Compacted {
            text: c.text + line + "\n"@,
            block: if c.block matches Some(b) && indentation(line) > b {
                c.block
            } else if opens_block(line) {
                Some(indentation(line))
            } else {
                None
            },
        }
    }
}

/// What the first `n` lines make.
pub open spec fn with_lines(all: Seq<Seq<char>>, n: int) -> Compacted
    decreases n,
{
    if n <= 0 {
        Compacted { text: Seq::empty(), block: None }
    } else {
        with_line(with_lines(all, n - 1), all[n - 1])
    }
}

/// YAML without empty lines outside blocks of text, and with one line end at its
/// end.
pub open spec fn compacted(yaml: Seq<char>) -> Seq<char> {
    let all = lines(yaml);
    trim_end(with_lines(all, all.len() as int).text) + "\n"@
}

fn width_of(line: &[char]) -> (r: u128)
    ensures
        r == indentation(line@),
{
    let n: usize = line.len();
    let mut i: usize = 0;
    let mut w: u128 = 0;
    assert(line@.skip(0) =~= line@);
    while i < n && is_white(line[i])
        invariant
            i <= n,
            n == line@.len(),
            w <= 4 * i,
            indentation(line@) == w + indentation(line@.skip(i as int)),
        decreases n - i,
    {
        let c: u32 = line[i] as u32;
        assert(line@.skip(i as int)[0] == line@[i as int]);
        assert(line@.skip(i as int).drop_first() =~= line@.skip(i + 1));
        let step: u128 = if c < 0x80 {
            1
        } else if c < 0x800 {
            2
        } else if c < 0x10000 {
            3
        } else {
            4
        };
        w = w + step;
        i = i + 1;
    }
    proof {
        if i < n {
            assert(line@.skip(i as int)[0] == line@[i as int]);
        }
    }
    w
}

fn is_block_sign(c: char) -> (r: bool)
    ensures
        r == block_sign(c),
{
    c == '|' || c == '>'
}

fn is_chomping_sign(c: char) -> (r: bool)
    ensures
        r == chomping_sign(c),
{
    c == '-' || c == '+'
}

fn is_indentation_digit(c: char) -> (r: bool)
    ensures
        r == indentation_digit(c),
{
    '1' <= c && c <= '9'
}

fn find_sign(t: &[char]) -> (r: Option<usize>)
    ensures
        match r {
            Some(p) => sign_place(t@) == p && p < t@.len(),
            None => sign_place(t@) == -1,
        },
{
    let n: usize = t.len();
    if n > 0 && is_block_sign(t[n - 1]) {
        Some(n - 1)
    } else if n > 1 && (is_chomping_sign(t[n - 1]) || is_indentation_digit(t[n - 1]))
        && is_block_sign(t[n - 2]) {
        Some(n - 2)
    } else if n > 2 && (is_chomping_sign(t[n - 1]) && is_indentation_digit(t[n - 2])
        || is_indentation_digit(t[n - 1]) && is_chomping_sign(t[n - 2])) && is_block_sign(
        t[n - 3],
    ) {
        Some(n - 3)
    } else {
        None
    }
}

fn is_opening(line: &[char]) -> (r: bool)
    ensures
        r == opens_block(line@),
{
    let t = trimmed(line);
    match find_sign(t) {
        None => false,
        Some(p) => {
            let head = slice_subrange(t, 0, p);
            assert(head@ =~= t@.take(p as int));
            let before = trimmed_end(head);
            let n: usize = before.len();
            n == 0 || before[n - 1] == ':' || (before[n - 1] == '-' && (n == 1 || before[n - 2]
                == ' '))
        },
    }
}

fn line_at(rest: &[char]) -> (r: (usize, usize))
    requires
        rest@.len() > 0,
    ensures
        r.0 <= rest@.len(),
        0 < r.1 <= rest@.len(),
        lines(rest@) == seq![rest@.take(r.0 as int)] + lines(rest@.skip(r.1 as int)),
{
    let n: usize = rest.len();
    let i: usize = index_of_char(rest, '\n');
    if i < n {
        let ghost line = rest@.take(i as int);
        if i > 0 && rest[i - 1] == '\r' {
            assert(line.drop_last() =~= rest@.take(i - 1));
            (i - 1, i + 1)
        } else {
            (i, i + 1)
        }
    } else {
        assert(rest@.take(n as int) =~= rest@);
        assert(rest@.skip(n as int) =~= Seq::empty());
        assert(seq![rest@] + Seq::<Seq<char>>::empty() =~= seq![rest@]);
        (n, n)
    }
}

/// Removes the empty lines of YAML, except those in blocks of text.
pub fn compact_yaml(yaml: &str) -> (r: String)
    ensures
        r@ == compacted(yaml@),
{
    let chars = chars_of(yaml);
    let n: usize = chars.len();
    let ghost all = lines(yaml@);
    let ghost mut done: int = 0;
    let mut out: Vec<char> = Vec::new();
    let mut block: Option<u128> = None;
    let mut i: usize = 0;
    assert(yaml@.skip(0) =~= yaml@);
    assert(all.skip(0) =~= all);
    while i < n
        invariant
            i <= n,
            n == chars@.len(),
            chars@ == yaml@,
            all == lines(yaml@),
            0 <= done <= all.len(),
            lines(yaml@.skip(i as int)) == all.skip(done),
            out@ == with_lines(all, done).text,
            match block {
                Some(b) => with_lines(all, done).block == Some(b as int),
                None => with_lines(all, done).block is None,
            },
        decreases n - i,
    {
        let rest = slice_subrange(chars.as_slice(), i, n);
        assert(rest@ =~= yaml@.skip(i as int));
        let (end, next) = line_at(rest);
        let line = slice_subrange(rest, 0, end);
        assert(line@ =~= rest@.take(end as int));
        proof {
            assert(rest@.skip(next as int) =~= yaml@.skip(i + next));
            assert(all.skip(done).len() > 0);
            assert(all.skip(done)[0] == line@);
            assert(all[done] == line@);
            assert(all.skip(done).drop_first() =~= lines(yaml@.skip(i + next)));
            assert(all.skip(done).drop_first() =~= all.skip(done + 1));
        }
        if trimmed(line).len() == 0 {
            if block.is_some() {
                out.push('\n');
                proof {
                    reveal_strlit("\n");
                    assert(out@ =~= with_lines(all, done + 1).text);
                }
            }
        } else {
            let ghost before = out@;
            let width: u128 = width_of(line);
            let goes_on: bool = match block {
                Some(b) => width > b,
                None => false,
            };
            if !goes_on {
                block = if is_opening(line) {
                    Some(width)
                } else {
                    None
                };
            }
            push_chars(&mut out, line);
            out.push('\n');
            proof {
                reveal_strlit("\n");
                assert(out@ =~= before + line@ + "\n"@);
            }
        }
        proof {
            done = done + 1;
        }
        i = i + next;
    }
    proof {
        assert(yaml@.skip(n as int) =~= Seq::empty());
        assert(all.skip(done).len() == 0);
    }
    let text = trimmed_end(out.as_slice());
    let mut result: Vec<char> = Vec::new();
    push_chars(&mut result, text);
    result.push('\n');
    proof {
        reveal_strlit("\n");
        assert(result@ =~= compacted(yaml@));
    }
    text_of(result.as_slice())
}

// ---------------------------------------------------------------------------
// The compiler
// ---------------------------------------------------------------------------

/// Writes configurations for a target.
pub struct TargetCompiler {
    /// What the configurations are for.
    pub target: TargetCore,
    /// Whether the output is laid out for people to read.
    pub pretty: bool,
}

/// The YAML text of the document that a JSON text denotes, if it can be read and
/// written.
pub open spec fn yaml_of(json: Seq<char>) -> Option<Seq<char>> {
    match yaml_value(json) {
        Some(value) => yaml_text(value),
        None => None,
    }
}

/// Whether a fault is the one for a JSON text without YAML text: that it could
/// not be read, or that it could not be written.
pub open spec fn is_yaml_fault(json: Seq<char>, e: PrismError) -> bool {
    if yaml_value(json) is None {
        e is Serialization
    } else {
        e is YamlParse
    }
}

/// The text of a configuration for a target, where the YAML text of the adapted
/// configuration is `yaml`.
pub open spec fn compiled(
    config: Json,
    target: TargetCore,
    pretty: bool,
    yaml: Option<Seq<char>>,
) -> Option<Seq<char>> {
    match target {
        TargetCore::Json => Some(
            if pretty {
                pretty_text(config, 0)
            } else {
                json_text(config)
            },
        ),
        _ => match yaml {
            Some(text) => Some(
                if pretty {
                    text
                } else {
                    compacted(text)
                },
            ),
            None => None,
        },
    }
}

impl TargetCompiler {
    /// For the core mihomo.
    pub fn mihomo() -> (r: TargetCompiler)
        ensures
            r.target == TargetCore::Mihomo,
            r.pretty,
    {
        TargetCompiler { target: TargetCore::Mihomo, pretty: true }
    }

    /// For the core clash-rs.
    pub fn clash_rs() -> (r: TargetCompiler)
        ensures
            r.target == TargetCore::ClashRs,
            r.pretty,
    {
        TargetCompiler { target: TargetCore::ClashRs, pretty: true }
    }

    /// For JSON output.
    pub fn json_output() -> (r: TargetCompiler)
        ensures
            r.target == TargetCore::Json,
            r.pretty,
    {
        TargetCompiler { target: TargetCore::Json, pretty: true }
    }

    /// For a target.
    pub fn with_target(target: TargetCore) -> (r: TargetCompiler)
        ensures
            r.target == target,
            r.pretty,
    {
        TargetCompiler { target, pretty: true }
    }

    /// Sets whether the output is laid out for people to read.
    pub fn pretty(self, pretty: bool) -> (r: TargetCompiler)
        ensures
            r.target == self.target,
            r.pretty == pretty,
    {
        TargetCompiler { target: self.target, pretty }
    }

    /// A configuration with the fields that a core takes.
    pub fn adapt_for_target(&self, config: &Document, target: TargetCore) -> (r: Document)
        ensures
            r@ == adapted_for(config@, target),
    {
        let table = field_mappings();
        let ghost t = mapping_table();
        let mut out = config.clone();
        let n: usize = table.len();
        let mut i: usize = 0;
        while i < n
            invariant
                i <= n,
                n == table@.len(),
                t == mapping_table(),
                mapping_views(table@) == t,
                out@ == adapted(config@, t, target, i as int),
            decreases n - i,
        {
            let m = &table[i];
            assert(mapping_views(table@)[i as int] == m@);
            if m.target == target {
                match &m.action {
                    FieldMappingAction::Remove => remove_field(&mut out, m.path.as_str()),
                    FieldMappingAction::Rename { to } => rename_field(
                        &mut out,
                        m.path.as_str(),
                        to.as_str(),
                    ),
                    FieldMappingAction::MoveTo { new_path } => rename_field(
                        &mut out,
                        m.path.as_str(),
                        new_path.as_str(),
                    ),
                }
            }
            i = i + 1;
        }
        out
    }

    /// The layout that was asked for, of YAML in the usual layout.
    pub fn format_yaml(&self, yaml: String) -> (r: String)
        ensures
            r@ == (if self.pretty {
                yaml@
            } else {
                compacted(yaml@)
            }),
    {
        if self.pretty {
            yaml
        } else {
            compact_yaml(yaml.as_str())
        }
    }

    /// The text of a configuration for the target.
    pub fn compile(&self, config: &Document) -> (r: Result<String, PrismError>)
        ensures
            ({
                let json = json_text(adapted_for(config@, self.target));
                match r {
                    Ok(text) => compiled(config@, self.target, self.pretty, yaml_of(json)) == Some(
                        text@,
                    ),
                    Err(e) => compiled(config@, self.target, self.pretty, yaml_of(json)) is None
                        && is_yaml_fault(json, e),
                }
            }),
    {
        match self.target {
            TargetCore::Json => if self.pretty {
                Ok(to_pretty_text(config))
            } else {
                Ok(to_json_text(config))
            },
            _ => {
                let fitted = self.adapt_for_target(config, self.target);
                let json = to_json_text(&fitted);
                match yaml_read(json.as_str()) {
                    Err(e) => Err(PrismError::Serialization(e)),
                    Ok(value) => match yaml_write(&value) {
                        Ok(yaml) => Ok(self.format_yaml(yaml)),
                        Err(e) => Err(PrismError::YamlParse(e)),
                    },
                }
            },
        }
    }
}

impl Default for TargetCompiler {
    fn default() -> (r: TargetCompiler)
        ensures
            r.target == TargetCore::Mihomo,
            r.pretty,
    {
        TargetCompiler::mihomo()
    }
}

// ---------------------------------------------------------------------------
// Laws
// ---------------------------------------------------------------------------

/// A field that is removed is gone, where the object that held it has its
/// members in order.
pub proof fn removed_is_gone(v: Json, path: Seq<char>)
    requires
        at_path(v, parent_path(path)) matches Some(Json::Obj(o)) ==> ordered(o),
    ensures
        leaf(field_removed(v, path), path) is None,
{
    if let Some(Json::Obj(o)) = at_path(v, parent_path(path)) {
        let keys = path_keys(parent_path(path));
        let new = Json::Obj(without_member(o, leaf_name(path)));
        replace_then_read(v, keys, new);
        remove_then_get(o, leaf_name(path), leaf_name(path));
    }
}

/// A configuration without a field is left as it is when the field is removed
/// or moved.
pub proof fn nothing_to_move(v: Json, path: Seq<char>, to: Seq<char>)
    requires
        leaf(v, path) is None,
    ensures
        field_removed(v, path) == v,
        field_moved(v, path, to) == v,
{
    if let Some(Json::Obj(o)) = at_path(v, parent_path(path)) {
        crate::value::key_index_first(o, leaf_name(path));
        assert(without_member(o, leaf_name(path)) == o);
        crate::json_path::replace_by_same(v, path_keys(parent_path(path)));
    }
}

proof fn last_dot_at(path: Seq<char>, i: int)
    requires
        -1 <= i < path.len(),
        i >= 0 ==> path[i] == '.',
        forall|j: int| i < j < path.len() ==> path[j] != '.',
    ensures
        last_dot(path) == i,
    decreases path.len(),
{
    if path.len() > 0 && path.last() != '.' {
        last_dot_at(path.drop_last(), i);
    }
}

proof fn one_key(path: Seq<char>)
    requires
        path.len() > 0,
        forall|j: int| 0 <= j < path.len() ==> path[j] != '.',
    ensures
        path_keys(path) == seq![path],
{
    crate::text::char_index_first(path, '.');
    assert(split(path, '.') =~= seq![path]);
}

proof fn two_keys(path: Seq<char>, i: int)
    requires
        0 < i < path.len(),
        path[i] == '.',
        forall|j: int| 0 <= j < path.len() && j != i ==> path[j] != '.',
    ensures
        path_keys(path) == seq![path.take(i), path.skip(i + 1)],
        parent_path(path) == path.take(i),
        leaf_name(path) == path.skip(i + 1),
        path_keys(path.take(i)) == seq![path.take(i)],
{
    last_dot_at(path, i);
    split_in_two(path, '.', i);
    one_key(path.take(i));
}

/// The member `l` of the member `h` of a document.
spec fn inner(v: Json, h: Seq<char>, l: Seq<char>) -> Option<Json> {
    match field(v, h) {
        Some(w) => field(w, l),
        None => None,
    }
}

/// Whether a path names a member of the document itself.
spec fn names_top(path: Seq<char>) -> bool {
    path.len() > 0 && forall|j: int| 0 <= j < path.len() ==> path[j] != '.'
}

/// Whether a path names a member of a member, which the first `i` characters
/// name.
spec fn names_inside(path: Seq<char>, i: int) -> bool {
    &&& 0 < i < path.len()
    &&& path[i] == '.'
    &&& forall|j: int| 0 <= j < path.len() && j != i ==> path[j] != '.'
    &&& !is_digit(path[i - 1])
}

proof fn removed_at_top(v: Json, path: Seq<char>)
    requires
        ordered_throughout(v),
        names_top(path),
    ensures
        leaf(v, path) == field(v, path),
        ordered_throughout(field_removed(v, path)),
        field(field_removed(v, path), path) is None,
        forall|k: Seq<char>|
            k != path ==> #[trigger] field(field_removed(v, path), k) == field(v, k),
{
    last_dot_at(path, -1);
    assert(path.skip(0) =~= path);
    if let Json::Obj(o) = v {
        remove_keeps_all_in_order(o, path);
        remove_then_get(o, path, path);
        assert forall|k: Seq<char>| k != path implies #[trigger] member(without_member(o, path), k)
            == member(o, k) by {
            remove_then_get(o, path, k);
        }
    }
}

proof fn removed_inside(v: Json, path: Seq<char>, i: int)
    requires
        ordered_throughout(v),
        names_inside(path, i),
    ensures
        leaf(v, path) == inner(v, path.take(i), path.skip(i + 1)),
        leaf(v, path) matches Some(w) ==> ordered_throughout(w),
        ordered_throughout(field_removed(v, path)),
        leaf(v, path) is Some ==> field_removed(v, path) is Obj && field(
            field_removed(v, path),
            path.take(i),
        )->0 is Obj,
        leaf(v, path) is Some ==> field(field_removed(v, path), path.take(i)) is Some,
        inner(field_removed(v, path), path.take(i), path.skip(i + 1)) is None,
        forall|k: Seq<char>|
            k != path.take(i) ==> #[trigger] field(field_removed(v, path), k) == field(v, k),
        forall|k: Seq<char>|
            k != path.skip(i + 1) ==> #[trigger] inner(field_removed(v, path), path.take(i), k)
                == inner(v, path.take(i), k),
{
    let h = path.take(i);
    let l = path.skip(i + 1);
    two_keys(path, i);
    no_position(h);
    reveal_with_fuel(at_keys, 2);
    reveal_with_fuel(replaced, 2);
    assert(seq![h].drop_first() =~= Seq::empty());
    if let Json::Obj(o) = v {
        if let Some(Json::Obj(t)) = member(o, h) {
            let w = Json::Obj(without_member(t, l));
            members_are_in_order(o, h);
            members_are_in_order(t, l);
            remove_keeps_all_in_order(t, l);
            set_keeps_all_in_order(o, h, w);
            remove_then_get(t, l, l);
            set_then_get(o, h, w, h);
            assert forall|k: Seq<char>| k != l implies #[trigger] member(without_member(t, l), k)
                == member(t, k) by {
                remove_then_get(t, l, k);
            }
            assert forall|k: Seq<char>| k != h implies #[trigger] member(with_member(o, h, w), k)
                == member(o, k) by {
                set_then_get(o, h, w, k);
            }
        }
    }
}

proof fn no_position(h: Seq<char>)
    requires
        h.len() > 0,
        !is_digit(h.last()),
    ensures
        crate::json_path::index_text(h) is None,
{
    let t = if h[0] == '+' {
        h.drop_first()
    } else {
        h
    };
    if t.len() > 0 {
        assert(t.last() == h.last());
    }
}

proof fn moved_inside(v: Json, from: Seq<char>, i: int, to: Seq<char>)
    requires
        ordered_throughout(v),
        names_inside(from, i),
        names_inside(to, i),
        from.take(i) == to.take(i),
        from.skip(i + 1) != to.skip(i + 1),
    ensures
        ordered_throughout(field_moved(v, from, to)),
        inner(field_moved(v, from, to), from.take(i), from.skip(i + 1)) is None,
        inner(field_moved(v, from, to), from.take(i), to.skip(i + 1)) == match leaf(v, from) {
            Some(w) => Some(w),
            None => inner(v, from.take(i), to.skip(i + 1)),
        },
        forall|k: Seq<char>|
            k != from.take(i) ==> #[trigger] field(field_moved(v, from, to), k) == field(v, k),
        forall|k: Seq<char>|
            k != from.skip(i + 1) && k != to.skip(i + 1) ==> #[trigger] inner(
                field_moved(v, from, to),
                from.take(i),
                k,
            ) == inner(v, from.take(i), k),
{
    removed_inside(v, from, i);
    if let Some(value) = leaf(v, from) {
        let h = from.take(i);
        let l = to.skip(i + 1);
        let rest = field_removed(v, from);
        two_keys(to, i);
        let o = rest->Obj_0;
        let t = member(o, h)->0->Obj_0;
        let w = Json::Obj(with_member(t, l, value));
        members_are_in_order(o, h);
        set_keeps_all_in_order(t, l, value);
        set_keeps_all_in_order(o, h, w);
        reveal_with_fuel(crate::json_path::reached, 3);
        reveal_with_fuel(crate::json_path::written, 3);
        assert(seq![h, l].drop_first() =~= seq![l]);
        assert(seq![l].drop_first() =~= Seq::empty());
        assert(set_at(rest, to, value) == Json::Obj(with_member(o, h, w)));
        set_then_get(o, h, w, h);
        set_then_get(t, l, value, l);
        assert forall|k: Seq<char>| k != l implies #[trigger] member(with_member(t, l, value), k)
            == member(t, k) by {
            set_then_get(t, l, value, k);
        }
        assert forall|k: Seq<char>| k != h implies #[trigger] member(with_member(o, h, w), k)
            == member(o, k) by {
            set_then_get(o, h, w, k);
        }
        assert forall|k: Seq<char>| k != h implies #[trigger] field(field_moved(v, from, to), k)
            == field(v, k) by {
            assert(field(rest, k) == field(v, k));
        }
        assert forall|k: Seq<char>| k != from.skip(i + 1) && k != l implies #[trigger] inner(
            field_moved(v, from, to),
            h,
            k,
        ) == inner(v, h, k) by {
            assert(inner(rest, h, k) == inner(v, h, k));
        }
    }
}

proof fn taken_out(
    v: Json,
    device: Seq<char>,
    stack: Seq<char>,
    name: Seq<char>,
    i: int,
    errors: Seq<char>,
    j: int,
    tls: Seq<char>,
    secret: Seq<char>,
)
    requires
        ordered_throughout(v),
        names_inside(device, i),
        names_inside(stack, i),
        names_inside(name, i),
        names_inside(errors, j),
        names_top(tls),
        names_top(secret),
        stack.take(i) == device.take(i),
        name.take(i) == device.take(i),
        errors.take(j).len() != device.take(i).len(),
        tls.len() != secret.len(),
        tls.len() != i && tls.len() != j,
        secret.len() != i && secret.len() != j,
        device.skip(i + 1).len() != stack.skip(i + 1).len(),
        device.skip(i + 1).len() != name.skip(i + 1).len(),
        stack.skip(i + 1).len() != name.skip(i + 1).len(),
    ensures
        ({
            let r = field_removed(
                field_removed(
                    field_removed(field_moved(field_removed(v, device), stack, name), errors),
                    tls,
                ),
                secret,
            );
            &&& ordered_throughout(r)
            &&& leaf(r, device) is None
            &&& leaf(r, stack) is None
            &&& leaf(r, errors) is None
            &&& leaf(r, tls) is None
            &&& leaf(r, secret) is None
            &&& leaf(v, stack) is Some ==> leaf(r, name) == leaf(v, stack)
        }),
{
    let a = field_removed(v, device);
    let b = field_moved(a, stack, name);
    let c = field_removed(b, errors);
    let d = field_removed(c, tls);
    let r = field_removed(d, secret);
    let tun = device.take(i);
    let held = leaf(v, stack);
    removed_inside(v, device, i);
    assert(leaf(a, stack) == held) by {
        removed_inside(v, stack, i);
        removed_inside(a, stack, i);
        assert(inner(a, tun, stack.skip(i + 1)) == inner(v, tun, stack.skip(i + 1)));
    }
    moved_inside(a, stack, i, name);
    assert(inner(b, tun, device.skip(i + 1)) == inner(a, tun, device.skip(i + 1)));
    removed_inside(b, errors, j);
    assert(field(c, tun) == field(b, tun));
    removed_at_top(c, tls);
    assert(field(d, tun) == field(c, tun));
    assert(field(d, errors.take(j)) == field(c, errors.take(j)));
    removed_at_top(d, secret);
    assert(field(r, tun) == field(d, tun));
    assert(field(r, errors.take(j)) == field(d, errors.take(j)));
    assert(field(r, tls) == field(d, tls));
    assert(leaf(r, tls) == field(r, tls)) by {
        removed_at_top(r, tls);
    }
    assert(leaf(r, secret) == field(r, secret)) by {
        removed_at_top(r, secret);
    }
    assert(leaf(r, device) == inner(r, tun, device.skip(i + 1))) by {
        removed_inside(r, device, i);
    }
    assert(leaf(r, stack) == inner(r, tun, stack.skip(i + 1))) by {
        removed_inside(r, stack, i);
    }
    assert(leaf(r, name) == inner(r, tun, name.skip(i + 1))) by {
        removed_inside(r, name, i);
    }
    assert(leaf(r, errors) == inner(r, errors.take(j), errors.skip(j + 1))) by {
        removed_inside(r, errors, j);
    }
}

/// A configuration for clash-rs has none of the fields that clash-rs does not
/// take, and what `tun.stack` held stands at `tun.interface-name`.
pub proof fn clash_rs_lacks_what_it_does_not_take(v: Json)
    requires
        ordered_throughout(v),
    ensures
        ({
            let r = adapted_for(v, TargetCore::ClashRs);
            &&& ordered_throughout(r)
            &&& leaf(r, "tun.device"@) is None
            &&& leaf(r, "tun.stack"@) is None
            &&& leaf(r, "experimental.ignore-certificate-errors"@) is None
            &&& leaf(r, "external-controller-tls"@) is None
            &&& leaf(r, "secret"@) is None
            &&& leaf(v, "tun.stack"@) is Some ==> leaf(r, "tun.interface-name"@) == leaf(
                v,
                "tun.stack"@,
            )
        }),
{
    reveal_strlit("tun.device");
    reveal_strlit("tun.stack");
    reveal_strlit("tun.interface-name");
    reveal_strlit("experimental.ignore-certificate-errors");
    reveal_strlit("external-controller-tls");
    reveal_strlit("secret");
    let device = "tun.device"@;
    let stack = "tun.stack"@;
    let name = "tun.interface-name"@;
    let errors = "experimental.ignore-certificate-errors"@;
    let tls = "external-controller-tls"@;
    let secret = "secret"@;
    let tun = device.take(3);
    assert(stack.take(3) =~= tun && name.take(3) =~= tun);
    assert(stack.skip(4).len() == 5 && device.skip(4).len() == 6 && name.skip(4).len() == 14);
    taken_out(v, device, stack, name, 3, errors, 12, tls, secret);
    assert(adapted_for(v, TargetCore::ClashRs) == field_removed(
        field_removed(
            field_removed(field_moved(field_removed(v, device), stack, name), errors),
            tls,
        ),
        secret,
    )) by {
        reveal_with_fuel(adapted, 7);
    }
}

/// A configuration for mihomo has no field `log.level`: what it held stands at
/// `log-level`.
pub proof fn mihomo_has_one_log_level(v: Json)
    requires
        ordered_throughout(v),
    ensures
        ({
            let r = adapted_for(v, TargetCore::Mihomo);
            &&& ordered_throughout(r)
            &&& leaf(r, "log.level"@) is None
            &&& leaf(v, "log.level"@) is Some ==> leaf(r, "log-level"@) == leaf(v, "log.level"@)
        }),
{
    reveal_strlit("log.level");
    reveal_strlit("log-level");
    reveal_with_fuel(adapted, 7);
    let from = "log.level"@;
    let to = "log-level"@;
    let rest = field_removed(v, from);
    removed_inside(v, from, 3);
    removed_inside(rest, from, 3);
    one_key(to);
    if let Some(value) = leaf(v, from) {
        let o = rest->Obj_0;
        let r = Json::Obj(with_member(o, to, value));
        reveal_with_fuel(crate::json_path::reached, 2);
        reveal_with_fuel(crate::json_path::written, 2);
        assert(seq![to].drop_first() =~= Seq::empty());
        set_keeps_all_in_order(o, to, value);
        set_then_get(o, to, value, to);
        set_then_get(o, to, value, from.take(3));
        removed_inside(r, from, 3);
        removed_at_top(r, to);
    }
}

/// For mihomo a configuration is left as it is, unless it has the field
/// `log.level`.
pub proof fn mihomo_takes_almost_everything(v: Json)
    requires
        leaf(v, "log.level"@) is None,
    ensures
        adapted_for(v, TargetCore::Mihomo) == v,
{
    let t = mapping_table();
    reveal_with_fuel(adapted, 7);
    nothing_to_move(v, "log.level"@, "log-level"@);
}

/// A configuration for no core is not adapted.
pub proof fn json_is_not_adapted(v: Json)
    ensures
        adapted_for(v, TargetCore::Json) == v,
{
    reveal_with_fuel(adapted, 7);
}

/// Compact YAML ends in one line end.
pub proof fn compact_ends_in_a_line_end(yaml: Seq<char>)
    ensures
        compacted(yaml).len() > 0,
        compacted(yaml).last() == '\n',
        compacted(yaml).len() > 1 ==> compacted(yaml)[compacted(yaml).len() - 2] != '\n',
{
    reveal_strlit("\n");
    let all = lines(yaml);
    let text = with_lines(all, all.len() as int).text;
    trim_end_is_tight(text);
}

proof fn trim_end_is_tight(s: Seq<char>)
    ensures
        trim_end(s).len() > 0 ==> !white(trim_end(s).last()),
    decreases s.len(),
{
    if s.len() > 0 && white(s.last()) {
        trim_end_is_tight(s.drop_last());
    }
}

/// A field that is moved is found at its new place with its value.
pub proof fn moved_field_is_found(v: Json, from: Seq<char>, to: Seq<char>, value: Json)
    requires
        leaf(v, from) == Some(value),
        to.len() > 0,
        reached(field_removed(v, from), path_keys(to)) is Some,
    ensures
        at_path(field_moved(v, from, to), to) == Some(value),
{
    crate::json_path::set_then_read(field_removed(v, from), to, value);
}

/// Taking out a member of the configuration leaves the others as they were.
pub proof fn removal_leaves_the_others(o: Seq<(Seq<char>, Json)>, k: Seq<char>, other: Seq<char>)
    requires
        !k.contains('.'),
        other != k,
        crate::value::ordered(o),
    ensures
        field(field_removed(Json::Obj(o), k), other) == member(o, other),
        field(field_removed(Json::Obj(o), k), k) is None,
{
    no_dot(k);
    assert(k.skip(0) =~= k);
    crate::value::remove_then_get(o, k, other);
    crate::value::remove_then_get(o, k, k);
}

proof fn no_dot(k: Seq<char>)
    requires
        !k.contains('.'),
    ensures
        last_dot(k) == -1,
    decreases k.len(),
{
    if k.len() > 0 {
        assert(k.contains(k[k.len() - 1]));
        let init = k.drop_last();
        assert(!init.contains('.')) by {
            assert forall|i: int| 0 <= i < init.len() implies init[i] != '.' by {
                assert(init[i] == k[i]);
                assert(k.contains(k[i]));
            }
        }
        no_dot(init);
    }
}

/// What a target is given: JSON as it is; the cores the fields that they take, in
/// YAML, with empty lines or, where it is to be compact, without.
pub proof fn what_a_target_is_given(config: Json, target: TargetCore, yaml: Option<Seq<char>>)
    ensures
        adapted_for(config, TargetCore::Json) == config,
        compiled(config, TargetCore::Json, false, yaml) == Some(json_text(config)),
        compiled(config, TargetCore::Json, true, yaml) == Some(pretty_text(config, 0)),
        !(target is Json) ==> compiled(config, target, true, yaml) == yaml,
        !(target is Json) ==> compiled(config, target, false, yaml) == (match yaml {
            Some(text) => Some(compacted(text)),
            None => None,
        }),
{
    json_is_not_adapted(config);
}

/// Lines with a line end behind each that is not blank.
pub open spec fn nonblank_lines(all: Seq<Seq<char>>, n: int) -> Seq<char>
    decreases n,
{
    if n <= 0 {
        Seq::empty()
    } else if trim(all[n - 1]).len() == 0 {
        nonblank_lines(all, n - 1)
    } else {
        nonblank_lines(all, n - 1) + all[n - 1] + "\n"@
    }
}

/// Where no line opens a block of text, compaction takes out the blank lines and
/// keeps the others as they are, in their order.
pub proof fn compaction_takes_out_blank_lines(all: Seq<Seq<char>>, n: int)
    requires
        0 <= n <= all.len(),
        forall|i: int| 0 <= i < n ==> !opens_block(#[trigger] all[i]),
    ensures
        with_lines(all, n).text == nonblank_lines(all, n),
        with_lines(all, n).block is None,
    decreases n,
{
    if n > 0 {
        compaction_takes_out_blank_lines(all, n - 1);
        assert(!opens_block(all[n - 1]));
    }
}

/// In a block of text blank lines stay, and the block goes on as long as lines are
/// indented further than the one that opened it.
pub proof fn blocks_of_text_stay(c: Compacted, line: Seq<char>, b: int)
    requires
        c.block == Some(b),
    ensures
        trim(line).len() == 0 ==> with_line(c, line) == (Compacted {
            text: c.text + "\n"@,
            block: Some(b),
        }),
        trim(line).len() > 0 && indentation(line) > b ==> with_line(c, line) == (Compacted {
            text: c.text + line + "\n"@,
            block: Some(b),
        }),
        trim(line).len() > 0 && indentation(line) <= b && !opens_block(line) ==> with_line(c, line)
            == (Compacted { text: c.text + line + "\n"@, block: None }),
        trim(line).len() > 0 && indentation(line) <= b && opens_block(line) ==> with_line(c, line)
            == (Compacted { text: c.text + line + "\n"@, block: Some(indentation(line)) }),
{
}

/// A name, a colon and a sign for a block of text open one, and so does a dash with
/// the sign; a sign behind other text does not.
pub proof fn what_opens_a_block(k: Seq<char>, sign: char)
    requires
        sign == '|' || sign == '>',
        k.len() > 0 && tight(k),
    ensures
        opens_block(k + seq![':', ' ', sign]),
        opens_block(k + seq![':', ' ', sign, '-']),
        opens_block(k + seq![':', ' ', sign, '+']),
        opens_block(k + seq![':', ' ', sign, '2']),
        opens_block(seq!['-', ' ', sign]),
        k.last() != ':' && k.last() != '-' ==> !opens_block(k + seq![' ', sign]),
{
    let colon = k + seq![':'];
    assert(colon[0] == k[0]);
    crate::text::trim_of_tight(colon);
    ends_in_sign(colon, seq![sign]);
    ends_in_sign(colon, seq![sign, '-']);
    ends_in_sign(colon, seq![sign, '+']);
    ends_in_sign(colon, seq![sign, '2']);
    assert(colon + seq![' '] + seq![sign] =~= k + seq![':', ' ', sign]);
    assert(colon + seq![' '] + seq![sign, '-'] =~= k + seq![':', ' ', sign, '-']);
    assert(colon + seq![' '] + seq![sign, '+'] =~= k + seq![':', ' ', sign, '+']);
    assert(colon + seq![' '] + seq![sign, '2'] =~= k + seq![':', ' ', sign, '2']);
    ends_in_sign(seq!['-'], seq![sign]);
    assert(seq!['-'] + seq![' '] + seq![sign] =~= seq!['-', ' ', sign]);
    ends_in_sign(k, seq![sign]);
    assert(k + seq![' '] + seq![sign] =~= k + seq![' ', sign]);
}

proof fn ends_in_sign(before: Seq<char>, sign: Seq<char>)
    requires
        before.len() > 0 && tight(before),
        0 < sign.len() <= 2,
        sign[0] == '|' || sign[0] == '>',
        sign.len() == 2 ==> sign[1] == '-' || sign[1] == '+' || sign[1] == '2',
    ensures
        opens_block(before + seq![' '] + sign) == leads_to_value(before),
{
    let s = before + seq![' '] + sign;
    let n = before.len() as int + 1;
    assert(s[0] == before[0] && s.last() == sign.last());
    crate::text::trim_of_tight(s);
    assert(s[n] == sign[0]);
    assert(sign_place(s) == n) by {
        if sign.len() == 2 {
            assert(s[n + 1] == sign[1]);
        }
    }
    assert(s.take(n) =~= before + seq![' ']);
    end_is_trimmed(before);
}

proof fn end_is_trimmed(before: Seq<char>)
    requires
        before.len() > 0 && tight(before),
    ensures
        trim_end(before + seq![' ']) == before,
{
    let s = before + seq![' '];
    assert(s.drop_last() =~= before);
    assert(s.last() == ' ');
    reveal_with_fuel(trim_end, 2);
}

} // verus!
