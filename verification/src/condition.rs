//! The conditions under which the patches of a file apply.

use vstd::prelude::*;
use crate::error::{headed, CompileError};
use crate::outside::lowercase;
use crate::scope::{
    clock_range, no_conditions, Conditions, Platform, Scope, ScopeView, ScopedBuilder, TimeRange,
};
use crate::text::same_text;
use crate::value::{member, views, Document, Json, Members, Object};

verus! {

// ---------------------------------------------------------------------------
// Platforms
// ---------------------------------------------------------------------------

/// The platform that a word in lower case names.
pub open spec fn platform_word(w: Seq<char>) -> Option<Platform> {
    if w == "windows"@ || w == "win"@ {
        Some(Platform::Windows)
    } else if w == "macos"@ || w == "mac"@ {
        Some(Platform::MacOS)
    } else if w == "linux"@ || w == "lin"@ {
        Some(Platform::Linux)
    } else if w == "android"@ {
        Some(Platform::Android)
    } else if w == "ios"@ {
        Some(Platform::IOS)
    } else {
        None
    }
}

/// The message for a word that names no platform.
pub open spec fn no_platform(w: Seq<char>) -> Seq<char> {
    "Unsupported platform: "@ + w
}

/// A fault in the conditions of a file.
pub open spec fn is_condition_fault(e: CompileError, message: Seq<char>) -> bool {
    e matches CompileError::ConditionPrecompile(m) && m@ == message
}

/// The platform that a word in lower case names.
pub fn platform_named(word: &str) -> (r: Result<Platform, CompileError>)
    ensures
        match r {
            Ok(p) => platform_word(word@) == Some(p),
            Err(e) => platform_word(word@) is None && is_condition_fault(e, no_platform(word@)),
        },
{
    if same_text(word, "windows") || same_text(word, "win") {
        Ok(Platform::Windows)
    } else if same_text(word, "macos") || same_text(word, "mac") {
        Ok(Platform::MacOS)
    } else if same_text(word, "linux") || same_text(word, "lin") {
        Ok(Platform::Linux)
    } else if same_text(word, "android") {
        Ok(Platform::Android)
    } else if same_text(word, "ios") {
        Ok(Platform::IOS)
    } else {
        Err(CompileError::ConditionPrecompile(headed("Unsupported platform: ", word)))
    }
}

/// The platform that a word names, in whatever case it is written.
pub fn parse_platform(s: &str) -> (r: Result<Platform, CompileError>)
    ensures
        match r {
            Ok(p) => platform_word(lowercase(s@)) == Some(p),
            Err(e) => platform_word(lowercase(s@)) is None && is_condition_fault(
                e,
                no_platform(lowercase(s@)),
            ),
        },
{
    let word = s.to_lowercase();
    platform_named(word.as_str())
}

/// The platforms that the texts among the first `n` items name, or the message
/// for the first text that names none.  Other items are passed over.
pub open spec fn platform_items(items: Seq<Json>, n: int) -> Result<Seq<Platform>, Seq<char>>
    decreases n,
{
    if n <= 0 {
        Ok(Seq::empty())
    } else {
        match platform_items(items, n - 1) {
            Err(m) => Err(m),
            Ok(list) => match items[n - 1] {
                Json::Str(s) => match platform_word(lowercase(s)) {
                    Some(p) => Ok(list.push(p)),
                    None => Err(no_platform(lowercase(s))),
                },
                _ => Ok(list),
            },
        }
    }
}

/// The platforms of the member `platform`.
pub open spec fn platform_list(v: Json) -> Result<Seq<Platform>, Seq<char>> {
    match v {
        Json::Str(s) => match platform_word(lowercase(s)) {
            Some(p) => Ok(seq![p]),
            None => Err(no_platform(lowercase(s))),
        },
        Json::Arr(items) => platform_items(items, items.len() as int),
        _ => Err("platform 字段类型错误，应为字符串或字符串数组"@),
    }
}

proof fn platform_items_stays(items: Seq<Json>, n: int, m: int)
    requires
        0 <= n <= m,
        platform_items(items, n) is Err,
    ensures
        platform_items(items, m) == platform_items(items, n),
    decreases m,
{
    if n < m {
        platform_items_stays(items, n, m - 1);
    }
}

fn read_platforms(v: &Document) -> (r: Result<Vec<Platform>, CompileError>)
    ensures
        match r {
            Ok(p) => platform_list(v@) == Ok::<Seq<Platform>, Seq<char>>(p@),
            Err(e) => platform_list(v@) matches Err(m) && is_condition_fault(e, m),
        },
{
    let mut out: Vec<Platform> = Vec::new();
    match v {
        Document::String(s) => {
            match parse_platform(s.as_str()) {
                Err(e) => return Err(e),
                Ok(p) => out.push(p),
            }
            assert(out@ =~= seq![out@[0]]);
            Ok(out)
        },
        Document::Array(items) => {
            let ghost all = views(items@);
            assert(v@->Arr_0 =~= all);
            let mut i: usize = 0;
            while i < items.len()
                invariant
                    i <= items@.len(),
                    all == views(items@),
                    v@ == Json::Arr(all),
                    platform_items(all, i as int) == Ok::<Seq<Platform>, Seq<char>>(out@),
                decreases items@.len() - i,
            {
                assert(all[i as int] == items@[i as int]@);
                if let Document::String(s) = &items[i] {
                    match parse_platform(s.as_str()) {
                        Err(e) => {
                            proof {
                                platform_items_stays(all, i + 1, all.len() as int);
                            }
                            return Err(e);
                        },
                        Ok(p) => out.push(p),
                    }
                }
                i = i + 1;
            }
            Ok(out)
        },
        _ => Err(
            CompileError::ConditionPrecompile(
                "platform 字段类型错误，应为字符串或字符串数组".to_owned(),
            ),
        ),
    }
}

// ---------------------------------------------------------------------------
// Conditions
// ---------------------------------------------------------------------------

/// The text of the member named `key`.
pub open spec fn text_member(when: Members, key: Seq<char>) -> Option<Seq<char>> {
    match member(when, key) {
        Some(Json::Str(s)) => Some(s),
        _ => None,
    }
}

/// The core under its present name.
pub open spec fn present_core(c: Seq<char>) -> Seq<char> {
    if c == "clash"@ || c == "meta"@ {
        "mihomo"@
    } else {
        c
    }
}

/// The conditions that a mapping states, or the message for its first fault.
pub open spec fn compiled_when(when: Members) -> Result<Conditions, Seq<char>> {
    let core = match text_member(when, "core"@) {
        Some(c) => Some(present_core(c)),
        None => None,
    };
    let enabled = match member(when, "enabled"@) {
        Some(Json::Bool(b)) => Some(b),
        _ => None,
    };
    let platform: Result<Option<Seq<Platform>>, Seq<char>> = match member(when, "platform"@) {
        None => Ok(None),
        Some(v) => match platform_list(v) {
            Ok(p) => Ok(Some(p)),
            Err(m) => Err(m),
        },
    };
    let time_range: Result<Option<TimeRange>, Seq<char>> = match text_member(when, "time"@) {
        None => Ok(None),
        Some(s) => match clock_range(s) {
            Ok(t) => Ok(Some(t)),
            Err(m) => Err(m),
        },
    };
    match platform {
        Err(m) => Err(m),
        Ok(platform) => match time_range {
            Err(m) => Err(m),
            Ok(time_range) => Ok(
                Conditions {
                    profile: text_member(when, "profile"@),
                    platform,
                    core,
                    time_range,
                    enabled,
                    ssid: text_member(when, "ssid"@),
                },
            ),
        },
    }
}

fn text_at<'a>(when: &'a Object, key: &str) -> (r: Option<&'a str>)
    ensures
        match r {
            Some(s) => text_member(when@, key@) == Some(s@),
            None => text_member(when@, key@) is None,
        },
{
    match when.get(key) {
        Some(v) => v.as_str(),
        None => None,
    }
}

/// Reads conditions ahead of execution.
pub struct ConditionPrecompiler {}

impl ConditionPrecompiler {
    /// The scope that a `__when__` mapping states.
    ///
    /// `clash` and `meta` are former names of the core `mihomo`.  A member of
    /// another type than expected is passed over, except `platform`.
    pub fn compile_when(when: &Object) -> (r: Result<Scope, CompileError>)
        ensures
            match r {
                Ok(s) => compiled_when(when@) matches Ok(c) && s@ == ScopeView::Scoped(c),
                Err(e) => compiled_when(when@) matches Err(m) && is_condition_fault(e, m),
            },
    {
        let mut builder = ScopedBuilder::new();
        if let Some(c) = text_at(when, "core") {
            if same_text(c, "clash") || same_text(c, "meta") {
                builder = builder.with_core("mihomo");
            } else {
                builder = builder.with_core(c);
            }
        }
        if let Some(v) = when.get("platform") {
            match read_platforms(v) {
                Err(e) => return Err(e),
                Ok(p) => {
                    builder = builder.platform(p);
                },
            }
        }
        if let Some(p) = text_at(when, "profile") {
            builder = builder.profile(p);
        }
        if let Some(s) = text_at(when, "time") {
            match TimeRange::parse(s) {
                Err(m) => return Err(CompileError::ConditionPrecompile(m)),
                Ok(t) => {
                    builder = builder.time(t);
                },
            }
        }
        if let Some(v) = when.get("enabled") {
            if let Some(b) = v.as_bool() {
                builder = builder.enabled(b);
            }
        }
        if let Some(s) = text_at(when, "ssid") {
            builder = builder.ssid(s);
        }
        Ok(builder.build())
    }
}

// ---------------------------------------------------------------------------
// Laws
// ---------------------------------------------------------------------------

/// The former names of the core state the same conditions as its present name.
pub proof fn former_core_names(when: Members, other: Members, name: Seq<char>)
    requires
        name == "clash"@ || name == "meta"@,
        text_member(when, "core"@) == Some(name),
        text_member(other, "core"@) == Some("mihomo"@),
        forall|k: Seq<char>| k != "core"@ ==> #[trigger] member(when, k) == member(other, k),
    ensures
        compiled_when(when) == compiled_when(other),
{
    reveal_strlit("core");
    reveal_strlit("platform");
    reveal_strlit("profile");
    reveal_strlit("time");
    reveal_strlit("enabled");
    reveal_strlit("ssid");
    reveal_strlit("mihomo");
    reveal_strlit("clash");
    reveal_strlit("meta");
    assert("profile"@[0] != "core"@[0]);
    assert("time"@[0] != "core"@[0]);
    assert("enabled"@[0] != "core"@[0]);
    assert("ssid"@[0] != "core"@[0]);
    assert("platform"@[0] != "core"@[0]);
    assert(member(when, "platform"@) == member(other, "platform"@));
    assert(member(when, "profile"@) == member(other, "profile"@));
    assert(member(when, "time"@) == member(other, "time"@));
    assert(member(when, "enabled"@) == member(other, "enabled"@));
    assert(member(when, "ssid"@) == member(other, "ssid"@));
}

/// A mapping without members states no condition.
pub proof fn no_members_no_conditions(empty: Members)
    requires
        empty.len() == 0,
    ensures
        compiled_when(empty) == Ok::<Conditions, Seq<char>>(no_conditions()),
{
}

/// What conditions a mapping states: each member states the condition of its name,
/// and a member of another type than that condition takes states none.
pub proof fn what_a_mapping_states(when: Members)
    ensures
        match compiled_when(when) {
            Ok(c) => {
                &&& c.profile == (match member(when, "profile"@) {
                    Some(Json::Str(s)) => Some(s),
                    _ => None,
                })
                &&& c.ssid == (match member(when, "ssid"@) {
                    Some(Json::Str(s)) => Some(s),
                    _ => None,
                })
                &&& c.enabled == (match member(when, "enabled"@) {
                    Some(Json::Bool(b)) => Some(b),
                    _ => None,
                })
                &&& c.core == (match member(when, "core"@) {
                    Some(Json::Str(s)) => Some(
                        if s == "clash"@ || s == "meta"@ {
                            "mihomo"@
                        } else {
                            s
                        },
                    ),
                    _ => None,
                })
                &&& match member(when, "time"@) {
                    Some(Json::Str(s)) => c.time_range is Some && clock_range(s) == Ok::<
                        TimeRange,
                        Seq<char>,
                    >(c.time_range->0),
                    _ => c.time_range is None,
                }
                &&& match member(when, "platform"@) {
                    Some(v) => c.platform is Some && platform_list(v) == Ok::<
                        Seq<Platform>,
                        Seq<char>,
                    >(c.platform->0),
                    None => c.platform is None,
                }
            },
            Err(_) => {
                ||| member(when, "platform"@) matches Some(v) && platform_list(v) is Err
                ||| member(when, "time"@) matches Some(Json::Str(s)) && clock_range(s) is Err
            },
        },
{
}

/// The words for the platforms.
pub proof fn words_for_platforms(w: Seq<char>)
    ensures
        platform_word("windows"@) == Some(Platform::Windows),
        platform_word("win"@) == Some(Platform::Windows),
        platform_word("macos"@) == Some(Platform::MacOS),
        platform_word("mac"@) == Some(Platform::MacOS),
        platform_word("linux"@) == Some(Platform::Linux),
        platform_word("lin"@) == Some(Platform::Linux),
        platform_word("android"@) == Some(Platform::Android),
        platform_word("ios"@) == Some(Platform::IOS),
        platform_word(w) is Some ==> w == "windows"@ || w == "win"@ || w == "macos"@ || w == "mac"@
            || w == "linux"@ || w == "lin"@ || w == "android"@ || w == "ios"@,
{
    reveal_strlit("windows");
    reveal_strlit("win");
    reveal_strlit("macos");
    reveal_strlit("mac");
    reveal_strlit("linux");
    reveal_strlit("lin");
    reveal_strlit("android");
    reveal_strlit("ios");
    assert("windows"@[0] == 'w' && "win"@[0] == 'w' && "macos"@[0] == 'm' && "mac"@[0] == 'm');
    assert("linux"@[0] == 'l' && "lin"@[0] == 'l' && "android"@[0] == 'a' && "ios"@[0] == 'i');
}

/// A platform in words, or several of them in a list: each word that is given
/// names the platform in its place.
pub proof fn platforms_are_listed(s: Seq<char>, items: Seq<Json>, n: int)
    requires
        0 <= n <= items.len(),
        forall|i: int|
            0 <= i < n ==> ((#[trigger] items[i]) matches Json::Str(t) && platform_word(
                lowercase(t),
            ) is Some),
    ensures
        platform_word(lowercase(s)) matches Some(p) ==> platform_list(Json::Str(s)) == Ok::<
            Seq<Platform>,
            Seq<char>,
        >(seq![p]),
        platform_word(lowercase(s)) is None ==> platform_list(Json::Str(s)) is Err,
        platform_items(items, n) matches Ok(list) && list.len() == n && forall|i: int|
            0 <= i < n ==> Some(#[trigger] list[i]) == platform_word(lowercase(items[i]->Str_0)),
    decreases n,
{
    if n > 0 {
        platforms_are_listed(s, items, n - 1);
        assert(items[n - 1] is Str);
    }
}

} // verus!
