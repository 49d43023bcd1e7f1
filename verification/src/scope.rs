//! Where a patch applies.
//!
//! | Priority | Scope     | Applies                                            |
//! |----------|-----------|----------------------------------------------------|
//! | 0        | `Profile` | to one profile                                     |
//! | 1        | `Global`  | to every configuration                             |
//! | 2        | `Scoped`  | where its conditions hold                          |
//! | 3        | `Runtime` | to the settings of the user interface              |

use vstd::prelude::*;
use crate::error::three;
use crate::expr::{bool_text, concat, push_text};
use crate::outside::local_time;
use crate::text::{
    chars_of, copy_text, decimal, decimal_text, digit_char, digits_value, is_digit, opt_text,
    pieces, push_decimal, read_unsigned, split, split_at_char, split_in_two, text_of, unsigned,
    unsigned_bounds,
};

verus! {

// ---------------------------------------------------------------------------
// Platforms
// ---------------------------------------------------------------------------

/// An operating system.
#[derive(Debug, Clone, Copy, PartialEq, Eq, Structural)]
pub enum Platform {
    Windows,
    MacOS,
    Linux,
    Android,
    IOS,
}

/// The name of a platform.
pub open spec fn platform_name(p: Platform) -> Seq<char> {
    match p {
        Platform::Windows => "windows"@,
        Platform::MacOS => "macos"@,
        Platform::Linux => "linux"@,
        Platform::Android => "android"@,
        Platform::IOS => "ios"@,
    }
}

impl Platform {
    /// The name of the platform.
    pub fn name(self) -> (r: &'static str)
        ensures
            r@ == platform_name(self),
    {
        match self {
            Platform::Windows => "windows",
            Platform::MacOS => "macos",
            Platform::Linux => "linux",
            Platform::Android => "android",
            Platform::IOS => "ios",
        }
    }
}

// ---------------------------------------------------------------------------
// Times of day
// ---------------------------------------------------------------------------

/// A time of day.
#[derive(Debug, Clone, Copy, PartialEq, Eq, Structural)]
pub struct TimeOfDay {
    pub hour: u32,
    pub minute: u32,
}

impl TimeOfDay {
    /// Whether the time occurs on a clock.
    pub open spec fn valid(self) -> bool {
        self.hour < 24 && self.minute < 60
    }

    /// The minutes since midnight.
    pub open spec fn minutes(self) -> int {
        self.hour * 60 + self.minute
    }

    /// A time that occurs on a clock.
    pub fn new(hour: u32, minute: u32) -> (r: Option<TimeOfDay>)
        ensures
            match r {
                Some(t) => t.valid() && t.hour == hour && t.minute == minute,
                None => hour >= 24 || minute >= 60,
            },
    {
        if hour < 24 && minute < 60 {
            Some(TimeOfDay { hour, minute })
        } else {
            None
        }
    }
}

/// A range of times of day, in local time.
///
/// A range whose end lies before its start goes past midnight; one whose end is
/// its start covers the whole day.
#[derive(Debug, Clone, Copy, PartialEq, Eq)]
pub struct TimeRange {
    /// Hour and minute of the start.
    pub start: (u8, u8),
    /// Hour and minute of the end.
    pub end: (u8, u8),
}

/// The hour and the minute of `HH:mm`.
pub open spec fn clock_time(s: Seq<char>) -> Result<(u8, u8), Seq<char>> {
    let parts = split(s, ':');
    if parts.len() != 2 {
        Err("时间部分格式无效「"@ + s + "」，期望 \"HH:mm\""@)
    } else {
        match unsigned(parts[0], 255) {
            None => Err("无效的小时值「"@ + parts[0] + "」"@),
            Some(h) => match unsigned(parts[1], 255) {
                None => Err("无效的分钟值「"@ + parts[1] + "」"@),
                Some(m) => if h > 23 {
                    Err("小时值超出范围 (0-23): "@ + decimal(h as nat))
                } else if m > 59 {
                    Err("分钟值超出范围 (0-59): "@ + decimal(m as nat))
                } else {
                    Ok((h as u8, m as u8))
                },
            },
        }
    }
}

/// The range that `HH:mm-HH:mm` stands for.
pub open spec fn clock_range(s: Seq<char>) -> Result<TimeRange, Seq<char>> {
    let parts = split(s, '-');
    if parts.len() != 2 {
        Err("时间格式无效「"@ + s + "」，期望 \"HH:mm-HH:mm\""@)
    } else {
        match clock_time(parts[0]) {
            Err(e) => Err(e),
            Ok(start) => match clock_time(parts[1]) {
                Err(e) => Err(e),
                Ok(end) => Ok(TimeRange { start, end }),
            },
        }
    }
}

/// A number with at least two digits.
pub open spec fn two_digits(n: u8) -> Seq<char> {
    if n < 10 {
        "0"@ + decimal(n as nat)
    } else {
        decimal(n as nat)
    }
}

impl TimeRange {
    pub open spec fn start_minutes(self) -> int {
        self.start.0 * 60 + self.start.1
    }

    pub open spec fn end_minutes(self) -> int {
        self.end.0 * 60 + self.end.1
    }

    /// Whether the range covers a minute of the day.
    pub open spec fn covers(self, m: int) -> bool {
        let a = self.start_minutes();
        let b = self.end_minutes();
        if a == b {
            true
        } else if a < b {
            a <= m <= b
        } else {
            a <= m || m <= b
        }
    }

    /// Reads a range written `HH:mm-HH:mm`.
    pub fn parse(s: &str) -> (r: Result<TimeRange, String>)
        ensures
            match r {
                Ok(t) => clock_range(s@) == Ok::<TimeRange, Seq<char>>(t),
                Err(e) => clock_range(s@) == Err::<TimeRange, Seq<char>>(e@),
            },
    {
        let chars = chars_of(s);
        let parts = split_at_char(chars.as_slice(), '-');
        let ghost texts = pieces(parts@);
        if parts.len() != 2 {
            return Err(three("时间格式无效「", s, "」，期望 \"HH:mm-HH:mm\""));
        }
        assert(texts[0] == parts@[0]@ && texts[1] == parts@[1]@);
        let start = match TimeRange::parse_time(parts[0]) {
            Err(e) => return Err(e),
            Ok(t) => t,
        };
        let end = match TimeRange::parse_time(parts[1]) {
            Err(e) => return Err(e),
            Ok(t) => t,
        };
        Ok(TimeRange { start, end })
    }

    /// Reads a time written `HH:mm`.
    fn parse_time(s: &[char]) -> (r: Result<(u8, u8), String>)
        ensures
            match r {
                Ok(t) => clock_time(s@) == Ok::<(u8, u8), Seq<char>>(t),
                Err(e) => clock_time(s@) == Err::<(u8, u8), Seq<char>>(e@),
            },
    {
        let parts = split_at_char(s, ':');
        let ghost texts = pieces(parts@);
        if parts.len() != 2 {
            let shown = text_of(s);
            return Err(three("时间部分格式无效「", shown.as_str(), "」，期望 \"HH:mm\""));
        }
        assert(texts[0] == parts@[0]@ && texts[1] == parts@[1]@);
        let hour: u64 = match read_unsigned(parts[0], 255) {
            None => {
                let shown = text_of(parts[0]);
                return Err(three("无效的小时值「", shown.as_str(), "」"));
            },
            Some(h) => h,
        };
        let minute: u64 = match read_unsigned(parts[1], 255) {
            None => {
                let shown = text_of(parts[1]);
                return Err(three("无效的分钟值「", shown.as_str(), "」"));
            },
            Some(m) => m,
        };
        if hour > 23 {
            let shown = decimal_text(hour);
            return Err(concat("小时值超出范围 (0-23): ", shown.as_str()));
        }
        if minute > 59 {
            let shown = decimal_text(minute);
            return Err(concat("分钟值超出范围 (0-59): ", shown.as_str()));
        }
        Ok((hour as u8, minute as u8))
    }

    /// Whether the range covers a minute of the day.
    pub fn contains(&self, total_minutes: u16) -> (r: bool)
        ensures
            r == self.covers(total_minutes as int),
    {
        let start: u16 = self.start.0 as u16 * 60 + self.start.1 as u16;
        let end: u16 = self.end.0 as u16 * 60 + self.end.1 as u16;
        if start == end {
            true
        } else if start < end {
            total_minutes >= start && total_minutes <= end
        } else {
            total_minutes >= start || total_minutes <= end
        }
    }

    /// Whether the range covers a time of day.
    pub fn is_active_at(&self, time: TimeOfDay) -> (r: bool)
        requires
            time.valid(),
        ensures
            r == self.covers(time.minutes()),
    {
        let now: u32 = time.hour * 60 + time.minute;
        self.contains(now as u16)
    }

    /// Whether the range covers the present time.
    pub fn is_active_now(&self) -> (r: bool)
        ensures
            exists|m: int| 0 <= m < 1440 && r == #[trigger] self.covers(m),
    {
        let (hour, minute) = local_time();
        let now = TimeOfDay { hour, minute };
        let r = self.is_active_at(now);
        assert(r == self.covers(now.minutes()));
        r
    }

    /// The range written `HH:mm-HH:mm`.
    pub fn to_text(&self) -> (r: String)
        ensures
            r@ == range_text(*self),
    {
        let mut out: Vec<char> = Vec::new();
        push_two_digits(&mut out, self.start.0);
        push_text(&mut out, ":");
        push_two_digits(&mut out, self.start.1);
        push_text(&mut out, "-");
        push_two_digits(&mut out, self.end.0);
        push_text(&mut out, ":");
        push_two_digits(&mut out, self.end.1);
        assert(out@ =~= range_text(*self));
        text_of(out.as_slice())
    }
}

/// A range written `HH:mm-HH:mm`.
pub open spec fn range_text(t: TimeRange) -> Seq<char> {
    two_digits(t.start.0) + ":"@ + two_digits(t.start.1) + "-"@ + two_digits(t.end.0) + ":"@
        + two_digits(t.end.1)
}

fn push_two_digits(out: &mut Vec<char>, n: u8)
    ensures
        final(out)@ == old(out)@ + two_digits(n),
{
    let ghost before = out@;
    if n < 10 {
        push_text(out, "0");
    }
    push_decimal(out, n as u128);
    assert(out@ =~= before + two_digits(n));
}

// ---------------------------------------------------------------------------
// Scopes
// ---------------------------------------------------------------------------

/// Where a patch applies.
#[derive(Debug, PartialEq)]
pub enum Scope {
    /// Everywhere.
    Global,
    /// In the profile of this name.
    Profile(String),
    /// Where every condition that is set holds.
    Scoped {
        /// The name of the profile, or a pattern for it.
        profile: Option<String>,
        platform: Option<Vec<Platform>>,
        /// The proxy core.
        core: Option<String>,
        time_range: Option<TimeRange>,
        /// `Some(false)` switches the patch off.
        enabled: Option<bool>,
        /// The name of the wireless network.
        ssid: Option<String>,
    },
    /// In the settings of the user interface.
    Runtime,
}

/// The conditions of a scope.
#[verifier::ext_equal]
pub ghost struct Conditions {
    pub profile: Option<Seq<char>>,
    pub platform: Option<Seq<Platform>>,
    pub core: Option<Seq<char>>,
    pub time_range: Option<TimeRange>,
    pub enabled: Option<bool>,
    pub ssid: Option<Seq<char>>,
}

/// The model of [`Scope`].
#[verifier::ext_equal]
pub ghost enum ScopeView {
    Global,
    Profile(Seq<char>),
    Scoped(Conditions),
    Runtime,
}

/// No conditions.
pub open spec fn no_conditions() -> Conditions {
    Conditions {
        profile: None,
        platform: None,
        core: None,
        time_range: None,
        enabled: None,
        ssid: None,
    }
}

/// The platforms of a condition.
pub open spec fn opt_platforms(o: Option<Vec<Platform>>) -> Option<Seq<Platform>> {
    match o {
        Some(v) => Some(v@),
        None => None,
    }
}

/// The priority of a scope: a scope of higher priority overrides one of lower.
pub open spec fn scope_priority(s: ScopeView) -> int {
    match s {
        ScopeView::Profile(_) => 0,
        ScopeView::Global => 1,
        ScopeView::Scoped(_) => 2,
        ScopeView::Runtime => 3,
    }
}

/// A copy of a list of platforms.
fn copy_platforms(v: &Vec<Platform>) -> (r: Vec<Platform>)
    ensures
        r@ == v@,
{
    let mut out: Vec<Platform> = Vec::new();
    let mut i: usize = 0;
    while i < v.len()
        invariant
            i <= v@.len(),
            out@ == v@.take(i as int),
        decreases v@.len() - i,
    {
        out.push(v[i]);
        i = i + 1;
        assert(out@ =~= v@.take(i as int));
    }
    assert(out@ =~= v@);
    out
}

impl Scope {
    pub open spec fn view(&self) -> ScopeView {
        match self {
            Scope::Global => ScopeView::Global,
            Scope::Profile(name) => ScopeView::Profile(name@),
            Scope::Scoped { profile, platform, core, time_range, enabled, ssid } =>
            ScopeView::Scoped(
                Conditions {
                    profile: opt_text(*profile),
                    platform: opt_platforms(*platform),
                    core: opt_text(*core),
                    time_range: *time_range,
                    enabled: *enabled,
                    ssid: opt_text(*ssid),
                },
            ),
            Scope::Runtime => ScopeView::Runtime,
        }
    }

    /// The scope that is everywhere.
    pub fn global() -> (r: Scope)
        ensures
            r@ == ScopeView::Global,
    {
        Scope::Global
    }

    /// The scope of one profile.
    pub fn profile(name: &str) -> (r: Scope)
        ensures
            r@ == ScopeView::Profile(name@),
    {
        Scope::Profile(name.to_owned())
    }

    /// Conditions to be set one by one.
    pub fn scoped() -> (r: ScopedBuilder)
        ensures
            r@ == no_conditions(),
    {
        ScopedBuilder::new()
    }

    /// The scope of the user interface.
    pub fn runtime() -> (r: Scope)
        ensures
            r@ == ScopeView::Runtime,
    {
        Scope::Runtime
    }

    /// Whether the scope is everywhere.
    pub fn is_global(&self) -> (r: bool)
        ensures
            r == (self@ == ScopeView::Global),
    {
        match self {
            Scope::Global => true,
            _ => false,
        }
    }

    /// The priority of the scope.
    pub fn priority(&self) -> (r: u8)
        ensures
            r == scope_priority(self@),
    {
        match self {
            Scope::Global => 1,
            Scope::Profile(_) => 0,
            Scope::Scoped { .. } => 2,
            Scope::Runtime => 3,
        }
    }

    /// The scope in words.
    pub fn to_text(&self) -> (r: String)
        ensures
            r@ == scope_text(self@),
    {
        match self {
            Scope::Global => "Global".to_owned(),
            Scope::Profile(name) => three("Profile(", name.as_str(), ")"),
            Scope::Scoped { profile, platform, core, time_range, enabled, ssid } => {
                let mut out: Vec<char> = Vec::new();
                let mut first: bool = true;
                if let Some(p) = profile {
                    let s = concat("profile=", p.as_str());
                    push_part(&mut out, first, s.as_str());
                    first = false;
                }
                if let Some(p) = platform {
                    let names = platform_list(p);
                    let s = three("platform=[", names.as_str(), "]");
                    push_part(&mut out, first, s.as_str());
                    first = false;
                }
                if let Some(c) = core {
                    let s = concat("core=", c.as_str());
                    push_part(&mut out, first, s.as_str());
                    first = false;
                }
                if let Some(t) = time_range {
                    let shown = t.to_text();
                    let s = concat("time=", shown.as_str());
                    push_part(&mut out, first, s.as_str());
                    first = false;
                }
                if let Some(e) = enabled {
                    let s = concat(
                        "enabled=",
                        if *e {
                            "true"
                        } else {
                            "false"
                        },
                    );
                    push_part(&mut out, first, s.as_str());
                    first = false;
                }
                if let Some(n) = ssid {
                    let s = concat("ssid=", n.as_str());
                    push_part(&mut out, first, s.as_str());
                }
                let body = text_of(out.as_slice());
                three("Scoped(", body.as_str(), ")")
            },
            Scope::Runtime => "Runtime".to_owned(),
        }
    }
}

/// `list` with one more part, where there is one.
pub open spec fn with_part(list: (Seq<char>, bool), part: Option<Seq<char>>) -> (Seq<char>, bool) {
    match part {
        None => list,
        Some(p) => (
            if list.1 {
                list.0 + p
            } else {
                list.0 + ", "@ + p
            },
            false,
        ),
    }
}

/// The names of platforms, with commas between them.
pub open spec fn platforms_text(p: Seq<Platform>) -> Seq<char>
    decreases p.len(),
{
    if p.len() == 0 {
        Seq::empty()
    } else if p.len() == 1 {
        platform_name(p[0])
    } else {
        platforms_text(p.drop_last()) + ", "@ + platform_name(p.last())
    }
}

/// A heading before a text, where there is one.
pub open spec fn labelled(label: Seq<char>, o: Option<Seq<char>>) -> Option<Seq<char>> {
    match o {
        Some(t) => Some(label + t),
        None => None,
    }
}

/// The conditions that are set, with commas between them.
pub open spec fn conditions_text(c: Conditions) -> Seq<char> {
    let l0 = with_part((Seq::empty(), true), labelled("profile="@, c.profile));
    let l1 = with_part(
        l0,
        match c.platform {
            Some(p) => Some("platform=["@ + platforms_text(p) + "]"@),
            None => None,
        },
    );
    let l2 = with_part(l1, labelled("core="@, c.core));
    let l3 = with_part(
        l2,
        match c.time_range {
            Some(t) => Some("time="@ + range_text(t)),
            None => None,
        },
    );
    let l4 = with_part(
        l3,
        match c.enabled {
            Some(e) => Some("enabled="@ + bool_text(e)),
            None => None,
        },
    );
    with_part(l4, labelled("ssid="@, c.ssid)).0
}

/// A scope in words.
pub open spec fn scope_text(s: ScopeView) -> Seq<char> {
    match s {
        ScopeView::Global => "Global"@,
        ScopeView::Profile(name) => "Profile("@ + name + ")"@,
        ScopeView::Scoped(c) => "Scoped("@ + conditions_text(c) + ")"@,
        ScopeView::Runtime => "Runtime"@,
    }
}

fn push_part(out: &mut Vec<char>, first: bool, part: &str)
    ensures
        (final(out)@, false) == with_part((old(out)@, first), Some(part@)),
{
    let ghost before = out@;
    if !first {
        push_text(out, ", ");
    }
    push_text(out, part);
}

fn platform_list(p: &Vec<Platform>) -> (r: String)
    ensures
        r@ == platforms_text(p@),
{
    let mut out: Vec<char> = Vec::new();
    let mut i: usize = 0;
    while i < p.len()
        invariant
            i <= p@.len(),
            out@ == platforms_text(p@.take(i as int)),
        decreases p@.len() - i,
    {
        assert(p@.take(i + 1).drop_last() =~= p@.take(i as int));
        if i > 0 {
            push_text(&mut out, ", ");
        }
        push_text(&mut out, p[i].name());
        i = i + 1;
        assert(out@ =~= platforms_text(p@.take(i as int)));
    }
    assert(p@.take(p@.len() as int) =~= p@);
    text_of(out.as_slice())
}

impl Clone for Scope {
    fn clone(&self) -> (r: Scope)
        ensures
            r@ == self@,
    {
        match self {
            Scope::Global => Scope::Global,
            Scope::Profile(name) => Scope::Profile(name.clone()),
            Scope::Scoped { profile, platform, core, time_range, enabled, ssid } => Scope::Scoped {
                profile: copy_text(profile),
                platform: match platform {
                    Some(v) => Some(copy_platforms(v)),
                    None => None,
                },
                core: copy_text(core),
                time_range: *time_range,
                enabled: *enabled,
                ssid: copy_text(ssid),
            },
            Scope::Runtime => Scope::Runtime,
        }
    }
}

impl Default for Scope {
    fn default() -> (r: Scope)
        ensures
            r@ == ScopeView::Global,
    {
        Scope::Global
    }
}

/// The conditions of a scope, set one by one.
pub struct ScopedBuilder {
    profile: Option<String>,
    platform: Option<Vec<Platform>>,
    core: Option<String>,
    time_range: Option<TimeRange>,
    enabled: Option<bool>,
    ssid: Option<String>,
}

impl ScopedBuilder {
    pub closed spec fn view(&self) -> Conditions {
        Conditions {
            profile: opt_text(self.profile),
            platform: opt_platforms(self.platform),
            core: opt_text(self.core),
            time_range: self.time_range,
            enabled: self.enabled,
            ssid: opt_text(self.ssid),
        }
    }

    /// No conditions.
    pub fn new() -> (r: ScopedBuilder)
        ensures
            r@ == no_conditions(),
    {
        ScopedBuilder {
            profile: None,
            platform: None,
            core: None,
            time_range: None,
            enabled: None,
            ssid: None,
        }
    }

    /// Sets the profile.
    pub fn profile(self, profile: &str) -> (r: ScopedBuilder)
        ensures
            r@ == (Conditions { profile: Some(profile@), ..self@ }),
    {
        let mut b = self;
        b.profile = Some(profile.to_owned());
        b
    }

    /// Sets the platforms.
    pub fn platform(self, platforms: Vec<Platform>) -> (r: ScopedBuilder)
        ensures
            r@ == (Conditions { platform: Some(platforms@), ..self@ }),
    {
        let mut b = self;
        b.platform = Some(platforms);
        b
    }

    /// Sets the proxy core.
    pub fn with_core(self, core: &str) -> (r: ScopedBuilder)
        ensures
            r@ == (Conditions { core: Some(core@), ..self@ }),
    {
        let mut b = self;
        b.core = Some(core.to_owned());
        b
    }

    /// Sets the range of times of day.
    pub fn time(self, time_range: TimeRange) -> (r: ScopedBuilder)
        ensures
            r@ == (Conditions { time_range: Some(time_range), ..self@ }),
    {
        let mut b = self;
        b.time_range = Some(time_range);
        b
    }

    /// Switches the scope on or off.
    pub fn enabled(self, enabled: bool) -> (r: ScopedBuilder)
        ensures
            r@ == (Conditions { enabled: Some(enabled), ..self@ }),
    {
        let mut b = self;
        b.enabled = Some(enabled);
        b
    }

    /// Sets the wireless network.
    pub fn ssid(self, ssid: &str) -> (r: ScopedBuilder)
        ensures
            r@ == (Conditions { ssid: Some(ssid@), ..self@ }),
    {
        let mut b = self;
        b.ssid = Some(ssid.to_owned());
        b
    }

    /// The scope with these conditions.
    pub fn build(self) -> (r: Scope)
        ensures
            r@ == ScopeView::Scoped(self@),
    {
        Scope::Scoped {
            profile: self.profile,
            platform: self.platform,
            core: self.core,
            time_range: self.time_range,
            enabled: self.enabled,
            ssid: self.ssid,
        }
    }
}

impl Default for ScopedBuilder {
    fn default() -> (r: ScopedBuilder)
        ensures
            r@ == no_conditions(),
    {
        ScopedBuilder::new()
    }
}

// ---------------------------------------------------------------------------
// Laws
// ---------------------------------------------------------------------------

/// A range that is read from text lies within the day.
pub proof fn parsed_range_is_valid(s: Seq<char>, t: TimeRange)
    requires
        clock_range(s) == Ok::<TimeRange, Seq<char>>(t),
    ensures
        t.start.0 < 24 && t.start.1 < 60 && t.end.0 < 24 && t.end.1 < 60,
        0 <= t.start_minutes() < 1440,
        0 <= t.end_minutes() < 1440,
{
    clock_time_bounds(split(s, '-')[0]);
    clock_time_bounds(split(s, '-')[1]);
}

proof fn clock_time_bounds(s: Seq<char>)
    ensures
        clock_time(s) matches Ok(t) ==> t.0 < 24 && t.1 < 60,
{
    unsigned_bounds(split(s, ':')[0], 255);
    unsigned_bounds(split(s, ':')[1], 255);
}

/// A range covers its start and its end; a range and the range from its end to
/// its start cover the whole day between them.
pub proof fn range_and_its_complement(t: TimeRange, m: int)
    ensures
        t.covers(t.start_minutes()),
        t.covers(t.end_minutes()),
        t.covers(m) || (TimeRange { start: t.end, end: t.start }).covers(m),
{
}

/// A range within a day does not cover what lies outside it; one past midnight
/// leaves out exactly what lies between its end and its start.
pub proof fn range_past_midnight(t: TimeRange, m: int)
    ensures
        t.start_minutes() < t.end_minutes() ==> (t.covers(m) <==> t.start_minutes() <= m
            <= t.end_minutes()),
        t.start_minutes() > t.end_minutes() ==> (!t.covers(m) <==> t.end_minutes() < m
            < t.start_minutes()),
{
}

proof fn two_digits_read(n: u8)
    requires
        n < 60,
    ensures
        two_digits(n).len() == 2,
        is_digit(two_digits(n)[0]),
        is_digit(two_digits(n)[1]),
        unsigned(two_digits(n), 255) == Some(n as int),
{
    reveal_strlit("0");
    reveal_with_fuel(decimal, 2);
    let s = two_digits(n);
    assert(s =~= seq![digit_char(n as int / 10), digit_char(n as int % 10)]);
    reveal_with_fuel(digits_value, 3);
    assert(s.drop_last() =~= seq![s[0]]);
    assert(s.drop_last().drop_last() =~= Seq::empty());
}

proof fn clock_time_read(h: u8, m: u8)
    requires
        h < 24,
        m < 60,
    ensures
        clock_time(two_digits(h) + ":"@ + two_digits(m)) == Ok::<(u8, u8), Seq<char>>((h, m)),
        (two_digits(h) + ":"@ + two_digits(m)).len() == 5,
        forall|i: int|
            0 <= i < 5 ==> #[trigger] (two_digits(h) + ":"@ + two_digits(m))[i] != '-',
{
    reveal_strlit(":");
    two_digits_read(h);
    two_digits_read(m);
    let s = two_digits(h) + ":"@ + two_digits(m);
    split_in_two(s, ':', 2);
    assert(s.take(2) =~= two_digits(h));
    assert(s.skip(3) =~= two_digits(m));
}

/// A range within the day that is written as text is read back.
pub proof fn written_range_is_read_back(t: TimeRange)
    requires
        t.start.0 < 24 && t.start.1 < 60 && t.end.0 < 24 && t.end.1 < 60,
    ensures
        clock_range(range_text(t)) == Ok::<TimeRange, Seq<char>>(t),
{
    reveal_strlit("-");
    let a = two_digits(t.start.0) + ":"@ + two_digits(t.start.1);
    let b = two_digits(t.end.0) + ":"@ + two_digits(t.end.1);
    let s = range_text(t);
    clock_time_read(t.start.0, t.start.1);
    clock_time_read(t.end.0, t.end.1);
    assert(s =~= a + "-"@ + b);
    assert forall|j: int| 0 <= j < s.len() && j != 5 implies s[j] != '-' by {
        if j < 5 {
            assert(s[j] == a[j]);
        } else {
            assert(s[j] == b[j - 6]);
        }
    }
    split_in_two(s, '-', 5);
    assert(s.take(5) =~= a);
    assert(s.skip(6) =~= b);
}

/// Profile patches come first, then global ones, then those with conditions, then
/// those of the user interface.
pub proof fn scopes_in_their_order(q: Seq<char>, c: Conditions)
    ensures
        scope_priority(ScopeView::Profile(q)) < scope_priority(ScopeView::Global),
        scope_priority(ScopeView::Global) < scope_priority(ScopeView::Scoped(c)),
        scope_priority(ScopeView::Scoped(c)) < scope_priority(ScopeView::Runtime),
{
}

/// A range from one time to another covers exactly the minutes from the first to
/// the last, both with them; one that ends before it starts goes on past midnight,
/// and one that ends where it starts covers the day.
pub proof fn what_a_range_covers(h: u8, m: u8, k: u8, n: u8, at: TimeOfDay)
    requires
        at.valid(),
    ensures
        ({
            let t = TimeRange { start: (h, m), end: (k, n) };
            let from = 60 * h + m;
            let to = 60 * k + n;
            let now = 60 * at.hour + at.minute;
            &&& from < to ==> t.covers(at.minutes()) == (from <= now && now <= to)
            &&& from > to ==> t.covers(at.minutes()) == (now >= from || now <= to)
            &&& from == to ==> t.covers(at.minutes())
        }),
{
}

} // verus!
