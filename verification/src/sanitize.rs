//! Cleaning of texts, and safe reading of configuration files.

use vstd::prelude::*;
use vstd::slice::slice_subrange;
use crate::error::five;
use crate::outside::{nfkc, nfkc_of, utf8_lossy, utf8_text};
use crate::text::{chars_of, same_text, text_of};

verus! {

// ---------------------------------------------------------------------------
// Dangerous characters
// ---------------------------------------------------------------------------

/// Whether a code point is a noncharacter: one of the last two of a plane.
pub open spec fn noncharacter(c: int) -> bool {
    c % 0x10000 == 0xFFFE || c % 0x10000 == 0xFFFF
}

/// Whether a code point controls the format of a text (category `Cf`), other
/// than the soft hyphen, the zero-width characters, the direction controls and
/// the byte order mark.
pub open spec fn other_format_control(c: int) -> bool {
    ||| 0x0600 <= c <= 0x0605
    ||| c == 0x061C
    ||| c == 0x06DD
    ||| c == 0x070F
    ||| 0x0890 <= c <= 0x0891
    ||| c == 0x08E2
    ||| c == 0x180E
    ||| 0x2060 <= c <= 0x2064
    ||| 0x2066 <= c <= 0x206F
    ||| 0xFFF9 <= c <= 0xFFFB
    ||| c == 0x110BD
    ||| c == 0x110CD
    ||| 0x13430 <= c <= 0x1343F
    ||| 0x1BCA0 <= c <= 0x1BCA3
    ||| 0x1D173 <= c <= 0x1D17A
    ||| c == 0xE0001
    ||| 0xE0020 <= c <= 0xE007F
}

/// Whether a code point is for private use.
pub open spec fn private_use(c: int) -> bool {
    ||| 0xE000 <= c <= 0xF8FF
    ||| 0xF0000 <= c <= 0xFFFFD
    ||| 0x100000 <= c <= 0x10FFFD
}

/// Whether a character can hide or disguise text: zero-width characters,
/// direction and format controls, the byte order mark, characters for private
/// use and noncharacters.
pub open spec fn dangerous(c: char) -> bool {
    let n = c as int;
    ||| 0x200B <= n <= 0x200F
    ||| 0x202A <= n <= 0x202E
    ||| n == 0xFEFF
    ||| other_format_control(n)
    ||| private_use(n)
    ||| noncharacter(n)
}

/// Whether a character is a noncharacter.
pub fn is_noncharacter(c: char) -> (r: bool)
    ensures
        r == noncharacter(c as int),
{
    let low: u32 = (c as u32) % 0x10000;
    low == 0xFFFE || low == 0xFFFF
}

/// Whether a character controls the format of a text, other than those with a
/// rule of their own.
pub fn is_other_format_control(c: char) -> (r: bool)
    ensures
        r == other_format_control(c as int),
{
    let n: u32 = c as u32;
    (0x0600 <= n && n <= 0x0605) || n == 0x061C || n == 0x06DD || n == 0x070F || (0x0890 <= n && n
        <= 0x0891) || n == 0x08E2 || n == 0x180E || (0x2060 <= n && n <= 0x2064) || (0x2066 <= n
        && n <= 0x206F) || (0xFFF9 <= n && n <= 0xFFFB) || n == 0x110BD || n == 0x110CD || (0x13430
        <= n && n <= 0x1343F) || (0x1BCA0 <= n && n <= 0x1BCA3) || (0x1D173 <= n && n <= 0x1D17A)
        || n == 0xE0001 || (0xE0020 <= n && n <= 0xE007F)
}

/// Whether a character can hide or disguise text.
pub fn is_dangerous_unicode(c: char) -> (r: bool)
    ensures
        r == dangerous(c),
{
    let n: u32 = c as u32;
    (0x200B <= n && n <= 0x200F) || (0x202A <= n && n <= 0x202E) || n == 0xFEFF
        || is_other_format_control(c) || (0xE000 <= n && n <= 0xF8FF) || (0xF0000 <= n && n
        <= 0xFFFFD) || (0x100000 <= n && n <= 0x10FFFD) || is_noncharacter(c)
}

/// A text without its dangerous characters.
pub open spec fn harmless(s: Seq<char>) -> Seq<char>
    decreases s.len(),
{
    if s.len() == 0 {
        Seq::empty()
    } else if dangerous(s.last()) {
        harmless(s.drop_last())
    } else {
        harmless(s.drop_last()).push(s.last())
    }
}

/// Removes the dangerous characters from a text.
pub fn remove_dangerous(s: &str) -> (r: String)
    ensures
        r@ == harmless(s@),
{
    let chars = chars_of(s);
    let n: usize = chars.len();
    let mut out: Vec<char> = Vec::new();
    let mut i: usize = 0;
    assert(s@.take(0) =~= Seq::empty());
    while i < n
        invariant
            i <= n,
            n == chars@.len(),
            chars@ == s@,
            out@ == harmless(s@.take(i as int)),
        decreases n - i,
    {
        let c: char = chars[i];
        assert(s@.take(i + 1).drop_last() =~= s@.take(i as int));
        if !is_dangerous_unicode(c) {
            out.push(c);
        }
        i = i + 1;
    }
    assert(s@.take(n as int) =~= s@);
    text_of(out.as_slice())
}

// ---------------------------------------------------------------------------
// Cleaning
// ---------------------------------------------------------------------------

/// A text after a round of cleaning.
pub open spec fn cleaned(s: Seq<char>, normalize: bool) -> Seq<char> {
    harmless(
        if normalize {
            nfkc(s)
        } else {
            s
        },
    )
}

/// A text after rounds of cleaning, as many as change it, but no more than `n`.
pub open spec fn cleaned_often(s: Seq<char>, normalize: bool, n: nat) -> Seq<char>
    decreases n,
{
    if n == 0 || cleaned(s, normalize) == s {
        s
    } else {
        cleaned_often(cleaned(s, normalize), normalize, (n - 1) as nat)
    }
}

/// The greatest number of rounds of cleaning.
pub const MAX_ROUNDS: usize = 10;

/// Cleans a text of dangerous characters, in rounds of normalisation and removal
/// until nothing changes any more.
pub fn sanitize_config_string(input: &str) -> (r: String)
    ensures
        r@ == cleaned_often(input@, true, MAX_ROUNDS as nat),
{
    let none: [&str; 0] = [];
    sanitize_config_string_with_whitelist(input, none.as_slice())
}

/// Cleans a text of dangerous characters; it is normalised only where the list
/// of fields to normalise is empty.
pub fn sanitize_config_string_with_whitelist(input: &str, field_whitelist: &[&str]) -> (r: String)
    ensures
        r@ == cleaned_often(input@, field_whitelist@.len() == 0, MAX_ROUNDS as nat),
{
    let normalize: bool = field_whitelist.len() == 0;
    let mut current = input.to_owned();
    let mut left: usize = MAX_ROUNDS;
    while left > 0
        invariant
            left <= MAX_ROUNDS,
            normalize == (field_whitelist@.len() == 0),
            cleaned_often(input@, normalize, MAX_ROUNDS as nat) == cleaned_often(
                current@,
                normalize,
                left as nat,
            ),
        decreases left,
    {
        let next = if normalize {
            remove_dangerous(nfkc_of(current.as_str()).as_str())
        } else {
            remove_dangerous(current.as_str())
        };
        if same_text(next.as_str(), current.as_str()) {
            return current;
        }
        current = next;
        left = left - 1;
    }
    current
}

// ---------------------------------------------------------------------------
// Paths
// ---------------------------------------------------------------------------

/// Whether a path is a directory or lies in it, both written out in full.
pub open spec fn lies_within(path: Seq<u8>, dir: Seq<u8>, separators: Seq<u8>) -> bool {
    path == dir || (path.len() > dir.len() && path.take(dir.len() as int) == dir
        && separators.contains(path[dir.len() as int]))
}

fn is_among(b: u8, list: &[u8]) -> (r: bool)
    ensures
        r == list@.contains(b),
{
    let n: usize = list.len();
    let mut i: usize = 0;
    while i < n
        invariant
            i <= n,
            n == list@.len(),
            forall|j: int| 0 <= j < i ==> list@[j] != b,
        decreases n - i,
    {
        if list[i] == b {
            return true;
        }
        i = i + 1;
    }
    false
}

fn begins_with(path: &[u8], dir: &[u8]) -> (r: bool)
    requires
        dir@.len() <= path@.len(),
    ensures
        r == (path@.take(dir@.len() as int) == dir@),
{
    let n: usize = dir.len();
    let ghost head = path@.take(n as int);
    let mut i: usize = 0;
    while i < n
        invariant
            i <= n,
            n == dir@.len(),
            n <= path@.len(),
            head == path@.take(n as int),
            forall|j: int| 0 <= j < i ==> head[j] == dir@[j],
        decreases n - i,
    {
        if path[i] != dir[i] {
            assert(head[i as int] != dir@[i as int]);
            return false;
        }
        i = i + 1;
    }
    assert(head =~= dir@);
    true
}

/// The message for a path outside the workspace.
pub open spec fn outside_text(path: Seq<char>, workspace: Seq<char>) -> Seq<char> {
    "路径 '"@ + path + "' 解析后不在工作空间 '"@ + workspace + "' 范围内（可能通过符号链接绕过）"@
}

/// Accepts a path that is the workspace or lies in it.
///
/// Both paths are given as bytes, with their links resolved, and as text for the
/// message.  A path that only starts with the same characters, such as
/// `/safe/dir-other` for `/safe/dir`, does not lie in the workspace.
pub fn validate_path_within_workspace(
    path: &[u8],
    workspace: &[u8],
    separators: &[u8],
    path_text: &str,
    workspace_text: &str,
) -> (r: Result<(), String>)
    ensures
        match r {
            Ok(_) => lies_within(path@, workspace@, separators@),
            Err(m) => !lies_within(path@, workspace@, separators@) && m@ == outside_text(
                path_text@,
                workspace_text@,
            ),
        },
{
    let n: usize = workspace.len();
    assert(path@.take(path@.len() as int) =~= path@);
    if path.len() >= n && begins_with(path, workspace) {
        if path.len() == n || is_among(path[n], separators) {
            return Ok(());
        }
    }
    Err(
        five(
            "路径 '",
            path_text,
            "' 解析后不在工作空间 '",
            workspace_text,
            "' 范围内（可能通过符号链接绕过）",
        ),
    )
}

/// Whether a byte is an ASCII letter.
pub open spec fn is_letter(b: u8) -> bool {
    65 <= b <= 90 || 97 <= b <= 122
}

/// Whether a component of a path can begin at a place: at the start, behind a
/// separator, or behind the letter and the colon of a drive, where backslashes
/// separate.
pub open spec fn component_at(path: Seq<u8>, separators: Seq<u8>, i: int) -> bool {
    ||| i == 0
    ||| separators.contains(path[i - 1])
    ||| i == 2 && separators.contains(92) && is_letter(path[0]) && path[1] == 58
}

/// Whether `..` is a component of a path that begins at a place.
pub open spec fn parent_at(path: Seq<u8>, separators: Seq<u8>, i: int) -> bool {
    &&& 0 <= i < path.len() - 1
    &&& path[i] == 46 && path[i + 1] == 46
    &&& component_at(path, separators, i)
    &&& i + 2 == path.len() || separators.contains(path[i + 2])
}

/// Whether a path leads through a parent directory.
pub open spec fn climbs(path: Seq<u8>, separators: Seq<u8>) -> bool {
    exists|i: int| #[trigger] parent_at(path, separators, i)
}

fn begins_component(path: &[u8], separators: &[u8], i: usize) -> (r: bool)
    requires
        i < path@.len(),
    ensures
        r == component_at(path@, separators@, i as int),
{
    if i == 0 || is_among(path[i - 1], separators) {
        return true;
    }
    let b: u8 = path[0];
    i == 2 && is_among(92, separators) && ((65 <= b && b <= 90) || (97 <= b && b <= 122))
        && path[1] == 58
}

/// Whether a path leads through a parent directory.
pub fn has_parent_component(path: &[u8], separators: &[u8]) -> (r: bool)
    ensures
        r == climbs(path@, separators@),
{
    let n: usize = path.len();
    let mut i: usize = 0;
    while i < n
        invariant
            i <= n,
            n == path@.len(),
            forall|j: int| 0 <= j < i ==> !#[trigger] parent_at(path@, separators@, j),
        decreases n - i,
    {
        if n - i >= 2 && path[i] == 46 && path[i + 1] == 46 && begins_component(
            path,
            separators,
            i,
        ) && (n - i == 2 || is_among(path[i + 2], separators)) {
            assert(parent_at(path@, separators@, i as int));
            return true;
        }
        assert(!parent_at(path@, separators@, i as int));
        i = i + 1;
    }
    false
}

// ---------------------------------------------------------------------------
// Encodings
// ---------------------------------------------------------------------------

/// The 16-bit units of bytes, in either byte order.  A last byte without a
/// partner is dropped.
pub open spec fn units(bytes: Seq<u8>, big_endian: bool) -> Seq<int> {
    Seq::new(
        bytes.len() / 2,
        |i: int|
            if big_endian {
                bytes[2 * i] * 256 + bytes[2 * i + 1]
            } else {
                bytes[2 * i + 1] * 256 + bytes[2 * i]
            },
    )
}

/// Whether a unit is the first half of a pair.
pub open spec fn leads(u: int) -> bool {
    0xD800 <= u <= 0xDBFF
}

/// Whether a unit is the second half of a pair.
pub open spec fn trails(u: int) -> bool {
    0xDC00 <= u <= 0xDFFF
}

/// The text of 16-bit units from a place on, with U+FFFD for halves without a
/// partner.
pub open spec fn utf16_text(u: Seq<int>, i: int) -> Seq<char>
    decreases u.len() - i,
{
    if i < 0 || i >= u.len() {
        Seq::empty()
    } else if leads(u[i]) && i + 1 < u.len() && trails(u[i + 1]) {
        seq![(0x10000 + (u[i] - 0xD800) * 0x400 + (u[i + 1] - 0xDC00)) as char] + utf16_text(
            u,
            i + 2,
        )
    } else if leads(u[i]) || trails(u[i]) {
        seq!['\u{FFFD}'] + utf16_text(u, i + 1)
    } else {
        seq![u[i] as char] + utf16_text(u, i + 1)
    }
}

fn unit_at(bytes: &[u8], big_endian: bool, i: usize) -> (r: u32)
    requires
        i < bytes@.len() / 2,
    ensures
        r == units(bytes@, big_endian)[i as int],
        r < 0x10000,
{
    let n: usize = bytes.len();
    assert(2 * i + 1 < n);
    let first: u32 = bytes[2 * i] as u32;
    let second: u32 = bytes[2 * i + 1] as u32;
    if big_endian {
        first * 256 + second
    } else {
        second * 256 + first
    }
}

fn read_utf16(bytes: &[u8], big_endian: bool) -> (r: String)
    ensures
        r@ == utf16_text(units(bytes@, big_endian), 0),
{
    let ghost u = units(bytes@, big_endian);
    let n: usize = bytes.len() / 2;
    let mut out: Vec<char> = Vec::new();
    let mut i: usize = 0;
    assert(out@ + utf16_text(u, 0) =~= utf16_text(u, 0));
    while i < n
        invariant
            i <= n,
            n == bytes@.len() / 2,
            u == units(bytes@, big_endian),
            u.len() == n,
            out@ + utf16_text(u, i as int) == utf16_text(u, 0),
        decreases n - i,
    {
        let ghost before = out@;
        let unit: u32 = unit_at(bytes, big_endian, i);
        let leading: bool = 0xD800 <= unit && unit <= 0xDBFF;
        let next: u32 = if leading && i + 1 < n {
            unit_at(bytes, big_endian, i + 1)
        } else {
            0
        };
        if leading && 0xDC00 <= next && next <= 0xDFFF {
            let code: u32 = 0x10000 + (unit - 0xD800) * 0x400 + (next - 0xDC00);
            if let Some(c) = char::from_u32(code) {
                out.push(c);
                assert(c == (code as int) as char);
                assert(out@ + utf16_text(u, i + 2) =~= before + utf16_text(u, i as int));
            }
            i = i + 2;
        } else {
            match char::from_u32(unit) {
                Some(c) => {
                    out.push(c);
                    assert(c == (unit as int) as char);
                },
                None => out.push('\u{FFFD}'),
            }
            assert(out@ + utf16_text(u, i + 1) =~= before + utf16_text(u, i as int));
            i = i + 1;
        }
    }
    assert(out@ =~= utf16_text(u, 0));
    text_of(out.as_slice())
}

/// The text of a configuration file: a byte order mark tells UTF-16 from UTF-8,
/// and is dropped.
pub open spec fn config_text(bytes: Seq<u8>) -> Seq<char> {
    if bytes.len() >= 3 && bytes[0] == 0xEF && bytes[1] == 0xBB && bytes[2] == 0xBF {
        utf8_text(bytes.skip(3))
    } else if bytes.len() >= 2 && bytes[0] == 0xFF && bytes[1] == 0xFE {
        utf16_text(units(bytes.skip(2), false), 0)
    } else if bytes.len() >= 2 && bytes[0] == 0xFE && bytes[1] == 0xFF {
        utf16_text(units(bytes.skip(2), true), 0)
    } else {
        utf8_text(bytes)
    }
}

/// The text of a configuration file with that content.
pub fn read_config_file(bytes: &[u8]) -> (r: String)
    ensures
        r@ == config_text(bytes@),
{
    let n: usize = bytes.len();
    if n >= 3 && bytes[0] == 0xEF && bytes[1] == 0xBB && bytes[2] == 0xBF {
        let rest = slice_subrange(bytes, 3, n);
        assert(rest@ =~= bytes@.skip(3));
        utf8_lossy(rest)
    } else if n >= 2 && bytes[0] == 0xFF && bytes[1] == 0xFE {
        let rest = slice_subrange(bytes, 2, n);
        assert(rest@ =~= bytes@.skip(2));
        read_utf16(rest, false)
    } else if n >= 2 && bytes[0] == 0xFE && bytes[1] == 0xFF {
        let rest = slice_subrange(bytes, 2, n);
        assert(rest@ =~= bytes@.skip(2));
        read_utf16(rest, true)
    } else {
        utf8_lossy(bytes)
    }
}

// ---------------------------------------------------------------------------
// Laws
// ---------------------------------------------------------------------------

/// Whether a text has no dangerous characters.
pub open spec fn is_harmless(s: Seq<char>) -> bool {
    forall|i: int| 0 <= i < s.len() ==> !dangerous(#[trigger] s[i])
}

/// Removal leaves no dangerous characters, and a text without any as it is.
pub proof fn removal_is_complete(s: Seq<char>)
    ensures
        is_harmless(harmless(s)),
        is_harmless(s) ==> harmless(s) == s,
    decreases s.len(),
{
    if s.len() > 0 {
        let rest = s.drop_last();
        removal_is_complete(rest);
        if is_harmless(s) {
            assert forall|i: int| 0 <= i < rest.len() implies !dangerous(#[trigger] rest[i]) by {
                assert(rest[i] == s[i]);
            }
            assert(s =~= rest.push(s.last()));
        }
    }
}

proof fn cleaned_often_is_harmless(s: Seq<char>, normalize: bool, n: nat)
    requires
        is_harmless(s),
    ensures
        is_harmless(cleaned_often(s, normalize, n)),
    decreases n,
{
    if n > 0 {
        let t = if normalize {
            nfkc(s)
        } else {
            s
        };
        removal_is_complete(t);
        cleaned_often_is_harmless(cleaned(s, normalize), normalize, (n - 1) as nat);
    }
}

/// A cleaned text has no dangerous characters, whatever it was.
pub proof fn cleaning_is_complete(s: Seq<char>, normalize: bool, n: nat)
    requires
        n > 0,
    ensures
        is_harmless(cleaned_often(s, normalize, n)),
{
    let t = if normalize {
        nfkc(s)
    } else {
        s
    };
    removal_is_complete(t);
    cleaned_often_is_harmless(cleaned(s, normalize), normalize, (n - 1) as nat);
}

/// Without normalisation, cleaning is removal, and cleaning twice is cleaning
/// once.
pub proof fn cleaning_without_normalisation(s: Seq<char>, n: nat)
    requires
        n > 0,
    ensures
        cleaned_often(s, false, n) == harmless(s),
        cleaned_often(harmless(s), false, n) == harmless(s),
{
    removal_is_complete(s);
    removal_is_complete(harmless(s));
    reveal_with_fuel(cleaned_often, 2);
}

/// The soft hyphen is kept.
pub proof fn soft_hyphen_is_kept()
    ensures
        !dangerous('\u{AD}'),
{
}

/// Removal takes out the dangerous characters and keeps the others in their order.
pub proof fn removal_keeps_the_rest(s: Seq<char>)
    ensures
        harmless(s) == s.filter(|c: char| !dangerous(c)),
    decreases s.len(),
{
    reveal(Seq::filter);
    if s.len() > 0 {
        removal_keeps_the_rest(s.drop_last());
    }
}

/// Which characters are dangerous: zero-width characters and marks of direction,
/// the byte order mark, the other format controls, characters for private use, and
/// the last two code points of every plane.
pub proof fn which_characters_are_dangerous(c: char)
    ensures
        dangerous(c) <==> {
            let n = c as int;
            ||| n == 0x200B || n == 0x200C || n == 0x200D || n == 0x200E || n == 0x200F
            ||| n == 0x202A || n == 0x202B || n == 0x202C || n == 0x202D || n == 0x202E
            ||| n == 0xFEFF
            ||| n >= 0x600 && n < 0x606 || n == 0x61C || n == 0x6DD || n == 0x70F
            ||| n == 0x890 || n == 0x891 || n == 0x8E2 || n == 0x180E
            ||| n >= 0x2060 && n < 0x2065 || n >= 0x2066 && n < 0x2070
            ||| n == 0xFFF9 || n == 0xFFFA || n == 0xFFFB || n == 0x110BD || n == 0x110CD
            ||| n >= 0x13430 && n < 0x13440 || n >= 0x1BCA0 && n < 0x1BCA4
            ||| n >= 0x1D173 && n < 0x1D17B || n == 0xE0001 || n >= 0xE0020 && n < 0xE0080
            ||| n >= 0xE000 && n < 0xF900
            ||| n >= 0xF0000 && n < 0xFFFFE || n >= 0x100000 && n < 0x10FFFE
            ||| n % 0x10000 >= 0xFFFE
        },
{
}

/// A path lies within a directory where it is the directory, or the directory, a
/// separator and something more; sharing the beginning of a name is not enough.
pub proof fn what_lies_within(dir: Seq<u8>, sep: u8, b: u8, rest: Seq<u8>, path: Seq<u8>)
    ensures
        lies_within(dir, dir, seq![sep]),
        lies_within(dir + seq![sep] + rest, dir, seq![sep]),
        b != sep ==> !lies_within(dir + seq![b] + rest, dir, seq![sep]),
        lies_within(path, dir, seq![sep]) ==> path == dir || path == dir + seq![sep] + path.skip(
            dir.len() as int + 1,
        ),
{
    let n = dir.len() as int;
    let inside = dir + seq![sep] + rest;
    assert(inside.take(n) =~= dir);
    assert(inside[n] == sep);
    assert(seq![sep].contains(sep)) by {
        assert(seq![sep][0] == sep);
    }
    let beside = dir + seq![b] + rest;
    assert(beside[n] == b);
    assert(beside.len() > dir.len());
    if lies_within(path, dir, seq![sep]) && path != dir {
        assert(path =~= path.take(n) + seq![path[n]] + path.skip(n + 1));
    }
}

/// A path climbs where two dots are one of its components: at its start, in its
/// middle or at its end; two dots that are part of a longer name do not count.
pub proof fn what_climbs(a: Seq<u8>, sep: u8, b: Seq<u8>, path: Seq<u8>)
    requires
        sep != 46,
    ensures
        climbs(seq![46u8, 46u8], seq![sep]),
        climbs(seq![46u8, 46u8, sep] + b, seq![sep]),
        climbs(a + seq![sep, 46u8, 46u8], seq![sep]),
        climbs(a + seq![sep, 46u8, 46u8, sep] + b, seq![sep]),
        sep != 92 && (forall|i: int|
            0 <= i < path.len() - 1 && #[trigger] path[i] == 46 && path[i + 1] == 46 ==> (i > 0
                && path[i - 1] != sep) || (i + 2 < path.len() && path[i + 2] != sep)) ==> !climbs(
            path,
            seq![sep],
        ),
{
    let seps = seq![sep];
    assert(seps[0] == sep);
    assert(seps.contains(sep));
    assert(parent_at(seq![46u8, 46u8], seps, 0));
    let p = seq![46u8, 46u8, sep] + b;
    assert(p[0] == 46 && p[1] == 46 && p[2] == sep);
    assert(parent_at(p, seps, 0));
    let n = a.len() as int;
    let q = a + seq![sep, 46u8, 46u8];
    assert(q[n] == sep && q[n + 1] == 46 && q[n + 2] == 46);
    assert(parent_at(q, seps, n + 1));
    let r = a + seq![sep, 46u8, 46u8, sep] + b;
    assert(r[n] == sep && r[n + 1] == 46 && r[n + 2] == 46 && r[n + 3] == sep);
    assert(parent_at(r, seps, n + 1));
    if climbs(path, seps) && sep != 92 {
        let i = choose|i: int| #[trigger] parent_at(path, seps, i);
        assert(path[i] == 46);
        assert(!seps.contains(92));
    }
}

proof fn code_points(c: char)
    ensures
        0 <= c as int <= 0x10FFFF,
        !(0xD800 <= c as int <= 0xDFFF),
{
}

/// A character as units of UTF-16.
pub open spec fn utf16_units(c: char) -> Seq<int> {
    let n = c as int;
    if n < 0x10000 {
        seq![n]
    } else {
        seq![0xD800 + (n - 0x10000) / 0x400, 0xDC00 + (n - 0x10000) % 0x400]
    }
}

/// A text as units of UTF-16.
pub open spec fn utf16_of(s: Seq<char>) -> Seq<int>
    decreases s.len(),
{
    if s.len() == 0 {
        Seq::empty()
    } else {
        utf16_units(s[0]) + utf16_of(s.drop_first())
    }
}

proof fn utf16_behind(front: Seq<int>, u: Seq<int>, i: int)
    requires
        0 <= i <= u.len(),
    ensures
        utf16_text(front + u, front.len() + i) == utf16_text(u, i),
    decreases u.len() - i,
{
    let all = front + u;
    let n = front.len() as int;
    if i < u.len() {
        assert(all[n + i] == u[i]);
        if i + 1 < u.len() {
            assert(all[n + i + 1] == u[i + 1]);
        }
        if leads(u[i]) && i + 1 < u.len() && trails(u[i + 1]) {
            utf16_behind(front, u, i + 2);
        } else {
            utf16_behind(front, u, i + 1);
        }
    }
}

/// A text in units of UTF-16 is read back.
pub proof fn utf16_is_read_back(s: Seq<char>)
    ensures
        utf16_text(utf16_of(s), 0) == s,
    decreases s.len(),
{
    if s.len() > 0 {
        let c = s[0];
        let n = c as int;
        let rest = s.drop_first();
        let u = utf16_of(rest);
        let front = utf16_units(c);
        let all = front + u;
        utf16_is_read_back(rest);
        code_points(c);
        utf16_behind(front, u, 0);
        assert(all[0] == front[0]);
        if n < 0x10000 {
            assert(!leads(n) && !trails(n));
            assert(utf16_text(all, 0) =~= seq![c] + rest);
        } else {
            assert(all[1] == front[1]);
            assert(leads(front[0]) && trails(front[1]));
            assert(0x10000 + (front[0] - 0xD800) * 0x400 + (front[1] - 0xDC00) == n);
            assert(utf16_text(all, 0) =~= seq![c] + rest);
        }
        assert(seq![c] + rest =~= s);
    }
}

/// The bytes of units, in either byte order.
pub open spec fn unit_bytes(u: Seq<int>, big_endian: bool) -> Seq<u8> {
    Seq::new(
        2 * u.len(),
        |i: int|
            (if (i % 2 == 0) == big_endian {
                u[i / 2] / 256
            } else {
                u[i / 2] % 256
            }) as u8,
    )
}

/// A file with the byte order mark of UTF-16 holds the text that is encoded in it,
/// without the mark.
pub proof fn utf16_files_are_read(s: Seq<char>, big_endian: bool)
    ensures
        big_endian ==> config_text(seq![0xFEu8, 0xFFu8] + unit_bytes(utf16_of(s), true)) == s,
        !big_endian ==> config_text(seq![0xFFu8, 0xFEu8] + unit_bytes(utf16_of(s), false)) == s,
{
    let u = utf16_of(s);
    let b = unit_bytes(u, big_endian);
    units_in_range(s);
    assert(units(b, big_endian) =~= u) by {
        assert forall|i: int| 0 <= i < u.len() implies units(b, big_endian)[i] == u[i] by {
            assert(0 <= u[i] < 0x10000);
            assert((2 * i) / 2 == i && (2 * i + 1) / 2 == i);
            assert((2 * i) % 2 == 0 && (2 * i + 1) % 2 == 1);
        }
    }
    utf16_is_read_back(s);
    let mark = if big_endian {
        seq![0xFEu8, 0xFFu8]
    } else {
        seq![0xFFu8, 0xFEu8]
    };
    assert((mark + b).skip(2) =~= b);
    assert((mark + b)[0] == mark[0] && (mark + b)[1] == mark[1]);
}

proof fn units_in_range(s: Seq<char>)
    ensures
        forall|i: int| 0 <= i < utf16_of(s).len() ==> 0 <= #[trigger] utf16_of(s)[i] < 0x10000,
    decreases s.len(),
{
    if s.len() > 0 {
        units_in_range(s.drop_first());
        code_points(s[0]);
        let front = utf16_units(s[0]);
        let u = utf16_of(s.drop_first());
        assert forall|i: int| 0 <= i < utf16_of(s).len() implies 0 <= #[trigger] utf16_of(s)[i]
            < 0x10000 by {
            if i < front.len() {
                assert(utf16_of(s)[i] == front[i]);
            } else {
                assert(utf16_of(s)[i] == u[i - front.len()]);
            }
        }
    }
}

/// A file with the byte order mark of UTF-8 holds what follows the mark, and one
/// without a mark is read as UTF-8 as a whole.
pub proof fn utf8_files_are_read(bytes: Seq<u8>)
    ensures
        config_text(seq![0xEFu8, 0xBBu8, 0xBFu8] + bytes) == utf8_text(bytes),
        bytes.len() > 0 && bytes[0] < 0x80 ==> config_text(bytes) == utf8_text(bytes),
{
    let s = seq![0xEFu8, 0xBBu8, 0xBFu8] + bytes;
    assert(s.skip(3) =~= bytes);
    assert(s[0] == 0xEF && s[1] == 0xBB && s[2] == 0xBF);
}

} // verus!
