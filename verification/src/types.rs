//! Plain data types and small conversions shared by the engine and its
//! callers: the filesystem-entry snapshot handed around the UI, the split
//! 64-bit integers the widget layer needs, and human-readable size strings.

use chrono::{Datelike, Local, LocalResult, TimeZone, Timelike};
use vstd::prelude::*;
use vstd::string::*;

verus! {

/// One filesystem entry as exposed to the engine: an immutable snapshot,
/// re-fetched from the filesystem on demand and never cached across
/// operations. Sizes and dates are whole 64-bit values here; the widget
/// layer, which can only carry 32-bit integers, splits them with
/// [`i64_to_i32`] and reassembles them with [`i32_to_i64`].
#[derive(Clone)]
pub struct FileItem {
    pub path: String,
    pub file_name: String,
    pub is_dir: bool,
    pub size: i64,
    pub date: i64,
    pub file_type: String,
    pub is_link: bool,
    pub extension: String,
    pub selected: bool,
}

impl FileItem {
    /// Copies a file item field by field.
    pub fn duplicate(&self) -> (r: FileItem)
        ensures
            r == *self,
    {
        FileItem {
            path: self.path.clone(),
            file_name: self.file_name.clone(),
            is_dir: self.is_dir,
            size: self.size,
            date: self.date,
            file_type: self.file_type.clone(),
            is_link: self.is_link,
            extension: self.extension.clone(),
            selected: self.selected,
        }
    }
}

pub open spec fn spec_i32_pair_to_i64(a: i32, b: i32) -> i64 {
    (((a as i64) << 32) | ((b as i64) & 0xFFFFFFFFi64)) as i64
}

pub open spec fn spec_i64_to_i32_pair(i: i64) -> (i32, i32) {
    ((i >> 32) as i32, i as i32)
}

/// Reassembles a 64-bit value from the (high, low) halves the widget layer
/// carries.
pub fn i32_to_i64(pair: (i32, i32)) -> (r: i64)
    ensures
        r == spec_i32_pair_to_i64(pair.0, pair.1),
{
    let (a, b) = pair;
    ((a as i64) << 32) | ((b as i64) & 0xFFFFFFFFi64)
}

/// Splits a 64-bit value into the (high, low) halves the widget layer can
/// carry.
pub fn i64_to_i32(i: i64) -> (r: (i32, i32))
    ensures
        r == spec_i64_to_i32_pair(i),
{
    ((i >> 32) as i32, i as i32)
}

/// Splitting a 64-bit value and reassembling it gives the value back.
pub proof fn lemma_i64_i32_round_trip(i: i64)
    ensures
        spec_i32_pair_to_i64(spec_i64_to_i32_pair(i).0, spec_i64_to_i32_pair(i).1) == i,
{
    assert((((((i >> 32) as i32) as i64) << 32) | (((i as i32) as i64) & 0xFFFFFFFFi64)) == i)
        by (bit_vector);
}

/// A file name can be created iff it contains no path separator and no NUL.
pub open spec fn spec_valid_filename(name: Seq<char>) -> bool {
    forall|i: int| 0 <= i < name.len() ==> name[i] != '/' && name[i] != '\u{0}'
}

/// Returns whether a file name can be created as a single directory entry
/// (no slashes, no NUL bytes).
pub fn is_valid_filename(name: &str) -> (r: bool)
    ensures
        r == spec_valid_filename(name@),
{
    let len = name.unicode_len();
    let mut i: usize = 0;
    while i < len
        invariant
            i <= len,
            len == name@.len(),
            forall|j: int| 0 <= j < i ==> name@[j] != '/' && name@[j] != '\u{0}',
        decreases len - i,
    {
        let c = name.get_char(i);
        if c == '/' || c == '\u{0}' {
            return false;
        }
        i = i + 1;
    }
    true
}

/// What is wrong with creating `name` inside a directory, if anything.
/// `already_exists` is the caller's answer to whether the directory already
/// holds an entry of that name (a question only the filesystem can answer).
/// `None` means the file can safely be created.
pub fn verify_file(name: &str, already_exists: bool) -> (r: Option<String>)
    ensures
        name@.len() == 0 ==> r is Some,
        name@.len() > 0 && !spec_valid_filename(name@) ==> r is Some,
        name@.len() > 0 && spec_valid_filename(name@) && already_exists ==> r is Some,
        (name@.len() > 0 && spec_valid_filename(name@) && !already_exists) <==> r is None,
{
    if name.unicode_len() == 0 {
        Some("File name cannot be empty.".to_owned())
    } else if !is_valid_filename(name) {
        Some("This file name is not valid.".to_owned())
    } else if already_exists {
        Some("A file, directory, or symlink with this name already exists.".to_owned())
    } else {
        None
    }
}


/// The character for one decimal digit.
pub open spec fn spec_digit_char(d: nat) -> char {
    if d == 0 {
        '0'
    } else if d == 1 {
        '1'
    } else if d == 2 {
        '2'
    } else if d == 3 {
        '3'
    } else if d == 4 {
        '4'
    } else if d == 5 {
        '5'
    } else if d == 6 {
        '6'
    } else if d == 7 {
        '7'
    } else if d == 8 {
        '8'
    } else {
        '9'
    }
}

/// The decimal digits of a number, most significant first.
pub open spec fn spec_digits(n: nat) -> Seq<char>
    decreases n,
{
    if n < 10 {
        seq![spec_digit_char(n)]
    } else {
        spec_digits(n / 10) + seq![spec_digit_char(n % 10)]
    }
}

pub fn digit_str(d: u64) -> (r: &'static str)
    requires
        d < 10,
    ensures
        r@ == seq![spec_digit_char(d as nat)],
{
    if d == 0 {
        proof {
            reveal_strlit("0");
            assert("0"@ =~= seq![spec_digit_char(0)]);
        }
        "0"
    } else if d == 1 {
        proof {
            reveal_strlit("1");
            assert("1"@ =~= seq![spec_digit_char(1)]);
        }
        "1"
    } else if d == 2 {
        proof {
            reveal_strlit("2");
            assert("2"@ =~= seq![spec_digit_char(2)]);
        }
        "2"
    } else if d == 3 {
        proof {
            reveal_strlit("3");
            assert("3"@ =~= seq![spec_digit_char(3)]);
        }
        "3"
    } else if d == 4 {
        proof {
            reveal_strlit("4");
            assert("4"@ =~= seq![spec_digit_char(4)]);
        }
        "4"
    } else if d == 5 {
        proof {
            reveal_strlit("5");
            assert("5"@ =~= seq![spec_digit_char(5)]);
        }
        "5"
    } else if d == 6 {
        proof {
            reveal_strlit("6");
            assert("6"@ =~= seq![spec_digit_char(6)]);
        }
        "6"
    } else if d == 7 {
        proof {
            reveal_strlit("7");
            assert("7"@ =~= seq![spec_digit_char(7)]);
        }
        "7"
    } else if d == 8 {
        proof {
            reveal_strlit("8");
            assert("8"@ =~= seq![spec_digit_char(8)]);
        }
        "8"
    } else {
        proof {
            reveal_strlit("9");
            assert("9"@ =~= seq![spec_digit_char(9)]);
        }
        "9"
    }
}

/// Renders a number in decimal.
pub fn u64_to_string(n: u64) -> (s: String)
    ensures
        s@ == spec_digits(n as nat),
    decreases n,
{
    if n < 10 {
        digit_str(n).to_owned()
    } else {
        let mut s = u64_to_string(n / 10);
        s.append(digit_str(n % 10));
        proof {
            assert(s@ =~= spec_digits(n as nat));
        }
        s
    }
}


/// The unit a byte count is displayed in.
pub open spec fn spec_size_unit(i: nat) -> nat {
    if i < 1024 {
        1
    } else if i < 1048576 {
        1024
    } else if i < 1073741824 {
        1048576
    } else if i < 1099511627776 {
        1073741824
    } else {
        1099511627776
    }
}

/// The suffix matching the display unit.
pub open spec fn spec_size_suffix(i: nat) -> Seq<char> {
    if i < 1024 {
        seq![' ', 'B']
    } else if i < 1048576 {
        seq![' ', 'K', 'i', 'B']
    } else if i < 1073741824 {
        seq![' ', 'M', 'i', 'B']
    } else if i < 1099511627776 {
        seq![' ', 'G', 'i', 'B']
    } else {
        seq![' ', 'T', 'i', 'B']
    }
}

/// A digit string with a comma before every group of three digits counted
/// from the right.
pub open spec fn spec_grouped(s: Seq<char>) -> Seq<char>
    decreases s.len(),
{
    if s.len() <= 3 {
        s
    } else {
        spec_grouped(s.take(s.len() - 3)) + seq![','] + s.skip(s.len() - 3)
    }
}

/// The byte count scaled to its display unit, in hundredths, rounding half
/// away from zero.
pub open spec fn spec_size_hundredths(i: nat) -> nat {
    (i * 100 + spec_size_unit(i) / 2) / spec_size_unit(i)
}

/// The human-readable form of a byte count: the value scaled to B / KiB /
/// MiB / GiB / TiB with two decimal places, and, when `detailed`, the exact
/// byte count with thousands separators after it.
pub open spec fn spec_format_size(i: nat, detailed: bool) -> Seq<char> {
    let h = spec_size_hundredths(i);
    let base = spec_digits(h / 100) + seq!['.', spec_digit_char((h % 100) / 10), spec_digit_char(
        h % 10,
    )] + spec_size_suffix(i);
    if detailed {
        base + seq![' ', '-', ' '] + spec_grouped(spec_digits(i)) + seq![
            ' ',
            'B',
            'y',
            't',
            'e',
            's',
        ]
    } else {
        base
    }
}

fn group_thousands(s: &String) -> (r: String)
    ensures
        r@ == spec_grouped(s@),
    decreases s@.len(),
{
    let n = s.unicode_len();
    if n <= 3 {
        s.clone()
    } else {
        let head = s.as_str().substring_char(0, n - 3).to_owned();
        let tail = s.as_str().substring_char(n - 3, n);
        proof {
            assert(head@ =~= s@.take(s@.len() - 3));
            assert(tail@ =~= s@.skip(s@.len() - 3));
        }
        let mut r = group_thousands(&head);
        proof {
            reveal_strlit(",");
        }
        r.append(",");
        r.append(tail);
        proof {
            assert(","@ =~= seq![',']);
            assert(r@ =~= spec_grouped(s@));
        }
        r
    }
}

/// Renders a byte count for display: the value scaled to its unit with two
/// decimals (rounding half away from zero, in whole integer arithmetic) and
/// the unit suffix; with `detailed`, also the exact count with thousands
/// separators.
pub fn format_size(i: u64, detailed: bool) -> (r: String)
    ensures
        r@ == spec_format_size(i as nat, detailed),
{
    let h: u64 = size_hundredths(i);
    let mut r = u64_to_string(h / 100);
    r.append(".");
    r.append(digit_str((h % 100) / 10));
    r.append(digit_str(h % 10));
    proof {
        reveal_strlit(".");
        assert("."@ =~= seq!['.']);
    }
    let suffix = if i < 1024 {
        proof {
            reveal_strlit(" B");
            assert(" B"@ =~= spec_size_suffix(i as nat));
        }
        " B"
    } else if i < 1048576 {
        proof {
            reveal_strlit(" KiB");
            assert(" KiB"@ =~= spec_size_suffix(i as nat));
        }
        " KiB"
    } else if i < 1073741824 {
        proof {
            reveal_strlit(" MiB");
            assert(" MiB"@ =~= spec_size_suffix(i as nat));
        }
        " MiB"
    } else if i < 1099511627776 {
        proof {
            reveal_strlit(" GiB");
            assert(" GiB"@ =~= spec_size_suffix(i as nat));
        }
        " GiB"
    } else {
        proof {
            reveal_strlit(" TiB");
            assert(" TiB"@ =~= spec_size_suffix(i as nat));
        }
        " TiB"
    };
    r.append(suffix);
    if detailed {
        proof {
            reveal_strlit(" - ");
            assert(" - "@ =~= seq![' ', '-', ' ']);
            reveal_strlit(" Bytes");
            assert(" Bytes"@ =~= seq![' ', 'B', 'y', 't', 'e', 's']);
        }
        r.append(" - ");
        let digits = u64_to_string(i);
        let grouped = group_thousands(&digits);
        r.append(grouped.as_str());
        r.append(" Bytes");
    }
    proof {
        assert(r@ =~= spec_format_size(i as nat, detailed));
    }
    r
}

fn size_hundredths(i: u64) -> (h: u64)
    ensures
        h == spec_size_hundredths(i as nat),
        h % 100 < 100,
{
    let unit: u64 = if i < 1024 {
        1
    } else if i < 1048576 {
        1024
    } else if i < 1073741824 {
        1048576
    } else if i < 1099511627776 {
        1073741824
    } else {
        1099511627776
    };
    let wide: u128 = ((i as u128) * 100 + (unit as u128) / 2) / (unit as u128);
    proof {
        assert((i as u128) * 100 + (unit as u128) / 2 == i as nat * 100 + unit as nat / 2);
        vstd::arithmetic::div_mod::lemma_div_is_ordered(
            (i as nat * 100 + unit as nat / 2) as int,
            (u64::MAX as nat * 100 + 549755813888) as int,
            unit as int,
        );
        if i >= 1099511627776 {
            assert((u64::MAX as nat * 100 + 549755813888) as int / 1099511627776 <= u64::MAX
                as int);
        } else {
            vstd::arithmetic::div_mod::lemma_div_is_ordered(
                (i as nat * 100 + unit as nat / 2) as int,
                (1099511627776 * 100 + 549755813888) as int,
                unit as int,
            );
            assert(unit >= 1);
            vstd::arithmetic::div_mod::lemma_div_is_ordered_by_denominator(
                (1099511627776 * 100 + 549755813888) as int,
                1,
                unit as int,
            );
        }
    }
    wide as u64
}


/// One navigation target: a directory path and the label shown for it.
#[derive(Clone)]
pub struct TabItem {
    pub internal_path: String,
    pub text: String,
    pub text_length: i32,
    pub selected: bool,
}

impl TabItem {
    /// Copies a tab item field by field.
    pub fn duplicate(&self) -> (r: TabItem)
        ensures
            r == *self,
    {
        TabItem {
            internal_path: self.internal_path.clone(),
            text: self.text.clone(),
            text_length: self.text_length,
            selected: self.selected,
        }
    }
}

/// The placeholder for an entry whose metadata could not be read; its date
/// carries the error marker.
pub fn bad_file() -> (r: FileItem)
    ensures
        r.date == -1,
        r.size == 0,
        r.path@ == "???"@,
        !r.is_dir,
        !r.is_link,
        !r.selected,
{
    FileItem {
        path: "???".to_owned(),
        file_name: "???".to_owned(),
        is_dir: false,
        size: 0,
        date: -1,
        file_type: "Unknown / Bad file".to_owned(),
        is_link: false,
        extension: "".to_owned(),
        selected: false,
    }
}

/// An empty placeholder entry.
pub fn empty_file() -> (r: FileItem)
    ensures
        r.path@.len() == 0,
        r.file_name@.len() == 0,
        r.size == 0,
        r.date == 0,
        !r.is_dir,
        !r.is_link,
        !r.selected,
{
    proof {
        reveal_strlit("");
        assert(""@.len() == 0);
    }
    FileItem {
        path: "".to_owned(),
        file_name: "".to_owned(),
        is_dir: false,
        size: 0,
        date: 0,
        file_type: "Unknown / Bad file".to_owned(),
        is_link: false,
        extension: "".to_owned(),
        selected: false,
    }
}

/// An empty placeholder entry that still carries a path.
pub fn empty_file_with_path(path: &str) -> (r: FileItem)
    ensures
        r.path@ == path@,
        r.size == 0,
        r.date == 0,
        !r.is_dir,
        !r.is_link,
        !r.selected,
{
    proof {
        reveal_strlit("");
    }
    FileItem {
        path: path.to_owned(),
        file_name: "".to_owned(),
        is_dir: false,
        size: 0,
        date: 0,
        file_type: "Unknown / Bad file".to_owned(),
        is_link: false,
        extension: "".to_owned(),
        selected: false,
    }
}

/// An ASCII lowercase letter mapped to its uppercase form; anything else
/// unchanged.
pub open spec fn spec_upper_ascii(c: char) -> char {
    if c == 'a' { 'A' } else if c == 'b' { 'B' } else if c == 'c' { 'C' }
    else if c == 'd' { 'D' } else if c == 'e' { 'E' } else if c == 'f' { 'F' }
    else if c == 'g' { 'G' } else if c == 'h' { 'H' } else if c == 'i' { 'I' }
    else if c == 'j' { 'J' } else if c == 'k' { 'K' } else if c == 'l' { 'L' }
    else if c == 'm' { 'M' } else if c == 'n' { 'N' } else if c == 'o' { 'O' }
    else if c == 'p' { 'P' } else if c == 'q' { 'Q' } else if c == 'r' { 'R' }
    else if c == 's' { 'S' } else if c == 't' { 'T' } else if c == 'u' { 'U' }
    else if c == 'v' { 'V' } else if c == 'w' { 'W' } else if c == 'x' { 'X' }
    else if c == 'y' { 'Y' } else if c == 'z' { 'Z' } else { c }
}

/// A word with its first character uppercased (ASCII letters only).
pub open spec fn spec_capitalized(s: Seq<char>) -> Seq<char> {
    if s.len() == 0 {
        s
    } else {
        seq![spec_upper_ascii(s[0])] + s.skip(1)
    }
}

fn upper_ascii_str(c: char) -> (r: Option<&'static str>)
    ensures
        match r {
            Some(t) => t@ == seq![spec_upper_ascii(c)] && spec_upper_ascii(c) != c,
            None => spec_upper_ascii(c) == c,
        },
{
    let r: Option<&'static str> = if c == 'a' { Some("A") } else if c == 'b' { Some("B") }
    else if c == 'c' { Some("C") } else if c == 'd' { Some("D") } else if c == 'e' { Some("E") }
    else if c == 'f' { Some("F") } else if c == 'g' { Some("G") } else if c == 'h' { Some("H") }
    else if c == 'i' { Some("I") } else if c == 'j' { Some("J") } else if c == 'k' { Some("K") }
    else if c == 'l' { Some("L") } else if c == 'm' { Some("M") } else if c == 'n' { Some("N") }
    else if c == 'o' { Some("O") } else if c == 'p' { Some("P") } else if c == 'q' { Some("Q") }
    else if c == 'r' { Some("R") } else if c == 's' { Some("S") } else if c == 't' { Some("T") }
    else if c == 'u' { Some("U") } else if c == 'v' { Some("V") } else if c == 'w' { Some("W") }
    else if c == 'x' { Some("X") } else if c == 'y' { Some("Y") } else if c == 'z' { Some("Z") }
    else { None };
    proof {
        reveal_strlit("A"); reveal_strlit("B"); reveal_strlit("C"); reveal_strlit("D");
        reveal_strlit("E"); reveal_strlit("F"); reveal_strlit("G"); reveal_strlit("H");
        reveal_strlit("I"); reveal_strlit("J"); reveal_strlit("K"); reveal_strlit("L");
        reveal_strlit("M"); reveal_strlit("N"); reveal_strlit("O"); reveal_strlit("P");
        reveal_strlit("Q"); reveal_strlit("R"); reveal_strlit("S"); reveal_strlit("T");
        reveal_strlit("U"); reveal_strlit("V"); reveal_strlit("W"); reveal_strlit("X");
        reveal_strlit("Y"); reveal_strlit("Z");
        if r is Some {
            assert(r->0@ =~= seq![spec_upper_ascii(c)]);
        }
    }
    r
}

/// Uppercases the first character of a word (ASCII letters; any other
/// first character is left as it is).
pub fn capitalize_first(s: &str) -> (r: String)
    ensures
        r@ == spec_capitalized(s@),
{
    let n = s.unicode_len();
    if n == 0 {
        let r = String::new();
        proof {
            assert(r@ =~= spec_capitalized(s@));
        }
        return r;
    }
    let first = s.get_char(0);
    let rest = s.substring_char(1, n);
    match upper_ascii_str(first) {
        Some(u) => {
            let mut r = u.to_owned();
            r.append(rest);
            proof {
                assert(r@ =~= spec_capitalized(s@));
            }
            r
        },
        None => {
            let r = s.to_owned();
            proof {
                assert(seq![spec_upper_ascii(s@[0])] + s@.skip(1) =~= s@);
            }
            r
        },
    }
}

/// Mount points that the sidebar never shows.
pub fn is_hidden(s: &str) -> (r: bool)
    ensures
        r == (s@ == seq!['/', 'b', 'o', 'o', 't']),
{
    proof {
        reveal_strlit("/boot");
        assert("/boot"@ =~= seq!['/', 'b', 'o', 'o', 't']);
    }
    crate::clipboard::str_eq(s, "/boot")
}

/// The index after the last slash of a path, or zero when it has none.
pub open spec fn spec_after_last_slash(s: Seq<char>) -> int
    decreases s.len(),
{
    if s.len() == 0 {
        0
    } else if s.last() == '/' {
        s.len() as int
    } else {
        spec_after_last_slash(s.drop_last())
    }
}

/// A drive's display name: the name of its last path component,
/// capitalized; the root keeps its own name.
pub open spec fn spec_drive_name(s: Seq<char>) -> Seq<char> {
    if s == seq!['/'] {
        s
    } else {
        spec_capitalized(s.skip(spec_after_last_slash(s)))
    }
}

/// Renders a mount point for the sidebar: the capitalized name of its last
/// path component; the filesystem root stays "/".
pub fn format_drive_name(s: &str) -> (r: String)
    ensures
        r@ == spec_drive_name(s@),
{
    proof {
        reveal_strlit("/");
        assert("/"@ =~= seq!['/']);
    }
    if crate::clipboard::str_eq(s, "/") {
        return s.to_owned();
    }
    let n = s.unicode_len();
    let mut cut: usize = n;
    proof {
        assert(s@.subrange(0, n as int) =~= s@);
    }
    while cut > 0 && s.get_char(cut - 1) != '/'
        invariant
            cut <= n,
            n == s@.len(),
            spec_after_last_slash(s@) == spec_after_last_slash(s@.subrange(0, cut as int)),
            forall|j: int| cut <= j < n ==> s@[j] != '/',
        decreases cut,
    {
        proof {
            assert(s@.subrange(0, cut as int).drop_last() =~= s@.subrange(0, cut as int - 1));
            assert(s@.subrange(0, cut as int).last() == s@[cut as int - 1]);
        }
        cut = cut - 1;
    }
    proof {
        if cut == 0 {
            assert(s@.subrange(0, 0) =~= Seq::<char>::empty());
        } else {
            assert(s@.subrange(0, cut as int).last() == s@[cut as int - 1]);
        }
        assert(spec_after_last_slash(s@) == cut);
    }
    let tail = s.substring_char(cut, n);
    proof {
        assert(tail@ =~= s@.skip(spec_after_last_slash(s@)));
    }
    capitalize_first(tail)
}

/// The double-click window in milliseconds.
pub const DOUBLECLICK_DELAY_MS: u64 = 500;

/// When and where the last click landed.
pub struct DoubleClickState {
    pub last_click_ms: u64,
    pub last_index: i32,
}

/// Decides whether a click at `now_ms` on row `index` completes a double
/// click: same row as the last click and within the delay. The state always
/// records the new click.
pub fn check_for_dclick(state: &mut DoubleClickState, index: i32, now_ms: u64) -> (r: bool)
    requires
        now_ms >= old(state).last_click_ms,
    ensures
        r == (index == old(state).last_index && now_ms - old(state).last_click_ms
            <= DOUBLECLICK_DELAY_MS),
        final(state).last_click_ms == now_ms,
        final(state).last_index == index,
{
    let r = index == state.last_index && now_ms - state.last_click_ms <= DOUBLECLICK_DELAY_MS;
    state.last_click_ms = now_ms;
    state.last_index = index;
    r
}

/// The parts of a timestamp in the machine's local time zone.
/// Relies on chrono's `TimeZone::timestamp_opt` on `Local` and on the
/// `Datelike`/`Timelike` accessors: month is 1 to 12, day 1 to 31, hour 0
/// to 23, minute 0 to 59; the offset itself depends on the environment, so
/// nothing is promised about the values beyond those ranges. `None` when
/// the timestamp is out of chrono's range.
#[verifier::external_body]
fn local_time_parts(secs: i64) -> (r: Option<(i32, u8, u8, u8, u8)>)
    ensures
        match r {
            Some(p) => 1 <= p.1 <= 12 && 1 <= p.2 <= 31 && p.3 < 24 && p.4 < 60,
            None => true,
        },
{
    match Local.timestamp_opt(secs, 0) {
        LocalResult::Single(t) | LocalResult::Ambiguous(t, _) => {
            Some((t.year(), t.month() as u8, t.day() as u8, t.hour() as u8, t.minute() as u8))
        },
        LocalResult::None => None,
    }
}

/// A number zero-padded to two digits.
pub open spec fn spec_two_digits(n: nat) -> Seq<char> {
    seq![spec_digit_char((n / 10) % 10), spec_digit_char(n % 10)]
}

fn two_digits(n: u64) -> (r: String)
    ensures
        r@ == spec_two_digits(n as nat),
{
    let mut r = digit_str((n / 10) % 10).to_owned();
    r.append(digit_str(n % 10));
    proof {
        assert(r@ =~= spec_two_digits(n as nat));
    }
    r
}

/// A local timestamp rendered as "year-month-day hour:minute AM/PM" with a
/// twelve-hour clock, or "ERR" when the timestamp is out of range.
pub open spec fn spec_date_string(year: int, month: nat, day: nat, hour: nat, minute: nat) -> Seq<
    char,
> {
    let hour12 = if hour % 12 == 0 {
        12
    } else {
        hour % 12
    };
    let suffix = if hour < 12 {
        seq![' ', 'A', 'M']
    } else {
        seq![' ', 'P', 'M']
    };
    spec_digits((if year >= 0 {
        year
    } else {
        0
    }) as nat) + seq!['-'] + spec_two_digits(month) + seq!['-'] + spec_two_digits(day) + seq![' ']
        + spec_two_digits(hour12) + seq![':'] + spec_two_digits(minute) + suffix
}

/// Renders the number of seconds since the epoch as a local date for
/// display. A timestamp outside the representable range renders as "ERR";
/// so do dates before the epoch year zero. Which date a timestamp names
/// depends on the machine's time zone, so the result is pinned only up to
/// the calendar fields.
pub fn format_date(secs: i64) -> (r: String)
    ensures
        r@ == seq!['E', 'R', 'R'] || exists|y: int, mo: nat, d: nat, h: nat, mi: nat|
            {
                &&& 0 <= y
                &&& 1 <= mo <= 12
                &&& 1 <= d <= 31
                &&& h < 24
                &&& mi < 60
                &&& r@ == #[trigger] spec_date_string(y, mo, d, h, mi)
            },
{
    match local_time_parts(secs) {
        None => {
            proof {
                reveal_strlit("ERR");
                assert("ERR"@ =~= seq!['E', 'R', 'R']);
            }
            "ERR".to_owned()
        },
        Some(parts) => {
            let (year, month, day, hour, minute) = parts;
            if year < 0 {
                proof {
                    reveal_strlit("ERR");
                    assert("ERR"@ =~= seq!['E', 'R', 'R']);
                }
                return "ERR".to_owned();
            }
            let hour12: u64 = if hour as u64 % 12 == 0 {
                12
            } else {
                hour as u64 % 12
            };
            proof {
                reveal_strlit("-");
                assert("-"@ =~= seq!['-']);
                reveal_strlit(" ");
                assert(" "@ =~= seq![' ']);
                reveal_strlit(":");
                assert(":"@ =~= seq![':']);
                reveal_strlit(" AM");
                assert(" AM"@ =~= seq![' ', 'A', 'M']);
                reveal_strlit(" PM");
                assert(" PM"@ =~= seq![' ', 'P', 'M']);
            }
            let mut r = u64_to_string(year as u64);
            r.append("-");
            let m2 = two_digits(month as u64);
            r.append(m2.as_str());
            r.append("-");
            let d2 = two_digits(day as u64);
            r.append(d2.as_str());
            r.append(" ");
            let h2 = two_digits(hour12);
            r.append(h2.as_str());
            r.append(":");
            let mi2 = two_digits(minute as u64);
            r.append(mi2.as_str());
            if hour < 12 {
                r.append(" AM");
            } else {
                r.append(" PM");
            }
            proof {
                assert(r@ =~= spec_date_string(
                    year as int,
                    month as nat,
                    day as nat,
                    hour as nat,
                    minute as nat,
                ));
            }
            r
        },
    }
}


/// One group from the system's group database.
pub struct Group {
    pub gid: u32,
    pub name: String,
    pub members: Vec<String>,
}

/// Builds the listing entry for one directory child from its metadata, the
/// compute half of generating a directory listing: directories report size
/// zero so they sort together, and an entry without an extension shows a
/// placeholder type.
pub fn file_item_from_metadata(
    path: String,
    file_name: String,
    is_dir: bool,
    size: i64,
    date: i64,
    is_link: bool,
    extension: String,
) -> (r: FileItem)
    ensures
        r.path == path,
        r.file_name == file_name,
        r.is_dir == is_dir,
        r.size == (if is_dir {
            0
        } else {
            size
        }),
        r.date == date,
        r.is_link == is_link,
        r.extension == extension,
        extension@.len() == 0 ==> r.file_type@ == "N/A"@,
        extension@.len() > 0 ==> r.file_type@ == extension@,
        !r.selected,
{
    let file_type = if extension.unicode_len() == 0 {
        "N/A".to_owned()
    } else {
        extension.clone()
    };
    FileItem {
        path,
        file_name,
        is_dir,
        size: if is_dir {
            0
        } else {
            size
        },
        date,
        file_type,
        is_link,
        extension,
        selected: false,
    }
}

} // verus!
