//! The HymoFS kernel control channel: the version handshake, the command
//! lines, and the projection of a module directory into commands.
//!
//! Nothing here touches the channel. The caller reads the banner and hands
//! it in; the caller writes each command line that comes out.

use vstd::prelude::*;
use vstd::string::*;
use crate::canon::texts;
use crate::paths::{join, path_join, path_strip_prefix, strip_prefix};

verus! {

/// The protocol version this library speaks.
pub const EXPECTED_PROTOCOL_VERSION: i32 = 3;

/// The state of the kernel channel, as far as the banner tells.
#[derive(Clone, Copy, Debug, PartialEq, Eq, Structural)]
pub enum HymoFsStatus {
    Available,
    NotPresent,
    KernelTooOld,
    ModuleTooOld,
}

/// The control channel's protocol. It has no state of its own.
pub struct HymoFs;

/// What kind of file a directory entry is, without following links.
#[derive(Clone, Copy, Debug, PartialEq, Eq, Structural)]
pub enum EntryKind {
    File,
    Symlink,
    Directory,
    CharDevice,
    Other,
}

/// One entry found below a module directory. `rdev` is the device number of
/// a character device; it is not read for other kinds.
pub struct ModuleEntry {
    pub path: String,
    pub kind: EntryKind,
    pub rdev: u64,
}

/// The command lines of one projection, in the order of the entries.
/// `stopped_at` is the index of the first entry that does not lie under the
/// module directory, where there is one: nothing is emitted from it on.
pub struct Projection {
    pub commands: Vec<String>,
    pub stopped_at: Option<usize>,
}

/// Where the line that holds position `from` ends: at the next line feed,
/// or at the end of the text.
pub open spec fn line_end(text: Seq<char>, from: int) -> int
    decreases text.len() - from,
{
    if from >= text.len() || text[from] == '\n' {
        from
    } else {
        line_end(text, from + 1)
    }
}

/// The first line of a text, if the text is not empty: what stands before
/// the first line feed, less a carriage return right before that line feed.
/// A last line without a line feed keeps a carriage return at its end.
pub open spec fn first_line(text: Seq<char>) -> Option<Seq<char>> {
    let end = line_end(text, 0);
    if text.len() == 0 {
        None
    } else if 0 < end < text.len() && text[end - 1] == '\r' {
        Some(text.take(end - 1))
    } else {
        Some(text.take(end))
    }
}

/// Every character is a decimal digit.
pub open spec fn all_digits(s: Seq<char>) -> bool {
    forall|i: int| 0 <= i < s.len() ==> '0' <= #[trigger] s[i] <= '9'
}

/// The number that a run of decimal digits writes.
pub open spec fn digits_value(s: Seq<char>) -> int
    decreases s.len(),
{
    if s.len() == 0 {
        0
    } else {
        digits_value(s.drop_last()) * 10 + (s.last() as u32 - '0' as u32)
    }
}

/// The digits of a signed number: the text without its sign, if it has one.
pub open spec fn unsigned_part(text: Seq<char>) -> Seq<char> {
    if text.len() > 0 && (text[0] == '-' || text[0] == '+') {
        text.skip(1)
    } else {
        text
    }
}

/// The number that a text writes: an optional `+` or `-`, then one or more
/// decimal digits and nothing else.
pub open spec fn signed_value(text: Seq<char>) -> int {
    if text.len() > 0 && text[0] == '-' {
        -digits_value(unsigned_part(text))
    } else {
        digits_value(unsigned_part(text))
    }
}

/// The 32-bit integer that a text writes, if it writes one: the text is a
/// number as above, and the number fits.
pub open spec fn parsed_i32(text: Seq<char>) -> Option<i32> {
    if unsigned_part(text).len() > 0 && all_digits(unsigned_part(text)) && i32::MIN
        <= signed_value(text) <= i32::MAX {
        Some(signed_value(text) as i32)
    } else {
        None
    }
}

/// The text that opens the banner line, before the version number.
pub open spec fn banner_prefix() -> Seq<char> {
    "HymoFS Protocol: "@
}

/// The protocol version that a banner announces, if it announces one.
pub open spec fn banner_version(content: Seq<char>) -> Option<i32> {
    match first_line(content) {
        Some(line) => if banner_prefix().is_prefix_of(line) {
            parsed_i32(line.skip(banner_prefix().len() as int))
        } else {
            None
        },
        None => None,
    }
}

/// The status that a protocol version stands for.
pub open spec fn status_of_version(version: Option<i32>) -> HymoFsStatus {
    match version {
        None => HymoFsStatus::NotPresent,
        Some(v) => if v == EXPECTED_PROTOCOL_VERSION {
            HymoFsStatus::Available
        } else if v < EXPECTED_PROTOCOL_VERSION {
            HymoFsStatus::KernelTooOld
        } else {
            HymoFsStatus::ModuleTooOld
        },
    }
}

/// The status of a channel whose banner read `control`, or that is absent or
/// unreadable (`None`).
pub open spec fn status_of(control: Option<Seq<char>>) -> HymoFsStatus {
    match control {
        None => HymoFsStatus::NotPresent,
        Some(content) => status_of_version(banner_version(content)),
    }
}

/// The character of a decimal digit.
pub open spec fn digit_char(d: nat) -> char {
    if d == 0 {
        '0'
    } else if d == 1 {
        '1'
    } else if d == 2 {
        '2'
    } else if d == 3 {
        '3'
    } else if d == 4 {
        '4'
    } else if d == 5 {
        '5'
    } else if d == 6 {
        '6'
    } else if d == 7 {
        '7'
    } else if d == 8 {
        '8'
    } else {
        '9'
    }
}

/// A number in decimal, without sign or leading zeros.
pub open spec fn decimal(n: nat) -> Seq<char>
    decreases n,
{
    if n < 10 {
        seq![digit_char(n)]
    } else {
        decimal(n / 10).push(digit_char(n % 10))
    }
}

/// `clear`
pub open spec fn clear_command() -> Seq<char> {
    "clear"@
}

/// `add <target> <source> <tag>`
pub open spec fn add_command(target: Seq<char>, source: Seq<char>, tag: u32) -> Seq<char> {
    "add "@ + target + " "@ + source + " "@ + decimal(tag as nat)
}

/// `delete <target>`
pub open spec fn delete_command(target: Seq<char>) -> Seq<char> {
    "delete "@ + target
}

/// `hide <target>`
pub open spec fn hide_command(target: Seq<char>) -> Seq<char> {
    "hide "@ + target
}

/// `inject <dir>`
pub open spec fn inject_command(dir: Seq<char>) -> Seq<char> {
    "inject "@ + dir
}

/// Where an entry of the module directory lands under the target base: its
/// path relative to the module directory, joined to the base. `None` if the
/// entry does not lie under the module directory.
pub open spec fn retargeted(target_base: Seq<char>, module_dir: Seq<char>, path: Seq<char>)
    -> Option<Seq<char>> {
    match path_strip_prefix(path, module_dir) {
        Some(rel) => Some(path_join(target_base, rel)),
        None => None,
    }
}

/// The command that projects one entry onto `target`, if its kind calls for
/// one: files and links are substituted, a character device with device
/// number zero hides its target, a directory becomes an injection boundary.
pub open spec fn rule_for(kind: EntryKind, rdev: u64, target: Seq<char>, source: Seq<char>)
    -> Option<Seq<char>> {
    match kind {
        EntryKind::File => Some(add_command(target, source, 8)),
        EntryKind::Symlink => Some(add_command(target, source, 10)),
        EntryKind::CharDevice => if rdev == 0 {
            Some(hide_command(target))
        } else {
            None
        },
        EntryKind::Directory => Some(inject_command(target)),
        EntryKind::Other => None,
    }
}

/// The commands of one entry when projecting: none or one.
pub open spec fn inject_lines(target_base: Seq<char>, module_dir: Seq<char>, e: ModuleEntry)
    -> Seq<Seq<char>> {
    match retargeted(target_base, module_dir, e.path@) {
        Some(target) => match rule_for(e.kind, e.rdev, target, e.path@) {
            Some(line) => seq![line],
            None => Seq::empty(),
        },
        None => Seq::empty(),
    }
}

/// The commands of one entry when unprojecting: one delete.
pub open spec fn delete_lines(target_base: Seq<char>, module_dir: Seq<char>, e: ModuleEntry)
    -> Seq<Seq<char>> {
    match retargeted(target_base, module_dir, e.path@) {
        Some(target) => seq![delete_command(target)],
        None => Seq::empty(),
    }
}

/// The commands that project the entries, entry by entry.
pub open spec fn injected(target_base: Seq<char>, module_dir: Seq<char>, entries: Seq<ModuleEntry>)
    -> Seq<Seq<char>>
    decreases entries.len(),
{
    if entries.len() == 0 {
        Seq::empty()
    } else {
        injected(target_base, module_dir, entries.drop_last()) + inject_lines(
            target_base,
            module_dir,
            entries.last(),
        )
    }
}

/// The commands that unproject the entries, entry by entry.
pub open spec fn deleted(target_base: Seq<char>, module_dir: Seq<char>, entries: Seq<ModuleEntry>)
    -> Seq<Seq<char>>
    decreases entries.len(),
{
    if entries.len() == 0 {
        Seq::empty()
    } else {
        deleted(target_base, module_dir, entries.drop_last()) + delete_lines(
            target_base,
            module_dir,
            entries.last(),
        )
    }
}

/// The first `n` entries lie under the module directory, and `n` is where
/// the walk stopped: at the first entry that does not, or at the end.
pub open spec fn walked(
    module_dir: Seq<char>,
    entries: Seq<ModuleEntry>,
    stopped_at: Option<usize>,
    n: int,
) -> bool {
    &&& 0 <= n <= entries.len()
    &&& forall|i: int| 0 <= i < n ==> path_strip_prefix(#[trigger] entries[i].path@, module_dir).is_some()
    &&& match stopped_at {
        Some(at) => at == n && n < entries.len() && path_strip_prefix(
            entries[n].path@,
            module_dir,
        ).is_none(),
        None => n == entries.len(),
    }
}

/// How many entries a projection covered.
pub open spec fn covered(entries: Seq<ModuleEntry>, stopped_at: Option<usize>) -> int {
    match stopped_at {
        Some(at) => at as int,
        None => entries.len() as int,
    }
}

/// The first line of a text, without its line ending.
pub fn take_first_line<'a>(text: &'a str) -> (r: Option<&'a str>)
    ensures
        match r {
            Some(line) => first_line(text@) == Some(line@),
            None => first_line(text@).is_none(),
        },
{
    let n: usize = text.unicode_len();
    if n == 0 {
        return None;
    }
    let mut end: usize = 0;
    while end < n && text.get_char(end) != '\n'
        invariant
            n == text@.len(),
            end <= n,
            line_end(text@, 0) == line_end(text@, end as int),
        decreases n - end,
    {
        end += 1;
    }
    assert(line_end(text@, 0) == end);
    if 0 < end && end < n && text.get_char(end - 1) == '\r' {
        assert(text@.take(end - 1) =~= text@.subrange(0, end - 1));
        Some(text.substring_char(0, end - 1))
    } else {
        assert(text@.take(end as int) =~= text@.subrange(0, end as int));
        Some(text.substring_char(0, end))
    }
}

/// What follows `prefix` in `line`, if `line` starts with it.
pub fn strip_text_prefix<'a>(line: &'a str, prefix: &str) -> (r: Option<&'a str>)
    ensures
        r.is_some() == prefix@.is_prefix_of(line@),
        r matches Some(rest) ==> rest@ == line@.skip(prefix@.len() as int),
{
    let n: usize = prefix.unicode_len();
    let m: usize = line.unicode_len();
    if n > m {
        return None;
    }
    let mut i: usize = 0;
    while i < n
        invariant
            n == prefix@.len(),
            m == line@.len(),
            n <= m,
            i <= n,
            forall|k: int| 0 <= k < i ==> line@[k] == prefix@[k],
        decreases n - i,
    {
        if line.get_char(i) != prefix.get_char(i) {
            assert(line@.subrange(0, n as int)[i as int] != prefix@[i as int]);
            return None;
        }
        i += 1;
    }
    assert(prefix@ =~= line@.subrange(0, n as int));
    assert(line@.skip(n as int) =~= line@.subrange(n as int, m as int));
    Some(line.substring_char(n, m))
}

/// A run of digits writes no negative number.
pub proof fn lemma_digits_value_nonnegative(s: Seq<char>)
    requires
        all_digits(s),
    ensures
        digits_value(s) >= 0,
    decreases s.len(),
{
    if s.len() > 0 {
        assert(all_digits(s.drop_last())) by {
            assert forall|i: int| 0 <= i < s.drop_last().len() implies '0'
                <= #[trigger] s.drop_last()[i] <= '9' by {
                assert(s.drop_last()[i] == s[i]);
            }
        }
        lemma_digits_value_nonnegative(s.drop_last());
        assert('0' <= s[s.len() - 1] <= '9');
    }
}

/// A run of digits writes at least what any of its prefixes writes.
pub proof fn lemma_digits_value_grows(s: Seq<char>, k: int)
    requires
        all_digits(s),
        0 <= k <= s.len(),
    ensures
        0 <= digits_value(s.take(k)) <= digits_value(s),
    decreases s.len() - k,
{
    assert(all_digits(s.take(k))) by {
        assert forall|i: int| 0 <= i < s.take(k).len() implies '0' <= #[trigger] s.take(k)[i]
            <= '9' by {
            assert(s.take(k)[i] == s[i]);
        }
    }
    lemma_digits_value_nonnegative(s.take(k));
    if k < s.len() {
        lemma_digits_value_grows(s, k + 1);
        assert(s.take(k + 1).drop_last() =~= s.take(k));
        assert(s.take(k + 1).last() == s[k]);
        assert('0' <= s[k] <= '9');
    } else {
        assert(s.take(k) =~= s);
    }
}

/// Reads a 32-bit integer: an optional sign, then decimal digits and nothing
/// else; a number that does not fit is not read.
pub fn parse_version(text: &str) -> (r: Option<i32>)
    ensures
        r == parsed_i32(text@),
{
    let n: usize = text.unicode_len();
    if n == 0 {
        return None;
    }
    let first: char = text.get_char(0);
    let negative: bool = first == '-';
    let start: usize = if first == '-' || first == '+' {
        1
    } else {
        0
    };
    let ghost body = unsigned_part(text@);
    assert(body =~= text@.skip(start as int));
    if start == n {
        return None;
    }
    let mut acc: i64 = 0;
    let mut i: usize = start;
    assert(body.take(0) =~= Seq::<char>::empty());
    while i < n
        invariant
            start <= i <= n,
            n == text@.len(),
            body == text@.skip(start as int),
            body == unsigned_part(text@),
            all_digits(body.take(i - start)),
            acc == digits_value(body.take(i - start)),
            0 <= acc <= 2147483648,
        decreases n - i,
    {
        let c: char = text.get_char(i);
        assert(body[i - start] == c);
        if c < '0' || c > '9' {
            return None;
        }
        let d: i64 = (c as u32 - '0' as u32) as i64;
        let next: i64 = acc * 10 + d;
        proof {
            let p = body.take(i - start + 1);
            assert(p.drop_last() =~= body.take(i - start));
            assert(p.last() == c);
            assert(next == digits_value(p));
            assert forall|k: int| 0 <= k < p.len() implies '0' <= #[trigger] p[k] <= '9' by {
                if k < i - start {
                    assert(body.take(i - start)[k] == p[k]);
                }
            }
            if all_digits(body) {
                lemma_digits_value_grows(body, i - start + 1);
            }
        }
        if next > 2147483648 {
            return None;
        }
        acc = next;
        i += 1;
    }
    assert(body.take(n - start) =~= body);
    if negative {
        let v: i64 = -acc;
        Some(v as i32)
    } else if acc > 2147483647 {
        None
    } else {
        Some(acc as i32)
    }
}

/// The digit `d` as text.
pub fn digit_text(d: u32) -> (r: &'static str)
    requires
        d < 10,
    ensures
        r@ == seq![digit_char(d as nat)],
{
    proof {
        reveal_strlit("0");
        reveal_strlit("1");
        reveal_strlit("2");
        reveal_strlit("3");
        reveal_strlit("4");
        reveal_strlit("5");
        reveal_strlit("6");
        reveal_strlit("7");
        reveal_strlit("8");
        reveal_strlit("9");
    }
    let r = if d == 0 {
        "0"
    } else if d == 1 {
        "1"
    } else if d == 2 {
        "2"
    } else if d == 3 {
        "3"
    } else if d == 4 {
        "4"
    } else if d == 5 {
        "5"
    } else if d == 6 {
        "6"
    } else if d == 7 {
        "7"
    } else if d == 8 {
        "8"
    } else {
        "9"
    };
    assert(r@ =~= seq![digit_char(d as nat)]);
    r
}

/// A type tag in decimal, without sign or leading zeros.
pub fn tag_text(tag: u32) -> (r: String)
    ensures
        r@ == decimal(tag as nat),
    decreases tag,
{
    if tag < 10 {
        String::from_str(digit_text(tag))
    } else {
        let mut r = tag_text(tag / 10);
        r.append(digit_text(tag % 10));
        assert(r@ =~= decimal(tag as nat / 10).push(digit_char(tag as nat % 10)));
        r
    }
}

impl HymoFs {
    /// Reads the protocol version off the channel's banner: the first line
    /// must be the banner prefix followed by an integer.
    pub fn get_protocol_version(content: &str) -> (r: Option<i32>)
        ensures
            r == banner_version(content@),
    {
        match take_first_line(content) {
            Some(line) => match strip_text_prefix(line, "HymoFS Protocol: ") {
                Some(rest) => parse_version(rest),
                None => None,
            },
            None => None,
        }
    }

    /// The status that a protocol version stands for: no version means the
    /// channel is not present; the expected version means it is available; a
    /// lower one that the kernel is too old, a higher one that this module is.
    pub fn status_for_version(version: Option<i32>) -> (r: HymoFsStatus)
        ensures
            r == status_of_version(version),
            r == HymoFsStatus::Available <==> version == Some(EXPECTED_PROTOCOL_VERSION),
            r == HymoFsStatus::NotPresent <==> version.is_none(),
            r == HymoFsStatus::KernelTooOld <==> version.is_some() && version.unwrap()
                < EXPECTED_PROTOCOL_VERSION,
            r == HymoFsStatus::ModuleTooOld <==> version.is_some() && version.unwrap()
                > EXPECTED_PROTOCOL_VERSION,
    {
        match version {
            None => HymoFsStatus::NotPresent,
            Some(v) => {
                if v == EXPECTED_PROTOCOL_VERSION {
                    HymoFsStatus::Available
                } else if v < EXPECTED_PROTOCOL_VERSION {
                    HymoFsStatus::KernelTooOld
                } else {
                    HymoFsStatus::ModuleTooOld
                }
            },
        }
    }

    /// The status of the channel. `control` is what was read from the control
    /// path, or `None` if the path is absent or cannot be read.
    pub fn check_status(control: Option<&str>) -> (r: HymoFsStatus)
        ensures
            r == status_of(
                match control {
                    Some(content) => Some(content@),
                    None => None,
                },
            ),
            control.is_none() ==> r == HymoFsStatus::NotPresent,
    {
        match control {
            None => HymoFsStatus::NotPresent,
            Some(content) => Self::status_for_version(Self::get_protocol_version(content)),
        }
    }

    /// Whether the channel is there and speaks the expected version.
    pub fn is_available(control: Option<&str>) -> (r: bool)
        ensures
            r == (status_of(
                match control {
                    Some(content) => Some(content@),
                    None => None,
                },
            ) == HymoFsStatus::Available),
    {
        Self::check_status(control) == HymoFsStatus::Available
    }

    /// The command that clears all rules.
    pub fn clear() -> (line: String)
        ensures
            line@ == clear_command(),
    {
        String::from_str("clear")
    }

    /// The command that redirects `target` to `source`, with a type tag
    /// (0 if none is given).
    pub fn add_rule(target: &str, source: &str, file_type: Option<u32>) -> (line: String)
        ensures
            line@ == add_command(
                target@,
                source@,
                match file_type {
                    Some(tag) => tag,
                    None => 0,
                },
            ),
    {
        let tag: u32 = match file_type {
            Some(tag) => tag,
            None => 0,
        };
        let digits = tag_text(tag);
        let mut line = String::from_str("add ");
        line.append(target);
        line.append(" ");
        line.append(source);
        line.append(" ");
        line.append(digits.as_str());
        line
    }

    /// The command that deletes the rule of `target`.
    pub fn delete_rule(target: &str) -> (line: String)
        ensures
            line@ == delete_command(target@),
    {
        let mut line = String::from_str("delete ");
        line.append(target);
        line
    }

    /// The command that hides `path`.
    pub fn hide_path(path: &str) -> (line: String)
        ensures
            line@ == hide_command(path@),
    {
        let mut line = String::from_str("hide ");
        line.append(path);
        line
    }

    /// The command that marks `dir` as an injection boundary.
    pub fn inject_dir(dir: &str) -> (line: String)
        ensures
            line@ == inject_command(dir@),
    {
        let mut line = String::from_str("inject ");
        line.append(dir);
        line
    }

    /// Where an entry of the module directory lands under the target base,
    /// or `None` if it does not lie under the module directory.
    pub fn retarget(target_base: &str, module_dir: &str, path: &str) -> (r: Option<String>)
        ensures
            crate::paths::opt_text(r) == retargeted(target_base@, module_dir@, path@),
    {
        match strip_prefix(path, module_dir) {
            Some(rel) => Some(join(target_base, rel.as_str())),
            None => None,
        }
    }

    /// The command that projects one entry onto `target`, if its kind calls
    /// for one.
    pub fn entry_rule(entry: &ModuleEntry, target: &str) -> (r: Option<String>)
        ensures
            crate::paths::opt_text(r) == rule_for(entry.kind, entry.rdev, target@, entry.path@),
    {
        match entry.kind {
            EntryKind::File => Some(Self::add_rule(target, entry.path.as_str(), Some(8))),
            EntryKind::Symlink => Some(Self::add_rule(target, entry.path.as_str(), Some(10))),
            EntryKind::CharDevice => {
                if entry.rdev == 0 {
                    Some(Self::hide_path(target))
                } else {
                    None
                }
            },
            EntryKind::Directory => Some(Self::inject_dir(target)),
            EntryKind::Other => None,
        }
    }

    /// Projects a module directory onto a target base.
    ///
    /// `listing` holds every entry below the module directory, the directory
    /// itself left out, or is `None` if the module directory does not exist
    /// or is no directory: then nothing is emitted. Otherwise the target base
    /// is marked as an injection boundary first, and each entry follows with
    /// its command, if its kind has one, in the order of the listing, up to
    /// the first entry that does not lie under the module directory.
    pub fn inject_directory(
        target_base: &str,
        module_dir: &str,
        listing: Option<&Vec<ModuleEntry>>,
    ) -> (r: Projection)
        ensures
            listing.is_none() ==> r.commands@.len() == 0 && r.stopped_at.is_none(),
            listing matches Some(entries) ==> {
                &&& walked(module_dir@, entries@, r.stopped_at, covered(entries@, r.stopped_at))
                &&& texts(r.commands@) == seq![inject_command(target_base@)] + injected(
                    target_base@,
                    module_dir@,
                    entries@.take(covered(entries@, r.stopped_at)),
                )
            },
    {
        let mut commands: Vec<String> = Vec::new();
        let entries = match listing {
            None => {
                return Projection { commands, stopped_at: None };
            },
            Some(entries) => entries,
        };
        commands.push(Self::inject_dir(target_base));
        assert(texts(commands@) =~= seq![inject_command(target_base@)]);
        assert(entries@.take(0).len() == 0);
        let mut i: usize = 0;
        while i < entries.len()
            invariant
                listing == Some(entries),
                i <= entries.len(),
                forall|k: int|
                    0 <= k < i ==> path_strip_prefix(
                        #[trigger] entries[k].path@,
                        module_dir@,
                    ).is_some(),
                texts(commands@) == seq![inject_command(target_base@)] + injected(
                    target_base@,
                    module_dir@,
                    entries@.take(i as int),
                ),
            decreases entries.len() - i,
        {
            let ghost before = texts(commands@);
            let entry = &entries[i];
            let target = match Self::retarget(target_base, module_dir, entry.path.as_str()) {
                Some(target) => target,
                None => {
                    return Projection { commands, stopped_at: Some(i) };
                },
            };
            match Self::entry_rule(entry, target.as_str()) {
                Some(line) => {
                    commands.push(line);
                },
                None => {},
            }
            proof {
                let next = entries@.take(i as int + 1);
                assert(next.drop_last() =~= entries@.take(i as int));
                assert(next.last() == entries[i as int]);
                assert(texts(commands@) =~= before + inject_lines(
                    target_base@,
                    module_dir@,
                    entries[i as int],
                ));
                assert(texts(commands@) =~= seq![inject_command(target_base@)] + injected(
                    target_base@,
                    module_dir@,
                    next,
                ));
            }
            i += 1;
        }
        Projection { commands, stopped_at: None }
    }

    /// Withdraws the projection of a module directory: one delete per entry
    /// of the listing, whatever its kind, in the order of the listing, up to
    /// the first entry that does not lie under the module directory. With no
    /// listing (the module directory does not exist or is no directory)
    /// nothing is emitted.
    pub fn delete_directory_rules(
        target_base: &str,
        module_dir: &str,
        listing: Option<&Vec<ModuleEntry>>,
    ) -> (r: Projection)
        ensures
            listing.is_none() ==> r.commands@.len() == 0 && r.stopped_at.is_none(),
            listing matches Some(entries) ==> {
                &&& walked(module_dir@, entries@, r.stopped_at, covered(entries@, r.stopped_at))
                &&& texts(r.commands@) == deleted(
                    target_base@,
                    module_dir@,
                    entries@.take(covered(entries@, r.stopped_at)),
                )
                &&& r.commands@.len() == covered(entries@, r.stopped_at)
            },
    {
        let mut commands: Vec<String> = Vec::new();
        let entries = match listing {
            None => {
                return Projection { commands, stopped_at: None };
            },
            Some(entries) => entries,
        };
        assert(texts(commands@) =~= Seq::<Seq<char>>::empty());
        assert(entries@.take(0).len() == 0);
        let mut i: usize = 0;
        while i < entries.len()
            invariant
                listing == Some(entries),
                i <= entries.len(),
                commands@.len() == i,
                forall|k: int|
                    0 <= k < i ==> path_strip_prefix(
                        #[trigger] entries[k].path@,
                        module_dir@,
                    ).is_some(),
                texts(commands@) == deleted(target_base@, module_dir@, entries@.take(i as int)),
            decreases entries.len() - i,
        {
            let ghost before = texts(commands@);
            let entry = &entries[i];
            let target = match Self::retarget(target_base, module_dir, entry.path.as_str()) {
                Some(target) => target,
                None => {
                    return Projection { commands, stopped_at: Some(i) };
                },
            };
            commands.push(Self::delete_rule(target.as_str()));
            proof {
                let next = entries@.take(i as int + 1);
                assert(next.drop_last() =~= entries@.take(i as int));
                assert(next.last() == entries[i as int]);
                assert(texts(commands@) =~= before + delete_lines(
                    target_base@,
                    module_dir@,
                    entries[i as int],
                ));
            }
            i += 1;
        }
        Projection { commands, stopped_at: None }
    }
}

} // verus!
