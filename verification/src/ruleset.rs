//! The format of magic files.
//!
//! ```text
//! file  := "MIME-Magic\0\n" entry*
//! entry := "[" priority ":" mime "]\n" rule*
//! rule  := indent ">" offset "=" u16_be(len) byte{len}
//!          ["&" byte{len}] ["~" uint] ["+" uint] "\n"
//! ```
//!
//! Numbers are ASCII decimal. A missing indent or offset is 0, a missing word
//! size or region length is 1, a missing mask means no masking.

use vstd::prelude::*;
use vstd::utf8::{valid_utf8, decode_utf8, encode_utf8};
use vstd::slice::slice_subrange;
use vstd::string::StringExecFns;
use crate::magic::{MagicRule, RuleModel, models, is_canonical, all_canonical};

verus! {

/// Why a magic file could not be read further, and where.
#[derive(Debug, Clone, Copy, PartialEq, Eq, Structural)]
pub enum MagicRuleParseError {
    /// The input does not begin with the header of a magic file.
    MissingHeader { offset: usize },
    /// The priority of an entry is missing or too large.
    BadPriority { offset: usize },
    /// The type name of an entry is not UTF-8.
    BadMimeType { offset: usize },
    /// The byte `byte` is due at `offset`, and something else is there, or
    /// the input ends.
    Expected { offset: usize, byte: u8 },
    /// The input ends before the bytes of a length, literal or mask that
    /// begins at `offset` are complete.
    Truncated { offset: usize },
}

impl MagicRuleParseError {
    /// The place in the input at which reading stopped.
    pub open spec fn spec_offset(&self) -> usize {
        match self {
            MagicRuleParseError::MissingHeader { offset } => *offset,
            MagicRuleParseError::BadPriority { offset } => *offset,
            MagicRuleParseError::BadMimeType { offset } => *offset,
            MagicRuleParseError::Expected { offset, byte } => *offset,
            MagicRuleParseError::Truncated { offset } => *offset,
        }
    }

    /// The place in the input at which reading stopped.
    pub fn offset(&self) -> (offset: usize)
        ensures
            offset == self.spec_offset(),
    {
        match self {
            MagicRuleParseError::MissingHeader { offset } => *offset,
            MagicRuleParseError::BadPriority { offset } => *offset,
            MagicRuleParseError::BadMimeType { offset } => *offset,
            MagicRuleParseError::Expected { offset, byte } => *offset,
            MagicRuleParseError::Truncated { offset } => *offset,
        }
    }
}

/// What reading one item at some place gives: the item and the place after
/// it, or an error.
pub enum Parsed<T> {
    Done { value: T, next: int },
    Failed { error: MagicRuleParseError },
}

/// The header that every magic file begins with.
pub open spec fn header() -> Seq<u8> {
    seq![0x4du8, 0x49, 0x4d, 0x45, 0x2d, 0x4d, 0x61, 0x67, 0x69, 0x63, 0x00, 0x0a]
}

/// An ASCII decimal digit.
pub open spec fn is_digit(b: u8) -> bool {
    0x30 <= b <= 0x39
}

/// All bytes are decimal digits.
pub open spec fn all_digits(s: Seq<u8>) -> bool {
    forall|i: int| 0 <= i < s.len() ==> is_digit(#[trigger] s[i])
}

/// The number that a string of decimal digits denotes.
pub open spec fn decimal(s: Seq<u8>) -> nat
    decreases s.len(),
{
    if s.len() == 0 {
        0
    } else {
        decimal(s.drop_last()) * 10 + (s.last() - 0x30) as nat
    }
}

/// The number that `s` denotes, where `s` is a non-empty string of decimal
/// digits whose number fits 32 bits; `def` otherwise.
pub open spec fn number_or(s: Seq<u8>, def: u32) -> u32 {
    if s.len() > 0 && all_digits(s) && decimal(s) <= u32::MAX {
        decimal(s) as u32
    } else {
        def
    }
}

/// The first place from `pos` on that holds no digit.
pub open spec fn digits_end(s: Seq<u8>, pos: int) -> int
    decreases s.len() - pos,
{
    if 0 <= pos < s.len() && is_digit(s[pos]) {
        digits_end(s, pos + 1)
    } else {
        pos
    }
}

/// The first place from `pos` on that holds `b`, or the length of `s`.
pub open spec fn find_byte(s: Seq<u8>, pos: int, b: u8) -> int
    decreases s.len() - pos,
{
    if 0 <= pos < s.len() && s[pos] != b {
        find_byte(s, pos + 1, b)
    } else if pos < s.len() {
        pos
    } else {
        s.len() as int
    }
}

/// The byte `b` stands at `pos`.
pub open spec fn byte_at(s: Seq<u8>, pos: int, b: u8) -> bool {
    0 <= pos < s.len() && s[pos] == b
}

/// A longer digit string denotes no smaller number than its beginning.
proof fn lemma_decimal_grows(s: Seq<u8>, k: int)
    requires
        0 <= k <= s.len(),
        all_digits(s),
    ensures
        decimal(s.take(k)) <= decimal(s),
    decreases s.len() - k,
{
    if k < s.len() {
        let t = s.drop_last();
        assert(all_digits(t)) by {
            assert forall|i: int| 0 <= i < t.len() implies is_digit(#[trigger] t[i]) by {
                assert(t[i] == s[i]);
            }
        }
        assert(is_digit(s[s.len() - 1]));
        assert(t.take(k) =~= s.take(k));
        lemma_decimal_grows(t, k);
    } else {
        assert(s.take(k) =~= s);
    }
}

/// Reads an ASCII decimal number; `def` where the bytes are no such number
/// or the number does not fit 32 bits.
pub fn buf_to_u32(s: &[u8], def: u32) -> (n: u32)
    ensures
        n == number_or(s@, def),
{
    match to_number(s) {
        Some(n) => n,
        None => def,
    }
}

/// Reads an ASCII decimal number: at least one digit, nothing but digits,
/// and a number that fits 32 bits.
pub fn to_number(s: &[u8]) -> (n: Option<u32>)
    ensures
        n is Some <==> s@.len() > 0 && all_digits(s@) && decimal(s@) <= u32::MAX,
        n matches Some(v) ==> v == decimal(s@),
{
    let len: usize = s.len();
    if len == 0 {
        return None;
    }
    let mut acc: u64 = 0;
    let mut i: usize = 0;
    while i < len
        invariant
            len == s.len(),
            i <= len,
            all_digits(s@.take(i as int)),
            acc == decimal(s@.take(i as int)),
            acc <= u32::MAX,
        decreases len - i,
    {
        let b: u8 = s[i];
        if b < 0x30 || b > 0x39 {
            assert(!is_digit(s@[i as int]));
            return None;
        }
        proof {
            assert(s@.take(i + 1).drop_last() =~= s@.take(i as int));
            assert(s@.take(i + 1).last() == b);
            assert forall|k: int| 0 <= k < i + 1 implies is_digit(#[trigger] s@.take(i + 1)[k]) by {
                if k < i {
                    assert(s@.take(i as int)[k] == s@[k]);
                }
            }
        }
        let next: u64 = acc * 10 + (b - 0x30) as u64;
        if next > u32::MAX as u64 {
            proof {
                if all_digits(s@) {
                    lemma_decimal_grows(s@, i + 1);
                }
            }
            return None;
        }
        acc = next;
        i = i + 1;
    }
    assert(s@.take(len as int) =~= s@);
    Some(acc as u32)
}

/// The place after the digits that begin at `pos`.
pub fn scan_digits(input: &[u8], pos: usize) -> (end: usize)
    requires
        pos <= input.len(),
    ensures
        end == digits_end(input@, pos as int),
        pos <= end <= input.len(),
        all_digits(input@.subrange(pos as int, end as int)),
{
    let len: usize = input.len();
    let mut end: usize = pos;
    while end < len && input[end] >= 0x30 && input[end] <= 0x39
        invariant
            len == input.len(),
            pos <= end <= len,
            digits_end(input@, pos as int) == digits_end(input@, end as int),
            forall|k: int| pos <= k < end ==> is_digit(#[trigger] input@[k]),
        decreases len - end,
    {
        end = end + 1;
    }
    end
}

/// The place of the first `b` from `pos` on, or the length of the input.
pub fn scan_to(input: &[u8], pos: usize, b: u8) -> (end: usize)
    requires
        pos <= input.len(),
    ensures
        end == find_byte(input@, pos as int, b),
        pos <= end <= input.len(),
{
    let len: usize = input.len();
    let mut end: usize = pos;
    while end < len && input[end] != b
        invariant
            len == input.len(),
            pos <= end <= len,
            find_byte(input@, pos as int, b) == find_byte(input@, end as int, b),
        decreases len - end,
    {
        end = end + 1;
    }
    end
}

/// The bytes of the input from `from` up to `to`, copied.
pub fn copy_range(input: &[u8], from: usize, to: usize) -> (out: Vec<u8>)
    requires
        from <= to <= input.len(),
    ensures
        out@ == input@.subrange(from as int, to as int),
{
    let mut out: Vec<u8> = Vec::new();
    let mut i: usize = from;
    while i < to
        invariant
            from <= i <= to,
            to <= input.len(),
            out@ == input@.subrange(from as int, i as int),
        decreases to - i,
    {
        out.push(input[i]);
        assert(out@ =~= input@.subrange(from as int, i + 1));
        i = i + 1;
    }
    out
}


/// `String::from_utf8`: succeeds exactly on valid UTF-8, and the text it
/// gives is what the bytes encode.
#[verifier::external_body]
pub(crate) fn string_from_utf8(bytes: Vec<u8>) -> (text: Option<String>)
    ensures
        text is Some <==> valid_utf8(bytes@),
        text matches Some(t) ==> t@ == decode_utf8(bytes@),
{
    match String::from_utf8(bytes) {
        Ok(text) => Some(text),
        Err(_) => None,
    }
}

/// The head of an entry: a type and its priority.
pub struct PrioMime {
    pub priority: u32,
    pub mime_type: String,
}

/// What the input holds at `pos` if read as the head of an entry,
/// `[priority:type]` and a line end.
pub open spec fn spec_section(s: Seq<u8>, pos: int) -> Parsed<(u32, Seq<char>)> {
    let d = digits_end(s, pos + 1);
    let digits = s.subrange(pos + 1, d);
    let close = find_byte(s, d + 1, 0x5d);
    let name = s.subrange(d + 1, close);
    if !byte_at(s, pos, 0x5b) {
        Parsed::Failed { error: MagicRuleParseError::Expected { offset: pos as usize, byte: 0x5b } }
    } else if digits.len() == 0 || decimal(digits) > u32::MAX {
        Parsed::Failed { error: MagicRuleParseError::BadPriority { offset: (pos + 1) as usize } }
    } else if !byte_at(s, d, 0x3a) {
        Parsed::Failed { error: MagicRuleParseError::Expected { offset: d as usize, byte: 0x3a } }
    } else if close >= s.len() {
        Parsed::Failed { error: MagicRuleParseError::Expected { offset: s.len() as usize, byte: 0x5d } }
    } else if !valid_utf8(name) {
        Parsed::Failed { error: MagicRuleParseError::BadMimeType { offset: (d + 1) as usize } }
    } else if !byte_at(s, close + 1, 0x0a) {
        Parsed::Failed {
            error: MagicRuleParseError::Expected { offset: (close + 1) as usize, byte: 0x0a },
        }
    } else {
        Parsed::Done { value: (decimal(digits) as u32, decode_utf8(name)), next: close + 2 }
    }
}

/// What the input holds at `pos` if read as one rule line.
pub open spec fn spec_rule(s: Seq<u8>, pos: int) -> Parsed<RuleModel> {
    let d1 = digits_end(s, pos);
    let d2 = digits_end(s, d1 + 1);
    let vlen = s[d2 + 1] as int * 256 + s[d2 + 2] as int;
    let v0 = d2 + 3;
    let v1 = v0 + vlen;
    let masked = byte_at(s, v1, 0x26);
    let m1 = if masked {
        v1 + 1 + vlen
    } else {
        v1
    };
    let worded = byte_at(s, m1, 0x7e);
    let w1 = if worded {
        digits_end(s, m1 + 1)
    } else {
        m1
    };
    let regioned = byte_at(s, w1, 0x2b);
    let r1 = if regioned {
        digits_end(s, w1 + 1)
    } else {
        w1
    };
    if !byte_at(s, d1, 0x3e) {
        Parsed::Failed { error: MagicRuleParseError::Expected { offset: d1 as usize, byte: 0x3e } }
    } else if !byte_at(s, d2, 0x3d) {
        Parsed::Failed { error: MagicRuleParseError::Expected { offset: d2 as usize, byte: 0x3d } }
    } else if v0 > s.len() {
        Parsed::Failed { error: MagicRuleParseError::Truncated { offset: (d2 + 1) as usize } }
    } else if v1 > s.len() {
        Parsed::Failed { error: MagicRuleParseError::Truncated { offset: v0 as usize } }
    } else if masked && m1 > s.len() {
        Parsed::Failed { error: MagicRuleParseError::Truncated { offset: (v1 + 1) as usize } }
    } else if !byte_at(s, r1, 0x0a) {
        Parsed::Failed { error: MagicRuleParseError::Expected { offset: r1 as usize, byte: 0x0a } }
    } else {
        Parsed::Done {
            value: RuleModel {
                indent_level: number_or(s.subrange(pos, d1), 0),
                start_off: number_or(s.subrange(d1 + 1, d2), 0),
                val: s.subrange(v0, v1),
                mask: if masked {
                    s.subrange(v1 + 1, m1)
                } else {
                    Seq::empty()
                },
                word_len: if worded {
                    number_or(s.subrange(m1 + 1, w1), 1)
                } else {
                    1
                },
                region_len: if regioned {
                    number_or(s.subrange(w1 + 1, r1), 1)
                } else {
                    1
                },
            },
            next: r1 + 1,
        }
    }
}

/// Reads the head of an entry at `pos`: `[priority:type]` and a line end.
pub fn parse_mime(input: &[u8], pos: usize) -> (head: Result<(PrioMime, usize), MagicRuleParseError>)
    requires
        pos <= input.len(),
    ensures
        match head {
            Ok((head, next)) => spec_section(input@, pos as int) == (Parsed::Done {
                value: (head.priority, head.mime_type@),
                next: next as int,
            }) && pos < next <= input.len(),
            Err(error) => spec_section(input@, pos as int) == (Parsed::<(u32, Seq<char>)>::Failed {
                error,
            }),
        },
{
    let len: usize = input.len();
    if pos >= len || input[pos] != 0x5b {
        return Err(MagicRuleParseError::Expected { offset: pos, byte: 0x5b });
    }
    let d: usize = scan_digits(input, pos + 1);
    let priority = match to_number(slice_subrange(input, pos + 1, d)) {
        Some(p) => p,
        None => {
            return Err(MagicRuleParseError::BadPriority { offset: pos + 1 });
        },
    };
    if d >= len || input[d] != 0x3a {
        return Err(MagicRuleParseError::Expected { offset: d, byte: 0x3a });
    }
    let close: usize = scan_to(input, d + 1, 0x5d);
    if close >= len {
        return Err(MagicRuleParseError::Expected { offset: len, byte: 0x5d });
    }
    let mime_type = match string_from_utf8(copy_range(input, d + 1, close)) {
        Some(t) => t,
        None => {
            return Err(MagicRuleParseError::BadMimeType { offset: d + 1 });
        },
    };
    if close + 1 >= len || input[close + 1] != 0x0a {
        return Err(MagicRuleParseError::Expected { offset: close + 1, byte: 0x0a });
    }
    Ok((PrioMime { priority, mime_type }, close + 2))
}

/// Reads the head of an entry at `pos` for the name of its type.
pub fn mime(input: &[u8], pos: usize) -> (name: Result<(String, usize), MagicRuleParseError>)
    requires
        pos <= input.len(),
    ensures
        match name {
            Ok((name, next)) => spec_section(input@, pos as int) matches Parsed::Done { value, next: n }
                && value.1 == name@ && n == next && pos < next <= input.len(),
            Err(error) => spec_section(input@, pos as int) == (Parsed::<(u32, Seq<char>)>::Failed {
                error,
            }),
        },
{
    match parse_mime(input, pos) {
        Ok((head, next)) => Ok((head.mime_type, next)),
        Err(error) => Err(error),
    }
}

/// Reads the indent of a rule at `pos`: digits, 0 where there are none, up
/// to a `>` that must follow. The place returned is that of the `>`.
pub fn magic_rules_indent_level(input: &[u8], pos: usize) -> (indent: Result<
    (u32, usize),
    MagicRuleParseError,
>)
    requires
        pos <= input.len(),
    ensures
        match indent {
            Ok((n, at)) => at == digits_end(input@, pos as int) && byte_at(input@, at as int, 0x3e) && n
                == number_or(input@.subrange(pos as int, at as int), 0) && pos <= at,
            Err(error) => !byte_at(input@, digits_end(input@, pos as int), 0x3e) && error == (
            MagicRuleParseError::Expected {
                offset: digits_end(input@, pos as int) as usize,
                byte: 0x3e,
            }),
        },
{
    let d: usize = scan_digits(input, pos);
    if d >= input.len() || input[d] != 0x3e {
        return Err(MagicRuleParseError::Expected { offset: d, byte: 0x3e });
    }
    Ok((buf_to_u32(slice_subrange(input, pos, d), 0), d))
}

/// Reads the start offset of a rule at `pos`: digits, 0 where there are
/// none, up to a `=` that must follow. The place returned is that of the `=`.
pub fn magic_rules_start_off(input: &[u8], pos: usize) -> (start: Result<
    (u32, usize),
    MagicRuleParseError,
>)
    requires
        pos <= input.len(),
    ensures
        match start {
            Ok((n, at)) => at == digits_end(input@, pos as int) && byte_at(input@, at as int, 0x3d) && n
                == number_or(input@.subrange(pos as int, at as int), 0) && pos <= at,
            Err(error) => !byte_at(input@, digits_end(input@, pos as int), 0x3d) && error == (
            MagicRuleParseError::Expected {
                offset: digits_end(input@, pos as int) as usize,
                byte: 0x3d,
            }),
        },
{
    let d: usize = scan_digits(input, pos);
    if d >= input.len() || input[d] != 0x3d {
        return Err(MagicRuleParseError::Expected { offset: d, byte: 0x3d });
    }
    Ok((buf_to_u32(slice_subrange(input, pos, d), 0), d))
}

/// Reads one rule line at `pos`.
pub fn magic_rules(input: &[u8], pos: usize) -> (rule: Result<(MagicRule, usize), MagicRuleParseError>)
    requires
        pos <= input.len(),
    ensures
        match rule {
            Ok((rule, next)) => spec_rule(input@, pos as int) == (Parsed::Done {
                value: rule@,
                next: next as int,
            }) && pos < next <= input.len() && is_canonical(rule),
            Err(error) => spec_rule(input@, pos as int) == (Parsed::<RuleModel>::Failed { error }),
        },
{
    let len: usize = input.len();
    let (indent_level, d1) = match magic_rules_indent_level(input, pos) {
        Ok(found) => found,
        Err(error) => {
            return Err(error);
        },
    };
    let (start_off, d2) = match magic_rules_start_off(input, d1 + 1) {
        Ok(found) => found,
        Err(error) => {
            return Err(error);
        },
    };
    if len - d2 < 3 {
        return Err(MagicRuleParseError::Truncated { offset: d2 + 1 });
    }
    let val_len: u16 = ((input[d2 + 1] as u16) << 8) | (input[d2 + 2] as u16);
    assert(val_len == input@[d2 + 1] as int * 256 + input@[d2 + 2] as int) by {
        let hi: u8 = input@[d2 + 1];
        let lo: u8 = input@[d2 + 2];
        assert((((hi as u16) << 8) | (lo as u16)) == (hi as u16) * 256 + (lo as u16)) by (bit_vector);
    }
    let vlen: usize = val_len as usize;
    let v0: usize = d2 + 3;
    if vlen > len - v0 {
        return Err(MagicRuleParseError::Truncated { offset: v0 });
    }
    let v1: usize = v0 + vlen;
    let val = copy_range(input, v0, v1);
    let mut at: usize = v1;
    let mut mask: Option<Vec<u8>> = None;
    if at < len && input[at] == 0x26 {
        if vlen > len - (at + 1) {
            return Err(MagicRuleParseError::Truncated { offset: at + 1 });
        }
        if vlen > 0 {
            mask = Some(copy_range(input, at + 1, at + 1 + vlen));
        }
        at = at + 1 + vlen;
    }
    let mut word_len: u32 = 1;
    if at < len && input[at] == 0x7e {
        let d: usize = scan_digits(input, at + 1);
        word_len = buf_to_u32(slice_subrange(input, at + 1, d), 1);
        at = d;
    }
    let mut region_len: u32 = 1;
    if at < len && input[at] == 0x2b {
        let d: usize = scan_digits(input, at + 1);
        region_len = buf_to_u32(slice_subrange(input, at + 1, d), 1);
        at = d;
    }
    if at >= len || input[at] != 0x0a {
        return Err(MagicRuleParseError::Expected { offset: at, byte: 0x0a });
    }
    let rule = MagicRule { indent_level, start_off, val_len, val, mask, word_len, region_len };
    proof {
        assert(rule@.mask =~= spec_rule(input@, pos as int)->value.mask);
    }
    Ok((rule, at + 1))
}


/// One entry of a magic file as plain values.
pub struct EntryModel {
    pub priority: u32,
    pub mime: Seq<char>,
    pub rules: Seq<RuleModel>,
}

/// One entry of a magic file: a type, its priority and its rules.
pub struct MagicEntry {
    pub priority: u32,
    pub mime: String,
    pub rules: Vec<MagicRule>,
}

impl View for MagicEntry {
    type V = EntryModel;

    open spec fn view(&self) -> EntryModel {
        EntryModel { priority: self.priority, mime: self.mime@, rules: models(self.rules@) }
    }
}

/// Every rule of every entry is in the form in which a magic file gives it.
pub open spec fn entries_canonical(entries: Seq<MagicEntry>) -> bool {
    forall|i: int| 0 <= i < entries.len() ==> all_canonical((#[trigger] entries[i]).rules@)
}

/// Every rule of the table is in the form in which a magic file gives it.
pub open spec fn table_canonical(table: Seq<(String, Vec<MagicRule>)>) -> bool {
    forall|i: int| 0 <= i < table.len() ==> all_canonical((#[trigger] table[i]).1@)
}

/// The models of a sequence of entries, in order.
pub open spec fn entry_models(entries: Seq<MagicEntry>) -> Seq<EntryModel> {
    Seq::new(entries.len(), |i: int| entries[i]@)
}

/// What reading rule lines gives: the rules read, the place where reading
/// stopped, and the error that stopped it, if one did.
pub struct RulesOutcome {
    pub rules: Seq<RuleModel>,
    pub next: int,
    pub error: Option<MagicRuleParseError>,
}

/// What reading entries gives: the entries read, the last one with the rules
/// read before an error, and the error that stopped the reading, if one did.
pub struct FileOutcome {
    pub entries: Seq<EntryModel>,
    pub error: Option<MagicRuleParseError>,
}

/// The rule lines from `pos` on, up to the next entry, the end of the input
/// or the first line that is no rule.
pub open spec fn spec_rules(s: Seq<u8>, pos: int) -> RulesOutcome
    decreases s.len() - pos,
{
    if pos < 0 || pos >= s.len() || s[pos] == 0x5b {
        RulesOutcome { rules: Seq::empty(), next: pos, error: None }
    } else {
        match spec_rule(s, pos) {
            Parsed::Failed { error } => RulesOutcome {
                rules: Seq::empty(),
                next: pos,
                error: Some(error),
            },
            Parsed::Done { value, next } => if pos < next <= s.len() {
                let rest = spec_rules(s, next);
                RulesOutcome { rules: seq![value] + rest.rules, next: rest.next, error: rest.error }
            } else {
                RulesOutcome { rules: Seq::empty(), next: pos, error: None }
            },
        }
    }
}

/// The entries from `pos` on, up to the end of the input or the first error.
pub open spec fn spec_entries(s: Seq<u8>, pos: int) -> FileOutcome
    decreases s.len() - pos,
{
    if pos < 0 || pos >= s.len() {
        FileOutcome { entries: Seq::empty(), error: None }
    } else {
        match spec_section(s, pos) {
            Parsed::Failed { error } => FileOutcome { entries: Seq::empty(), error: Some(error) },
            Parsed::Done { value, next } => {
                let body = spec_rules(s, next);
                let entry = EntryModel { priority: value.0, mime: value.1, rules: body.rules };
                if body.error is None && pos < body.next <= s.len() {
                    let rest = spec_entries(s, body.next);
                    FileOutcome { entries: seq![entry] + rest.entries, error: rest.error }
                } else {
                    FileOutcome { entries: seq![entry], error: body.error }
                }
            },
        }
    }
}

/// What a magic file holds: its entries up to the first error, and that
/// error. A file without the header holds nothing.
pub open spec fn spec_file(s: Seq<u8>) -> FileOutcome {
    if s.len() >= header().len() && s.take(header().len() as int) == header() {
        spec_entries(s, header().len() as int)
    } else {
        FileOutcome {
            entries: Seq::empty(),
            error: Some(MagicRuleParseError::MissingHeader { offset: 0 }),
        }
    }
}

/// Reads rule lines from `pos` on, up to the next entry, the end of the
/// input or the first line that is no rule.
pub fn parse_rules(input: &[u8], pos: usize) -> (out: (Vec<MagicRule>, usize, Option<MagicRuleParseError>))
    requires
        pos <= input.len(),
    ensures
        spec_rules(input@, pos as int) == (RulesOutcome {
            rules: models(out.0@),
            next: out.1 as int,
            error: out.2,
        }),
        pos <= out.1 <= input.len(),
        all_canonical(out.0@),
{
    let len: usize = input.len();
    let mut rules: Vec<MagicRule> = Vec::new();
    let mut at: usize = pos;
    let mut error: Option<MagicRuleParseError> = None;
    assert(models(rules@) =~= Seq::<RuleModel>::empty());
    while at < len && input[at] != 0x5b
        invariant_except_break
            error is None,
            spec_rules(input@, pos as int).rules == models(rules@) + spec_rules(input@, at as int).rules,
            spec_rules(input@, pos as int).next == spec_rules(input@, at as int).next,
            spec_rules(input@, pos as int).error == spec_rules(input@, at as int).error,
        invariant
            len == input.len(),
            pos <= at <= len,
            all_canonical(rules@),
        ensures
            pos <= at <= len,
            spec_rules(input@, pos as int).rules == models(rules@),
            spec_rules(input@, pos as int).next == at,
            spec_rules(input@, pos as int).error == error,
        decreases len - at,
    {
        match magic_rules(input, at) {
            Ok((rule, next)) => {
                let ghost before = models(rules@);
                rules.push(rule);
                proof {
                    assert(models(rules@) =~= before.push(rule@));
                    assert(before + (seq![rule@] + spec_rules(input@, next as int).rules) =~= before.push(
                        rule@,
                    ) + spec_rules(input@, next as int).rules);
                }
                at = next;
            },
            Err(e) => {
                error = Some(e);
                assert(spec_rules(input@, at as int).rules =~= Seq::<RuleModel>::empty());
                assert(models(rules@) + Seq::<RuleModel>::empty() =~= models(rules@));
                break ;
            },
        }
    }
    proof {
        assert(models(rules@) + Seq::<RuleModel>::empty() =~= models(rules@));
    }
    (rules, at, error)
}

/// Reads one entry at `pos`: its head and the rules that follow. With the
/// entry come the place where reading stopped and the error that stopped it
/// among the rules, if one did. An error in the head gives no entry.
pub fn magic_entry(input: &[u8], pos: usize) -> (out: Result<
    (MagicEntry, usize, Option<MagicRuleParseError>),
    MagicRuleParseError,
>)
    requires
        pos <= input.len(),
    ensures
        match out {
            Ok((entry, next, error)) => spec_section(input@, pos as int) matches Parsed::Done {
                value,
                next: body,
            } && entry@ == (EntryModel {
                priority: value.0,
                mime: value.1,
                rules: spec_rules(input@, body).rules,
            }) && next == spec_rules(input@, body).next && error == spec_rules(input@, body).error
                && pos < next <= input.len() && all_canonical(entry.rules@),
            Err(error) => spec_section(input@, pos as int) == (Parsed::<(u32, Seq<char>)>::Failed {
                error,
            }),
        },
{
    match parse_mime(input, pos) {
        Ok((head, body)) => {
            let (rules, next, error) = parse_rules(input, body);
            Ok((MagicEntry { priority: head.priority, mime: head.mime_type, rules }, next, error))
        },
        Err(error) => Err(error),
    }
}

/// Reads a magic file: the header, then entry after entry up to the end of
/// the input or the first error. What was read before the error is returned
/// with it.
pub fn from_u8_to_tuple_vec(input: &[u8]) -> (out: (Vec<MagicEntry>, Option<MagicRuleParseError>))
    ensures
        spec_file(input@) == (FileOutcome { entries: entry_models(out.0@), error: out.1 }),
        entries_canonical(out.0@),
{
    let len: usize = input.len();
    let mut entries: Vec<MagicEntry> = Vec::new();
    assert(entry_models(entries@) =~= Seq::<EntryModel>::empty());
    if !has_header(input) {
        return (entries, Some(MagicRuleParseError::MissingHeader { offset: 0 }));
    }
    let mut at: usize = 12;
    let mut error: Option<MagicRuleParseError> = None;
    while at < len
        invariant_except_break
            error is None,
            spec_entries(input@, 12).entries == entry_models(entries@) + spec_entries(
                input@,
                at as int,
            ).entries,
            spec_entries(input@, 12).error == spec_entries(input@, at as int).error,
        invariant
            len == input.len(),
            12 <= at <= len,
            entries_canonical(entries@),
        ensures
            spec_entries(input@, 12).entries == entry_models(entries@),
            spec_entries(input@, 12).error == error,
        decreases len - at,
    {
        let ghost before = entry_models(entries@);
        match magic_entry(input, at) {
            Ok((entry, next, failed)) => {
                let ghost model = entry@;
                entries.push(entry);
                proof {
                    assert(entry_models(entries@) =~= before.push(model));
                    assert(before + seq![model] =~= before.push(model));
                    assert(before + (seq![model] + spec_entries(input@, next as int).entries) =~= before.push(
                        model,
                    ) + spec_entries(input@, next as int).entries);
                }
                if failed.is_some() {
                    error = failed;
                    break ;
                }
                at = next;
            },
            Err(e) => {
                error = Some(e);
                assert(before + Seq::<EntryModel>::empty() =~= before);
                break ;
            },
        }
    }
    proof {
        assert(entry_models(entries@) + Seq::<EntryModel>::empty() =~= entry_models(entries@));
    }
    (entries, error)
}

/// Whether the input begins with the header of a magic file.
pub fn has_header(input: &[u8]) -> (yes: bool)
    ensures
        yes == (input@.len() >= header().len() && input@.take(header().len() as int) == header()),
{
    if input.len() < 12 {
        return false;
    }
    let yes = input[0] == 0x4d && input[1] == 0x49 && input[2] == 0x4d && input[3] == 0x45 && input[4]
        == 0x2d && input[5] == 0x4d && input[6] == 0x61 && input[7] == 0x67 && input[8] == 0x69
        && input[9] == 0x63 && input[10] == 0x00 && input[11] == 0x0a;
    proof {
        let head = input@.take(12);
        if yes {
            assert(head =~= header());
        } else {
            if head == header() {
                assert(head[0] == header()[0]);
                assert(head[1] == header()[1]);
                assert(head[2] == header()[2]);
                assert(head[3] == header()[3]);
                assert(head[4] == header()[4]);
                assert(head[5] == header()[5]);
                assert(head[6] == header()[6]);
                assert(head[7] == header()[7]);
                assert(head[8] == header()[8]);
                assert(head[9] == header()[9]);
                assert(head[10] == header()[10]);
                assert(head[11] == header()[11]);
            }
        }
    }
    yes
}


/// The rule table as plain values: for each entry the type's name and the
/// models of its rules.
pub open spec fn table_model(rules: Seq<(String, Vec<MagicRule>)>) -> Seq<(Seq<char>, Seq<RuleModel>)> {
    Seq::new(rules.len(), |i: int| (rules[i].0@, models(rules[i].1@)))
}

/// The names of the types of a rule table, in order.
pub open spec fn table_names(rules: Seq<(String, Vec<MagicRule>)>) -> Seq<Seq<char>> {
    Seq::new(rules.len(), |i: int| rules[i].0@)
}

/// The rules of the first entry for `name` in the rule table.
pub open spec fn lookup_forest(table: Seq<(Seq<char>, Seq<RuleModel>)>, name: Seq<char>) -> Option<
    Seq<RuleModel>,
>
    decreases table.len(),
{
    if table.len() == 0 {
        None
    } else if table[0].0 == name {
        Some(table[0].1)
    } else {
        lookup_forest(table.drop_first(), name)
    }
}

/// The rule table with the rules added to those of the type `name`: to its
/// first entry where it has one, in a new entry at the end where not.
pub open spec fn add_entry(
    table: Seq<(Seq<char>, Seq<RuleModel>)>,
    name: Seq<char>,
    rules: Seq<RuleModel>,
) -> Seq<(Seq<char>, Seq<RuleModel>)>
    decreases table.len(),
{
    if table.len() == 0 {
        seq![(name, rules)]
    } else if table[0].0 == name {
        seq![(name, table[0].1 + rules)] + table.drop_first()
    } else {
        seq![table[0]] + add_entry(table.drop_first(), name, rules)
    }
}

/// The rule table with the rules of the entries added, entry after entry.
pub open spec fn add_entries(table: Seq<(Seq<char>, Seq<RuleModel>)>, entries: Seq<EntryModel>) -> Seq<
    (Seq<char>, Seq<RuleModel>),
>
    decreases entries.len(),
{
    if entries.len() == 0 {
        table
    } else {
        add_entry(add_entries(table, entries.drop_last()), entries.last().mime, entries.last().rules)
    }
}

/// The entries of several magic files, each read on its own, in the order of
/// the files.
pub open spec fn all_entries(files: Seq<Seq<u8>>) -> Seq<EntryModel>
    decreases files.len(),
{
    if files.len() == 0 {
        Seq::empty()
    } else {
        all_entries(files.drop_last()) + spec_file(files.last()).entries
    }
}

/// The error of the first of several magic files that has one.
pub open spec fn first_error(files: Seq<Seq<u8>>) -> Option<MagicRuleParseError>
    decreases files.len(),
{
    if files.len() == 0 {
        None
    } else {
        match first_error(files.drop_last()) {
            Some(error) => Some(error),
            None => spec_file(files.last()).error,
        }
    }
}

/// Adding two runs of entries one after the other is adding them as one run.
pub proof fn lemma_add_entries_concat(
    table: Seq<(Seq<char>, Seq<RuleModel>)>,
    a: Seq<EntryModel>,
    b: Seq<EntryModel>,
)
    ensures
        add_entries(table, a + b) == add_entries(add_entries(table, a), b),
    decreases b.len(),
{
    if b.len() == 0 {
        assert(a + b =~= a);
    } else {
        assert((a + b).drop_last() =~= a + b.drop_last());
        assert((a + b).last() == b.last());
        lemma_add_entries_concat(table, a, b.drop_last());
    }
}

/// A copy of a rule.
pub fn clone_rule(rule: &MagicRule) -> (copy: MagicRule)
    ensures
        copy@ == rule@,
        copy.val_len == rule.val_len,
        copy.mask is None <==> rule.mask is None,
        is_canonical(copy) == is_canonical(*rule),
{
    let val = rule.val.clone();
    assert(val@ =~= rule.val@);
    let mask: Option<Vec<u8>> = match &rule.mask {
        Some(m) => {
            let c = m.clone();
            assert(c@ =~= m@);
            Some(c)
        },
        None => None,
    };
    let copy = MagicRule {
        indent_level: rule.indent_level,
        start_off: rule.start_off,
        val_len: rule.val_len,
        val,
        mask,
        word_len: rule.word_len,
        region_len: rule.region_len,
    };
    assert(copy@.mask =~= rule@.mask);
    copy
}

/// Copies of `more`, appended to `rules`.
fn extend_rules(rules: &mut Vec<MagicRule>, more: &Vec<MagicRule>)
    ensures
        models(final(rules)@) == models(old(rules)@) + models(more@),
        all_canonical(old(rules)@) && all_canonical(more@) ==> all_canonical(final(rules)@),
{
    let n: usize = more.len();
    let mut i: usize = 0;
    assert(models(rules@) =~= models(old(rules)@) + models(more@.take(0)));
    while i < n
        invariant
            n == more.len(),
            i <= n,
            models(rules@) == models(old(rules)@) + models(more@.take(i as int)),
            all_canonical(old(rules)@) && all_canonical(more@) ==> all_canonical(rules@),
        decreases n - i,
    {
        let ghost before = models(rules@);
        rules.push(clone_rule(&more[i]));
        assert(models(rules@) =~= before.push(more@[i as int]@));
        assert(models(more@.take(i + 1)) =~= models(more@.take(i as int)).push(more@[i as int]@));
        i = i + 1;
    }
    assert(more@.take(n as int) =~= more@);
}

/// Adds the rules of an entry to the rule table: to the first entry of the
/// table for that type, or in a new entry at the end.
pub fn add_rules(table: &mut Vec<(String, Vec<MagicRule>)>, entry: &MagicEntry)
    ensures
        table_model(final(table)@) == add_entry(table_model(old(table)@), entry@.mime, entry@.rules),
        table_canonical(old(table)@) && all_canonical(entry.rules@) ==> table_canonical(final(table)@),
{
    let n: usize = table.len();
    let ghost before = table_model(table@);
    let mut i: usize = 0;
    assert(before.take(0) + add_entry(before.skip(0), entry@.mime, entry@.rules) =~= add_entry(
        before,
        entry@.mime,
        entry@.rules,
    )) by {
        assert(before.skip(0) =~= before);
    }
    while i < n
        invariant
            n == table.len(),
            i <= n,
            before == table_model(table@),
            before == table_model(old(table)@),
            table@ == old(table)@,
            add_entry(before, entry@.mime, entry@.rules) == before.take(i as int) + add_entry(
                before.skip(i as int),
                entry@.mime,
                entry@.rules,
            ),
        decreases n - i,
    {
        proof {
            assert(before.skip(i as int)[0] == before[i as int]);
            assert(before.skip(i as int).drop_first() =~= before.skip(i + 1));
            assert(before[i as int].0 == table@[i as int].0@);
        }
        if table[i].0 == entry.mime {
            let mut rules: Vec<MagicRule> = Vec::new();
            assert(models(rules@) =~= Seq::<RuleModel>::empty());
            extend_rules(&mut rules, &table[i].1);
            extend_rules(&mut rules, &entry.rules);
            table.set(i, (entry.mime.clone(), rules));
            proof {
                let after = table_model(table@);
                let merged = (entry@.mime, before[i as int].1 + entry@.rules);
                assert(models(rules@) =~= before[i as int].1 + entry@.rules);
                assert(before[i as int].0 == entry@.mime);
                assert(add_entry(before.skip(i as int), entry@.mime, entry@.rules) == seq![merged]
                    + before.skip(i + 1));
                assert(after =~= before.take(i as int) + (seq![merged] + before.skip(i + 1)));
            }
            return ;
        }
        proof {
            assert(before.take(i as int) + (seq![before[i as int]] + add_entry(
                before.skip(i + 1),
                entry@.mime,
                entry@.rules,
            )) =~= before.take(i + 1) + add_entry(before.skip(i + 1), entry@.mime, entry@.rules));
        }
        i = i + 1;
    }
    let mut rules: Vec<MagicRule> = Vec::new();
    assert(models(rules@) =~= Seq::<RuleModel>::empty());
    extend_rules(&mut rules, &entry.rules);
    table.push((entry.mime.clone(), rules));
    proof {
        assert(models(rules@) =~= entry@.rules);
        assert(before.skip(n as int) =~= Seq::<(Seq<char>, Seq<RuleModel>)>::empty());
        assert(table_model(table@) =~= before.take(n as int) + seq![(entry@.mime, entry@.rules)]);
    }
}

/// Reads one magic file into the rule table. The entries read before an
/// error are added; the error is returned.
pub fn add_file(table: &mut Vec<(String, Vec<MagicRule>)>, b: &[u8]) -> (error: Option<
    MagicRuleParseError,
>)
    ensures
        error == spec_file(b@).error,
        table_model(final(table)@) == add_entries(table_model(old(table)@), spec_file(b@).entries),
        table_canonical(old(table)@) ==> table_canonical(final(table)@),
{
    let (entries, error) = from_u8_to_tuple_vec(b);
    let n: usize = entries.len();
    let mut i: usize = 0;
    while i < n
        invariant
            n == entries.len(),
            i <= n,
            table_model(table@) == add_entries(
                table_model(old(table)@),
                entry_models(entries@).take(i as int),
            ),
            entries_canonical(entries@),
            table_canonical(old(table)@) ==> table_canonical(table@),
        decreases n - i,
    {
        proof {
            assert(entry_models(entries@).take(i + 1).drop_last() =~= entry_models(entries@).take(
                i as int,
            ));
            assert(entry_models(entries@).take(i + 1).last() == entries@[i as int]@);
        }
        add_rules(table, &entries[i]);
        i = i + 1;
    }
    assert(entry_models(entries@).take(n as int) =~= entry_models(entries@));
    error
}

/// Reads a magic file into a table of rules by type. The rules of entries
/// for one type are joined in the order of the entries. What was read before
/// an error is returned with the error.
pub fn from_u8(b: &[u8]) -> (out: Result<
    Vec<(String, Vec<MagicRule>)>,
    (Vec<(String, Vec<MagicRule>)>, MagicRuleParseError),
>)
    ensures
        match out {
            Ok(table) => spec_file(b@).error is None && table_model(table@) == add_entries(
                Seq::empty(),
                spec_file(b@).entries,
            ) && table_canonical(table@),
            Err((table, error)) => spec_file(b@).error == Some(error) && table_model(table@)
                == add_entries(Seq::empty(), spec_file(b@).entries) && table_canonical(table@),
        },
{
    let mut table: Vec<(String, Vec<MagicRule>)> = Vec::new();
    assert(table_model(table@) =~= Seq::<(Seq<char>, Seq<RuleModel>)>::empty());
    match add_file(&mut table, b) {
        None => Ok(table),
        Some(error) => Err((table, error)),
    }
}

/// Reads several magic files into one table of rules by type. Each file is
/// read on its own; the rules of entries for one type are joined in the order
/// of the files and of the entries in them. An error ends the reading of its
/// file only; the first error is returned with the table.
pub fn from_multiple(files: &Vec<Vec<u8>>) -> (out: Result<
    Vec<(String, Vec<MagicRule>)>,
    (Vec<(String, Vec<MagicRule>)>, MagicRuleParseError),
>)
    ensures
        match out {
            Ok(table) => first_error(files.deep_view()) is None && table_model(table@)
                == add_entries(Seq::empty(), all_entries(files.deep_view())) && table_canonical(
                table@,
            ),
            Err((table, error)) => first_error(files.deep_view()) == Some(error) && table_model(
                table@,
            ) == add_entries(Seq::empty(), all_entries(files.deep_view())) && table_canonical(table@),
        },
{
    let mut table: Vec<(String, Vec<MagicRule>)> = Vec::new();
    let mut first: Option<MagicRuleParseError> = None;
    let n: usize = files.len();
    let mut i: usize = 0;
    assert(table_model(table@) =~= Seq::<(Seq<char>, Seq<RuleModel>)>::empty());
    while i < n
        invariant
            n == files.len(),
            i <= n,
            first == first_error(files.deep_view().take(i as int)),
            table_canonical(table@),
            table_model(table@) == add_entries(
                Seq::empty(),
                all_entries(files.deep_view().take(i as int)),
            ),
        decreases n - i,
    {
        proof {
            assert(files.deep_view().take(i + 1).drop_last() =~= files.deep_view().take(i as int));
            assert(files.deep_view().take(i + 1).last() == files@[i as int]@);
            lemma_add_entries_concat(
                Seq::empty(),
                all_entries(files.deep_view().take(i as int)),
                spec_file(files@[i as int]@).entries,
            );
        }
        let error = add_file(&mut table, files[i].as_slice());
        if first.is_none() {
            first = error;
        }
        i = i + 1;
    }
    assert(files.deep_view().take(n as int) =~= files.deep_view());
    match first {
        None => Ok(table),
        Some(error) => Err((table, error)),
    }
}


/// `core::str::Utf8Error`, declared so that it can stand in a signature.
#[verifier::external_type_specification]
#[verifier::external_body]
pub struct ExUtf8Error(core::str::Utf8Error);

/// `core::str::from_utf8`: succeeds exactly on valid UTF-8, and the text it
/// gives is what the bytes encode.
#[verifier::external_body]
pub fn to_string(s: &[u8]) -> (text: Result<&str, core::str::Utf8Error>)
    ensures
        text is Ok <==> valid_utf8(s@),
        text matches Ok(t) ==> t@ == decode_utf8(s@),
{
    core::str::from_utf8(s)
}

/// Reads an ASCII decimal number from a text; `def` where there is no text,
/// the text is no such number, or the number does not fit 32 bits.
pub fn to_u32(s: Result<&str, core::str::Utf8Error>, def: u32) -> (n: u32)
    ensures
        n == match s {
            Ok(t) => number_or(encode_utf8(t@), def),
            Err(_) => def,
        },
{
    match s {
        Ok(t) => buf_to_u32(t.as_bytes(), def),
        Err(_) => def,
    }
}

/// The rules of a type, where it has an entry in the rule table.
pub fn rules_of<'a>(table: &'a Vec<(String, Vec<MagicRule>)>, name: &String) -> (found: Option<
    &'a Vec<MagicRule>,
>)
    ensures
        match found {
            Some(forest) => lookup_forest(table_model(table@), name@) == Some(models(forest@)),
            None => lookup_forest(table_model(table@), name@) is None,
        },
{
    let n: usize = table.len();
    let ghost model = table_model(table@);
    let mut i: usize = 0;
    assert(model.skip(0) =~= model);
    while i < n
        invariant
            n == table.len(),
            i <= n,
            model == table_model(table@),
            lookup_forest(model, name@) == lookup_forest(model.skip(i as int), name@),
        decreases n - i,
    {
        proof {
            assert(model.skip(i as int).drop_first() =~= model.skip(i + 1));
            assert(model.skip(i as int)[0] == model[i as int]);
        }
        if table[i].0 == *name {
            return Some(&table[i].1);
        }
        i = i + 1;
    }
    None
}

/// Whether the rule table has rules for a type.
pub fn can_check(table: &Vec<(String, Vec<MagicRule>)>, mimetype: &str) -> (yes: bool)
    ensures
        yes == lookup_forest(table_model(table@), mimetype@) is Some,
{
    let name = String::from_str(mimetype);
    rules_of(table, &name).is_some()
}

} // verus!
