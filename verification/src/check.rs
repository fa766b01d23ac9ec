//! Testing a byte buffer against magic rules.

use vstd::prelude::*;
use crate::magic::{
    MagicRule, models, mask_byte, byte_agrees, matches_at, rule_matches, is_leaf, is_ancestor,
    ancestors_match, branch_matches, forest_matches,
};

verus! {

/// Tests one rule: slides the literal over the offsets `start_off ..=
/// start_off + region_len` and compares under the mask. A buffer too short
/// to hold the literal at `start_off` does not match.
pub fn from_vec_u8_singlerule(file: &Vec<u8>, rule: &MagicRule) -> (found: bool)
    ensures
        found == rule_matches(file@, rule@),
{
    from_u8_singlerule(file.as_slice(), rule)
}

/// The single rule test on a borrowed buffer.
pub fn from_u8_singlerule(file: &[u8], rule: &MagicRule) -> (found: bool)
    ensures
        found == rule_matches(file@, rule@),
{
    let vlen: usize = rule.val.len();
    let flen: usize = file.len();
    if vlen > flen {
        return false;
    }
    let last: usize = flen - vlen;
    let start: u64 = rule.start_off as u64;
    if start > last as u64 {
        return false;
    }
    let end: u64 = start + rule.region_len as u64;
    let stop: usize = if end > last as u64 { last } else { end as usize };
    let mut off: usize = start as usize;
    while off <= stop
        invariant
            vlen == rule.val.len(),
            stop + vlen <= file.len(),
            rule.start_off <= off <= stop + 1,
            stop <= rule.start_off + rule.region_len,
            stop == rule.start_off + rule.region_len || stop + vlen == file.len(),
            forall|o: int| rule.start_off <= o < off ==> !#[trigger] matches_at(file@, rule@, o),
        decreases stop + 1 - off,
    {
        if literal_at(file, rule, off) {
            return true;
        }
        off = off + 1;
    }
    false
}

/// Compares the literal with the buffer at one offset, under the mask.
fn literal_at(file: &[u8], rule: &MagicRule, off: usize) -> (same: bool)
    requires
        off + rule.val.len() <= file.len(),
    ensures
        same == matches_at(file@, rule@, off as int),
{
    let vlen: usize = rule.val.len();
    let mut j: usize = 0;
    while j < vlen
        invariant
            vlen == rule.val.len(),
            off + vlen <= file.len(),
            j <= vlen,
            forall|k: int| 0 <= k < j ==> #[trigger] byte_agrees(file@, rule@, off as int, k),
        decreases vlen - j,
    {
        let m: u8 = match &rule.mask {
            Some(mask) => if j < mask.len() { mask[j] } else { 0xffu8 },
            None => 0xffu8,
        };
        assert(m == mask_byte(rule@.mask, j as int));
        if (file[off + j] & m) != (rule.val[j] & m) {
            assert(!byte_agrees(file@, rule@, off as int, j as int));
            return false;
        }
        j = j + 1;
    }
    true
}

/// Tests the rules that stand above rule `i`: the nearest rule before it
/// that is indented less, the nearest before that one that is indented less
/// again, and so on up to a rule without indent.
fn ancestors_accept(file: &[u8], magic_rules: &Vec<MagicRule>, i: usize) -> (all: bool)
    requires
        i < magic_rules.len(),
    ensures
        all == ancestors_match(file@, models(magic_rules@), i as int),
{
    let ghost rules = models(magic_rules@);
    let mut level: u32 = magic_rules[i].indent_level;
    let ghost mut lowest: int = i as int;
    let mut j: usize = i;
    while j > 0 && level > 0
        invariant
            i < magic_rules.len(),
            rules == models(magic_rules@),
            j <= i,
            j <= lowest <= i,
            level == rules[lowest].indent_level,
            forall|k: int| j <= k <= i ==> level <= (#[trigger] rules[k]).indent_level,
            forall|k: int| j <= k < i && #[trigger] is_ancestor(rules, k, i as int) ==> rule_matches(
                file@,
                rules[k],
            ),
        decreases j,
    {
        j = j - 1;
        if magic_rules[j].indent_level < level {
            assert(is_ancestor(rules, j as int, i as int));
            if !from_u8_singlerule(file, &magic_rules[j]) {
                return false;
            }
            level = magic_rules[j].indent_level;
            proof {
                lowest = j as int;
            }
        } else {
            assert(!is_ancestor(rules, j as int, i as int)) by {
                if lowest < i {
                    assert(rules[lowest].indent_level <= rules[j as int].indent_level);
                }
            }
        }
    }
    proof {
        assert forall|k: int| #[trigger] is_ancestor(rules, k, i as int) implies rule_matches(
            file@,
            rules[k],
        ) by {
            if k < j {
                assert(level == 0);
                assert(rules[lowest].indent_level == 0);
            }
        }
    }
    true
}

/// Tests a buffer against the rule forest of one MIME type. A rule that is
/// followed by more deeply indented rules is a condition for them: the
/// forest accepts the buffer where a rule that closes its branch matches and
/// every rule above it matches too. A forest without nesting accepts where
/// any of its rules matches.
pub fn from_vec_u8(file: Vec<u8>, mimetype: &str, magic_rules: Vec<MagicRule>) -> (found: bool)
    ensures
        found == forest_matches(file@, models(magic_rules@)),
{
    from_u8(file.as_slice(), &magic_rules)
}

/// The forest test on borrowed values.
pub fn from_u8(file: &[u8], magic_rules: &Vec<MagicRule>) -> (found: bool)
    ensures
        found == forest_matches(file@, models(magic_rules@)),
{
    let n: usize = magic_rules.len();
    let mut i: usize = 0;
    while i < n
        invariant
            n == magic_rules.len(),
            i <= n,
            forall|k: int| 0 <= k < i ==> !#[trigger] branch_matches(file@, models(magic_rules@), k),
        decreases n - i,
    {
        let closes: bool = n - i < 2 || magic_rules[i + 1].indent_level <= magic_rules[i].indent_level;
        assert(closes == is_leaf(models(magic_rules@), i as int));
        if closes && from_u8_singlerule(file, &magic_rules[i]) && ancestors_accept(file, magic_rules, i) {
            assert(branch_matches(file@, models(magic_rules@), i as int));
            return true;
        }
        i = i + 1;
    }
    false
}

} // verus!
