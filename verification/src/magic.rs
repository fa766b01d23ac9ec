//! The magic rule and its mathematical model.

use vstd::prelude::*;

verus! {

/// What a rule says, as plain mathematical values.
pub struct RuleModel {
    /// Depth of the rule in its forest.
    pub indent_level: u32,
    /// First offset at which the literal is looked for.
    pub start_off: u32,
    /// The literal.
    pub val: Seq<u8>,
    /// The mask; where it is shorter than the literal, the missing bytes
    /// count as `0xff`.
    pub mask: Seq<u8>,
    /// Size of the words the literal was written in.
    pub word_len: u32,
    /// How many further offsets after `start_off` are tried.
    pub region_len: u32,
}

/// One signature test: a literal, where to look for it, and how to mask it.
#[derive(Debug, Clone)]
pub struct MagicRule {
    pub indent_level: u32,
    pub start_off: u32,
    pub val_len: u16,
    pub val: Vec<u8>,
    pub mask: Option<Vec<u8>>,
    pub word_len: u32,
    pub region_len: u32,
}

impl View for MagicRule {
    type V = RuleModel;

    open spec fn view(&self) -> RuleModel {
        RuleModel {
            indent_level: self.indent_level,
            start_off: self.start_off,
            val: self.val@,
            mask: match self.mask {
                Some(m) => m@,
                None => Seq::empty(),
            },
            word_len: self.word_len,
            region_len: self.region_len,
        }
    }
}

/// The rule is in the one form in which a magic file gives it: `val_len` is
/// the length of the literal, and an empty mask is no mask.
pub open spec fn is_canonical(rule: MagicRule) -> bool {
    &&& rule.val_len == rule.val.len()
    &&& (rule.mask is None <==> rule@.mask.len() == 0)
}

/// Every rule of the sequence is in that form.
pub open spec fn all_canonical(rules: Seq<MagicRule>) -> bool {
    forall|k: int| 0 <= k < rules.len() ==> is_canonical(#[trigger] rules[k])
}

/// The models of a sequence of rules, in order.
pub open spec fn models(rules: Seq<MagicRule>) -> Seq<RuleModel> {
    Seq::new(rules.len(), |i: int| rules[i]@)
}

/// The mask byte that applies to position `j` of a literal.
pub open spec fn mask_byte(mask: Seq<u8>, j: int) -> u8 {
    if 0 <= j < mask.len() {
        mask[j]
    } else {
        0xffu8
    }
}

/// Byte `j` of the literal agrees, under the mask, with the buffer byte that
/// lies `j` places after `off`.
pub open spec fn byte_agrees(buf: Seq<u8>, r: RuleModel, off: int, j: int) -> bool {
    (buf[off + j] & mask_byte(r.mask, j)) == (r.val[j] & mask_byte(r.mask, j))
}

/// The whole literal lies inside the buffer at `off` and agrees with it under
/// the mask.
pub open spec fn matches_at(buf: Seq<u8>, r: RuleModel, off: int) -> bool {
    &&& 0 <= off
    &&& off + r.val.len() <= buf.len()
    &&& forall|j: int| 0 <= j < r.val.len() ==> #[trigger] byte_agrees(buf, r, off, j)
}

/// The literal is found at one of the offsets `start_off ..= start_off +
/// region_len`.
pub open spec fn rule_matches(buf: Seq<u8>, r: RuleModel) -> bool {
    exists|off: int| r.start_off <= off <= r.start_off + r.region_len && #[trigger] matches_at(buf, r, off)
}

/// Rule `i` closes its branch: it is the last rule, or the next rule is not
/// indented more deeply.
pub open spec fn is_leaf(rules: Seq<RuleModel>, i: int) -> bool {
    i + 1 >= rules.len() || rules[i + 1].indent_level <= rules[i].indent_level
}

/// Rule `j` stands above rule `i`: it comes before it, is indented less,
/// and every rule between the two is indented more deeply than `j`.
pub open spec fn is_ancestor(rules: Seq<RuleModel>, j: int, i: int) -> bool {
    &&& 0 <= j < i < rules.len()
    &&& rules[j].indent_level < rules[i].indent_level
    &&& forall|k: int| j < k < i ==> rules[j].indent_level < (#[trigger] rules[k]).indent_level
}

/// The buffer satisfies every rule that stands above rule `i`.
pub open spec fn ancestors_match(buf: Seq<u8>, rules: Seq<RuleModel>, i: int) -> bool {
    forall|j: int| #[trigger] is_ancestor(rules, j, i) ==> rule_matches(buf, rules[j])
}

/// The buffer satisfies the branch that rule `i` closes: rule `i` itself and
/// every rule that stands above it.
pub open spec fn branch_matches(buf: Seq<u8>, rules: Seq<RuleModel>, i: int) -> bool {
    &&& is_leaf(rules, i)
    &&& rule_matches(buf, rules[i])
    &&& ancestors_match(buf, rules, i)
}

/// The buffer satisfies some branch of the forest: a rule that closes its
/// branch together with all the rules above it.
pub open spec fn forest_matches(buf: Seq<u8>, rules: Seq<RuleModel>) -> bool {
    exists|i: int| 0 <= i < rules.len() && #[trigger] branch_matches(buf, rules, i)
}

/// The forest has no nesting: no rule is followed by a more deeply indented
/// one.
pub open spec fn is_flat(rules: Seq<RuleModel>) -> bool {
    forall|i: int| 0 <= i < rules.len() ==> #[trigger] is_leaf(rules, i)
}

/// In a forest without nesting no rule is indented more deeply than a rule
/// before it.
proof fn lemma_flat_never_deeper(rules: Seq<RuleModel>, j: int, i: int)
    requires
        is_flat(rules),
        0 <= j <= i < rules.len(),
    ensures
        rules[i].indent_level <= rules[j].indent_level,
    decreases i - j,
{
    if j < i {
        lemma_flat_never_deeper(rules, j, i - 1);
        assert(is_leaf(rules, i - 1));
    }
}

/// On a forest without nesting, matching is the disjunction of the single
/// rule tests: the forest accepts the buffer exactly when the masked literal
/// of at least one rule occurs within that rule's window.
pub proof fn flat_forest_is_disjunction(buf: Seq<u8>, rules: Seq<RuleModel>)
    requires
        is_flat(rules),
    ensures
        forest_matches(buf, rules) <==> exists|i: int|
            0 <= i < rules.len() && #[trigger] rule_matches(buf, rules[i]),
{
    if exists|i: int| 0 <= i < rules.len() && #[trigger] rule_matches(buf, rules[i]) {
        let i = choose|i: int| 0 <= i < rules.len() && #[trigger] rule_matches(buf, rules[i]);
        assert(is_leaf(rules, i));
        assert forall|j: int| #[trigger] is_ancestor(rules, j, i) implies rule_matches(
            buf,
            rules[j],
        ) by {
            lemma_flat_never_deeper(rules, j, i);
        }
        assert(branch_matches(buf, rules, i));
    }
    if forest_matches(buf, rules) {
        let i = choose|i: int| 0 <= i < rules.len() && #[trigger] branch_matches(buf, rules, i);
        assert(rule_matches(buf, rules[i]));
    }
}

} // verus!
