//! What every form of a database record offers.

use vstd::prelude::*;
use crate::magic::RuleModel;

verus! {

/// A magic rule together with the type it belongs to and that type's
/// priority.
pub trait MagicRule {
    /// The priority as a plain value.
    spec fn spec_priority(&self) -> u32;

    /// The name of the type as a plain value.
    spec fn spec_mime_type(&self) -> Seq<char>;

    /// What the rule says. An empty mask stands for no masking.
    spec fn model(&self) -> RuleModel;

    /// The priority of the rule's type; the higher wins.
    fn priority(&self) -> (priority: u32)
        ensures
            priority == self.spec_priority(),
    ;

    /// The type the rule belongs to.
    fn mime_type(&self) -> (mime_type: &str)
        ensures
            mime_type@ == self.spec_mime_type(),
    ;

    /// The depth of the rule in its forest.
    fn indent_level(&self) -> (indent_level: u32)
        ensures
            indent_level == self.model().indent_level,
    ;

    /// The first offset at which the literal is looked for.
    fn start_off(&self) -> (start_off: u32)
        ensures
            start_off == self.model().start_off,
    ;

    /// The literal.
    fn val(&self) -> (val: &[u8])
        ensures
            val@ == self.model().val,
    ;

    /// The mask, empty where the rule has none.
    fn mask(&self) -> (mask: &[u8])
        ensures
            mask@ == self.model().mask,
    ;

    /// The size of the words the literal was written in.
    fn word_len(&self) -> (word_len: u32)
        ensures
            word_len == self.model().word_len,
    ;

    /// How many further offsets after the first are tried.
    fn region_len(&self) -> (region_len: u32)
        ensures
            region_len == self.model().region_len,
    ;
}

/// An alternate name of a type.
pub trait Alias {
    /// The alternate name as a plain value.
    spec fn spec_alias(&self) -> Seq<char>;

    /// The name it stands for as a plain value.
    spec fn spec_name(&self) -> Seq<char>;

    /// The name to be mapped.
    fn alias(&self) -> (alias: &str)
        ensures
            alias@ == self.spec_alias(),
    ;

    /// The name to map to.
    fn name(&self) -> (name: &str)
        ensures
            name@ == self.spec_name(),
    ;
}

/// A subclass record.
pub trait Subclass {
    /// The text of the record as a plain value.
    spec fn spec_str(&self) -> Seq<char>;

    /// The text of the record.
    fn str(&self) -> (text: &str)
        ensures
            text@ == self.spec_str(),
    ;
}

} // verus!
