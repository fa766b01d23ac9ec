//! The rule record of a shared MIME database: it owns its bytes and borrows
//! the name of its type.

use vstd::prelude::*;
use crate::magic::RuleModel;
use crate::db::db_traits::MagicRule;

verus! {

/// A magic rule that owns its literal and mask and borrows its type's name.
#[derive(Clone)]
pub struct SharedMimeMagicRule<'a> {
    priority: u32,
    mime_type: &'a str,
    indent_level: u32,
    start_off: u32,
    val: Vec<u8>,
    mask: Vec<u8>,
    word_len: u32,
    region_len: u32,
}

impl<'a> SharedMimeMagicRule<'a> {
    /// A rule of the type `mime_type`. An empty `mask` stands for no masking.
    #[must_use]
    pub fn new(
        priority: u32,
        mime_type: &'a str,
        indent_level: u32,
        start_off: u32,
        val: Vec<u8>,
        mask: Vec<u8>,
        word_len: u32,
        region_len: u32,
    ) -> (made: Self)
        ensures
            made.spec_priority() == priority,
            made.spec_mime_type() == mime_type@,
            made.model() == (RuleModel {
                indent_level,
                start_off,
                val: val@,
                mask: mask@,
                word_len,
                region_len,
            }),
    {
        Self { priority, mime_type, indent_level, start_off, val, mask, word_len, region_len }
    }
}

impl<'a> MagicRule for SharedMimeMagicRule<'a> {
    closed spec fn spec_priority(&self) -> u32 {
        self.priority
    }

    closed spec fn spec_mime_type(&self) -> Seq<char> {
        self.mime_type@
    }

    closed spec fn model(&self) -> RuleModel {
        RuleModel {
            indent_level: self.indent_level,
            start_off: self.start_off,
            val: self.val@,
            mask: self.mask@,
            word_len: self.word_len,
            region_len: self.region_len,
        }
    }

    fn priority(&self) -> (priority: u32) {
        self.priority
    }

    fn mime_type(&self) -> (mime_type: &str) {
        self.mime_type
    }

    fn indent_level(&self) -> (indent_level: u32) {
        self.indent_level
    }

    fn start_off(&self) -> (start_off: u32) {
        self.start_off
    }

    fn val(&self) -> (val: &[u8]) {
        self.val.as_slice()
    }

    fn mask(&self) -> (mask: &[u8]) {
        self.mask.as_slice()
    }

    fn word_len(&self) -> (word_len: u32) {
        self.word_len
    }

    fn region_len(&self) -> (region_len: u32) {
        self.region_len
    }
}

} // verus!
