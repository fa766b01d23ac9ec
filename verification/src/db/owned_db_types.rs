//! Records that own their data.

use vstd::prelude::*;
use crate::magic::RuleModel;
use crate::db::db_traits::{Alias, MagicRule, Subclass};
use crate::db::buildable_db_provider::BuildeableDbProvider;

verus! {

/// An alias that owns its two names.
#[derive(Clone)]
pub struct OwnedAlias {
    alias: String,
    name: String,
}

impl OwnedAlias {
    /// An alias record: `alias` stands for `name`.
    #[must_use]
    pub fn new(alias: String, name: String) -> (made: Self)
        ensures
            made.spec_alias() == alias@,
            made.spec_name() == name@,
    {
        Self { alias, name }
    }
}

impl Alias for OwnedAlias {
    closed spec fn spec_alias(&self) -> Seq<char> {
        self.alias@
    }

    closed spec fn spec_name(&self) -> Seq<char> {
        self.name@
    }

    fn alias(&self) -> (alias: &str) {
        self.alias.as_str()
    }

    fn name(&self) -> (name: &str) {
        self.name.as_str()
    }
}

/// A magic rule that owns its data.
#[derive(Clone)]
pub struct OwnedMagicRule {
    priority: u32,
    mime_type: String,
    indent_level: u32,
    start_off: u32,
    val: Vec<u8>,
    mask: Vec<u8>,
    word_len: u32,
    region_len: u32,
}

impl OwnedMagicRule {
    /// A rule of the type `mime_type`. An empty `mask` stands for no masking.
    #[must_use]
    pub fn new(
        priority: u32,
        mime_type: String,
        indent_level: u32,
        start_off: u32,
        val: Vec<u8>,
        mask: Vec<u8>,
        word_len: u32,
        region_len: u32,
    ) -> (made: Self)
        ensures
            made.spec_priority() == priority,
            made.spec_mime_type() == mime_type@,
            made.model() == (RuleModel {
                indent_level,
                start_off,
                val: val@,
                mask: mask@,
                word_len,
                region_len,
            }),
    {
        Self { priority, mime_type, indent_level, start_off, val, mask, word_len, region_len }
    }
}

impl MagicRule for OwnedMagicRule {
    closed spec fn spec_priority(&self) -> u32 {
        self.priority
    }

    closed spec fn spec_mime_type(&self) -> Seq<char> {
        self.mime_type@
    }

    closed spec fn model(&self) -> RuleModel {
        RuleModel {
            indent_level: self.indent_level,
            start_off: self.start_off,
            val: self.val@,
            mask: self.mask@,
            word_len: self.word_len,
            region_len: self.region_len,
        }
    }

    fn priority(&self) -> (priority: u32) {
        self.priority
    }

    fn mime_type(&self) -> (mime_type: &str) {
        self.mime_type.as_str()
    }

    fn indent_level(&self) -> (indent_level: u32) {
        self.indent_level
    }

    fn start_off(&self) -> (start_off: u32) {
        self.start_off
    }

    fn val(&self) -> (val: &[u8]) {
        self.val.as_slice()
    }

    fn mask(&self) -> (mask: &[u8]) {
        self.mask.as_slice()
    }

    fn word_len(&self) -> (word_len: u32) {
        self.word_len
    }

    fn region_len(&self) -> (region_len: u32) {
        self.region_len
    }
}

/// A subclass record that owns its data. It holds no text.
#[derive(Clone, Copy)]
pub struct OwnedSubclass {
    _data: u8,
}

impl OwnedSubclass {
    /// The byte that a record carries in place of data.
    pub closed spec fn data(&self) -> u8 {
        self._data
    }

    /// A record without text. In place of data it carries the byte 1.
    #[must_use]
    pub fn new() -> (made: Self)
        ensures
            made.spec_str() == Seq::<char>::empty(),
            made.data() == 1,
    {
        Self { _data: 1 }
    }
}

impl Subclass for OwnedSubclass {
    closed spec fn spec_str(&self) -> Seq<char> {
        Seq::empty()
    }

    fn str(&self) -> (text: &str) {
        proof {
            reveal_strlit("");
        }
        let text = "";
        assert(text@ =~= Seq::<char>::empty());
        text
    }
}

/// A database that owns its records.
pub type OwnedBuildableDb = BuildeableDbProvider<OwnedMagicRule, OwnedAlias, OwnedSubclass>;

} // verus!
