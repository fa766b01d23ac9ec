//! Records that borrow their data.

use vstd::prelude::*;
use std::marker::PhantomData;
use crate::magic::RuleModel;
use crate::db::db_traits::{Alias, MagicRule, Subclass};
use crate::db::buildable_db_provider::BuildeableDbProvider;

verus! {

/// An alias that borrows its two names.
#[derive(Clone, Copy)]
pub struct BorrowedAlias<'a> {
    alias: &'a str,
    name: &'a str,
}

impl<'a> BorrowedAlias<'a> {
    /// An alias record: `alias` stands for `name`.
    #[must_use]
    pub fn new(alias: &'a str, name: &'a str) -> (made: Self)
        ensures
            made.spec_alias() == alias@,
            made.spec_name() == name@,
    {
        Self { alias, name }
    }
}

impl<'a> Alias for BorrowedAlias<'a> {
    closed spec fn spec_alias(&self) -> Seq<char> {
        self.alias@
    }

    closed spec fn spec_name(&self) -> Seq<char> {
        self.name@
    }

    fn alias(&self) -> (alias: &str) {
        self.alias
    }

    fn name(&self) -> (name: &str) {
        self.name
    }
}

/// A magic rule that borrows its data.
#[derive(Clone, Copy)]
pub struct BorrowedMagicRule<'a> {
    priority: u32,
    mime_type: &'a str,
    indent_level: u32,
    start_off: u32,
    val: &'a [u8],
    mask: &'a [u8],
    word_len: u32,
    region_len: u32,
}

impl<'a> BorrowedMagicRule<'a> {
    /// A rule of the type `mime_type`. An empty `mask` stands for no masking.
    #[must_use]
    pub fn new(
        priority: u32,
        mime_type: &'a str,
        indent_level: u32,
        start_off: u32,
        val: &'a [u8],
        mask: &'a [u8],
        word_len: u32,
        region_len: u32,
    ) -> (made: Self)
        ensures
            made.spec_priority() == priority,
            made.spec_mime_type() == mime_type@,
            made.model() == (RuleModel {
                indent_level,
                start_off,
                val: val@,
                mask: mask@,
                word_len,
                region_len,
            }),
    {
        Self { priority, mime_type, indent_level, start_off, val, mask, word_len, region_len }
    }
}

impl<'a> MagicRule for BorrowedMagicRule<'a> {
    closed spec fn spec_priority(&self) -> u32 {
        self.priority
    }

    closed spec fn spec_mime_type(&self) -> Seq<char> {
        self.mime_type@
    }

    closed spec fn model(&self) -> RuleModel {
        RuleModel {
            indent_level: self.indent_level,
            start_off: self.start_off,
            val: self.val@,
            mask: self.mask@,
            word_len: self.word_len,
            region_len: self.region_len,
        }
    }

    fn priority(&self) -> (priority: u32) {
        self.priority
    }

    fn mime_type(&self) -> (mime_type: &str) {
        self.mime_type
    }

    fn indent_level(&self) -> (indent_level: u32) {
        self.indent_level
    }

    fn start_off(&self) -> (start_off: u32) {
        self.start_off
    }

    fn val(&self) -> (val: &[u8]) {
        self.val
    }

    fn mask(&self) -> (mask: &[u8]) {
        self.mask
    }

    fn word_len(&self) -> (word_len: u32) {
        self.word_len
    }

    fn region_len(&self) -> (region_len: u32) {
        self.region_len
    }
}

/// A subclass record that borrows its data. It holds no text.
#[derive(Clone, Copy)]
pub struct BorrowedSubclass<'a> {
    _data: PhantomData<&'a ()>,
}

impl<'a> BorrowedSubclass<'a> {
    /// A record without text.
    #[must_use]
    pub fn new() -> (made: Self)
        ensures
            made.spec_str() == Seq::<char>::empty(),
    {
        Self { _data: PhantomData }
    }
}

impl<'a> Subclass for BorrowedSubclass<'a> {
    closed spec fn spec_str(&self) -> Seq<char> {
        Seq::empty()
    }

    fn str(&self) -> (text: &str) {
        proof {
            reveal_strlit("");
        }
        let text = "";
        assert(text@ =~= Seq::<char>::empty());
        text
    }
}

/// A database of borrowed records.
pub type BorrowedBuildableDb<'a> = BuildeableDbProvider<
    BorrowedMagicRule<'a>,
    BorrowedAlias<'a>,
    BorrowedSubclass<'a>,
>;

} // verus!
