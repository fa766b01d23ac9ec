//! A database in the form in which it lies on disk: the magic files as
//! bytes, the alias and subclass files as text.

use vstd::prelude::*;
use vstd::string::StringExecFns;
use std::path::PathBuf;

verus! {

/// `std::path::PathBuf`, declared so that it can stand in a variant.
#[verifier::external_type_specification]
#[verifier::external_body]
pub struct ExPathBuf(PathBuf);

/// A raw database that is filled piece by piece.
pub struct BuildeableDb {
    magic_rules: Vec<u8>,
    alias_string: String,
    subclass_string: String,
}

impl BuildeableDb {
    /// The magic rules collected so far.
    pub closed spec fn magic_rules(&self) -> Seq<u8> {
        self.magic_rules@
    }

    /// The alias text collected so far.
    pub closed spec fn aliases(&self) -> Seq<char> {
        self.alias_string@
    }

    /// The subclass text collected so far.
    pub closed spec fn subclasses(&self) -> Seq<char> {
        self.subclass_string@
    }

    /// An empty database.
    pub fn new() -> (made: Self)
        ensures
            made.magic_rules() == Seq::<u8>::empty(),
            made.aliases() == Seq::<char>::empty(),
            made.subclasses() == Seq::<char>::empty(),
    {
        Self { magic_rules: Vec::new(), alias_string: String::new(), subclass_string: String::new() }
    }

    /// Appends magic rules, which must end with a newline.
    pub fn add_magic_rules(&mut self, magic_rules: &[u8])
        ensures
            final(self).magic_rules() == old(self).magic_rules() + magic_rules@,
            final(self).aliases() == old(self).aliases(),
            final(self).subclasses() == old(self).subclasses(),
    {
        self.magic_rules.extend_from_slice(magic_rules);
    }

    /// Appends alias lines, which must end with a newline.
    pub fn add_aliases(&mut self, alias_string: &str)
        ensures
            final(self).aliases() == old(self).aliases() + alias_string@,
            final(self).magic_rules() == old(self).magic_rules(),
            final(self).subclasses() == old(self).subclasses(),
    {
        self.alias_string.append(alias_string);
    }

    /// Appends subclass lines.
    pub fn add_subclasses(&mut self, subclass_string: &str)
        ensures
            final(self).subclasses() == old(self).subclasses() + subclass_string@,
            final(self).magic_rules() == old(self).magic_rules(),
            final(self).aliases() == old(self).aliases(),
    {
        self.subclass_string.append(subclass_string);
    }
}

/// The raw database as stored on disk.
pub struct XdbGuts {
    /// All magic files, one after the other.
    magic_rules: Vec<u8>,
    /// All alias files, one after the other.
    alias_string: String,
    /// All subclass files, one after the other.
    subclass_string: String,
}

/// Why a shared MIME database could not be loaded.
#[derive(Debug, PartialEq, Eq)]
pub enum LoadXdbSharedMagicError {
    /// No such file or directory.
    NotFound { file: PathBuf },
    /// The platform has no shared MIME database.
    UnsupportedPlatform { unsupported_platform: &'static str },
}

} // verus!
