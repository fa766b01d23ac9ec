//! A database whose files were read into memory.

use vstd::prelude::*;
use crate::magic::MagicRule;
use crate::ruleset::{
    MagicRuleParseError, table_model, table_canonical, add_entries, all_entries, first_error,
    from_multiple,
};

verus! {

/// The magic files, the alias text and the subclass text of a database, as
/// loaded.
pub struct LoadedDatabase {
    /// The files loaded into memory.
    runtime_rules: Vec<Vec<u8>>,
    alias_string: String,
    subclass_string: String,
}

impl LoadedDatabase {
    /// The magic files, in the order in which they were loaded.
    pub closed spec fn files(&self) -> Seq<Seq<u8>> {
        self.runtime_rules.deep_view()
    }

    /// The alias text.
    pub closed spec fn alias_text(&self) -> Seq<char> {
        self.alias_string@
    }

    /// The subclass text.
    pub closed spec fn subclass_text(&self) -> Seq<char> {
        self.subclass_string@
    }

    /// A database of the given magic files, alias text and subclass text.
    pub fn new(runtime_rules: Vec<Vec<u8>>, alias_string: String, subclass_string: String) -> (made: Self)
        ensures
            made.files() == runtime_rules.deep_view(),
            made.alias_text() == alias_string@,
            made.subclass_text() == subclass_string@,
    {
        Self { runtime_rules, alias_string, subclass_string }
    }

    /// The rules of all magic files by type. Each file is read on its own;
    /// the first error is returned with what could be read.
    pub fn rules(&self) -> (out: Result<
        Vec<(String, Vec<MagicRule>)>,
        (Vec<(String, Vec<MagicRule>)>, MagicRuleParseError),
    >)
        ensures
            match out {
                Ok(table) => first_error(self.files()) is None && table_model(table@) == add_entries(
                    Seq::empty(),
                    all_entries(self.files()),
                ) && table_canonical(table@),
                Err((table, error)) => first_error(self.files()) == Some(error) && table_model(table@)
                    == add_entries(Seq::empty(), all_entries(self.files())) && table_canonical(table@),
            },
    {
        from_multiple(&self.runtime_rules)
    }

    /// The alias text.
    pub fn aliases(&self) -> (text: &str)
        ensures
            text@ == self.alias_text(),
    {
        self.alias_string.as_str()
    }

    /// The subclass text.
    pub fn subclasses(&self) -> (text: &str)
        ensures
            text@ == self.subclass_text(),
    {
        self.subclass_string.as_str()
    }
}

} // verus!
