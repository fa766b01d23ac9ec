//! A database that is filled record by record.

use vstd::prelude::*;
use crate::db::db_traits::{Alias, MagicRule, Subclass};

verus! {

/// Three lists of records: magic rules, aliases and subclasses.
pub struct BuildeableDbProvider<R, A, S> where R: MagicRule + Clone, A: Alias + Clone, S: Subclass + Clone {
    magic_rules: Vec<R>,
    aliases: Vec<A>,
    subclasses: Vec<S>,
}

impl<R, A, S> BuildeableDbProvider<R, A, S> where
    R: MagicRule + Clone,
    A: Alias + Clone,
    S: Subclass + Clone,
 {
    /// The magic rules, in order.
    pub closed spec fn magic_rules(&self) -> Seq<R> {
        self.magic_rules@
    }

    /// The aliases, in order.
    pub closed spec fn aliases(&self) -> Seq<A> {
        self.aliases@
    }

    /// The subclass records, in order.
    pub closed spec fn subclasses(&self) -> Seq<S> {
        self.subclasses@
    }

    /// A database without records.
    #[must_use]
    pub fn new() -> (made: Self)
        ensures
            made.magic_rules() == Seq::<R>::empty(),
            made.aliases() == Seq::<A>::empty(),
            made.subclasses() == Seq::<S>::empty(),
    {
        Self { magic_rules: Vec::new(), aliases: Vec::new(), subclasses: Vec::new() }
    }

    /// The list of magic rules, to be changed in place.
    #[must_use]
    pub fn magic_rules_mut(&mut self) -> (list: &mut Vec<R>)
        ensures
            list@ == old(self).magic_rules(),
            final(self).magic_rules() == final(list)@,
            final(self).aliases() == old(self).aliases(),
            final(self).subclasses() == old(self).subclasses(),
    {
        &mut self.magic_rules
    }

    /// The list of aliases, to be changed in place.
    #[must_use]
    pub fn aliases_mut(&mut self) -> (list: &mut Vec<A>)
        ensures
            list@ == old(self).aliases(),
            final(self).aliases() == final(list)@,
            final(self).magic_rules() == old(self).magic_rules(),
            final(self).subclasses() == old(self).subclasses(),
    {
        &mut self.aliases
    }

    /// The list of subclass records, to be changed in place.
    #[must_use]
    pub fn subclasses_mut(&mut self) -> (list: &mut Vec<S>)
        ensures
            list@ == old(self).subclasses(),
            final(self).subclasses() == final(list)@,
            final(self).magic_rules() == old(self).magic_rules(),
            final(self).aliases() == old(self).aliases(),
    {
        &mut self.subclasses
    }

    /// Removes all records.
    pub fn clear(&mut self)
        ensures
            final(self).magic_rules() == Seq::<R>::empty(),
            final(self).aliases() == Seq::<A>::empty(),
            final(self).subclasses() == Seq::<S>::empty(),
    {
        self.magic_rules.clear();
        self.aliases.clear();
        self.subclasses.clear();
    }
}

} // verus!
