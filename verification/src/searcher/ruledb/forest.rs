//! A rule store built on the table method.

use vstd::prelude::*;

pub mod function;
pub mod table_method;
pub mod table_view;

pub use function::{Function, IntOrInf};
pub use table_method::{ForestRuleKey, TableMethod};

verus! {

/// A rule store that tells, with the table method, which classes have
/// infinitely many terms accounted for.
pub struct ForestRuleDB {
    reverse: bool,
    table_method: TableMethod,
}

impl ForestRuleDB {
    /// Whether rules are meant to be read from the children to the parent.
    pub closed spec fn reverse(&self) -> bool {
        self.reverse
    }

    /// The table that the rules went into.
    pub closed spec fn table(&self) -> TableMethod {
        self.table_method
    }

    pub open spec fn wf(&self) -> bool {
        self.table().wf()
    }

    /// A store without rules.
    pub fn new(reverse: bool) -> (db: ForestRuleDB)
        ensures
            db.wf(),
            db.reverse() == reverse,
            db.table()@ == table_view::TableView::empty(),
    {
        ForestRuleDB { reverse, table_method: TableMethod::new() }
    }

    /// Adds a rule to the table.
    pub fn add_rule_key(&mut self, rule_key: ForestRuleKey)
        requires
            old(self).wf(),
            rule_key.wf(),
        ensures
            final(self).wf(),
            final(self).reverse() == old(self).reverse(),
            exists|n: nat|
                final(self).table()@ == #[trigger] old(self).table()@.with_rule(rule_key).run(n),
            final(self).table()@.quiet(),
            final(self).table().rules() == old(self).table().rules().push(rule_key),
            table_method::grows(old(self).table().values(), final(self).table().values()),
            table_method::settled(final(self).table().rules(), final(self).table().values()),
    {
        self.table_method.add_rule_key(rule_key);
    }

    /// Whether `class` has infinitely many terms accounted for.
    pub fn is_pumping(&self, class: u32) -> (b: bool)
        requires
            self.wf(),
        ensures
            b == (self.table().value_of(class) == IntOrInf::Infinity),
    {
        self.table_method.is_pumping(class)
    }
}

} // verus!
