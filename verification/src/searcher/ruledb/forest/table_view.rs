//! What the table method does, told over plain values: the state of a
//! table, and how it changes when a rule is added and the queue is worked
//! off.

use super::function::{extended, gap_at, value_at, IntOrInf};
use super::table_method::{can_give, largest_shift, ForestRuleKey};
use vstd::prelude::*;

verus! {

/// The state of a table.
pub struct TableView {
    /// The rules, in the order in which they came.
    pub rules: Seq<ForestRuleKey>,
    /// For each rule and each child of it, by how much the child is ahead of
    /// the parent; nothing where the child has an infinite value.
    pub shifts: Seq<Seq<Option<i64>>>,
    /// The values of the classes, zero for the classes beyond the end.
    pub values: Seq<IntOrInf>,
    /// The size that a gap has to have.
    pub gap_size: u64,
    /// The gap: no class has a value above its start and up to its end.
    pub current_gap: (u64, u64),
    /// For each class, the rules recorded as having it as parent.
    pub pumping: Map<u32, Seq<usize>>,
    /// For each class, the places recorded where a rule has it as child.
    pub using: Map<u32, Seq<(usize, usize)>>,
    /// The rules to look at, the next one first.
    pub queue: Seq<usize>,
    /// The rules held back because their parent has a value above the gap.
    pub holding: Seq<usize>,
}

/// What is recorded for `class` in `lists`; nothing where there is no entry.
pub open spec fn list_of<T>(lists: Map<u32, Seq<T>>, class: u32) -> Seq<T> {
    if lists.contains_key(class) {
        lists[class]
    } else {
        Seq::empty()
    }
}

/// `row` with every shift one lower.
pub open spec fn lowered(row: Seq<Option<i64>>) -> Seq<Option<i64>> {
    Seq::new(
        row.len(),
        |i: int|
            match row[i] {
                Some(x) => Some((x - 1) as i64),
                None => None,
            },
    )
}

/// `row` with the shift at `i` one higher.
pub open spec fn raised(row: Seq<Option<i64>>, i: int) -> Seq<Option<i64>> {
    match row[i] {
        Some(x) => row.update(i, Some((x + 1) as i64)),
        None => row,
    }
}

/// The shifts and the queue after the rows of the first `j` rules of `list`
/// are lowered, one after the other, and each rule queued that can give a
/// term then.
pub open spec fn lower_rows(
    shifts: Seq<Seq<Option<i64>>>,
    queue: Seq<usize>,
    list: Seq<usize>,
    j: nat,
) -> (Seq<Seq<Option<i64>>>, Seq<usize>)
    decreases j,
{
    if j == 0 {
        (shifts, queue)
    } else {
        let (s, q) = lower_rows(shifts, queue, list, (j - 1) as nat);
        let r = list[j - 1];
        let row = lowered(s[r as int]);
        (
            s.update(r as int, row),
            if can_give(row) {
                q.push(r)
            } else {
                q
            },
        )
    }
}

/// The shifts and the queue after the shifts at the first `j` places of
/// `list` are raised, one after the other, and each rule queued that can give
/// a term then.
pub open spec fn raise_cells(
    shifts: Seq<Seq<Option<i64>>>,
    queue: Seq<usize>,
    list: Seq<(usize, usize)>,
    j: nat,
) -> (Seq<Seq<Option<i64>>>, Seq<usize>)
    decreases j,
{
    if j == 0 {
        (shifts, queue)
    } else {
        let (s, q) = raise_cells(shifts, queue, list, (j - 1) as nat);
        let (r, i) = list[j - 1];
        let row = raised(s[r as int], i as int);
        (
            s.update(r as int, row),
            if can_give(row) {
                q.push(r)
            } else {
                q
            },
        )
    }
}

/// The shifts and the queue after the shifts at the first `j` places of
/// `list` are dropped, one after the other, and each rule queued that can
/// give a term then.
pub open spec fn clear_cells(
    shifts: Seq<Seq<Option<i64>>>,
    queue: Seq<usize>,
    list: Seq<(usize, usize)>,
    j: nat,
) -> (Seq<Seq<Option<i64>>>, Seq<usize>)
    decreases j,
{
    if j == 0 {
        (shifts, queue)
    } else {
        let (s, q) = clear_cells(shifts, queue, list, (j - 1) as nat);
        let (r, i) = list[j - 1];
        let row = s[r as int].update(i as int, None);
        (
            s.update(r as int, row),
            if can_give(row) {
                q.push(r)
            } else {
                q
            },
        )
    }
}

/// `holding` with `rule` added, unless it is there.
pub open spec fn held(holding: Seq<usize>, rule: usize) -> Seq<usize> {
    if holding.contains(rule) {
        holding
    } else {
        holding.push(rule)
    }
}

/// Whether `k` is where the first gap of size `size` starts: the smallest
/// `k` such that no value is above `k` and at most `k + size`.
pub open spec fn is_first_gap(values: Seq<IntOrInf>, size: int, k: int) -> bool {
    &&& 0 <= k
    &&& gap_at(values, k, size)
    &&& forall|k2: int| 0 <= k2 < k ==> !gap_at(values, k2, size)
}

/// Where the first gap of size `size` starts.
pub open spec fn first_gap(values: Seq<IntOrInf>, size: int) -> int {
    choose|k: int| is_first_gap(values, size, k)
}

/// There is one place where the first gap starts.
pub proof fn lemma_first_gap(values: Seq<IntOrInf>, size: int, k: int)
    requires
        is_first_gap(values, size, k),
    ensures
        first_gap(values, size) == k,
{
    let other = first_gap(values, size);
    assert(is_first_gap(values, size, other));
    if other < k {
        assert(!gap_at(values, other, size));
    }
    if k < other {
        assert(!gap_at(values, k, size));
    }
}

/// The shifts of a new rule, as the values of its classes make them.
pub open spec fn initial_row(values: Seq<IntOrInf>, rule: ForestRuleKey) -> Seq<Option<i64>> {
    Seq::new(
        rule.children@.len(),
        |i: int|
            match value_at(values, rule.parent) {
                IntOrInf::Infinity => None,
                IntOrInf::Int(pv) => match value_at(values, rule.children@[i]) {
                    IntOrInf::Infinity => None,
                    IntOrInf::Int(cv) => Some((cv + rule.shifts@[i] - pv) as i64),
                },
            },
    )
}

/// The places recorded once the first `j` children of the new rule `index`
/// are gone through: a place is recorded for each child with a finite value.
pub open spec fn registered(
    using: Map<u32, Seq<(usize, usize)>>,
    rule: ForestRuleKey,
    values: Seq<IntOrInf>,
    index: usize,
    j: nat,
) -> Map<u32, Seq<(usize, usize)>>
    decreases j,
{
    if j == 0 {
        using
    } else {
        let before = registered(using, rule, values, index, (j - 1) as nat);
        let child = rule.children@[j - 1];
        if value_at(values, child) != IntOrInf::Infinity {
            before.insert(child, list_of(before, child).push((index, (j - 1) as usize)))
        } else {
            before
        }
    }
}

impl TableView {
    /// The table without rules.
    pub open spec fn empty() -> TableView {
        TableView {
            rules: Seq::empty(),
            shifts: Seq::empty(),
            values: Seq::empty(),
            gap_size: 1,
            current_gap: (1, 1),
            pumping: Map::empty(),
            using: Map::empty(),
            queue: Seq::empty(),
            holding: Seq::empty(),
        }
    }

    /// Whether nothing waits.
    pub open spec fn quiet(self) -> bool {
        self.queue.len() == 0 && self.holding.len() == 0
    }

    /// The table with the gap found anew. Where the gap ends higher than
    /// before, the rules held back are queued again.
    pub open spec fn gap_corrected(self) -> TableView {
        let k = first_gap(self.values, self.gap_size as int);
        let new_gap = (k as u64, (k + self.gap_size) as u64);
        if new_gap.1 > self.current_gap.1 {
            TableView {
                queue: self.queue + self.holding,
                holding: Seq::empty(),
                current_gap: new_gap,
                ..self
            }
        } else {
            TableView { current_gap: new_gap, ..self }
        }
    }

    /// The table after the rule `rule_idx` was to give `class` a term:
    /// nothing changes where the value of `class` is infinite; the rule is
    /// held back where the value is above the gap; and else the value goes up
    /// by one, the gap is found anew if it starts elsewhere now, the shifts
    /// of the rules with `class` as parent are lowered and those at the
    /// places with `class` as child are raised.
    pub open spec fn increased(self, class: u32, rule_idx: usize) -> TableView {
        match value_at(self.values, class) {
            IntOrInf::Infinity => self,
            IntOrInf::Int(v) => if v > self.current_gap.1 {
                TableView { holding: held(self.holding, rule_idx), ..self }
            } else {
                let values = extended(self.values, class).update(
                    class as int,
                    IntOrInf::Int((v + 1) as u64),
                );
                let grown = TableView { values, ..self };
                let gapped = if grown.current_gap.0 != first_gap(values, self.gap_size as int) {
                    grown.gap_corrected()
                } else {
                    grown
                };
                let parents = list_of(gapped.pumping, class);
                let (lower, queue) = lower_rows(
                    gapped.shifts,
                    gapped.queue,
                    parents,
                    parents.len(),
                );
                let places = list_of(gapped.using, class);
                let (shifts, queue) = raise_cells(lower, queue, places, places.len());
                TableView { shifts, queue, ..gapped }
            },
        }
    }

    /// The table after the value of `class` is made infinite: the shifts at
    /// the places with `class` as child are dropped. Nothing changes where
    /// the value is infinite already.
    pub open spec fn made_infinite(self, class: u32) -> TableView {
        match value_at(self.values, class) {
            IntOrInf::Infinity => self,
            IntOrInf::Int(_) => {
                let values = extended(self.values, class).update(
                    class as int,
                    IntOrInf::Infinity,
                );
                let places = list_of(self.using, class);
                let (shifts, queue) = clear_cells(self.shifts, self.queue, places, places.len());
                TableView { values, shifts, queue, ..self }
            },
        }
    }

    /// The table one step on: the first rule of the queue is taken and, if it
    /// can give a term, gives it to its parent; or, where the queue is
    /// empty, the last of the rules held back is taken and the value of its
    /// parent made infinite. Nothing changes where nothing waits.
    pub open spec fn after_step(self) -> TableView {
        if self.queue.len() > 0 {
            let rule = self.queue[0];
            let rest = TableView { queue: self.queue.skip(1), ..self };
            if can_give(rest.shifts[rule as int]) {
                rest.increased(rest.rules[rule as int].parent, rule)
            } else {
                rest
            }
        } else if self.holding.len() > 0 {
            let rule = self.holding.last();
            let rest = TableView { holding: self.holding.drop_last(), ..self };
            rest.made_infinite(rest.rules[rule as int].parent)
        } else {
            self
        }
    }

    /// The table `n` steps on.
    pub open spec fn run(self, n: nat) -> TableView
        decreases n,
    {
        if n == 0 {
            self
        } else {
            self.run((n - 1) as nat).after_step()
        }
    }

    /// The table after `rule` is taken in, before the queue is worked off:
    /// the rule has its shifts, the gap has grown to the largest shift if
    /// that is larger, and if the parent has a finite value the rule is
    /// recorded for its parent and for its children with a finite value, and
    /// waits in the queue.
    pub open spec fn with_rule(self, rule: ForestRuleKey) -> TableView {
        let index = self.rules.len() as usize;
        let taken = TableView {
            rules: self.rules.push(rule),
            shifts: self.shifts.push(initial_row(self.values, rule)),
            ..self
        };
        let max_gap = largest_shift(rule.shifts@);
        let gapped = if max_gap > taken.gap_size {
            (TableView { gap_size: max_gap as u64, ..taken }).gap_corrected()
        } else {
            taken
        };
        if value_at(gapped.values, rule.parent) != IntOrInf::Infinity {
            TableView {
                pumping: gapped.pumping.insert(
                    rule.parent,
                    list_of(gapped.pumping, rule.parent).push(index),
                ),
                using: registered(
                    gapped.using,
                    rule,
                    gapped.values,
                    index,
                    rule.children@.len(),
                ),
                queue: gapped.queue.push(index),
                ..gapped
            }
        } else {
            gapped
        }
    }
}

/// Once nothing waits, nothing changes: however many steps it takes until
/// nothing waits, the table is the same then.
pub proof fn lemma_run_ends_in_one_state(table: TableView, n: nat, m: nat)
    requires
        table.run(n).quiet(),
        table.run(m).quiet(),
    ensures
        table.run(n) == table.run(m),
    decreases n + m,
{
    if n < m {
        lemma_quiet_stays(table, n, m);
    } else if m < n {
        lemma_quiet_stays(table, m, n);
    }
}

/// A table in which nothing waits stays as it is.
pub proof fn lemma_quiet_stays(table: TableView, n: nat, m: nat)
    requires
        table.run(n).quiet(),
        n <= m,
    ensures
        table.run(m) == table.run(n),
    decreases m,
{
    if n < m {
        lemma_quiet_stays(table, n, (m - 1) as nat);
    }
}

} // verus!
