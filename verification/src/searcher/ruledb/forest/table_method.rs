//! The table method: counts, rule by rule, how many terms of each class the
//! rules account for, and finds the classes for which there is no end to it.

use super::function::{extended, value_at, Function, IntOrInf, LABELS};
use super::table_view::{
    clear_cells, first_gap, held, initial_row, is_first_gap, lemma_first_gap, list_of, lower_rows,
    lowered, raise_cells, raised, registered, TableView,
};
use std::collections::{HashMap, VecDeque};
use vstd::prelude::*;

verus! {

broadcast use vstd::std_specs::hash::group_hash_axioms;

/// The kind of a rule.
#[derive(Debug, Clone, Copy, PartialEq, Eq, Structural)]
pub enum RuleBucket {
    Undefined,
    Verification,
    Equiv,
    Normal,
    Reverse,
}

/// For each class, the rules that have it as parent and the places where
/// rules have it as child.
pub struct RuleClassConnector {
    rule_using_class: HashMap<u32, Vec<(usize, usize)>>,
    rule_pumping_class: HashMap<u32, Vec<usize>>,
}

impl RuleClassConnector {
    /// The places recorded, class by class: a rule and a position among its
    /// children.
    pub closed spec fn using_map(&self) -> Map<u32, Seq<(usize, usize)>> {
        Map::new(
            |c: u32| self.rule_using_class@.contains_key(c),
            |c: u32| self.rule_using_class@[c]@,
        )
    }

    /// The rules recorded, class by class.
    pub closed spec fn pumping_map(&self) -> Map<u32, Seq<usize>> {
        Map::new(
            |c: u32| self.rule_pumping_class@.contains_key(c),
            |c: u32| self.rule_pumping_class@[c]@,
        )
    }

    /// The places recorded for `class`.
    pub open spec fn using(&self, class: u32) -> Seq<(usize, usize)> {
        list_of(self.using_map(), class)
    }

    /// The rules recorded for `class`.
    pub open spec fn pumping(&self, class: u32) -> Seq<usize> {
        list_of(self.pumping_map(), class)
    }

    /// A connector with nothing recorded.
    pub fn new() -> (connector: RuleClassConnector)
        ensures
            connector.using_map() == Map::<u32, Seq<(usize, usize)>>::empty(),
            connector.pumping_map() == Map::<u32, Seq<usize>>::empty(),
            forall|c: u32| #[trigger] connector.using(c) == Seq::<(usize, usize)>::empty(),
            forall|c: u32| #[trigger] connector.pumping(c) == Seq::<usize>::empty(),
    {
        let connector = RuleClassConnector {
            rule_using_class: HashMap::new(),
            rule_pumping_class: HashMap::new(),
        };
        assert(connector.using_map() =~= Map::<u32, Seq<(usize, usize)>>::empty());
        assert(connector.pumping_map() =~= Map::<u32, Seq<usize>>::empty());
        connector
    }

    /// Records that the rule `rule_idx` has `class` as parent.
    pub fn add_rule_pumping_class(&mut self, class: u32, rule_idx: usize)
        ensures
            final(self).pumping_map() == old(self).pumping_map().insert(
                class,
                old(self).pumping(class).push(rule_idx),
            ),
            final(self).using_map() == old(self).using_map(),
            final(self).pumping(class) == old(self).pumping(class).push(rule_idx),
            forall|c: u32| c != class ==> #[trigger] final(self).pumping(c) == old(self).pumping(c),
            forall|c: u32| #[trigger] final(self).using(c) == old(self).using(c),
    {
        let mut entry = match self.rule_pumping_class.remove(&class) {
            Some(list) => list,
            None => Vec::new(),
        };
        entry.push(rule_idx);
        self.rule_pumping_class.insert(class, entry);
        assert(self.pumping_map() =~= old(self).pumping_map().insert(
            class,
            old(self).pumping(class).push(rule_idx),
        ));
    }

    /// Records that the rule `rule_idx` has `class` as its child `child_idx`.
    pub fn add_rule_using_class(&mut self, class: u32, rule_idx: usize, child_idx: usize)
        ensures
            final(self).using_map() == old(self).using_map().insert(
                class,
                old(self).using(class).push((rule_idx, child_idx)),
            ),
            final(self).pumping_map() == old(self).pumping_map(),
            final(self).using(class) == old(self).using(class).push((rule_idx, child_idx)),
            forall|c: u32| c != class ==> #[trigger] final(self).using(c) == old(self).using(c),
            forall|c: u32| #[trigger] final(self).pumping(c) == old(self).pumping(c),
    {
        let mut entry = match self.rule_using_class.remove(&class) {
            Some(list) => list,
            None => Vec::new(),
        };
        entry.push((rule_idx, child_idx));
        self.rule_using_class.insert(class, entry);
        assert(self.using_map() =~= old(self).using_map().insert(
            class,
            old(self).using(class).push((rule_idx, child_idx)),
        ));
    }

    /// The rules recorded for `class`, if any was.
    pub fn get_rules_pumping_class(&self, class: u32) -> (rules: Option<&Vec<usize>>)
        ensures
            match rules {
                Some(list) => list@ == self.pumping(class),
                None => self.pumping(class) == Seq::<usize>::empty(),
            },
    {
        self.rule_pumping_class.get(&class)
    }

    /// The places recorded for `class`, if any was.
    pub fn get_rules_using_class(&self, class: u32) -> (places: Option<&Vec<(usize, usize)>>)
        ensures
            match places {
                Some(list) => list@ == self.using(class),
                None => self.using(class) == Seq::<(usize, usize)>::empty(),
            },
    {
        self.rule_using_class.get(&class)
    }

    /// Forgets what is recorded for `class`.
    pub fn remove_class_information(&mut self, class: u32)
        ensures
            final(self).using_map() == old(self).using_map().remove(class),
            final(self).pumping_map() == old(self).pumping_map().remove(class),
    {
        self.rule_using_class.remove(&class);
        self.rule_pumping_class.remove(&class);
        assert(self.using_map() =~= old(self).using_map().remove(class));
        assert(self.pumping_map() =~= old(self).pumping_map().remove(class));
    }
}

/// A rule as the table method sees it: the parent, the children, and for
/// each child by how much its number of terms is offset from the parent's.
#[derive(Debug)]
pub struct ForestRuleKey {
    pub parent: u32,
    pub children: Vec<u32>,
    pub shifts: Vec<i8>,
    pub bucket: RuleBucket,
}

impl ForestRuleKey {
    /// There is one shift for each child.
    pub open spec fn wf(&self) -> bool {
        self.children@.len() == self.shifts@.len()
    }

    /// The rule with these parts.
    pub fn new(parent: u32, children: Vec<u32>, shifts: Vec<i8>, bucket: RuleBucket) -> (key:
        ForestRuleKey)
        ensures
            key.parent == parent,
            key.children == children,
            key.shifts == shifts,
            key.bucket == bucket,
    {
        ForestRuleKey { parent, children, shifts, bucket }
    }

    /// The parent and the children.
    pub fn key(&self) -> (key: (&u32, &Vec<u32>))
        ensures
            *key.0 == self.parent,
            *key.1 == self.children,
    {
        (&self.parent, &self.children)
    }
}

/// The largest size a gap can have.
pub const MAX_GAP: u64 = 128;

/// No gap ends above this value.
pub const BOUND: u64 = 0x80_0000_0080;

/// No class has a number of terms above this value.
pub const CAP: u64 = 0x80_0000_0081;

/// Every number of `values` is at most `CAP`.
pub open spec fn capped(values: Seq<IntOrInf>) -> bool {
    forall|i: int|
        0 <= i < values.len() ==> (#[trigger] values[i] matches IntOrInf::Int(v) ==> v <= CAP)
}

/// What a value adds to the height.
pub open spec fn rung(value: IntOrInf) -> nat {
    match value {
        IntOrInf::Int(v) => v as nat,
        IntOrInf::Infinity => (CAP + 1) as nat,
    }
}

/// How far `values` have grown in all, infinity counting for `CAP + 1`.
pub open spec fn height(values: Seq<IntOrInf>) -> nat
    decreases values.len(),
{
    if values.len() == 0 {
        0
    } else {
        height(values.drop_last()) + rung(values.last())
    }
}

pub proof fn lemma_height_bound(values: Seq<IntOrInf>)
    requires
        capped(values),
    ensures
        height(values) <= values.len() * (CAP + 1),
    decreases values.len(),
{
    if values.len() > 0 {
        let front = values.drop_last();
        assert forall|i: int| 0 <= i < front.len() implies (
        #[trigger] front[i] matches IntOrInf::Int(v) ==> v <= CAP) by {
            assert(front[i] == values[i]);
        }
        lemma_height_bound(front);
        assert(values[values.len() - 1] == values.last());
        assert(front.len() * (CAP + 1) + (CAP + 1) == values.len() * (CAP + 1)) by (nonlinear_arith)
            requires
                front.len() + 1 == values.len(),
        ;
    }
}

pub proof fn lemma_height_extended(values: Seq<IntOrInf>, key: u32)
    ensures
        height(extended(values, key)) == height(values),
        capped(values) ==> capped(extended(values, key)),
    decreases key + 1 - values.len(),
{
    if key >= values.len() {
        let more = values.push(IntOrInf::Int(0));
        assert(more.drop_last() =~= values);
        assert(height(more) == height(values));
        if key >= more.len() {
            lemma_height_extended(more, key);
            assert(extended(more, key) =~= extended(values, key));
        } else {
            assert(extended(values, key) =~= more);
        }
        if capped(values) {
            assert forall|i: int| 0 <= i < extended(values, key).len() implies (
            #[trigger] extended(values, key)[i] matches IntOrInf::Int(v) ==> v <= CAP) by {
                if i < values.len() {
                    assert(extended(values, key)[i] == values[i]);
                }
            }
        }
    }
}

pub proof fn lemma_height_update(values: Seq<IntOrInf>, i: int, x: IntOrInf)
    requires
        0 <= i < values.len(),
    ensures
        height(values.update(i, x)) + rung(values[i]) == height(values) + rung(x),
    decreases values.len(),
{
    let after = values.update(i, x);
    if i == values.len() - 1 {
        assert(after.drop_last() =~= values.drop_last());
    } else {
        assert(after.drop_last() =~= values.drop_last().update(i, x));
        lemma_height_update(values.drop_last(), i, x);
    }
}

/// Whether a rule with these shifts can give its parent one more term: each
/// child that still has a finite number of terms is ahead of the parent.
pub open spec fn can_give(row: Seq<Option<i64>>) -> bool {
    forall|i: int| 0 <= i < row.len() ==> (#[trigger] row[i] matches Some(x) ==> x > 0)
}

/// The shift at position `i` of `row` is what the values of the parent and
/// of the child make it: nothing to say where the parent is infinite, no
/// shift where the child is, and else the child's value plus the rule's
/// shift minus the parent's value.
spec fn cell_ok(rule: ForestRuleKey, row: Seq<Option<i64>>, i: int, parent: IntOrInf, child: IntOrInf) -> bool {
    parent matches IntOrInf::Int(pv) ==> match child {
        IntOrInf::Int(cv) => row[i] matches Some(x) && x == cv + rule.shifts@[i] - pv,
        IntOrInf::Infinity => row[i] is None,
    }
}

/// The rows of shifts as plain values.
pub open spec fn rows(shifts: Seq<Vec<Option<i64>>>) -> Seq<Seq<Option<i64>>> {
    Seq::new(shifts.len(), |r: int| shifts[r]@)
}

/// Lowers every shift of `row` by one.
fn lower_row(row: &mut Vec<Option<i64>>)
    requires
        forall|i: int|
            0 <= i < old(row)@.len() ==> (#[trigger] old(row)@[i] matches Some(x) ==> x > i64::MIN),
    ensures
        final(row)@ == lowered(old(row)@),
        final(row)@.len() == old(row)@.len(),
        forall|i: int|
            0 <= i < old(row)@.len() ==> #[trigger] final(row)@[i] == match old(row)@[i] {
                Some(x) => Some((x - 1) as i64),
                None => None,
            },
{
    let mut i: usize = 0;
    while i < row.len()
        invariant
            i <= row.len(),
            row@.len() == old(row)@.len(),
            forall|j: int|
                0 <= j < old(row)@.len() ==> (#[trigger] old(row)@[j] matches Some(x) ==> x
                    > i64::MIN),
            forall|j: int| i <= j < row@.len() ==> #[trigger] row@[j] == old(row)@[j],
            forall|j: int|
                0 <= j < i ==> #[trigger] row@[j] == match old(row)@[j] {
                    Some(x) => Some((x - 1) as i64),
                    None => None,
                },
        decreases row.len() - i,
    {
        match row[i] {
            Some(x) => {
                assert(old(row)@[i as int] == Some(x));
                row[i] = Some(x - 1);
            },
            None => {},
        }
        i += 1;
    }
    assert(row@ =~= lowered(old(row)@));
}

/// Whether the parent of rule `r` has a finite value.
spec fn live(rules: Seq<ForestRuleKey>, f: Seq<IntOrInf>, r: int) -> bool {
    value_at(f, rules[r].parent) != IntOrInf::Infinity
}

/// The shift of child `i` of rule `r` fits the parent's value in `fp` and
/// the child's value in `fc`.
spec fn cell_good(
    rules: Seq<ForestRuleKey>,
    shifts: Seq<Vec<Option<i64>>>,
    fp: Seq<IntOrInf>,
    fc: Seq<IntOrInf>,
    r: int,
    i: int,
) -> bool {
    cell_ok(
        rules[r],
        shifts[r]@,
        i,
        value_at(fp, rules[r].parent),
        value_at(fc, rules[r].children@[i]),
    )
}

/// There is a row of shifts for each rule, with a shift for each child.
spec fn shapes_ok(rules: Seq<ForestRuleKey>, shifts: Seq<Vec<Option<i64>>>) -> bool {
    &&& shifts.len() == rules.len()
    &&& forall|r: int|
        0 <= r < rules.len() ==> (#[trigger] rules[r]).wf() && shifts[r]@.len()
            == rules[r].children@.len()
}

/// Every shift fits the values of `f`.
spec fn cells_ok(
    rules: Seq<ForestRuleKey>,
    shifts: Seq<Vec<Option<i64>>>,
    fp: Seq<IntOrInf>,
    fc: Seq<IntOrInf>,
) -> bool {
    forall|r: int, i: int|
        0 <= r < rules.len() && 0 <= i < rules[r].children@.len() ==> #[trigger] cell_good(
            rules,
            shifts,
            fp,
            fc,
            r,
            i,
        )
}

/// The shift of child `i` of rule `r` is within bounds: between the least
/// and the largest that values and rule shifts can give, and not further
/// ahead of the child's value than a rule shift can be.
spec fn cell_bounded(
    rules: Seq<ForestRuleKey>,
    shifts: Seq<Vec<Option<i64>>>,
    f: Seq<IntOrInf>,
    r: int,
    i: int,
) -> bool {
    shifts[r]@[i] matches Some(x) ==> {
        &&& -(CAP + MAX_GAP) <= x <= CAP + MAX_GAP
        &&& (value_at(f, rules[r].children@[i]) matches IntOrInf::Int(cv) ==> x <= cv + MAX_GAP)
    }
}

/// Every shift is within bounds, whether the parent of its rule has a finite
/// value or not.
spec fn bounded(rules: Seq<ForestRuleKey>, shifts: Seq<Vec<Option<i64>>>, f: Seq<IntOrInf>) -> bool {
    forall|r: int, i: int|
        0 <= r < rules.len() && 0 <= i < rules[r].children@.len() ==> #[trigger] cell_bounded(
            rules,
            shifts,
            f,
            r,
            i,
        )
}

/// Where the loop over the places of `class` stands with the bounds: the
/// shifts at the places of `done` are within the bounds that the new value of
/// `class` gives, the others within those of the old one.
spec fn bound_moving(
    rules: Seq<ForestRuleKey>,
    shifts: Seq<Vec<Option<i64>>>,
    before: Seq<IntOrInf>,
    after: Seq<IntOrInf>,
    class: u32,
    done: Seq<(usize, usize)>,
    r: int,
    i: int,
) -> bool {
    if rules[r].children@[i] == class && !done.contains((r as usize, i as usize)) {
        cell_bounded(rules, shifts, before, r, i)
    } else {
        cell_bounded(rules, shifts, after, r, i)
    }
}

/// Shifts that are within bounds stay so when values grow.
proof fn lemma_bounded_grows(
    rules: Seq<ForestRuleKey>,
    shifts: Seq<Vec<Option<i64>>>,
    before: Seq<IntOrInf>,
    after: Seq<IntOrInf>,
)
    requires
        bounded(rules, shifts, before),
        grows(before, after),
    ensures
        bounded(rules, shifts, after),
{
    assert forall|r: int, i: int|
        0 <= r < rules.len() && 0 <= i < rules[r].children@.len() implies #[trigger] cell_bounded(
        rules,
        shifts,
        after,
        r,
        i,
    ) by {
        assert(cell_bounded(rules, shifts, before, r, i));
        let child = rules[r].children@[i];
        assert(value_at(before, child).le(value_at(after, child)));
    }
}

/// `after` is `before` with the value of `class` one higher.
spec fn stepped(before: Seq<IntOrInf>, after: Seq<IntOrInf>, class: u32) -> bool {
    &&& value_at(before, class) matches IntOrInf::Int(v) && v < CAP && value_at(after, class)
        == IntOrInf::Int((v + 1) as u64)
    &&& forall|c: u32| c != class ==> #[trigger] value_at(after, c) == value_at(before, c)
    &&& capped(before)
    &&& capped(after)
}

/// Rule `r` waits in the queue or among the rules held back.
spec fn waiting(queue: Seq<usize>, holding: Seq<usize>, r: usize) -> bool {
    queue.contains(r) || holding.contains(r)
}

/// Every rule that could give its parent a term waits, but for `except`.
spec fn pending_ok(
    rules: Seq<ForestRuleKey>,
    shifts: Seq<Vec<Option<i64>>>,
    f: Seq<IntOrInf>,
    queue: Seq<usize>,
    holding: Seq<usize>,
    except: int,
) -> bool {
    forall|r: usize|
        r < rules.len() && r != except && live(rules, f, r as int) && can_give(shifts[r as int]@)
            ==> #[trigger] waiting(queue, holding, r)
}

/// Every entry of the queue is a rule.
spec fn queue_valid(rules: Seq<ForestRuleKey>, queue: Seq<usize>) -> bool {
    forall|j: int| 0 <= j < queue.len() ==> #[trigger] queue[j] < rules.len()
}

proof fn lemma_pushed_contains(queue: Seq<usize>, r: usize)
    ensures
        queue.push(r).contains(r),
        forall|x: usize| queue.contains(x) ==> #[trigger] queue.push(r).contains(x),
{
    assert(queue.push(r)[queue.len() as int] == r);
    assert forall|x: usize| queue.contains(x) implies #[trigger] queue.push(r).contains(x) by {
        let k = choose|k: int| 0 <= k < queue.len() && queue[k] == x;
        assert(queue.push(r)[k] == x);
    }
}

proof fn lemma_taken_contains<T>(list: Seq<T>, j: int, x: T)
    requires
        0 <= j < list.len(),
    ensures
        list.take(j + 1).contains(x) <==> list.take(j).contains(x) || list[j] == x,
        list.no_duplicates() ==> !list.take(j).contains(list[j]),
{
    let short = list.take(j);
    let long = list.take(j + 1);
    if short.contains(x) {
        let k = choose|k: int| 0 <= k < short.len() && short[k] == x;
        assert(long[k] == x);
    }
    if list[j] == x {
        assert(long[j] == x);
    }
    if long.contains(x) {
        let k = choose|k: int| 0 <= k < long.len() && long[k] == x;
        if k < j {
            assert(short[k] == x);
        }
    }
    if list.no_duplicates() && short.contains(list[j]) {
        let k = choose|k: int| 0 <= k < short.len() && short[k] == list[j];
        assert(list[k] == list[j]);
    }
}

/// Where the loop over the rules of `class` stands after `j` of them: the
/// rows of those rules are lowered, and no other row has changed.
spec fn lowering(
    rules: Seq<ForestRuleKey>,
    shifts: Seq<Vec<Option<i64>>>,
    before: Seq<IntOrInf>,
    after: Seq<IntOrInf>,
    class: u32,
    done: Seq<usize>,
    r: int,
    i: int,
) -> bool {
    if rules[r].parent == class && !done.contains(r as usize) {
        cell_good(rules, shifts, before, before, r, i)
    } else {
        cell_good(rules, shifts, after, before, r, i)
    }
}

/// The value of `class` has gone up by one: lowers the shifts of the rules
/// that have it as parent, and queues those that can give a term.
fn lower_pumping_rows(
    shifts: &mut Vec<Vec<Option<i64>>>,
    queue: &mut VecDeque<usize>,
    list: &Vec<usize>,
    Ghost(rules): Ghost<Seq<ForestRuleKey>>,
    Ghost(before): Ghost<Seq<IntOrInf>>,
    Ghost(after): Ghost<Seq<IntOrInf>>,
    Ghost(class): Ghost<u32>,
    Ghost(holding): Ghost<Seq<usize>>,
    Ghost(except): Ghost<int>,
)
    requires
        rules.len() <= usize::MAX,
        shapes_ok(rules, old(shifts)@),
        cells_ok(rules, old(shifts)@, before, before),
        stepped(before, after, class),
        forall|j: int|
            0 <= j < list@.len() ==> #[trigger] list@[j] < rules.len() && rules[list@[j] as int].parent
                == class,
        list@.no_duplicates(),
        forall|r: usize|
            r < rules.len() && rules[r as int].parent == class ==> #[trigger] list@.contains(r),
        queue_valid(rules, old(queue)@),
        pending_ok(rules, old(shifts)@, after, old(queue)@, holding, except),
        except == -1 || (0 <= except < rules.len() && rules[except].parent == class),
        bounded(rules, old(shifts)@, before),
    ensures
        shapes_ok(rules, final(shifts)@),
        cells_ok(rules, final(shifts)@, after, before),
        bounded(rules, final(shifts)@, before),
        queue_valid(rules, final(queue)@),
        pending_ok(rules, final(shifts)@, after, final(queue)@, holding, -1),
        (rows(final(shifts)@), final(queue)@) == lower_rows(
            rows(old(shifts)@),
            old(queue)@,
            list@,
            list@.len(),
        ),
{
    let mut j: usize = 0;
    proof {
        assert forall|r: int, i: int|
            0 <= r < rules.len() && 0 <= i < rules[r].children@.len() implies #[trigger] lowering(
            rules,
            shifts@,
            before,
            after,
            class,
            list@.take(0),
            r,
            i,
        ) by {
            assert(cell_good(rules, shifts@, before, before, r, i));
        }
    }
    while j < list.len()
        invariant
            j <= list.len(),
            rules.len() <= usize::MAX,
            shapes_ok(rules, shifts@),
            stepped(before, after, class),
            forall|k: int|
                0 <= k < list@.len() ==> #[trigger] list@[k] < rules.len() && rules[list@[k] as int].parent
                    == class,
            list@.no_duplicates(),
            forall|r: int, i: int|
                0 <= r < rules.len() && 0 <= i < rules[r].children@.len() ==> #[trigger] lowering(
                    rules,
                    shifts@,
                    before,
                    after,
                    class,
                    list@.take(j as int),
                    r,
                    i,
                ),
            queue_valid(rules, queue@),
            forall|r: usize|
                r < rules.len() && (r != except || list@.take(j as int).contains(r)) && live(
                    rules,
                    after,
                    r as int,
                ) && can_give(shifts@[r as int]@) ==> #[trigger] waiting(queue@, holding, r),
            (self::rows(shifts@), queue@) == lower_rows(
                self::rows(old(shifts)@),
                old(queue)@,
                list@,
                j as nat,
            ),
            bounded(rules, shifts@, before),
        decreases list.len() - j,
    {
        let r = list[j];
        let ghost rows = shifts@;
        let ghost waiters = queue@;
        proof {
            lemma_taken_contains(list@, j as int, r);
            assert(rules[r as int].wf());
            assert forall|i: int| 0 <= i < rows[r as int]@.len() implies (
            #[trigger] rows[r as int]@[i] matches Some(x) ==> x > i64::MIN) by {
                assert(lowering(rules, rows, before, after, class, list@.take(j as int), r as int, i));
            }
        }
        lower_row(&mut shifts[r]);
        if TableMethod::can_give_terms(&shifts[r]) {
            queue.push_back(r);
            proof {
                lemma_pushed_contains(waiters, r);
            }
        }
        proof {
            assert(self::rows(shifts@) =~= self::rows(rows).update(
                r as int,
                lowered(self::rows(rows)[r as int]),
            ));
            assert forall|q: int, i: int|
                0 <= q < rules.len() && 0 <= i < rules[q].children@.len() implies #[trigger] cell_bounded(
                rules,
                shifts@,
                before,
                q,
                i,
            ) by {
                assert(cell_bounded(rules, rows, before, q, i));
                if q != r {
                    assert(shifts@[q] == rows[q]);
                } else {
                    assert(lowering(rules, rows, before, after, class, list@.take(j as int), q, i));
                    assert(cell_good(rules, rows, before, before, q, i));
                }
            }
            assert forall|q: int| 0 <= q < rules.len() implies (#[trigger] rules[q]).wf()
                && shifts@[q]@.len() == rules[q].children@.len() by {
                if q != r {
                    assert(shifts@[q] == rows[q]);
                }
            }
            assert forall|q: int, i: int|
                0 <= q < rules.len() && 0 <= i < rules[q].children@.len() implies #[trigger] lowering(
                rules,
                shifts@,
                before,
                after,
                class,
                list@.take(j + 1),
                q,
                i,
            ) by {
                assert(lowering(rules, rows, before, after, class, list@.take(j as int), q, i));
                lemma_taken_contains(list@, j as int, q as usize);
                if q != r {
                    assert(shifts@[q] == rows[q]);
                }
            }
            assert forall|q: usize|
                q < rules.len() && (q != except || list@.take(j + 1).contains(q)) && live(
                    rules,
                    after,
                    q as int,
                ) && can_give(shifts@[q as int]@) implies #[trigger] waiting(queue@, holding, q) by {
                lemma_taken_contains(list@, j as int, q);
                if q != r {
                    assert(shifts@[q as int] == rows[q as int]);
                    assert(waiting(waiters, holding, q));
                }
            }
        }
        j += 1;
    }
    proof {
        assert(list@.take(j as int) =~= list@);
        assert forall|r: int, i: int|
            0 <= r < rules.len() && 0 <= i < rules[r].children@.len() implies #[trigger] cell_good(
            rules,
            shifts@,
            after,
            before,
            r,
            i,
        ) by {
            assert(lowering(rules, shifts@, before, after, class, list@, r, i));
            if rules[r].parent == class {
                assert(list@.contains(r as usize));
            }
        }
        assert forall|r: usize|
            r < rules.len() && r != -1 && live(rules, after, r as int) && can_give(
                shifts@[r as int]@,
            ) implies #[trigger] waiting(queue@, holding, r) by {
            if r == except {
                assert(list@.contains(r));
            }
        }
    }
}

/// `after` is `before` with the value of `class` made infinite.
spec fn vanished(before: Seq<IntOrInf>, after: Seq<IntOrInf>, class: u32) -> bool {
    &&& value_at(before, class) != IntOrInf::Infinity
    &&& value_at(after, class) == IntOrInf::Infinity
    &&& forall|c: u32| c != class ==> #[trigger] value_at(after, c) == value_at(before, c)
    &&& capped(before)
    &&& capped(after)
}

/// Where a loop over the places of `class` stands once the places of `done`
/// are seen to: the shifts there fit the new value of `class`, those at its
/// other places still fit the old one.
spec fn child_moving(
    rules: Seq<ForestRuleKey>,
    shifts: Seq<Vec<Option<i64>>>,
    before: Seq<IntOrInf>,
    after: Seq<IntOrInf>,
    class: u32,
    done: Seq<(usize, usize)>,
    r: int,
    i: int,
) -> bool {
    if rules[r].children@[i] == class && !done.contains((r as usize, i as usize)) {
        cell_good(rules, shifts, after, before, r, i)
    } else {
        cell_good(rules, shifts, after, after, r, i)
    }
}

/// The places recorded for `class` are places where `class` is a child, none
/// is recorded twice, and none is missing that belongs to a rule whose parent
/// has a finite value.
spec fn places_ok(
    rules: Seq<ForestRuleKey>,
    f: Seq<IntOrInf>,
    class: u32,
    list: Seq<(usize, usize)>,
) -> bool {
    &&& forall|j: int|
        0 <= j < list.len() ==> (#[trigger] list[j]).0 < rules.len() && list[j].1
            < rules[list[j].0 as int].children@.len()
            && rules[list[j].0 as int].children@[list[j].1 as int] == class
    &&& list.no_duplicates()
    &&& forall|r: usize, i: usize|
        r < rules.len() && i < rules[r as int].children@.len() && live(rules, f, r as int)
            && rules[r as int].children@[i as int] == class ==> #[trigger] list.contains((r, i))
}

/// The value of `class` has gone up by one: raises the shifts at the places
/// where it is a child, and queues the rules that can give a term.
fn raise_using_cells(
    shifts: &mut Vec<Vec<Option<i64>>>,
    queue: &mut VecDeque<usize>,
    list: &Vec<(usize, usize)>,
    Ghost(rules): Ghost<Seq<ForestRuleKey>>,
    Ghost(before): Ghost<Seq<IntOrInf>>,
    Ghost(after): Ghost<Seq<IntOrInf>>,
    Ghost(class): Ghost<u32>,
    Ghost(holding): Ghost<Seq<usize>>,
)
    requires
        rules.len() <= usize::MAX,
        shapes_ok(rules, old(shifts)@),
        cells_ok(rules, old(shifts)@, after, before),
        bounded(rules, old(shifts)@, before),
        stepped(before, after, class),
        places_ok(rules, after, class, list@),
        queue_valid(rules, old(queue)@),
        pending_ok(rules, old(shifts)@, after, old(queue)@, holding, -1),
    ensures
        shapes_ok(rules, final(shifts)@),
        cells_ok(rules, final(shifts)@, after, after),
        bounded(rules, final(shifts)@, after),
        queue_valid(rules, final(queue)@),
        pending_ok(rules, final(shifts)@, after, final(queue)@, holding, -1),
        (rows(final(shifts)@), final(queue)@) == raise_cells(
            rows(old(shifts)@),
            old(queue)@,
            list@,
            list@.len(),
        ),
{
    let mut j: usize = 0;
    proof {
        assert forall|r: int, i: int|
            0 <= r < rules.len() && 0 <= i < rules[r].children@.len() implies #[trigger] child_moving(
            rules,
            shifts@,
            before,
            after,
            class,
            list@.take(0),
            r,
            i,
        ) by {
            assert(cell_good(rules, shifts@, after, before, r, i));
        }
        assert forall|r: int, i: int|
            0 <= r < rules.len() && 0 <= i < rules[r].children@.len() implies #[trigger] bound_moving(
            rules,
            shifts@,
            before,
            after,
            class,
            list@.take(0),
            r,
            i,
        ) by {
            assert(cell_bounded(rules, shifts@, before, r, i));
        }
    }
    while j < list.len()
        invariant
            j <= list.len(),
            rules.len() <= usize::MAX,
            shapes_ok(rules, shifts@),
            stepped(before, after, class),
            places_ok(rules, after, class, list@),
            forall|r: int, i: int|
                0 <= r < rules.len() && 0 <= i < rules[r].children@.len() ==> #[trigger] child_moving(
                    rules,
                    shifts@,
                    before,
                    after,
                    class,
                    list@.take(j as int),
                    r,
                    i,
                ),
            forall|r: int, i: int|
                0 <= r < rules.len() && 0 <= i < rules[r].children@.len() ==> #[trigger] bound_moving(
                    rules,
                    shifts@,
                    before,
                    after,
                    class,
                    list@.take(j as int),
                    r,
                    i,
                ),
            queue_valid(rules, queue@),
            pending_ok(rules, shifts@, after, queue@, holding, -1),
            (self::rows(shifts@), queue@) == raise_cells(
                self::rows(old(shifts)@),
                old(queue)@,
                list@,
                j as nat,
            ),
        decreases list.len() - j,
    {
        let (r, i) = list[j];
        let ghost rows = shifts@;
        let ghost waiters = queue@;
        proof {
            lemma_taken_contains(list@, j as int, (r, i));
            assert(rules[r as int].wf());
            assert(bound_moving(
                rules,
                rows,
                before,
                after,
                class,
                list@.take(j as int),
                r as int,
                i as int,
            ));
            assert(cell_bounded(rules, rows, before, r as int, i as int));
        }
        match shifts[r][i] {
            Some(x) => {
                shifts[r][i] = Some(x + 1);
            },
            None => {},
        }
        proof {
            assert(shifts@[r as int]@ =~= raised(rows[r as int]@, i as int));
            assert(self::rows(shifts@) =~= self::rows(rows).update(
                r as int,
                raised(self::rows(rows)[r as int], i as int),
            ));
        }
        if TableMethod::can_give_terms(&shifts[r]) {
            queue.push_back(r);
            proof {
                lemma_pushed_contains(waiters, r);
            }
        }
        proof {
            assert forall|q: int| 0 <= q < rules.len() implies (#[trigger] rules[q]).wf()
                && shifts@[q]@.len() == rules[q].children@.len() by {
                if q != r {
                    assert(shifts@[q] == rows[q]);
                }
            }
            assert forall|q: int, n: int|
                0 <= q < rules.len() && 0 <= n < rules[q].children@.len() implies #[trigger] child_moving(
                rules,
                shifts@,
                before,
                after,
                class,
                list@.take(j + 1),
                q,
                n,
            ) by {
                assert(child_moving(rules, rows, before, after, class, list@.take(j as int), q, n));
                assert(rules[q].children.len() >= 0);
                lemma_taken_contains(list@, j as int, (q as usize, n as usize));
                if q != r {
                    assert(shifts@[q] == rows[q]);
                }
            }
            assert forall|q: int, n: int|
                0 <= q < rules.len() && 0 <= n < rules[q].children@.len() implies #[trigger] bound_moving(
                rules,
                shifts@,
                before,
                after,
                class,
                list@.take(j + 1),
                q,
                n,
            ) by {
                assert(bound_moving(rules, rows, before, after, class, list@.take(j as int), q, n));
                assert(rules[q].children.len() >= 0);
                lemma_taken_contains(list@, j as int, (q as usize, n as usize));
                if q != r {
                    assert(shifts@[q] == rows[q]);
                }
            }
            assert forall|q: usize|
                q < rules.len() && q != -1 && live(rules, after, q as int) && can_give(
                    shifts@[q as int]@,
                ) implies #[trigger] waiting(queue@, holding, q) by {
                if q != r {
                    assert(shifts@[q as int] == rows[q as int]);
                    assert(waiting(waiters, holding, q));
                }
            }
        }
        j += 1;
    }
    proof {
        assert(list@.take(j as int) =~= list@);
        assert forall|r: int, i: int|
            0 <= r < rules.len() && 0 <= i < rules[r].children@.len() implies #[trigger] cell_good(
            rules,
            shifts@,
            after,
            after,
            r,
            i,
        ) by {
            assert(child_moving(rules, shifts@, before, after, class, list@, r, i));
            assert(rules[r].children.len() >= 0);
            if live(rules, after, r) && rules[r].children@[i] == class {
                assert(list@.contains((r as usize, i as usize)));
            }
        }
        assert forall|r: int, i: int|
            0 <= r < rules.len() && 0 <= i < rules[r].children@.len() implies #[trigger] cell_bounded(
            rules,
            shifts@,
            after,
            r,
            i,
        ) by {
            assert(bound_moving(rules, shifts@, before, after, class, list@, r, i));
        }
    }
}

/// The value of `class` has become infinite: drops the shifts at the places
/// where it is a child, and queues the rules that can give a term.
fn clear_using_cells(
    shifts: &mut Vec<Vec<Option<i64>>>,
    queue: &mut VecDeque<usize>,
    list: &Vec<(usize, usize)>,
    Ghost(rules): Ghost<Seq<ForestRuleKey>>,
    Ghost(before): Ghost<Seq<IntOrInf>>,
    Ghost(after): Ghost<Seq<IntOrInf>>,
    Ghost(class): Ghost<u32>,
    Ghost(holding): Ghost<Seq<usize>>,
)
    requires
        rules.len() <= usize::MAX,
        shapes_ok(rules, old(shifts)@),
        cells_ok(rules, old(shifts)@, after, before),
        bounded(rules, old(shifts)@, before),
        vanished(before, after, class),
        places_ok(rules, after, class, list@),
        queue_valid(rules, old(queue)@),
        pending_ok(rules, old(shifts)@, after, old(queue)@, holding, -1),
    ensures
        shapes_ok(rules, final(shifts)@),
        cells_ok(rules, final(shifts)@, after, after),
        bounded(rules, final(shifts)@, after),
        queue_valid(rules, final(queue)@),
        pending_ok(rules, final(shifts)@, after, final(queue)@, holding, -1),
        forall|x: usize| old(queue)@.contains(x) ==> final(queue)@.contains(x),
        (rows(final(shifts)@), final(queue)@) == clear_cells(
            rows(old(shifts)@),
            old(queue)@,
            list@,
            list@.len(),
        ),
{
    let mut j: usize = 0;
    proof {
        assert forall|r: int, i: int|
            0 <= r < rules.len() && 0 <= i < rules[r].children@.len() implies #[trigger] child_moving(
            rules,
            shifts@,
            before,
            after,
            class,
            list@.take(0),
            r,
            i,
        ) by {
            assert(cell_good(rules, shifts@, after, before, r, i));
        }
    }
    while j < list.len()
        invariant
            j <= list.len(),
            rules.len() <= usize::MAX,
            shapes_ok(rules, shifts@),
            vanished(before, after, class),
            places_ok(rules, after, class, list@),
            forall|r: int, i: int|
                0 <= r < rules.len() && 0 <= i < rules[r].children@.len() ==> #[trigger] child_moving(
                    rules,
                    shifts@,
                    before,
                    after,
                    class,
                    list@.take(j as int),
                    r,
                    i,
                ),
            queue_valid(rules, queue@),
            pending_ok(rules, shifts@, after, queue@, holding, -1),
            forall|x: usize| old(queue)@.contains(x) ==> queue@.contains(x),
            (self::rows(shifts@), queue@) == clear_cells(
                self::rows(old(shifts)@),
                old(queue)@,
                list@,
                j as nat,
            ),
            bounded(rules, shifts@, before),
        decreases list.len() - j,
    {
        let (r, i) = list[j];
        let ghost rows = shifts@;
        let ghost waiters = queue@;
        proof {
            lemma_taken_contains(list@, j as int, (r, i));
            assert(rules[r as int].wf());
        }
        shifts[r][i] = None;
        proof {
            assert(self::rows(shifts@) =~= self::rows(rows).update(
                r as int,
                self::rows(rows)[r as int].update(i as int, None),
            ));
            assert forall|q: int, n: int|
                0 <= q < rules.len() && 0 <= n < rules[q].children@.len() implies #[trigger] cell_bounded(
                rules,
                shifts@,
                before,
                q,
                n,
            ) by {
                assert(cell_bounded(rules, rows, before, q, n));
                if q != r {
                    assert(shifts@[q] == rows[q]);
                }
            }
        }
        if TableMethod::can_give_terms(&shifts[r]) {
            queue.push_back(r);
            proof {
                lemma_pushed_contains(waiters, r);
            }
        }
        proof {
            assert forall|q: int| 0 <= q < rules.len() implies (#[trigger] rules[q]).wf()
                && shifts@[q]@.len() == rules[q].children@.len() by {
                if q != r {
                    assert(shifts@[q] == rows[q]);
                }
            }
            assert forall|q: int, n: int|
                0 <= q < rules.len() && 0 <= n < rules[q].children@.len() implies #[trigger] child_moving(
                rules,
                shifts@,
                before,
                after,
                class,
                list@.take(j + 1),
                q,
                n,
            ) by {
                assert(child_moving(rules, rows, before, after, class, list@.take(j as int), q, n));
                assert(rules[q].children.len() >= 0);
                lemma_taken_contains(list@, j as int, (q as usize, n as usize));
                if q != r {
                    assert(shifts@[q] == rows[q]);
                }
            }
            assert forall|q: usize|
                q < rules.len() && q != -1 && live(rules, after, q as int) && can_give(
                    shifts@[q as int]@,
                ) implies #[trigger] waiting(queue@, holding, q) by {
                if q != r {
                    assert(shifts@[q as int] == rows[q as int]);
                    assert(waiting(waiters, holding, q));
                }
            }
        }
        j += 1;
    }
    proof {
        assert(list@.take(j as int) =~= list@);
        assert forall|r: int, i: int|
            0 <= r < rules.len() && 0 <= i < rules[r].children@.len() implies #[trigger] cell_good(
            rules,
            shifts@,
            after,
            after,
            r,
            i,
        ) by {
            assert(child_moving(rules, shifts@, before, after, class, list@, r, i));
            assert(rules[r].children.len() >= 0);
            if live(rules, after, r) && rules[r].children@[i] == class {
                assert(list@.contains((r as usize, i as usize)));
            }
        }
        assert forall|r: int, i: int|
            0 <= r < rules.len() && 0 <= i < rules[r].children@.len() implies #[trigger] cell_bounded(
            rules,
            shifts@,
            after,
            r,
            i,
        ) by {
            assert(cell_bounded(rules, shifts@, before, r, i));
        }
    }
}

/// The places recorded for `class` while the children of rule `fresh` are
/// gone through, `done` of them so far: they are places where `class` is a
/// child, none is recorded twice, and while `class` has a finite value none
/// is missing that belongs to a rule whose parent has a finite value, among
/// the rules before `fresh` and the first `done` children of `fresh`.
spec fn places_growing(
    rules: Seq<ForestRuleKey>,
    f: Seq<IntOrInf>,
    class: u32,
    list: Seq<(usize, usize)>,
    fresh: int,
    done: int,
) -> bool {
    &&& forall|j: int|
        0 <= j < list.len() ==> (#[trigger] list[j]).0 < rules.len() && list[j].1
            < rules[list[j].0 as int].children@.len()
            && rules[list[j].0 as int].children@[list[j].1 as int] == class && (list[j].0 < fresh
            || (list[j].0 == fresh && list[j].1 < done))
    &&& list.no_duplicates()
    &&& value_at(f, class) != IntOrInf::Infinity ==> forall|r: usize, i: usize|
        r < rules.len() && i < rules[r as int].children@.len() && live(rules, f, r as int)
            && rules[r as int].children@[i as int] == class && (r < fresh || (r == fresh && i
            < done)) ==> #[trigger] list.contains((r, i))
}

/// The rules recorded for `class` are rules with that parent, none is
/// recorded twice, and none is missing while the class has a finite value.
spec fn parents_ok(
    rules: Seq<ForestRuleKey>,
    f: Seq<IntOrInf>,
    class: u32,
    list: Seq<usize>,
) -> bool {
    &&& forall|j: int|
        0 <= j < list.len() ==> #[trigger] list[j] < rules.len() && rules[list[j] as int].parent
            == class
    &&& list.no_duplicates()
    &&& forall|r: usize|
        r < rules.len() && rules[r as int].parent == class && live(rules, f, r as int)
            ==> #[trigger] list.contains(r)
}

/// The rules held back are rules, none twice, and the parent of each has
/// a value above the gap.
spec fn holding_ok(
    rules: Seq<ForestRuleKey>,
    f: Seq<IntOrInf>,
    holding: Seq<usize>,
    gap_upper: u64,
) -> bool {
    &&& holding.no_duplicates()
    &&& forall|j: int|
        0 <= j < holding.len() ==> #[trigger] holding[j] < rules.len() && (value_at(
            f,
            rules[holding[j] as int].parent,
        ) matches IntOrInf::Int(v) ==> v > gap_upper)
}

/// No value of `before` is above its value in `after`.
pub open spec fn grows(before: Seq<IntOrInf>, after: Seq<IntOrInf>) -> bool {
    forall|c: u32| (#[trigger] value_at(before, c)).le(value_at(after, c))
}

/// Every rule whose parent has a finite value has a child that holds it
/// back: one with a finite value that, shifted, is not above the parent's.
pub open spec fn settled(rules: Seq<ForestRuleKey>, f: Seq<IntOrInf>) -> bool {
    forall|r: int|
        0 <= r < rules.len() && (value_at(f, (#[trigger] rules[r]).parent) matches IntOrInf::Int(
            pv,
        )) ==> exists|i: int|
            0 <= i < rules[r].children@.len() && (#[trigger] value_at(f, rules[r].children@[i])
                matches IntOrInf::Int(cv) && cv + rules[r].shifts@[i] <= value_at(
                f,
                rules[r].parent,
            )->Int_0)
}

/// Whether `class` is the parent of a rule of `rules`.
pub open spec fn has_rule(rules: Seq<ForestRuleKey>, class: u32) -> bool {
    exists|r: int| 0 <= r < rules.len() && (#[trigger] rules[r]).parent == class
}

/// Every class whose value is not zero is the parent of a rule.
pub open spec fn grounded(rules: Seq<ForestRuleKey>, f: Seq<IntOrInf>) -> bool {
    forall|c: u32| #[trigger] value_at(f, c) != IntOrInf::Int(0) ==> has_rule(rules, c)
}

/// Whether the children of rule `r` are all described down to atoms within
/// `depth` steps.
pub open spec fn children_described(rules: Seq<ForestRuleKey>, r: int, depth: nat) -> bool
    decreases depth, 1nat,
{
    forall|i: int|
        0 <= i < rules[r].children@.len() ==> described(
            rules,
            #[trigger] rules[r].children@[i],
            depth,
        )
}

/// Whether the rules describe `class` down to atoms within `depth` steps: it
/// is the parent of a rule whose children all are described in fewer steps.
pub open spec fn described(rules: Seq<ForestRuleKey>, class: u32, depth: nat) -> bool
    decreases depth, 0nat,
{
    exists|r: int|
        0 <= r < rules.len() && (#[trigger] rules[r]).parent == class && (rules[r].children@.len()
            == 0 || (depth > 0 && children_described(rules, r, (depth - 1) as nat)))
}

/// Where the values are settled, a class that the rules describe down to
/// atoms has infinitely many terms: the parent of a rule without children
/// has, and so has the parent of a rule whose children all have.
pub proof fn lemma_described_classes_pump(
    rules: Seq<ForestRuleKey>,
    f: Seq<IntOrInf>,
    class: u32,
    depth: nat,
)
    requires
        settled(rules, f),
        described(rules, class, depth),
    ensures
        value_at(f, class) == IntOrInf::Infinity,
    decreases depth,
{
    let r = choose|r: int|
        0 <= r < rules.len() && (#[trigger] rules[r]).parent == class && (rules[r].children@.len()
            == 0 || (depth > 0 && children_described(rules, r, (depth - 1) as nat)));
    if value_at(f, class) != IntOrInf::Infinity {
        let i = choose|i: int|
            0 <= i < rules[r].children@.len() && (#[trigger] value_at(f, rules[r].children@[i])
                matches IntOrInf::Int(cv) && cv + rules[r].shifts@[i] <= value_at(
                f,
                rules[r].parent,
            )->Int_0);
        assert(described(rules, rules[r].children@[i], (depth - 1) as nat));
        lemma_described_classes_pump(rules, f, rules[r].children@[i], (depth - 1) as nat);
    }
}

/// The values after the value of `key` is set to `x`.
pub proof fn lemma_value_after(values: Seq<IntOrInf>, key: u32, x: IntOrInf)
    ensures
        value_at(extended(values, key).update(key as int, x), key) == x,
        forall|c: u32|
            c != key ==> #[trigger] value_at(extended(values, key).update(key as int, x), c)
                == value_at(values, c),
        height(extended(values, key).update(key as int, x)) + rung(value_at(values, key))
            == height(values) + rung(x),
        capped(values) && (x matches IntOrInf::Int(v) ==> v <= CAP) ==> capped(
            extended(values, key).update(key as int, x),
        ),
{
    let wide = extended(values, key);
    let after = wide.update(key as int, x);
    lemma_height_extended(values, key);
    lemma_height_update(wide, key as int, x);
    assert(wide[key as int] == value_at(values, key));
    assert forall|c: u32| c != key implies #[trigger] value_at(after, c) == value_at(values, c) by {
        if c < values.len() {
            assert(wide[c as int] == values[c as int]);
        } else if c < wide.len() {
            assert(wide[c as int] == IntOrInf::Int(0));
        }
    }
    if capped(values) && (x matches IntOrInf::Int(v) ==> v <= CAP) {
        assert forall|i: int| 0 <= i < after.len() implies (
        #[trigger] after[i] matches IntOrInf::Int(v) ==> v <= CAP) by {
            if i != key {
                assert(after[i] == wide[i]);
            }
        }
    }
}

/// Finds, rule after rule, how many terms of each class the rules account
/// for, and which classes have infinitely many.
pub struct TableMethod {
    rules: Vec<ForestRuleKey>,
    shifts: Vec<Vec<Option<i64>>>,
    function: Function,
    gap_size: u64,
    rule_class_connector: RuleClassConnector,
    processing_queue: VecDeque<usize>,
    current_gap: (u64, u64),
    rule_holding_extra_terms: Vec<usize>,
}

impl View for TableMethod {
    type V = TableView;

    closed spec fn view(&self) -> TableView {
        TableView {
            rules: self.rules@,
            shifts: rows(self.shifts@),
            values: self.function@,
            gap_size: self.gap_size,
            current_gap: self.current_gap,
            pumping: self.rule_class_connector.pumping_map(),
            using: self.rule_class_connector.using_map(),
            queue: self.processing_queue@,
            holding: self.rule_holding_extra_terms@,
        }
    }
}

impl TableMethod {
    /// The rules added so far, in order.
    pub open spec fn rules(&self) -> Seq<ForestRuleKey> {
        self@.rules
    }

    /// The values of the classes, as far as classes were touched.
    pub open spec fn values(&self) -> Seq<IntOrInf> {
        self@.values
    }

    /// The value of `class`.
    pub open spec fn value_of(&self, class: u32) -> IntOrInf {
        value_at(self.values(), class)
    }

    /// What holds while rules are worked off.
    closed spec fn inv(&self) -> bool {
        &&& self.function.wf()
        &&& capped(self.function@)
        &&& 1 <= self.gap_size <= MAX_GAP
        &&& self.current_gap.1 <= BOUND
        &&& shapes_ok(self.rules@, self.shifts@)
        &&& cells_ok(self.rules@, self.shifts@, self.function@, self.function@)
        &&& bounded(self.rules@, self.shifts@, self.function@)
        &&& forall|c: u32|
            parents_ok(
                self.rules@,
                self.function@,
                c,
                #[trigger] self.rule_class_connector.pumping(c),
            )
        &&& forall|c: u32|
            places_growing(
                self.rules@,
                self.function@,
                c,
                #[trigger] self.rule_class_connector.using(c),
                self.rules@.len() as int,
                0,
            )
        &&& grounded(self.rules@, self.function@)
        &&& queue_valid(self.rules@, self.processing_queue@)
        &&& holding_ok(
            self.rules@,
            self.function@,
            self.rule_holding_extra_terms@,
            self.current_gap.1,
        )
    }

    /// Every rule that could give a term waits, but for `except`.
    closed spec fn pending(&self, except: int) -> bool {
        pending_ok(
            self.rules@,
            self.shifts@,
            self.function@,
            self.processing_queue@,
            self.rule_holding_extra_terms@,
            except,
        )
    }

    /// What holds between two calls: nothing waits, and no rule can give
    /// its parent another term.
    pub closed spec fn wf(&self) -> bool {
        &&& self.inv()
        &&& self.pending(-1)
        &&& self.processing_queue@.len() == 0
        &&& self.rule_holding_extra_terms@.len() == 0
    }

    /// Between two calls the values are settled.
    pub proof fn lemma_settled(&self)
        requires
            self.wf(),
        ensures
            self@.quiet(),
            settled(self.rules(), self.values()),
            grounded(self.rules(), self.values()),
            capped(self.values()),
            self.values().len() <= LABELS,
    {
        let rules = self.rules@;
        let f = self.function@;
        self.function.lemma_size();
        assert forall|r: int|
            0 <= r < rules.len() && (value_at(f, (#[trigger] rules[r]).parent) matches IntOrInf::Int(
                pv,
            )) implies exists|i: int|
            0 <= i < rules[r].children@.len() && (#[trigger] value_at(f, rules[r].children@[i])
                matches IntOrInf::Int(cv) && cv + rules[r].shifts@[i] <= value_at(
                f,
                rules[r].parent,
            )->Int_0) by {
            assert(self.rules.len() >= 0);
            let q = r as usize;
            assert(!waiting(self.processing_queue@, self.rule_holding_extra_terms@, q));
            assert(!can_give(self.shifts@[r]@));
            let row = self.shifts@[r]@;
            let i = choose|i: int| 0 <= i < row.len() && !(#[trigger] row[i] matches Some(x) ==> x > 0);
            assert(rules[r].wf());
            assert(cell_good(rules, self.shifts@, f, f, r, i));
        }
    }

    /// A table without rules: every class has the value zero.
    pub fn new() -> (table: TableMethod)
        ensures
            table.wf(),
            table@ == TableView::empty(),
    {
        let table = TableMethod {
            rules: Vec::new(),
            shifts: Vec::new(),
            function: Function::new(),
            gap_size: 1,
            rule_class_connector: RuleClassConnector::new(),
            processing_queue: VecDeque::new(),
            current_gap: (1, 1),
            rule_holding_extra_terms: Vec::new(),
        };
        assert(rows(table.shifts@) =~= Seq::<Seq<Option<i64>>>::empty());
        table
    }

    /// The values of the classes.
    pub fn function(&self) -> (f: &Function)
        ensures
            f@ == self.values(),
    {
        &self.function
    }

    /// Whether `class` has infinitely many terms accounted for.
    pub fn is_pumping(&self, class: u32) -> (b: bool)
        ensures
            b == (self.value_of(class) == IntOrInf::Infinity),
    {
        self.function.get_value(class).is_infinite()
    }

    /// Whether a rule with these shifts can give its parent one more term.
    pub fn can_give_terms(shifts: &Vec<Option<i64>>) -> (b: bool)
        ensures
            b == can_give(shifts@),
    {
        let mut i: usize = 0;
        while i < shifts.len()
            invariant
                i <= shifts.len(),
                forall|j: int| 0 <= j < i ==> (#[trigger] shifts@[j] matches Some(x) ==> x > 0),
            decreases shifts.len() - i,
        {
            match shifts[i] {
                Some(x) => {
                    if x <= 0 {
                        return false;
                    }
                },
                None => {},
            }
            i += 1;
        }
        true
    }

    /// The shifts of a rule as the values of its classes make them.
    fn compute_shift(&self, rule_key: &ForestRuleKey) -> (row: Vec<Option<i64>>)
        requires
            self.function.wf(),
            capped(self.function@),
            rule_key.wf(),
        ensures
            row@ == initial_row(self.function@, *rule_key),
            row@.len() == rule_key.children@.len(),
            forall|i: int|
                0 <= i < row@.len() ==> #[trigger] cell_ok(
                    *rule_key,
                    row@,
                    i,
                    value_at(self.function@, rule_key.parent),
                    value_at(self.function@, rule_key.children@[i]),
                ),
    {
        let parent_curent_value = *self.function.get_value(rule_key.parent);
        let mut row: Vec<Option<i64>> = Vec::new();
        let mut i: usize = 0;
        while i < rule_key.children.len()
            invariant
                i <= rule_key.children@.len(),
                self.function.wf(),
                capped(self.function@),
                rule_key.wf(),
                parent_curent_value == value_at(self.function@, rule_key.parent),
                row@.len() == i,
                forall|j: int|
                    0 <= j < i ==> row@[j] == initial_row(self.function@, *rule_key)[j],
                forall|j: int|
                    0 <= j < i ==> #[trigger] cell_ok(
                        *rule_key,
                        row@,
                        j,
                        value_at(self.function@, rule_key.parent),
                        value_at(self.function@, rule_key.children@[j]),
                    ),
            decreases rule_key.children.len() - i,
        {
            let ghost before = row@;
            let fvalue = *self.function.get_value(rule_key.children[i]);
            let sfz = rule_key.shifts[i];
            proof {
                let f = self.function@;
                let c = rule_key.children@[i as int];
                if c < f.len() {
                    assert(f[c as int] == fvalue);
                }
                if rule_key.parent < f.len() {
                    assert(f[rule_key.parent as int] == parent_curent_value);
                }
            }
            let entry = match parent_curent_value {
                IntOrInf::Infinity => None,
                IntOrInf::Int(pv) => match fvalue {
                    IntOrInf::Infinity => None,
                    IntOrInf::Int(cv) => Some(cv as i64 + sfz as i64 - pv as i64),
                },
            };
            row.push(entry);
            proof {
                assert forall|j: int| 0 <= j < i + 1 implies #[trigger] cell_ok(
                    *rule_key,
                    row@,
                    j,
                    value_at(self.function@, rule_key.parent),
                    value_at(self.function@, rule_key.children@[j]),
                ) by {
                    if j < i {
                        assert(cell_ok(
                            *rule_key,
                            before,
                            j,
                            value_at(self.function@, rule_key.parent),
                            value_at(self.function@, rule_key.children@[j]),
                        ));
                        assert(row@[j] == before[j]);
                    }
                }
            }
            i += 1;
        }
        assert(row@ =~= initial_row(self.function@, *rule_key));
        row
    }

    /// Finds the gap anew. Where it ends higher than before, the rules held
    /// back go to the queue again: their parents may be below the new gap.
    fn correct_gap(&mut self)
        requires
            old(self).function.wf(),
            1 <= old(self).gap_size <= MAX_GAP,
        ensures
            final(self).rules == old(self).rules,
            final(self).shifts == old(self).shifts,
            final(self).function == old(self).function,
            final(self).gap_size == old(self).gap_size,
            final(self).rule_class_connector == old(self).rule_class_connector,
            final(self).current_gap.1 <= BOUND,
            (final(self).rule_holding_extra_terms@ == old(self).rule_holding_extra_terms@
                && final(self).processing_queue@ == old(self).processing_queue@ && final(self).current_gap.1 <= old(self).current_gap.1) || (final(self).rule_holding_extra_terms@.len()
                == 0 && final(self).processing_queue@ == old(self).processing_queue@ + old(self).rule_holding_extra_terms@),
            final(self)@ == old(self)@.gap_corrected(),
    {
        let k = self.function.preimage_gap(self.gap_size);
        proof {
            assert(is_first_gap(self.function@, self.gap_size as int, k as int));
            lemma_first_gap(self.function@, self.gap_size as int, k as int);
        }
        proof {
            self.function.lemma_size();
            let n = self.function@.len() as int;
            let g = self.gap_size as int;
            assert(n * g <= LABELS * MAX_GAP) by (nonlinear_arith)
                requires
                    0 <= n <= LABELS,
                    1 <= g <= MAX_GAP,
            ;
        }
        let new_gap = (k, k + self.gap_size);
        if new_gap.1 > self.current_gap.1 {
            let mut j: usize = 0;
            while j < self.rule_holding_extra_terms.len()
                invariant
                    j <= self.rule_holding_extra_terms.len(),
                    self.rules == old(self).rules,
                    self.shifts == old(self).shifts,
                    self.function == old(self).function,
                    self.gap_size == old(self).gap_size,
                    self.rule_class_connector == old(self).rule_class_connector,
                    self.rule_holding_extra_terms == old(self).rule_holding_extra_terms,
                    self.processing_queue@ == old(self).processing_queue@ + old(self).rule_holding_extra_terms@.take(j as int),
                decreases self.rule_holding_extra_terms.len() - j,
            {
                let r = self.rule_holding_extra_terms[j];
                self.processing_queue.push_back(r);
                j += 1;
                assert(self.processing_queue@ =~= old(self).processing_queue@ + old(self).rule_holding_extra_terms@.take(j as int));
            }
            assert(old(self).rule_holding_extra_terms@.take(j as int) =~= old(self).rule_holding_extra_terms@);
            self.rule_holding_extra_terms.clear();
        }
        self.current_gap = new_gap;
        proof {
            assert(self@.holding =~= old(self)@.gap_corrected().holding);
        }
    }
}

/// Adds `rule_idx` to the rules held back, unless it is among them.
fn hold(holding: &mut Vec<usize>, rule_idx: usize)
    requires
        old(holding)@.no_duplicates(),
    ensures
        final(holding)@ == held(old(holding)@, rule_idx),
        final(holding)@.no_duplicates(),
        final(holding)@.contains(rule_idx),
        final(holding)@ == old(holding)@ || final(holding)@ == old(holding)@.push(rule_idx),
{
    let mut j: usize = 0;
    while j < holding.len()
        invariant
            j <= holding.len(),
            holding@ == old(holding)@,
            old(holding)@.no_duplicates(),
            forall|k: int| 0 <= k < j ==> holding@[k] != rule_idx,
        decreases holding.len() - j,
    {
        if holding[j] == rule_idx {
            return ;
        }
        j += 1;
    }
    holding.push(rule_idx);
    proof {
        lemma_pushed_contains(old(holding)@, rule_idx);
        assert forall|a: int, b: int|
            0 <= a < holding@.len() && 0 <= b < holding@.len() && a != b implies holding@[a]
            != holding@[b] by {
            if a < old(holding)@.len() && b < old(holding)@.len() {
                assert(holding@[a] == old(holding)@[a]);
                assert(holding@[b] == old(holding)@[b]);
            }
        }
    }
}

impl TableMethod {
    /// Gives `class` the term that its rule `rule_idx` accounts for: the value
    /// of `class` goes up by one, unless it is infinite, or above the gap, in
    /// which case the rule is held back. Where the value went up, the shifts
    /// are put right and the rules that can give a term are queued.
    fn increase_value(&mut self, class: u32, rule_idx: usize)
        requires
            old(self).inv(),
            old(self).pending(rule_idx as int),
            rule_idx < old(self).rules@.len(),
            old(self).rules@[rule_idx as int].parent == class,
        ensures
            final(self).inv(),
            final(self)@ == old(self)@.increased(class, rule_idx),
            final(self).pending(-1),
            final(self).rules == old(self).rules,
            final(self).gap_size == old(self).gap_size,
            grows(old(self).function@, final(self).function@),
            height(final(self).function@) > height(old(self).function@) || (final(self).function@
                == old(self).function@ && final(self).processing_queue@ == old(self).processing_queue@ && final(self).rule_holding_extra_terms@.len() <= old(self).rule_holding_extra_terms@.len() + 1),
    {
        let ghost rules = self.rules@;
        let ghost before = self.function@;
        let current_value = *self.function.get_value(class);
        let current_value = match current_value {
            IntOrInf::Infinity => {
                return ;
            },
            IntOrInf::Int(v) => v,
        };
        proof {
            if class < before.len() {
                assert(before[class as int] == IntOrInf::Int(current_value));
            }
        }
        if current_value > self.current_gap.1 {
            let ghost held = self.rule_holding_extra_terms@;
            hold(&mut self.rule_holding_extra_terms, rule_idx);
            proof {
                let now = self.rule_holding_extra_terms@;
                assert forall|j: int| 0 <= j < now.len() implies #[trigger] now[j] < rules.len() && (
                value_at(before, rules[now[j] as int].parent) matches IntOrInf::Int(v) ==> v
                    > self.current_gap.1) by {
                    if j < held.len() {
                        assert(now[j] == held[j]);
                    }
                }
                assert forall|r: usize|
                    r < rules.len() && r != -1 && live(rules, before, r as int) && can_give(
                        self.shifts@[r as int]@,
                    ) implies #[trigger] waiting(self.processing_queue@, now, r) by {
                    if r != rule_idx {
                        assert(waiting(self.processing_queue@, held, r));
                        if held.contains(r) && now != held {
                            lemma_pushed_contains(held, rule_idx);
                        }
                    }
                }
            }
            return ;
        }
        self.function.increase_value(class);
        let ghost after = self.function@;
        proof {
            lemma_value_after(before, class, IntOrInf::Int((current_value + 1) as u64));
            assert(stepped(before, after, class));
            assert(grows(before, after));
        }
        // the gap
        let ghost held = self.rule_holding_extra_terms@;
        let ghost waiters = self.processing_queue@;
        let ghost old_gap = self.current_gap.1;
        let gap_start = self.function.preimage_gap(self.gap_size);
        proof {
            assert(is_first_gap(after, self.gap_size as int, gap_start as int));
            lemma_first_gap(after, self.gap_size as int, gap_start as int);
        }
        let ghost grown = self@;
        if self.current_gap.0 != gap_start {
            self.correct_gap()
        }
        let ghost gapped = self@;
        let ghost holding = self.rule_holding_extra_terms@;
        proof {
            let queue = self.processing_queue@;
            assert forall|r: usize| waiting(waiters, held, r) implies waiting(queue, holding, r) by {
                if holding != held || queue != waiters {
                    assert(queue == waiters + held);
                    if waiters.contains(r) {
                        let k = choose|k: int| 0 <= k < waiters.len() && waiters[k] == r;
                        assert(queue[k] == r);
                    } else {
                        let k = choose|k: int| 0 <= k < held.len() && held[k] == r;
                        assert(queue[waiters.len() + k] == r);
                    }
                }
            }
            assert forall|j: int| 0 <= j < queue.len() implies #[trigger] queue[j] < rules.len() by {
                if j < waiters.len() {
                    assert(queue[j] == waiters[j]);
                } else {
                    assert(queue[j] == held[j - waiters.len()]);
                }
            }
            assert forall|j: int| 0 <= j < holding.len() implies #[trigger] holding[j] < rules.len()
                && (value_at(after, rules[holding[j] as int].parent) matches IntOrInf::Int(v) ==> v
                > self.current_gap.1) by {
                assert(holding[j] == held[j]);
                let c = rules[holding[j] as int].parent;
                if c != class {
                    assert(value_at(after, c) == value_at(before, c));
                }
            }
            assert forall|r: usize|
                r < rules.len() && r != rule_idx && live(rules, after, r as int) && can_give(
                    self.shifts@[r as int]@,
                ) implies #[trigger] waiting(queue, holding, r) by {
                let c = rules[r as int].parent;
                if c != class {
                    assert(value_at(after, c) == value_at(before, c));
                }
                assert(waiting(waiters, held, r));
            }
            assert(parents_ok(rules, before, class, self.rule_class_connector.pumping(class)));
            assert(places_growing(
                rules,
                before,
                class,
                self.rule_class_connector.using(class),
                rules.len() as int,
                0,
            ));
        }
        assert(self.rules.len() >= 0);
        // the rules that have `class` as parent
        match self.rule_class_connector.get_rules_pumping_class(class) {
            Some(list) => {
                lower_pumping_rows(
                    &mut self.shifts,
                    &mut self.processing_queue,
                    list,
                    Ghost(rules),
                    Ghost(before),
                    Ghost(after),
                    Ghost(class),
                    Ghost(holding),
                    Ghost(rule_idx as int),
                );
            },
            None => {
                proof {
                    assert(self.rule_class_connector.pumping(class).contains(rule_idx));
                }
            },
        }
        // the rules that have `class` as child
        match self.rule_class_connector.get_rules_using_class(class) {
            Some(list) => {
                proof {
                    assert forall|r: usize, i: usize|
                        r < rules.len() && i < rules[r as int].children@.len() && live(
                            rules,
                            after,
                            r as int,
                        ) && rules[r as int].children@[i as int] == class implies #[trigger] list@.contains(
                        (r, i),
                    ) by {
                        let c = rules[r as int].parent;
                        if c != class {
                            assert(value_at(after, c) == value_at(before, c));
                        }
                    }
                }
                raise_using_cells(
                    &mut self.shifts,
                    &mut self.processing_queue,
                    list,
                    Ghost(rules),
                    Ghost(before),
                    Ghost(after),
                    Ghost(class),
                    Ghost(holding),
                );
            },
            None => {
                proof {
                    lemma_bounded_grows(rules, self.shifts@, before, after);
                    let empty = self.rule_class_connector.using(class);
                    assert forall|r: int, i: int|
                        0 <= r < rules.len() && 0 <= i < rules[r].children@.len() implies #[trigger] cell_good(
                        rules,
                        self.shifts@,
                        after,
                        after,
                        r,
                        i,
                    ) by {
                        assert(cell_good(rules, self.shifts@, after, before, r, i));
                        assert(self.rules.len() >= 0 && rules[r].children.len() >= 0);
                        let c = rules[r].parent;
                        if c != class {
                            assert(value_at(after, c) == value_at(before, c));
                        }
                        if rules[r].children@[i] == class && live(rules, after, r) {
                            assert(empty.contains((r as usize, i as usize)));
                        }
                    }
                }
            },
        }
        proof {
            self.lemma_connected_still(rules, before, after);
            assert forall|c: u32| #[trigger] value_at(after, c) != IntOrInf::Int(0) implies has_rule(
                rules,
                c,
            ) by {
                if c != class {
                    assert(value_at(after, c) == value_at(before, c));
                } else {
                    assert(rules[rule_idx as int].parent == class);
                }
            }
        }
    }

    /// The records of parents and places stay good when values change but
    /// none becomes infinite or finite.
    proof fn lemma_connected_still(&self, rules: Seq<ForestRuleKey>, before: Seq<IntOrInf>, after: Seq<IntOrInf>)
        requires
            forall|c: u32|
                parents_ok(rules, before, c, #[trigger] self.rule_class_connector.pumping(c)),
            forall|c: u32|
                places_growing(
                    rules,
                    before,
                    c,
                    #[trigger] self.rule_class_connector.using(c),
                    rules.len() as int,
                    0,
                ),
            forall|c: u32|
                (#[trigger] value_at(after, c) != IntOrInf::Infinity) ==> value_at(before, c)
                    != IntOrInf::Infinity,
        ensures
            forall|c: u32|
                parents_ok(rules, after, c, #[trigger] self.rule_class_connector.pumping(c)),
            forall|c: u32|
                places_growing(
                    rules,
                    after,
                    c,
                    #[trigger] self.rule_class_connector.using(c),
                    rules.len() as int,
                    0,
                ),
    {
        assert forall|c: u32|
            parents_ok(rules, after, c, #[trigger] self.rule_class_connector.pumping(c)) by {
            let list = self.rule_class_connector.pumping(c);
            assert(parents_ok(rules, before, c, list));
            assert forall|r: usize|
                r < rules.len() && rules[r as int].parent == c && live(rules, after, r as int)
                    implies #[trigger] list.contains(r) by {
                assert(value_at(after, c) != IntOrInf::Infinity);
            }
        }
        assert forall|c: u32|
            places_growing(
                rules,
                after,
                c,
                #[trigger] self.rule_class_connector.using(c),
                rules.len() as int,
                0,
            ) by {
            let list = self.rule_class_connector.using(c);
            assert(places_growing(rules, before, c, list, rules.len() as int, 0));
            if value_at(after, c) != IntOrInf::Infinity {
                assert forall|r: usize, i: usize|
                    r < rules.len() && i < rules[r as int].children@.len() && live(
                        rules,
                        after,
                        r as int,
                    ) && rules[r as int].children@[i as int] == c && (r < rules.len() || (r
                        == rules.len() && i < 0)) implies #[trigger] list.contains((r, i)) by {
                    assert(value_at(after, rules[r as int].parent) != IntOrInf::Infinity);
                }
            }
        }
    }

    /// Makes the value of `class` infinite: it is above the gap, and a rule
    /// can still give it a term. The shifts are put right and the rules that
    /// can give a term are queued.
    fn set_infinite(&mut self, class: u32, Ghost(except): Ghost<int>)
        requires
            old(self).inv(),
            old(self).pending(except),
            except == -1 || (0 <= except < old(self).rules@.len() && old(self).rules@[except].parent == class),
            has_rule(old(self).rules@, class),
            value_at(old(self).function@, class) matches IntOrInf::Int(v) ==> v > old(self).current_gap.1,
            old(self).processing_queue@.len() == 0,
        ensures
            final(self).inv(),
            final(self)@ == old(self)@.made_infinite(class),
            final(self).pending(-1),
            final(self).rules == old(self).rules,
            final(self).gap_size == old(self).gap_size,
            grows(old(self).function@, final(self).function@),
            forall|x: usize|
                old(self).processing_queue@.contains(x) ==> final(self).processing_queue@.contains(x),
            final(self).rule_holding_extra_terms == old(self).rule_holding_extra_terms,
            height(final(self).function@) > height(old(self).function@) || (final(self).function@
                == old(self).function@ && final(self).processing_queue@ == old(self).processing_queue@),
    {
        let ghost rules = self.rules@;
        let ghost before = self.function@;
        let ghost holding = self.rule_holding_extra_terms@;
        let current_value = *self.function.get_value(class);
        let current_value = match current_value {
            IntOrInf::Infinity => {
                return ;
            },
            IntOrInf::Int(v) => v,
        };
        proof {
            if class < before.len() {
                assert(before[class as int] == IntOrInf::Int(current_value));
            }
        }
        self.function.set_infinite(class);
        let ghost after = self.function@;
        proof {
            lemma_value_after(before, class, IntOrInf::Infinity);
            assert(vanished(before, after, class));
            assert(grows(before, after));
            assert forall|r: int, i: int|
                0 <= r < rules.len() && 0 <= i < rules[r].children@.len() implies #[trigger] cell_good(
                rules,
                self.shifts@,
                after,
                before,
                r,
                i,
            ) by {
                assert(cell_good(rules, self.shifts@, before, before, r, i));
                let c = rules[r].parent;
                if c != class {
                    assert(value_at(after, c) == value_at(before, c));
                }
            }
            assert forall|r: usize|
                r < rules.len() && r != -1 && live(rules, after, r as int) && can_give(
                    self.shifts@[r as int]@,
                ) implies #[trigger] waiting(self.processing_queue@, holding, r) by {
                let c = rules[r as int].parent;
                if c != class {
                    assert(value_at(after, c) == value_at(before, c));
                }
            }
            assert forall|j: int| 0 <= j < holding.len() implies #[trigger] holding[j] < rules.len()
                && (value_at(after, rules[holding[j] as int].parent) matches IntOrInf::Int(v) ==> v
                > self.current_gap.1) by {
                let c = rules[holding[j] as int].parent;
                if c != class {
                    assert(value_at(after, c) == value_at(before, c));
                }
            }
            assert(places_growing(
                rules,
                before,
                class,
                self.rule_class_connector.using(class),
                rules.len() as int,
                0,
            ));
            assert(self.rules.len() >= 0);
        }
        // the rules that have `class` as child
        match self.rule_class_connector.get_rules_using_class(class) {
            Some(list) => {
                proof {
                    assert forall|r: usize, i: usize|
                        r < rules.len() && i < rules[r as int].children@.len() && live(
                            rules,
                            after,
                            r as int,
                        ) && rules[r as int].children@[i as int] == class implies #[trigger] list@.contains(
                        (r, i),
                    ) by {
                        let c = rules[r as int].parent;
                        if c != class {
                            assert(value_at(after, c) == value_at(before, c));
                        }
                    }
                }
                clear_using_cells(
                    &mut self.shifts,
                    &mut self.processing_queue,
                    list,
                    Ghost(rules),
                    Ghost(before),
                    Ghost(after),
                    Ghost(class),
                    Ghost(holding),
                );
            },
            None => {
                proof {
                    lemma_bounded_grows(rules, self.shifts@, before, after);
                    let empty = self.rule_class_connector.using(class);
                    assert forall|r: int, i: int|
                        0 <= r < rules.len() && 0 <= i < rules[r].children@.len() implies #[trigger] cell_good(
                        rules,
                        self.shifts@,
                        after,
                        after,
                        r,
                        i,
                    ) by {
                        assert(cell_good(rules, self.shifts@, after, before, r, i));
                        assert(rules[r].children.len() >= 0);
                        let c = rules[r].parent;
                        if c != class {
                            assert(value_at(after, c) == value_at(before, c));
                        }
                        if rules[r].children@[i] == class && live(rules, after, r) {
                            assert(empty.contains((r as usize, i as usize)));
                        }
                    }
                }
            },
        }
        proof {
            self.lemma_connected_still(rules, before, after);
            assert forall|c: u32| #[trigger] value_at(after, c) != IntOrInf::Int(0) implies has_rule(
                rules,
                c,
            ) by {
                if c != class {
                    assert(value_at(after, c) == value_at(before, c));
                }
            }
        }
    }

    /// The values cannot grow beyond a height that is known in advance.
    proof fn lemma_measure(&self)
        requires
            self.inv(),
        ensures
            height(self.function@) <= LABELS * (CAP + 1),
    {
        self.function.lemma_size();
        lemma_height_bound(self.function@);
        let n = self.function@.len() as int;
        assert(n * (CAP + 1) <= LABELS * (CAP + 1)) by (nonlinear_arith)
            requires
                0 <= n <= LABELS,
        ;
    }

    /// Works off the queue, and when it is empty one of the rules held back,
    /// until nothing is left of either.
    fn process_queue(&mut self)
        requires
            old(self).inv(),
            old(self).pending(-1),
        ensures
            final(self).wf(),
            final(self).rules == old(self).rules,
            grows(old(self).function@, final(self).function@),
            exists|n: nat| final(self)@ == #[trigger] old(self)@.run(n),
    {
        let ghost mut steps: nat = 0;
        loop
            invariant
                self.inv(),
                self.pending(-1),
                self.rules == old(self).rules,
                grows(old(self).function@, self.function@),
                self@ == old(self)@.run(steps),
            ensures
                self.wf(),
                self@ == old(self)@.run(steps),
            decreases
                    LABELS * (CAP + 1) - height(self.function@),
                    2 * self.processing_queue@.len() + self.rule_holding_extra_terms@.len(),
        {
            let ghost start = *self;
            proof {
                self.lemma_measure();
            }
            if let Some(rule_idx) = self.processing_queue.pop_front() {
                proof {
                    let rest = self.processing_queue@;
                    assert(start.processing_queue@[0] == rule_idx);
                    assert forall|j: int| 0 <= j < rest.len() implies #[trigger] rest[j]
                        < self.rules@.len() by {
                        assert(rest[j] == start.processing_queue@[j + 1]);
                    }
                    assert forall|r: usize|
                        r < self.rules@.len() && r != rule_idx && live(
                            self.rules@,
                            self.function@,
                            r as int,
                        ) && can_give(self.shifts@[r as int]@) implies #[trigger] waiting(
                        rest,
                        self.rule_holding_extra_terms@,
                        r,
                    ) by {
                        assert(waiting(start.processing_queue@, start.rule_holding_extra_terms@, r));
                        if start.processing_queue@.contains(r) {
                            let k = choose|k: int|
                                0 <= k < start.processing_queue@.len() && start.processing_queue@[k]
                                    == r;
                            assert(rest[k - 1] == r);
                        }
                    }
                    assert(self.rules@[rule_idx as int].wf());
                }
                let ghost popped = self@;
                proof {
                    assert(popped.queue =~= start@.queue.skip(1));
                }
                if TableMethod::can_give_terms(&self.shifts[rule_idx]) {
                    let parent = self.rules[rule_idx].parent;
                    self.increase_value(parent, rule_idx);
                    proof {
                        lemma_grows_on(old(self).function@, start.function@, self.function@);
                        self.lemma_measure();
                    }
                }
                proof {
                    assert(self@ == start@.after_step());
                    steps = steps + 1;
                }
            } else if let Some(rule_idx) = self.rule_holding_extra_terms.pop() {
                proof {
                    let held = start.rule_holding_extra_terms@;
                    let rest = self.rule_holding_extra_terms@;
                    assert(held[held.len() - 1] == rule_idx);
                    assert forall|j: int| 0 <= j < rest.len() implies #[trigger] rest[j]
                        < self.rules@.len() && (value_at(
                        self.function@,
                        self.rules@[rest[j] as int].parent,
                    ) matches IntOrInf::Int(v) ==> v > self.current_gap.1) by {
                        assert(rest[j] == held[j]);
                    }
                    assert forall|a: int, b: int|
                        0 <= a < rest.len() && 0 <= b < rest.len() && a != b implies rest[a]
                        != rest[b] by {
                        assert(rest[a] == held[a]);
                        assert(rest[b] == held[b]);
                    }
                    assert forall|r: usize|
                        r < self.rules@.len() && r != rule_idx && live(
                            self.rules@,
                            self.function@,
                            r as int,
                        ) && can_give(self.shifts@[r as int]@) implies #[trigger] waiting(
                        self.processing_queue@,
                        rest,
                        r,
                    ) by {
                        assert(waiting(start.processing_queue@, held, r));
                        if held.contains(r) {
                            let k = choose|k: int| 0 <= k < held.len() && held[k] == r;
                            assert(rest[k] == r);
                        }
                    }
                }
                let parent = self.rules[rule_idx].parent;
                assert(has_rule(self.rules@, parent)) by {
                    assert(self.rules@[rule_idx as int].parent == parent);
                }
                assert(start.rule_holding_extra_terms@[start.rule_holding_extra_terms@.len() - 1]
                    < self.rules@.len());
                let ghost popped = self@;
                proof {
                    assert(popped.holding =~= start@.holding.drop_last());
                }
                self.set_infinite(parent, Ghost(rule_idx as int));
                proof {
                    lemma_grows_on(old(self).function@, start.function@, self.function@);
                    self.lemma_measure();
                    assert(self@ == start@.after_step());
                    steps = steps + 1;
                }
            } else {
                break ;
            }
        }
    }
}

/// Values that grow twice have grown.
proof fn lemma_grows_on(first: Seq<IntOrInf>, second: Seq<IntOrInf>, third: Seq<IntOrInf>)
    requires
        grows(first, second),
        grows(second, third),
    ensures
        grows(first, third),
{
    assert forall|c: u32| (#[trigger] value_at(first, c)).le(value_at(third, c)) by {
        assert(value_at(first, c).le(value_at(second, c)));
        assert(value_at(second, c).le(value_at(third, c)));
    }
}

/// The size of a shift.
pub open spec fn shift_size(shift: i8) -> int {
    if shift < 0 {
        -shift
    } else {
        shift as int
    }
}

/// The largest size among `shifts`, zero where there is none.
pub open spec fn largest_shift(shifts: Seq<i8>) -> int
    decreases shifts.len(),
{
    if shifts.len() == 0 {
        0
    } else {
        let front = largest_shift(shifts.drop_last());
        if shift_size(shifts.last()) > front {
            shift_size(shifts.last())
        } else {
            front
        }
    }
}

fn max_gap_of(shifts: &Vec<i8>) -> (max_gap: u64)
    ensures
        max_gap == largest_shift(shifts@),
        max_gap <= MAX_GAP,
{
    let mut max_gap: u64 = 0;
    let mut i: usize = 0;
    while i < shifts.len()
        invariant
            i <= shifts.len(),
            max_gap == largest_shift(shifts@.take(i as int)),
            max_gap <= MAX_GAP,
        decreases shifts.len() - i,
    {
        let shift = shifts[i];
        let size: u64 = if shift < 0 {
            (-(shift as i64)) as u64
        } else {
            shift as u64
        };
        proof {
            assert(shifts@.take(i + 1).drop_last() =~= shifts@.take(i as int));
        }
        if size > max_gap {
            max_gap = size;
        }
        i += 1;
    }
    assert(shifts@.take(i as int) =~= shifts@);
    max_gap
}

/// Whether the parent and every child of `rule` has infinitely many terms.
pub open spec fn all_pumping(rule: ForestRuleKey, f: Seq<IntOrInf>) -> bool {
    &&& value_at(f, rule.parent) == IntOrInf::Infinity
    &&& forall|i: int|
        0 <= i < rule.children@.len() ==> value_at(f, #[trigger] rule.children@[i])
            == IntOrInf::Infinity
}

proof fn lemma_filter_push<A>(s: Seq<A>, x: A, pred: spec_fn(A) -> bool)
    ensures
        s.push(x).filter(pred) == if pred(x) {
            s.filter(pred).push(x)
        } else {
            s.filter(pred)
        },
{
    reveal(Seq::filter);
    assert(s.push(x).drop_last() =~= s);
}

impl TableMethod {
    /// Takes in a rule and counts anew.
    pub fn add_rule_key(&mut self, rule_key: ForestRuleKey)
        requires
            old(self).wf(),
            rule_key.wf(),
        ensures
            final(self).wf(),
            exists|n: nat| final(self)@ == #[trigger] old(self)@.with_rule(rule_key).run(n),
            final(self)@.quiet(),
            final(self).rules() == old(self).rules().push(rule_key),
            grows(old(self).values(), final(self).values()),
            settled(final(self).rules(), final(self).values()),
            grounded(final(self).rules(), final(self).values()),
    {
        let ghost key = rule_key;
        let ghost was = self.rules@;
        let ghost f = self.function@;
        let ghost rows = self.shifts@;
        let row = self.compute_shift(&rule_key);
        let max_gap = max_gap_of(&rule_key.shifts);
        let parent = rule_key.parent;
        self.rules.push(rule_key);
        self.shifts.push(row);
        let rule_idx = self.rules.len() - 1;
        let ghost rules = self.rules@;
        let ghost taken = self@;
        proof {
            assert(taken.shifts =~= old(self)@.shifts.push(initial_row(f, key)));
            assert(rules == was.push(rule_key));
            assert forall|r: int| 0 <= r < rules.len() implies (#[trigger] rules[r]).wf()
                && self.shifts@[r]@.len() == rules[r].children@.len() by {
                if r < was.len() {
                    assert(rules[r] == was[r]);
                    assert(self.shifts@[r] == rows[r]);
                }
            }
            assert forall|r: int, i: int|
                0 <= r < rules.len() && 0 <= i < rules[r].children@.len() implies #[trigger] cell_good(
                rules,
                self.shifts@,
                f,
                f,
                r,
                i,
            ) by {
                if r < was.len() {
                    assert(rules[r] == was[r]);
                    assert(self.shifts@[r] == rows[r]);
                    assert(cell_good(was, rows, f, f, r, i));
                } else {
                    assert(cell_ok(
                        rule_key,
                        row@,
                        i,
                        value_at(f, rule_key.parent),
                        value_at(f, rule_key.children@[i]),
                    ));
                }
            }
            assert forall|r: int, i: int|
                0 <= r < rules.len() && 0 <= i < rules[r].children@.len() implies #[trigger] cell_bounded(
                rules,
                self.shifts@,
                f,
                r,
                i,
            ) by {
                if r < was.len() {
                    assert(rules[r] == was[r]);
                    assert(self.shifts@[r] == rows[r]);
                    assert(cell_bounded(was, rows, f, r, i));
                } else {
                    assert(row@[i] == initial_row(f, rule_key)[i]);
                    let c = rule_key.children@[i];
                    let p = rule_key.parent;
                    if c < f.len() {
                        assert(f[c as int] == value_at(f, c));
                    }
                    if p < f.len() {
                        assert(f[p as int] == value_at(f, p));
                    }
                }
            }
        }
        proof {
            assert forall|c: u32| #[trigger] value_at(f, c) != IntOrInf::Int(0) implies has_rule(
                rules,
                c,
            ) by {
                assert(has_rule(was, c));
                let r = choose|r: int| 0 <= r < was.len() && (#[trigger] was[r]).parent == c;
                assert(rules[r] == was[r]);
            }
        }
        if max_gap > self.gap_size {
            self.gap_size = max_gap;
            self.correct_gap();
        }
        let ghost gapped = self@;
        proof {
            assert(self.processing_queue@ =~= Seq::<usize>::empty());
            assert(self.rule_holding_extra_terms@ =~= Seq::<usize>::empty());
            assert forall|c: u32|
                places_growing(
                    rules,
                    f,
                    c,
                    #[trigger] self.rule_class_connector.using(c),
                    rule_idx as int,
                    0,
                ) by {
                let list = self.rule_class_connector.using(c);
                assert(places_growing(was, f, c, list, was.len() as int, 0));
                assert forall|j: int| 0 <= j < list.len() implies (#[trigger] list[j]).0
                    < rules.len() && list[j].1 < rules[list[j].0 as int].children@.len()
                    && rules[list[j].0 as int].children@[list[j].1 as int] == c && (list[j].0
                    < rule_idx || (list[j].0 == rule_idx && list[j].1 < 0)) by {
                    assert(rules[list[j].0 as int] == was[list[j].0 as int]);
                }
                if value_at(f, c) != IntOrInf::Infinity {
                    assert forall|r: usize, i: usize|
                        r < rules.len() && i < rules[r as int].children@.len() && live(
                            rules,
                            f,
                            r as int,
                        ) && rules[r as int].children@[i as int] == c && (r < rule_idx || (r
                            == rule_idx && i < 0)) implies #[trigger] list.contains((r, i)) by {
                        assert(rules[r as int] == was[r as int]);
                    }
                }
            }
            assert forall|c: u32|
                parents_ok(was, f, c, #[trigger] self.rule_class_connector.pumping(c)) by {}
        }
        if self.function.get_value(parent).is_finite() {
            let ghost conn = self.rule_class_connector;
            self.rule_class_connector.add_rule_pumping_class(parent, rule_idx);
            proof {
                assert forall|c: u32|
                    parents_ok(rules, f, c, #[trigger] self.rule_class_connector.pumping(c)) by {
                    let list = self.rule_class_connector.pumping(c);
                    let prior = conn.pumping(c);
                    assert(parents_ok(was, f, c, prior));
                    assert forall|j: int| 0 <= j < list.len() implies #[trigger] list[j]
                        < rules.len() && rules[list[j] as int].parent == c by {
                        if j < prior.len() {
                            assert(list[j] == prior[j]);
                            assert(rules[list[j] as int] == was[list[j] as int]);
                        }
                    }
                    assert forall|a: int, b: int|
                        0 <= a < list.len() && 0 <= b < list.len() && a != b implies list[a]
                        != list[b] by {
                        if a < prior.len() {
                            assert(list[a] == prior[a]);
                        }
                        if b < prior.len() {
                            assert(list[b] == prior[b]);
                        }
                    }
                    assert forall|r: usize|
                        r < rules.len() && rules[r as int].parent == c && live(rules, f, r as int)
                            implies #[trigger] list.contains(r) by {
                        if r < was.len() {
                            assert(rules[r as int] == was[r as int]);
                            assert(prior.contains(r));
                            if c == parent {
                                lemma_pushed_contains(prior, rule_idx);
                            }
                        } else {
                            lemma_pushed_contains(prior, rule_idx);
                        }
                    }
                }
            }
            let ghost recorded = self@;
            let mut child_idx: usize = 0;
            while child_idx < self.rules[rule_idx].children.len()
                invariant
                    self@ == (TableView {
                        using: registered(gapped.using, key, f, rule_idx, child_idx as nat),
                        ..recorded
                    }),
                    rules[rule_idx as int] == key,
                    rule_idx < self.rules@.len(),
                    child_idx <= self.rules@[rule_idx as int].children@.len(),
                    self.rules@ == rules,
                    self.function@ == f,
                    self.function.wf(),
                    forall|c: u32|
                        places_growing(
                            rules,
                            f,
                            c,
                            #[trigger] self.rule_class_connector.using(c),
                            rule_idx as int,
                            child_idx as int,
                        ),
                    forall|c: u32|
                        parents_ok(rules, f, c, #[trigger] self.rule_class_connector.pumping(c)),
                    self.shifts@ == rows.push(row),
                    cells_ok(rules, self.shifts@, f, f),
                    bounded(rules, self.shifts@, f),
                    shapes_ok(rules, self.shifts@),
                    self.gap_size >= 1,
                    self.gap_size <= MAX_GAP,
                    self.current_gap.1 <= BOUND,
                    self.processing_queue@.len() == 0,
                    self.rule_holding_extra_terms@.len() == 0,
                    value_at(f, rules[rule_idx as int].parent) != IntOrInf::Infinity,
                decreases self.rules@[rule_idx as int].children@.len() - child_idx,
            {
                let child = self.rules[rule_idx].children[child_idx];
                let ghost conn = self.rule_class_connector;
                let finite = self.function.get_value(child).is_finite();
                if finite {
                    self.rule_class_connector.add_rule_using_class(child, rule_idx, child_idx);
                }
                proof {
                    assert forall|c: u32|
                        parents_ok(
                            rules,
                            f,
                            c,
                            #[trigger] self.rule_class_connector.pumping(c),
                        ) by {
                        assert(parents_ok(rules, f, c, conn.pumping(c)));
                    }
                    assert forall|c: u32|
                        places_growing(
                            rules,
                            f,
                            c,
                            #[trigger] self.rule_class_connector.using(c),
                            rule_idx as int,
                            child_idx + 1,
                        ) by {
                        let list = self.rule_class_connector.using(c);
                        let prior = conn.using(c);
                        assert(places_growing(rules, f, c, prior, rule_idx as int, child_idx as int));
                        assert forall|j: int| 0 <= j < list.len() implies (#[trigger] list[j]).0
                            < rules.len() && list[j].1 < rules[list[j].0 as int].children@.len()
                            && rules[list[j].0 as int].children@[list[j].1 as int] == c && (
                        list[j].0 < rule_idx || (list[j].0 == rule_idx && list[j].1 < child_idx
                            + 1)) by {
                            if j < prior.len() {
                                assert(list[j] == prior[j]);
                            }
                        }
                        assert forall|a: int, b: int|
                            0 <= a < list.len() && 0 <= b < list.len() && a != b implies list[a]
                            != list[b] by {
                            if a < prior.len() {
                                assert(list[a] == prior[a]);
                            }
                            if b < prior.len() {
                                assert(list[b] == prior[b]);
                            }
                        }
                        if value_at(f, c) != IntOrInf::Infinity {
                            assert forall|r: usize, i: usize|
                                r < rules.len() && i < rules[r as int].children@.len() && live(
                                    rules,
                                    f,
                                    r as int,
                                ) && rules[r as int].children@[i as int] == c && (r < rule_idx || (
                                r == rule_idx && i < child_idx + 1)) implies #[trigger] list.contains(
                                (r, i),
                            ) by {
                                if r < rule_idx || i < child_idx {
                                    assert(prior.contains((r, i)));
                                    if list != prior {
                                        let k = choose|k: int|
                                            0 <= k < prior.len() && prior[k] == (r, i);
                                        assert(list[k] == (r, i));
                                    }
                                } else {
                                    assert(list[prior.len() as int] == (r, i));
                                }
                            }
                        }
                    }
                }
                child_idx += 1;
            }
            self.processing_queue.push_back(rule_idx);
            proof {
                assert(self.processing_queue@[0] == rule_idx);
                assert(waiting(self.processing_queue@, self.rule_holding_extra_terms@, rule_idx));
            }
        }
        proof {
            let queue = self.processing_queue@;
            let holding = self.rule_holding_extra_terms@;
            assert forall|c: u32|
                places_growing(
                    rules,
                    f,
                    c,
                    #[trigger] self.rule_class_connector.using(c),
                    rules.len() as int,
                    0,
                ) by {
                let list = self.rule_class_connector.using(c);
                if value_at(f, parent) != IntOrInf::Infinity {
                    assert(places_growing(
                        rules,
                        f,
                        c,
                        list,
                        rule_idx as int,
                        rules[rule_idx as int].children@.len() as int,
                    ));
                } else {
                    assert(places_growing(rules, f, c, list, rule_idx as int, 0));
                }
            }
            assert forall|c: u32|
                parents_ok(rules, f, c, #[trigger] self.rule_class_connector.pumping(c)) by {
                if value_at(f, parent) == IntOrInf::Infinity {
                    let list = self.rule_class_connector.pumping(c);
                    assert(parents_ok(was, f, c, list));
                    assert forall|j: int| 0 <= j < list.len() implies #[trigger] list[j]
                        < rules.len() && rules[list[j] as int].parent == c by {
                        assert(rules[list[j] as int] == was[list[j] as int]);
                    }
                    assert forall|r: usize|
                        r < rules.len() && rules[r as int].parent == c && live(rules, f, r as int)
                            implies #[trigger] list.contains(r) by {
                        if r < was.len() {
                            assert(rules[r as int] == was[r as int]);
                        }
                    }
                }
            }
            assert forall|r: usize|
                r < rules.len() && r != -1 && live(rules, f, r as int) && can_give(
                    self.shifts@[r as int]@,
                ) implies #[trigger] waiting(queue, holding, r) by {
                if r < was.len() {
                    assert(rules[r as int] == was[r as int]);
                    assert(self.shifts@[r as int] == rows[r as int]);
                    assert(waiting(
                        old(self).processing_queue@,
                        old(self).rule_holding_extra_terms@,
                        r,
                    ));
                }
            }
        }
        let ghost ready = self@;
        proof {
            assert(ready == old(self)@.with_rule(key));
        }
        self.process_queue();
        proof {
            self.lemma_settled();
        }
    }

    /// The classes with infinitely many terms, in ascending order.
    pub fn stable_subset(&self) -> (classes: Vec<u32>)
        requires
            self.wf(),
        ensures
            forall|c: u32| classes@.contains(c) <==> self.value_of(c) == IntOrInf::Infinity,
            forall|i: int, j: int| 0 <= i < j < classes@.len() ==> classes@[i] < classes@[j],
    {
        self.function.preimage(IntOrInf::Infinity)
    }

    /// The forest rule keys that contain only pumping combinatorial classes,
    /// in the order in which they were added.
    pub fn pumping_subuniverse(&self) -> (keys: Vec<&ForestRuleKey>)
        requires
            self.wf(),
        ensures
            keys@.map_values(|key: &ForestRuleKey| *key) == self.rules().filter(
                |rule: ForestRuleKey| all_pumping(rule, self.values()),
            ),
    {
        let ghost pred = |rule: ForestRuleKey| all_pumping(rule, self.function@);
        let ghost plain = |key: &ForestRuleKey| *key;
        let mut keys: Vec<&ForestRuleKey> = Vec::new();
        let mut r: usize = 0;
        proof {
            reveal(Seq::filter);
            assert(self.rules@.take(0) =~= Seq::<ForestRuleKey>::empty());
            assert(keys@.map_values(plain) =~= Seq::<ForestRuleKey>::empty());
        }
        while r < self.rules.len()
            invariant
                r <= self.rules.len(),
                pred == |rule: ForestRuleKey| all_pumping(rule, self.function@),
                plain == |key: &ForestRuleKey| *key,
                keys@.map_values(plain) == self.rules@.take(r as int).filter(pred),
            decreases self.rules.len() - r,
        {
            let rule = &self.rules[r];
            let mut all = self.is_pumping(rule.parent);
            let mut i: usize = 0;
            while i < rule.children.len()
                invariant
                    i <= rule.children.len(),
                    all == (value_at(self.function@, rule.parent) == IntOrInf::Infinity && forall|
                        k: int,
                    |
                        0 <= k < i ==> value_at(self.function@, #[trigger] rule.children@[k])
                            == IntOrInf::Infinity),
                decreases rule.children.len() - i,
            {
                if !self.is_pumping(rule.children[i]) {
                    all = false;
                }
                i += 1;
            }
            let ghost found = keys@;
            if all {
                keys.push(rule);
            }
            proof {
                let seen = self.rules@.take(r as int);
                assert(self.rules@.take(r + 1) =~= seen.push(*rule));
                lemma_filter_push(seen, *rule, pred);
                assert(pred(*rule) == all);
                if all {
                    assert(keys@.map_values(plain) =~= found.map_values(plain).push(*rule));
                }
            }
            r += 1;
        }
        assert(self.rules@.take(r as int) =~= self.rules@);
        keys
    }
}

} // verus!
