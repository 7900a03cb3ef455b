//! Labels for classes.

use crate::combinatorial_class::{lawful, CombinatorialClass};
use vstd::prelude::*;
use vstd::std_specs::cmp::PartialEqSpec;

verus! {

/// Whether some class of `classes` equals `class`.
pub open spec fn holds<C: CombinatorialClass>(classes: Seq<C>, class: C) -> bool {
    exists|i: int| 0 <= i < classes.len() && #[trigger] classes[i].eq_spec(&class)
}

/// Whether `i` is the first position of `classes` whose class equals `class`.
pub open spec fn is_label_of<C: CombinatorialClass>(classes: Seq<C>, class: C, i: int) -> bool {
    &&& 0 <= i < classes.len()
    &&& classes[i].eq_spec(&class)
    &&& forall|j: int| 0 <= j < i ==> !#[trigger] classes[j].eq_spec(&class)
}

/// The label of `class`: the first position of `classes` whose class equals it.
pub open spec fn label_of<C: CombinatorialClass>(classes: Seq<C>, class: C) -> int {
    choose|i: int| is_label_of(classes, class, i)
}

/// No two positions of `classes` hold equal classes.
pub open spec fn distinct<C: CombinatorialClass>(classes: Seq<C>) -> bool {
    forall|i: int, j: int|
        0 <= i < j < classes.len() ==> !#[trigger] classes[i].eq_spec(#[trigger] &classes[j])
}

/// A class that is held has exactly one first position.
pub proof fn lemma_label_of<C: CombinatorialClass>(classes: Seq<C>, class: C)
    requires
        holds(classes, class),
    ensures
        is_label_of(classes, class, label_of(classes, class)),
    decreases classes.len(),
{
    let i = choose|i: int| 0 <= i < classes.len() && #[trigger] classes[i].eq_spec(&class);
    if exists|j: int| 0 <= j < i && #[trigger] classes[j].eq_spec(&class) {
        let front = classes.take(i);
        let j = choose|j: int| 0 <= j < i && #[trigger] classes[j].eq_spec(&class);
        assert(front[j].eq_spec(&class));
        lemma_label_of(front, class);
        let l = label_of(front, class);
        assert(classes[l] == front[l]);
        assert forall|k: int| 0 <= k < l implies !#[trigger] classes[k].eq_spec(&class) by {
            assert(classes[k] == front[k]);
        }
        assert(is_label_of(classes, class, l));
    } else {
        assert(is_label_of(classes, class, i));
    }
}

/// Two held classes have the same label exactly when they are equal.
pub proof fn lemma_labels_tell_classes_apart<C: CombinatorialClass>(
    classes: Seq<C>,
    first: C,
    second: C,
)
    requires
        lawful::<C>(),
        distinct(classes),
        holds(classes, first),
        holds(classes, second),
    ensures
        label_of(classes, first) == label_of(classes, second) <==> first.eq_spec(&second),
{
    lemma_label_of(classes, first);
    lemma_label_of(classes, second);
    let a = label_of(classes, first);
    let b = label_of(classes, second);
    if first.eq_spec(&second) {
        assert(classes[a].eq_spec(&second));
        assert(classes[b].eq_spec(&second));
        assert(second.eq_spec(&classes[b]));
        assert(classes[a].eq_spec(&classes[b]));
        if a < b {
            assert(!classes[a].eq_spec(&classes[b]));
        }
        if b < a {
            assert(classes[b].eq_spec(&classes[a]));
            assert(!classes[b].eq_spec(&classes[a]));
        }
    }
    if a == b {
        assert(first.eq_spec(&classes[a]));
        assert(classes[a].eq_spec(&second));
    }
}

/// The label of a held class stays the same when classes are appended.
pub proof fn lemma_label_is_stable<C: CombinatorialClass>(before: Seq<C>, after: Seq<C>, class: C)
    requires
        holds(before, class),
        before.len() <= after.len(),
        after.take(before.len() as int) == before,
    ensures
        holds(after, class),
        label_of(after, class) == label_of(before, class),
{
    lemma_label_of(before, class);
    let l = label_of(before, class);
    assert forall|j: int| 0 <= j < before.len() implies after[j] == #[trigger] before[j] by {
        assert(after.take(before.len() as int)[j] == after[j]);
    }
    assert(after[l].eq_spec(&class));
    assert(is_label_of(after, class, l)) by {
        assert forall|j: int| 0 <= j < l implies !#[trigger] after[j].eq_spec(&class) by {
            assert(after[j] == before[j]);
        }
    }
    lemma_label_of(after, class);
    let m = label_of(after, class);
    if m < l {
        assert(!after[m].eq_spec(&class));
    }
    if l < m {
        assert(!after[l].eq_spec(&class));
    }
}

/// `after` begins with `before`.
pub open spec fn begins_with<C>(after: Seq<C>, before: Seq<C>) -> bool {
    before.len() <= after.len() && after.take(before.len() as int) == before
}

/// A sequence begins with itself.
pub proof fn lemma_begins_with_itself<C>(classes: Seq<C>)
    ensures
        begins_with(classes, classes),
{
    assert(classes.take(classes.len() as int) =~= classes);
}

/// What begins with a sequence begins with what that sequence begins with.
pub proof fn lemma_begins_with<C>(last: Seq<C>, mid: Seq<C>, first: Seq<C>)
    requires
        begins_with(last, mid),
        begins_with(mid, first),
    ensures
        begins_with(last, first),
{
    assert(last.take(first.len() as int) =~= mid.take(first.len() as int)) by {
        assert forall|i: int| 0 <= i < first.len() implies last[i] == mid[i] by {
            assert(last.take(mid.len() as int)[i] == mid[i]);
        }
    }
}

/// Interning keeps the classes and their labels, and adds at most one class.
pub proof fn lemma_interning_extends<C: CombinatorialClass>(before: Seq<C>, after: Seq<C>, class: C)
    requires
        holds(before, class) ==> after == before,
        !holds(before, class) ==> after.len() == before.len() + 1 && after.take(
            before.len() as int,
        ) == before,
    ensures
        begins_with(after, before),
{
    if holds(before, class) {
        assert(after.take(before.len() as int) =~= before);
    }
}

/// Whether `after` is `before` once `class` has a label: the same where
/// `class` has one already, and else `before` with a clone of `class` at the
/// end.
pub open spec fn interned<C: CombinatorialClass>(before: Seq<C>, class: C, after: Seq<C>) -> bool {
    if holds(before, class) {
        after == before
    } else {
        &&& after.len() == before.len() + 1
        &&& after.take(before.len() as int) == before
        &&& cloned(class, after[before.len() as int])
    }
}

/// Whether `stages` leads from `before` to `after` by giving the classes of
/// `wanted` labels, one after the other.
pub open spec fn interned_along<C: CombinatorialClass>(
    before: Seq<C>,
    wanted: Seq<C>,
    after: Seq<C>,
    stages: Seq<Seq<C>>,
) -> bool {
    &&& stages.len() == wanted.len() + 1
    &&& stages[0] == before
    &&& stages[wanted.len() as int] == after
    &&& forall|k: int|
        0 <= k < wanted.len() ==> interned(#[trigger] stages[k], wanted[k], stages[k + 1])
}

/// Whether `after` is `before` once the classes of `wanted` have labels,
/// one after the other.
pub open spec fn interned_all<C: CombinatorialClass>(
    before: Seq<C>,
    wanted: Seq<C>,
    after: Seq<C>,
) -> bool {
    exists|stages: Seq<Seq<C>>| #[trigger] interned_along(before, wanted, after, stages)
}

/// The labels of the classes of `wanted`.
pub open spec fn labels_of<C: CombinatorialClass>(classes: Seq<C>, wanted: Seq<C>) -> Seq<usize> {
    Seq::new(wanted.len(), |k: int| label_of(classes, wanted[k]) as usize)
}

/// Gives each class it is shown a label, the same one every time, and
/// different ones to different classes. Labels count up from zero.
pub struct ClassDB<C: CombinatorialClass> {
    data: Vec<C>,
}

impl<C: CombinatorialClass> View for ClassDB<C> {
    type V = Seq<C>;

    /// The classes held, each at the position that is its label.
    closed spec fn view(&self) -> Seq<C> {
        self.data@
    }
}

impl<C: CombinatorialClass> ClassDB<C> {
    /// Classes are compared as they should be, and no class is held twice.
    pub open spec fn wf(&self) -> bool {
        lawful::<C>() && distinct(self@)
    }

    /// A registry without classes.
    pub fn new() -> (db: Self)
        requires
            lawful::<C>(),
        ensures
            db@ == Seq::<C>::empty(),
            db.wf(),
    {
        Self { data: Vec::new() }
    }

    /// The label of `class`, which is taken in if it is new.
    pub fn get_label_from_class_or_add(&mut self, class: &C) -> (label: usize)
        requires
            old(self).wf(),
        ensures
            final(self).wf(),
            holds(final(self)@, *class),
            label == label_of(final(self)@, *class),
            label < final(self)@.len(),
            final(self)@[label as int].eq_spec(class),
            begins_with(final(self)@, old(self)@),
            interned(old(self)@, *class, final(self)@),
            holds(old(self)@, *class) ==> final(self)@ == old(self)@,
            !holds(old(self)@, *class) ==> {
                &&& label == old(self)@.len()
                &&& final(self)@.len() == old(self)@.len() + 1
                &&& final(self)@.take(label as int) == old(self)@
                &&& cloned(*class, final(self)@[label as int])
            },
    {
        match self.get_label_from_class(class) {
            Some(index) => {
                proof {
                    lemma_label_of(self@, *class);
                    lemma_begins_with_itself(self@);
                }
                index
            },
            None => {
                let copy = class.clone();
                self.data.push(copy);
                let label = self.data.len() - 1;
                proof {
                    let after = self@;
                    let before = old(self)@;
                    assert(after.take(label as int) =~= before);
                    assert(cloned(*class, copy));
                    assert(class.eq_spec(&copy));
                    assert(after[label as int].eq_spec(class));
                    assert forall|j: int| 0 <= j < label implies !#[trigger] after[j].eq_spec(
                        class,
                    ) by {
                        assert(after[j] == before[j]);
                    }
                    assert(is_label_of(after, *class, label as int));
                    lemma_label_of(after, *class);
                    let m = label_of(after, *class);
                    if m < label {
                        assert(!after[m].eq_spec(class));
                    }
                    assert forall|i: int, j: int| 0 <= i < j < after.len() implies !#[trigger] after[i].eq_spec(
                        #[trigger] &after[j],
                    ) by {
                        if j < label {
                            assert(after[i] == before[i]);
                            assert(after[j] == before[j]);
                        } else {
                            assert(after[i] == before[i]);
                            if after[i].eq_spec(&after[j]) {
                                assert(before[i].eq_spec(class));
                            }
                        }
                    }
                }
                label
            },
        }
    }

    /// The label of `class`, if it has one.
    pub fn get_label_from_class(&self, class: &C) -> (label: Option<usize>)
        requires
            self.wf(),
        ensures
            holds(self@, *class) <==> label.is_some(),
            label.is_some() ==> label.unwrap() == label_of(self@, *class),
    {
        let mut i: usize = 0;
        while i < self.data.len()
            invariant
                lawful::<C>(),
                i <= self.data.len(),
                forall|j: int| 0 <= j < i ==> !#[trigger] self@[j].eq_spec(class),
            decreases self.data.len() - i,
        {
            if self.data[i] == *class {
                proof {
                    assert(is_label_of(self@, *class, i as int));
                    lemma_label_of(self@, *class);
                    let m = label_of(self@, *class);
                    if m < i {
                        assert(!self@[m].eq_spec(class));
                    }
                    if i < m {
                        assert(self@[i as int].eq_spec(class));
                    }
                }
                return Some(i);
            }
            i += 1;
        }
        None
    }

    /// The class with the label `label`, if there is one.
    pub fn get_class_from_label(&self, label: usize) -> (class: Option<&C>)
        ensures
            label < self@.len() <==> class.is_some(),
            class.is_some() ==> *class.unwrap() == self@[label as int],
    {
        if label < self.data.len() {
            Some(&self.data[label])
        } else {
            None
        }
    }
}

} // verus!
