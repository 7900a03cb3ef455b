//! Functions from classes to numbers of terms.

use vstd::prelude::*;

verus! {

/// A number of terms, or infinitely many.
#[derive(Debug, Clone, Copy, PartialEq, Eq, Structural)]
pub enum IntOrInf {
    Int(u64),
    Infinity,
}

impl IntOrInf {
    /// Whether this is a number.
    pub fn is_finite(&self) -> (b: bool)
        ensures
            b == (*self != IntOrInf::Infinity),
    {
        match self {
            IntOrInf::Int(_) => true,
            IntOrInf::Infinity => false,
        }
    }

    /// Whether this is infinity.
    pub fn is_infinite(&self) -> (b: bool)
        ensures
            b == (*self == IntOrInf::Infinity),
    {
        match self {
            IntOrInf::Int(_) => false,
            IntOrInf::Infinity => true,
        }
    }

    /// The value one step up: a number grows by one, infinity stays.
    pub open spec fn succ(self) -> IntOrInf {
        match self {
            IntOrInf::Int(v) => IntOrInf::Int((v + 1) as u64),
            IntOrInf::Infinity => IntOrInf::Infinity,
        }
    }

    /// The order in which values grow: numbers by size, infinity above all.
    pub open spec fn le(self, other: IntOrInf) -> bool {
        match (self, other) {
            (IntOrInf::Int(a), IntOrInf::Int(b)) => a <= b,
            (_, IntOrInf::Infinity) => true,
            (IntOrInf::Infinity, IntOrInf::Int(_)) => false,
        }
    }
}

/// There are this many labels.
pub const LABELS: u64 = 0x1_0000_0000;

/// How many entries of `values` are the number `v`.
pub open spec fn count_of(values: Seq<IntOrInf>, v: u64) -> nat
    decreases values.len(),
{
    if values.len() == 0 {
        0
    } else {
        count_of(values.drop_last(), v) + if values.last() == IntOrInf::Int(v) {
            1nat
        } else {
            0nat
        }
    }
}

/// No entry of `values` is a number above `k` and at most `k + size`.
pub open spec fn gap_at(values: Seq<IntOrInf>, k: int, size: int) -> bool {
    forall|i: int|
        0 <= i < values.len() ==> match #[trigger] values[i] {
            IntOrInf::Int(v) => !(k < v <= k + size),
            IntOrInf::Infinity => true,
        }
}

/// Some value above `k` and at most `k + size` has a count that is not zero.
pub open spec fn blocked(counts: Seq<u64>, k: int, size: int) -> bool {
    exists|v: u64| k < v <= k + size && v < counts.len() && #[trigger] counts[v as int] != 0
}

/// `values`, with zeros appended where it is too short to have an entry `key`.
pub open spec fn extended(values: Seq<IntOrInf>, key: u32) -> Seq<IntOrInf> {
    if key < values.len() {
        values
    } else {
        values + Seq::new((key + 1 - values.len()) as nat, |i: int| IntOrInf::Int(0))
    }
}

/// The entry `key` of `values`, zero where there is none.
pub open spec fn value_at(values: Seq<IntOrInf>, key: u32) -> IntOrInf {
    if key < values.len() {
        values[key as int]
    } else {
        IntOrInf::Int(0)
    }
}

pub proof fn lemma_count_bound(values: Seq<IntOrInf>, v: u64)
    ensures
        count_of(values, v) <= values.len(),
    decreases values.len(),
{
    if values.len() > 0 {
        lemma_count_bound(values.drop_last(), v);
    }
}

/// A number is counted exactly when some entry holds it.
pub proof fn lemma_count_zero(values: Seq<IntOrInf>, v: u64)
    ensures
        count_of(values, v) == 0 <==> forall|i: int|
            0 <= i < values.len() ==> #[trigger] values[i] != IntOrInf::Int(v),
    decreases values.len(),
{
    if values.len() > 0 {
        let front = values.drop_last();
        lemma_count_zero(front, v);
        if count_of(values, v) == 0 {
            assert forall|i: int| 0 <= i < values.len() implies #[trigger] values[i]
                != IntOrInf::Int(v) by {
                if i < front.len() {
                    assert(front[i] == values[i]);
                }
            }
        } else {
            if values.last() != IntOrInf::Int(v) {
                let i = choose|i: int| 0 <= i < front.len() && #[trigger] front[i] == IntOrInf::Int(v);
                assert(values[i] == front[i]);
            } else {
                assert(values[values.len() - 1] == IntOrInf::Int(v));
            }
        }
    }
}

/// Changing one entry moves one count down and one up.
pub proof fn lemma_count_update(values: Seq<IntOrInf>, i: int, x: IntOrInf, v: u64)
    requires
        0 <= i < values.len(),
    ensures
        count_of(values.update(i, x), v) + (if values[i] == IntOrInf::Int(v) {
            1nat
        } else {
            0nat
        }) == count_of(values, v) + (if x == IntOrInf::Int(v) {
            1nat
        } else {
            0nat
        }),
    decreases values.len(),
{
    let after = values.update(i, x);
    if i == values.len() - 1 {
        assert(after.drop_last() =~= values.drop_last());
    } else {
        assert(after.drop_last() =~= values.drop_last().update(i, x));
        lemma_count_update(values.drop_last(), i, x, v);
    }
}

/// Appending an entry counts it.
pub proof fn lemma_count_push(values: Seq<IntOrInf>, x: IntOrInf, v: u64)
    ensures
        count_of(values.push(x), v) == count_of(values, v) + (if x == IntOrInf::Int(v) {
            1nat
        } else {
            0nat
        }),
{
    assert(values.push(x).drop_last() =~= values);
}

/// Among more intervals than entries, one holds no entry: of the intervals
/// `(j * size, j * size + size]` for the `j` of `starts`, all different.
proof fn lemma_free_interval(values: Seq<IntOrInf>, size: int, starts: Seq<int>)
    requires
        size >= 1,
        starts.len() == values.len() + 1,
        starts.no_duplicates(),
    ensures
        exists|n: int| 0 <= n < starts.len() && gap_at(values, #[trigger] starts[n] * size, size),
    decreases values.len(),
{
    if values.len() == 0 {
        assert(gap_at(values, starts[0] * size, size));
    } else {
        let front = values.drop_last();
        let last = values.last();
        let hit = exists|n: int|
            0 <= n < starts.len() && (last matches IntOrInf::Int(v) && (#[trigger] starts[n]) * size
                < v <= starts[n] * size + size);
        let out = if hit {
            choose|n: int|
                0 <= n < starts.len() && (last matches IntOrInf::Int(v) && (#[trigger] starts[n])
                    * size < v <= starts[n] * size + size)
        } else {
            0
        };
        let rest = starts.remove(out);
        assert(rest.no_duplicates()) by {
            assert forall|a: int, b: int| 0 <= a < rest.len() && 0 <= b < rest.len() && a
                != b implies rest[a] != rest[b] by {
                let a2 = if a < out {
                    a
                } else {
                    a + 1
                };
                let b2 = if b < out {
                    b
                } else {
                    b + 1
                };
                assert(rest[a] == starts[a2]);
                assert(rest[b] == starts[b2]);
            }
        }
        lemma_free_interval(front, size, rest);
        let m = choose|m: int| 0 <= m < rest.len() && gap_at(front, #[trigger] rest[m] * size, size);
        let n = if m < out {
            m
        } else {
            m + 1
        };
        assert(rest[m] == starts[n]);
        assert(starts[n] != starts[out]);
        let k = starts[n] * size;
        assert forall|i: int| 0 <= i < values.len() implies match #[trigger] values[i] {
            IntOrInf::Int(v) => !(k < v <= k + size),
            IntOrInf::Infinity => true,
        } by {
            if i < front.len() {
                assert(front[i] == values[i]);
            } else {
                if let IntOrInf::Int(v) = last {
                    if k < v <= k + size {
                        assert(hit);
                        let a = starts[n];
                        let b = starts[out];
                        assert(b * size < v <= b * size + size);
                        assert(a == b) by (nonlinear_arith)
                            requires
                                size >= 1,
                                a * size < v <= a * size + size,
                                b * size < v <= b * size + size,
                        {
                            if a < b {
                                assert((a + 1) * size <= b * size);
                                assert((a + 1) * size == a * size + size);
                            }
                            if b < a {
                                assert((b + 1) * size <= a * size);
                                assert((b + 1) * size == b * size + size);
                            }
                        }
                    }
                }
            }
        }
        assert(gap_at(values, starts[n] * size, size));
    }
}

/// The first gap of a given size comes before `values.len() * size`.
pub proof fn lemma_gap_bound(values: Seq<IntOrInf>, size: int, k: int)
    requires
        size >= 1,
        forall|k2: int| 0 <= k2 < k ==> !gap_at(values, k2, size),
    ensures
        k <= values.len() * size,
{
    let starts = Seq::new(values.len() + 1, |j: int| j);
    lemma_free_interval(values, size, starts);
    let n = choose|n: int| 0 <= n < starts.len() && gap_at(values, #[trigger] starts[n] * size, size);
    assert(starts[n] == n);
    assert(0 <= n * size <= values.len() * size) by (nonlinear_arith)
        requires
            0 <= n <= values.len(),
            size >= 1,
    ;
    if k > n * size {
        assert(!gap_at(values, n * size, size));
    }
}

/// A function from labels to numbers of terms. It is zero where nothing
/// else was set.
pub struct Function {
    value: Vec<IntOrInf>,
    preimage_count: Vec<u64>,
}

impl View for Function {
    type V = Seq<IntOrInf>;

    /// The values of the labels that were touched, and of those below them.
    closed spec fn view(&self) -> Seq<IntOrInf> {
        self.value@
    }
}

impl Function {
    /// The value of `key`.
    pub open spec fn value_of(&self, key: u32) -> IntOrInf {
        value_at(self@, key)
    }

    pub closed spec fn wf(&self) -> bool {
        &&& self.value@.len() <= LABELS
        &&& self.preimage_count@.len() >= 1
        &&& forall|i: int|
            0 <= i < self.value@.len() ==> (#[trigger] self.value@[i] matches IntOrInf::Int(v) ==> v
                < self.preimage_count.len())
        &&& forall|v: u64|
            v < self.preimage_count@.len() ==> #[trigger] self.preimage_count@[v as int]
                == count_of(self.value@, v)
    }

    /// A well-formed function has a value for at most every label.
    pub proof fn lemma_size(&self)
        requires
            self.wf(),
        ensures
            self@.len() <= LABELS,
    {
    }

    /// The function that is zero everywhere.
    pub fn new() -> (f: Self)
        ensures
            f.wf(),
            f@ == Seq::<IntOrInf>::empty(),
    {
        let mut preimage_count: Vec<u64> = Vec::new();
        preimage_count.push(0);
        Function { value: Vec::new(), preimage_count }
    }

    /// The value of `key`.
    pub fn get_value(&self, key: u32) -> (value: &IntOrInf)
        ensures
            *value == self.value_of(key),
    {
        if (key as usize) < self.value.len() {
            &self.value[key as usize]
        } else {
            &IntOrInf::Int(0)
        }
    }

    /// Gives every label up to `key` an entry.
    fn extend_to(&mut self, key: u32)
        requires
            old(self).wf(),
        ensures
            final(self).wf(),
            final(self)@ == extended(old(self)@, key),
            final(self).preimage_count@.len() == old(self).preimage_count@.len(),
    {
        while self.value.len() <= key as usize
            invariant
                self.wf(),
                self.preimage_count@.len() == old(self).preimage_count@.len(),
                old(self)@.len() <= self@.len() <= key + 1 || self@ == old(self)@,
                self@ =~= old(self)@ + Seq::new(
                    (self@.len() - old(self)@.len()) as nat,
                    |i: int| IntOrInf::Int(0),
                ),
            decreases key + 1 - self.value.len(),
        {
            let ghost before = *self;
            self.value.push(IntOrInf::Int(0));
            let zeros = self.preimage_count[0];
            proof {
                lemma_count_bound(before.value@, 0);
                assert(before.preimage_count@[0] == count_of(before.value@, 0));
            }
            self.preimage_count[0] = zeros + 1;
            proof {
                assert forall|v: u64|
                    v < self.preimage_count@.len() implies #[trigger] self.preimage_count@[v as int]
                    == count_of(self.value@, v) by {
                    lemma_count_push(before.value@, IntOrInf::Int(0), v);
                    assert(before.preimage_count@[v as int] == count_of(before.value@, v));
                }
                assert forall|i: int| 0 <= i < self.value@.len() implies (
                #[trigger] self.value@[i] matches IntOrInf::Int(v) ==> v
                    < self.preimage_count@.len()) by {
                    if i < before.value@.len() {
                        assert(self.value@[i] == before.value@[i]);
                    }
                }
            }
        }
        assert(self@ =~= extended(old(self)@, key));
    }

    /// Bumps the value of `key` by one; no change where it is infinite.
    pub fn increase_value(&mut self, key: u32)
        requires
            old(self).wf(),
            old(self).value_of(key) matches IntOrInf::Int(v) ==> v < u64::MAX,
        ensures
            final(self).wf(),
            final(self)@ == extended(old(self)@, key).update(
                key as int,
                old(self).value_of(key).succ(),
            ),
    {
        self.extend_to(key);
        let index = key as usize;
        let ghost before = *self;
        assert(before.value_of(key) == old(self).value_of(key));
        match self.value[index] {
            IntOrInf::Infinity => {
                assert(self@ =~= before@.update(key as int, IntOrInf::Infinity));
            },
            IntOrInf::Int(v) => {
                let at = v as usize;
                if self.preimage_count.len() <= at + 1 {
                    self.preimage_count.push(0);
                    proof {
                        assert forall|w: u64|
                            w < self.preimage_count@.len() implies #[trigger] self.preimage_count@[w as int]
                            == count_of(self.value@, w) by {
                            if w < before.preimage_count@.len() {
                                assert(before.preimage_count@[w as int] == count_of(
                                    before.value@,
                                    w,
                                ));
                            } else {
                                lemma_count_zero(self.value@, w);
                            }
                        }
                    }
                }
                let ghost mid = *self;
                let down = self.preimage_count[at];
                let up = self.preimage_count[at + 1];
                proof {
                    assert(mid.preimage_count@[v as int] == count_of(mid.value@, v));
                    assert(mid.preimage_count@[(v + 1) as u64 as int] == count_of(
                        mid.value@,
                        (v + 1) as u64,
                    ));
                    lemma_count_zero(mid.value@, v);
                    lemma_count_bound(mid.value@, (v + 1) as u64);
                }
                self.preimage_count[at] = down - 1;
                self.preimage_count[at + 1] = up + 1;
                self.value[index] = IntOrInf::Int(v + 1);
                proof {
                    assert forall|w: u64|
                        w < self.preimage_count@.len() implies #[trigger] self.preimage_count@[w as int]
                        == count_of(self.value@, w) by {
                        lemma_count_update(mid.value@, key as int, IntOrInf::Int((v + 1) as u64), w);
                        assert(mid.preimage_count@[w as int] == count_of(mid.value@, w));
                    }
                    assert forall|i: int| 0 <= i < self.value@.len() implies (
                    #[trigger] self.value@[i] matches IntOrInf::Int(x) ==> x
                        < self.preimage_count@.len()) by {
                        if i != key {
                            assert(self.value@[i] == mid.value@[i]);
                        }
                    }
                }
            },
        }
    }

    /// Makes the value of `key` infinite.
    pub fn set_infinite(&mut self, key: u32)
        requires
            old(self).wf(),
        ensures
            final(self).wf(),
            final(self)@ == extended(old(self)@, key).update(key as int, IntOrInf::Infinity),
    {
        self.extend_to(key);
        let index = key as usize;
        let ghost mid = *self;
        assert(mid.value_of(key) == old(self).value_of(key));
        match self.value[index] {
            IntOrInf::Infinity => {
                assert(self@ =~= mid@.update(key as int, IntOrInf::Infinity));
            },
            IntOrInf::Int(v) => {
                assert(mid.value@[key as int] == IntOrInf::Int(v));
                let at = v as usize;
                let down = self.preimage_count[at];
                proof {
                    assert(mid.preimage_count@[v as int] == count_of(mid.value@, v));
                    lemma_count_zero(mid.value@, v);
                }
                self.preimage_count[at] = down - 1;
                self.value[index] = IntOrInf::Infinity;
                proof {
                    assert forall|w: u64|
                        w < self.preimage_count@.len() implies #[trigger] self.preimage_count@[w as int]
                        == count_of(self.value@, w) by {
                        lemma_count_update(mid.value@, key as int, IntOrInf::Infinity, w);
                        assert(mid.preimage_count@[w as int] == count_of(mid.value@, w));
                    }
                    assert forall|i: int| 0 <= i < self.value@.len() implies (
                    #[trigger] self.value@[i] matches IntOrInf::Int(x) ==> x
                        < self.preimage_count@.len()) by {
                        if i != key {
                            assert(self.value@[i] == mid.value@[i]);
                        }
                    }
                }
            },
        }
    }

    /// The smallest `k` such that no label has a value above `k` and at most
    /// `k + size`.
    pub fn preimage_gap(&self, size: u64) -> (k: u64)
        requires
            self.wf(),
            size >= 1,
        ensures
            gap_at(self@, k as int, size as int),
            forall|k2: int| 0 <= k2 < k ==> !gap_at(self@, k2, size as int),
            k <= self@.len() * size,
    {
        let mut last: usize = 0;
        let mut i: usize = 1;
        while i < self.preimage_count.len()
            invariant
                self.wf(),
                size >= 1,
                1 <= i <= self.preimage_count.len(),
                last < i,
                i - last <= size,
                forall|v: int| last < v < i ==> #[trigger] self.preimage_count@[v] == 0,
                forall|k2: int|
                    0 <= k2 < last ==> #[trigger] blocked(self.preimage_count@, k2, size as int),
            decreases self.preimage_count.len() - i,
        {
            if self.preimage_count[i] != 0 {
                proof {
                    assert forall|k2: int| 0 <= k2 < i implies #[trigger] blocked(
                        self.preimage_count@,
                        k2,
                        size as int,
                    ) by {
                        if k2 >= last {
                            let v = i as u64;
                            assert(k2 < v <= k2 + size && self.preimage_count@[v as int] != 0);
                        }
                    }
                }
                last = i;
            } else if (i - last) as u64 >= size {
                proof {
                    self.lemma_found_gap(last as int, i as int, size as int);
                }
                return last as u64;
            }
            i += 1;
        }
        proof {
            self.lemma_found_gap(last as int, i as int, size as int);
        }
        last as u64
    }

    /// A run of values that no label has, long enough or reaching up to the
    /// largest value there is, starts the first gap.
    proof fn lemma_found_gap(&self, last: int, i: int, size: int)
        requires
            self.wf(),
            size >= 1,
            0 <= last < i <= self.preimage_count@.len(),
            i - last >= size || i == self.preimage_count@.len(),
            forall|v: int| last < v < i ==> #[trigger] self.preimage_count@[v] == 0,
            i < self.preimage_count@.len() ==> self.preimage_count@[i] == 0,
            forall|k2: int|
                0 <= k2 < last ==> #[trigger] blocked(self.preimage_count@, k2, size),
        ensures
            gap_at(self@, last, size),
            forall|k2: int| 0 <= k2 < last ==> !gap_at(self@, k2, size),
            last <= self@.len() * size,
    {
        assert forall|n: int| 0 <= n < self@.len() implies match #[trigger] self@[n] {
            IntOrInf::Int(v) => !(last < v <= last + size),
            IntOrInf::Infinity => true,
        } by {
            if let IntOrInf::Int(v) = self@[n] {
                if last < v <= last + size {
                    assert(v < self.preimage_count@.len());
                    assert(v <= i);
                    assert(self.preimage_count@[v as int] == 0);
                    lemma_count_zero(self.value@, v);
                }
            }
        }
        assert forall|k2: int| 0 <= k2 < last implies !gap_at(self@, k2, size) by {
            assert(blocked(self.preimage_count@, k2, size));
            let v = choose|v: u64|
                k2 < v <= k2 + size && v < self.preimage_count@.len()
                    && #[trigger] self.preimage_count@[v as int] != 0;
            lemma_count_zero(self.value@, v);
            let n = choose|n: int|
                0 <= n < self.value@.len() && #[trigger] self.value@[n] == IntOrInf::Int(v);
            assert(self@[n] == IntOrInf::Int(v));
        }
        lemma_gap_bound(self@, size, last);
    }

    /// The labels with an entry whose value is `value`, in ascending order.
    pub fn preimage(&self, value: IntOrInf) -> (labels: Vec<u32>)
        requires
            self.wf(),
        ensures
            forall|c: u32| labels@.contains(c) <==> c < self@.len() && self@[c as int] == value,
            forall|i: int, j: int| 0 <= i < j < labels@.len() ==> labels@[i] < labels@[j],
    {
        let mut labels: Vec<u32> = Vec::new();
        let mut i: usize = 0;
        while i < self.value.len()
            invariant
                self.wf(),
                i <= self.value.len(),
                forall|c: u32| #[trigger]
                    labels@.contains(c) <==> c < i && self@[c as int] == value,
                forall|a: int, b: int| 0 <= a < b < labels@.len() ==> labels@[a] < labels@[b],
            decreases self.value.len() - i,
        {
            if self.value[i] == value {
                let ghost before = labels@;
                labels.push(i as u32);
                proof {
                    assert forall|c: u32| #[trigger]
                        labels@.contains(c) <==> c < i + 1 && self@[c as int] == value by {
                        if before.contains(c) {
                            let k = choose|k: int| 0 <= k < before.len() && before[k] == c;
                            assert(labels@[k] == c);
                        }
                        if c == i {
                            assert(labels@[before.len() as int] == c);
                        }
                    }
                    assert forall|a: int, b: int|
                        0 <= a < b < labels@.len() implies labels@[a] < labels@[b] by {
                        if b == before.len() {
                            assert(before.contains(before[a]));
                        }
                    }
                }
            }
            i += 1;
        }
        labels
    }
}

} // verus!
