//! The order in which classes and factories come up.

use crate::pack::{StrategyFactory, StrategyPack};
use std::collections::{HashSet, VecDeque};
use vstd::prelude::*;

verus! {

broadcast use vstd::std_specs::hash::group_hash_axioms;

/// A class and the factory to apply to it.
#[derive(Debug, PartialEq)]
pub struct WorkPacket<'a, F: StrategyFactory> {
    pub class_label: usize,
    pub factory: &'a F,
}

/// A class and the index in the pack of the factory to apply to it.
#[derive(Debug, PartialEq, Eq, Clone, Copy, Structural)]
pub struct WorkPacketInternal {
    pub class_label: usize,
    pub factory_index: usize,
}

impl WorkPacketInternal {
    fn make_external<'a, F: StrategyFactory>(&self, pack: &'a StrategyPack<F>) -> (packet:
        WorkPacket<'a, F>)
        requires
            self.factory_index < pack.factories().len(),
        ensures
            packet.class_label == self.class_label,
            *packet.factory == pack.factories()[self.factory_index as int],
    {
        WorkPacket {
            class_label: self.class_label,
            factory: pack.get_strategy_factory(self.factory_index),
        }
    }
}

/// The packets of one class for `count` factories in a row, the first of
/// which has index `start`.
pub open spec fn tier_packets(label: usize, start: int, count: int) -> Seq<WorkPacketInternal> {
    Seq::new(
        count as nat,
        |i: int| WorkPacketInternal { class_label: label, factory_index: (start + i) as usize },
    )
}

/// `queue` without its first `n` packets.
pub open spec fn drop_front(queue: Seq<WorkPacketInternal>, n: int) -> Seq<WorkPacketInternal> {
    if n <= 0 {
        queue
    } else if n >= queue.len() {
        Seq::empty()
    } else {
        queue.skip(n)
    }
}

/// How many packets at the front of `packets` belong to a class of `ignore`.
pub open spec fn ignored_prefix(packets: Seq<WorkPacketInternal>, ignore: Set<usize>) -> int
    decreases packets.len(),
{
    if packets.len() == 0 || !ignore.contains(packets[0].class_label) {
        0
    } else {
        1 + ignored_prefix(packets.skip(1), ignore)
    }
}

/// What a queue holds.
pub struct QueueView {
    /// The packets waiting in each tier, the next one first.
    pub verification: Seq<WorkPacketInternal>,
    pub inferral: Seq<WorkPacketInternal>,
    pub initial: Seq<WorkPacketInternal>,
    pub expansion: Seq<WorkPacketInternal>,
    /// The classes whose packets are no longer handed out.
    pub ignore: Set<usize>,
    /// The classes that were added.
    pub added: Set<usize>,
    /// The packet handed out last.
    pub last: Option<WorkPacketInternal>,
    /// Every packet handed out so far, in order.
    pub yielded: Seq<WorkPacketInternal>,
}

impl QueueView {
    /// The waiting packets in the order in which they come up.
    pub open spec fn scheduled(self) -> Seq<WorkPacketInternal> {
        self.verification + self.inferral + self.initial + self.expansion
    }

    /// The queue after the class `label` is added.
    pub open spec fn with_class<F: StrategyFactory>(
        self,
        label: usize,
        pack: StrategyPack<F>,
    ) -> QueueView {
        if self.added.contains(label) {
            self
        } else {
            QueueView {
                verification: self.verification + tier_packets(
                    label,
                    0,
                    pack.verifications@.len() as int,
                ),
                inferral: self.inferral + tier_packets(
                    label,
                    pack.inferral_start(),
                    pack.inferrals@.len() as int,
                ),
                initial: self.initial + tier_packets(
                    label,
                    pack.initial_start(),
                    pack.initials@.len() as int,
                ),
                expansion: self.expansion + tier_packets(
                    label,
                    pack.expansion_start(),
                    pack.expansions@.len() as int,
                ),
                added: self.added.insert(label),
                ..self
            }
        }
    }

    /// The classes to ignore once it is known whether the last packet gave a
    /// rule: a verification or an inferral that gave one settles its class.
    pub open spec fn ignore_after<F: StrategyFactory>(
        self,
        created_rule: Option<bool>,
        pack: StrategyPack<F>,
    ) -> Set<usize> {
        if self.last.is_some() && created_rule == Some(true) && self.last.unwrap().factory_index
            < pack.initial_start() {
            self.ignore.insert(self.last.unwrap().class_label)
        } else {
            self.ignore
        }
    }

    /// The queue without the first `n` waiting packets.
    pub open spec fn without_front(self, n: int) -> QueueView {
        QueueView {
            verification: drop_front(self.verification, n),
            inferral: drop_front(self.inferral, n - self.verification.len()),
            initial: drop_front(self.initial, n - self.verification.len() - self.inferral.len()),
            expansion: drop_front(
                self.expansion,
                n - self.verification.len() - self.inferral.len() - self.initial.len(),
            ),
            ..self
        }
    }

    /// Each waiting packet stands in the queue of its factory's tier, every
    /// packet belongs to an added class, and no packet occurs twice, waiting
    /// or handed out.
    pub open spec fn wf<F: StrategyFactory>(self, pack: StrategyPack<F>) -> bool {
        &&& forall|i: int|
            0 <= i < self.verification.len() ==> (#[trigger] self.verification[i]).factory_index
                < pack.inferral_start()
        &&& forall|i: int|
            0 <= i < self.inferral.len() ==> pack.inferral_start() <= (
            #[trigger] self.inferral[i]).factory_index < pack.initial_start()
        &&& forall|i: int|
            0 <= i < self.initial.len() ==> pack.initial_start() <= (
            #[trigger] self.initial[i]).factory_index < pack.expansion_start()
        &&& forall|i: int|
            0 <= i < self.expansion.len() ==> pack.expansion_start() <= (
            #[trigger] self.expansion[i]).factory_index < pack.factories().len()
        &&& forall|i: int|
            0 <= i < self.scheduled().len() ==> self.added.contains(
                (#[trigger] self.scheduled()[i]).class_label,
            )
        &&& forall|i: int|
            0 <= i < self.yielded.len() ==> self.added.contains(
                (#[trigger] self.yielded[i]).class_label,
            ) && self.yielded[i].factory_index < pack.factories().len()
        &&& self.scheduled().no_duplicates()
        &&& self.yielded.no_duplicates()
        &&& forall|i: int, j: int|
            0 <= i < self.scheduled().len() && 0 <= j < self.yielded.len()
                ==> #[trigger] self.scheduled()[i] != #[trigger] self.yielded[j]
        &&& self.last == if self.yielded.len() == 0 {
            None
        } else {
            Some(self.yielded.last())
        }
    }
}

/// The queue after the classes of `labels` are added, one after the other.
pub open spec fn with_classes<F: StrategyFactory>(
    queue: QueueView,
    labels: Seq<usize>,
    pack: StrategyPack<F>,
) -> QueueView
    decreases labels.len(),
{
    if labels.len() == 0 {
        queue
    } else {
        with_classes(queue, labels.drop_last(), pack).with_class(labels.last(), pack)
    }
}

/// Dropping packets from the front of the queues drops them from the front of
/// the schedule.
pub proof fn lemma_without_front(view: QueueView, n: int)
    requires
        0 <= n <= view.scheduled().len(),
    ensures
        view.without_front(n).scheduled() == view.scheduled().skip(n),
{
    assert(view.without_front(n).scheduled() =~= view.scheduled().skip(n));
}

/// `ignored_prefix` is the position of the first packet that is not ignored.
pub proof fn lemma_ignored_prefix(packets: Seq<WorkPacketInternal>, ignore: Set<usize>, n: int)
    requires
        0 <= n <= packets.len(),
        forall|i: int| 0 <= i < n ==> ignore.contains((#[trigger] packets[i]).class_label),
        n < packets.len() ==> !ignore.contains(packets[n].class_label),
    ensures
        ignored_prefix(packets, ignore) == n,
    decreases n,
{
    if n > 0 {
        let rest = packets.skip(1);
        assert forall|i: int| 0 <= i < n - 1 implies ignore.contains(
            (#[trigger] rest[i]).class_label,
        ) by {
            assert(rest[i] == packets[i + 1]);
        }
        lemma_ignored_prefix(rest, ignore, n - 1);
    }
}

/// Hands out, for each class added and each factory of the pack, one packet,
/// tier by tier, and skips the packets of classes that are settled.
pub struct ClassQueue<F: StrategyFactory> {
    pack: StrategyPack<F>,
    verification_queue: VecDeque<WorkPacketInternal>,
    inferral_queue: VecDeque<WorkPacketInternal>,
    initial_queue: VecDeque<WorkPacketInternal>,
    expansion_queue: VecDeque<WorkPacketInternal>,
    ignore: HashSet<usize>,
    added: HashSet<usize>,
    last_wp: Option<WorkPacketInternal>,
    yielded: Ghost<Seq<WorkPacketInternal>>,
}

impl<F: StrategyFactory> View for ClassQueue<F> {
    type V = QueueView;

    closed spec fn view(&self) -> QueueView {
        QueueView {
            verification: self.verification_queue@,
            inferral: self.inferral_queue@,
            initial: self.initial_queue@,
            expansion: self.expansion_queue@,
            ignore: self.ignore@,
            added: self.added@,
            last: self.last_wp,
            yielded: self.yielded@,
        }
    }
}

/// Appends to `queue` the packets of one class for one tier.
fn push_tier(queue: &mut VecDeque<WorkPacketInternal>, class_label: usize, start: usize, count: usize)
    requires
        start + count <= usize::MAX,
    ensures
        final(queue)@ == old(queue)@ + tier_packets(class_label, start as int, count as int),
{
    let mut done: usize = 0;
    while done < count
        invariant
            done <= count,
            start + count <= usize::MAX,
            queue@ == old(queue)@ + tier_packets(class_label, start as int, done as int),
        decreases count - done,
    {
        queue.push_back(WorkPacketInternal { class_label, factory_index: start + done });
        done += 1;
        assert(queue@ =~= old(queue)@ + tier_packets(class_label, start as int, done as int));
    }
}

impl<F: StrategyFactory> ClassQueue<F> {
    /// The pack whose factories the packets name.
    pub closed spec fn pack(&self) -> StrategyPack<F> {
        self.pack
    }

    /// The number of factories fits the machine, and the view is well formed.
    pub open spec fn wf(&self) -> bool {
        &&& self.pack().factories().len() <= usize::MAX
        &&& self@.wf(self.pack())
    }

    /// A queue for `pack` in which the class `start_label` waits.
    pub fn new(pack: StrategyPack<F>, start_label: usize) -> (queue: Self)
        requires
            pack.factories().len() <= usize::MAX,
        ensures
            queue.wf(),
            queue.pack() == pack,
            queue@ == (QueueView {
                verification: Seq::empty(),
                inferral: Seq::empty(),
                initial: Seq::empty(),
                expansion: Seq::empty(),
                ignore: Set::empty(),
                added: Set::empty(),
                last: None,
                yielded: Seq::empty(),
            }).with_class(start_label, pack),
    {
        let mut queue = Self {
            pack,
            verification_queue: VecDeque::new(),
            inferral_queue: VecDeque::new(),
            initial_queue: VecDeque::new(),
            expansion_queue: VecDeque::new(),
            ignore: HashSet::new(),
            added: HashSet::new(),
            last_wp: None,
            yielded: Ghost(Seq::empty()),
        };
        assert(queue@.scheduled() =~= Seq::empty());
        queue.add(start_label);
        queue
    }

    /// Lets the class `class_label` wait for each factory, unless it was
    /// added before.
    pub fn add(&mut self, class_label: usize)
        requires
            old(self).wf(),
        ensures
            final(self).wf(),
            final(self).pack() == old(self).pack(),
            final(self)@ == old(self)@.with_class(class_label, old(self).pack()),
    {
        if !self.added.insert(class_label) {
            assert(self.added@ =~= old(self).added@);
            return ;
        }
        let verifications = self.pack.verifications.len();
        let inferrals = self.pack.inferrals.len();
        let initials = self.pack.initials.len();
        let expansions = self.pack.expansions.len();
        let mut factory_index: usize = 0;
        push_tier(&mut self.verification_queue, class_label, factory_index, verifications);
        factory_index += verifications;
        push_tier(&mut self.inferral_queue, class_label, factory_index, inferrals);
        factory_index += inferrals;
        push_tier(&mut self.initial_queue, class_label, factory_index, initials);
        factory_index += initials;
        push_tier(&mut self.expansion_queue, class_label, factory_index, expansions);
        proof {
            let before = old(self)@;
            let after = self@;
            let pack = self.pack;
            assert(after == before.with_class(class_label, pack));
            let fresh = tier_packets(class_label, 0, verifications as int) + tier_packets(
                class_label,
                pack.inferral_start(),
                inferrals as int,
            ) + tier_packets(class_label, pack.initial_start(), initials as int) + tier_packets(
                class_label,
                pack.expansion_start(),
                expansions as int,
            );
            assert(forall|i: int|
                0 <= i < fresh.len() ==> (#[trigger] fresh[i]).class_label == class_label
                    && fresh[i].factory_index == i);
            assert forall|i: int| 0 <= i < after.scheduled().len() implies {
                let p = #[trigger] after.scheduled()[i];
                ||| exists|k: int|
                    0 <= k < before.scheduled().len() && before.scheduled()[k] == p
                ||| p.class_label == class_label
            } by {
                let p = after.scheduled()[i];
                let v = before.verification.len() as int;
                let v2 = after.verification.len() as int;
                let f = before.inferral.len() as int;
                let f2 = after.inferral.len() as int;
                let n = before.initial.len() as int;
                let n2 = after.initial.len() as int;
                if i < v {
                    assert(before.scheduled()[i] == p);
                } else if i < v2 {
                } else if i < v2 + f {
                    assert(before.scheduled()[i - v2 + v] == p);
                } else if i < v2 + f2 {
                } else if i < v2 + f2 + n {
                    assert(before.scheduled()[i - v2 - f2 + v + f] == p);
                } else if i < v2 + f2 + n2 {
                } else if i < v2 + f2 + n2 + before.expansion.len() {
                    assert(before.scheduled()[i - v2 - f2 - n2 + v + f + n] == p);
                } else {
                }
            }
            assert forall|i: int, j: int|
                0 <= i < after.scheduled().len() && 0 <= j < after.scheduled().len() && i
                    != j implies after.scheduled()[i] != after.scheduled()[j] by {
                lemma_added_schedule_has_no_duplicates(before, class_label, pack, i, j);
            }
        }
    }

    /// Settles the class `label`: its packets are no longer handed out.
    pub fn ignore(&mut self, label: usize)
        requires
            old(self).wf(),
        ensures
            final(self).wf(),
            final(self).pack() == old(self).pack(),
            final(self)@ == (QueueView { ignore: old(self)@.ignore.insert(label), ..old(self)@ }),
    {
        self.ignore.insert(label);
    }

    /// The next packet. `last_wp_created_rule` tells whether the packet handed
    /// out last gave a rule, and is `None` before the first packet.
    pub fn next(&mut self, last_wp_created_rule: Option<bool>) -> (packet: Option<WorkPacket<'_, F>>)
        requires
            old(self).wf(),
            old(self)@.last.is_some() == last_wp_created_rule.is_some(),
        ensures
            final(self).wf(),
            final(self).pack() == old(self).pack(),
            ({
                let before = old(self)@;
                let pack = old(self).pack();
                let ignore = before.ignore_after(last_wp_created_rule, pack);
                let n = ignored_prefix(before.scheduled(), ignore);
                match packet {
                    Some(wp) => {
                        &&& n < before.scheduled().len()
                        &&& wp.class_label == before.scheduled()[n].class_label
                        &&& *wp.factory == pack.factories()[before.scheduled()[n].factory_index as int]
                        &&& final(self)@ == (QueueView {
                            ignore,
                            last: Some(before.scheduled()[n]),
                            yielded: before.yielded.push(before.scheduled()[n]),
                            ..before.without_front(n + 1)
                        })
                    },
                    None => {
                        &&& n == before.scheduled().len()
                        &&& final(self)@ == (QueueView { ignore, ..before.without_front(n) })
                    },
                }
            }),
    {
        self.decide_if_ignore(last_wp_created_rule);
        let ghost before = old(self)@;
        let ghost ignore = before.ignore_after(last_wp_created_rule, self.pack);
        let ghost mut n: int = 0;
        proof {
            assert(self@ == (QueueView { ignore, ..before.without_front(0) }));
        }
        loop
            invariant
                self.pack == old(self).pack,
                old(self).wf(),
                before == old(self)@,
                ignore == before.ignore_after(last_wp_created_rule, self.pack),
                0 <= n <= before.scheduled().len(),
                forall|i: int|
                    0 <= i < n ==> ignore.contains((#[trigger] before.scheduled()[i]).class_label),
                self@ == (QueueView { ignore, ..before.without_front(n) }),
            decreases before.scheduled().len() - n,
        {
            proof {
                lemma_without_front(before, n);
            }
            match self.next_no_ignore() {
                None => {
                    proof {
                        lemma_ignored_prefix(before.scheduled(), ignore, n);
                        lemma_dropping_keeps_wf(before, self.pack, n, ignore);
                    }
                    return None;
                },
                Some(next) => {
                    proof {
                        assert(next == before.scheduled()[n]);
                        lemma_without_front(before.without_front(n), 1);
                        lemma_without_front(before, n + 1);
                        assert(before.without_front(n).without_front(1) == before.without_front(
                            n + 1,
                        )) by {
                            lemma_without_front_twice(before, n);
                        }
                    }
                    if !self.ignore.contains(&next.class_label) {
                        self.last_wp = Some(next);
                        proof {
                            self.yielded@ = self.yielded@.push(next);
                            lemma_ignored_prefix(before.scheduled(), ignore, n);
                            lemma_yielding_keeps_wf(before, self.pack, n, ignore);
                        }
                        return Some(next.make_external(&self.pack));
                    }
                    proof {
                        n = n + 1;
                    }
                },
            }
        }
    }

    /// Takes the first waiting packet.
    fn next_no_ignore(&mut self) -> (packet: Option<WorkPacketInternal>)
        ensures
            final(self).pack() == old(self).pack(),
            match packet {
                Some(wp) => {
                    &&& old(self)@.scheduled().len() > 0
                    &&& wp == old(self)@.scheduled()[0]
                    &&& final(self)@ == old(self)@.without_front(1)
                },
                None => {
                    &&& old(self)@.scheduled().len() == 0
                    &&& final(self)@ == old(self)@
                },
            },
    {
        if let Some(wp) = self.verification_queue.pop_front() {
            assert(self@.verification =~= drop_front(old(self)@.verification, 1));
            return Some(wp);
        } else if let Some(wp) = self.inferral_queue.pop_front() {
            assert(self@.verification =~= drop_front(old(self)@.verification, 1));
            assert(self@.inferral =~= drop_front(old(self)@.inferral, 1));
            return Some(wp);
        } else if let Some(wp) = self.initial_queue.pop_front() {
            assert(self@.verification =~= drop_front(old(self)@.verification, 1));
            assert(self@.inferral =~= drop_front(old(self)@.inferral, 1));
            assert(self@.initial =~= drop_front(old(self)@.initial, 1));
            return Some(wp);
        }
        let packet = self.expansion_queue.pop_front();
        proof {
            if packet.is_some() {
                assert(self@.verification =~= drop_front(old(self)@.verification, 1));
                assert(self@.inferral =~= drop_front(old(self)@.inferral, 1));
                assert(self@.initial =~= drop_front(old(self)@.initial, 1));
                assert(self@.expansion =~= drop_front(old(self)@.expansion, 1));
            }
        }
        packet
    }

    /// Settles the class of the last packet if that packet was a verification
    /// or an inferral and gave a rule.
    fn decide_if_ignore(&mut self, last_wp_created_rule: Option<bool>)
        requires
            old(self)@.last.is_some() == last_wp_created_rule.is_some(),
        ensures
            final(self).pack() == old(self).pack(),
            final(self)@ == (QueueView {
                ignore: old(self)@.ignore_after(last_wp_created_rule, old(self).pack()),
                ..old(self)@
            }),
    {
        match (&self.last_wp, last_wp_created_rule) {
            (Some(wp), Some(wp_created_rule)) => {
                if wp_created_rule && (self.pack.is_verification(wp.factory_index)
                    || self.pack.is_inferral(wp.factory_index)) {
                    let label = wp.class_label;
                    self.ignore.insert(label);
                }
            },
            _ => (),
        }
    }
}

/// No packet is handed out twice: of the packets that a well-formed queue
/// has handed out, no two are for the same class and the same factory.
pub proof fn lemma_no_packet_twice<F: StrategyFactory>(
    view: QueueView,
    pack: StrategyPack<F>,
    i: int,
    j: int,
)
    requires
        view.wf(pack),
        0 <= i < j < view.yielded.len(),
    ensures
        view.yielded[i].class_label != view.yielded[j].class_label || view.yielded[i].factory_index
            != view.yielded[j].factory_index,
{
}

/// Tier order: once the packet at position `n` of the schedule is handed out,
/// the queue of every tier before its own is empty, so that no packet of an
/// earlier tier that was waiting then is handed out after it.
pub proof fn lemma_next_respects_tiers(before: QueueView, n: int)
    requires
        0 <= n < before.scheduled().len(),
    ensures
        n >= before.verification.len() ==> before.without_front(n + 1).verification.len() == 0,
        n >= before.verification.len() + before.inferral.len() ==> before.without_front(
            n + 1,
        ).inferral.len() == 0,
        n >= before.verification.len() + before.inferral.len() + before.initial.len()
            ==> before.without_front(n + 1).initial.len() == 0,
{
}

/// Dropping a packet from the front twice is dropping two.
proof fn lemma_without_front_twice(view: QueueView, n: int)
    requires
        0 <= n < view.scheduled().len(),
    ensures
        view.without_front(n).without_front(1) == view.without_front(n + 1),
{
    let a = view.without_front(n).without_front(1);
    let b = view.without_front(n + 1);
    assert(a.verification =~= b.verification);
    assert(a.inferral =~= b.inferral);
    assert(a.initial =~= b.initial);
    assert(a.expansion =~= b.expansion);
}

/// After a class is added no two waiting packets are the same.
proof fn lemma_added_schedule_has_no_duplicates<F: StrategyFactory>(
    before: QueueView,
    label: usize,
    pack: StrategyPack<F>,
    i: int,
    j: int,
)
    requires
        before.wf(pack),
        pack.factories().len() <= usize::MAX,
        !before.added.contains(label),
        0 <= i < before.with_class(label, pack).scheduled().len(),
        0 <= j < before.with_class(label, pack).scheduled().len(),
        i != j,
    ensures
        before.with_class(label, pack).scheduled()[i] != before.with_class(
            label,
            pack,
        ).scheduled()[j],
{
    let after = before.with_class(label, pack);
    let v = before.verification.len() as int;
    let v2 = after.verification.len() as int;
    let f = before.inferral.len() as int;
    let f2 = after.inferral.len() as int;
    let n = before.initial.len() as int;
    let n2 = after.initial.len() as int;
    let e = before.expansion.len() as int;
    let old_i = if i < v {
        i
    } else if i < v2 {
        -1
    } else if i < v2 + f {
        i - v2 + v
    } else if i < v2 + f2 {
        -1
    } else if i < v2 + f2 + n {
        i - v2 - f2 + v + f
    } else if i < v2 + f2 + n2 {
        -1
    } else if i < v2 + f2 + n2 + e {
        i - v2 - f2 - n2 + v + f + n
    } else {
        -1
    };
    let old_j = if j < v {
        j
    } else if j < v2 {
        -1
    } else if j < v2 + f {
        j - v2 + v
    } else if j < v2 + f2 {
        -1
    } else if j < v2 + f2 + n {
        j - v2 - f2 + v + f
    } else if j < v2 + f2 + n2 {
        -1
    } else if j < v2 + f2 + n2 + e {
        j - v2 - f2 - n2 + v + f + n
    } else {
        -1
    };
    let p = after.scheduled()[i];
    let q = after.scheduled()[j];
    if old_i >= 0 {
        assert(before.scheduled()[old_i] == p);
        assert(before.added.contains(p.class_label));
    } else {
        assert(p.class_label == label);
    }
    if old_j >= 0 {
        assert(before.scheduled()[old_j] == q);
        assert(before.added.contains(q.class_label));
    } else {
        assert(q.class_label == label);
    }
    if old_i >= 0 && old_j >= 0 {
        assert(old_i != old_j);
    }
    if old_i < 0 && old_j < 0 {
        assert(p.factory_index != q.factory_index);
    }
}

/// A queue stays well formed when ignored packets are dropped from its front.
proof fn lemma_dropping_keeps_wf<F: StrategyFactory>(
    before: QueueView,
    pack: StrategyPack<F>,
    n: int,
    ignore: Set<usize>,
)
    requires
        before.wf(pack),
        0 <= n <= before.scheduled().len(),
    ensures
        (QueueView { ignore, ..before.without_front(n) }).wf(pack),
{
    let after = QueueView { ignore, ..before.without_front(n) };
    lemma_without_front(before, n);
    assert(after.scheduled() == before.scheduled().skip(n));
    assert forall|i: int| 0 <= i < after.scheduled().len() implies after.added.contains(
        (#[trigger] after.scheduled()[i]).class_label,
    ) by {
        assert(after.scheduled()[i] == before.scheduled()[i + n]);
    }
    assert forall|i: int, j: int|
        0 <= i < after.scheduled().len() && 0 <= j < after.scheduled().len() && i
            != j implies after.scheduled()[i] != after.scheduled()[j] by {
        assert(after.scheduled()[i] == before.scheduled()[i + n]);
        assert(after.scheduled()[j] == before.scheduled()[j + n]);
    }
    assert forall|i: int, j: int|
        0 <= i < after.scheduled().len() && 0 <= j < after.yielded.len() implies #[trigger] after.scheduled()[i]
        != #[trigger] after.yielded[j] by {
        assert(after.scheduled()[i] == before.scheduled()[i + n]);
    }
}

/// A queue stays well formed when ignored packets are dropped from its front
/// and the packet behind them is handed out.
proof fn lemma_yielding_keeps_wf<F: StrategyFactory>(
    before: QueueView,
    pack: StrategyPack<F>,
    n: int,
    ignore: Set<usize>,
)
    requires
        before.wf(pack),
        0 <= n < before.scheduled().len(),
    ensures
        (QueueView {
            ignore,
            last: Some(before.scheduled()[n]),
            yielded: before.yielded.push(before.scheduled()[n]),
            ..before.without_front(n + 1)
        }).wf(pack),
{
    let packet = before.scheduled()[n];
    let after = QueueView {
        ignore,
        last: Some(packet),
        yielded: before.yielded.push(packet),
        ..before.without_front(n + 1)
    };
    lemma_dropping_keeps_wf(before, pack, n + 1, ignore);
    lemma_without_front(before, n + 1);
    assert(after.scheduled() == before.scheduled().skip(n + 1));
    assert(packet.factory_index < pack.factories().len()) by {
        let v = before.verification.len() as int;
        let f = before.inferral.len() as int;
        let k = before.initial.len() as int;
        if n < v {
            assert(packet == before.verification[n]);
        } else if n < v + f {
            assert(packet == before.inferral[n - v]);
        } else if n < v + f + k {
            assert(packet == before.initial[n - v - f]);
        } else {
            assert(packet == before.expansion[n - v - f - k]);
        }
    }
    assert forall|i: int| 0 <= i < after.yielded.len() implies after.added.contains(
        (#[trigger] after.yielded[i]).class_label,
    ) && after.yielded[i].factory_index < pack.factories().len() by {
        if i < before.yielded.len() {
            assert(after.yielded[i] == before.yielded[i]);
        }
    }
    assert forall|i: int, j: int|
        0 <= i < after.yielded.len() && 0 <= j < after.yielded.len() && i
            != j implies after.yielded[i] != after.yielded[j] by {
        if i < before.yielded.len() && j < before.yielded.len() {
            assert(after.yielded[i] == before.yielded[i]);
            assert(after.yielded[j] == before.yielded[j]);
        }
    }
    assert forall|i: int, j: int|
        0 <= i < after.scheduled().len() && 0 <= j < after.yielded.len() implies #[trigger] after.scheduled()[i]
        != #[trigger] after.yielded[j] by {
        assert(after.scheduled()[i] == before.scheduled()[i + n + 1]);
        if j < before.yielded.len() {
            assert(after.yielded[j] == before.yielded[j]);
        }
    }
}

} // verus!
