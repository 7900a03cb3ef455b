//! Which classes are known to be equivalent, and by which chain of rules.

use crate::errors::SpecificationNotFoundError;
use crate::searcher::ruledb::{sorted_labels, RuleLabel};
use pathfinding::prelude::bfs;
use std::collections::HashMap;
use vstd::prelude::*;

verus! {

broadcast use vstd::std_specs::hash::group_hash_axioms;

/// Disjoint sets of labels. Each set has one of its labels as its root.
/// A label that was never seen is alone in its set.
pub struct UnionFind {
    parent: HashMap<usize, usize>,
    weight: HashMap<usize, usize>,
    rep: Ghost<Map<usize, usize>>,
    dist: Ghost<Map<usize, nat>>,
}

impl UnionFind {
    /// The labels seen so far.
    pub closed spec fn known(&self) -> Set<usize> {
        self.parent@.dom()
    }

    /// The root of the set of `label`.
    pub closed spec fn root_of(&self, label: usize) -> usize {
        if self.rep@.contains_key(label) {
            self.rep@[label]
        } else {
            label
        }
    }

    /// The labels among `labels` whose root is `root`.
    pub open spec fn members(&self, labels: Set<usize>, root: usize) -> Set<usize> {
        labels.filter(|l: usize| self.root_of(l) == root)
    }

    /// What holds of a known label: its parent is known and has the same
    /// root, the root is its own parent, and the parent is nearer to the root.
    closed spec fn node_ok(&self, k: usize) -> bool {
        &&& self.parent@.contains_key(self.parent@[k])
        &&& self.rep@[self.parent@[k]] == self.rep@[k]
        &&& (self.parent@[k] == k ==> self.rep@[k] == k)
        &&& (self.parent@[k] != k ==> self.dist@[self.parent@[k]] < self.dist@[k])
        &&& self.parent@.contains_key(self.rep@[k])
        &&& self.parent@[self.rep@[k]] == self.rep@[k]
    }

    /// The weight of a root is the number of known labels in its set.
    closed spec fn weight_ok(&self, r: usize) -> bool {
        self.rep@[r] == r ==> self.weight@[r] == self.members(self.known(), r).len()
    }

    pub closed spec fn wf(&self) -> bool {
        &&& self.parent@.dom().finite()
        &&& self.rep@.dom() == self.parent@.dom()
        &&& self.dist@.dom() == self.parent@.dom()
        &&& self.weight@.dom() == self.parent@.dom()
        &&& forall|k: usize| self.parent@.dom().contains(k) ==> #[trigger] self.node_ok(k)
        &&& forall|r: usize| self.parent@.dom().contains(r) ==> #[trigger] self.weight_ok(r)
    }

    /// A root is its own root, the root of a known label is known, and an
    /// unknown label is its own root.
    pub proof fn lemma_roots(&self, label: usize)
        requires
            self.wf(),
        ensures
            self.root_of(self.root_of(label)) == self.root_of(label),
            self.known().contains(label) ==> self.known().contains(self.root_of(label)),
            !self.known().contains(label) ==> self.root_of(label) == label,
    {
        if self.parent@.contains_key(label) {
            assert(self.node_ok(label));
            assert(self.node_ok(self.rep@[label]));
        }
    }

    /// Sets over no labels at all.
    pub fn new() -> (sets: Self)
        ensures
            sets.wf(),
            sets.known() == Set::<usize>::empty(),
            forall|l: usize| #[trigger] sets.root_of(l) == l,
    {
        let sets = Self {
            parent: HashMap::new(),
            weight: HashMap::new(),
            rep: Ghost(Map::empty()),
            dist: Ghost(Map::empty()),
        };
        assert(sets.dist@.dom() =~= sets.parent@.dom());
        assert(sets.rep@.dom() =~= sets.parent@.dom());
        sets
    }

    /// The root of the set of `label`. The labels met on the way to the root
    /// hang under it afterwards.
    pub fn find(&mut self, label: usize) -> (root: usize)
        requires
            old(self).wf(),
        ensures
            final(self).wf(),
            root == old(self).root_of(label),
            final(self).root_of(root) == root,
            forall|l: usize| #[trigger] final(self).root_of(l) == old(self).root_of(l),
            final(self).known() == old(self).known().insert(label),
    {
        let first = match self.parent.get(&label) {
            None => {
                self.parent.insert(label, label);
                self.weight.insert(label, 1);
                proof {
                    self.rep@ = self.rep@.insert(label, label);
                    self.dist@ = self.dist@.insert(label, 0);
                    self.lemma_fresh_label(*old(self), label);
                }
                return label;
            },
            Some(first) => *first,
        };
        let mut root = first;
        let mut path: Vec<usize> = Vec::new();
        path.push(label);
        let mut last = label;
        // walk up to the root
        while root != last
            invariant
                self.wf(),
                *self == *old(self),
                self.parent@.dom().contains(last),
                root == self.parent@[last],
                self.rep@[last] == self.rep@[label],
                self.parent@.dom().contains(label),
                forall|i: int|
                    0 <= i < path.len() ==> {
                        &&& self.parent@.dom().contains(#[trigger] path[i])
                        &&& self.rep@[path[i]] == self.rep@[label]
                        &&& (path[i] == last || self.dist@[path[i]] > self.dist@[last])
                    },
            decreases self.dist@[last],
        {
            proof {
                assert(self.node_ok(last));
            }
            path.push(root);
            last = root;
            let next = self.parent.get(&root);
            root = *next.unwrap();
        }
        proof {
            assert(self.node_ok(last));
        }
        // hang every label met under the root
        let mut i: usize = 0;
        while i < path.len()
            invariant
                i <= path.len(),
                self.wf(),
                self.rep == old(self).rep,
                self.parent@.dom() == old(self).parent@.dom(),
                self.parent@.dom().contains(root),
                self.parent@[root] == root,
                self.rep@[root] == root,
                forall|j: int|
                    0 <= j < path.len() ==> {
                        &&& self.parent@.dom().contains(#[trigger] path[j])
                        &&& self.rep@[path[j]] == root
                        &&& (path[j] == root || self.dist@[path[j]] > self.dist@[root])
                    },
            decreases path.len() - i,
        {
            let ancestor = path[i];
            let ghost before = *self;
            self.parent.insert(ancestor, root);
            proof {
                assert(self.parent@.dom() =~= before.parent@.dom());
                assert(before.node_ok(ancestor));
                assert forall|k: usize| self.parent@.dom().contains(k) implies #[trigger] self.node_ok(
                    k,
                ) by {
                    assert(before.node_ok(k));
                }
                assert forall|r: usize| self.parent@.dom().contains(r) implies #[trigger] self.weight_ok(
                    r,
                ) by {
                    assert(before.weight_ok(r));
                    assert(self.members(self.known(), r) =~= before.members(before.known(), r));
                }
            }
            i += 1;
        }
        proof {
            assert(self.known() =~= old(self).known().insert(label));
        }
        root
    }

    /// A label seen for the first time is alone in its set.
    proof fn lemma_fresh_label(&self, before: Self, label: usize)
        requires
            before.wf(),
            !before.parent@.dom().contains(label),
            self.parent@ == before.parent@.insert(label, label),
            self.weight@ == before.weight@.insert(label, 1),
            self.rep@ == before.rep@.insert(label, label),
            self.dist@ == before.dist@.insert(label, 0),
        ensures
            self.wf(),
            forall|l: usize| #[trigger] self.root_of(l) == before.root_of(l),
            self.known() == before.known().insert(label),
            before.root_of(label) == label,
    {
        assert(self.rep@.dom() =~= self.parent@.dom());
        assert(self.dist@.dom() =~= self.parent@.dom());
        assert(self.weight@.dom() =~= self.parent@.dom());
        assert forall|k: usize| self.parent@.dom().contains(k) implies #[trigger] self.node_ok(
            k,
        ) by {
            if k != label {
                assert(before.node_ok(k));
            }
        }
        assert forall|r: usize| self.parent@.dom().contains(r) implies #[trigger] self.weight_ok(
            r,
        ) by {
            if r == label {
                assert forall|l: usize| self.members(self.known(), r).contains(l) implies l
                    == label by {
                    if l != label {
                        assert(before.node_ok(l));
                    }
                }
                assert(self.members(self.known(), r) =~= set![label]);
            } else {
                assert(before.weight_ok(r));
                assert(self.members(self.known(), r) =~= before.members(before.known(), r));
            }
        }
    }

    /// Hanging one root under another joins their two sets.
    proof fn lemma_joined(&self, mid: Self, heaviest: usize, lightest: usize)
        requires
            mid.wf(),
            heaviest != lightest,
            mid.parent@.dom().contains(heaviest),
            mid.parent@.dom().contains(lightest),
            mid.rep@[heaviest] == heaviest,
            mid.rep@[lightest] == lightest,
            self.parent@ == mid.parent@.insert(lightest, heaviest),
            self.weight@ == mid.weight@.insert(
                heaviest,
                (mid.weight@[heaviest] + mid.weight@[lightest]) as usize,
            ),
            mid.weight@[heaviest] + mid.weight@[lightest] <= usize::MAX,
            self.rep@ == Map::new(
                |k: usize| mid.rep@.contains_key(k),
                |k: usize|
                    if mid.rep@[k] == lightest {
                        heaviest
                    } else {
                        mid.rep@[k]
                    },
            ),
            self.dist@ == Map::new(
                |k: usize| mid.dist@.contains_key(k),
                |k: usize|
                    if mid.rep@[k] == lightest {
                        mid.dist@[k] + mid.dist@[heaviest] + 1
                    } else {
                        mid.dist@[k]
                    },
            ),
        ensures
            self.wf(),
            self.known() == mid.known(),
            forall|l: usize| #[trigger]
                self.root_of(l) == if mid.root_of(l) == lightest {
                    heaviest
                } else {
                    mid.root_of(l)
                },
    {
        assert(self.parent@.dom() =~= mid.parent@.dom());
        assert(self.rep@.dom() =~= self.parent@.dom());
        assert(self.dist@.dom() =~= self.parent@.dom());
        assert(self.weight@.dom() =~= self.parent@.dom());
        assert(mid.node_ok(heaviest));
        assert(mid.node_ok(lightest));
        assert forall|k: usize| self.parent@.dom().contains(k) implies #[trigger] self.node_ok(
            k,
        ) by {
            assert(mid.node_ok(k));
            assert(mid.node_ok(mid.parent@[k]));
        }
        let heavy = mid.members(mid.known(), heaviest);
        let light = mid.members(mid.known(), lightest);
        mid.known().lemma_len_filter(|l: usize| mid.root_of(l) == heaviest);
        mid.known().lemma_len_filter(|l: usize| mid.root_of(l) == lightest);
        assert(heavy.disjoint(light));
        vstd::set_lib::lemma_set_disjoint_lens(heavy, light);
        assert(mid.weight_ok(heaviest));
        assert(mid.weight_ok(lightest));
        assert forall|r: usize| self.parent@.dom().contains(r) implies #[trigger] self.weight_ok(
            r,
        ) by {
            assert(mid.weight_ok(r));
            assert(mid.node_ok(r));
            if self.rep@[r] == r {
                if r == heaviest {
                    assert(self.members(self.known(), r) =~= heavy + light);
                } else {
                    assert(self.members(self.known(), r) =~= mid.members(mid.known(), r));
                }
            }
        }
        assert forall|l: usize| #[trigger]
            self.root_of(l) == if mid.root_of(l) == lightest {
                heaviest
            } else {
                mid.root_of(l)
            } by {
            if !mid.rep@.contains_key(l) {
                assert(l != lightest);
            }
        }
    }

    /// Joins the sets of two labels: the root of the larger set, or on a tie
    /// that of the set of `label2`, becomes the root of both.
    pub fn union(&mut self, label1: usize, label2: usize)
        requires
            old(self).wf(),
        ensures
            final(self).wf(),
            final(self).known() == old(self).known().insert(label1).insert(label2),
            final(self).root_of(label1) == final(self).root_of(label2),
            ({
                let root1 = old(self).root_of(label1);
                let root2 = old(self).root_of(label2);
                let labels = old(self).known().insert(label1).insert(label2);
                let winner = if old(self).members(labels, root1).len() > old(self).members(
                    labels,
                    root2,
                ).len() {
                    root1
                } else {
                    root2
                };
                forall|l: usize| #[trigger]
                    final(self).root_of(l) == if old(self).root_of(l) == root1 || old(
                        self,
                    ).root_of(l) == root2 {
                        winner
                    } else {
                        old(self).root_of(l)
                    }
            }),
    {
        let root1 = self.find(label1);
        let root2 = self.find(label2);
        let ghost mid = *self;
        proof {
            mid.lemma_roots(label1);
            mid.lemma_roots(label2);
            assert(mid.root_of(label1) == root1);
            assert(mid.root_of(label2) == root2);
            assert(mid.known() =~= old(self).known().insert(label1).insert(label2));
            assert(mid.members(mid.known(), root1) =~= old(self).members(mid.known(), root1));
            assert(mid.members(mid.known(), root2) =~= old(self).members(mid.known(), root2));
            assert(mid.root_of(root1) == root1);
            assert(mid.root_of(root2) == root2);
        }
        if root1 == root2 {
            return ;
        }
        let found1 = self.weight.get(&root1);
        let weight1 = *found1.unwrap();
        let found2 = self.weight.get(&root2);
        let weight2 = *found2.unwrap();
        let (heaviest, lightest) = if weight1 > weight2 {
            (root1, root2)
        } else {
            (root2, root1)
        };
        let count = self.parent.len();
        proof {
            let heavy = mid.members(mid.known(), heaviest);
            let light = mid.members(mid.known(), lightest);
            mid.known().lemma_len_filter(|l: usize| mid.root_of(l) == heaviest);
            mid.known().lemma_len_filter(|l: usize| mid.root_of(l) == lightest);
            assert(heavy.disjoint(light));
            vstd::set_lib::lemma_set_disjoint_lens(heavy, light);
            vstd::set_lib::lemma_len_subset(heavy + light, mid.known());
            assert(mid.weight_ok(root1));
            assert(mid.weight_ok(root2));
            assert(weight1 + weight2 <= count);
        }
        self.weight.insert(heaviest, weight1 + weight2);
        self.parent.insert(lightest, heaviest);
        proof {
            self.rep@ = Map::new(
                |k: usize| mid.rep@.contains_key(k),
                |k: usize|
                    if mid.rep@[k] == lightest {
                        heaviest
                    } else {
                        mid.rep@[k]
                    },
            );
            self.dist@ = Map::new(
                |k: usize| mid.dist@.contains_key(k),
                |k: usize|
                    if mid.rep@[k] == lightest {
                        mid.dist@[k] + mid.dist@[heaviest] + 1
                    } else {
                        mid.dist@[k]
                    },
            );
            self.lemma_joined(mid, heaviest, lightest);
            assert forall|l: usize| #[trigger]
                self.root_of(l) == if old(self).root_of(l) == root1 || old(self).root_of(l)
                    == root2 {
                    heaviest
                } else {
                    old(self).root_of(l)
                } by {
                assert(mid.root_of(l) == old(self).root_of(l));
            }
        }
    }

    /// Whether two labels are in one set.
    pub fn are_equivalent(&mut self, label1: usize, label2: usize) -> (same: bool)
        requires
            old(self).wf(),
        ensures
            final(self).wf(),
            same == (old(self).root_of(label1) == old(self).root_of(label2)),
            forall|l: usize| #[trigger] final(self).root_of(l) == old(self).root_of(l),
            final(self).known() == old(self).known().insert(label1).insert(label2),
    {
        let root1 = self.find(label1);
        let root2 = self.find(label2);
        root1 == root2
    }
}

/// Whether an edge of `edges` joins `a` and `b`, in either direction.
pub open spec fn linked(edges: Seq<(usize, usize)>, a: usize, b: usize) -> bool {
    exists|i: int|
        0 <= i < edges.len() && (#[trigger] edges[i] == (a, b) || edges[i] == (b, a))
}

/// Whether `path` leads from `start` to `end` along edges of `edges`.
pub open spec fn is_path(edges: Seq<(usize, usize)>, path: Seq<usize>, start: usize, end: usize) -> bool {
    &&& path.len() > 0
    &&& path[0] == start
    &&& path[path.len() - 1] == end
    &&& forall|i: int| 0 <= i < path.len() - 1 ==> linked(edges, #[trigger] path[i], path[i + 1])
}

/// Whether a path leads from `a` to `b` along edges of `edges`.
pub open spec fn connected(edges: Seq<(usize, usize)>, a: usize, b: usize) -> bool {
    exists|path: Seq<usize>| #[trigger] is_path(edges, path, a, b)
}

/// A path stays a path when an edge is added.
pub proof fn lemma_path_with_more_edges(
    edges: Seq<(usize, usize)>,
    edge: (usize, usize),
    path: Seq<usize>,
    a: usize,
    b: usize,
)
    requires
        is_path(edges, path, a, b),
    ensures
        is_path(edges.push(edge), path, a, b),
{
    let more = edges.push(edge);
    assert forall|i: int| 0 <= i < path.len() - 1 implies linked(
        more,
        #[trigger] path[i],
        path[i + 1],
    ) by {
        let k = choose|k: int|
            0 <= k < edges.len() && (#[trigger] edges[k] == (path[i], path[i + 1]) || edges[k] == (
                path[i + 1],
                path[i],
            ));
        assert(more[k] == edges[k]);
    }
}

/// Two paths, one ending where the other starts, make a path.
pub proof fn lemma_paths_join(
    edges: Seq<(usize, usize)>,
    first: Seq<usize>,
    second: Seq<usize>,
    a: usize,
    b: usize,
    c: usize,
)
    requires
        is_path(edges, first, a, b),
        is_path(edges, second, b, c),
    ensures
        is_path(edges, first + second.skip(1), a, c),
{
    let joined = first + second.skip(1);
    assert forall|i: int| 0 <= i < joined.len() - 1 implies linked(
        edges,
        #[trigger] joined[i],
        joined[i + 1],
    ) by {
        if i < first.len() - 1 {
            assert(linked(edges, first[i], first[i + 1]));
        } else {
            let n = i - first.len() + 1;
            assert(linked(edges, second[n], second[n + 1]));
            if n > 0 {
                assert(joined[i] == second[n]);
            } else {
                assert(joined[i] == first[first.len() - 1]);
            }
            assert(joined[i + 1] == second[n + 1]);
        }
    }
}

/// A path walked backwards is a path.
pub proof fn lemma_path_back(edges: Seq<(usize, usize)>, path: Seq<usize>, a: usize, b: usize)
    requires
        is_path(edges, path, a, b),
    ensures
        is_path(edges, path.reverse(), b, a),
{
    let back = path.reverse();
    assert forall|i: int| 0 <= i < back.len() - 1 implies linked(
        edges,
        #[trigger] back[i],
        back[i + 1],
    ) by {
        let n = path.len() - 2 - i;
        assert(linked(edges, path[n], path[n + 1]));
        assert(back[i] == path[n + 1]);
        assert(back[i + 1] == path[n]);
        let k = choose|k: int|
            0 <= k < edges.len() && (#[trigger] edges[k] == (path[n], path[n + 1]) || edges[k] == (
                path[n + 1],
                path[n],
            ));
        assert(edges[k] == (back[i], back[i + 1]) || edges[k] == (back[i + 1], back[i]));
    }
}

/// The labels that an edge joins to `label`.
pub fn neighbours(edges: &Vec<(usize, usize)>, label: usize) -> (found: Vec<usize>)
    ensures
        forall|other: usize| found@.contains(other) <==> linked(edges@, label, other),
{
    let mut found: Vec<usize> = Vec::new();
    let mut i: usize = 0;
    while i < edges.len()
        invariant
            i <= edges.len(),
            forall|other: usize| #[trigger]
                found@.contains(other) <==> linked(edges@.take(i as int), label, other),
        decreases edges.len() - i,
    {
        let (v1, v2) = edges[i];
        let ghost before = found@;
        let ghost seen = edges@.take(i as int);
        let ghost now = edges@.take(i + 1);
        proof {
            assert(now =~= seen.push((v1, v2)));
            assert forall|other: usize| #[trigger]
                linked(now, label, other) <==> linked(seen, label, other) || (v1, v2) == (
                    label,
                    other,
                ) || (v1, v2) == (other, label) by {
                if linked(seen, label, other) {
                    let k = choose|k: int|
                        0 <= k < seen.len() && (#[trigger] seen[k] == (label, other) || seen[k]
                            == (other, label));
                    assert(now[k] == seen[k]);
                }
                if (v1, v2) == (label, other) || (v1, v2) == (other, label) {
                    assert(now[i as int] == (v1, v2));
                }
                if linked(now, label, other) {
                    let k = choose|k: int|
                        0 <= k < now.len() && (#[trigger] now[k] == (label, other) || now[k] == (
                            other,
                            label,
                        ));
                    if k < i {
                        assert(seen[k] == now[k]);
                    }
                }
            }
        }
        if v1 == label {
            found.push(v2);
            proof {
                assert forall|other: usize| #[trigger]
                    found@.contains(other) <==> before.contains(other) || other == v2 by {
                    if before.contains(other) {
                        let k = choose|k: int| 0 <= k < before.len() && before[k] == other;
                        assert(found@[k] == other);
                    }
                    if other == v2 {
                        assert(found@[before.len() as int] == other);
                    }
                }
            }
        } else if v2 == label {
            found.push(v1);
            proof {
                assert forall|other: usize| #[trigger]
                    found@.contains(other) <==> before.contains(other) || other == v1 by {
                    if before.contains(other) {
                        let k = choose|k: int| 0 <= k < before.len() && before[k] == other;
                        assert(found@[k] == other);
                    }
                    if other == v1 {
                        assert(found@[before.len() as int] == other);
                    }
                }
            }
        }
        i += 1;
    }
    assert(edges@.take(i as int) =~= edges@);
    found
}

/// Whether `label` is `wanted`.
pub fn is_label(label: &usize, wanted: usize) -> (same: bool)
    ensures
        same == (*label == wanted),
{
    *label == wanted
}

/// `pathfinding`'s `bfs`, from `start`, with the neighbours along `edges` as
/// successors, until `end` is reached: a path from `start` to `end` of the
/// least possible length, or `None` where no path leads there.
#[verifier::external_body]
fn shortest_path(edges: &Vec<(usize, usize)>, start: usize, end: usize) -> (path: Option<Vec<usize>>)
    ensures
        match path {
            Some(p) => {
                &&& is_path(edges@, p@, start, end)
                &&& forall|q: Seq<usize>| #[trigger]
                    is_path(edges@, q, start, end) ==> p@.len() <= q.len()
            },
            None => forall|q: Seq<usize>| !#[trigger] is_path(edges@, q, start, end),
        },
{
    bfs(&start, |v| neighbours(edges, *v), |v| is_label(v, end))
}

/// `format!` with the debug form of a map from labels to labels. The entries
/// come in the order in which the map is walked, which is not the same from
/// one run to the next: nothing is said of the text.
#[verifier::external_body]
fn map_text(map: &HashMap<usize, usize>) -> String {
    format!("{:?}", map)
}

// The text that `format!` gives for the debug form of a list of pairs of
// labels.
pub uninterp spec fn pairs_text(pairs: Seq<(usize, usize)>) -> Seq<char>;

/// `format!` with the debug form of a list of pairs of labels: a text that
/// goes by the pairs alone.
#[verifier::external_body]
fn list_text(pairs: &Vec<(usize, usize)>) -> (text: String)
    ensures
        text@ == pairs_text(pairs@),
{
    format!("{:?}", pairs)
}

/// The text for a store of equivalences, made of the texts for the parents,
/// for the weights and for the edges.
pub open spec fn debug_form(parent: Seq<char>, weight: Seq<char>, edges: Seq<char>) -> Seq<char> {
    "EquivDB { union_find: UnionFind { parent: "@ + parent + ", weight: "@ + weight
        + " }, edges: "@ + edges + " }"@
}

/// The equivalences found between classes: which labels are known to stand
/// for equivalent classes, and the one-step equivalences this came from.
pub struct EquivDB {
    union_find: UnionFind,
    edges: Vec<(usize, usize)>,
}

impl EquivDB {
    /// The pairs given to `union`, in order.
    pub closed spec fn edges(&self) -> Seq<(usize, usize)> {
        self.edges@
    }

    /// The representative of the equivalence class of `label`.
    pub closed spec fn root_of(&self, label: usize) -> usize {
        self.union_find.root_of(label)
    }

    /// The labels seen so far.
    pub closed spec fn known(&self) -> Set<usize> {
        self.union_find.known()
    }

    /// The labels among `labels` whose representative is `root`.
    pub open spec fn members(&self, labels: Set<usize>, root: usize) -> Set<usize> {
        labels.filter(|l: usize| self.root_of(l) == root)
    }

    /// The two ends of the edge at `i` are equivalent.
    closed spec fn edge_ok(&self, i: int) -> bool {
        self.union_find.root_of(self.edges@[i].0) == self.union_find.root_of(self.edges@[i].1)
    }

    /// Labels with the same representative are joined by a path of edges.
    closed spec fn joined_ok(&self, a: usize, b: usize) -> bool {
        self.union_find.root_of(a) == self.union_find.root_of(b) ==> connected(self.edges@, a, b)
    }

    /// The labels that a path of edges joins are those with the same
    /// representative.
    pub closed spec fn wf(&self) -> bool {
        &&& self.union_find.wf()
        &&& forall|i: int| 0 <= i < self.edges@.len() ==> #[trigger] self.edge_ok(i)
        &&& forall|a: usize, b: usize| #[trigger] self.joined_ok(a, b)
    }

    /// Equivalent labels are joined by a path of edges.
    pub proof fn lemma_equivalent_are_connected(&self, a: usize, b: usize)
        requires
            self.wf(),
            self.root_of(a) == self.root_of(b),
        ensures
            connected(self.edges(), a, b),
    {
        assert(self.joined_ok(a, b));
    }

    /// `rule` with each label replaced by its representative, and the
    /// children put in ascending order again.
    pub open spec fn up_to_equivalence(&self, rule: (usize, Seq<usize>)) -> (usize, Seq<usize>) {
        (self.root_of(rule.0), sorted_labels(Seq::new(rule.1.len(), |k: int| self.root_of(rule.1[k]))))
    }

    /// Stores with the same representatives give the same rules up to
    /// equivalence.
    pub proof fn lemma_up_to_equivalence(&self, other: &EquivDB, rule: (usize, Seq<usize>))
        requires
            forall|l: usize| #[trigger] self.root_of(l) == other.root_of(l),
        ensures
            self.up_to_equivalence(rule) == other.up_to_equivalence(rule),
    {
        assert(Seq::new(rule.1.len(), |k: int| self.root_of(rule.1[k])) =~= Seq::new(
            rule.1.len(),
            |k: int| other.root_of(rule.1[k]),
        ));
    }

    /// Whether `self` is `before` after the classes of two labels were
    /// joined: the pair is the last edge, and the representative of the
    /// larger of the two classes, or on a tie that of the second, now stands
    /// for both.
    pub open spec fn is_union_of(&self, before: &EquivDB, label1: usize, label2: usize) -> bool {
        let root1 = before.root_of(label1);
        let root2 = before.root_of(label2);
        let labels = before.known().insert(label1).insert(label2);
        let winner = if before.members(labels, root1).len() > before.members(labels, root2).len() {
            root1
        } else {
            root2
        };
        &&& self.edges() == before.edges().push((label1, label2))
        &&& self.known() == labels
        &&& forall|l: usize| #[trigger]
            self.root_of(l) == if before.root_of(l) == root1 || before.root_of(l) == root2 {
                winner
            } else {
                before.root_of(l)
            }
    }

    /// A representative is its own representative.
    pub proof fn lemma_roots(&self, label: usize)
        requires
            self.wf(),
        ensures
            self.root_of(self.root_of(label)) == self.root_of(label),
            self.known().contains(label) ==> self.known().contains(self.root_of(label)),
            !self.known().contains(label) ==> self.root_of(label) == label,
    {
        self.union_find.lemma_roots(label);
    }

    /// Labels joined by an edge are equivalent.
    pub proof fn lemma_linked_are_equivalent(&self, a: usize, b: usize)
        requires
            self.wf(),
            linked(self.edges(), a, b),
        ensures
            self.root_of(a) == self.root_of(b),
    {
        let i = choose|i: int|
            0 <= i < self.edges@.len() && (#[trigger] self.edges@[i] == (a, b) || self.edges@[i]
                == (b, a));
        assert(self.edge_ok(i));
    }

    /// Every label on a path is equivalent to the label the path starts from.
    pub proof fn lemma_path_is_equivalent(&self, path: Seq<usize>, start: usize, end: usize, i: int)
        requires
            self.wf(),
            is_path(self.edges(), path, start, end),
            0 <= i < path.len(),
        ensures
            self.root_of(path[i]) == self.root_of(start),
        decreases i,
    {
        if i > 0 {
            self.lemma_path_is_equivalent(path, start, end, i - 1);
            assert(linked(self.edges(), path[i - 1], path[i - 1 + 1]));
            self.lemma_linked_are_equivalent(path[i - 1], path[i]);
        }
    }

    /// Equivalences that did not change leave the store well formed.
    proof fn lemma_same_roots(&self, before: Self)
        requires
            before.wf(),
            self.union_find.wf(),
            self.edges@ == before.edges@,
            forall|l: usize| #[trigger]
                self.union_find.root_of(l) == before.union_find.root_of(l),
        ensures
            self.wf(),
    {
        assert forall|i: int| 0 <= i < self.edges@.len() implies #[trigger] self.edge_ok(i) by {
            assert(before.edge_ok(i));
        }
        assert forall|a: usize, b: usize| #[trigger] self.joined_ok(a, b) by {
            assert(before.joined_ok(a, b));
        }
    }

    /// A store without equivalences.
    pub fn new() -> (db: Self)
        ensures
            db.wf(),
            db.edges() == Seq::<(usize, usize)>::empty(),
            db.known() == Set::<usize>::empty(),
            forall|l: usize| #[trigger] db.root_of(l) == l,
    {
        let db = Self { union_find: UnionFind::new(), edges: Vec::new() };
        proof {
            assert forall|a: usize, b: usize| #[trigger] db.joined_ok(a, b) by {
                if a == b {
                    assert(is_path(db.edges@, seq![a], a, b));
                }
            }
        }
        db
    }

    /// The representative of the class of `label`.
    pub fn find(&mut self, label: usize) -> (root: usize)
        requires
            old(self).wf(),
        ensures
            final(self).wf(),
            root == old(self).root_of(label),
            final(self).root_of(root) == root,
            forall|l: usize| #[trigger] final(self).root_of(l) == old(self).root_of(l),
            final(self).known() == old(self).known().insert(label),
            final(self).edges() == old(self).edges(),
    {
        let root = self.union_find.find(label);
        proof {
            self.lemma_same_roots(*old(self));
        }
        root
    }

    /// Takes in that `label1` and `label2` are equivalent.
    pub fn union(&mut self, label1: usize, label2: usize)
        requires
            old(self).wf(),
        ensures
            final(self).wf(),
            final(self).edges() == old(self).edges().push((label1, label2)),
            final(self).known() == old(self).known().insert(label1).insert(label2),
            final(self).root_of(label1) == final(self).root_of(label2),
            final(self).is_union_of(old(self), label1, label2),
            ({
                let root1 = old(self).root_of(label1);
                let root2 = old(self).root_of(label2);
                let labels = old(self).known().insert(label1).insert(label2);
                let winner = if old(self).members(labels, root1).len() > old(self).members(
                    labels,
                    root2,
                ).len() {
                    root1
                } else {
                    root2
                };
                forall|l: usize| #[trigger]
                    final(self).root_of(l) == if old(self).root_of(l) == root1 || old(
                        self,
                    ).root_of(l) == root2 {
                        winner
                    } else {
                        old(self).root_of(l)
                    }
            }),
    {
        self.edges.push((label1, label2));
        self.union_find.union(label1, label2);
        proof {
            let labels = old(self).known().insert(label1).insert(label2);
            assert(old(self).members(labels, old(self).root_of(label1)) =~= old(
                self,
            ).union_find.members(labels, old(self).root_of(label1)));
            assert(old(self).members(labels, old(self).root_of(label2)) =~= old(
                self,
            ).union_find.members(labels, old(self).root_of(label2)));
            assert forall|i: int| 0 <= i < self.edges@.len() implies #[trigger] self.edge_ok(
                i,
            ) by {
                if i < old(self).edges@.len() {
                    assert(self.edges@[i] == old(self).edges@[i]);
                    assert(old(self).edge_ok(i));
                }
            }
            let was = old(self).edges@;
            let now = self.edges@;
            let root1 = old(self).root_of(label1);
            let root2 = old(self).root_of(label2);
            assert(now == was.push((label1, label2)));
            assert(linked(now, label1, label2)) by {
                assert(now[was.len() as int] == (label1, label2));
            }
            assert(is_path(now, seq![label1, label2], label1, label2));
            assert forall|a: usize, b: usize| #[trigger] self.joined_ok(a, b) by {
                if self.union_find.root_of(a) == self.union_find.root_of(b) {
                    let ra = old(self).root_of(a);
                    let rb = old(self).root_of(b);
                    if ra == rb {
                        assert(old(self).joined_ok(a, b));
                        let path = choose|path: Seq<usize>| #[trigger] is_path(was, path, a, b);
                        lemma_path_with_more_edges(was, (label1, label2), path, a, b);
                    } else {
                        // one is in the class of the first label, the other in that
                        // of the second
                        let (near, far) = if ra == root1 {
                            (a, b)
                        } else {
                            (b, a)
                        };
                        assert(old(self).root_of(near) == root1);
                        assert(old(self).root_of(far) == root2);
                        assert(old(self).joined_ok(near, label1));
                        assert(old(self).joined_ok(label2, far));
                        let head = choose|path: Seq<usize>| #[trigger]
                            is_path(was, path, near, label1);
                        let tail = choose|path: Seq<usize>| #[trigger]
                            is_path(was, path, label2, far);
                        lemma_path_with_more_edges(was, (label1, label2), head, near, label1);
                        lemma_path_with_more_edges(was, (label1, label2), tail, label2, far);
                        lemma_paths_join(now, head, seq![label1, label2], near, label1, label2);
                        let middle = head + seq![label1, label2].skip(1);
                        lemma_paths_join(now, middle, tail, near, label2, far);
                        let whole = middle + tail.skip(1);
                        if near == a {
                            assert(is_path(now, whole, a, b));
                        } else {
                            lemma_path_back(now, whole, near, far);
                            assert(is_path(now, whole.reverse(), a, b));
                        }
                    }
                }
            }
        }
    }

    /// What the store holds, as a text for a person to read: the parents and
    /// the weights of the union-find, in the order in which their maps are
    /// walked, and the edges in the order in which they came.
    pub fn debug_string(&self) -> (text: String)
        ensures
            exists|parent: Seq<char>, weight: Seq<char>|
                text@ == #[trigger] debug_form(parent, weight, pairs_text(self.edges())),
    {
        let parent = map_text(&self.union_find.parent);
        let weight = map_text(&self.union_find.weight);
        let edges = list_text(&self.edges);
        let mut text = String::from_str("EquivDB { union_find: UnionFind { parent: ");
        text.append(parent.as_str());
        text.append(", weight: ");
        text.append(weight.as_str());
        text.append(" }, edges: ");
        text.append(edges.as_str());
        text.append(" }");
        assert(text@ == debug_form(parent@, weight@, pairs_text(self.edges())));
        text
    }

    /// Whether two labels stand for equivalent classes.
    pub fn are_equivalent(&mut self, label1: usize, label2: usize) -> (same: bool)
        requires
            old(self).wf(),
        ensures
            final(self).wf(),
            same == (old(self).root_of(label1) == old(self).root_of(label2)),
            forall|l: usize| #[trigger] final(self).root_of(l) == old(self).root_of(l),
            final(self).known() == old(self).known().insert(label1).insert(label2),
            final(self).edges() == old(self).edges(),
    {
        let same = self.union_find.are_equivalent(label1, label2);
        proof {
            self.lemma_same_roots(*old(self));
        }
        same
    }

    /// `rule` with each label replaced by its representative.
    pub fn rule_up_to_equivalence(&mut self, rule: &RuleLabel) -> (eqv_rule: RuleLabel)
        requires
            old(self).wf(),
        ensures
            final(self).wf(),
            forall|l: usize| #[trigger] final(self).root_of(l) == old(self).root_of(l),
            final(self).edges() == old(self).edges(),
            eqv_rule@ == old(self).up_to_equivalence(rule@),
    {
        let eqv_parent = self.find(*rule.get_parent());
        let children = rule.get_children();
        let mut eqv_children: Vec<usize> = Vec::new();
        let mut i: usize = 0;
        while i < children.len()
            invariant
                i <= children.len(),
                self.wf(),
                children@ == rule@.1,
                forall|l: usize| #[trigger] self.root_of(l) == old(self).root_of(l),
                self.edges() == old(self).edges(),
                eqv_children@ == Seq::new(i as nat, |k: int| old(self).root_of(children@[k])),
            decreases children.len() - i,
        {
            let root = self.find(children[i]);
            eqv_children.push(root);
            i += 1;
            assert(eqv_children@ =~= Seq::new(i as nat, |k: int| old(self).root_of(children@[k])));
        }
        assert(eqv_children@ =~= Seq::new(rule@.1.len(), |k: int| old(self).root_of(rule@.1[k])));
        RuleLabel::new(eqv_parent, eqv_children)
    }

    /// A shortest chain of edges from `start` to `end`. There is one exactly
    /// when the two are equivalent.
    pub fn find_path(&mut self, start: usize, end: usize) -> (path: Result<
        Vec<usize>,
        SpecificationNotFoundError,
    >)
        requires
            old(self).wf(),
        ensures
            final(self).wf(),
            forall|l: usize| #[trigger] final(self).root_of(l) == old(self).root_of(l),
            final(self).edges() == old(self).edges(),
            match path {
                Ok(p) => {
                    &&& is_path(old(self).edges(), p@, start, end)
                    &&& forall|q: Seq<usize>| #[trigger]
                        is_path(old(self).edges(), q, start, end) ==> p@.len() <= q.len()
                },
                Err(_) => forall|q: Seq<usize>| !#[trigger] is_path(
                    old(self).edges(),
                    q,
                    start,
                    end,
                ),
            },
            path.is_ok() <==> old(self).root_of(start) == old(self).root_of(end),
    {
        let mut connected_component: Vec<(usize, usize)> = Vec::new();
        let mut i: usize = 0;
        while i < self.edges.len()
            invariant
                i <= self.edges.len(),
                self.wf(),
                self.edges == old(self).edges,
                forall|l: usize| #[trigger] self.root_of(l) == old(self).root_of(l),
                forall|k: int|
                    0 <= k < connected_component.len() ==> exists|j: int|
                        0 <= j < i && self.edges@[j] == #[trigger] connected_component[k],
                forall|j: int|
                    0 <= j < i && self.root_of((#[trigger] self.edges@[j]).0) == self.root_of(start)
                        ==> connected_component@.contains(self.edges@[j]),
            decreases self.edges.len() - i,
        {
            let edge = self.edges[i];
            let ghost before = connected_component@;
            let ghost db = *self;
            let same = self.union_find.are_equivalent(edge.0, start);
            proof {
                self.lemma_same_roots(db);
                assert forall|l: usize| #[trigger] self.root_of(l) == old(self).root_of(l) by {
                    assert(db.root_of(l) == old(self).root_of(l));
                }
                assert forall|k: int| 0 <= k < before.len() implies exists|j: int|
                    0 <= j < i + 1 && self.edges@[j] == #[trigger] before[k] by {
                    let j = choose|j: int| 0 <= j < i && self.edges@[j] == before[k];
                    assert(0 <= j < i + 1 && self.edges@[j] == before[k]);
                }
            }
            if same {
                connected_component.push(edge);
                proof {
                    assert(connected_component@[before.len() as int] == edge);
                    assert forall|k: int| 0 <= k < connected_component.len() implies exists|j: int|
                        0 <= j < i + 1 && self.edges@[j] == #[trigger] connected_component[k] by {
                        if k < before.len() {
                            assert(connected_component[k] == before[k]);
                            let j = choose|j: int| 0 <= j < i + 1 && self.edges@[j] == before[k];
                            assert(0 <= j < i + 1 && self.edges@[j] == connected_component[k]);
                        } else {
                            assert(0 <= i < i + 1 && self.edges@[i as int] == connected_component[k]);
                        }
                    }
                    assert forall|j: int|
                        0 <= j < i + 1 && self.root_of((#[trigger] self.edges@[j]).0)
                            == self.root_of(start) implies connected_component@.contains(
                        self.edges@[j],
                    ) by {
                        if j < i {
                            assert(before.contains(self.edges@[j]));
                            let k = choose|k: int|
                                0 <= k < before.len() && before[k] == self.edges@[j];
                            assert(connected_component@[k] == self.edges@[j]);
                        }
                    }
                }
            }
            i += 1;
        }
        let found = shortest_path(&connected_component, start, end);
        proof {
            let edges = self.edges@;
            let part = connected_component@;
            assert forall|q: Seq<usize>| is_path(part, q, start, end) implies is_path(
                edges,
                q,
                start,
                end,
            ) by {
                assert forall|n: int| 0 <= n < q.len() - 1 implies linked(
                    edges,
                    #[trigger] q[n],
                    q[n + 1],
                ) by {
                    let k = choose|k: int|
                        0 <= k < part.len() && (#[trigger] part[k] == (q[n], q[n + 1]) || part[k]
                            == (q[n + 1], q[n]));
                    let j = choose|j: int| 0 <= j < i && edges[j] == part[k];
                    assert(edges[j] == (q[n], q[n + 1]) || edges[j] == (q[n + 1], q[n]));
                }
            }
            assert forall|q: Seq<usize>| is_path(edges, q, start, end) implies is_path(
                part,
                q,
                start,
                end,
            ) by {
                assert forall|n: int| 0 <= n < q.len() - 1 implies linked(
                    part,
                    #[trigger] q[n],
                    q[n + 1],
                ) by {
                    self.lemma_path_is_equivalent(q, start, end, n);
                    self.lemma_path_is_equivalent(q, start, end, n + 1);
                    let j = choose|j: int|
                        0 <= j < edges.len() && (#[trigger] edges[j] == (q[n], q[n + 1])
                            || edges[j] == (q[n + 1], q[n]));
                    assert(self.root_of(edges[j].0) == self.root_of(start));
                    assert(part.contains(edges[j]));
                    let k = choose|k: int| 0 <= k < part.len() && part[k] == edges[j];
                    assert(part[k] == (q[n], q[n + 1]) || part[k] == (q[n + 1], q[n]));
                }
            }
        }
        proof {
            if self.root_of(start) == self.root_of(end) {
                self.lemma_equivalent_are_connected(start, end);
            }
            if found.is_some() {
                self.lemma_path_is_equivalent(
                    found.unwrap()@,
                    start,
                    end,
                    found.unwrap()@.len() - 1,
                );
            }
        }
        match found {
            Some(p) => Ok(p),
            None => Err(SpecificationNotFoundError {  }),
        }
    }
}

} // verus!
