//! The collapse/expand overlay: an expansion-state map keyed by thunk
//! identity (the arena path from the root graph to the thunk node), held
//! apart from the hypergraph itself.  A collapsed thunk is presented as an
//! opaque operation; edges into a folded region are redirected to the
//! innermost collapsed ancestor.  Every update builds a fresh map value, so
//! older snapshots stay valid.

use vstd::prelude::*;
use crate::hypergraph::{HyperGraph, Node, NodeIndex};

verus! {

broadcast use vstd::seq_lib::lemma_seq_contains_after_push;

/// How the collapsed view presents a node: as an opaque operation, or as
/// a thunk whose inner structure is shown.
#[derive(Clone, Copy, PartialEq, Eq, Structural, Debug)]
pub enum CollapsedKind {
    Operation,
    Thunk,
}

/// The expansion-state overlay: which thunks (by path) are shown expanded.
#[derive(Debug, PartialEq, Eq)]
pub struct CollapseGraph {
    expanded: Vec<(Vec<NodeIndex>, bool)>,
}

/// The recorded entries as a map, later entries winning.
pub open spec fn entries_map(s: Seq<(Vec<NodeIndex>, bool)>) -> Map<Seq<NodeIndex>, bool>
    decreases s.len(),
{
    if s.len() == 0 {
        Map::empty()
    } else {
        entries_map(s.drop_last()).insert(s.last().0@, s.last().1)
    }
}

/// The expansion state of a thunk: recorded, or expanded by default.
pub open spec fn state_of(m: Map<Seq<NodeIndex>, bool>, path: Seq<NodeIndex>) -> bool {
    if m.dom().contains(path) {
        m[path]
    } else {
        true
    }
}

/// What one toggle does to the map.
pub open spec fn toggle_map(m: Map<Seq<NodeIndex>, bool>, path: Seq<NodeIndex>) -> Map<
    Seq<NodeIndex>,
    bool,
> {
    m.insert(path, !state_of(m, path))
}

/// Toggling the same thunk twice restores the original expansion state:
/// afterwards every thunk reports the state it reported before, so every
/// query of the collapsed view (which is a function of the underlying
/// graph and these states alone) answers as it did before.
pub proof fn lemma_toggle_involutive(m: Map<Seq<NodeIndex>, bool>, path: Seq<NodeIndex>)
    ensures
        forall|p: Seq<NodeIndex>|
            state_of(toggle_map(toggle_map(m, path), path), p) == #[trigger] state_of(m, p),
{
}

impl CollapseGraph {
    /// Unique keys: each thunk path is recorded at most once.
    pub closed spec fn wf(self) -> bool {
        forall|i: int, j: int|
            0 <= i < j < self.expanded@.len() ==> (#[trigger] self.expanded@[i]).0@
                != (#[trigger] self.expanded@[j]).0@
    }

    /// The map of recorded expansion states.
    pub closed spec fn view_map(self) -> Map<Seq<NodeIndex>, bool> {
        entries_map(self.expanded@)
    }

    /// The expansion state this overlay assigns to a thunk path.
    pub open spec fn spec_state(self, path: Seq<NodeIndex>) -> bool {
        state_of(self.view_map(), path)
    }

    /// A fresh overlay: every thunk is shown expanded.
    pub fn new() -> (r: CollapseGraph)
        ensures
            r.wf(),
            r.view_map() == Map::<Seq<NodeIndex>, bool>::empty(),
    {
        CollapseGraph { expanded: Vec::new() }
    }

    /// Whether the thunk at `path` is shown expanded.
    pub fn expanded(&self, path: &Vec<NodeIndex>) -> (r: bool)
        requires
            self.wf(),
        ensures
            r == self.spec_state(path@),
    {
        let mut i: usize = 0;
        while i < self.expanded.len()
            invariant
                self.wf(),
                i <= self.expanded@.len(),
                forall|q: int| 0 <= q < i ==> (#[trigger] self.expanded@[q]).0@ != path@,
            decreases self.expanded@.len() - i,
        {
            if eq_path(&self.expanded[i].0, path) {
                proof {
                    lemma_entries_lookup(self.expanded@, i as int);
                }
                return self.expanded[i].1;
            }
            i += 1;
        }
        proof {
            lemma_entries_absent(self.expanded@, path@);
        }
        true
    }

    /// Records the expansion state of the thunk at `path`.
    pub fn set_expanded(&mut self, path: Vec<NodeIndex>, value: bool)
        requires
            old(self).wf(),
        ensures
            final(self).wf(),
            final(self).view_map() == old(self).view_map().insert(path@, value),
    {
        let mut i: usize = 0;
        while i < self.expanded.len()
            invariant
                self.wf(),
                *self == *old(self),
                i <= self.expanded@.len(),
                forall|q: int| 0 <= q < i ==> (#[trigger] self.expanded@[q]).0@ != path@,
            decreases self.expanded@.len() - i,
        {
            if eq_path(&self.expanded[i].0, &path) {
                let ghost pre = self.expanded@;
                self.expanded[i] = (path, value);
                proof {
                    assert forall|a: int, b: int|
                        0 <= a < b < self.expanded@.len() implies (#[trigger] self.expanded@[a]).0@
                        != (#[trigger] self.expanded@[b]).0@ by {
                        if a != i && b != i {
                            assert(self.expanded@[a] == pre[a] && self.expanded@[b] == pre[b]);
                        } else if a == i {
                            assert(self.expanded@[b] == pre[b]);
                            assert(pre[b].0@ != pre[i as int].0@);
                        } else {
                            assert(self.expanded@[a] == pre[a]);
                            assert(pre[a].0@ != pre[i as int].0@);
                        }
                    }
                    lemma_entries_update(pre, self.expanded@, i as int, path@, value);
                }
                return ;
            }
            i += 1;
        }
        let ghost pre = self.expanded@;
        self.expanded.push((path, value));
        proof {
            assert(self.expanded@.drop_last() =~= pre);
            assert forall|a: int, b: int|
                0 <= a < b < self.expanded@.len() implies (#[trigger] self.expanded@[a]).0@
                != (#[trigger] self.expanded@[b]).0@ by {
                if b < self.expanded@.len() - 1 {
                    assert(self.expanded@[a] == pre[a] && self.expanded@[b] == pre[b]);
                } else {
                    assert(self.expanded@[a] == pre[a]);
                }
            }
        }
    }

    /// Flips the expansion state of the thunk at `path`, producing a new
    /// map value; toggling the same thunk again restores every state.
    pub fn toggle(&mut self, path: Vec<NodeIndex>)
        requires
            old(self).wf(),
        ensures
            final(self).wf(),
            final(self).view_map() == toggle_map(old(self).view_map(), path@),
    {
        let cur = self.expanded(&path);
        self.set_expanded(path, !cur);
    }

    /// Sets every recorded thunk to the given state.
    pub fn set_all(&mut self, value: bool)
        requires
            old(self).wf(),
        ensures
            final(self).wf(),
            final(self).view_map().dom() == old(self).view_map().dom(),
            forall|p: Seq<NodeIndex>|
                final(self).view_map().dom().contains(p) ==> #[trigger] final(self).view_map()[p]
                    == value,
    {
        let mut i: usize = 0;
        while i < self.expanded.len()
            invariant
                self.wf(),
                i <= self.expanded@.len(),
                self.expanded@.len() == old(self).expanded@.len(),
                forall|q: int| 0 <= q < self.expanded@.len() ==> (#[trigger] self.expanded@[q]).0@
                    == old(self).expanded@[q].0@,
                forall|q: int| 0 <= q < i ==> (#[trigger] self.expanded@[q]).1 == value,
            decreases self.expanded@.len() - i,
        {
            let ghost prev = self.expanded@;
            let b = self.expanded[i].1;
            if b != value {
                let key = clone_path(&self.expanded[i].0);
                self.expanded[i] = (key, value);
                proof {
                    assert forall|q: int| 0 <= q < self.expanded@.len() implies (
                    #[trigger] self.expanded@[q]).0@ == old(self).expanded@[q].0@ by {
                        if q != i {
                            assert(self.expanded@[q] == prev[q]);
                        }
                    }
                }
            }
            i += 1;
        }
        proof {
            lemma_entries_pointwise(old(self).expanded@, self.expanded@, value);
        }
    }

    /// The view rewrite of the collapse adaptor: the node at `path` plus
    /// `n` is presented as a thunk exactly when it is a thunk shown
    /// expanded; a collapsed thunk, like any leaf, appears as an opaque
    /// operation.
    pub fn collapse_node<E>(&self, g: &HyperGraph<E>, path: &Vec<NodeIndex>, n: NodeIndex) -> (r: CollapsedKind)
        requires
            self.wf(),
            n.0 < g.node_count(),
        ensures
            g.node_data(n.0 as int) is Thunk ==> (r is Thunk <==> self.spec_state(path@.push(n))),
            !(g.node_data(n.0 as int) is Thunk) ==> r is Operation,
    {
        let data = match g.get(n) {
            Ok(d) => d,
            Err(_) => {
                proof {
                    assert(false);
                }
                return CollapsedKind::Operation;
            }
        };
        match data {
            Node::Thunk { .. } => {
                let mut key = clone_path(path);
                key.push(n);
                if self.expanded(&key) {
                    CollapsedKind::Thunk
                } else {
                    CollapsedKind::Operation
                }
            }
            _ => CollapsedKind::Operation,
        }
    }

    /// The innermost collapsed ancestor of the node at `path`: the longest
    /// proper prefix whose thunk is shown collapsed, if any.  Edges whose
    /// target lies inside a folded region are redirected to it.
    pub fn find_ancestor(&self, path: &Vec<NodeIndex>) -> (r: Option<usize>)
        requires
            self.wf(),
        ensures
            match r {
                Some(p) => {
                    &&& p < path@.len()
                    &&& !self.spec_state(path@.take(p as int))
                    &&& forall|q: int|
                        p < q < path@.len() ==> self.spec_state(#[trigger] path@.take(q))
                },
                None => forall|q: int|
                    0 <= q < path@.len() ==> self.spec_state(#[trigger] path@.take(q)),
            },
    {
        let mut p: usize = path.len();
        while p > 0
            invariant
                self.wf(),
                p <= path@.len(),
                forall|q: int| p <= q < path@.len() ==> self.spec_state(#[trigger] path@.take(q)),
            decreases p,
        {
            p -= 1;
            let prefix = take_path(path, p);
            if !self.expanded(&prefix) {
                return Some(p);
            }
        }
        None
    }
}

/// Compares two paths.
fn eq_path(a: &Vec<NodeIndex>, b: &Vec<NodeIndex>) -> (r: bool)
    ensures
        r == (a@ == b@),
{
    if a.len() != b.len() {
        proof {
            assert(a@ != b@);
        }
        return false;
    }
    let mut i: usize = 0;
    while i < a.len()
        invariant
            a@.len() == b@.len(),
            i <= a@.len(),
            forall|q: int| 0 <= q < i ==> a@[q] == b@[q],
        decreases a@.len() - i,
    {
        if a[i].0 != b[i].0 {
            proof {
                assert(a@[i as int] != b@[i as int]);
            }
            return false;
        }
        i += 1;
    }
    proof {
        assert(a@ =~= b@);
    }
    true
}

/// Copies a path.
fn clone_path(v: &Vec<NodeIndex>) -> (r: Vec<NodeIndex>)
    ensures
        r@ == v@,
{
    let mut r: Vec<NodeIndex> = Vec::new();
    let mut i: usize = 0;
    while i < v.len()
        invariant
            i <= v@.len(),
            r@ == v@.take(i as int),
        decreases v@.len() - i,
    {
        r.push(v[i]);
        proof {
            assert(v@.take(i + 1) =~= v@.take(i as int).push(v@[i as int]));
        }
        i += 1;
    }
    proof {
        assert(v@.take(v@.len() as int) =~= v@);
    }
    r
}

/// The first `p` steps of a path.
fn take_path(v: &Vec<NodeIndex>, p: usize) -> (r: Vec<NodeIndex>)
    requires
        p <= v@.len(),
    ensures
        r@ == v@.take(p as int),
{
    let mut r: Vec<NodeIndex> = Vec::new();
    let mut i: usize = 0;
    while i < p
        invariant
            p <= v@.len(),
            i <= p,
            r@ == v@.take(i as int),
        decreases p - i,
    {
        r.push(v[i]);
        proof {
            assert(v@.take(i + 1) =~= v@.take(i as int).push(v@[i as int]));
        }
        i += 1;
    }
    r
}

/// A matching entry with no later duplicate fixes the map's value.
proof fn lemma_entries_lookup(s: Seq<(Vec<NodeIndex>, bool)>, i: int)
    requires
        0 <= i < s.len(),
        forall|a: int, b: int|
            0 <= a < b < s.len() ==> (#[trigger] s[a]).0@ != (#[trigger] s[b]).0@,
    ensures
        entries_map(s).dom().contains(s[i].0@),
        entries_map(s)[s[i].0@] == s[i].1,
    decreases s.len(),
{
    if i == s.len() - 1 {
    } else {
        assert(forall|a: int, b: int|
            0 <= a < b < s.len() - 1 ==> (#[trigger] s.drop_last()[a]).0@
                != (#[trigger] s.drop_last()[b]).0@);
        lemma_entries_lookup(s.drop_last(), i);
        assert(s.drop_last()[i] == s[i]);
        assert(s[i].0@ != s.last().0@);
    }
}

/// A key on no entry is not in the map.
proof fn lemma_entries_absent(s: Seq<(Vec<NodeIndex>, bool)>, key: Seq<NodeIndex>)
    requires
        forall|q: int| 0 <= q < s.len() ==> (#[trigger] s[q]).0@ != key,
    ensures
        !entries_map(s).dom().contains(key),
    decreases s.len(),
{
    if s.len() > 0 {
        assert(forall|q: int| 0 <= q < s.len() - 1 ==> (#[trigger] s.drop_last()[q]).0@ != key);
        lemma_entries_absent(s.drop_last(), key);
    }
}

/// Updating the entry holding `key` updates exactly that key.
proof fn lemma_entries_update(
    pre: Seq<(Vec<NodeIndex>, bool)>,
    post: Seq<(Vec<NodeIndex>, bool)>,
    i: int,
    key: Seq<NodeIndex>,
    value: bool,
)
    requires
        pre.len() == post.len(),
        0 <= i < pre.len(),
        pre[i].0@ == key,
        post[i].0@ == key,
        post[i].1 == value,
        forall|q: int| 0 <= q < pre.len() && q != i ==> post[q] == #[trigger] pre[q],
        forall|a: int, b: int|
            0 <= a < b < pre.len() ==> (#[trigger] pre[a]).0@ != (#[trigger] pre[b]).0@,
    ensures
        entries_map(post) =~= entries_map(pre).insert(key, value),
    decreases pre.len(),
{
    if i == pre.len() - 1 {
        assert(pre.drop_last() =~= post.drop_last());
    } else {
        assert(forall|q: int|
            0 <= q < pre.len() - 1 && q != i ==> post.drop_last()[q] == #[trigger] pre.drop_last()[q]);
        assert(forall|a: int, b: int|
            0 <= a < b < pre.len() - 1 ==> (#[trigger] pre.drop_last()[a]).0@
                != (#[trigger] pre.drop_last()[b]).0@);
        assert(pre.drop_last()[i] == pre[i] && post.drop_last()[i] == post[i]);
        lemma_entries_update(pre.drop_last(), post.drop_last(), i, key, value);
        assert(post.last() == pre.last());
        assert(pre.last().0@ != key);
    }
}

/// Setting every entry's value to `value` keeps the keys and sets every
/// recorded state.
proof fn lemma_entries_pointwise(
    pre: Seq<(Vec<NodeIndex>, bool)>,
    post: Seq<(Vec<NodeIndex>, bool)>,
    value: bool,
)
    requires
        pre.len() == post.len(),
        forall|q: int| 0 <= q < pre.len() ==> (#[trigger] post[q]).0@ == (#[trigger] pre[q]).0@,
        forall|q: int| 0 <= q < post.len() ==> (#[trigger] post[q]).1 == value,
    ensures
        entries_map(post).dom() =~= entries_map(pre).dom(),
        forall|p: Seq<NodeIndex>|
            entries_map(post).dom().contains(p) ==> #[trigger] entries_map(post)[p] == value,
    decreases pre.len(),
{
    if pre.len() > 0 {
        assert(forall|q: int|
            0 <= q < pre.len() - 1 ==> (#[trigger] post.drop_last()[q]).0@
                == (#[trigger] pre.drop_last()[q]).0@);
        assert(forall|q: int|
            0 <= q < post.len() - 1 ==> (#[trigger] post.drop_last()[q]).1 == value);
        lemma_entries_pointwise(pre.drop_last(), post.drop_last(), value);
        assert(post.last().0@ == pre.last().0@);
        assert(post.last().1 == value);
    }
}

} // verus!
