use vstd::prelude::*;
use vstd::hash_map::StringHashMap;
use vstd::set_lib::*;

use crate::error::CacheError;

verus! {

/// One element of the tree. Nodes live in the tree's arena and refer to one
/// another by slot: `children` lists the slots of the children and `parent`
/// the slot of the parent. `id` is the node's full identifier and `name` the
/// name it has among its parent's children.
pub struct TreeNode<T> {
    pub value: T,
    pub id: String,
    pub name: String,
    pub children: Vec<usize>,
    pub parent: Option<usize>,
}

impl<T> TreeNode<T> {
    /// A detached node: no children, no parent; identifier and name are set
    /// when the node is put into a tree.
    pub fn new(value: T) -> (r: Self)
        ensures
            r.value == value,
            r.id@ == Seq::<char>::empty(),
            r.name@ == Seq::<char>::empty(),
            r.children@ == Seq::<usize>::empty(),
            r.parent is None,
    {
        TreeNode {
            value,
            id: String::new(),
            name: String::new(),
            children: Vec::new(),
            parent: None,
        }
    }

    fn set_parent(&mut self, parent: usize)
        ensures
            final(self).parent == Some(parent),
            final(self).value == old(self).value,
            final(self).id == old(self).id,
            final(self).name == old(self).name,
            final(self).children == old(self).children,
    {
        self.parent = Some(parent);
    }
}

/// A tree whose nodes are also reachable in one step through a flat index
/// from identifier to node. The nodes sit in an arena of slots; removal
/// empties a node's slot, depth-first through its subtree.
pub struct HashedTreeMap<T> {
    root: usize,
    slots: Vec<Option<TreeNode<T>>>,
    index: StringHashMap<usize>,
    depth: Ghost<Map<int, nat>>,
}

impl<T> View for HashedTreeMap<T> {
    type V = Map<Seq<char>, T>;

    /// The payload stored under each indexed identifier.
    closed spec fn view(&self) -> Map<Seq<char>, T> {
        self.index@.map_values(|s: usize| self.node(s as int).value)
    }
}

impl<T> HashedTreeMap<T> {
    pub closed spec fn live(&self, s: int) -> bool {
        0 <= s < self.slots@.len() && self.slots@[s] is Some
    }

    pub closed spec fn node(&self, s: int) -> TreeNode<T> {
        self.slots@[s]->Some_0
    }

    pub closed spec fn slot_of(&self, k: Seq<char>) -> int {
        self.index@[k] as int
    }

    /// The identifier of the parent of the node at `k`, if it has one.
    pub closed spec fn parent_id(&self, k: Seq<char>) -> Option<Seq<char>> {
        match self.node(self.slot_of(k)).parent {
            Some(p) => Some(self.node(p as int).id@),
            None => None,
        }
    }

    /// The name under which the node at `k` stands among its siblings.
    pub closed spec fn name_of(&self, k: Seq<char>) -> Seq<char> {
        self.node(self.slot_of(k)).name@
    }

    /// The identifier of the root node.
    pub closed spec fn root_id(&self) -> Seq<char> {
        self.node(self.root as int).id@
    }

    /// The root node is still in the tree.
    pub closed spec fn rooted(&self) -> bool {
        self.live(self.root as int)
    }

    /// Slot `s` is slot `a` or lies below it, following parent links.
    closed spec fn below(&self, s: int, a: int) -> bool
        decreases self.depth@[s],
    {
        s == a || match self.node(s).parent {
            Some(p) => self.depth@[p as int] < self.depth@[s] && self.below(p as int, a),
            None => false,
        }
    }

    /// The node at `k` is the node at `a` or one of its descendants.
    pub closed spec fn descends(&self, k: Seq<char>, a: Seq<char>) -> bool {
        self.below(self.slot_of(k), self.slot_of(a))
    }

    /// Every indexed identifier leads to a live slot holding that identifier.
    #[verifier::opaque]
    pub closed spec fn wf_index(&self) -> bool {
        forall|k: Seq<char>| #[trigger]
            self.index@.contains_key(k) ==> self.live(self.index@[k] as int) && self.node(
                self.index@[k] as int,
            ).id@ == k
    }

    /// Every live slot is indexed under its own identifier.
    #[verifier::opaque]
    pub closed spec fn wf_slots(&self) -> bool {
        forall|s: int| #[trigger]
            self.live(s) ==> self.index@.contains_key(self.node(s).id@) && self.index@[self.node(
                s,
            ).id@] as int == s
    }

    /// Every live slot has a depth, and only the root has no parent.
    #[verifier::opaque]
    pub closed spec fn wf_root(&self) -> bool {
        forall|s: int| #[trigger]
            self.live(s) ==> self.depth@.contains_key(s) && (s == self.root as int <==> self.node(
                s,
            ).parent is None)
    }

    /// A parent is live, lies higher, and lists the node among its children.
    #[verifier::opaque]
    pub closed spec fn wf_up(&self) -> bool {
        forall|s: int| #[trigger]
            self.live(s) && self.node(s).parent is Some ==> {
                let p = self.node(s).parent->Some_0 as int;
                &&& self.live(p)
                &&& self.depth@[p] < self.depth@[s]
                &&& self.node(p).children@.contains(s as usize)
            }
    }

    /// A listed child is live and names the node as its parent.
    #[verifier::opaque]
    pub closed spec fn wf_down(&self) -> bool {
        forall|s: int, i: int|
            self.live(s) && 0 <= i < self.node(s).children@.len() ==> {
                let c = #[trigger] self.node(s).children@[i] as int;
                &&& self.live(c)
                &&& self.node(c).parent == Some(s as usize)
            }
    }

    /// No child is listed twice.
    #[verifier::opaque]
    pub closed spec fn wf_nodup(&self) -> bool {
        forall|s: int| #[trigger] self.live(s) ==> self.node(s).children@.no_duplicates()
    }

    /// The index and the parent/child links agree, and parent links lead
    /// strictly upwards.
    pub closed spec fn wf(&self) -> bool {
        &&& (self.root as int) < self.slots@.len()
        &&& self.wf_index()
        &&& self.wf_slots()
        &&& self.wf_root()
        &&& self.wf_up()
        &&& self.wf_down()
        &&& self.wf_nodup()
    }

    proof fn lemma_below_depth(&self, s: int, a: int)
        requires
            self.wf(),
            self.live(s),
            self.below(s, a),
        ensures
            self.live(a),
            self.depth@[a] <= self.depth@[s],
        decreases self.depth@[s],
    {
        reveal(HashedTreeMap::wf_up);
        if s != a {
            let p = self.node(s).parent->Some_0 as int;
            self.lemma_below_depth(p, a);
        }
    }

    proof fn lemma_below_child(&self, s: int, x: int) -> (c: usize)
        requires
            self.wf(),
            self.live(s),
            self.below(s, x),
            s != x,
        ensures
            self.node(x).children@.contains(c),
            self.below(s, c as int),
        decreases self.depth@[s],
    {
        reveal(HashedTreeMap::wf_up);
        reveal(HashedTreeMap::wf_root);
        let p = self.node(s).parent->Some_0 as int;
        assert(self.live(s) && self.node(s).parent is Some);
        if p == x {
            reveal(HashedTreeMap::wf_slots);
            assert(self.index@[self.node(s).id@] as int == s);
            let j = self.node(x).children@.index_of(s as usize);
            self.node(x).children@[j]
        } else {
            let c = self.lemma_below_child(p, x);
            c
        }
    }

    proof fn lemma_below_root(&self, s: int)
        requires
            self.wf(),
            self.rooted(),
            self.live(s),
        ensures
            self.below(s, self.root as int),
        decreases self.depth@[s],
    {
        reveal(HashedTreeMap::wf_root);
        reveal(HashedTreeMap::wf_up);
        if s != self.root as int {
            let p = self.node(s).parent->Some_0 as int;
            assert(self.live(s) && self.node(s).parent is Some);
            self.lemma_below_root(p);
        }
    }

    /// While the root is in the tree, it is indexed under its identifier.
    pub proof fn lemma_rooted_indexed(&self)
        requires
            self.wf(),
            self.rooted(),
        ensures
            self@.contains_key(self.root_id()),
    {
        reveal(HashedTreeMap::wf_slots);
        assert(self.live(self.root as int));
    }

    /// No node is orphaned: while the root is in the tree, every indexed
    /// node lies below it.
    pub proof fn lemma_reaches_root(&self, k: Seq<char>)
        requires
            self.wf(),
            self.rooted(),
            self@.contains_key(k),
        ensures
            self@.contains_key(self.root_id()),
            self.descends(k, self.root_id()),
    {
        reveal(HashedTreeMap::wf_index);
        reveal(HashedTreeMap::wf_slots);
        let r = self.root as int;
        assert(self.live(r));
        assert(self.index@[self.node(r).id@] as int == r);
        self.lemma_below_root(self.index@[k] as int);
    }

    /// A node counts as lying below itself.
    pub proof fn lemma_descends_self(&self, k: Seq<char>)
        ensures
            self.descends(k, k),
    {
    }

    /// A node lies below its parent.
    pub proof fn lemma_child_descends(&self, k: Seq<char>, a: Seq<char>)
        requires
            self.wf(),
            self@.contains_key(k),
            self.parent_id(k) == Some(a),
        ensures
            self@.contains_key(a),
            self.descends(k, a),
    {
        reveal(HashedTreeMap::wf_up);
        reveal(HashedTreeMap::wf_index);
        reveal(HashedTreeMap::wf_slots);
        let s = self.slot_of(k);
        assert(self.live(s));
        let p = self.node(s).parent->Some_0 as int;
        assert(self.live(s) && self.node(s).parent is Some);
        assert(self.live(p));
        assert(self.index@.contains_key(self.node(p).id@));
        assert(self.below(p, p));
    }

    /// A tree of one node, the root, indexed under `id`.
    pub fn new(id: String, root: TreeNode<T>) -> (r: Self)
        ensures
            r.wf(),
            r.rooted(),
            r@ == Map::<Seq<char>, T>::empty().insert(id@, root.value),
            r.root_id() == id@,
            r.parent_id(id@) is None,
            r.name_of(id@) == id@,
    {
        let mut index: StringHashMap<usize> = StringHashMap::new();
        let node = TreeNode {
            value: root.value,
            id: id.clone(),
            name: id.clone(),
            children: Vec::new(),
            parent: None,
        };
        index.insert(id, 0);
        let mut slots: Vec<Option<TreeNode<T>>> = Vec::new();
        slots.push(Some(node));
        let r = HashedTreeMap {
            root: 0,
            slots,
            index,
            depth: Ghost(Map::<int, nat>::empty().insert(0, 0)),
        };
        assert(r.live(0));
        reveal(HashedTreeMap::wf_index);
        reveal(HashedTreeMap::wf_slots);
        reveal(HashedTreeMap::wf_root);
        reveal(HashedTreeMap::wf_up);
        reveal(HashedTreeMap::wf_down);
        reveal(HashedTreeMap::wf_nodup);
        assert(r@ =~= Map::<Seq<char>, T>::empty().insert(id@, root.value));
        r
    }

    #[verifier::rlimit(60)]
    proof fn lemma_insert(pre: Self, post: Self, pu: usize, su: usize, id: Seq<char>)
        requires
            pre.wf(),
            pre.live(pu as int),
            su as int == pre.slots@.len(),
            post.slots@.len() == su as int + 1,
            post.root == pre.root,
            forall|t: int|
                0 <= t < su as int && t != pu as int ==> #[trigger] post.slots@[t] == pre.slots@[t],
            post.slots@[pu as int] is Some,
            post.node(pu as int).value == pre.node(pu as int).value,
            post.node(pu as int).id == pre.node(pu as int).id,
            post.node(pu as int).name == pre.node(pu as int).name,
            post.node(pu as int).parent == pre.node(pu as int).parent,
            post.node(pu as int).children@ == pre.node(pu as int).children@.push(su),
            post.slots@[su as int] is Some,
            post.node(su as int).id@ == id,
            post.node(su as int).parent == Some(pu),
            post.node(su as int).children@.len() == 0,
            !pre.index@.contains_key(id),
            post.index@ == pre.index@.insert(id, su),
            post.depth@ == pre.depth@.insert(su as int, pre.depth@[pu as int] + 1),
        ensures
            post.wf(),
            post@ == pre@.insert(id, post.node(su as int).value),
            post.parent_id(id) == Some(pre.node(pu as int).id@),
            post.root_id() == pre.root_id(),
            forall|k: Seq<char>|
                #![trigger pre@.contains_key(k)]
                pre@.contains_key(k) ==> post.parent_id(k) == pre.parent_id(k) && post.name_of(k)
                    == pre.name_of(k),
    {
        let p = pu as int;
        let s = su as int;
        reveal(HashedTreeMap::wf_index);
        assert(post.live(s));
        assert(forall|t: int| #[trigger] pre.live(t) ==> post.live(t) && t != s);
        assert(forall|t: int| pre.live(t) && t != p ==> #[trigger] post.node(t) == pre.node(t));
        assert(forall|t: int| #[trigger] post.live(t) ==> pre.live(t) || t == s);
        assert(!pre.node(p).children@.contains(su)) by {
            reveal(HashedTreeMap::wf_down);
            if pre.node(p).children@.contains(su) {
                let i = pre.node(p).children@.index_of(su);
                assert(pre.node(p).children@[i] == su);
                assert(pre.live(pre.node(p).children@[i] as int));
            }
        }
        assert(post.wf_nodup()) by {
            reveal(HashedTreeMap::wf_nodup);
            assert(pre.live(p));
        }
        assert(post.wf_down()) by {
            reveal(HashedTreeMap::wf_down);
            assert forall|t: int, i: int|
                post.live(t) && 0 <= i < post.node(t).children@.len() implies {
                let c = #[trigger] post.node(t).children@[i] as int;
                &&& post.live(c)
                &&& post.node(c).parent == Some(t as usize)
            } by {
                if t != p && t != s {
                    assert(pre.live(t) && 0 <= i < pre.node(t).children@.len());
                    let c = pre.node(t).children@[i] as int;
                    assert(pre.live(c));
                } else if t == p && i < pre.node(t).children@.len() {
                    assert(pre.live(t) && 0 <= i < pre.node(t).children@.len());
                    let c = pre.node(t).children@[i] as int;
                    assert(pre.live(c));
                }
            }
        }
        assert(post.wf_up()) by {
            reveal(HashedTreeMap::wf_up);
            assert forall|t: int| #[trigger]
                post.live(t) && post.node(t).parent is Some implies {
                let q = post.node(t).parent->Some_0 as int;
                &&& post.live(q)
                &&& post.depth@[q] < post.depth@[t]
                &&& post.node(q).children@.contains(t as usize)
            } by {
                if t != s {
                    assert(pre.live(t));
                    let q = pre.node(t).parent->Some_0 as int;
                    if q == p {
                        let j = pre.node(p).children@.index_of(t as usize);
                        assert(post.node(p).children@[j] == t as usize);
                    }
                } else {
                    assert(post.node(p).children@.last() == su);
                }
            }
        }
        assert(post.wf_root()) by {
            reveal(HashedTreeMap::wf_root);
            reveal(HashedTreeMap::wf_up);
            assert(pre.live(p));
            assert(pre.root as int != s);
        }
        assert(post.wf_slots()) by {
            reveal(HashedTreeMap::wf_slots);
            assert forall|t: int| #[trigger] post.live(t) implies post.index@.contains_key(
                post.node(t).id@,
            ) && post.index@[post.node(t).id@] as int == t by {
                if t != s {
                    assert(pre.live(t));
                }
            }
        }
        assert forall|k: Seq<char>| #[trigger] post.index@.contains_key(k) implies post.live(
            post.index@[k] as int,
        ) && post.node(post.index@[k] as int).id@ == k by {
            if k != id {
                assert(pre.index@.contains_key(k));
            }
        }
        assert forall|k: Seq<char>| #![trigger pre@.contains_key(k)]
            pre@.contains_key(k) implies post.parent_id(k) == pre.parent_id(k) && post.name_of(k)
            == pre.name_of(k) by {
            reveal(HashedTreeMap::wf_up);
            assert(pre.index@.contains_key(k));
            let t = pre.index@[k] as int;
            assert(pre.live(t));
            if pre.node(t).parent is Some {
                assert(pre.live(pre.node(t).parent->Some_0 as int));
            }
        }
        assert(post.root_id() == pre.root_id());
        assert(post@ =~= pre@.insert(id, post.node(s).value));
    }

    proof fn lemma_below_parent(&self, s: int, a: int)
        requires
            self.wf(),
            self.live(s),
            self.node(s).parent is Some,
        ensures
            self.below(s, a) <==> (s == a || self.below(self.node(s).parent->Some_0 as int, a)),
    {
        reveal(HashedTreeMap::wf_up);
    }

    /// Midway through removing the subtree at slot `a` from `pre`: `gone`
    /// holds the slots emptied so far, and every slot of the subtree that is
    /// still live lies below one of the slots waiting on `stack`.
    #[verifier::opaque]
    closed spec fn removing(pre: Self, cur: Self, a: usize, gone: Set<int>, stack: Seq<usize>) -> bool {
        &&& pre.wf()
        &&& pre.live(a as int)
        &&& cur.root == pre.root
        &&& cur.depth == pre.depth
        &&& cur.slots@.len() == pre.slots@.len()
        &&& forall|t: int|
            0 <= t < pre.slots@.len() ==> #[trigger] cur.slots@[t] == (if gone.contains(t) {
                None
            } else {
                pre.slots@[t]
            })
        &&& forall|k: Seq<char>| #[trigger]
            cur.index@.contains_key(k) <==> pre.index@.contains_key(k) && !gone.contains(
                pre.index@[k] as int,
            )
        &&& forall|k: Seq<char>| #[trigger]
            cur.index@.contains_key(k) ==> cur.index@[k] == pre.index@[k]
        &&& gone.finite()
        &&& gone.subset_of(set_int_range(0, pre.slots@.len() as int))
        &&& forall|g: int| #[trigger]
            gone.contains(g) ==> pre.live(g) && pre.below(g, a as int) && (g == a as int || gone.contains(
                pre.node(g).parent->Some_0 as int,
            ))
        &&& forall|i: int|
            0 <= i < stack.len() ==> {
                let y = #[trigger] stack[i] as int;
                &&& pre.live(y)
                &&& !gone.contains(y)
                &&& pre.below(y, a as int)
                &&& (y == a as int || gone.contains(pre.node(y).parent->Some_0 as int))
            }
        &&& stack.no_duplicates()
        &&& forall|t: int| #[trigger]
            pre.live(t) && !gone.contains(t) && pre.below(t, a as int) ==> exists|i: int|
                0 <= i < stack.len() && pre.below(t, #[trigger] stack[i] as int)
    }

    proof fn lemma_removing_start(pre: Self, a: usize)
        requires
            pre.wf(),
            pre.live(a as int),
        ensures
            Self::removing(pre, pre, a, Set::empty(), seq![a]),
    {
        reveal(HashedTreeMap::removing);
        let stack = seq![a];
        assert(pre.below(a as int, a as int));
        assert forall|t: int| #[trigger]
            pre.live(t) && !Set::<int>::empty().contains(t) && pre.below(t, a as int) implies exists|i: int|
            0 <= i < stack.len() && pre.below(t, #[trigger] stack[i] as int) by {
            assert(pre.below(t, stack[0] as int));
        }
    }

    #[verifier::rlimit(80)]
    proof fn lemma_removing_step(
        pre: Self,
        cur: Self,
        next: Self,
        a: usize,
        gone: Set<int>,
        stack: Seq<usize>,
    )
        requires
            Self::removing(pre, cur, a, gone, stack),
            stack.len() > 0,
            next.root == cur.root,
            next.depth == cur.depth,
            next.slots@ == cur.slots@.update(stack.last() as int, None),
            next.index@ == cur.index@.remove(pre.node(stack.last() as int).id@),
        ensures
            Self::removing(
                pre,
                next,
                a,
                gone.insert(stack.last() as int),
                stack.drop_last() + pre.node(stack.last() as int).children@,
            ),
            !gone.contains(stack.last() as int),
            gone.insert(stack.last() as int).len() <= pre.slots@.len(),
            gone.insert(stack.last() as int).len() == gone.len() + 1,
            pre.live(stack.last() as int),
            cur.slots@[stack.last() as int] == pre.slots@[stack.last() as int],
    {
        reveal(HashedTreeMap::removing);
        let x = stack.last() as int;
        let kids = pre.node(x).children@;
        let gone2 = gone.insert(x);
        let rest = stack.drop_last();
        let stack2 = rest + kids;
        assert(stack[stack.len() - 1] as int == x);
        assert(pre.live(x) && !gone.contains(x) && pre.below(x, a as int));
        assert(pre.index@[pre.node(x).id@] as int == x) by {
            reveal(HashedTreeMap::wf_slots);
        }
        assert forall|k: Seq<char>| #[trigger]
            next.index@.contains_key(k) <==> pre.index@.contains_key(k) && !gone2.contains(
                pre.index@[k] as int,
            ) by {
            reveal(HashedTreeMap::wf_index);
            if pre.index@.contains_key(k) && pre.index@[k] as int == x {
                assert(pre.node(x).id@ == k);
            }
        }
        assert forall|cu: usize| #[trigger] kids.contains(cu) implies {
            let c = cu as int;
            &&& pre.live(c)
            &&& pre.node(c).parent == Some(x as usize)
            &&& c != a as int
            &&& c != x
            &&& !gone.contains(c)
            &&& pre.below(c, a as int)
        } by {
            reveal(HashedTreeMap::wf_down);
            reveal(HashedTreeMap::wf_up);
            let c = cu as int;
            let j = kids.index_of(cu);
            assert(kids[j] == cu);
            assert(pre.live(x) && 0 <= j < pre.node(x).children@.len());
            assert(pre.live(c));
            pre.lemma_below_parent(c, a as int);
            pre.lemma_below_depth(x, a as int);
            if gone.contains(c) {
                assert(pre.node(c).parent->Some_0 as int == x);
            }
        }
        assert forall|i: int| 0 <= i < stack2.len() implies {
            let y = #[trigger] stack2[i] as int;
            &&& pre.live(y)
            &&& !gone2.contains(y)
            &&& pre.below(y, a as int)
            &&& (y == a as int || gone2.contains(pre.node(y).parent->Some_0 as int))
        } by {
            if i < rest.len() {
                assert(stack2[i] == stack[i]);
                assert(stack[i] != stack[stack.len() - 1]);
            } else {
                assert(kids.contains(kids[i - rest.len()]));
            }
        }
        assert(stack2.no_duplicates()) by {
            reveal(HashedTreeMap::wf_nodup);
            assert forall|i: int, j: int|
                0 <= i < stack2.len() && 0 <= j < stack2.len() && i != j implies stack2[i]
                != stack2[j] by {
                if i < rest.len() && j >= rest.len() {
                    assert(kids.contains(kids[j - rest.len()]));
                    assert(stack[i] == stack2[i]);
                } else if j < rest.len() && i >= rest.len() {
                    assert(kids.contains(kids[i - rest.len()]));
                    assert(stack[j] == stack2[j]);
                } else if i < rest.len() && j < rest.len() {
                    assert(stack[i] == stack2[i] && stack[j] == stack2[j]);
                }
            }
        }
        assert forall|t: int| #[trigger]
            pre.live(t) && !gone2.contains(t) && pre.below(t, a as int) implies exists|i: int|
            0 <= i < stack2.len() && pre.below(t, #[trigger] stack2[i] as int) by {
            let i = choose|i: int| 0 <= i < stack.len() && pre.below(t, #[trigger] stack[i] as int);
            if i < rest.len() {
                assert(stack2[i] == stack[i]);
            } else {
                let c = pre.lemma_below_child(t, x);
                let j = kids.index_of(c);
                assert(stack2[rest.len() + j] == kids[j]);
                assert(pre.below(t, stack2[rest.len() + j] as int));
            }
        }
        assert forall|g: int| #[trigger] gone2.contains(g) implies pre.live(g) && pre.below(g, a as int)
            && (g == a as int || gone2.contains(pre.node(g).parent->Some_0 as int)) by {
            if g == x {
                assert(stack[stack.len() - 1] as int == x);
            }
        }
        assert(gone2.subset_of(set_int_range(0, pre.slots@.len() as int)));
        lemma_int_range(0, pre.slots@.len() as int);
        lemma_len_subset(gone2, set_int_range(0, pre.slots@.len() as int));
    }

    proof fn lemma_removing_top(pre: Self, cur: Self, a: usize, gone: Set<int>, stack: Seq<usize>)
        requires
            Self::removing(pre, cur, a, gone, stack),
            stack.len() > 0,
        ensures
            pre.live(stack.last() as int),
            cur.slots@[stack.last() as int] == pre.slots@[stack.last() as int],
            !gone.contains(stack.last() as int),
            cur.slots@.len() == pre.slots@.len(),
    {
        reveal(HashedTreeMap::removing);
        assert(stack[stack.len() - 1] == stack.last());
    }

    proof fn lemma_removing_parent(pre: Self, cur: Self, a: usize, gone: Set<int>, p: usize)
        requires
            Self::removing(pre, cur, a, gone, Seq::empty()),
            pre.node(a as int).parent == Some(p),
        ensures
            pre.live(p as int),
            cur.slots@[p as int] == pre.slots@[p as int],
            pre.node(p as int).children@.contains(a),
            pre.node(p as int).children@.no_duplicates(),
            cur.slots@.len() == pre.slots@.len(),
    {
        reveal(HashedTreeMap::removing);
        reveal(HashedTreeMap::wf_up);
        reveal(HashedTreeMap::wf_nodup);
        reveal(HashedTreeMap::wf_slots);
        assert(pre.live(a as int) && pre.node(a as int).parent is Some);
        assert(pre.live(p as int));
        if gone.contains(p as int) {
            pre.lemma_below_depth(p as int, a as int);
        }
    }

    #[verifier::rlimit(80)]
    proof fn lemma_removing_done(pre: Self, cur: Self, fin: Self, a: usize, gone: Set<int>)
        requires
            Self::removing(pre, cur, a, gone, Seq::empty()),
            fin.root == cur.root,
            fin.depth == cur.depth,
            fin.index@ == cur.index@,
            fin.slots@.len() == cur.slots@.len(),
            pre.node(a as int).parent is None ==> fin.slots@ == cur.slots@,
            pre.node(a as int).parent matches Some(p) ==> {
                &&& forall|t: int|
                    0 <= t < cur.slots@.len() && t != p as int ==> #[trigger] fin.slots@[t]
                        == cur.slots@[t]
                &&& fin.slots@[p as int] is Some
                &&& cur.slots@[p as int] is Some
                &&& fin.node(p as int).value == cur.node(p as int).value
                &&& fin.node(p as int).id == cur.node(p as int).id
                &&& fin.node(p as int).name == cur.node(p as int).name
                &&& fin.node(p as int).parent == cur.node(p as int).parent
                &&& fin.node(p as int).children@.no_duplicates()
                &&& forall|y: usize| #[trigger]
                    fin.node(p as int).children@.contains(y) <==> cur.node(
                        p as int,
                    ).children@.contains(y) && y != a
            },
        ensures
            fin.wf(),
            forall|k: Seq<char>|
                #![trigger fin@.contains_key(k)]
                #![trigger pre@.contains_key(k)]
                fin@.contains_key(k) <==> pre@.contains_key(k) && !pre.descends(
                    k,
                    pre.node(a as int).id@,
                ),
            forall|k: Seq<char>| #[trigger]
                fin@.contains_key(k) ==> fin@[k] == pre@[k] && fin.parent_id(k) == pre.parent_id(
                    k,
                ) && fin.name_of(k) == pre.name_of(k),
            pre.rooted() && a as int != pre.root as int ==> fin.rooted() && fin.root_id()
                == pre.root_id(),
    {
        reveal(HashedTreeMap::removing);
        let ai = a as int;
        // after the walk, exactly the subtree is gone
        assert forall|t: int| pre.live(t) implies (gone.contains(t) <==> pre.below(t, ai)) by {
            if pre.below(t, ai) && !gone.contains(t) {
                assert(pre.live(t) && !gone.contains(t) && pre.below(t, ai));
            }
        }
        // live slots of `fin` are the survivors, unchanged but for the parent's child list
        assert forall|t: int| 0 <= t < fin.slots@.len() implies (#[trigger] fin.slots@[t] is Some
            <==> pre.live(t) && !gone.contains(t)) by {
            assert(cur.slots@[t] == (if gone.contains(t) {
                None
            } else {
                pre.slots@[t]
            }));
        }
        assert(forall|t: int| #[trigger] fin.live(t) <==> pre.live(t) && !gone.contains(t));
        let pp = pre.node(ai).parent;
        assert forall|t: int| #[trigger] fin.live(t) && (pp is None || t != pp->Some_0 as int)
            implies fin.node(t) == pre.node(t) by {
            assert(cur.slots@[t] == pre.slots@[t]);
        }
        if pp is Some {
            let p = pp->Some_0 as int;
            assert(cur.slots@[p] == pre.slots@[p]) by {
                Self::lemma_removing_parent(pre, cur, a, gone, pp->Some_0);
            }
        }
        assert forall|t: int| #[trigger] fin.live(t) implies fin.node(t).id == pre.node(t).id
            && fin.node(t).parent == pre.node(t).parent && fin.node(t).value == pre.node(t).value
            && fin.node(t).name == pre.node(t).name by {
            assert(cur.slots@[t] == pre.slots@[t]);
        }
        assert(pre.index@[pre.node(ai).id@] as int == ai) by {
            reveal(HashedTreeMap::wf_slots);
        }
        if pre.rooted() && ai != pre.root as int {
            let r = pre.root as int;
            assert(pre.live(r));
            assert(!pre.below(r, ai)) by {
                reveal(HashedTreeMap::wf_root);
            }
            assert(fin.live(r));
            if pp is Some && r == pp->Some_0 as int {
                assert(fin.node(r).id == pre.node(r).id);
            } else {
                assert(cur.slots@[r] == pre.slots@[r]);
            }
        }
        assert(fin.wf_index()) by {
            reveal(HashedTreeMap::wf_index);
        }
        assert(fin.wf_slots()) by {
            reveal(HashedTreeMap::wf_slots);
            assert forall|t: int| #[trigger] fin.live(t) implies fin.index@.contains_key(
                fin.node(t).id@,
            ) && fin.index@[fin.node(t).id@] as int == t by {
                assert(pre.live(t));
                let k = pre.node(t).id@;
                assert(pre.index@.contains_key(k) && pre.index@[k] as int == t);
                assert(cur.index@.contains_key(k));
            }
        }
        assert(fin.wf_root()) by {
            reveal(HashedTreeMap::wf_root);
            assert forall|t: int| #[trigger] fin.live(t) implies fin.depth@.contains_key(t) && (t
                == fin.root as int <==> fin.node(t).parent is None) by {
                assert(pre.live(t));
            }
        }
        assert(fin.wf_nodup()) by {
            reveal(HashedTreeMap::wf_nodup);
            assert forall|t: int| #[trigger] fin.live(t) implies fin.node(
                t,
            ).children@.no_duplicates() by {
                assert(pre.live(t));
            }
        }
        assert(fin.wf_up()) by {
            reveal(HashedTreeMap::wf_up);
            assert forall|t: int| #[trigger]
                fin.live(t) && fin.node(t).parent is Some implies {
                let q = fin.node(t).parent->Some_0 as int;
                &&& fin.live(q)
                &&& fin.depth@[q] < fin.depth@[t]
                &&& fin.node(q).children@.contains(t as usize)
            } by {
                assert(pre.live(t));
                let q = pre.node(t).parent->Some_0 as int;
                assert(pre.live(t) && pre.node(t).parent is Some);
                pre.lemma_below_parent(t, ai);
                if gone.contains(q) {
                    assert(pre.below(q, ai));
                }
                assert(fin.live(q));
                if pp is Some && q == pp->Some_0 as int {
                    assert(t != ai);
                    reveal(HashedTreeMap::wf_slots);
                    assert(pre.index@[pre.node(t).id@] as int == t);
                    assert(pre.node(q).children@.contains(t as usize));
                    assert(fin.node(q).children@.contains(t as usize));
                }
            }
        }
        assert(fin.wf_down()) by {
            reveal(HashedTreeMap::wf_down);
            assert forall|t: int, i: int|
                fin.live(t) && 0 <= i < fin.node(t).children@.len() implies {
                let c = #[trigger] fin.node(t).children@[i] as int;
                &&& fin.live(c)
                &&& fin.node(c).parent == Some(t as usize)
            } by {
                assert(pre.live(t));
                let cu = fin.node(t).children@[i];
                assert(fin.node(t).children@.contains(cu));
                assert(pre.node(t).children@.contains(cu));
                let j = pre.node(t).children@.index_of(cu);
                assert(pre.live(t) && 0 <= j < pre.node(t).children@.len());
                let c = cu as int;
                assert(pre.live(c));
                reveal(HashedTreeMap::wf_slots);
                assert(pre.index@[pre.node(t).id@] as int == t);
                if gone.contains(c) {
                    if c == ai {
                        assert(pre.node(ai).parent == Some(t as usize));
                        assert(cu == a);
                    }
                }
                assert(fin.live(c));
            }
        }
        assert forall|k: Seq<char>| #[trigger] fin@.contains_key(k) implies fin@[k] == pre@[k]
            && fin.parent_id(k) == pre.parent_id(k) && fin.name_of(k) == pre.name_of(k) by {
            reveal(HashedTreeMap::wf_index);
            reveal(HashedTreeMap::wf_up);
            let t = pre.index@[k] as int;
            assert(pre.index@.contains_key(k));
            assert(pre.live(t));
            if pre.node(t).parent is Some {
                assert(pre.live(t) && pre.node(t).parent is Some);
                let q = pre.node(t).parent->Some_0 as int;
                pre.lemma_below_parent(t, ai);
                if gone.contains(q) {
                    assert(pre.below(q, ai));
                }
                assert(fin.live(q));
            }
        }
        assert forall|k: Seq<char>|
            #![trigger fin@.contains_key(k)]
            #![trigger pre@.contains_key(k)]
            fin@.contains_key(k) <==> pre@.contains_key(k) && !pre.descends(
                k,
                pre.node(ai).id@,
            ) by {
            reveal(HashedTreeMap::wf_index);
            if pre.index@.contains_key(k) {
                assert(pre.live(pre.index@[k] as int));
            }
        }
    }

    /// Adds a node holding `value` under identifier `id`, as the child named
    /// `name` of the node indexed under `parent`. An identifier that is
    /// already indexed, or a parent that is not, leaves the tree as it was.
    pub fn insert(&mut self, parent: &str, id: String, name: String, value: T) -> (r: Result<
        (),
        CacheError,
    >)
        requires
            old(self).wf(),
        ensures
            final(self).wf(),
            old(self).rooted() ==> final(self).rooted(),
            old(self)@.contains_key(id@) ==> (r matches Err(e) && e.is_taken(id@)) && *final(self)
                == *old(self),
            !old(self)@.contains_key(id@) && !old(self)@.contains_key(parent@) ==> (r matches Err(
                e) && e.is_missing(parent@)) && *final(self) == *old(self),
            !old(self)@.contains_key(id@) && old(self)@.contains_key(parent@) ==> {
                &&& r is Ok
                &&& final(self)@ == old(self)@.insert(id@, value)
                &&& final(self).parent_id(id@) == Some(parent@)
                &&& final(self).name_of(id@) == name@
                &&& final(self).root_id() == old(self).root_id()
                &&& forall|k: Seq<char>|
                    #![trigger old(self)@.contains_key(k)]
                    old(self)@.contains_key(k) ==> final(self).parent_id(k) == old(self).parent_id(
                        k,
                    ) && final(self).name_of(k) == old(self).name_of(k)
            },
    {
        if self.index.contains_key(id.as_str()) {
            return Err(CacheError::LocationAlreadyExistsError { location: id });
        }
        let p: usize = match self.index.get(parent) {
            Some(p) => *p,
            None => {
                return Err(CacheError::LocationDoesNotExistError { location: parent.to_owned() });
            },
        };
        let ghost pre = *self;
        proof {
            reveal(HashedTreeMap::wf_index);
            reveal(HashedTreeMap::wf_root);
            assert(pre.live(p as int));
        }
        let s: usize = self.slots.len();
        let mut node = TreeNode::new(value);
        node.set_parent(p);
        node.id = id.clone();
        node.name = name;
        self.slots.push(Some(node));
        self.index.insert(id, s);
        let taken = self.slots[p].take();
        match taken {
            Some(mut pn) => {
                pn.children.push(s);
                self.slots[p] = Some(pn);
            },
            None => {},
        }
        self.depth = Ghost(self.depth@.insert(s as int, self.depth@[p as int] + 1));
        proof {
            assert(self.slots@[p as int] is Some);
            Self::lemma_insert(pre, *self, p, s, id@);
            assert(pre.rooted() ==> self.slots@[self.root as int] is Some);
        }
        Ok(())
    }

    /// Removes the node indexed under `id` together with every node below
    /// it, and unlinks it from its parent. Nothing changes when `id` is not
    /// indexed.
    pub fn remove(&mut self, id: &str) -> (r: Result<(), CacheError>)
        requires
            old(self).wf(),
        ensures
            final(self).wf(),
            old(self).rooted() && id@ != old(self).root_id() ==> final(self).rooted()
                && final(self).root_id() == old(self).root_id(),
            !old(self)@.contains_key(id@) ==> (r matches Err(e) && e.is_missing(id@))
                && *final(self) == *old(self),
            old(self)@.contains_key(id@) ==> {
                &&& r is Ok
                &&& forall|k: Seq<char>|
                    #![trigger final(self)@.contains_key(k)]
                    #![trigger old(self)@.contains_key(k)]
                    final(self)@.contains_key(k) <==> old(self)@.contains_key(k)
                        && !old(self).descends(k, id@)
                &&& forall|k: Seq<char>| #[trigger]
                    final(self)@.contains_key(k) ==> {
                        &&& final(self)@[k] == old(self)@[k]
                        &&& final(self).parent_id(k) == old(self).parent_id(k)
                        &&& final(self).name_of(k) == old(self).name_of(k)
                    }
            },
    {
        let a: usize = match self.index.get(id) {
            Some(s) => *s,
            None => {
                return Err(CacheError::LocationDoesNotExistError { location: id.to_owned() });
            },
        };
        let ghost pre = *self;
        proof {
            reveal(HashedTreeMap::wf_index);
            assert(pre.live(a as int));
            Self::lemma_removing_start(pre, a);
        }
        let parent: Option<usize> = match &self.slots[a] {
            Some(n) => n.parent,
            None => None,
        };
        let mut stack: Vec<usize> = Vec::new();
        stack.push(a);
        let ghost mut gone: Set<int> = Set::empty();
        proof {
            assert(stack@ == seq![a]);
        }
        while stack.len() > 0
            invariant
                Self::removing(pre, *self, a, gone, stack@),
                parent == pre.node(a as int).parent,
                gone.len() <= pre.slots@.len(),
            decreases pre.slots@.len() - gone.len(),
        {
            let ghost cur = *self;
            let ghost st = stack@;
            proof {
                Self::lemma_removing_top(pre, cur, a, gone, st);
            }
            let x: usize = match stack.pop() {
                Some(x) => x,
                None => 0,
            };
            let taken = self.slots[x].take();
            match taken {
                Some(n) => {
                    self.index.remove(n.id.as_str());
                    let mut kids = n.children;
                    stack.append(&mut kids);
                },
                None => {},
            }
            proof {
                assert(st.drop_last() == st.subrange(0, st.len() - 1));
                Self::lemma_removing_step(pre, cur, *self, a, gone, st);
                gone = gone.insert(x as int);
            }
        }
        let ghost cur = *self;
        proof {
            assert(stack@ =~= Seq::<usize>::empty());
        }
        match parent {
            Some(p) => {
                proof {
                    Self::lemma_removing_parent(pre, cur, a, gone, p);
                }
                let taken = self.slots[p].take();
                match taken {
                    Some(mut pn) => {
                        remove_slot(&mut pn.children, a);
                        self.slots[p] = Some(pn);
                    },
                    None => {},
                }
            },
            None => {},
        }
        proof {
            reveal(HashedTreeMap::wf_slots);
            assert(pre.index@[id@] == a);
            Self::lemma_removing_done(pre, cur, *self, a, gone);
            reveal(HashedTreeMap::wf_index);
            assert(pre.node(a as int).id@ == id@);
        }
        Ok(())
    }

    /// The node indexed under `id`, if any.
    pub fn get(&self, id: &str) -> (r: Option<&TreeNode<T>>)
        requires
            self.wf(),
        ensures
            match r {
                Some(n) => {
                    &&& self@.contains_key(id@)
                    &&& n.value == self@[id@]
                    &&& n.id@ == id@
                    &&& n.name@ == self.name_of(id@)
                },
                None => !self@.contains_key(id@),
            },
    {
        match self.index.get(id) {
            Some(s) => {
                reveal(HashedTreeMap::wf_index);
                assert(self.live(*s as int));
                self.slots[*s].as_ref()
            },
            None => None,
        }
    }
}

/// Drops `x` from a list of slots that holds no slot twice.
fn remove_slot(v: &mut Vec<usize>, x: usize)
    requires
        old(v)@.no_duplicates(),
    ensures
        final(v)@.no_duplicates(),
        forall|y: usize| #[trigger] final(v)@.contains(y) <==> old(v)@.contains(y) && y != x,
{
    let ghost v0 = v@;
    let mut i: usize = 0;
    while i < v.len()
        invariant
            v@ == v0,
            v0 == old(v)@,
            v0.no_duplicates(),
            0 <= i <= v@.len(),
            forall|j: int| 0 <= j < i ==> v@[j] != x,
        decreases v@.len() - i,
    {
        if v[i] == x {
            assert(v0[i as int] == x);
            v.remove(i);
            proof {
                let w = v@;
                assert(w == v0.remove(i as int));
                assert forall|y: usize| #[trigger] w.contains(y) <==> v0.contains(y) && y != x by {
                    if w.contains(y) {
                        let j = w.index_of(y);
                        if j < i {
                            assert(v0[j] == y);
                        } else {
                            assert(v0[j + 1] == y);
                            assert(j + 1 != i);
                        }
                    }
                    if v0.contains(y) && y != x {
                        let j = v0.index_of(y);
                        if j < i {
                            assert(w[j] == y);
                        } else {
                            assert(j != i);
                            assert(w[j - 1] == y);
                        }
                    }
                }
                assert forall|j: int, k: int| 0 <= j < w.len() && 0 <= k < w.len() && j != k
                    implies w[j] != w[k] by {
                    let jj = if j < i { j } else { j + 1 };
                    let kk = if k < i { k } else { k + 1 };
                    assert(w[j] == v0[jj] && w[k] == v0[kk]);
                }
            }
            return;
        }
        i += 1;
    }
    proof {
        assert(!v0.contains(x));
    }
}

} // verus!
