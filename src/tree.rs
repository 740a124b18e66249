//! An unbalanced binary search tree.
use vstd::prelude::*;
use vstd::std_specs::cmp::{PartialOrdIs, PartialOrdSpec};

verus! {

#[derive(PartialEq, Eq, Debug)]
pub enum BinaryTree<T> {
    Leaf,
    Node(T, Box<BinaryTree<T>>, Box<BinaryTree<T>>),
}

/// The first element of `s` that is greater than or equal to `q`.
pub open spec fn first_at_least<T: PartialOrd>(s: Seq<T>, q: T) -> Option<T>
    decreases s.len(),
{
    if s.len() == 0 {
        None
    } else if s[0].is_ge(&q) {
        Some(s[0])
    } else {
        first_at_least(s.drop_first(), q)
    }
}

proof fn lemma_first_at_least_concat<T: PartialOrd>(a: Seq<T>, b: Seq<T>, q: T)
    ensures
        first_at_least(a + b, q) == match first_at_least(a, q) {
            Some(y) => Some(y),
            None => first_at_least(b, q),
        },
    decreases a.len(),
{
    if a.len() == 0 {
        assert(a + b =~= b);
    } else {
        assert((a + b).drop_first() =~= a.drop_first() + b);
        lemma_first_at_least_concat(a.drop_first(), b, q);
    }
}

impl<T: Clone> BinaryTree<T> {
    /// A copy of the tree, node for node.
    pub fn duplicate(&self) -> (r: BinaryTree<T>)
        decreases self,
    {
        match self {
            BinaryTree::Leaf => BinaryTree::Leaf,
            BinaryTree::Node(x, l, r) => BinaryTree::Node(
                x.clone(),
                Box::new(l.duplicate()),
                Box::new(r.duplicate()),
            ),
        }
    }
}

impl<T: Clone> Clone for BinaryTree<T> {
    fn clone(&self) -> (r: Self) {
        self.duplicate()
    }
}

impl<T: PartialOrd> BinaryTree<T> {
    /// The elements in order: left subtree, node, right subtree.
    pub open spec fn elems(self) -> Seq<T>
        decreases self,
    {
        match self {
            BinaryTree::Leaf => Seq::empty(),
            BinaryTree::Node(x, l, r) => l.elems() + seq![x] + r.elems(),
        }
    }

    /// Each node is greater than every element of its left subtree and less
    /// than every element of its right subtree.
    pub open spec fn is_sorted(self) -> bool
        decreases self,
    {
        match self {
            BinaryTree::Leaf => true,
            BinaryTree::Node(x, l, r) => {
                &&& l.is_sorted()
                &&& r.is_sorted()
                &&& forall|i: int| 0 <= i < l.elems().len() ==> (#[trigger] l.elems()[i]).is_lt(&x)
                &&& forall|i: int| 0 <= i < r.elems().len() ==> (#[trigger] r.elems()[i]).is_gt(&x)
            },
        }
    }

    /// The tree after inserting `t`: it goes to the leaf that the comparisons
    /// along the path lead to, unless the path meets an element that is
    /// neither less nor greater than `t`.
    pub open spec fn with_inserted(self, t: T) -> BinaryTree<T>
        decreases self,
    {
        match self {
            BinaryTree::Leaf => BinaryTree::Node(
                t,
                Box::new(BinaryTree::Leaf),
                Box::new(BinaryTree::Leaf),
            ),
            BinaryTree::Node(x, l, r) => if t.is_lt(&x) {
                BinaryTree::Node(x, Box::new(l.with_inserted(t)), r)
            } else if t.is_gt(&x) {
                BinaryTree::Node(x, l, Box::new(r.with_inserted(t)))
            } else {
                self
            },
        }
    }

    /// Every element after inserting `t` is `t` or was already there.
    pub proof fn lemma_inserted_elems(self, t: T)
        ensures
            forall|i: int|
                0 <= i < self.with_inserted(t).elems().len() ==> {
                    let e = #[trigger] self.with_inserted(t).elems()[i];
                    e == t || self.elems().contains(e)
                },
        decreases self,
    {
        match self {
            BinaryTree::Leaf => {
                assert(self.with_inserted(t).elems() =~= seq![t]);
            },
            BinaryTree::Node(x, l, r) => {
                let n = self.with_inserted(t);
                if t.is_lt(&x) {
                    (*l).lemma_inserted_elems(t);
                    let li = l.with_inserted(t);
                    assert forall|i: int| 0 <= i < n.elems().len() implies {
                        let e = #[trigger] n.elems()[i];
                        e == t || self.elems().contains(e)
                    } by {
                        let e = n.elems()[i];
                        if i < li.elems().len() {
                            assert(e == li.elems()[i]);
                            if e != t {
                                let j = choose|j: int| 0 <= j < l.elems().len() && l.elems()[j] == e;
                                assert(self.elems()[j] == e);
                            }
                        } else if i == li.elems().len() {
                            assert(self.elems()[l.elems().len() as int] == x);
                        } else {
                            let k = i - li.elems().len() - 1;
                            assert(e == r.elems()[k]);
                            assert(self.elems()[l.elems().len() + 1 + k] == e);
                        }
                    }
                } else if t.is_gt(&x) {
                    (*r).lemma_inserted_elems(t);
                    let ri = r.with_inserted(t);
                    assert forall|i: int| 0 <= i < n.elems().len() implies {
                        let e = #[trigger] n.elems()[i];
                        e == t || self.elems().contains(e)
                    } by {
                        let e = n.elems()[i];
                        if i < l.elems().len() {
                            assert(self.elems()[i] == e);
                        } else if i == l.elems().len() {
                            assert(self.elems()[i] == e);
                        } else {
                            let k = i - l.elems().len() - 1;
                            assert(e == ri.elems()[k]);
                            if e != t {
                                let j = choose|j: int| 0 <= j < r.elems().len() && r.elems()[j] == e;
                                assert(self.elems()[l.elems().len() + 1 + j] == e);
                            }
                        }
                    }
                } else {
                    assert forall|i: int| 0 <= i < n.elems().len() implies {
                        let e = #[trigger] n.elems()[i];
                        e == t || self.elems().contains(e)
                    } by {
                        assert(self.elems()[i] == n.elems()[i]);
                    }
                }
            },
        }
    }

    /// Inserting into a search tree gives a search tree.
    pub proof fn lemma_insert_keeps_sorted(self, t: T)
        requires
            self.is_sorted(),
        ensures
            self.with_inserted(t).is_sorted(),
        decreases self,
    {
        match self {
            BinaryTree::Leaf => {
                let n = self.with_inserted(t);
                assert(n->Node_1.elems().len() == 0);
                assert(n->Node_2.elems().len() == 0);
            },
            BinaryTree::Node(x, l, r) => {
                if t.is_lt(&x) {
                    (*l).lemma_insert_keeps_sorted(t);
                    (*l).lemma_inserted_elems(t);
                    let li = l.with_inserted(t);
                    assert forall|i: int| 0 <= i < li.elems().len() implies (#[trigger] li.elems()[
                        i
                    ]).is_lt(&x) by {
                        let e = li.elems()[i];
                        if e != t {
                            let j = choose|j: int| 0 <= j < l.elems().len() && l.elems()[j] == e;
                            assert(l.elems()[j].is_lt(&x));
                        }
                    }
                } else if t.is_gt(&x) {
                    (*r).lemma_insert_keeps_sorted(t);
                    (*r).lemma_inserted_elems(t);
                    let ri = r.with_inserted(t);
                    assert forall|i: int| 0 <= i < ri.elems().len() implies (#[trigger] ri.elems()[
                        i
                    ]).is_gt(&x) by {
                        let e = ri.elems()[i];
                        if e != t {
                            let j = choose|j: int| 0 <= j < r.elems().len() && r.elems()[j] == e;
                            assert(r.elems()[j].is_gt(&x));
                        }
                    }
                }
            },
        }
    }

    /// Number of elements.
    pub fn len(&self) -> (n: usize)
        requires
            self.elems().len() <= usize::MAX,
        ensures
            n == self.elems().len(),
        decreases self,
    {
        match self {
            BinaryTree::Leaf => 0,
            BinaryTree::Node(_x, l, r) => 1 + l.len() + r.len(),
        }
    }

    /// References to the elements, in order.
    pub fn to_vec(&self) -> (v: Vec<&T>)
        ensures
            v@.len() == self.elems().len(),
            forall|i: int| 0 <= i < v@.len() ==> *#[trigger] v@[i] == self.elems()[i],
        decreases self,
    {
        match self {
            BinaryTree::Leaf => Vec::new(),
            BinaryTree::Node(x, l, r) => {
                let mut v = l.to_vec();
                let ghost lv = v@;
                v.push(x);
                let mut rv = r.to_vec();
                let ghost rvv = rv@;
                v.append(&mut rv);
                assert forall|i: int| 0 <= i < v@.len() implies *#[trigger] v@[i]
                    == self.elems()[i] by {
                    if i < lv.len() {
                        assert(v@[i] == lv[i]);
                    } else if i == lv.len() {
                    } else {
                        assert(v@[i] == rvv[i - lv.len() - 1]);
                    }
                }
                v
            },
        }
    }

    /// Whether the tree is a search tree (`is_sorted`).
    pub fn sorted(&self) -> (b: bool)
        ensures
            T::obeys_partial_cmp_spec() ==> b == self.is_sorted(),
        decreases self,
    {
        match self {
            BinaryTree::Leaf => true,
            BinaryTree::Node(x, l, r) => {
                if !l.sorted() || !r.sorted() {
                    return false;
                }
                let ls = l.to_vec();
                let rs = r.to_vec();
                let mut i: usize = 0;
                while i < ls.len()
                    invariant
                        0 <= i <= ls@.len(),
                        *self == BinaryTree::Node(*x, *l, *r),
                        T::obeys_partial_cmp_spec() ==> l.is_sorted() && r.is_sorted(),
                        ls@.len() == l.elems().len(),
                        forall|k: int| 0 <= k < ls@.len() ==> *#[trigger] ls@[k] == l.elems()[k],
                        T::obeys_partial_cmp_spec() ==> forall|k: int|
                            0 <= k < i ==> (#[trigger] l.elems()[k]).is_lt(x),
                    decreases ls@.len() - i,
                {
                    let less = *ls[i] < *x;
                    if !less {
                        assert(*ls@[i as int] == l.elems()[i as int]);
                        assert(T::obeys_partial_cmp_spec() ==> !l.elems()[i as int].is_lt(x));
                        return false;
                    }
                    i += 1;
                }
                let mut j: usize = 0;
                while j < rs.len()
                    invariant
                        0 <= j <= rs@.len(),
                        *self == BinaryTree::Node(*x, *l, *r),
                        T::obeys_partial_cmp_spec() ==> l.is_sorted() && r.is_sorted(),
                        T::obeys_partial_cmp_spec() ==> forall|k: int|
                            0 <= k < l.elems().len() ==> (#[trigger] l.elems()[k]).is_lt(x),
                        rs@.len() == r.elems().len(),
                        forall|k: int| 0 <= k < rs@.len() ==> *#[trigger] rs@[k] == r.elems()[k],
                        T::obeys_partial_cmp_spec() ==> forall|k: int|
                            0 <= k < j ==> (#[trigger] r.elems()[k]).is_gt(x),
                    decreases rs@.len() - j,
                {
                    let greater = *rs[j] > *x;
                    if !greater {
                        assert(*rs@[j as int] == r.elems()[j as int]);
                        assert(T::obeys_partial_cmp_spec() ==> !r.elems()[j as int].is_gt(x));
                        return false;
                    }
                    j += 1;
                }
                true
            },
        }
    }

    fn into_inserted(self, t: T) -> (r: BinaryTree<T>)
        ensures
            T::obeys_partial_cmp_spec() ==> r == self.with_inserted(t),
        decreases self,
    {
        match self {
            BinaryTree::Leaf => BinaryTree::Node(
                t,
                Box::new(BinaryTree::Leaf),
                Box::new(BinaryTree::Leaf),
            ),
            BinaryTree::Node(x, l, r) => {
                if t < x {
                    BinaryTree::Node(x, Box::new((*l).into_inserted(t)), r)
                } else if t > x {
                    BinaryTree::Node(x, l, Box::new((*r).into_inserted(t)))
                } else {
                    BinaryTree::Node(x, l, r)
                }
            },
        }
    }

    /// Inserts `t` where the search for it ends (see `with_inserted`).
    pub fn insert(&mut self, t: T)
        ensures
            T::obeys_partial_cmp_spec() ==> *final(self) == old(self).with_inserted(t),
            T::obeys_partial_cmp_spec() && old(self).is_sorted() ==> final(self).is_sorted(),
    {
        proof {
            if old(self).is_sorted() {
                old(self).lemma_insert_keeps_sorted(t);
            }
        }
        let mut this = BinaryTree::Leaf;
        std::mem::swap(self, &mut this);
        *self = this.into_inserted(t);
    }

    /// The first element, in order, that is greater than or equal to
    /// `query`.
    pub fn search(&self, query: &T) -> (r: Option<&T>)
        ensures
            T::obeys_partial_cmp_spec() ==> match r {
                Some(y) => first_at_least(self.elems(), *query) == Some(*y),
                None => first_at_least(self.elems(), *query) is None,
            },
        decreases self,
    {
        match self {
            BinaryTree::Leaf => None,
            BinaryTree::Node(x, l, r) => {
                proof {
                    lemma_first_at_least_concat(l.elems(), seq![*x] + r.elems(), *query);
                    assert(l.elems() + seq![*x] + r.elems() =~= l.elems() + (seq![*x]
                        + r.elems()));
                    assert((seq![*x] + r.elems()).drop_first() =~= r.elems());
                }
                match l.search(query) {
                    Some(y) => Some(y),
                    None => {
                        if *x >= *query {
                            Some(x)
                        } else {
                            r.search(query)
                        }
                    },
                }
            },
        }
    }
}

} // verus!
