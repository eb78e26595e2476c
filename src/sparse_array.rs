use std::rc::Rc;
use vstd::prelude::*;

use crate::bits::{
    agrees, child_bit, has_bit, lemma_agrees_push, lemma_bit_test, lemma_full_path,
    lemma_ones_below_insert, lemma_ones_below_mono, lemma_rank, lemma_rank_distinct,
    lemma_single_bit, lemma_slot_bound, ones_below, slot_of, BITS,
};

verus! {

/// A persistent map from 64-bit indices to values, stored as a bitmap-indexed trie whose
/// nodes are shared between copies.
pub struct SparseArray<T> {
    root: Option<Ptr<T>>,
}

/// A shared trie node.
enum Ptr<T> {
    Leaf(Rc<Leaf<T>>),
    Branch(Rc<Branch<T>>),
}

struct Leaf<T> {
    index: u64,
    value: T,
}

/// A node with one child per one bit of `present`, children kept in the order of their bits.
struct Branch<T> {
    present: u64,
    children: Vec<Ptr<T>>,
}

impl<T> Ptr<T> {
    /// What a walk from this node, standing at trie level `level`, finds for index `k`.
    spec fn lookup(self, level: nat, k: u64) -> Option<T>
        decreases 11 - level, 1int,
    {
        match self {
            Ptr::Leaf(l) => if l.index == k {
                Some(l.value)
            } else {
                None
            },
            Ptr::Branch(b) => (*b).lookup(level, k),
        }
    }

    /// The node stands at the end of `path`: every leaf below follows the path it hangs on,
    /// and every branch's bitmap matches its children.
    spec fn wf(self, path: Seq<u64>) -> bool
        decreases 11 - path.len(), 1int,
    {
        match self {
            Ptr::Leaf(l) => agrees(l.index, path),
            Ptr::Branch(b) => (*b).wf(path),
        }
    }

    /// Sets `index` to `value` below this node, which stands `depth` bits down the index.
    /// Returns the node that replaces it and the value that was there. A node that other
    /// copies still hold is copied before it changes; one held only here changes in place.
    fn set(self, depth: u8, index: u64, value: T, Ghost(path): Ghost<Seq<u64>>) -> (res: (
        Ptr<T>,
        Option<T>,
    )) where T: Clone
        requires
            self.wf(path),
            depth == 6 * path.len(),
            agrees(index, path),
        ensures
            res.0.wf(path),
            forall|k: u64| #[trigger]
                res.0.lookup(path.len(), k) == if k == index {
                    Some(value)
                } else {
                    self.lookup(path.len(), k)
                },
            match res.1 {
                Some(x) => self.lookup(path.len(), index) matches Some(o) && cloned(o, x),
                None => self.lookup(path.len(), index) is None,
            },
            (self matches Ptr::Leaf(l) && l.index == index) ==> (res.0 matches Ptr::Leaf(n)
                && n.index == index && n.value == value),
            (self matches Ptr::Leaf(l) && l.index != index) ==> (res.0 is Branch && res.1 is None),
            self is Branch ==> res.0 is Branch,
        decreases 11 - path.len(), 1int,
    {
        proof {
            reveal_with_fuel(Ptr::lookup, 2);
            reveal_with_fuel(Ptr::wf, 2);
        }
        match self {
            Ptr::Leaf(l) => {
                if l.index == index {
                    let previous = match Rc::try_unwrap(l) {
                        Ok(leaf) => leaf.value,
                        Err(shared) => shared.value.clone(),
                    };
                    (Ptr::Leaf(Rc::new(Leaf { index, value })), Some(previous))
                } else {
                    proof {
                        if path.len() >= 11 {
                            lemma_full_path(l.index, index, path);
                        }
                    }
                    let ghost s = slot_of(path.len(), l.index);
                    let ghost leaf = Ptr::Leaf(l);
                    let bit = child_bit(depth, l.index);
                    let mut b = Branch { present: bit, children: vec![Ptr::Leaf(l)] };
                    proof {
                        lemma_slot_bound(path.len(), l.index);
                        lemma_single_bit(s, 64);
                        lemma_single_bit(s, s as nat);
                        lemma_agrees_push(l.index, path);
                        assert(b.child(s) == leaf);
                        assert(b.wf(path));
                        assert forall|k: u64| #[trigger]
                            b.lookup(path.len(), k) == leaf.lookup(path.len(), k) by {
                            lemma_slot_bound(path.len(), k);
                        }
                    }
                    let ghost b0 = b;
                    b.set(depth, index, value, Ghost(path));
                    let res = Ptr::Branch(Rc::new(b));
                    proof {
                        assert forall|k: u64| #[trigger]
                            res.lookup(path.len(), k) == if k == index {
                                Some(value)
                            } else {
                                b0.lookup(path.len(), k)
                            } by {
                            assert(res.lookup(path.len(), k) == b.lookup(path.len(), k));
                        }
                    }
                    (res, None)
                }
            },
            Ptr::Branch(rc) => {
                let mut b = match Rc::try_unwrap(rc) {
                    Ok(b) => b,
                    Err(shared) => Branch {
                        present: shared.present,
                        children: share_all(&shared.children),
                    },
                };
                let ghost b0 = b;
                proof {
                    assert(b.present == rc.present && b.children@ == rc.children@);
                    assert forall|t: u64| t < 64 && has_bit(b.present, t) implies (
                    #[trigger] b.child(t)).wf(path.push(t)) by {
                        assert(b.child(t) == rc.child(t));
                    }
                    assert(b.wf(path));
                    assert forall|k: u64| #[trigger] b.lookup(path.len(), k) == rc.lookup(
                        path.len(),
                        k,
                    ) by {}
                }
                let r = b.set(depth, index, value, Ghost(path));
                let res = Ptr::Branch(Rc::new(b));
                proof {
                    assert forall|k: u64| #[trigger]
                        res.lookup(path.len(), k) == if k == index {
                            Some(value)
                        } else {
                            b0.lookup(path.len(), k)
                        } by {
                        assert(res.lookup(path.len(), k) == b.lookup(path.len(), k));
                    }
                }
                (res, r)
            },
        }
    }

    /// Another handle on the same node.
    fn share(&self) -> (r: Ptr<T>)
        ensures
            r == *self,
    {
        match self {
            Ptr::Leaf(l) => Ptr::Leaf(Rc::clone(l)),
            Ptr::Branch(b) => Ptr::Branch(Rc::clone(b)),
        }
    }
}

impl<T> Branch<T> {
    /// The child for slot `s`: its place in the list is the number of one bits below `s`.
    spec fn child(self, s: u64) -> Ptr<T> {
        self.children@[ones_below(self.present, s as nat) as int]
    }

    spec fn lookup(self, level: nat, k: u64) -> Option<T>
        decreases 11 - level, 0int,
    {
        if level < 11 && has_bit(self.present, slot_of(level, k)) {
            self.child(slot_of(level, k)).lookup(level + 1, k)
        } else {
            None
        }
    }

    spec fn wf(self, path: Seq<u64>) -> bool
        decreases 11 - path.len(), 0int,
    {
        &&& path.len() < 11
        &&& self.present != 0
        &&& self.children@.len() == ones_below(self.present, 64)
        &&& forall|s: u64|
            s < 64 && has_bit(self.present, s) ==> (#[trigger] self.child(s)).wf(path.push(s))
    }
}


/// Another handle on each of `children`.
fn share_all<T>(children: &Vec<Ptr<T>>) -> (r: Vec<Ptr<T>>)
    ensures
        r@ == children@,
{
    let mut r: Vec<Ptr<T>> = Vec::new();
    let mut i: usize = 0;
    while i < children.len()
        invariant
            i <= children.len(),
            r@ == children@.subrange(0, i as int),
        decreases children.len() - i,
    {
        r.push(children[i].share());
        i = i + 1;
        proof {
            assert(r@ =~= children@.subrange(0, i as int));
        }
    }
    proof {
        assert(r@ =~= children@);
    }
    r
}

impl<T: Clone> Branch<T> {
    /// Sets `index` to `value` below this branch, which stands `depth` bits down the index:
    /// into the child for the index's slot, or into a new leaf where that slot is empty.
    fn set(&mut self, depth: u8, index: u64, value: T, Ghost(path): Ghost<Seq<u64>>) -> (r: Option<
        T,
    >)
        requires
            old(self).wf(path),
            depth == 6 * path.len(),
            agrees(index, path),
        ensures
            final(self).wf(path),
            forall|k: u64| #[trigger]
                final(self).lookup(path.len(), k) == if k == index {
                    Some(value)
                } else {
                    old(self).lookup(path.len(), k)
                },
            match r {
                Some(x) => old(self).lookup(path.len(), index) matches Some(o) && cloned(o, x),
                None => old(self).lookup(path.len(), index) is None,
            },
            ({
                let s = slot_of(path.len(), index);
                let p = ones_below(old(self).present, s as nat) as int;
                &&& has_bit(old(self).present, s) ==> {
                    &&& final(self).present == old(self).present
                    &&& final(self).children@ == old(self).children@.update(
                        p,
                        final(self).children@[p],
                    )
                }
                &&& !has_bit(old(self).present, s) ==> {
                    &&& final(self).present == old(self).present | (1u64 << s)
                    &&& final(self).children@ == old(self).children@.insert(
                        p,
                        final(self).children@[p],
                    )
                    &&& final(self).children@[p] matches Ptr::Leaf(l) && l.index == index
                        && l.value == value
                    &&& r is None
                }
            }),
        decreases 11 - path.len(), 0int,
    {
        let ghost old_b = *self;
        let ghost len = path.len();
        let bit = child_bit(depth, index);
        let ghost s = slot_of(len, index);
        proof {
            lemma_slot_bound(len, index);
            lemma_bit_test(self.present, s);
            lemma_rank(self.present, s);
            lemma_agrees_push(index, path);
        }
        let position = (self.present & (bit - 1)).count_ones() as usize;
        if self.present & bit != 0 {
            proof {
                lemma_ones_below_mono(self.present, s as nat, 64);
                assert(old_b.child(s).wf(path.push(s)));
            }
            let child = self.children.remove(position);
            let (new_child, r) = child.set(depth + BITS, index, value, Ghost(path.push(s)));
            self.children.insert(position, new_child);
            proof {
                old_b.children@.remove_ensures(position as int);
                old_b.children@.remove(position as int).insert_ensures(position as int, new_child);
                assert(self.children@ =~= old_b.children@.update(position as int, new_child));
                assert(self.child(s) == new_child);
                assert(new_child.wf(path.push(s)));
                assert forall|t: u64| t < 64 && has_bit(self.present, t) implies (
                #[trigger] self.child(t)).wf(path.push(t)) by {
                    if t != s {
                        lemma_rank_distinct(self.present, s, t);
                        lemma_rank_distinct(self.present, t, s);
                        assert(old_b.child(t).wf(path.push(t)));
                    }
                }
                assert forall|k: u64| #[trigger]
                    self.lookup(len, k) == if k == index {
                        Some(value)
                    } else {
                        old_b.lookup(len, k)
                    } by {
                    lemma_slot_bound(len, k);
                    let t = slot_of(len, k);
                    if t != s && has_bit(self.present, t) {
                        lemma_rank_distinct(self.present, s, t);
                        lemma_rank_distinct(self.present, t, s);
                        assert(self.child(t) == old_b.child(t));
                    }
                    if t == s {
                        assert(child == old_b.child(s));
                        assert(new_child.lookup(len + 1, k) == if k == index {
                            Some(value)
                        } else {
                            child.lookup(len + 1, k)
                        });
                    }
                }
            }
            r
        } else {
            let ghost pos = position as int;
            proof {
                lemma_ones_below_mono(self.present, s as nat, 64);
            }
            let leaf = Ptr::Leaf(Rc::new(Leaf { index, value }));
            self.present = self.present | bit;
            self.children.insert(position, leaf);
            proof {
                let p0 = old_b.present;
                old_b.children@.insert_ensures(pos, leaf);
                lemma_ones_below_insert(p0, s, 64);
                lemma_ones_below_insert(p0, s, s as nat);
                assert forall|t: u64| t < 64 implies #[trigger] has_bit(self.present, t) == (t
                    == s || has_bit(p0, t)) by {
                    crate::bits::lemma_bits_of_or(p0, s, t);
                }
                assert forall|t: u64| t < 64 && has_bit(p0, t) implies #[trigger] self.child(t)
                    == old_b.child(t) by {
                    lemma_ones_below_insert(p0, s, t as nat);
                    lemma_ones_below_mono(p0, t as nat, 64);
                    if t < s {
                        lemma_ones_below_mono(p0, t as nat, s as nat);
                    } else {
                        lemma_ones_below_mono(p0, s as nat, t as nat);
                    }
                }
                assert(self.child(s) == leaf);
                assert forall|t: u64| t < 64 && has_bit(self.present, t) implies (
                #[trigger] self.child(t)).wf(path.push(t)) by {
                    if t != s {
                        assert(old_b.child(t).wf(path.push(t)));
                    }
                }
                assert forall|k: u64| #[trigger]
                    self.lookup(len, k) == if k == index {
                        Some(value)
                    } else {
                        old_b.lookup(len, k)
                    } by {
                    lemma_slot_bound(len, k);
                    let t = slot_of(len, k);
                    if t == s {
                        assert(self.child(s) == leaf);
                    } else {
                        assert(has_bit(self.present, t) == has_bit(p0, t));
                        if has_bit(p0, t) {
                            assert(self.child(t) == old_b.child(t));
                        }
                    }
                }
            }
            None
        }
    }
}

impl<T> Ptr<T> {
    /// The value at `index` below this node, which stands `depth` bits down the index.
    fn get(&self, depth: u8, index: u64, Ghost(path): Ghost<Seq<u64>>) -> (r: Option<&T>)
        requires
            self.wf(path),
            depth == 6 * path.len(),
        ensures
            match r {
                Some(v) => self.lookup(path.len(), index) == Some(*v),
                None => self.lookup(path.len(), index) is None,
            },
        decreases 11 - path.len(),
    {
        proof {
            reveal_with_fuel(Ptr::lookup, 2);
            reveal_with_fuel(Ptr::wf, 2);
        }
        match self {
            Ptr::Leaf(l) => {
                if l.index == index {
                    Some(&l.value)
                } else {
                    None
                }
            },
            Ptr::Branch(b) => {
                let bit = child_bit(depth, index);
                let ghost s = slot_of(path.len(), index);
                proof {
                    reveal_with_fuel(Ptr::wf, 2);
                    reveal_with_fuel(Ptr::lookup, 2);
                    lemma_slot_bound(path.len(), index);
                    lemma_bit_test(b.present, s);
                    lemma_rank(b.present, s);
                }
                if b.present & bit != 0 {
                    let position = (b.present & (bit - 1)).count_ones() as usize;
                    proof {
                        lemma_ones_below_mono(b.present, s as nat, 64);
                        assert(b.child(s).wf(path.push(s)));
                    }
                    b.children[position].get(depth + BITS, index, Ghost(path.push(s)))
                } else {
                    None
                }
            },
        }
    }
}

impl<T> SparseArray<T> {
    /// What the trie holds at index `k`.
    spec fn at(self, k: u64) -> Option<T> {
        match self.root {
            None => None,
            Some(p) => p.lookup(0, k),
        }
    }

    /// The contents: each populated index with its value.
    pub closed spec fn view(&self) -> Map<u64, T> {
        Map::new(|k: u64| self.at(k) is Some, |k: u64| self.at(k)->0)
    }

    /// The trie is well formed.
    pub closed spec fn wf(&self) -> bool {
        self.root matches Some(p) ==> p.wf(Seq::empty())
    }

    /// An empty array.
    pub fn new() -> (r: SparseArray<T>)
        ensures
            r.wf(),
            r@ == Map::<u64, T>::empty(),
    {
        let r = SparseArray { root: None };
        proof {
            assert(r@ =~= Map::<u64, T>::empty());
        }
        r
    }

    /// The value at `index`, if one was set there.
    pub fn get(&self, index: u64) -> (r: Option<&T>)
        requires
            self.wf(),
        ensures
            match r {
                Some(v) => self@.contains_key(index) && self@[index] == *v,
                None => !self@.contains_key(index),
            },
    {
        match &self.root {
            None => None,
            Some(root) => root.get(0, index, Ghost(Seq::empty())),
        }
    }

    /// Sets the value at `index`, returning the value that was there before. Nodes shared
    /// with other copies of the array are copied before they change, so those copies keep
    /// their contents.
    pub fn set(&mut self, index: u64, value: T) -> (r: Option<T>) where T: Clone
        requires
            old(self).wf(),
        ensures
            final(self).wf(),
            final(self)@ == old(self)@.insert(index, value),
            match r {
                Some(x) => old(self)@.contains_key(index) && cloned(old(self)@[index], x),
                None => !old(self)@.contains_key(index),
            },
    {
        let ghost old_self = *self;
        let mut root: Option<Ptr<T>> = None;
        std::mem::swap(&mut self.root, &mut root);
        match root {
            None => {
                self.root = Some(Ptr::Leaf(Rc::new(Leaf { index, value })));
                proof {
                    assert(self@ =~= old_self@.insert(index, value));
                }
                None
            },
            Some(p) => {
                let (new_root, r) = p.set(0, index, value, Ghost(Seq::empty()));
                self.root = Some(new_root);
                proof {
                    assert(self@ =~= old_self@.insert(index, value));
                }
                r
            },
        }
    }
}

/// After a set at `i`, the array holds `v` at `i` and what it held before at every other
/// index; an index never set holds nothing.
pub proof fn lemma_get_after_set<T>(before: Map<u64, T>, i: u64, v: T, j: u64)
    ensures
        before.insert(i, v).contains_key(j) == (j == i || before.contains_key(j)),
        before.insert(i, v).contains_key(j) ==> before.insert(i, v)[j] == if j == i {
            v
        } else {
            before[j]
        },
{
}

/// Setting `i` twice leaves the second value, and the second set finds the first value there.
pub proof fn lemma_set_twice<T>(before: Map<u64, T>, i: u64, v1: T, v2: T)
    ensures
        before.insert(i, v1).contains_key(i),
        before.insert(i, v1)[i] == v1,
        before.insert(i, v1).insert(i, v2) == before.insert(i, v2),
{
    assert(before.insert(i, v1).insert(i, v2) =~= before.insert(i, v2));
}

impl<T> Default for SparseArray<T> {
    fn default() -> (r: SparseArray<T>)
        ensures
            r.wf(),
            r@ == Map::<u64, T>::empty(),
    {
        SparseArray::new()
    }
}

impl<T> Clone for SparseArray<T> {
    /// A copy that shares every node with the original.
    fn clone(&self) -> (r: SparseArray<T>)
        ensures
            r == *self,
    {
        match &self.root {
            None => SparseArray { root: None },
            Some(p) => SparseArray { root: Some(p.share()) },
        }
    }
}

} // verus!
