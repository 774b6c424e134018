//! A single trie node: a character label, an optional value, and an owned
//! set of child nodes, at most one per character.

use vstd::prelude::*;

verus! {

/// One node of a trie.
///
/// The children are held in a vector; the character under which a child is
/// reachable is the child's own label, so the map from characters to
/// children can never disagree with the labels.  Well-formedness
/// ([`TrieNode::wf`]) asks that no two children carry the same label.
pub struct TrieNode<T> {
    key_char: char,
    value: Option<T>,
    children: Vec<TrieNode<T>>,
}

impl<T> TrieNode<T> {
    /// The label of this node.
    pub closed spec fn spec_key_char(self) -> char {
        self.key_char
    }

    /// The value stored at this node, if any.
    pub closed spec fn spec_value(self) -> Option<T> {
        self.value
    }

    /// Well-formed: children carry pairwise distinct labels, recursively.
    pub closed spec fn wf(self) -> bool
        decreases self,
    {
        &&& (forall|i: int, j: int|
            0 <= i < j < self.children@.len() ==> (#[trigger] self.children@[i]).key_char != (
            #[trigger] self.children@[j]).key_char)
        &&& (forall|i: int|
            0 <= i < self.children@.len() ==> (#[trigger] self.children@[i]).wf())
    }

    /// Whether some child carries the label `c`.
    pub closed spec fn spec_has_child(self, c: char) -> bool {
        exists|i: int| 0 <= i < self.children@.len() && (#[trigger] self.children@[i]).key_char == c
    }

    /// The child carrying the label `c` (meaningful only when
    /// `spec_has_child(c)` holds; unique when `wf()` holds).
    pub closed spec fn spec_child(self, c: char) -> TrieNode<T> {
        self.children@[choose|i: int|
            0 <= i < self.children@.len() && (#[trigger] self.children@[i]).key_char == c]
    }

    /// The children as a map from character to child node.
    pub open spec fn spec_children(self) -> Map<char, TrieNode<T>> {
        Map::new(|c: char| self.spec_has_child(c), |c: char| self.spec_child(c))
    }

    /// In a well-formed node, each position of the child vector is the
    /// child reached under its own label.
    proof fn lemma_child_at(self, i: int)
        requires
            self.wf(),
            0 <= i < self.children@.len(),
        ensures
            self.spec_has_child(self.children@[i].key_char),
            self.spec_child(self.children@[i].key_char) == self.children@[i],
    {
        let c = self.children@[i].key_char;
        assert(self.spec_has_child(c));
        let j = choose|j: int|
            0 <= j < self.children@.len() && (#[trigger] self.children@[j]).key_char == c;
        assert(i == j);
    }

    /// The value at the end of the path that spells `key` below this node:
    /// `None` when the path breaks off or ends on a node with no value.
    /// The empty path ends on this node itself.
    pub closed spec fn spec_get(self, key: Seq<char>) -> Option<T>
        decreases key.len(),
    {
        if key.len() == 0 {
            self.value
        } else if self.spec_has_child(key[0]) {
            self.spec_child(key[0]).spec_get(key.skip(1))
        } else {
            None
        }
    }

    /// Constructs a node with the given label and value and no children.
    pub fn new(key_char: char, value: Option<T>) -> (n: TrieNode<T>)
        ensures
            n.wf(),
            n.spec_key_char() == key_char,
            n.spec_value() == value,
            n.spec_children() == Map::<char, TrieNode<T>>::empty(),
            forall|k: Seq<char>|
                #[trigger] n.spec_get(k) == (if k.len() == 0 {
                    value
                } else {
                    None::<T>
                }),
    {
        let n = TrieNode { key_char, value, children: Vec::new() };
        proof {
            assert(n.spec_children() =~= Map::<char, TrieNode<T>>::empty());
            assert forall|k: Seq<char>| #[trigger] n.spec_get(k) == (if k.len() == 0 {
                value
            } else {
                None::<T>
            }) by {
                if k.len() > 0 {
                    assert(!n.spec_has_child(k[0]));
                }
            }
        }
        n
    }

    /// The position of the child labelled `c` in the child vector, if any.
    fn find_child(&self, key_char: char) -> (r: Option<usize>)
        ensures
            match r {
                Some(i) => i < self.children@.len() && self.children@[i as int].key_char
                    == key_char,
                None => !self.spec_has_child(key_char),
            },
    {
        let mut i: usize = 0;
        while i < self.children.len()
            invariant
                i <= self.children@.len(),
                forall|k: int| 0 <= k < i ==> (#[trigger] self.children@[k]).key_char != key_char,
            decreases self.children@.len() - i,
        {
            if self.children[i].key_char == key_char {
                return Some(i);
            }
            i += 1;
        }
        None
    }

    /// True iff this node has a child labelled `key_char`.
    pub fn has_child(&self, key_char: char) -> (r: bool)
        ensures
            r == self.spec_has_child(key_char),
    {
        self.find_child(key_char).is_some()
    }

    /// True iff this node has at least one child.
    pub fn has_children(&self) -> (r: bool)
        ensures
            r <==> exists|c: char| self.spec_has_child(c),
    {
        let r = !self.children.is_empty();
        proof {
            if self.children@.len() > 0 {
                assert(self.spec_has_child(self.children@[0].key_char));
            }
        }
        r
    }

    /// The label of this node.
    pub fn get_key_char(&self) -> (r: char)
        ensures
            r == self.spec_key_char(),
    {
        self.key_char
    }

    /// Overwrites the label in place.
    ///
    /// This only relabels the node itself.  A caller that relabels a node
    /// while it is held inside a parent changes the character under which
    /// the parent reaches it, and is responsible for keeping the parent's
    /// labels pairwise distinct; the contracts of [`TrieNode::get_child_node`]
    /// and [`TrieNode::insert_child_node`] promise a well-formed parent only
    /// when the child handed back kept its label.
    pub fn set_key_char(&mut self, key_char: char)
        ensures
            final(self).spec_key_char() == key_char,
            final(self).spec_value() == old(self).spec_value(),
            final(self).spec_children() == old(self).spec_children(),
            final(self).wf() == old(self).wf(),
    {
        self.key_char = key_char;
        proof {
            lemma_same_children(*old(self), *self);
        }
    }

    /// A read-only view of the children, one node per distinct label.
    pub fn get_children(&self) -> (r: &Vec<TrieNode<T>>)
        requires
            self.wf(),
        ensures
            forall|i: int|
                0 <= i < r@.len() ==> self.spec_has_child((#[trigger] r@[i]).spec_key_char())
                    && self.spec_child(r@[i].spec_key_char()) == r@[i],
            forall|c: char|
                self.spec_has_child(c) ==> exists|i: int|
                    0 <= i < r@.len() && (#[trigger] r@[i]).spec_key_char() == c,
            forall|i: int, j: int|
                0 <= i < j < r@.len() ==> (#[trigger] r@[i]).spec_key_char() != (
                #[trigger] r@[j]).spec_key_char(),
    {
        proof {
            assert forall|i: int| 0 <= i < self.children@.len() implies self.spec_has_child(
                (#[trigger] self.children@[i]).spec_key_char()) && self.spec_child(
                self.children@[i].spec_key_char()) == self.children@[i] by {
                self.lemma_child_at(i);
            }
        }
        &self.children
    }

    /// A read-only reference to the value, if one is set.
    pub fn get_value(&self) -> (r: Option<&T>)
        ensures
            match r {
                Some(v) => self.spec_value() == Some(*v),
                None => self.spec_value() is None,
            },
    {
        self.value.as_ref()
    }

    /// Sets the value, overwriting any existing value unconditionally; the
    /// duplicate-key check lives in [`crate::trie::Trie::insert`], not here.
    pub fn set_value(&mut self, value: T)
        ensures
            final(self).spec_value() == Some(value),
            final(self).spec_key_char() == old(self).spec_key_char(),
            final(self).spec_children() == old(self).spec_children(),
            final(self).wf() == old(self).wf(),
    {
        self.value = Some(value);
        proof {
            lemma_same_children(*old(self), *self);
        }
    }

    /// A mutable handle to the child labelled `key_char`, or `None` if
    /// there is no such child (in which case the node is untouched).
    ///
    /// The caller may mutate the child through the handle; the node stays
    /// well-formed, with the child re-reachable under `key_char`, as long
    /// as the caller leaves the child's label and well-formedness intact.
    pub fn get_child_node(&mut self, key_char: char) -> (r: Option<&mut TrieNode<T>>)
        requires
            old(self).wf(),
        ensures
            r is Some <==> old(self).spec_has_child(key_char),
            r is None ==> *final(self) == *old(self),
            r matches Some(child) ==> {
                &&& *child == old(self).spec_child(key_char)
                &&& final(self).spec_key_char() == old(self).spec_key_char()
                &&& final(self).spec_value() == old(self).spec_value()
                &&& (((*final(child)).spec_key_char() == key_char && (*final(child)).wf())
                    ==> {
                    &&& final(self).wf()
                    &&& final(self).spec_children() == old(self).spec_children().insert(
                        key_char,
                        *final(child),
                    )
                })
            },
    {
        match self.find_child(key_char) {
            Some(j) => {
                proof {
                    self.lemma_child_at(j as int);
                    self.lemma_update_child_all(j as int, key_char);
                }
                let child = &mut self.children[j];
                Some(child)
            },
            None => None,
        }
    }

    /// After replacing position `j` of a well-formed node's child vector by
    /// a well-formed node with the same label, the node is still well-formed
    /// and its children map has that label re-bound to the new child.
    proof fn lemma_update_child(self, post: TrieNode<T>, j: int, x: TrieNode<T>)
        requires
            self.wf(),
            0 <= j < self.children@.len(),
            post.key_char == self.key_char,
            post.value == self.value,
            post.children@ == self.children@.update(j, x),
            x.key_char == self.children@[j].key_char,
            x.wf(),
        ensures
            post.wf(),
            post.spec_children() == self.spec_children().insert(self.children@[j].key_char, x),
    {
        let c = self.children@[j].key_char;
        assert forall|i: int| 0 <= i < post.children@.len() implies (#[trigger] post.children@[i]).key_char
            == self.children@[i].key_char && post.children@[i].wf() by {}
        assert(post.wf());
        self.lemma_child_at(j);
        post.lemma_child_at(j);
        assert forall|d: char| post.spec_has_child(d) == self.spec_has_child(d) by {
            if post.spec_has_child(d) {
                let i = choose|i: int|
                    0 <= i < post.children@.len() && (#[trigger] post.children@[i]).key_char == d;
                assert(self.children@[i].key_char == d);
            }
            if self.spec_has_child(d) {
                let i = choose|i: int|
                    0 <= i < self.children@.len() && (#[trigger] self.children@[i]).key_char == d;
                assert(post.children@[i].key_char == d);
            }
        }
        assert forall|d: char| d != c && post.spec_has_child(d) implies post.spec_child(d)
            == self.spec_child(d) by {
            let i = choose|i: int|
                0 <= i < post.children@.len() && (#[trigger] post.children@[i]).key_char == d;
            post.lemma_child_at(i);
            self.lemma_child_at(i);
        }
        assert(post.spec_children() =~= self.spec_children().insert(c, x));
    }

    /// [`TrieNode::lemma_update_child`], quantified over the replacement so
    /// that it can discharge postconditions about values a caller will only
    /// determine later through a returned handle.
    proof fn lemma_update_child_all(self, j: int, c: char)
        requires
            self.wf(),
            0 <= j < self.children@.len(),
            self.children@[j].key_char == c,
        ensures
            forall|post: TrieNode<T>, x: TrieNode<T>|
                #![trigger post.wf(), x.wf()]
                (post.key_char == self.key_char && post.value == self.value && post.children@
                    == self.children@.update(j, x) && x.key_char == c && x.wf()) ==> (post.wf()
                    && post.spec_children() == self.spec_children().insert(c, x)),
    {
        assert forall|post: TrieNode<T>, x: TrieNode<T>|
            (post.key_char == self.key_char && post.value == self.value && post.children@
                == self.children@.update(j, x) && x.key_char == c && x.wf()) implies (post.wf()
            && post.spec_children() == self.spec_children().insert(c, x)) by {
            self.lemma_update_child(post, j, x);
        }
    }

    /// Inserts `child` under the label `key_char` and returns a mutable
    /// handle to the just-inserted child for immediate chaining.
    ///
    /// Fails, returning `None` and leaving the node unmodified, when a child
    /// already exists under `key_char` (no overwrite; the caller must remove
    /// it first), or when `child`'s own label is not `key_char` (a mismatch
    /// would make the label under which the child is reached disagree with
    /// the child itself).
    ///
    /// As with [`TrieNode::get_child_node`], the node stays well-formed as
    /// long as the caller leaves the child's label and well-formedness
    /// intact when mutating through the returned handle.
    pub fn insert_child_node(&mut self, key_char: char, child: TrieNode<T>) -> (r: Option<
        &mut TrieNode<T>,
    >)
        requires
            old(self).wf(),
            child.wf(),
        ensures
            r is Some <==> (!old(self).spec_has_child(key_char) && child.spec_key_char()
                == key_char),
            r is None ==> *final(self) == *old(self),
            r matches Some(cr) ==> {
                &&& *cr == child
                &&& final(self).spec_key_char() == old(self).spec_key_char()
                &&& final(self).spec_value() == old(self).spec_value()
                &&& (((*final(cr)).spec_key_char() == key_char && (*final(cr)).wf()) ==> {
                    &&& final(self).wf()
                    &&& final(self).spec_children() == old(self).spec_children().insert(
                        key_char,
                        *final(cr),
                    )
                })
            },
    {
        if self.has_child(key_char) {
            return None;
        }
        if child.get_key_char() != key_char {
            return None;
        }
        proof {
            self.lemma_push_child_all(key_char);
        }
        let j = self.children.len();
        self.children.push(child);
        proof {
            assert forall|x: TrieNode<T>| #[trigger] self.children@.update(j as int, x)
                =~= old(self).children@.push(x) by {}
        }
        let cr = &mut self.children[j];
        Some(cr)
    }

    /// After appending a well-formed node carrying a fresh label to a
    /// well-formed node's child vector, the node is still well-formed and
    /// its children map has gained exactly that label.
    proof fn lemma_push_child(self, post: TrieNode<T>, x: TrieNode<T>)
        requires
            self.wf(),
            !self.spec_has_child(x.key_char),
            post.key_char == self.key_char,
            post.value == self.value,
            post.children@ == self.children@.push(x),
            x.wf(),
        ensures
            post.wf(),
            post.spec_children() == self.spec_children().insert(x.key_char, x),
    {
        let n = self.children@.len() as int;
        let c = x.key_char;
        assert forall|i: int| 0 <= i < n implies (#[trigger] post.children@[i])
            == self.children@[i] by {}
        assert forall|i: int| 0 <= i < n implies (#[trigger] self.children@[i]).key_char != c by {
            if self.children@[i].key_char == c {
                assert(self.spec_has_child(c));
            }
        }
        assert(post.children@[n] == x);
        assert(post.wf());
        post.lemma_child_at(n);
        assert forall|d: char| d != c implies post.spec_has_child(d) == self.spec_has_child(d) by {
            if post.spec_has_child(d) {
                let i = choose|i: int|
                    0 <= i < post.children@.len() && (#[trigger] post.children@[i]).key_char == d;
                assert(self.children@[i].key_char == d);
            }
            if self.spec_has_child(d) {
                let i = choose|i: int|
                    0 <= i < self.children@.len() && (#[trigger] self.children@[i]).key_char == d;
                assert(post.children@[i].key_char == d);
            }
        }
        assert forall|d: char| d != c && post.spec_has_child(d) implies post.spec_child(d)
            == self.spec_child(d) by {
            let i = choose|i: int|
                0 <= i < post.children@.len() && (#[trigger] post.children@[i]).key_char == d;
            post.lemma_child_at(i);
            self.lemma_child_at(i);
        }
        assert(post.spec_children() =~= self.spec_children().insert(c, x));
    }

    /// [`TrieNode::lemma_push_child`], quantified over the appended child so
    /// that it can discharge postconditions about values a caller will only
    /// determine later through a returned handle.
    proof fn lemma_push_child_all(self, c: char)
        requires
            self.wf(),
            !self.spec_has_child(c),
        ensures
            forall|post: TrieNode<T>, x: TrieNode<T>|
                #![trigger post.wf(), x.wf()]
                (post.key_char == self.key_char && post.value == self.value && post.children@
                    == self.children@.push(x) && x.key_char == c && x.wf()) ==> (post.wf()
                    && post.spec_children() == self.spec_children().insert(c, x)),
    {
        assert forall|post: TrieNode<T>, x: TrieNode<T>|
            (post.key_char == self.key_char && post.value == self.value && post.children@
                == self.children@.push(x) && x.key_char == c && x.wf()) implies (post.wf()
            && post.spec_children() == self.spec_children().insert(c, x)) by {
            self.lemma_push_child(post, x);
        }
    }

    /// Detaches and returns the child labelled `key_char`, if present; the
    /// node's other children and the removed subtree are untouched.
    pub fn remove_child_node(&mut self, key_char: char) -> (r: Option<TrieNode<T>>)
        requires
            old(self).wf(),
        ensures
            final(self).wf(),
            final(self).spec_key_char() == old(self).spec_key_char(),
            final(self).spec_value() == old(self).spec_value(),
            final(self).spec_children() == old(self).spec_children().remove(key_char),
            r == (if old(self).spec_has_child(key_char) {
                Some(old(self).spec_child(key_char))
            } else {
                None::<TrieNode<T>>
            }),
    {
        match self.find_child(key_char) {
            Some(j) => {
                proof {
                    self.lemma_child_at(j as int);
                }
                let child = self.children.remove(j);
                proof {
                    old(self).lemma_remove_child(*self, j as int);
                }
                Some(child)
            },
            None => {
                proof {
                    assert(final(self).spec_children() =~= old(self).spec_children().remove(
                        key_char));
                }
                None
            },
        }
    }

    /// After removing position `j` from a well-formed node's child vector,
    /// the node is still well-formed and its children map has lost exactly
    /// the label that stood at `j`.
    proof fn lemma_remove_child(self, post: TrieNode<T>, j: int)
        requires
            self.wf(),
            0 <= j < self.children@.len(),
            post.key_char == self.key_char,
            post.value == self.value,
            post.children@ == self.children@.remove(j),
        ensures
            post.wf(),
            post.spec_children() == self.spec_children().remove(self.children@[j].key_char),
    {
        let c = self.children@[j].key_char;
        assert forall|i: int| 0 <= i < post.children@.len() implies (#[trigger] post.children@[i])
            == self.children@[if i < j { i } else { i + 1 }] by {}
        assert(post.wf());
        assert forall|d: char| post.spec_has_child(d) implies d != c && self.spec_has_child(d)
            && post.spec_child(d) == self.spec_child(d) by {
            let i = choose|i: int|
                0 <= i < post.children@.len() && (#[trigger] post.children@[i]).key_char == d;
            let i0: int = if i < j { i } else { i + 1 };
            assert(self.children@[i0] == post.children@[i]);
            self.lemma_child_at(i0);
            post.lemma_child_at(i);
        }
        assert forall|d: char| d != c && self.spec_has_child(d) implies post.spec_has_child(
            d) by {
            let i0 = choose|i: int|
                0 <= i < self.children@.len() && (#[trigger] self.children@[i]).key_char == d;
            let i: int = if i0 < j { i0 } else { i0 - 1 };
            assert(post.children@[i] == self.children@[i0]);
        }
        assert(post.spec_children() =~= self.spec_children().remove(c));
    }

    /// How rebinding one label in the children map shows through
    /// [`TrieNode::spec_get`]: paths entering the rebound child follow the
    /// new child, every other path is undisturbed.
    proof fn lemma_insert_child_get(self, post: TrieNode<T>, c: char, x: TrieNode<T>)
        requires
            post.value == self.value,
            post.spec_children() == self.spec_children().insert(c, x),
        ensures
            forall|k: Seq<char>|
                #[trigger] post.spec_get(k) == (if k.len() > 0 && k[0] == c {
                    x.spec_get(k.skip(1))
                } else {
                    self.spec_get(k)
                }),
    {
        assert forall|k: Seq<char>| #[trigger] post.spec_get(k) == (if k.len() > 0 && k[0] == c {
            x.spec_get(k.skip(1))
        } else {
            self.spec_get(k)
        }) by {
            if k.len() > 0 {
                let d = k[0];
                assert(post.spec_has_child(d) == post.spec_children().dom().contains(d));
                assert(self.spec_has_child(d) == self.spec_children().dom().contains(d));
                if d == c {
                    assert(post.spec_child(c) == post.spec_children()[c]);
                } else {
                    if post.spec_has_child(d) {
                        assert(post.spec_child(d) == post.spec_children()[d]);
                        assert(self.spec_child(d) == self.spec_children()[d]);
                    }
                }
            }
        }
    }

    /// Two nodes with the same children map agree on every non-empty path.
    proof fn lemma_same_children_get(a: TrieNode<T>, b: TrieNode<T>)
        requires
            a.spec_children() == b.spec_children(),
        ensures
            forall|k: Seq<char>| k.len() > 0 ==> #[trigger] a.spec_get(k) == b.spec_get(k),
    {
        assert forall|k: Seq<char>| k.len() > 0 implies #[trigger] a.spec_get(k) == b.spec_get(
            k) by {
            let d = k[0];
            assert(a.spec_has_child(d) == a.spec_children().dom().contains(d));
            assert(b.spec_has_child(d) == b.spec_children().dom().contains(d));
            if a.spec_has_child(d) {
                assert(a.spec_child(d) == a.spec_children()[d]);
                assert(b.spec_child(d) == b.spec_children()[d]);
            }
        }
    }

    /// Walks the path `key[i..]` below this node, creating missing nodes on
    /// the way, and stores `value` on the node the path ends on — unless
    /// that node already carries a value, in which case nothing is stored
    /// and the walk's structural side effects are kept (nodes created
    /// before the duplicate was detected are not rolled back; they carry no
    /// values, so every lookup still answers as before).
    pub(crate) fn insert_descend(&mut self, key: &Vec<char>, i: usize, value: T) -> (r: bool)
        requires
            old(self).wf(),
            i < key@.len(),
        ensures
            final(self).wf(),
            final(self).spec_key_char() == old(self).spec_key_char(),
            final(self).spec_value() == old(self).spec_value(),
            r <==> old(self).spec_get(key@.skip(i as int)) is None,
            r ==> forall|k: Seq<char>|
                #[trigger] final(self).spec_get(k) == (if k == key@.skip(i as int) {
                    Some(value)
                } else {
                    old(self).spec_get(k)
                }),
            !r ==> forall|k: Seq<char>| #[trigger] final(self).spec_get(k) == old(self).spec_get(
                k),
        decreases key@.len() - i,
    {
        let n = key.len();
        let c = key[i];
        let r: bool;
        if i + 1 == n {
            match self.get_child_node(c) {
                Some(child) => {
                    if child.get_value().is_some() {
                        r = false;
                    } else {
                        child.set_value(value);
                        r = true;
                    }
                },
                None => {
                    self.insert_child_node(c, TrieNode::new(c, Some(value)));
                    r = true;
                },
            }
        } else {
            match self.get_child_node(c) {
                Some(child) => {
                    r = child.insert_descend(key, i + 1, value);
                },
                None => {
                    let mut node = TrieNode::new(c, None);
                    let ghost fresh = node;
                    r = node.insert_descend(key, i + 1, value);
                    let ghost grown = node;
                    self.insert_child_node(c, node);
                    proof {
                        let pre = *old(self);
                        let post = *self;
                        let cg = key@[i as int];
                        let suffix = key@.skip(i as int);
                        let deeper = key@.skip(i as int + 1);
                        assert(suffix[0] == cg);
                        assert(suffix.skip(1) =~= deeper);
                        assert(fresh.spec_children() == Map::<char, TrieNode<T>>::empty());
                        assert(forall|d: char|
                            (#[trigger] fresh.spec_has_child(d)) == fresh.spec_children(
                            ).dom().contains(d));
                        assert(deeper.len() > 0);
                        assert(fresh.spec_get(deeper) is None);
                        assert(r);
                        assert(pre.spec_has_child(cg) == pre.spec_children().dom().contains(cg));
                        assert(pre.spec_get(suffix) is None);
                        assert(grown.spec_key_char() == cg && grown.wf());
                        assert(post.spec_children() == pre.spec_children().insert(cg, grown));
                        pre.lemma_insert_child_get(post, cg, grown);
                        assert forall|k: Seq<char>|
                            #![trigger k.skip(1)]
                            k.len() > 0 && k[0] == cg && k.skip(1) == suffix.skip(1) implies k
                            == suffix by {
                            assert forall|m: int| 0 <= m < k.len() implies k[m] == suffix[m] by {
                                if m > 0 {
                                    assert(k.skip(1)[m - 1] == suffix.skip(1)[m - 1]);
                                }
                            }
                            assert(k =~= suffix);
                        }
                        assert forall|k: Seq<char>| #[trigger] post.spec_get(k) == (if k
                            == suffix {
                            Some(value)
                        } else {
                            pre.spec_get(k)
                        }) by {
                            if k.len() > 0 && k[0] == cg {
                                assert(post.spec_get(k) == grown.spec_get(k.skip(1)));
                                assert(grown.spec_get(k.skip(1)) == (if k.skip(1) == deeper {
                                    Some(value)
                                } else {
                                    fresh.spec_get(k.skip(1))
                                }));
                                if k.skip(1) == deeper {
                                    assert(k == suffix);
                                } else if k.skip(1).len() == 0 {
                                    assert(fresh.spec_get(k.skip(1)) == fresh.spec_value());
                                } else {
                                    assert(fresh.spec_get(k.skip(1)) is None);
                                }
                            }
                        }
                    }
                },
            }
        }
        proof {
            let pre = *old(self);
            let post = *self;
            let cg = key@[i as int];
            let suffix = key@.skip(i as int);
            assert(suffix.len() == key@.len() - i);
            assert(suffix[0] == cg);
            assert(suffix.skip(1) =~= key@.skip(i as int + 1));
            if pre.spec_has_child(cg) {
                assert(pre.spec_child(cg).key_char == cg);
                assert(pre.spec_get(suffix) == pre.spec_child(cg).spec_get(suffix.skip(1)));
            }
            assert(post.spec_children().dom().contains(cg));
            let x = post.spec_children()[cg];
            assert(post.spec_children() == pre.spec_children().insert(cg, x));
            pre.lemma_insert_child_get(post, cg, x);
            assert forall|k: Seq<char>|
                #![trigger k.skip(1)]
                k.len() > 0 && k[0] == cg && k.skip(1) == suffix.skip(1) implies k == suffix by {
                assert forall|m: int| 0 <= m < k.len() implies k[m] == suffix[m] by {
                    if m > 0 {
                        assert(k.skip(1)[m - 1] == suffix.skip(1)[m - 1]);
                    }
                }
                assert(k =~= suffix);
            }
            if i + 1 == key@.len() {
                assert(suffix.skip(1).len() == 0);
                if pre.spec_has_child(cg) {
                    let pc = pre.spec_child(cg);
                    assert(pre.spec_get(suffix) == pc.value);
                    if pc.value is Some {
                        assert(!r);
                        assert(x == pc);
                        assert forall|k: Seq<char>| #[trigger] post.spec_get(k)
                            == pre.spec_get(k) by {
                            if k.len() > 0 && k[0] == cg {
                                assert(pre.spec_get(k) == pc.spec_get(k.skip(1)));
                            }
                        }
                    } else {
                        assert(r);
                        assert(x.value == Some(value));
                        assert(x.spec_children() == pc.spec_children());
                        TrieNode::lemma_same_children_get(x, pc);
                        assert forall|k: Seq<char>| #[trigger] post.spec_get(k) == (if k
                            == suffix {
                            Some(value)
                        } else {
                            pre.spec_get(k)
                        }) by {
                            if k.len() > 0 && k[0] == cg {
                                assert(pre.spec_get(k) == pc.spec_get(k.skip(1)));
                                if k == suffix {
                                    assert(k.skip(1).len() == 0);
                                } else {
                                    if k.skip(1).len() == 0 {
                                        assert(k.skip(1) =~= suffix.skip(1));
                                    }
                                    assert(k.skip(1).len() > 0);
                                }
                            }
                        }
                    }
                } else {
                    assert(r);
                    assert(pre.spec_get(suffix) is None);
                    assert(x.value == Some(value));
                    assert(forall|d: char| !(#[trigger] x.spec_children().dom().contains(d)));
                    assert forall|k: Seq<char>| #[trigger] post.spec_get(k) == (if k == suffix {
                        Some(value)
                    } else {
                        pre.spec_get(k)
                    }) by {
                        if k.len() > 0 && k[0] == cg && k != suffix {
                            if k.skip(1).len() == 0 {
                                assert(k.skip(1) =~= suffix.skip(1));
                            }
                            assert(k.skip(1).len() > 0);
                            assert(x.spec_has_child(k.skip(1)[0]) == x.spec_children(
                            ).dom().contains(k.skip(1)[0]));
                        }
                    }
                }
            } else {
                let deeper = key@.skip(i as int + 1);
                assert(deeper.len() > 0);
                if pre.spec_has_child(cg) {
                    let pc = pre.spec_child(cg);
                    assert(r <==> pc.spec_get(deeper) is None);
                    if r {
                        assert forall|k: Seq<char>| #[trigger] post.spec_get(k) == (if k
                            == suffix {
                            Some(value)
                        } else {
                            pre.spec_get(k)
                        }) by {
                            if k.len() > 0 && k[0] == cg {
                                assert(pre.spec_get(k) == pc.spec_get(k.skip(1)));
                                assert(post.spec_get(k) == x.spec_get(k.skip(1)));
                                assert(x.spec_get(k.skip(1)) == (if k.skip(1) == deeper {
                                    Some(value)
                                } else {
                                    pc.spec_get(k.skip(1))
                                }));
                                if k != suffix && k.skip(1) == deeper {
                                    assert(k.skip(1) == suffix.skip(1));
                                    assert(false);
                                }
                            }
                        }
                    } else {
                        assert forall|k: Seq<char>| #[trigger] post.spec_get(k)
                            == pre.spec_get(k) by {
                            if k.len() > 0 && k[0] == cg {
                                assert(pre.spec_get(k) == pc.spec_get(k.skip(1)));
                            }
                        }
                    }
                }
            }
        }
        r
    }

    /// Walks the path `key[i..]` below this node by shared references and
    /// returns the value at its end, if the path exists and a value is set.
    pub(crate) fn get_descend(&self, key: &Vec<char>, i: usize) -> (r: Option<&T>)
        requires
            self.wf(),
            i <= key@.len(),
        ensures
            match r {
                Some(v) => self.spec_get(key@.skip(i as int)) == Some(*v),
                None => self.spec_get(key@.skip(i as int)) is None,
            },
        decreases key@.len() - i,
    {
        proof {
            assert(key@.skip(i as int).len() == key@.len() - i);
        }
        if i == key.len() {
            self.value.as_ref()
        } else {
            let c = key[i];
            match self.find_child(c) {
                Some(j) => {
                    proof {
                        self.lemma_child_at(j as int);
                        assert(key@.skip(i as int).skip(1) =~= key@.skip(i + 1));
                        assert(key@.skip(i as int)[0] == key@[i as int]);
                    }
                    self.children[j].get_descend(key, i + 1)
                },
                None => {
                    proof {
                        assert(key@.skip(i as int)[0] == key@[i as int]);
                    }
                    None
                },
            }
        }
    }
}

/// Two nodes with the same child vector have the same children map and are
/// equally well-formed.
proof fn lemma_same_children<T>(a: TrieNode<T>, b: TrieNode<T>)
    requires
        a.children@ == b.children@,
    ensures
        a.spec_children() == b.spec_children(),
        a.wf() == b.wf(),
{
    assert forall|c: char| a.spec_has_child(c) == b.spec_has_child(c) by {}
    assert(a.spec_children() =~= b.spec_children());
}

} // verus!
