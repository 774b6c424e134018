//! The trie container: one root node, whole-key insertion and lookup.

use crate::node::TrieNode;
use vstd::prelude::*;
use vstd::std_specs::iter::IteratorSpec;

verus! {

broadcast use {vstd::string::axiom_spec_iter, vstd::string::next_postcondition};

/// A prefix tree mapping non-empty string keys to values of type `T`.
///
/// The root node's label is a reserved sentinel that never takes part in a
/// key; the root never carries a value, because the empty key is rejected.
pub struct Trie<T> {
    root: TrieNode<T>,
}

impl<T> Trie<T> {
    /// Well-formed: the underlying tree reaches at most one child per
    /// character from each node.
    pub closed spec fn wf(self) -> bool {
        self.root.wf()
    }

    /// The value stored under `key`; the empty key never holds a value.
    pub closed spec fn spec_get(self, key: Seq<char>) -> Option<T> {
        if key.len() == 0 {
            None
        } else {
            self.root.spec_get(key)
        }
    }

    /// Creates an empty trie: a valueless, childless root carrying the
    /// sentinel label.
    pub fn new() -> (t: Trie<T>)
        ensures
            t.wf(),
            forall|k: Seq<char>| #[trigger] t.spec_get(k) is None,
    {
        Trie { root: TrieNode::new('\0', None) }
    }

    /// Inserts `value` under `key`.
    ///
    /// Fails, returning `false`, when `key` is empty or when a value is
    /// already stored under `key`; succeeds, returning `true`, otherwise.
    /// On success exactly the one binding for `key` is added; no other
    /// key's answer changes.  On failure no key's answer changes, and an
    /// empty key leaves the trie untouched altogether.  A duplicate key
    /// may still leave behind valueless intermediate nodes created while
    /// walking toward the point where the duplicate was detected; they are
    /// invisible to lookups.
    pub fn insert(&mut self, key: &str, value: T) -> (r: bool)
        requires
            old(self).wf(),
        ensures
            final(self).wf(),
            r <==> (key@.len() > 0 && old(self).spec_get(key@) is None),
            r ==> forall|k: Seq<char>|
                #[trigger] final(self).spec_get(k) == (if k == key@ {
                    Some(value)
                } else {
                    old(self).spec_get(k)
                }),
            !r ==> forall|k: Seq<char>| #[trigger] final(self).spec_get(k) == old(self).spec_get(
                k),
            key@.len() == 0 ==> *final(self) == *old(self),
    {
        if key.is_empty() {
            return false;
        }
        let chars = chars_of(key);
        let r = self.root.insert_descend(&chars, 0, value);
        proof {
            assert(key@.skip(0) =~= key@);
        }
        r
    }

    /// Looks up the value stored under `key`: `None` for the empty key, a
    /// key whose path is missing, or a path that ends on a valueless
    /// intermediate node.
    pub fn get_value(&self, key: &str) -> (r: Option<&T>)
        requires
            self.wf(),
        ensures
            match r {
                Some(v) => self.spec_get(key@) == Some(*v),
                None => self.spec_get(key@) is None,
            },
    {
        if key.is_empty() {
            return None;
        }
        let chars = chars_of(key);
        let r = self.root.get_descend(&chars, 0);
        proof {
            assert(key@.skip(0) =~= key@);
        }
        r
    }
}

/// The characters of `s`, in order, as a vector.
fn chars_of(s: &str) -> (v: Vec<char>)
    ensures
        v@ == s@,
{
    let mut it = s.chars();
    let mut v: Vec<char> = Vec::new();
    proof {
        assert(v@ + it.remaining() =~= s@);
    }
    loop
        invariant
            v@ + it.remaining() == s@,
            it.decrease() is Some,
        ensures
            it.remaining().len() == 0,
        decreases it.decrease()->0,
    {
        match it.next() {
            Some(c) => {
                v.push(c);
                proof {
                    assert(v@ + it.remaining() =~= s@);
                }
            },
            None => {
                break;
            },
        }
    }
    proof {
        assert(v@ =~= v@ + it.remaining());
    }
    v
}

} // verus!
