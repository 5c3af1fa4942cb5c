//! The prefix tree that stores the keywords.
use std::collections::HashMap;
use vstd::prelude::*;

verus! {

/// One prefix position of the keyword set: the edges to the longer prefixes,
/// each labelled by one character, and the keyword that ends here, if any.
///
/// The edges are keyed by the character's scalar value: vstd describes what a
/// hash map does for keys that are integers.
pub struct TreeNode {
    children: HashMap<u32, TreeNode>,
    value: Option<String>,
}

/// The key under which the edge labelled `c` is stored.
fn code(c: char) -> (key: u32)
    ensures
        key == c as u32,
{
    c as u32
}

/// Distinct characters have distinct keys.
proof fn lemma_code_is_injective(c: char, d: char)
    ensures
        c as u32 == d as u32 ==> c == d,
{
}

impl TreeNode {
    /// The node at the end of the edge labelled `c`, if there is such an edge.
    pub closed spec fn child(self, c: char) -> Option<TreeNode> {
        if self.children@.contains_key(c as u32) {
            Some(self.children@[c as u32])
        } else {
            None
        }
    }

    /// The keyword stored at this node, if one ends here.
    pub closed spec fn terminal_value(self) -> Option<Seq<char>> {
        match self.value {
            Some(keyword) => Some(keyword@),
            None => None,
        }
    }

    /// The node reached from this one by following `path`, one edge per
    /// character; `None` once an edge is missing.
    pub open spec fn descend(self, path: Seq<char>) -> Option<TreeNode>
        decreases path.len(),
    {
        if path.len() == 0 {
            Some(self)
        } else {
            match self.child(path[0]) {
                Some(next) => next.descend(path.drop_first()),
                None => None,
            }
        }
    }

    /// The keyword stored at the end of `path`, if the path exists and a
    /// keyword ends there.
    pub open spec fn terminal(self, path: Seq<char>) -> Option<Seq<char>> {
        match self.descend(path) {
            Some(node) => node.terminal_value(),
            None => None,
        }
    }

    /// Whether the tree under this node has a node at the end of `path`.
    pub open spec fn has_node(self, path: Seq<char>) -> bool {
        self.descend(path) is Some
    }

    /// A node without edges and without a keyword.
    pub open spec fn is_leaf(self) -> bool {
        &&& self.terminal_value() is None
        &&& forall|c: char| self.child(c) is None
    }

    /// What the tree under this node holds at the end of `path`: `None` where
    /// it has no node there, else what that node stores.
    spec fn slot(self, path: Seq<char>) -> Option<Option<Seq<char>>> {
        match self.descend(path) {
            Some(node) => Some(node.terminal_value()),
            None => None,
        }
    }

    /// A node that has neither edges nor a keyword is the only node of its
    /// tree, and the tree stores no keyword.
    pub proof fn lemma_leaf_is_alone(self, path: Seq<char>)
        requires
            self.is_leaf(),
        ensures
            self.terminal(path) is None,
            self.has_node(path) <==> path.len() == 0,
    {
    }

    /// Following `path` and one more edge is following `path` extended by that
    /// edge's character.
    pub proof fn lemma_descend_push(self, path: Seq<char>, c: char)
        ensures
            self.descend(path.push(c)) == match self.descend(path) {
                Some(node) => node.child(c),
                None => None,
            },
        decreases path.len(),
    {
        let longer = path.push(c);
        if path.len() == 0 {
            if let Some(next) = self.child(c) {
                assert(next.descend(longer.drop_first()) == Some(next));
            }
        } else {
            assert(longer.drop_first() =~= path.drop_first().push(c));
            if let Some(next) = self.child(path[0]) {
                next.lemma_descend_push(path.drop_first(), c);
            }
        }
    }

    /// An empty node: no children, no keyword.
    pub fn new() -> (node: Self)
        ensures
            node.is_leaf(),
    {
        TreeNode { children: HashMap::new(), value: None }
    }

    /// The child at the end of the edge labelled `c`.
    pub(crate) fn get(&self, c: char) -> (next: Option<&TreeNode>)
        ensures
            match next {
                Some(node) => self.child(c) == Some(*node),
                None => self.child(c) is None,
            },
    {
        let key: u32 = code(c);
        self.children.get(&key)
    }

    /// The keyword that ends at this node.
    pub(crate) fn keyword(&self) -> (keyword: Option<&String>)
        ensures
            match keyword {
                Some(stored) => self.terminal_value() == Some(stored@),
                None => self.terminal_value() is None,
            },
    {
        self.value.as_ref()
    }

    /// Stores `keyword` at the end of the path that its own characters spell,
    /// adding the nodes that the path still lacks: one for each prefix of the
    /// keyword that had none. Every other path keeps what it held.
    pub(crate) fn insert(&mut self, keyword: String)
        ensures
            forall|path: Seq<char>|
                #[trigger] final(self).terminal(path) == if path == keyword@ {
                    Some(keyword@)
                } else {
                    old(self).terminal(path)
                },
            forall|path: Seq<char>|
                #[trigger] final(self).has_node(path) == (old(self).has_node(path)
                    || path.is_prefix_of(keyword@)),
    {
        let ghost before = *self;
        let ghost after = *final(self);
        let mut current_node = &mut *self;
        proof {
            // Before the first character the prefix is empty.
            assert forall|path: Seq<char>| path.skip(0) == path by {}
            assert forall|rest: Seq<char>| keyword@.take(0) + rest == rest by {}
        }
        let chars = keyword.as_str().chars();
        // `current_node` has followed the characters read so far, the prefix.
        // What the tree will hold below the prefix is what `current_node` will
        // hold; along the prefix it will have nodes that store what was stored
        // there before; elsewhere it will hold what it held before.
        for c in it: chars
            invariant
                it.seq() == keyword@,
                forall|path: Seq<char>|
                    #[trigger] after.slot(path) == if keyword@.take(it.index()).is_prefix_of(
                        path,
                    ) {
                        final(current_node).slot(path.skip(it.index()))
                    } else if path.is_prefix_of(keyword@.take(it.index())) {
                        Some(before.terminal(path))
                    } else {
                        before.slot(path)
                    },
                forall|rest: Seq<char>|
                    #[trigger] current_node.slot(rest) == if rest.len() == 0 {
                        Some(before.terminal(keyword@.take(it.index())))
                    } else {
                        before.slot(keyword@.take(it.index()) + rest)
                    },
        {
            let ghost here = *current_node;
            let ghost here_after = *final(current_node);
            let key: u32 = code(c);
            current_node = current_node.children.entry(key).or_insert(TreeNode::new());
            proof {
                let i: int = it.index();
                let prefix = keyword@.take(i);
                let longer = keyword@.take(i + 1);
                let below = *current_node;
                let below_after = *final(current_node);
                // One step down: the node left behind will differ from what it
                // is now only below the edge labelled `c`.
                assert forall|rest: Seq<char>|
                    #[trigger] here_after.slot(rest) == if rest.len() > 0 && rest[0] == c {
                        below_after.slot(rest.drop_first())
                    } else {
                        here.slot(rest)
                    } by {
                    if rest.len() > 0 && rest[0] != c {
                        lemma_code_is_injective(rest[0], c);
                    }
                }
                // The first invariant, for the prefix that is one character
                // longer.
                assert forall|path: Seq<char>|
                    #[trigger] after.slot(path) == if longer.is_prefix_of(path) {
                        below_after.slot(path.skip(i + 1))
                    } else if path.is_prefix_of(longer) {
                        Some(before.terminal(path))
                    } else {
                        before.slot(path)
                    } by {
                    if prefix.is_prefix_of(path) {
                        let rest = path.skip(i);
                        assert(path =~= prefix + rest);
                        if rest.len() > 0 {
                            assert(rest.drop_first() =~= path.skip(i + 1));
                        }
                        if longer.is_prefix_of(path) {
                            assert(path[i] == longer[i]);
                        }
                    }
                }
                // The second: the node stepped into is the one that was there
                // before, or a new one where there was none.
                assert forall|rest: Seq<char>|
                    #[trigger] below.slot(rest) == if rest.len() == 0 {
                        Some(before.terminal(longer))
                    } else {
                        before.slot(longer + rest)
                    } by {
                    let tail = seq![c] + rest;
                    assert(longer + rest =~= prefix + tail);
                    assert(tail.drop_first() =~= rest);
                    assert(here.slot(tail) == before.slot(prefix + tail));
                    if here.child(c) is None {
                        below.lemma_leaf_is_alone(rest);
                    }
                }
            }
        }
        let ghost last = *current_node;
        current_node.value = Some(keyword);
        proof {
            let whole = keyword@;
            // The whole keyword is read: the node reached takes the keyword and
            // keeps its edges.
            assert forall|path: Seq<char>| #[trigger]
                after.slot(path) == if path == whole {
                    Some(Some(whole))
                } else if path.is_prefix_of(whole) {
                    Some(before.terminal(path))
                } else {
                    before.slot(path)
                } by {
                if whole.is_prefix_of(path) {
                    let rest = path.skip(whole.len() as int);
                    assert(path =~= whole + rest);
                    if rest.len() > 0 {
                        assert(last.slot(rest) == before.slot(whole + rest));
                    }
                }
            }
            assert forall|path: Seq<char>|
                #[trigger] after.terminal(path) == if path == whole {
                    Some(whole)
                } else {
                    before.terminal(path)
                } by {
                assert(after.slot(path) is Some ==> after.terminal(path) == after.slot(path)->0);
            }
            assert forall|path: Seq<char>|
                #[trigger] after.has_node(path) == (before.has_node(path) || path.is_prefix_of(
                    whole,
                )) by {
                assert(after.has_node(path) == after.slot(path) is Some);
            }
        }
    }
}

} // verus!
