//! The rule index: a prefix tree keyed by character.
//!
//! Nodes live in one vector and refer to their children by position. Node 0
//! is the root. A node carries an output exactly when the characters on the
//! way from the root to it spell the input of a rule.

use crate::matching::{can_grow, is_candidate, Rules};
use std::collections::HashMap;
use vstd::prelude::*;

verus! {

/// One node of the tree. Children are keyed by the character's code point.
struct TrieNode {
    output: Option<String>,
    children: HashMap<u32, usize>,
}

/// The key under which a node files its child for the character `c`.
spec fn code(c: char) -> u32 {
    c as u32
}

/// Distinct characters have distinct keys.
proof fn lemma_code_injective(a: char, b: char)
    requires
        code(a) == code(b),
    ensures
        a == b,
{
}

/// What the proofs record about a node: the characters that lead to it, the
/// node above it, and one rule input that passes through it.
struct NodeShape {
    path: Seq<char>,
    parent: int,
    below: Seq<char>,
}

/// A prefix tree over the inputs of a rule set.
pub struct SubstitutionTrie {
    nodes: Vec<TrieNode>,
    shape: Ghost<Seq<NodeShape>>,
    index: Ghost<Map<Seq<char>, int>>,
    rules: Ghost<Rules>,
}

impl View for SubstitutionTrie {
    type V = Rules;

    /// The rule set that the tree holds.
    closed spec fn view(&self) -> Rules {
        self.rules@
    }
}

impl SubstitutionTrie {
    /// `node` names a node of this tree.
    pub closed spec fn is_node(&self, node: usize) -> bool {
        node < self.nodes@.len()
    }

    /// The characters on the way from the root to `node`.
    pub closed spec fn path_of(&self, node: usize) -> Seq<char> {
        self.shape@[node as int].path
    }

    /// The edge with the key `k` out of node `i` leads to a node below the
    /// root that names `i` as the node above it and ends in the character of
    /// the key.
    spec fn edge_ok(&self, i: int, k: u32) -> bool {
        let j = self.nodes@[i].children@[k] as int;
        &&& 0 < j < self.nodes@.len()
        &&& self.shape@[j].parent == i
        &&& self.shape@[j].path.len() > 0
        &&& code(self.shape@[j].path.last()) == k
    }

    /// Node `j` is where the index of paths says it is, carries the output of
    /// the rule for its path and no other, and, below the root, hangs on the
    /// edge for its last character under the node for the rest of its path,
    /// on the way to an input in `keys`.
    spec fn node_ok(&self, j: int, keys: Set<Seq<char>>) -> bool {
        let s = self.shape@[j];
        &&& self.index@.dom().contains(s.path)
        &&& self.index@[s.path] == j
        &&& match self.nodes@[j].output {
            Some(o) => self.rules@.dom().contains(s.path) && self.rules@[s.path] == o@,
            None => !self.rules@.dom().contains(s.path),
        }
        &&& j == 0 ==> s.path.len() == 0
        &&& j > 0 ==> {
            &&& s.path.len() > 0
            &&& 0 <= s.parent < self.nodes@.len()
            &&& self.shape@[s.parent].path == s.path.drop_last()
            &&& self.nodes@[s.parent].children@.contains_key(code(s.path.last()))
            &&& self.nodes@[s.parent].children@[code(s.path.last())] == j
            &&& s.path.is_prefix_of(s.below)
            &&& keys.contains(s.below)
        }
    }

    /// The tree is well formed when every node below the root lies on the way
    /// to an input in `keys`; `keys` is the rule set's domain except while a
    /// rule is being added.
    spec fn inv(&self, keys: Set<Seq<char>>) -> bool {
        &&& self.nodes@.len() == self.shape@.len()
        &&& self.nodes@.len() >= 1
        &&& self.nodes@[0].output is None
        &&& forall|i: int, k: u32|
            0 <= i < self.nodes@.len() && #[trigger] self.nodes@[i].children@.contains_key(k)
                ==> self.edge_ok(i, k)
        &&& forall|j: int| 0 <= j < self.nodes@.len() ==> #[trigger] self.node_ok(j, keys)
        &&& forall|p: Seq<char>| #[trigger]
            self.index@.dom().contains(p) ==> 0 <= self.index@[p] < self.nodes@.len()
                && self.shape@[self.index@[p]].path == p
        &&& forall|k: Seq<char>| #[trigger]
            self.rules@.dom().contains(k) ==> self.index@.dom().contains(k)
    }

    /// The invariant of the tree.
    pub closed spec fn wf(&self) -> bool {
        self.inv(self.rules@.dom())
    }

    /// Every prefix of a node's path is the path of a node.
    proof fn lemma_prefixes_are_nodes(&self, keys: Set<Seq<char>>, j: int, n: int)
        requires
            self.inv(keys),
            0 <= j < self.nodes@.len(),
            0 <= n <= self.shape@[j].path.len(),
        ensures
            self.index@.dom().contains(self.shape@[j].path.take(n)),
        decreases self.shape@[j].path.len(),
    {
        let path = self.shape@[j].path;
        assert(self.node_ok(j, keys));
        if n == path.len() {
            assert(path.take(n) =~= path);
        } else {
            let up = self.shape@[j].parent;
            assert(self.node_ok(up, keys));
            self.lemma_prefixes_are_nodes(keys, up, n);
            assert(path.drop_last().take(n) =~= path.take(n));
        }
    }

    /// A candidate of the rule set is the path of a node below the root.
    proof fn lemma_candidate_is_node(&self, p: Seq<char>)
        requires
            self.wf(),
            is_candidate(self@, p),
        ensures
            self.index@.dom().contains(p),
            0 < self.index@[p] < self.nodes@.len(),
            self.shape@[self.index@[p]].path == p,
    {
        let k = choose|k: Seq<char>| #[trigger] self@.dom().contains(k) && p.is_prefix_of(k);
        let j = self.index@[k];
        self.lemma_prefixes_are_nodes(self.rules@.dom(), j, p.len() as int);
        assert(k.take(p.len() as int) =~= p);
        assert(self.node_ok(0, self.rules@.dom()));
    }

    /// The path of a node below the root is a candidate of the rule set.
    proof fn lemma_node_is_candidate(&self, j: int)
        requires
            self.wf(),
            0 < j < self.nodes@.len(),
        ensures
            is_candidate(self@, self.shape@[j].path),
    {
        assert(self.node_ok(j, self.rules@.dom()));
        assert(self@.dom().contains(self.shape@[j].below));
    }

    /// A node has the child `c` exactly when its path followed by `c` is a
    /// candidate.
    proof fn lemma_child_iff_candidate(&self, i: int, c: char)
        requires
            self.wf(),
            0 <= i < self.nodes@.len(),
        ensures
            self.nodes@[i].children@.contains_key(code(c)) <==> is_candidate(
                self@,
                self.shape@[i].path.push(c),
            ),
            self.nodes@[i].children@.contains_key(code(c)) ==> {
                let j = self.nodes@[i].children@[code(c)] as int;
                self.shape@[j].path == self.shape@[i].path.push(c)
            },
    {
        let keys = self.rules@.dom();
        let path = self.shape@[i].path;
        let q = path.push(c);
        assert(self.node_ok(i, keys));
        if self.nodes@[i].children@.contains_key(code(c)) {
            let j = self.nodes@[i].children@[code(c)] as int;
            assert(self.edge_ok(i, code(c)));
            assert(self.node_ok(j, keys));
            lemma_code_injective(self.shape@[j].path.last(), c);
            assert(self.shape@[j].path =~= q);
            self.lemma_node_is_candidate(j);
        }
        if is_candidate(self@, q) {
            self.lemma_candidate_is_node(q);
            let j = self.index@[q];
            assert(self.node_ok(j, keys));
            assert(self.node_ok(self.shape@[j].parent, keys));
            assert(q.drop_last() =~= path);
            assert(q.last() == c);
        }
    }

    /// An empty tree: no rules, only the root.
    pub fn new() -> (trie: SubstitutionTrie)
        ensures
            trie.wf(),
            trie@ == Rules::empty(),
    {
        let mut nodes: Vec<TrieNode> = Vec::new();
        nodes.push(TrieNode { output: None, children: HashMap::new() });
        let ghost root = NodeShape { path: Seq::empty(), parent: 0, below: Seq::empty() };
        let trie = SubstitutionTrie {
            nodes,
            shape: Ghost(Seq::empty().push(root)),
            index: Ghost(Map::empty().insert(Seq::empty(), 0int)),
            rules: Ghost(Map::empty()),
        };
        proof {
            assert(trie.node_ok(0, trie.rules@.dom()));
        }
        trie
    }

    /// The root, whose path is empty.
    pub fn root(&self) -> (node: usize)
        requires
            self.wf(),
        ensures
            self.is_node(node),
            self.path_of(node) == Seq::<char>::empty(),
    {
        proof {
            assert(self.node_ok(0, self.rules@.dom()));
            assert(self.shape@[0].path =~= Seq::<char>::empty());
        }
        0
    }

    /// Follows the edge labelled `c` out of `node`. There is such an edge
    /// exactly when the node's path followed by `c` is still a candidate.
    pub fn descend(&self, node: usize, c: char) -> (next: Option<usize>)
        requires
            self.wf(),
            self.is_node(node),
        ensures
            match next {
                Some(child) => {
                    &&& self.is_node(child)
                    &&& self.path_of(child) == self.path_of(node).push(c)
                    &&& is_candidate(self@, self.path_of(child))
                },
                None => !is_candidate(self@, self.path_of(node).push(c)),
            },
    {
        proof {
            self.lemma_child_iff_candidate(node as int, c);
        }
        let key = c as u32;
        match self.nodes[node].children.get(&key) {
            Some(child) => {
                proof {
                    assert(self.edge_ok(node as int, key));
                }
                Some(*child)
            },
            None => None,
        }
    }

    /// The replacement of the rule whose input is the path of `node`, if
    /// there is such a rule.
    pub fn output_at(&self, node: usize) -> (output: Option<&String>)
        requires
            self.wf(),
            self.is_node(node),
        ensures
            match output {
                Some(text) => self@.dom().contains(self.path_of(node)) && text@
                    == self@[self.path_of(node)],
                None => !self@.dom().contains(self.path_of(node)),
            },
    {
        proof {
            assert(self.node_ok(node as int, self.rules@.dom()));
        }
        self.nodes[node].output.as_ref()
    }

    /// Whether no rule's input extends the path of `node`.
    pub fn is_leaf(&self, node: usize) -> (leaf: bool)
        requires
            self.wf(),
            self.is_node(node),
        ensures
            leaf == !can_grow(self@, self.path_of(node)),
    {
        let leaf = self.nodes[node].children.is_empty();
        proof {
            let path = self.shape@[node as int].path;
            let children = self.nodes@[node as int].children@;
            if leaf {
                assert forall|c: char| !is_candidate(self@, #[trigger] path.push(c)) by {
                    self.lemma_child_iff_candidate(node as int, c);
                    assert(!children.dom().contains(code(c)));
                }
            } else {
                let k = choose|k: u32| children.dom().contains(k);
                assert(children.contains_key(k));
                assert(self.edge_ok(node as int, k));
                let j = children[k] as int;
                let c = self.shape@[j].path.last();
                self.lemma_child_iff_candidate(node as int, c);
                assert(is_candidate(self@, path.push(c)));
            }
        }
        leaf
    }

    /// Follows the edge labelled `c` out of `node`, and makes the edge and the
    /// node it leads to where there is none yet. `target` is the input on
    /// whose way the new node lies.
    fn child_or_new(
        &mut self,
        node: usize,
        c: char,
        Ghost(target): Ghost<Seq<char>>,
    ) -> (child: usize)
        requires
            old(self).inv(old(self).rules@.dom().insert(target)),
            node < old(self).nodes@.len(),
            old(self).shape@[node as int].path.push(c).is_prefix_of(target),
        ensures
            final(self).inv(old(self).rules@.dom().insert(target)),
            final(self).rules@ == old(self).rules@,
            child < final(self).nodes@.len(),
            final(self).shape@[child as int].path == old(self).shape@[node as int].path.push(c),
            old(self).nodes@.len() <= final(self).nodes@.len(),
            forall|j: int|
                0 <= j < old(self).nodes@.len() ==> #[trigger] final(self).shape@[j]
                    == old(self).shape@[j],
    {
        let ghost keys = self.rules@.dom().insert(target);
        let ghost prev = *self;
        let ghost reached = self.shape@[node as int].path.push(c);
        let key = c as u32;
        proof {
            assert(reached.drop_last() =~= self.shape@[node as int].path);
            assert(self.node_ok(node as int, keys));
        }
        let found = match self.nodes[node].children.get(&key) {
            Some(child) => Some(*child),
            None => None,
        };
        match found {
            Some(child) => {
                proof {
                    assert(self.edge_ok(node as int, key));
                    assert(self.node_ok(child as int, keys));
                    lemma_code_injective(self.shape@[child as int].path.last(), c);
                    assert(self.shape@[child as int].path =~= reached);
                }
                child
            },
            None => {
                let child = self.nodes.len();
                proof {
                    // No node has the path `reached` yet: the node above it
                    // would be `node`, which has no child for `c`.
                    if prev.index@.dom().contains(reached) {
                        let j = prev.index@[reached];
                        assert(prev.node_ok(j, keys));
                        assert(prev.node_ok(0, keys));
                        assert(prev.node_ok(prev.shape@[j].parent, keys));
                        assert(false);
                    }
                }
                self.nodes.push(TrieNode { output: None, children: HashMap::new() });
                self.nodes[node].children.insert(key, child);
                proof {
                    self.shape@ = prev.shape@.push(
                        NodeShape { path: reached, parent: node as int, below: target },
                    );
                    self.index@ = prev.index@.insert(reached, child as int);
                    // The edges that were there are as they were, and the new
                    // one leads to the new node.
                    assert forall|i: int, k: u32|
                        0 <= i < self.nodes@.len()
                            && #[trigger] self.nodes@[i].children@.contains_key(
                            k,
                        ) implies self.edge_ok(i, k) by {
                        if i != child && !(i == node && k == key) {
                            assert(prev.nodes@[i].children@.contains_key(k));
                            assert(prev.edge_ok(i, k));
                        }
                    }
                    // The nodes that were there still hang where they hung.
                    assert forall|j: int| 0 <= j < self.nodes@.len() implies #[trigger]
                        self.node_ok(j, keys) by {
                        if j < child {
                            assert(prev.node_ok(j, keys));
                        }
                    }
                }
                child
            },
        }
    }

    /// Sets the output of `node`, whose path is `input`, and hands back the
    /// output that was there before.
    fn set_output(
        &mut self,
        node: usize,
        output: &str,
        Ghost(input): Ghost<Seq<char>>,
    ) -> (replaced: Option<String>)
        requires
            old(self).inv(old(self).rules@.dom().insert(input)),
            0 < node < old(self).nodes@.len(),
            old(self).shape@[node as int].path == input,
        ensures
            final(self).wf(),
            final(self)@ == old(self)@.insert(input, output@),
            final(self).nodes@.len() == old(self).nodes@.len(),
            final(self).shape@ == old(self).shape@,
            match replaced {
                Some(former) => old(self)@.dom().contains(input) && former@ == old(self)@[input],
                None => !old(self)@.dom().contains(input),
            },
    {
        let ghost keys = self.rules@.dom().insert(input);
        let ghost prev = *self;
        proof {
            assert(self.node_ok(node as int, keys));
        }
        let replaced = self.nodes[node].output.take();
        self.nodes[node].output = Some(output.to_owned());
        proof {
            self.rules@ = prev.rules@.insert(input, output@);
            assert(self.rules@.dom() =~= keys);
            assert forall|i: int, k: u32|
                0 <= i < self.nodes@.len() && #[trigger] self.nodes@[i].children@.contains_key(
                    k,
                ) implies self.edge_ok(i, k) by {
                assert(prev.nodes@[i].children@.contains_key(k));
                assert(prev.edge_ok(i, k));
            }
            assert forall|j: int| 0 <= j < self.nodes@.len() implies #[trigger] self.node_ok(
                j,
                keys,
            ) by {
                assert(prev.node_ok(j, keys));
            }
        }
        replaced
    }

    /// Registers the rule `input` -> `output`. A rule with the same input is
    /// overwritten, and its former output is handed back. An empty input names
    /// the root, which never carries an output, so it changes nothing.
    pub fn add(&mut self, input: &str, output: &str) -> (replaced: Option<String>)
        requires
            old(self).wf(),
        ensures
            final(self).wf(),
            final(self)@ == if input@.len() == 0 {
                old(self)@
            } else {
                old(self)@.insert(input@, output@)
            },
            match replaced {
                Some(former) => input@.len() > 0 && old(self)@.dom().contains(input@) && former@
                    == old(self)@[input@],
                None => input@.len() == 0 || !old(self)@.dom().contains(input@),
            },
            forall|node: usize| #[trigger]
                old(self).is_node(node) ==> final(self).is_node(node) && final(self).path_of(node)
                    == old(self).path_of(node),
    {
        let ghost keys = self.rules@.dom().insert(input@);
        let ghost before = *self;
        let mut current: usize = 0;
        proof {
            self.lemma_inv_with_more_keys(keys);
            assert(self.node_ok(0, keys));
            assert(self.shape@[0].path =~= input@.take(0));
        }
        for c in it: input.chars()
            invariant
                it.seq() == input@,
                keys == before.rules@.dom().insert(input@),
                self.inv(keys),
                self.rules@ == before.rules@,
                current < self.nodes@.len(),
                self.shape@[current as int].path == input@.take(it.index()),
                before.nodes@.len() == before.shape@.len(),
                before.nodes@.len() <= self.nodes@.len(),
                forall|j: int|
                    0 <= j < before.nodes@.len() ==> #[trigger] self.shape@[j] == before.shape@[j],
        {
            proof {
                assert(input@.take(it.index()).push(c) =~= input@.take(it.index() + 1));
            }
            current = self.child_or_new(current, c, Ghost(input@));
        }
        proof {
            assert(input@.take(input@.len() as int) =~= input@);
            assert(self.node_ok(current as int, keys));
            assert(self.node_ok(0, keys));
        }
        if current == 0 {
            proof {
                assert(input@ =~= Seq::<char>::empty());
                self.lemma_inv_without_empty_key(keys);
            }
            None
        } else {
            self.set_output(current, output, Ghost(input@))
        }
    }

    /// A tree that is well formed stays so when more inputs are allowed.
    proof fn lemma_inv_with_more_keys(&self, keys: Set<Seq<char>>)
        requires
            self.wf(),
            self.rules@.dom().subset_of(keys),
        ensures
            self.inv(keys),
    {
        assert forall|j: int| 0 <= j < self.nodes@.len() implies #[trigger] self.node_ok(
            j,
            keys,
        ) by {
            assert(self.node_ok(j, self.rules@.dom()));
        }
    }

    /// No node lies on the way to the empty input, so allowing it makes no
    /// difference.
    proof fn lemma_inv_without_empty_key(&self, keys: Set<Seq<char>>)
        requires
            self.inv(keys),
            keys == self.rules@.dom().insert(Seq::<char>::empty()),
        ensures
            self.wf(),
    {
        assert forall|j: int| 0 <= j < self.nodes@.len() implies #[trigger] self.node_ok(
            j,
            self.rules@.dom(),
        ) by {
            assert(self.node_ok(j, keys));
            if j > 0 {
                assert(self.shape@[j].path.is_prefix_of(self.shape@[j].below));
            }
        }
    }

    /// The empty sequence is the input of no rule.
    pub proof fn lemma_empty_input_is_no_rule(&self)
        requires
            self.wf(),
        ensures
            !self@.dom().contains(Seq::<char>::empty()),
    {
        assert(self.node_ok(0, self.rules@.dom()));
        assert(self.shape@[0].path =~= Seq::<char>::empty());
    }
}

} // verus!
