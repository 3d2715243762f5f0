//! A trie over a set of patterns, with failure links and dictionary-suffix links
//! (an Aho-Corasick automaton). Nodes live in one arena and refer to each other
//! by index; node 0 is the root.
use std::collections::HashMap;
use vstd::prelude::*;

verus! {

broadcast use vstd::std_specs::hash::group_hash_axioms;

pub(crate) type NodeId = usize;

pub(crate) const ROOT_ID: NodeId = 0;

/// `s` ends `w`.
pub open spec fn is_suffix(s: Seq<char>, w: Seq<char>) -> bool {
    s.len() <= w.len() && w.subrange(w.len() - s.len(), w.len() as int) == s
}

/// `s` ends `w` and is shorter than it.
pub open spec fn is_proper_suffix(s: Seq<char>, w: Seq<char>) -> bool {
    is_suffix(s, w) && s.len() < w.len()
}

/// `s` begins `w`.
pub open spec fn is_prefix(s: Seq<char>, w: Seq<char>) -> bool {
    s.len() <= w.len() && w.subrange(0, s.len() as int) == s
}

/// `s` begins some pattern.
pub open spec fn in_trie(patterns: Set<Seq<char>>, s: Seq<char>) -> bool {
    exists|p: Seq<char>| #[trigger] patterns.contains(p) && is_prefix(s, p)
}

pub proof fn lemma_suffixes_nest(a: Seq<char>, b: Seq<char>, w: Seq<char>)
    requires
        is_suffix(a, w),
        is_suffix(b, w),
        a.len() <= b.len(),
    ensures
        is_suffix(a, b),
{
    assert forall|k: int| 0 <= k < a.len() implies #[trigger] b.subrange(
        b.len() - a.len(),
        b.len() as int,
    )[k] == a[k] by {
        assert(a[k] == w.subrange(w.len() - a.len(), w.len() as int)[k]);
        assert(b[b.len() - a.len() + k] == w.subrange(w.len() - b.len(), w.len() as int)[b.len()
            - a.len() + k]);
    }
    assert(b.subrange(b.len() - a.len(), b.len() as int) =~= a);
}

pub proof fn lemma_suffix_trans(a: Seq<char>, b: Seq<char>, w: Seq<char>)
    requires
        is_suffix(a, b),
        is_suffix(b, w),
    ensures
        is_suffix(a, w),
{
    assert forall|k: int| 0 <= k < a.len() implies #[trigger] w.subrange(
        w.len() - a.len(),
        w.len() as int,
    )[k] == a[k] by {
        assert(a[k] == b.subrange(b.len() - a.len(), b.len() as int)[k]);
        assert(b[b.len() - a.len() + k] == w.subrange(w.len() - b.len(), w.len() as int)[b.len()
            - a.len() + k]);
    }
    assert(w.subrange(w.len() - a.len(), w.len() as int) =~= a);
}

pub proof fn lemma_suffix_push(s: Seq<char>, w: Seq<char>, c: char)
    requires
        is_suffix(s, w),
    ensures
        is_suffix(s.push(c), w.push(c)),
{
    let wc = w.push(c);
    assert forall|k: int| 0 <= k < s.len() + 1 implies #[trigger] wc.subrange(
        wc.len() - (s.len() + 1),
        wc.len() as int,
    )[k] == s.push(c)[k] by {
        if k < s.len() {
            assert(s[k] == w.subrange(w.len() - s.len(), w.len() as int)[k]);
        }
    }
    assert(wc.subrange(wc.len() - (s.len() + 1), wc.len() as int) =~= s.push(c));
}

pub proof fn lemma_suffix_pop(x: Seq<char>, w: Seq<char>, c: char)
    requires
        is_suffix(x, w.push(c)),
        x.len() > 0,
    ensures
        x.last() == c,
        x == x.drop_last().push(c),
        is_suffix(x.drop_last(), w),
{
    let wc = w.push(c);
    assert(x[x.len() - 1] == wc.subrange(wc.len() - x.len(), wc.len() as int)[x.len() - 1]);
    assert(x =~= x.drop_last().push(c));
    let y = x.drop_last();
    assert forall|k: int| 0 <= k < y.len() implies #[trigger] w.subrange(
        w.len() - y.len(),
        w.len() as int,
    )[k] == y[k] by {
        assert(x[k] == wc.subrange(wc.len() - x.len(), wc.len() as int)[k]);
    }
    assert(w.subrange(w.len() - y.len(), w.len() as int) =~= y);
}

pub proof fn lemma_suffix_self(w: Seq<char>)
    ensures
        is_suffix(w, w),
        is_suffix(Seq::<char>::empty(), w),
{
    assert(w.subrange(0, w.len() as int) =~= w);
    assert(w.subrange(w.len() as int, w.len() as int) =~= Seq::<char>::empty());
}

pub proof fn lemma_in_trie_prefix(patterns: Set<Seq<char>>, s: Seq<char>, c: char)
    requires
        in_trie(patterns, s.push(c)),
    ensures
        in_trie(patterns, s),
{
    let p = choose|p: Seq<char>| #[trigger] patterns.contains(p) && is_prefix(s.push(c), p);
    assert(p.subrange(0, s.len() as int) =~= p.subrange(0, s.len() + 1 as int).subrange(
        0,
        s.len() as int,
    ));
    assert(s.push(c).subrange(0, s.len() as int) =~= s);
    assert(is_prefix(s, p));
}

/// One state of the automaton.
pub(crate) struct Node {
    /// Number of characters on the path from the root.
    pub(crate) depth: usize,
    pub(crate) parent: Option<NodeId>,
    /// Children, keyed by the code point of the character that leads to them.
    pub(crate) children: HashMap<u32, NodeId>,
    /// The character consumed from the parent.
    pub(crate) label: Option<char>,
    /// The path from the root is a pattern.
    pub(crate) in_dict: bool,
    /// The node of the longest proper suffix of the path that is in the trie.
    pub(crate) suffix_link: Option<NodeId>,
    /// The node of the longest proper suffix of the path that is a pattern.
    pub(crate) in_dict_suffix_link: Option<NodeId>,
}

/// The automaton: an arena of nodes, each with the word that its path spells.
pub(crate) struct Tree {
    pub(crate) nodes: Vec<Node>,
    pub(crate) words: Ghost<Seq<Seq<char>>>,
}

impl Tree {
    /// The word spelled by the path from the root to node `n`.
    pub(crate) open spec fn word(&self, n: int) -> Seq<char> {
        self.words@[n]
    }

    pub(crate) open spec fn valid_id(&self, n: int) -> bool {
        0 <= n < self.nodes.len()
    }

    pub(crate) open spec fn has_word(&self, s: Seq<char>) -> bool {
        exists|n: int| self.valid_id(n) && #[trigger] self.word(n) == s
    }

    pub(crate) open spec fn parent_ok(&self, n: int) -> bool {
        match (self.nodes[n].parent, self.nodes[n].label) {
            (Some(p), Some(c)) => {
                &&& self.valid_id(p as int)
                &&& self.word(n) == self.word(p as int).push(c)
                &&& self.nodes[p as int].children@.contains_key(c as u32)
                &&& self.nodes[p as int].children@[c as u32] == n
            },
            _ => false,
        }
    }

    pub(crate) open spec fn child_ok(&self, n: int, c: char) -> bool {
        let m = self.nodes[n].children@[c as u32];
        &&& 0 < m < self.nodes.len()
        &&& self.word(m as int) == self.word(n).push(c)
    }

    /// The shape of a trie: words grow by one character from parent to child,
    /// and no two nodes spell the same word.
    pub(crate) open spec fn structured(&self) -> bool {
        &&& self.nodes.len() == self.words@.len()
        &&& self.nodes.len() >= 1
        &&& self.word(0) == Seq::<char>::empty()
        &&& self.nodes[0].parent is None
        &&& forall|n: int|
            self.valid_id(n) ==> #[trigger] self.nodes[n].depth == self.word(n).len()
        &&& forall|n: int| 0 < n < self.nodes.len() ==> #[trigger] self.parent_ok(n)
        &&& forall|i: int, j: int|
            self.valid_id(i) && self.valid_id(j) && #[trigger] self.word(i) == #[trigger] self.word(
                j,
            ) ==> i == j
        &&& forall|n: int, c: char|
            self.valid_id(n) && #[trigger] self.nodes[n].children@.contains_key(c as u32)
                ==> self.child_ok(n, c)
    }

    /// The nodes are exactly the prefixes of the patterns, and the dictionary
    /// nodes exactly the patterns.
    pub(crate) open spec fn wf(&self, patterns: Set<Seq<char>>) -> bool {
        &&& self.structured()
        &&& !patterns.contains(Seq::<char>::empty())
        &&& forall|n: int| 0 < n < self.nodes.len() ==> in_trie(patterns, #[trigger] self.word(n))
        &&& forall|n: int|
            self.valid_id(n) ==> #[trigger] self.nodes[n].in_dict == patterns.contains(self.word(n))
        &&& forall|s: Seq<char>| #[trigger] in_trie(patterns, s) ==> self.has_word(s)
    }

    pub(crate) open spec fn fail_ok(&self, n: int) -> bool {
        if n == 0 {
            self.nodes[0].suffix_link is None
        } else {
            match self.nodes[n].suffix_link {
                Some(f) => {
                    &&& self.valid_id(f as int)
                    &&& is_proper_suffix(self.word(f as int), self.word(n))
                    &&& forall|m: int|
                        self.valid_id(m) && #[trigger] is_proper_suffix(self.word(m), self.word(n))
                            ==> self.word(m).len() <= self.word(f as int).len()
                },
                None => false,
            }
        }
    }

    pub(crate) open spec fn dict_ok(&self, n: int) -> bool {
        match self.nodes[n].in_dict_suffix_link {
            Some(g) => {
                &&& self.valid_id(g as int)
                &&& self.nodes[g as int].in_dict
                &&& is_proper_suffix(self.word(g as int), self.word(n))
                &&& forall|m: int|
                    self.valid_id(m) && self.nodes[m].in_dict && #[trigger] is_proper_suffix(
                        self.word(m),
                        self.word(n),
                    ) ==> self.word(m).len() <= self.word(g as int).len()
            },
            None => forall|m: int|
                self.valid_id(m) && self.nodes[m].in_dict ==> !#[trigger] is_proper_suffix(
                    self.word(m),
                    self.word(n),
                ),
        }
    }

    pub(crate) open spec fn links_ok(&self, n: int) -> bool {
        self.fail_ok(n) && self.dict_ok(n)
    }

    /// Every node has its failure link and its dictionary-suffix link.
    pub(crate) open spec fn linked(&self) -> bool {
        forall|n: int| self.valid_id(n) ==> #[trigger] self.links_ok(n)
    }

    /// Node `n` spells the longest suffix of `w` that is in the trie.
    pub(crate) open spec fn tracks(&self, n: int, w: Seq<char>) -> bool {
        &&& self.valid_id(n)
        &&& is_suffix(self.word(n), w)
        &&& forall|m: int|
            self.valid_id(m) && #[trigger] is_suffix(self.word(m), w) ==> self.word(m).len()
                <= self.word(n).len()
    }

    pub(crate) proof fn lemma_child(&self, n: int, c: char)
        requires
            self.structured(),
            self.valid_id(n),
            self.nodes[n].children@.contains_key(c as u32),
        ensures
            self.child_ok(n, c),
    {
    }

    /// A child of `n` on character `c` exists exactly when some node spells
    /// the word of `n` followed by `c`.
    pub(crate) proof fn lemma_child_iff(&self, n: int, c: char)
        requires
            self.structured(),
            self.valid_id(n),
        ensures
            self.nodes[n].children@.contains_key(c as u32) <==> self.has_word(
                self.word(n).push(c),
            ),
    {
        if self.nodes[n].children@.contains_key(c as u32) {
            assert(self.child_ok(n, c));
            let m = self.nodes[n].children@[c as u32] as int;
            assert(self.word(m) == self.word(n).push(c));
        }
        if self.has_word(self.word(n).push(c)) {
            let m = choose|m: int| self.valid_id(m) && #[trigger] self.word(m) == self.word(n).push(c);
            assert(m != 0) by {
                if m == 0 {
                    assert(self.word(0).len() == 0);
                }
            }
            assert(self.parent_ok(m));
            let p = self.nodes[m].parent->0 as int;
            let d = self.nodes[m].label->0;
            assert(self.word(p) =~= self.word(m).drop_last());
            assert(self.word(n) =~= self.word(m).drop_last());
            assert(p == n);
            assert(self.word(m).last() == d);
            assert(self.word(m).last() == c);
        }
    }

    /// Nodes of every shallower depth: a trie word is a node when it begins a pattern.
    pub(crate) proof fn lemma_node_prefix(&self, patterns: Set<Seq<char>>, s: Seq<char>, c: char)
        requires
            self.wf(patterns),
            self.has_word(s.push(c)),
        ensures
            self.has_word(s),
    {
        let m = choose|m: int| self.valid_id(m) && #[trigger] self.word(m) == s.push(c);
        assert(m != 0) by {
            if m == 0 {
                assert(self.word(0).len() == 0);
            }
        }
        assert(in_trie(patterns, self.word(m)));
        lemma_in_trie_prefix(patterns, s, c);
    }

    /// An empty trie: the root alone.
    fn empty() -> (r: Tree)
        ensures
            r.wf(Set::empty()),
            r.linked(),
            r.nodes[0].suffix_link is None,
            r.nodes[0].in_dict_suffix_link is None,
            r.nodes[0].label is None,
    {
        let ghost words = seq![Seq::<char>::empty()];
        let r = Tree {
            nodes: vec![
                Node {
                    depth: 0,
                    parent: None,
                    children: HashMap::new(),
                    label: None,
                    in_dict: false,
                    suffix_link: None,
                    in_dict_suffix_link: None,
                },
            ],
            words: Ghost(words),
        };
        assert forall|s: Seq<char>| #[trigger] in_trie(Set::<Seq<char>>::empty(), s) implies r.has_word(
            s,
        ) by {}
        assert(r.links_ok(0));
        r
    }

    /// Builds the automaton for the given patterns, links included.
    pub(crate) fn new(patterns: &Vec<String>) -> (r: Tree)
        requires
            forall|i: int| 0 <= i < patterns.len() ==> (#[trigger] patterns[i])@.len() > 0,
        ensures
            r.wf(Set::new(|s: Seq<char>| exists|i: int| 0 <= i < patterns.len() && (#[trigger] patterns[i])@ == s)),
            r.linked(),
            r.nodes[0].label is None,
            r.nodes[0].depth == 0,
    {
        let ghost all = Set::new(|s: Seq<char>| exists|i: int| 0 <= i < patterns.len() && (#[trigger] patterns[i])@ == s);
        let mut result = Tree::empty();
        let mut k: usize = 0;
        assert(Set::new(|s: Seq<char>| exists|i: int| 0 <= i < 0 && (#[trigger] patterns[i])@ == s) =~= Set::<Seq<char>>::empty());
        while k < patterns.len()
            invariant
                0 <= k <= patterns.len(),
                forall|i: int| 0 <= i < patterns.len() ==> (#[trigger] patterns[i])@.len() > 0,
                result.wf(Set::new(|s: Seq<char>| exists|i: int| 0 <= i < k && (#[trigger] patterns[i])@ == s)),
                result.nodes[0].suffix_link is None,
                result.nodes[0].in_dict_suffix_link is None,
                result.nodes[0].label is None,
            decreases patterns.len() - k,
        {
            let ghost before = Set::new(|s: Seq<char>| exists|i: int| 0 <= i < k && (#[trigger] patterns[i])@ == s);
            let ghost after = Set::new(|s: Seq<char>| exists|i: int| 0 <= i < k + 1 && (#[trigger] patterns[i])@ == s);
            result.extend(patterns[k].as_str(), Ghost(before));
            assert(result.nodes[0] == result.nodes[0]);
            assert(before.insert(patterns[k as int]@) =~= after);
            k += 1;
        }
        assert(Set::new(|s: Seq<char>| exists|i: int| 0 <= i < k && (#[trigger] patterns[i])@ == s) =~= all);
        let ghost built = result;
        result.set_links(Ghost(all));
        assert(result.nodes[0] == result.nodes[0]);
        result
    }

    /// Adds a node for `label` under `parent_id`, with no children and no links.
    fn spawn_chid(&mut self, parent_id: NodeId, label: char) -> (child_id: NodeId)
        requires
            old(self).structured(),
            old(self).valid_id(parent_id as int),
            !old(self).nodes[parent_id as int].children@.contains_key(label as u32),
            old(self).nodes[parent_id as int].depth < usize::MAX,
        ensures
            final(self).structured(),
            child_id == old(self).nodes.len(),
            final(self).nodes.len() == old(self).nodes.len() + 1,
            final(self).words@ == old(self).words@.push(old(self).word(parent_id as int).push(label)),
            final(self).nodes[child_id as int].children@ == Map::<u32, NodeId>::empty(),
            !final(self).nodes[child_id as int].in_dict,
            final(self).nodes[child_id as int].depth == old(self).nodes[parent_id as int].depth + 1,
            final(self).nodes[child_id as int].parent == Some(parent_id),
            final(self).nodes[child_id as int].label == Some(label),
            final(self).nodes[child_id as int].suffix_link is None,
            final(self).nodes[child_id as int].in_dict_suffix_link is None,
            final(self).extends(old(self)),
            forall|n: int|
                0 <= n < old(self).nodes.len() && n != parent_id ==> #[trigger] final(self).nodes[n]
                    == old(self).nodes[n],
            final(self).nodes[parent_id as int].in_dict == old(self).nodes[parent_id as int].in_dict,
            final(self).nodes[parent_id as int].suffix_link == old(self).nodes[parent_id as int].suffix_link,
            final(self).nodes[parent_id as int].in_dict_suffix_link == old(self).nodes[parent_id as int].in_dict_suffix_link,
            final(self).nodes[parent_id as int].children@ == old(self).nodes[parent_id as int].children@.insert(label as u32, child_id),
            final(self).nodes[parent_id as int].depth == old(self).nodes[parent_id as int].depth,
            final(self).nodes[parent_id as int].parent == old(self).nodes[parent_id as int].parent,
            final(self).nodes[parent_id as int].label == old(self).nodes[parent_id as int].label,
    {
        let ghost w = self.word(parent_id as int).push(label);
        proof {
            self.lemma_child_iff(parent_id as int, label);
        }
        let parent_depth = self.nodes[parent_id].depth;
        self.nodes.push(
            Node {
                depth: parent_depth + 1,
                parent: Some(parent_id),
                children: HashMap::new(),
                label: Some(label),
                in_dict: false,
                suffix_link: None,
                in_dict_suffix_link: None,
            },
        );
        let child_id = self.nodes.len() - 1;
        self.nodes[parent_id].children.insert(label as u32, child_id);
        let ghost grown = self.words@.push(w);
        self.words = Ghost(grown);
        proof {
            let old_tree = *old(self);
            assert forall|n: int| 0 < n < self.nodes.len() implies #[trigger] self.parent_ok(n) by {
                if n < child_id {
                    assert(old_tree.parent_ok(n));
                }
            }
            assert forall|i: int, j: int|
                self.valid_id(i) && self.valid_id(j) && #[trigger] self.word(i) == #[trigger] self.word(
                    j,
                ) implies i == j by {
                if i < child_id && j < child_id {
                    assert(old_tree.word(i) == old_tree.word(j));
                } else if i < child_id {
                    assert(old_tree.word(i) == w);
                    assert(old_tree.has_word(w));
                } else if j < child_id {
                    assert(old_tree.word(j) == w);
                    assert(old_tree.has_word(w));
                }
            }
            assert forall|n: int, c: char|
                self.valid_id(n) && #[trigger] self.nodes[n].children@.contains_key(c as u32)
                    implies self.child_ok(n, c) by {
                if n != parent_id && n < child_id {
                    assert(old_tree.child_ok(n, c));
                } else if n == parent_id && c as u32 != label as u32 {
                    assert(old_tree.child_ok(n, c));
                } else if n == parent_id {
                    vstd::utf8::char_u32_cast(c, c as u32);
                    vstd::utf8::char_u32_cast(label, label as u32);
                    assert(c == label);
                }
            }
        }
        child_id
    }

    /// Inserts one pattern: follows existing edges, then creates nodes for the
    /// remaining characters, and marks the last node as a dictionary node.
    fn extend(&mut self, pattern: &str, Ghost(patterns): Ghost<Set<Seq<char>>>)
        requires
            old(self).wf(patterns),
            pattern@.len() > 0,
            old(self).nodes[0].suffix_link is None,
            old(self).nodes[0].in_dict_suffix_link is None,
        ensures
            final(self).wf(patterns.insert(pattern@)),
            final(self).nodes[0].suffix_link is None,
            final(self).nodes[0].in_dict_suffix_link is None,
            final(self).extends(old(self)),
            forall|n: int|
                0 <= n < old(self).nodes.len() ==> #[trigger] final(self).nodes[n].in_dict == (
                old(self).nodes[n].in_dict || old(self).word(n) == pattern@),
            forall|n: int|
                old(self).nodes.len() <= n < final(self).nodes.len() ==> is_prefix(
                    #[trigger] final(self).word(n),
                    pattern@,
                ) && !old(self).has_word(final(self).word(n)),
            old(self).has_word(pattern@) ==> final(self).nodes.len() == old(self).nodes.len(),
    {
        let chars = crate::text::chars_of(pattern);
        let ghost p = pattern@;
        let ghost grown = patterns.insert(p);
        let mut node_id: NodeId = ROOT_ID;
        let mut create = false;
        let mut i: usize = 0;
        proof {
            self.lemma_extends_refl();
            assert(p.take(0) =~= Seq::<char>::empty());
            assert forall|n: int| 0 < n < self.nodes.len() implies in_trie(grown, #[trigger] self.word(n)) by {
                assert(in_trie(patterns, self.word(n)));
                let q = choose|q: Seq<char>| #[trigger] patterns.contains(q) && is_prefix(self.word(n), q);
                assert(grown.contains(q));
            }
        }
        while i < chars.len()
            invariant
                0 <= i <= chars.len(),
                chars@ == p,
                p.len() > 0,
                grown == patterns.insert(p),
                !patterns.contains(Seq::<char>::empty()),
                self.structured(),
                self.valid_id(node_id as int),
                self.word(node_id as int) == p.take(i as int),
                create ==> self.nodes[node_id as int].children@ == Map::<u32, NodeId>::empty(),
                forall|n: int| 0 < n < self.nodes.len() ==> in_trie(grown, #[trigger] self.word(n)),
                forall|n: int|
                    self.valid_id(n) ==> #[trigger] self.nodes[n].in_dict == patterns.contains(
                        self.word(n),
                    ),
                forall|s: Seq<char>| #[trigger] in_trie(patterns, s) ==> self.has_word(s),
                forall|k: int| 0 <= k <= i ==> self.has_word(#[trigger] p.take(k)),
                self.nodes[0].suffix_link is None,
                self.nodes[0].in_dict_suffix_link is None,
                self.extends(old(self)),
                forall|n: int|
                    0 <= n < old(self).nodes.len() ==> #[trigger] self.nodes[n].in_dict
                        == old(self).nodes[n].in_dict,
                forall|n: int|
                    old(self).nodes.len() <= n < self.nodes.len() ==> is_prefix(
                        #[trigger] self.word(n),
                        p,
                    ) && !old(self).has_word(self.word(n)),
            decreases chars.len() - i,
        {
            let c = chars[i];
            let ghost before = *self;
            let prev = node_id;
            assert(p.take(i + 1) =~= p.take(i as int).push(c));
            let found: Option<NodeId> = if create {
                None
            } else {
                match self.nodes[node_id].children.get(&(c as u32)) {
                    Some(child) => Some(*child),
                    None => None,
                }
            };
            if found.is_none() {
                create = true;
                node_id = self.spawn_chid(node_id, c);
                proof {
                    Tree::lemma_extends_trans(&*self, &before, &*old(self));
                    assert forall|n: int| 0 <= n < old(self).nodes.len() implies #[trigger] self.nodes[n].in_dict
                        == old(self).nodes[n].in_dict by {
                        assert(before.nodes[n].in_dict == old(self).nodes[n].in_dict);
                    }
                    assert(!old(self).has_word(p.take(i + 1))) by {
                        if old(self).has_word(p.take(i + 1)) {
                            let m = choose|m: int| old(self).valid_id(m) && #[trigger] old(self).word(m) == p.take(i + 1);
                            Tree::lemma_extends_word(&before, &*old(self), m);
                            assert(before.word(m) == p.take(i + 1));
                            assert(before.has_word(p.take(i + 1)));
                            before.lemma_child_iff(prev as int, c);
                        }
                    }
                    assert(is_prefix(p.take(i + 1), p));
                    assert forall|n: int| old(self).nodes.len() <= n < self.nodes.len() implies is_prefix(
                        #[trigger] self.word(n),
                        p,
                    ) && !old(self).has_word(self.word(n)) by {
                        if n < node_id {
                            assert(before.word(n) == self.word(n));
                        }
                    }
                    assert(self.word(node_id as int) == p.take(i + 1));
                    assert(is_prefix(p.take(i + 1), p));
                    assert(grown.contains(p));
                    assert(in_trie(grown, self.word(node_id as int)));
                    assert forall|n: int| 0 < n < self.nodes.len() implies in_trie(grown, #[trigger] self.word(n)) by {
                        if n < node_id {
                            assert(before.word(n) == self.word(n));
                        }
                    }
                    assert forall|n: int| self.valid_id(n) implies #[trigger] self.nodes[n].in_dict
                        == patterns.contains(self.word(n)) by {
                        if n < node_id {
                            assert(before.word(n) == self.word(n));
                            assert(before.nodes[n].in_dict == self.nodes[n].in_dict);
                        } else {
                            assert(!patterns.contains(p.take(i + 1))) by {
                                if patterns.contains(p.take(i + 1)) {
                                    assert(in_trie(patterns, p.take(i + 1))) by {
                                        assert(p.take(i + 1).subrange(0, i + 1) =~= p.take(i + 1));
                                    }
                                    assert(before.has_word(p.take(i + 1)));
                                    before.lemma_child_iff(prev as int, c);
                                }
                            }
                        }
                    }
                    assert forall|s: Seq<char>| #[trigger] in_trie(patterns, s) implies self.has_word(s) by {
                        assert(before.has_word(s));
                        let m = choose|m: int| before.valid_id(m) && #[trigger] before.word(m) == s;
                        assert(self.word(m) == s);
                    }
                    assert forall|k: int| 0 <= k <= i + 1 implies self.has_word(#[trigger] p.take(k)) by {
                        if k <= i {
                            assert(before.has_word(p.take(k)));
                            let m = choose|m: int| before.valid_id(m) && #[trigger] before.word(m) == p.take(k);
                            assert(self.word(m) == p.take(k));
                        } else {
                            assert(self.word(node_id as int) == p.take(k));
                        }
                    }
                }
            } else {
                proof {
                    self.lemma_child(node_id as int, c);
                }
                node_id = found.unwrap();
                proof {
                    assert forall|k: int| 0 <= k <= i + 1 implies self.has_word(#[trigger] p.take(k)) by {
                        if k == i + 1 {
                            assert(self.word(node_id as int) == p.take(k));
                        }
                    }
                }
            }
            i += 1;
        }
        proof {
            assert(p.take(i as int) =~= p);
        }
        proof {
            assert forall|s: Seq<char>| #[trigger] in_trie(grown, s) implies self.has_word(s) by {
                let q = choose|q: Seq<char>| #[trigger] grown.contains(q) && is_prefix(s, q);
                if q == p {
                    assert(s =~= p.take(s.len() as int));
                    assert(self.has_word(p.take(s.len() as int)));
                } else {
                    assert(patterns.contains(q));
                    assert(in_trie(patterns, s));
                }
            }
            assert(self.nodes[0].in_dict == patterns.contains(Seq::<char>::empty()));
        }
        let ghost before = *self;
        self.nodes[node_id].in_dict = true;
        proof {
            self.lemma_same_structure(&before);
            assert(self.extends(&before)) by {
                assert forall|n: int| #![trigger self.nodes[n]] 0 <= n < before.nodes.len() implies {
                    &&& self.word(n) == before.word(n)
                    &&& self.nodes[n].depth == before.nodes[n].depth
                    &&& self.nodes[n].parent == before.nodes[n].parent
                    &&& self.nodes[n].label == before.nodes[n].label
                    &&& self.nodes[n].suffix_link == before.nodes[n].suffix_link
                    &&& self.nodes[n].in_dict_suffix_link == before.nodes[n].in_dict_suffix_link
                } by {}
                assert forall|n: int, k: u32|
                    0 <= n < before.nodes.len() && #[trigger] before.nodes[n].children@.contains_key(k)
                        implies self.nodes[n].children@.contains_key(k)
                        && self.nodes[n].children@[k] == before.nodes[n].children@[k] by {}
                assert forall|n: int, k: u32|
                    0 <= n < before.nodes.len() && #[trigger] self.nodes[n].children@.contains_key(k)
                        implies before.nodes[n].children@.contains_key(k)
                        || self.nodes[n].children@[k] >= before.nodes.len() by {}
            }
            Tree::lemma_extends_trans(&*self, &before, &*old(self));
            assert forall|n: int| 0 <= n < old(self).nodes.len() implies #[trigger] self.nodes[n].in_dict == (
                old(self).nodes[n].in_dict || old(self).word(n) == p) by {
                assert(before.nodes[n].in_dict == old(self).nodes[n].in_dict);
                assert(before.word(n) == old(self).word(n));
                if n != node_id && old(self).word(n) == p {
                    assert(self.word(n) == self.word(node_id as int));
                }
            }
            assert forall|n: int| old(self).nodes.len() <= n < self.nodes.len() implies is_prefix(
                #[trigger] self.word(n),
                pattern@,
            ) && !old(self).has_word(self.word(n)) by {
                assert(before.word(n) == self.word(n));
            }
            if old(self).has_word(p) && self.nodes.len() > old(self).nodes.len() {
                let n = old(self).nodes.len() as int;
                let x = self.word(n);
                assert(is_prefix(x, p));
                let m = choose|m: int| old(self).valid_id(m) && #[trigger] old(self).word(m) == p;
                assert(m != 0) by {
                    if m == 0 {
                        assert(old(self).word(0).len() == 0);
                    }
                }
                assert(in_trie(patterns, old(self).word(m)));
                let q = choose|q: Seq<char>| #[trigger] patterns.contains(q) && is_prefix(p, q);
                assert(q.subrange(0, x.len() as int) =~= p.subrange(0, x.len() as int));
                assert(is_prefix(x, q));
                assert(in_trie(patterns, x));
                assert(old(self).has_word(x));
            }
            assert forall|n: int| self.valid_id(n) implies #[trigger] self.nodes[n].in_dict == grown.contains(self.word(n)) by {
                if n != node_id {
                    assert(before.nodes[n].in_dict == patterns.contains(self.word(n)));
                    assert(self.word(n) != p) by {
                        assert(self.word(node_id as int) == p);
                    }
                }
            }
            assert forall|n: int| 0 < n < self.nodes.len() implies in_trie(grown, #[trigger] self.word(n)) by {
                assert(in_trie(grown, before.word(n)));
            }
            assert forall|s: Seq<char>| #[trigger] in_trie(grown, s) implies self.has_word(s) by {
                assert(before.has_word(s));
            }
        }
    }

    /// `self` holds the nodes of `other` under the same ids, with the same
    /// words, fields and edges; edges added to them lead to new nodes.
    pub(crate) open spec fn extends(&self, other: &Tree) -> bool {
        &&& self.nodes.len() >= other.nodes.len()
        &&& forall|n: int|
            #![trigger self.nodes[n]]
            0 <= n < other.nodes.len() ==> {
                &&& self.word(n) == other.word(n)
                &&& self.nodes[n].depth == other.nodes[n].depth
                &&& self.nodes[n].parent == other.nodes[n].parent
                &&& self.nodes[n].label == other.nodes[n].label
                &&& self.nodes[n].suffix_link == other.nodes[n].suffix_link
                &&& self.nodes[n].in_dict_suffix_link == other.nodes[n].in_dict_suffix_link
            }
        &&& forall|n: int, k: u32|
            0 <= n < other.nodes.len() && #[trigger] other.nodes[n].children@.contains_key(k)
                ==> self.nodes[n].children@.contains_key(k) && self.nodes[n].children@[k]
                == other.nodes[n].children@[k]
        &&& forall|n: int, k: u32|
            0 <= n < other.nodes.len() && #[trigger] self.nodes[n].children@.contains_key(k)
                ==> other.nodes[n].children@.contains_key(k) || self.nodes[n].children@[k]
                >= other.nodes.len()
    }

    pub(crate) proof fn lemma_extends_word(a: &Tree, b: &Tree, m: int)
        requires
            a.extends(b),
            0 <= m < b.nodes.len(),
        ensures
            a.word(m) == b.word(m),
    {
        assert(a.nodes[m] == a.nodes[m]);
        assert(a.nodes[m].depth == b.nodes[m].depth);
        assert(a.nodes[m].label == b.nodes[m].label);
    }

    pub(crate) proof fn lemma_extends_refl(&self)
        requires
            self.nodes.len() == self.words@.len(),
        ensures
            self.extends(self),
    {
    }

    pub(crate) proof fn lemma_extends_trans(c: &Tree, b: &Tree, a: &Tree)
        requires
            c.extends(b),
            b.extends(a),
        ensures
            c.extends(a),
    {
        assert forall|n: int| #![trigger c.nodes[n]] 0 <= n < a.nodes.len() implies {
            &&& c.word(n) == a.word(n)
            &&& c.nodes[n].depth == a.nodes[n].depth
            &&& c.nodes[n].parent == a.nodes[n].parent
            &&& c.nodes[n].label == a.nodes[n].label
            &&& c.nodes[n].suffix_link == a.nodes[n].suffix_link
            &&& c.nodes[n].in_dict_suffix_link == a.nodes[n].in_dict_suffix_link
        } by {
            assert(b.nodes[n] == b.nodes[n]);
        }
        assert forall|n: int, k: u32|
            0 <= n < a.nodes.len() && #[trigger] a.nodes[n].children@.contains_key(k)
                implies c.nodes[n].children@.contains_key(k) && c.nodes[n].children@[k]
                == a.nodes[n].children@[k] by {
            assert(b.nodes[n].children@.contains_key(k));
        }
        assert forall|n: int, k: u32|
            0 <= n < a.nodes.len() && #[trigger] c.nodes[n].children@.contains_key(k)
                implies a.nodes[n].children@.contains_key(k) || c.nodes[n].children@[k]
                >= a.nodes.len() by {
            if b.nodes[n].children@.contains_key(k) {
                assert(c.nodes[n].children@[k] == b.nodes[n].children@[k]);
            }
        }
    }

    pub(crate) proof fn lemma_same_shape_trans(c: &Tree, b: &Tree, a: &Tree)
        requires
            c.same_shape(b),
            b.same_shape(a),
        ensures
            c.same_shape(a),
    {
        assert forall|n: int|
            #![trigger c.nodes[n]]
            c.valid_id(n) implies {
                &&& c.nodes[n].depth == a.nodes[n].depth
                &&& c.nodes[n].parent == a.nodes[n].parent
                &&& c.nodes[n].children@ == a.nodes[n].children@
                &&& c.nodes[n].label == a.nodes[n].label
                &&& c.nodes[n].in_dict == a.nodes[n].in_dict
            } by {
            assert(b.nodes[n] == b.nodes[n]);
        }
    }

    /// `self` and `other` have the same nodes and edges.
    pub(crate) open spec fn same_structure(&self, other: &Tree) -> bool {
        &&& self.nodes.len() == other.nodes.len()
        &&& self.words@ == other.words@
        &&& forall|n: int|
            #![trigger self.nodes[n]]
            self.valid_id(n) ==> {
                &&& self.nodes[n].depth == other.nodes[n].depth
                &&& self.nodes[n].parent == other.nodes[n].parent
                &&& self.nodes[n].children@ == other.nodes[n].children@
                &&& self.nodes[n].label == other.nodes[n].label
            }
    }

    /// `self` and `other` differ at most in their links.
    pub(crate) open spec fn same_shape(&self, other: &Tree) -> bool {
        &&& self.same_structure(other)
        &&& forall|n: int|
            #![trigger self.nodes[n]]
            self.valid_id(n) ==> self.nodes[n].in_dict == other.nodes[n].in_dict
    }

    pub(crate) proof fn lemma_same_structure(&self, other: &Tree)
        requires
            self.same_structure(other),
            other.structured(),
        ensures
            self.structured(),
            forall|s: Seq<char>| #[trigger] other.has_word(s) ==> self.has_word(s),
    {
        assert(self.nodes[0] == self.nodes[0]);
        assert(self.word(0) == other.word(0));
        assert forall|i: int, j: int|
            self.valid_id(i) && self.valid_id(j) && #[trigger] self.word(i) == #[trigger] self.word(j)
                implies i == j by {
            assert(other.word(i) == other.word(j));
        }
        assert forall|n: int| 0 < n < self.nodes.len() implies #[trigger] self.parent_ok(n) by {
            assert(other.parent_ok(n));
            let p = other.nodes[n].parent->0 as int;
            assert(self.nodes[p] == self.nodes[p]);
        }
        assert forall|n: int, c: char|
            self.valid_id(n) && #[trigger] self.nodes[n].children@.contains_key(c as u32)
                implies self.child_ok(n, c) by {
            assert(other.nodes[n].children@.contains_key(c as u32));
            assert(other.child_ok(n, c));
            let m = other.nodes[n].children@[c as u32] as int;
            assert(self.word(m) == other.word(m));
        }
        assert forall|n: int| self.valid_id(n) implies #[trigger] self.nodes[n].depth == self.word(n).len() by {
            assert(other.nodes[n].depth == other.word(n).len());
        }
        assert forall|s: Seq<char>| #[trigger] other.has_word(s) implies self.has_word(s) by {
            let m = choose|m: int| other.valid_id(m) && #[trigger] other.word(m) == s;
            assert(self.word(m) == s);
        }
    }

    pub(crate) proof fn lemma_same_shape(&self, other: &Tree, patterns: Set<Seq<char>>)
        requires
            self.same_shape(other),
            other.wf(patterns),
        ensures
            self.wf(patterns),
    {
        self.lemma_same_structure(other);
        assert forall|n: int| 0 < n < self.nodes.len() implies in_trie(patterns, #[trigger] self.word(n)) by {
            assert(in_trie(patterns, other.word(n)));
        }
        assert forall|n: int| self.valid_id(n) implies #[trigger] self.nodes[n].in_dict == patterns.contains(self.word(n)) by {
            assert(other.nodes[n].in_dict == patterns.contains(other.word(n)));
        }
        assert forall|s: Seq<char>| #[trigger] in_trie(patterns, s) implies self.has_word(s) by {
            assert(other.has_word(s));
        }
    }

    /// Links of a node stay right while only other nodes' links change.
    pub(crate) proof fn lemma_links_frame(&self, other: &Tree, n: int)
        requires
            self.same_shape(other),
            other.valid_id(n),
            other.links_ok(n),
            self.nodes[n].suffix_link == other.nodes[n].suffix_link,
            self.nodes[n].in_dict_suffix_link == other.nodes[n].in_dict_suffix_link,
        ensures
            self.links_ok(n),
    {
        assert(other.fail_ok(n) && other.dict_ok(n));
        assert(self.fail_ok(n)) by {
            if n != 0 {
                let f = self.nodes[n].suffix_link->0 as int;
                assert forall|m: int|
                    self.valid_id(m) && #[trigger] is_proper_suffix(self.word(m), self.word(n))
                        implies self.word(m).len() <= self.word(f).len() by {
                    assert(is_proper_suffix(other.word(m), other.word(n)));
                }
            }
        }
        match self.nodes[n].in_dict_suffix_link {
            Some(g) => {
                assert(self.nodes[g as int].in_dict == other.nodes[g as int].in_dict);
                assert forall|m: int|
                    self.valid_id(m) && self.nodes[m].in_dict && #[trigger] is_proper_suffix(
                        self.word(m),
                        self.word(n),
                    ) implies self.word(m).len() <= self.word(g as int).len() by {
                    assert(other.nodes[m].in_dict == self.nodes[m].in_dict);
                    assert(is_proper_suffix(other.word(m), other.word(n)));
                }
            },
            None => {
                assert forall|m: int|
                    self.valid_id(m) && self.nodes[m].in_dict implies !#[trigger] is_proper_suffix(
                        self.word(m),
                        self.word(n),
                    ) by {
                    assert(other.nodes[m].in_dict == self.nodes[m].in_dict);
                    assert(!is_proper_suffix(other.word(m), other.word(n)));
                }
            },
        }
    }

    /// Computes the failure link and the dictionary-suffix link of node `n`,
    /// given those of every shallower node.
    fn set_node_links(&mut self, n: NodeId, Ghost(patterns): Ghost<Set<Seq<char>>>)
        requires
            old(self).wf(patterns),
            0 < n < old(self).nodes.len(),
            forall|m: int|
                old(self).valid_id(m) && old(self).word(m).len() < old(self).word(n as int).len()
                    ==> #[trigger] old(self).links_ok(m),
        ensures
            final(self).same_shape(old(self)),
            final(self).wf(patterns),
            final(self).links_ok(n as int),
            forall|m: int|
                0 <= m < final(self).nodes.len() && m != n ==> #[trigger] final(self).nodes[m]
                    == old(self).nodes[m],
    {
        proof {
            assert(self.parent_ok(n as int));
        }
        let parent_id = self.nodes[n].parent.unwrap();
        let label = self.nodes[n].label.unwrap();
        let ghost w = self.word(n as int);
        let ghost pw = self.word(parent_id as int);
        let mut traversing = parent_id;
        let mut link = ROOT_ID;
        let mut done = false;
        proof {
            lemma_suffix_self(pw);
        }
        while !done
            invariant
                self.wf(patterns),
                self.valid_id(n as int),
                n > 0,
                self.word(n as int) == w,
                w == pw.push(label),
                self.valid_id(parent_id as int),
                self.word(parent_id as int) == pw,
                forall|m: int|
                    self.valid_id(m) && self.word(m).len() < w.len() ==> #[trigger] self.links_ok(m),
                self.valid_id(traversing as int),
                is_suffix(self.word(traversing as int), pw),
                !done ==> link == ROOT_ID,
                !done ==> traversing != parent_id ==> !self.nodes[traversing as int].children@.contains_key(label as u32),
                !done ==> forall|x: int|
                    self.valid_id(x) && #[trigger] is_proper_suffix(self.word(x), w) && self.word(x).len() > 0
                        ==> self.word(x).len() <= self.word(traversing as int).len() + 1,
                done ==> self.valid_id(link as int),
                done ==> is_proper_suffix(self.word(link as int), w),
                done ==> forall|m: int|
                    self.valid_id(m) && #[trigger] is_proper_suffix(self.word(m), w)
                        ==> self.word(m).len() <= self.word(link as int).len(),
            decreases self.word(traversing as int).len() + (if done { 0int } else { 1int }),
        {
            let ghost t = traversing as int;
            proof {
                assert(self.links_ok(t));
            }
            match self.nodes[traversing].suffix_link {
                None => {
                    proof {
                        assert(t == 0);
                        lemma_suffix_self(w);
                        assert forall|m: int|
                            self.valid_id(m) && #[trigger] is_proper_suffix(self.word(m), w)
                                implies self.word(m).len() <= self.word(0).len() by {
                            if self.word(m).len() > 0 {
                                let x = self.word(m);
                                lemma_suffix_pop(x, pw, label);
                                if t == parent_id {
                                    assert(pw.len() == 0);
                                } else {
                                    assert(x.drop_last() =~= Seq::<char>::empty());
                                    assert(self.has_word(self.word(0).push(label)));
                                    self.lemma_child_iff(0, label);
                                }
                            }
                        }
                    }
                    done = true;
                },
                Some(next) => {
                    proof {
                        let tw = self.word(t);
                        let nw = self.word(next as int);
                        assert(is_proper_suffix(nw, tw));
                        lemma_suffix_trans(nw, tw, pw);
                        assert forall|x: int|
                            self.valid_id(x) && #[trigger] is_proper_suffix(self.word(x), w) && self.word(x).len() > 0
                                implies self.word(x).len() <= nw.len() + 1 by {
                            let xw = self.word(x);
                            lemma_suffix_pop(xw, pw, label);
                            let s = xw.drop_last();
                            assert(self.has_word(s.push(label)));
                            self.lemma_node_prefix(patterns, s, label);
                            let sn = choose|sn: int| self.valid_id(sn) && #[trigger] self.word(sn) == s;
                            self.lemma_child_iff(sn, label);
                            if t == parent_id {
                                assert(is_proper_suffix(self.word(sn), tw));
                            } else {
                                if s.len() == tw.len() {
                                    lemma_suffixes_nest(s, tw, pw);
                                    assert(tw.subrange(0, tw.len() as int) =~= tw);
                                    assert(s == tw);
                                    assert(sn == t);
                                }
                                lemma_suffixes_nest(s, tw, pw);
                                assert(is_proper_suffix(self.word(sn), tw));
                            }
                        }
                    }
                    traversing = next;
                    match self.nodes[traversing].children.get(&(label as u32)) {
                        Some(child) => {
                            link = *child;
                            proof {
                                let nw = self.word(next as int);
                                assert(self.child_ok(next as int, label));
                                lemma_suffix_push(nw, pw, label);
                                assert forall|m: int|
                                    self.valid_id(m) && #[trigger] is_proper_suffix(self.word(m), w)
                                        implies self.word(m).len() <= self.word(link as int).len() by {
                                    if self.word(m).len() > 0 {
                                    }
                                }
                            }
                            done = true;
                        },
                        None => {
                            proof {
                                assert(traversing != parent_id);
                            }
                        },
                    }
                },
            }
        }
        let dict_link = if self.nodes[link].in_dict {
            Some(link)
        } else {
            self.nodes[link].in_dict_suffix_link
        };
        let ghost before = *self;
        proof {
            let lw = self.word(link as int);
            assert(self.links_ok(link as int));
            match dict_link {
                Some(g) => {
                    if g != link {
                        lemma_suffix_trans(self.word(g as int), lw, w);
                    }
                    assert forall|m: int|
                        self.valid_id(m) && self.nodes[m].in_dict && #[trigger] is_proper_suffix(
                            self.word(m),
                            w,
                        ) implies self.word(m).len() <= self.word(g as int).len() by {
                        if g != link {
                            if self.word(m).len() == lw.len() {
                                lemma_suffixes_nest(self.word(m), lw, w);
                                assert(lw.subrange(0, lw.len() as int) =~= lw);
                                assert(m == link);
                            }
                            lemma_suffixes_nest(self.word(m), lw, w);
                            assert(is_proper_suffix(self.word(m), lw));
                        }
                    }
                },
                None => {
                    assert forall|m: int|
                        self.valid_id(m) && self.nodes[m].in_dict implies !#[trigger] is_proper_suffix(
                            self.word(m),
                            w,
                        ) by {
                        if is_proper_suffix(self.word(m), w) {
                            if self.word(m).len() == lw.len() {
                                lemma_suffixes_nest(self.word(m), lw, w);
                                assert(lw.subrange(0, lw.len() as int) =~= lw);
                                assert(m == link);
                            }
                            lemma_suffixes_nest(self.word(m), lw, w);
                            assert(is_proper_suffix(self.word(m), lw));
                        }
                    }
                },
            }
        }
        self.nodes[n].suffix_link = Some(link);
        self.nodes[n].in_dict_suffix_link = dict_link;
        proof {
            self.lemma_same_shape(&before, patterns);
            assert(self.fail_ok(n as int)) by {
                assert forall|m: int|
                    self.valid_id(m) && #[trigger] is_proper_suffix(self.word(m), self.word(n as int))
                        implies self.word(m).len() <= self.word(link as int).len() by {
                    assert(before.word(m) == self.word(m));
                }
            }
            assert(self.dict_ok(n as int)) by {
                match dict_link {
                    Some(g) => {
                        assert(self.nodes[g as int].in_dict == before.nodes[g as int].in_dict);
                        assert forall|m: int|
                            self.valid_id(m) && self.nodes[m].in_dict && #[trigger] is_proper_suffix(
                                self.word(m),
                                self.word(n as int),
                            ) implies self.word(m).len() <= self.word(g as int).len() by {
                            assert(before.nodes[m].in_dict == self.nodes[m].in_dict);
                        }
                    },
                    None => {
                        assert forall|m: int|
                            self.valid_id(m) && self.nodes[m].in_dict implies !#[trigger] is_proper_suffix(
                                self.word(m),
                                self.word(n as int),
                            ) by {
                            assert(before.nodes[m].in_dict == self.nodes[m].in_dict);
                        }
                    },
                }
            }
        }
    }

    /// Resolves every node's links, breadth-first: nodes are grouped by depth
    /// and each depth is handled after all shallower ones.
    fn set_links(&mut self, Ghost(patterns): Ghost<Set<Seq<char>>>)
        requires
            old(self).wf(patterns),
            old(self).nodes[0].suffix_link is None,
            old(self).nodes[0].in_dict_suffix_link is None,
        ensures
            final(self).wf(patterns),
            final(self).linked(),
            final(self).same_shape(old(self)),
    {
        let count = self.nodes.len();
        let mut levels: Vec<Vec<NodeId>> = Vec::new();
        let mut n: usize = 0;
        while n < count
            invariant
                count == self.nodes.len(),
                n <= count,
                forall|d: int, j: int|
                    0 <= d < levels.len() && 0 <= j < levels[d].len() ==> #[trigger] levels[d][j]
                        < count && self.nodes[levels[d][j] as int].depth == d,
                forall|m: int|
                    0 <= m < n ==> #[trigger] self.nodes[m].depth < levels.len()
                        && levels[self.nodes[m].depth as int]@.contains(m as usize),
            decreases count - n,
        {
            let depth = self.nodes[n].depth;
            while levels.len() <= depth
                invariant
                    forall|d: int, j: int|
                        0 <= d < levels.len() && 0 <= j < levels[d].len() ==> #[trigger] levels[d][j]
                            < count && self.nodes[levels[d][j] as int].depth == d,
                    forall|m: int|
                        0 <= m < n ==> #[trigger] self.nodes[m].depth < levels.len()
                            && levels[self.nodes[m].depth as int]@.contains(m as usize),
                decreases depth + 1 - levels.len(),
            {
                levels.push(Vec::new());
            }
            let ghost old_levels = levels@;
            levels[depth].push(n);
            proof {
                assert forall|m: int| 0 <= m < n + 1 implies #[trigger] self.nodes[m].depth < levels.len()
                    && levels[self.nodes[m].depth as int]@.contains(m as usize) by {
                    if m < n {
                        let dm = self.nodes[m].depth as int;
                        let k = choose|k: int| 0 <= k < old_levels[dm]@.len() && old_levels[dm]@[k] == m as usize;
                        assert(levels[dm]@[k] == m as usize);
                    } else {
                        assert(levels[depth as int]@[levels[depth as int]@.len() - 1] == m as usize);
                    }
                }
            }
            n += 1;
        }
        proof {
            assert(self.nodes[0].depth < levels.len());
            assert(self.links_ok(0));
            assert forall|m: int| self.valid_id(m) && self.word(m).len() < 1 implies #[trigger] self.links_ok(m) by {
                assert(self.word(m) =~= self.word(0));
            }
        }
        let mut d: usize = 1;
        while d < levels.len()
            invariant
                self.wf(patterns),
                count == self.nodes.len(),
                1 <= d <= levels.len(),
                forall|e: int, j: int|
                    0 <= e < levels.len() && 0 <= j < levels[e].len() ==> #[trigger] levels[e][j]
                        < count && self.nodes[levels[e][j] as int].depth == e,
                forall|m: int|
                    0 <= m < count ==> #[trigger] self.nodes[m].depth < levels.len()
                        && levels[self.nodes[m].depth as int]@.contains(m as usize),
                forall|m: int| self.valid_id(m) && self.word(m).len() < d ==> #[trigger] self.links_ok(m),
                self.same_shape(old(self)),
            decreases levels.len() - d,
        {
            let mut j: usize = 0;
            while j < levels[d].len()
                invariant
                    self.wf(patterns),
                    count == self.nodes.len(),
                    1 <= d < levels.len(),
                    j <= levels[d as int].len(),
                    forall|e: int, k: int|
                        0 <= e < levels.len() && 0 <= k < levels[e].len() ==> #[trigger] levels[e][k]
                            < count && self.nodes[levels[e][k] as int].depth == e,
                    forall|m: int|
                        0 <= m < count ==> #[trigger] self.nodes[m].depth < levels.len()
                            && levels[self.nodes[m].depth as int]@.contains(m as usize),
                    forall|m: int| self.valid_id(m) && self.word(m).len() < d ==> #[trigger] self.links_ok(m),
                    forall|k: int| 0 <= k < j ==> #[trigger] self.links_ok(levels[d as int][k] as int),
                    self.same_shape(old(self)),
                decreases levels[d as int].len() - j,
            {
                let node_id = levels[d][j];
                let ghost before = *self;
                proof {
                    assert(levels[d as int][j as int] < count);
                    assert(self.nodes[node_id as int].depth == d);
                }
                self.set_node_links(node_id, Ghost(patterns));
                proof {
                    Tree::lemma_same_shape_trans(&*self, &before, &*old(self));
                    assert forall|m: int| 0 <= m < count implies #[trigger] self.nodes[m].depth == before.nodes[m].depth by {
                        assert(self.nodes[m] == self.nodes[m]);
                    }
                    assert forall|m: int| self.valid_id(m) && self.word(m).len() < d implies #[trigger] self.links_ok(m) by {
                        assert(before.links_ok(m));
                        if m != node_id {
                            self.lemma_links_frame(&before, m);
                        }
                    }
                    assert forall|k: int| 0 <= k < j + 1 implies #[trigger] self.links_ok(levels[d as int][k] as int) by {
                        let m = levels[d as int][k] as int;
                        if m != node_id {
                            assert(before.links_ok(m));
                            self.lemma_links_frame(&before, m);
                        }
                    }
                }
                j += 1;
            }
            proof {
                assert forall|m: int| self.valid_id(m) && self.word(m).len() < d + 1 implies #[trigger] self.links_ok(m) by {
                    if self.word(m).len() == d {
                        assert(self.nodes[m].depth == d);
                        let k = choose|k: int| 0 <= k < levels[d as int]@.len() && levels[d as int]@[k] == m as usize;
                        assert(self.links_ok(levels[d as int][k] as int));
                    }
                }
            }
            d += 1;
        }
        proof {
            assert forall|m: int| self.valid_id(m) implies #[trigger] self.links_ok(m) by {
                assert(self.nodes[m].depth < levels.len());
            }
        }
    }
    /// The state after reading `c` in state `node`: failure links are followed
    /// until a child on `c` exists, else the walk ends at the root.
    pub(crate) fn step(
        &self,
        node: NodeId,
        c: char,
        Ghost(w): Ghost<Seq<char>>,
        Ghost(patterns): Ghost<Set<Seq<char>>>,
    ) -> (r: NodeId)
        requires
            self.wf(patterns),
            self.linked(),
            self.tracks(node as int, w),
        ensures
            self.tracks(r as int, w.push(c)),
    {
        let ghost wc = w.push(c);
        let mut current = node;
        proof {
            assert forall|x: int|
                self.valid_id(x) && #[trigger] is_suffix(self.word(x), wc) && self.word(x).len() > 0
                    implies self.word(x).len() <= self.word(current as int).len() + 1 by {
                let xw = self.word(x);
                lemma_suffix_pop(xw, w, c);
                self.lemma_node_prefix(patterns, xw.drop_last(), c);
                let sn = choose|sn: int| self.valid_id(sn) && #[trigger] self.word(sn) == xw.drop_last();
                assert(is_suffix(self.word(sn), w));
            }
        }
        loop
            invariant
                self.wf(patterns),
                self.linked(),
                wc == w.push(c),
                self.valid_id(current as int),
                is_suffix(self.word(current as int), w),
                forall|x: int|
                    self.valid_id(x) && #[trigger] is_suffix(self.word(x), wc) && self.word(x).len() > 0
                        ==> self.word(x).len() <= self.word(current as int).len() + 1,
            decreases self.word(current as int).len(),
        {
            let ghost cw = self.word(current as int);
            if let Some(child) = self.nodes[current].children.get(&(c as u32)) {
                proof {
                    self.lemma_child(current as int, c);
                    lemma_suffix_push(cw, w, c);
                    assert forall|m: int|
                        self.valid_id(m) && #[trigger] is_suffix(self.word(m), wc)
                            implies self.word(m).len() <= self.word(*child as int).len() by {
                        if self.word(m).len() > 0 {
                        }
                    }
                }
                return *child;
            }
            proof {
                assert(self.links_ok(current as int));
            }
            match self.nodes[current].suffix_link {
                Some(f) => {
                    proof {
                        let fw = self.word(f as int);
                        lemma_suffix_trans(fw, cw, w);
                        assert forall|x: int|
                            self.valid_id(x) && #[trigger] is_suffix(self.word(x), wc) && self.word(x).len() > 0
                                implies self.word(x).len() <= fw.len() + 1 by {
                            let xw = self.word(x);
                            lemma_suffix_pop(xw, w, c);
                            let s = xw.drop_last();
                            assert(self.has_word(s.push(c)));
                            self.lemma_node_prefix(patterns, s, c);
                            let sn = choose|sn: int| self.valid_id(sn) && #[trigger] self.word(sn) == s;
                            self.lemma_child_iff(sn, c);
                            if s.len() == cw.len() {
                                lemma_suffixes_nest(s, cw, w);
                                assert(cw.subrange(0, cw.len() as int) =~= cw);
                                assert(s == cw);
                                assert(sn == current);
                            }
                            lemma_suffixes_nest(s, cw, w);
                            assert(is_proper_suffix(self.word(sn), cw));
                        }
                    }
                    current = f;
                },
                None => {
                    proof {
                        assert(current == 0);
                        lemma_suffix_self(wc);
                        assert forall|m: int|
                            self.valid_id(m) && #[trigger] is_suffix(self.word(m), wc)
                                implies self.word(m).len() <= self.word(0).len() by {
                            if self.word(m).len() > 0 {
                                let xw = self.word(m);
                                lemma_suffix_pop(xw, w, c);
                                assert(xw.drop_last() =~= self.word(0));
                                assert(self.has_word(self.word(0).push(c)));
                                self.lemma_child_iff(0, c);
                            }
                        }
                    }
                    return ROOT_ID;
                },
            }
        }
    }

    /// The deepest dictionary node whose word ends the word of `node`.
    pub(crate) fn matched(&self, node: NodeId, Ghost(patterns): Ghost<Set<Seq<char>>>) -> (r: Option<NodeId>)
        requires
            self.wf(patterns),
            self.linked(),
            self.valid_id(node as int),
        ensures
            match r {
                Some(g) => {
                    &&& self.valid_id(g as int)
                    &&& self.nodes[g as int].in_dict
                    &&& is_suffix(self.word(g as int), self.word(node as int))
                    &&& forall|m: int|
                        self.valid_id(m) && self.nodes[m].in_dict && #[trigger] is_suffix(
                            self.word(m),
                            self.word(node as int),
                        ) ==> self.word(m).len() <= self.word(g as int).len()
                },
                None => forall|m: int|
                    self.valid_id(m) && self.nodes[m].in_dict ==> !#[trigger] is_suffix(
                        self.word(m),
                        self.word(node as int),
                    ),
            },
    {
        proof {
            assert(self.links_ok(node as int));
            lemma_suffix_self(self.word(node as int));
        }
        if self.nodes[node].in_dict {
            Some(node)
        } else {
            proof {
                assert forall|m: int|
                    self.valid_id(m) && self.nodes[m].in_dict && #[trigger] is_suffix(self.word(m), self.word(node as int))
                        implies is_proper_suffix(self.word(m), self.word(node as int)) by {
                    if self.word(m).len() == self.word(node as int).len() {
                        let nw = self.word(node as int);
                        assert(nw.subrange(0, nw.len() as int) =~= nw);
                        assert(m == node);
                    }
                }
            }
            self.nodes[node].in_dict_suffix_link
        }
    }
}

} // verus!
