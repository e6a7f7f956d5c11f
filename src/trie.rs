//! A prefix tree over strings, answering whole-word and prefix queries.
//!
//! Nodes live in one vector; node `0` is the root and each edge is a
//! character together with the index of the child it leads to.
use vstd::prelude::*;

verus! {

broadcast use vstd::string::axiom_spec_iter;

/// `p` is an initial segment of `w`.
pub open spec fn prefix_of(p: Seq<char>, w: Seq<char>) -> bool {
    p.len() <= w.len() && w.take(p.len() as int) == p
}

/// A node of the tree: its outgoing edges and whether a word ends here.
pub struct TrieNode {
    pub children: Vec<(char, usize)>,
    pub is_word: bool,
}

impl TrieNode {
    fn new() -> (r: Self)
        ensures
            r.children@.len() == 0,
            !r.is_word,
    {
        TrieNode { children: Vec::new(), is_word: false }
    }
}

/// A set of words stored as a prefix tree.
pub struct Trie {
    nodes: Vec<TrieNode>,
    /// The characters read from the root to reach each node.
    paths: Ghost<Seq<Seq<char>>>,
    /// For each node but the root, the node and edge position that lead to it.
    parents: Ghost<Seq<(int, int)>>,
    /// For each node, a stored word that passes through it.
    witness: Ghost<Seq<Seq<char>>>,
    /// The stored words.
    words: Ghost<Set<Seq<char>>>,
}

impl View for Trie {
    type V = Set<Seq<char>>;

    /// The stored words.
    closed spec fn view(&self) -> Set<Seq<char>> {
        self.words@
    }
}

impl Trie {
    /// The nodes form a tree whose paths are distinct and whose edges agree
    /// with the paths.
    spec fn shape_ok(&self) -> bool {
        let nodes = self.nodes@;
        let paths = self.paths@;
        &&& nodes.len() >= 1
        &&& paths.len() == nodes.len()
        &&& self.parents@.len() == nodes.len()
        &&& self.witness@.len() == nodes.len()
        &&& paths[0] == Seq::<char>::empty()
        &&& forall|n: int, j: int|
            0 <= n < nodes.len() && 0 <= j < nodes[n].children@.len() ==> {
                let e = #[trigger] nodes[n].children@[j];
                &&& e.1 < nodes.len()
                &&& paths[e.1 as int] == paths[n].push(e.0)
            }
        &&& forall|a: int, b: int|
            0 <= a < b < nodes.len() ==> #[trigger] paths[a] != #[trigger] paths[b]
        &&& forall|m: int|
            0 < m < nodes.len() ==> {
                let (n, j) = #[trigger] self.parents@[m];
                &&& 0 <= n < nodes.len()
                &&& 0 <= j < nodes[n].children@.len()
                &&& nodes[n].children@[j].1 == m
            }
    }

    /// Word marks agree with `words`, and every word has a node.
    spec fn marks_ok(&self, words: Set<Seq<char>>) -> bool {
        &&& forall|n: int|
            0 <= n < self.nodes@.len() ==> (#[trigger] self.nodes@[n].is_word <==> words.contains(
                self.paths@[n],
            ))
        &&& forall|w: Seq<char>|
            #[trigger] words.contains(w) ==> exists|n: int|
                0 <= n < self.nodes@.len() && #[trigger] self.paths@[n] == w
    }

    /// Every node but the root lies on a word of `words`.
    spec fn witnesses_ok(&self, words: Set<Seq<char>>) -> bool {
        forall|n: int|
            0 < n < self.nodes@.len() ==> words.contains(#[trigger] self.witness@[n]) && prefix_of(
                self.paths@[n],
                self.witness@[n],
            )
    }

    /// The tree is well formed and holds exactly the stored words.
    pub closed spec fn wf(&self) -> bool {
        &&& self.shape_ok()
        &&& self.marks_ok(self.words@)
        &&& self.witnesses_ok(self.words@)
    }

    /// Every prefix of a node's path is the path of some node.
    proof fn lemma_prefix_has_node(&self, m: int, k: int)
        requires
            self.shape_ok(),
            0 <= m < self.nodes@.len(),
            0 <= k <= self.paths@[m].len(),
        ensures
            exists|a: int| 0 <= a < self.nodes@.len() && self.paths@[a] == self.paths@[m].take(k),
        decreases self.paths@[m].len(),
    {
        if k == self.paths@[m].len() {
            assert(self.paths@[m].take(k) =~= self.paths@[m]);
        } else {
            assert(m != 0);
            let (n, j) = self.parents@[m];
            let e = self.nodes@[n].children@[j];
            assert(self.paths@[m] == self.paths@[n].push(e.0));
            assert(self.paths@[m].take(k) =~= self.paths@[n].take(k));
            self.lemma_prefix_has_node(n, k);
        }
    }

    /// When node `cur` has no edge labelled `c`, no node's path extends
    /// the path of `cur` by `c`.
    proof fn lemma_missing_edge(&self, cur: int, c: char)
        requires
            self.shape_ok(),
            0 <= cur < self.nodes@.len(),
            forall|j: int|
                0 <= j < self.nodes@[cur].children@.len() ==> (#[trigger] self.nodes@[cur].children@[j]).0
                    != c,
        ensures
            forall|a: int|
                0 <= a < self.nodes@.len() ==> !prefix_of(
                    self.paths@[cur].push(c),
                    #[trigger] self.paths@[a],
                ),
    {
        let q = self.paths@[cur].push(c);
        assert forall|a: int| 0 <= a < self.nodes@.len() implies !prefix_of(
            q,
            #[trigger] self.paths@[a],
        ) by {
            if prefix_of(q, self.paths@[a]) {
                self.lemma_prefix_has_node(a, q.len() as int);
                let b = choose|b: int| 0 <= b < self.nodes@.len() && self.paths@[b] == self.paths@[a].take(q.len() as int);
                assert(self.paths@[b] == q);
                assert(b != 0) by {
                    assert(self.paths@[0].len() == 0);
                }
                let (n, j) = self.parents@[b];
                let e = self.nodes@[n].children@[j];
                assert(self.paths@[b] == self.paths@[n].push(e.0));
                assert(self.paths@[n] =~= q.drop_last());
                assert(self.paths@[cur] =~= q.drop_last());
                if n != cur {
                    if n < cur {
                        assert(self.paths@[n] != self.paths@[cur]);
                    } else {
                        assert(self.paths@[cur] != self.paths@[n]);
                    }
                }
                assert(e.0 == q.last());
            }
        }
    }

    /// The child of node `n` along an edge labelled `c`, if there is one.
    fn find_child(&self, n: usize, c: char) -> (r: Option<usize>)
        requires
            self.shape_ok(),
            n < self.nodes@.len(),
        ensures
            r matches Some(m) ==> m < self.nodes@.len() && self.paths@[m as int]
                == self.paths@[n as int].push(c),
            r is None ==> forall|j: int|
                0 <= j < self.nodes@[n as int].children@.len() ==> (
                #[trigger] self.nodes@[n as int].children@[j]).0 != c,
    {
        let children = &self.nodes[n].children;
        let mut j: usize = 0;
        while j < children.len()
            invariant
                self.shape_ok(),
                n < self.nodes@.len(),
                children@ == self.nodes@[n as int].children@,
                j <= children@.len(),
                forall|i: int| 0 <= i < j ==> (#[trigger] children@[i]).0 != c,
            decreases children@.len() - j,
        {
            if children[j].0 == c {
                return Some(children[j].1);
            }
            j = j + 1;
        }
        None
    }

    /// An empty tree.
    pub fn new() -> (r: Self)
        ensures
            r.wf(),
            r@ == Set::<Seq<char>>::empty(),
    {
        let mut nodes: Vec<TrieNode> = Vec::new();
        nodes.push(TrieNode::new());
        let ghost paths = seq![Seq::<char>::empty()];
        let ghost parents = seq![(0int, 0int)];
        Trie {
            nodes,
            paths: Ghost(paths),
            parents: Ghost(parents),
            witness: Ghost(paths),
            words: Ghost(Set::empty()),
        }
    }

    /// True when `word` has been inserted.
    pub fn search(&self, word: String) -> (r: bool)
        requires
            self.wf(),
        ensures
            r == self@.contains(word@),
    {
        let mut cur: usize = 0;
        for c in it: word.as_str().chars()
            invariant
                self.wf(),
                it.seq() == word@,
                cur < self.nodes@.len(),
                self.paths@[cur as int] == word@.take(it.index()),
        {
            match self.find_child(cur, c) {
                Some(next) => {
                    assert(word@.take(it.index() + 1) =~= word@.take(it.index()).push(c));
                    cur = next;
                },
                None => {
                    proof {
                        self.lemma_missing_edge(cur as int, c);
                        assert(word@.take(it.index() + 1) =~= self.paths@[cur as int].push(c));
                        if self@.contains(word@) {
                            let m = choose|m: int| 0 <= m < self.nodes@.len() && self.paths@[m] == word@;
                            assert(prefix_of(self.paths@[cur as int].push(c), self.paths@[m]));
                        }
                    }
                    return false;
                },
            }
        }
        assert(word@.take(word@.len() as int) =~= word@);
        self.nodes[cur].is_word
    }

    /// True when `prefix` is empty or begins some inserted word.
    pub fn starts_with(&self, prefix: String) -> (r: bool)
        requires
            self.wf(),
        ensures
            r == (prefix@.len() == 0 || exists|w: Seq<char>|
                self@.contains(w) && prefix_of(prefix@, w)),
    {
        let mut cur: usize = 0;
        for c in it: prefix.as_str().chars()
            invariant
                self.wf(),
                it.seq() == prefix@,
                cur < self.nodes@.len(),
                self.paths@[cur as int] == prefix@.take(it.index()),
        {
            match self.find_child(cur, c) {
                Some(next) => {
                    assert(prefix@.take(it.index() + 1) =~= prefix@.take(it.index()).push(c));
                    cur = next;
                },
                None => {
                    proof {
                        self.lemma_missing_edge(cur as int, c);
                        let q = self.paths@[cur as int].push(c);
                        assert(prefix@.take(it.index() + 1) =~= q);
                        assert forall|w: Seq<char>| self@.contains(w) implies !prefix_of(prefix@, w) by {
                            let m = choose|m: int| 0 <= m < self.nodes@.len() && self.paths@[m] == w;
                            if prefix_of(prefix@, w) {
                                assert(w.take(q.len() as int) =~= q);
                                assert(prefix_of(q, self.paths@[m]));
                            }
                        }
                    }
                    return false;
                },
            }
        }
        proof {
            assert(prefix@.take(prefix@.len() as int) =~= prefix@);
            if prefix@.len() > 0 {
                assert(cur != 0);
                let w = self.witness@[cur as int];
                assert(self@.contains(w) && prefix_of(prefix@, w));
            }
        }
        true
    }

    /// Adds `word`, creating the nodes that its path lacks.
    pub fn insert(&mut self, word: String)
        requires
            old(self).wf(),
        ensures
            final(self).wf(),
            final(self)@ == old(self)@.insert(word@),
    {
        let ghost new_words = self.words@.insert(word@);
        let mut cur: usize = 0;
        for c in it: word.as_str().chars()
            invariant
                self.shape_ok(),
                self.marks_ok(self.words@),
                self.witnesses_ok(new_words),
                self.words@ == old(self).words@,
                new_words == self.words@.insert(word@),
                it.seq() == word@,
                cur < self.nodes@.len(),
                self.paths@[cur as int] == word@.take(it.index()),
        {
            proof {
                assert(word@.take(it.index() + 1) =~= word@.take(it.index()).push(c));
            }
            match self.find_child(cur, c) {
                Some(next) => {
                    cur = next;
                },
                None => {
                    proof {
                        self.lemma_missing_edge(cur as int, c);
                    }
                    let ghost nodes0 = self.nodes@;
                    let ghost paths0 = self.paths@;
                    let ghost q = paths0[cur as int].push(c);
                    let m = self.nodes.len();
                    self.nodes.push(TrieNode::new());
                    let ghost j = self.nodes@[cur as int].children@.len() as int;
                    self.nodes[cur].children.push((c, m));
                    self.paths = Ghost(paths0.push(q));
                    self.parents = Ghost(self.parents@.push((cur as int, j)));
                    self.witness = Ghost(self.witness@.push(word@));
                    proof {
                        let nodes = self.nodes@;
                        assert(nodes.len() == m + 1);
                        assert forall|n: int| 0 <= n < m && n != cur implies #[trigger] nodes[n] == nodes0[n] by {}
                        assert(nodes[cur as int].children@ == nodes0[cur as int].children@.push((c, m)));
                        assert forall|a: int| 0 <= a < m implies #[trigger] paths0[a] != q by {
                            assert(!prefix_of(q, paths0[a]));
                            if paths0[a] == q {
                                assert(q.take(q.len() as int) =~= q);
                            }
                        }
                        assert(!self.words@.contains(q)) by {
                            if self.words@.contains(q) {
                                let a = choose|a: int| 0 <= a < m && paths0[a] == q;
                                assert(paths0[a] != q);
                            }
                        }
                        assert(prefix_of(q, word@)) by {
                            assert(word@.take(q.len() as int) =~= q);
                        }
                        assert forall|n: int| 0 <= n < m implies #[trigger] self.paths@[n] == paths0[n]
                            && nodes[n].is_word == nodes0[n].is_word by {}
                        assert forall|w: Seq<char>| #[trigger] self.words@.contains(w) implies exists|n: int|
                            0 <= n < nodes.len() && #[trigger] self.paths@[n] == w by {
                            let n = choose|n: int| 0 <= n < m && paths0[n] == w;
                            assert(self.paths@[n] == w);
                        }
                        assert(self.marks_ok(self.words@));
                    }
                    cur = m;
                },
            }
        }
        assert(word@.take(word@.len() as int) =~= word@);
        let ghost nodes0 = self.nodes@;
        let ghost words0 = self.words@;
        let ghost paths0 = self.paths@;
        assert(self.marks_ok(words0));
        self.nodes[cur].is_word = true;
        self.words = Ghost(new_words);
        proof {
            let nodes = self.nodes@;
            assert forall|n: int| 0 <= n < nodes.len() && n != cur implies #[trigger] nodes[n] == nodes0[n] by {}
            assert(nodes[cur as int].children@ == nodes0[cur as int].children@);
            assert forall|n: int| 0 <= n < nodes.len() implies (#[trigger] nodes[n].is_word <==> new_words.contains(
                self.paths@[n],
            )) by {
                if n != cur {
                    if n < cur {
                        assert(self.paths@[n] != self.paths@[cur as int]);
                    } else {
                        assert(self.paths@[cur as int] != self.paths@[n]);
                    }
                }
            }
            assert forall|w: Seq<char>| #[trigger] new_words.contains(w) implies exists|n: int|
                0 <= n < nodes.len() && #[trigger] self.paths@[n] == w by {
                if w == word@ {
                    assert(self.paths@[cur as int] == w);
                } else {
                    assert(words0.contains(w));
                    let n = choose|n: int| 0 <= n < nodes0.len() && paths0[n] == w;
                    assert(self.paths@[n] == w);
                }
            }
        }
    }
}

} // verus!
