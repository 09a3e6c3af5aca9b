//! An immutable, lossless model of a parsed source file.
//!
//! The external parser produces a lossless syntax tree; this module models it
//! as an arena: a flat stream of tokens (every character of the source lives
//! in exactly one token, whitespace and comments included) plus a vector of
//! nodes, each covering a contiguous token range and listing its child nodes
//! in source order.  Indices into the arena are stable, and every child index
//! is strictly greater than its parent's, so downward traversals terminate.

use vstd::prelude::*;

verus! {

/// The lexical classification of a token, as far as documentation
/// extraction cares: trivia (whitespace, comments) versus everything else.
#[derive(Clone, Copy, Debug, PartialEq, Eq, Structural)]
pub enum TokenKind {
    Whitespace,
    Comment,
    Other,
}

/// The grammar rule that produced a node.  Only the constructs the
/// extraction walks are distinguished; every other rule maps to `Other`.
#[derive(Clone, Copy, Debug, PartialEq, Eq, Structural)]
pub enum NodeKind {
    Root,
    AttrSet,
    LetIn,
    AttrpathValue,
    Attrpath,
    Inherit,
    InheritFrom,
    Ident,
    Lambda,
    IdentParam,
    Pattern,
    PatEntry,
    Other,
}

/// A leaf of the tree: a kind and the exact source text.
pub struct Token {
    pub kind: TokenKind,
    pub text: String,
}

/// An interior node: a kind, the child nodes in source order, and the
/// half-open range `[lo, hi)` of token indices the node covers.
pub struct Node {
    pub kind: NodeKind,
    pub children: Vec<usize>,
    pub lo: usize,
    pub hi: usize,
}

/// The arena: all tokens of one source file in source order, and all nodes,
/// laid out so that every child node has a larger index than its parent.
pub struct Tree {
    pub tokens: Vec<Token>,
    pub nodes: Vec<Node>,
}

impl Tree {
    /// The `j`-th child of node `n` points past `n`, into the arena, and its
    /// token range nests inside `n`'s.
    pub open spec fn wf_child(self, n: int, j: int) -> bool {
        let node = self.nodes[n];
        let c = node.children[j] as int;
        &&& n < c < self.nodes.len()
        &&& node.lo <= self.nodes[c].lo
        &&& self.nodes[c].hi <= node.hi
    }

    /// Children `j` and `j + 1` of node `n` stand in source order: rising
    /// indices and non-overlapping token ranges.
    pub open spec fn wf_order(self, n: int, j: int) -> bool {
        let node = self.nodes[n];
        &&& node.children[j] < node.children[j + 1]
        &&& self.nodes[node.children[j] as int].hi <= self.nodes[node.children[j + 1] as int].lo
    }

    /// Structural soundness of one node: its token range lies within the
    /// stream, each child index points past the node itself, each child's
    /// range nests inside the node's, and the children appear in source
    /// order without overlap.
    pub open spec fn wf_node(self, n: int) -> bool {
        let node = self.nodes[n];
        &&& node.lo <= node.hi <= self.tokens.len()
        &&& forall|j: int| 0 <= j < node.children.len() ==> self.wf_child(n, j)
        &&& forall|j: int| 0 <= j && j + 1 < node.children.len() ==> self.wf_order(n, j)
    }

    /// Structural soundness of the whole arena.
    pub open spec fn wf(self) -> bool {
        forall|n: int| 0 <= n < self.nodes.len() ==> self.wf_node(n)
    }

    /// The text of the token range `[i, j)`, concatenated in source order.
    pub open spec fn text_range(self, i: int, j: int) -> Seq<char>
        decreases j - i,
    {
        if j <= i {
            Seq::empty()
        } else {
            self.tokens[i].text@ + self.text_range(i + 1, j)
        }
    }

    /// The exact source text covered by node `n`.
    pub open spec fn node_text_spec(self, n: int) -> Seq<char> {
        self.text_range(self.nodes[n].lo as int, self.nodes[n].hi as int)
    }

    /// Appending one more token to a range appends its text.
    pub proof fn lemma_text_range_snoc(self, i: int, j: int)
        requires
            i <= j,
        ensures
            self.text_range(i, j + 1) == self.text_range(i, j) + self.tokens[j].text@,
        decreases j - i,
    {
        if i == j {
            assert(self.text_range(i, j) == Seq::<char>::empty());
            assert(self.text_range(i, j + 1) == self.tokens[i].text@ + self.text_range(
                i + 1,
                j + 1,
            ));
            assert(self.text_range(i + 1, j + 1) == Seq::<char>::empty());
            assert(self.text_range(i, j + 1) =~= self.text_range(i, j) + self.tokens[j].text@);
        } else {
            self.lemma_text_range_snoc(i + 1, j);
            assert(self.text_range(i, j + 1) =~= self.text_range(i, j) + self.tokens[j].text@);
        }
    }

    /// Checks the invariant of one node at run time.
    pub fn check_wf_node(&self, n: usize) -> (b: bool)
        requires
            n < self.nodes.len(),
        ensures
            b == self.wf_node(n as int),
    {
        let node = &self.nodes[n];
        if !(node.lo <= node.hi && node.hi <= self.tokens.len()) {
            assert(!self.wf_node(n as int));
            return false;
        }
        let mut j: usize = 0;
        while j < node.children.len()
            invariant
                j <= node.children.len(),
                n < self.nodes.len(),
                node == &self.nodes[n as int],
                node.lo <= node.hi <= self.tokens.len(),
                forall|i: int| 0 <= i < j ==> self.wf_child(n as int, i),
                forall|i: int| 0 <= i && i + 1 < j ==> self.wf_order(n as int, i),
            decreases node.children.len() - j,
        {
            let c = node.children[j];
            if !(n < c && c < self.nodes.len()) {
                assert(!self.wf_child(n as int, j as int));
                return false;
            }
            if !(node.lo <= self.nodes[c].lo && self.nodes[c].hi <= node.hi) {
                assert(!self.wf_child(n as int, j as int));
                return false;
            }
            if j > 0 {
                let p = node.children[j - 1];
                if !(p < c && self.nodes[p].hi <= self.nodes[c].lo) {
                    assert(!self.wf_order(n as int, j - 1));
                    return false;
                }
                assert(self.wf_order(n as int, j - 1));
            }
            assert(self.wf_child(n as int, j as int));
            proof {
                if j > 0 {
                    assert forall|i: int| 0 <= i && i + 1 < j + 1 implies self.wf_order(
                        n as int,
                        i,
                    ) by {
                        if i + 1 < j {
                        } else {
                            assert(i == j - 1);
                        }
                    }
                }
            }
            j += 1;
        }
        assert(self.wf_node(n as int));
        true
    }

    /// Checks the structural invariant at run time, so that unverified
    /// callers that built an arena by hand can establish it before handing
    /// the tree to the extraction.
    pub fn check_wf(&self) -> (b: bool)
        ensures
            b == self.wf(),
    {
        let mut n: usize = 0;
        while n < self.nodes.len()
            invariant
                n <= self.nodes.len(),
                forall|m: int| 0 <= m < n ==> self.wf_node(m),
            decreases self.nodes.len() - n,
        {
            if !self.check_wf_node(n) {
                return false;
            }
            n += 1;
        }
        true
    }

    /// The exact source text covered by node `n`, assembled token by token.
    pub fn node_text(&self, n: usize) -> (r: String)
        requires
            self.wf(),
            n < self.nodes.len(),
        ensures
            r@ == self.node_text_spec(n as int),
    {
        let mut r = String::new();
        let lo = self.nodes[n].lo;
        let hi = self.nodes[n].hi;
        assert(self.wf_node(n as int));
        let mut k: usize = lo;
        while k < hi
            invariant
                lo <= k <= hi <= self.tokens.len(),
                r@ == self.text_range(lo as int, k as int),
            decreases hi - k,
        {
            r.append(self.tokens[k].text.as_str());
            proof {
                self.lemma_text_range_snoc(lo as int, k as int);
            }
            k += 1;
        }
        r
    }
}

/// The first child of `n` from position `j` on that is a parameter node (flat identifier or destructuring pattern).
pub open spec fn param_search(tr: Tree, n: int, j: int) -> Option<int>
    decreases tr.nodes[n].children.len() - j,
{
    if j < 0 || j >= tr.nodes[n].children.len() {
        None
    } else {
        let c = tr.nodes[n].children[j] as int;
        let k = tr.nodes[c].kind;
        if c < tr.nodes.len() && (k == NodeKind::IdentParam || k == NodeKind::Pattern) {
            Some(c)
        } else {
            param_search(tr, n, j + 1)
        }
    }
}

/// Finds a parameter node (flat identifier or destructuring pattern).
pub fn find_param_child(tr: &Tree, n: usize) -> (r: Option<usize>)
    requires
        tr.wf(),
        n < tr.nodes.len(),
    ensures
        match r {
            Some(c) => param_search(*tr, n as int, 0) == Some(c as int) && (n as int) < c
                < tr.nodes.len(),
            None => param_search(*tr, n as int, 0) is None,
        },
{
    let mut j: usize = 0;
    while j < tr.nodes[n].children.len()
        invariant
            tr.wf(),
            n < tr.nodes.len(),
            0 <= j <= tr.nodes[n as int].children.len(),
            param_search(*tr, n as int, 0) == param_search(*tr, n as int, j as int),
        decreases tr.nodes[n as int].children.len() - j,
    {
        assert(tr.wf_node(n as int));
        assert(tr.wf_child(n as int, j as int));
        let c = tr.nodes[n].children[j];
        let k = tr.nodes[c].kind;
        if k == NodeKind::IdentParam || k == NodeKind::Pattern {
            return Some(c);
        }
        j += 1;
    }
    None
}

/// The first child of `n` from position `j` on that is the body of a lambda: its first child that is no parameter.
pub open spec fn non_param_search(tr: Tree, n: int, j: int) -> Option<int>
    decreases tr.nodes[n].children.len() - j,
{
    if j < 0 || j >= tr.nodes[n].children.len() {
        None
    } else {
        let c = tr.nodes[n].children[j] as int;
        let k = tr.nodes[c].kind;
        if c < tr.nodes.len() && (!(k == NodeKind::IdentParam || k == NodeKind::Pattern)) {
            Some(c)
        } else {
            non_param_search(tr, n, j + 1)
        }
    }
}

/// Finds the body of a lambda: its first child that is no parameter.
pub fn find_non_param_child(tr: &Tree, n: usize) -> (r: Option<usize>)
    requires
        tr.wf(),
        n < tr.nodes.len(),
    ensures
        match r {
            Some(c) => non_param_search(*tr, n as int, 0) == Some(c as int) && (n as int) < c
                < tr.nodes.len(),
            None => non_param_search(*tr, n as int, 0) is None,
        },
{
    let mut j: usize = 0;
    while j < tr.nodes[n].children.len()
        invariant
            tr.wf(),
            n < tr.nodes.len(),
            0 <= j <= tr.nodes[n as int].children.len(),
            non_param_search(*tr, n as int, 0) == non_param_search(*tr, n as int, j as int),
        decreases tr.nodes[n as int].children.len() - j,
    {
        assert(tr.wf_node(n as int));
        assert(tr.wf_child(n as int, j as int));
        let c = tr.nodes[n].children[j];
        let k = tr.nodes[c].kind;
        if !(k == NodeKind::IdentParam || k == NodeKind::Pattern) {
            return Some(c);
        }
        j += 1;
    }
    None
}

/// The first child of `n` from position `j` on that is the value of a binding: its first child past the attribute path.
pub open spec fn non_attrpath_search(tr: Tree, n: int, j: int) -> Option<int>
    decreases tr.nodes[n].children.len() - j,
{
    if j < 0 || j >= tr.nodes[n].children.len() {
        None
    } else {
        let c = tr.nodes[n].children[j] as int;
        let k = tr.nodes[c].kind;
        if c < tr.nodes.len() && (k != NodeKind::Attrpath) {
            Some(c)
        } else {
            non_attrpath_search(tr, n, j + 1)
        }
    }
}

/// Finds the value of a binding: its first child past the attribute path.
pub fn find_non_attrpath_child(tr: &Tree, n: usize) -> (r: Option<usize>)
    requires
        tr.wf(),
        n < tr.nodes.len(),
    ensures
        match r {
            Some(c) => non_attrpath_search(*tr, n as int, 0) == Some(c as int) && (n as int) < c
                < tr.nodes.len(),
            None => non_attrpath_search(*tr, n as int, 0) is None,
        },
{
    let mut j: usize = 0;
    while j < tr.nodes[n].children.len()
        invariant
            tr.wf(),
            n < tr.nodes.len(),
            0 <= j <= tr.nodes[n as int].children.len(),
            non_attrpath_search(*tr, n as int, 0) == non_attrpath_search(*tr, n as int, j as int),
        decreases tr.nodes[n as int].children.len() - j,
    {
        assert(tr.wf_node(n as int));
        assert(tr.wf_child(n as int, j as int));
        let c = tr.nodes[n].children[j];
        let k = tr.nodes[c].kind;
        if k != NodeKind::Attrpath {
            return Some(c);
        }
        j += 1;
    }
    None
}

/// The first child of `n` from position `j` on that is the body of a let construct: its first child that is no binding.
pub open spec fn letin_body_search(tr: Tree, n: int, j: int) -> Option<int>
    decreases tr.nodes[n].children.len() - j,
{
    if j < 0 || j >= tr.nodes[n].children.len() {
        None
    } else {
        let c = tr.nodes[n].children[j] as int;
        let k = tr.nodes[c].kind;
        if c < tr.nodes.len() && (k != NodeKind::AttrpathValue && k != NodeKind::Inherit) {
            Some(c)
        } else {
            letin_body_search(tr, n, j + 1)
        }
    }
}

/// Finds the body of a let construct: its first child that is no binding.
pub fn find_letin_body_child(tr: &Tree, n: usize) -> (r: Option<usize>)
    requires
        tr.wf(),
        n < tr.nodes.len(),
    ensures
        match r {
            Some(c) => letin_body_search(*tr, n as int, 0) == Some(c as int) && (n as int) < c
                < tr.nodes.len(),
            None => letin_body_search(*tr, n as int, 0) is None,
        },
{
    let mut j: usize = 0;
    while j < tr.nodes[n].children.len()
        invariant
            tr.wf(),
            n < tr.nodes.len(),
            0 <= j <= tr.nodes[n as int].children.len(),
            letin_body_search(*tr, n as int, 0) == letin_body_search(*tr, n as int, j as int),
        decreases tr.nodes[n as int].children.len() - j,
    {
        assert(tr.wf_node(n as int));
        assert(tr.wf_child(n as int, j as int));
        let c = tr.nodes[n].children[j];
        let k = tr.nodes[c].kind;
        if k != NodeKind::AttrpathValue && k != NodeKind::Inherit {
            return Some(c);
        }
        j += 1;
    }
    None
}

/// The first child of `n` from position `j` on that is an identifier node.
pub open spec fn ident_search(tr: Tree, n: int, j: int) -> Option<int>
    decreases tr.nodes[n].children.len() - j,
{
    if j < 0 || j >= tr.nodes[n].children.len() {
        None
    } else {
        let c = tr.nodes[n].children[j] as int;
        let k = tr.nodes[c].kind;
        if c < tr.nodes.len() && (k == NodeKind::Ident) {
            Some(c)
        } else {
            ident_search(tr, n, j + 1)
        }
    }
}

/// Finds an identifier node among the children of `n`.
pub fn find_ident_child(tr: &Tree, n: usize) -> (r: Option<usize>)
    requires
        tr.wf(),
        n < tr.nodes.len(),
    ensures
        match r {
            Some(c) => ident_search(*tr, n as int, 0) == Some(c as int) && (n as int) < c
                < tr.nodes.len(),
            None => ident_search(*tr, n as int, 0) is None,
        },
{
    let mut j: usize = 0;
    while j < tr.nodes[n].children.len()
        invariant
            tr.wf(),
            n < tr.nodes.len(),
            0 <= j <= tr.nodes[n as int].children.len(),
            ident_search(*tr, n as int, 0) == ident_search(*tr, n as int, j as int),
        decreases tr.nodes[n as int].children.len() - j,
    {
        assert(tr.wf_node(n as int));
        assert(tr.wf_child(n as int, j as int));
        let c = tr.nodes[n].children[j];
        let k = tr.nodes[c].kind;
        if k == NodeKind::Ident {
            return Some(c);
        }
        j += 1;
    }
    None
}

/// The first child of `n` from position `j` on that is an attribute path node.
pub open spec fn attrpath_search(tr: Tree, n: int, j: int) -> Option<int>
    decreases tr.nodes[n].children.len() - j,
{
    if j < 0 || j >= tr.nodes[n].children.len() {
        None
    } else {
        let c = tr.nodes[n].children[j] as int;
        let k = tr.nodes[c].kind;
        if c < tr.nodes.len() && (k == NodeKind::Attrpath) {
            Some(c)
        } else {
            attrpath_search(tr, n, j + 1)
        }
    }
}

/// Finds an attribute path node among the children of `n`.
pub fn find_attrpath_child(tr: &Tree, n: usize) -> (r: Option<usize>)
    requires
        tr.wf(),
        n < tr.nodes.len(),
    ensures
        match r {
            Some(c) => attrpath_search(*tr, n as int, 0) == Some(c as int) && (n as int) < c
                < tr.nodes.len(),
            None => attrpath_search(*tr, n as int, 0) is None,
        },
{
    let mut j: usize = 0;
    while j < tr.nodes[n].children.len()
        invariant
            tr.wf(),
            n < tr.nodes.len(),
            0 <= j <= tr.nodes[n as int].children.len(),
            attrpath_search(*tr, n as int, 0) == attrpath_search(*tr, n as int, j as int),
        decreases tr.nodes[n as int].children.len() - j,
    {
        assert(tr.wf_node(n as int));
        assert(tr.wf_child(n as int, j as int));
        let c = tr.nodes[n].children[j];
        let k = tr.nodes[c].kind;
        if k == NodeKind::Attrpath {
            return Some(c);
        }
        j += 1;
    }
    None
}

/// The first child of `n` from position `j` on that is an inherit source form.
pub open spec fn inherit_from_search(tr: Tree, n: int, j: int) -> Option<int>
    decreases tr.nodes[n].children.len() - j,
{
    if j < 0 || j >= tr.nodes[n].children.len() {
        None
    } else {
        let c = tr.nodes[n].children[j] as int;
        let k = tr.nodes[c].kind;
        if c < tr.nodes.len() && (k == NodeKind::InheritFrom) {
            Some(c)
        } else {
            inherit_from_search(tr, n, j + 1)
        }
    }
}

/// Finds an inherit source form among the children of `n`.
pub fn find_inherit_from_child(tr: &Tree, n: usize) -> (r: Option<usize>)
    requires
        tr.wf(),
        n < tr.nodes.len(),
    ensures
        match r {
            Some(c) => inherit_from_search(*tr, n as int, 0) == Some(c as int) && (n as int) < c
                < tr.nodes.len(),
            None => inherit_from_search(*tr, n as int, 0) is None,
        },
{
    let mut j: usize = 0;
    while j < tr.nodes[n].children.len()
        invariant
            tr.wf(),
            n < tr.nodes.len(),
            0 <= j <= tr.nodes[n as int].children.len(),
            inherit_from_search(*tr, n as int, 0) == inherit_from_search(*tr, n as int, j as int),
        decreases tr.nodes[n as int].children.len() - j,
    {
        assert(tr.wf_node(n as int));
        assert(tr.wf_child(n as int, j as int));
        let c = tr.nodes[n].children[j];
        let k = tr.nodes[c].kind;
        if k == NodeKind::InheritFrom {
            return Some(c);
        }
        j += 1;
    }
    None
}

} // verus!
