//! The structured doc-comment dialect: one distinguished block-comment
//! form, `/** ... */`, reserved for documentation, recognized immediately
//! before the node it documents.

use vstd::prelude::*;
use vstd::string::*;

use crate::tree::{TokenKind, Tree};

verus! {

/// The kind of token `i`.
pub open spec fn tok_kind(tr: Tree, i: int) -> TokenKind {
    tr.tokens[i].kind
}

/// The text of token `i`.
pub open spec fn tok_text(tr: Tree, i: int) -> Seq<char> {
    tr.tokens[i].text@
}

/// Whether a comment token is a line comment.
pub open spec fn starts_hash(s: Seq<char>) -> bool {
    s.len() >= 1 && s[0] == '#'
}

/// Whether a comment token is a block comment.
pub open spec fn starts_block(s: Seq<char>) -> bool {
    s.len() >= 2 && s[0] == '/' && s[1] == '*'
}

/// Whether a comment token is the reserved documentation form: a block
/// comment whose opener carries a second star.
pub open spec fn is_doc_comment(s: Seq<char>) -> bool {
    s.len() >= 5 && s[0] == '/' && s[1] == '*' && s[2] == '*' && s[s.len() - 2] == '*'
        && s[s.len() - 1] == '/'
}

/// The inner text of a comment token: a line comment loses its `#`
/// marker, a well-formed block comment loses its `/*` and `*/` markers,
/// and anything else reads as empty.
pub open spec fn comment_text_spec(s: Seq<char>) -> Seq<char> {
    if s.len() >= 1 && s[0] == '#' {
        s.skip(1)
    } else if s.len() >= 4 && s[0] == '/' && s[1] == '*' && s[s.len() - 2] == '*' && s[s.len()
        - 1] == '/' {
        s.subrange(2, s.len() - 2)
    } else {
        Seq::empty()
    }
}

/// The inner text of a comment token.
pub fn comment_text(s: &str) -> (r: String)
    ensures
        r@ == comment_text_spec(s@),
{
    let n = s.unicode_len();
    if n >= 1 && s.get_char(0) == '#' {
        String::from_str(s.substring_char(1, n))
    } else if n >= 4 && s.get_char(0) == '/' && s.get_char(1) == '*' && s.get_char(n - 2) == '*'
        && s.get_char(n - 1) == '/' {
        String::from_str(s.substring_char(2, n - 2))
    } else {
        String::new()
    }
}

/// The inner text of the reserved doc-comment form: the text between the
/// `/**` opener and the `*/` closer.
pub open spec fn doc_comment_text_spec(s: Seq<char>) -> Seq<char> {
    s.subrange(3, s.len() - 2)
}

/// The token index holding the comment attached to token position `i`,
/// if any: the token at `i` itself, or, when `i` is whitespace, the one
/// before it.  One whitespace token at most is stepped over; a second
/// one, like any other token, breaks the attachment.
pub open spec fn comment_probe(tr: Tree, i: int) -> Option<int> {
    if i < 0 {
        None
    } else {
        let j = if tok_kind(tr, i) == TokenKind::Whitespace {
            i - 1
        } else {
            i
        };
        if j < 0 {
            None
        } else if tok_kind(tr, j) == TokenKind::Comment {
            Some(j)
        } else {
            None
        }
    }
}

/// What the structured dialect resolves for node `n`: the inner text of a
/// reserved doc comment standing immediately before the node's first
/// token, or nothing.
pub open spec fn expr_docs_spec(tr: Tree, n: int) -> Option<Seq<char>> {
    let node = tr.nodes[n];
    if node.lo >= node.hi || node.lo == 0 {
        None
    } else {
        match comment_probe(tr, node.lo - 1) {
            None => None,
            Some(j) => if is_doc_comment(tok_text(tr, j)) {
                Some(doc_comment_text_spec(tok_text(tr, j)))
            } else {
                None
            },
        }
    }
}

/// Steps from token position `i` to the comment attached there, if any.
pub fn find_comment_probe(tr: &Tree, i: usize) -> (r: Option<usize>)
    requires
        i < tr.tokens.len(),
    ensures
        match r {
            Some(j) => comment_probe(*tr, i as int) == Some(j as int) && j < tr.tokens.len()
                && tok_kind(*tr, j as int) == TokenKind::Comment,
            None => comment_probe(*tr, i as int) is None,
        },
{
    let j = if tr.tokens[i].kind == TokenKind::Whitespace {
        if i == 0 {
            return None;
        }
        i - 1
    } else {
        i
    };
    if tr.tokens[j].kind == TokenKind::Comment {
        Some(j)
    } else {
        None
    }
}

/// Resolves the structured dialect for node `n`: a single reserved
/// doc comment immediately preceding it, with no merging across
/// multiple comments.
pub fn get_expr_docs(tr: &Tree, n: usize) -> (r: Option<String>)
    requires
        tr.wf(),
        n < tr.nodes.len(),
    ensures
        r.deep_view() == expr_docs_spec(*tr, n as int),
{
    let node = &tr.nodes[n];
    if node.lo >= node.hi || node.lo == 0 {
        return None;
    }
    assert(tr.wf_node(n as int));
    match find_comment_probe(tr, node.lo - 1) {
        None => None,
        Some(j) => {
            let t = tr.tokens[j].text.as_str();
            let tn = t.unicode_len();
            if tn >= 5 && t.get_char(0) == '/' && t.get_char(1) == '*' && t.get_char(2) == '*'
                && t.get_char(tn - 2) == '*' && t.get_char(tn - 1) == '/' {
                Some(String::from_str(t.substring_char(3, tn - 2)))
            } else {
                None
            }
        },
    }
}

} // verus!
