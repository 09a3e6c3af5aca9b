//! The legacy comment dialect: one block comment taken verbatim, or a run
//! of line comments on strictly adjacent lines merged into one, resolved
//! by stepping backward through the trivia before a node.

use vstd::prelude::*;
use vstd::string::*;

use crate::comment::{
    comment_probe, comment_text, comment_text_spec, find_comment_probe, starts_block, starts_hash,
    tok_kind, tok_text,
};
use crate::collect::{
    doc_comment_spec, lookup_spec, retrieve_doc_comment, split_paragraphs, split_paras, DocComment,
    DocCommentV, LocationMap,
};
use crate::commonmark::{
    get_identifier, join3, replace_prime_spec, Argument, ArgumentV, ManualEntry, ManualEntryV,
    SingleArg, SingleArgV,
};
use crate::format::{
    handle_indentation, handle_indentation_spec, opt_or_empty, opt_text, scan_char_from, trim,
    trim_spec,
};
use crate::tree::{
    find_ident_child, find_non_param_child, find_param_child, ident_search, non_param_search,
    param_search, NodeKind,
};
use crate::tree::{TokenKind, Tree};

verus! {

/// Whitespace that separates strictly adjacent lines: it begins with a
/// newline and holds no second one.  A blank line in between shows up as
/// two newlines and breaks the merge.
pub open spec fn ws_adjacent(s: Seq<char>) -> bool {
    s.len() >= 1 && s[0] == '\n' && forall|j: int| 1 <= j < s.len() ==> s[j] != '\n'
}

/// Whether the whitespace token text keeps two lines adjacent.
pub fn check_ws_adjacent(s: &str) -> (b: bool)
    ensures
        b == ws_adjacent(s@),
{
    let n = s.unicode_len();
    if n == 0 || s.get_char(0) != '\n' {
        return false;
    }
    let k = scan_char_from(s, 1, '\n');
    k == n
}

/// Skipping line comments while looking for a block comment: from comment
/// token `j`, step backward one comment at a time (each still reached
/// over at most one whitespace token) until a comment that is not a line
/// comment is found, or the attachment breaks.
pub open spec fn skip_line_comments(tr: Tree, j: int) -> Option<int>
    decreases j,
{
    if j < 0 {
        None
    } else if tok_kind(tr, j) != TokenKind::Comment {
        None
    } else if !starts_hash(tok_text(tr, j)) {
        Some(j)
    } else {
        let i = j - 1;
        if i < 0 {
            None
        } else {
            let j2 = if tok_kind(tr, i) == TokenKind::Whitespace {
                i - 1
            } else {
                i
            };
            if j2 < 0 {
                None
            } else if tok_kind(tr, j2) == TokenKind::Comment {
                skip_line_comments(tr, j2)
            } else {
                None
            }
        }
    }
}

/// The merge of adjacent line comments ending at token `j` (which holds a
/// line comment): earlier comments are prepended, each separated by one
/// space, for as long as exactly one newline stands between them and an
/// earlier line comment follows.  Anything else — a blank line, a block
/// comment, any other token — stops the merge, and no separator is
/// written for it.
pub open spec fn merge_line_comments(tr: Tree, j: int) -> Seq<char>
    decreases j,
{
    let piece = trim_spec(comment_text_spec(tok_text(tr, j)));
    if j >= 2 && tok_kind(tr, j - 1) == TokenKind::Whitespace && ws_adjacent(tok_text(tr, j - 1))
        && tok_kind(tr, j - 2) == TokenKind::Comment && starts_hash(tok_text(tr, j - 2)) {
        merge_line_comments(tr, j - 2) + seq![' '] + piece
    } else {
        piece
    }
}

/// What the legacy dialect resolves for node `n`: the comment found one
/// token (or one whitespace token and one token) before the node's first
/// token; a block comment is returned verbatim, line comments are merged
/// across adjacent lines, and with `allow_line_comments` false, line
/// comments are stepped over in search of a block comment.
pub open spec fn legacy_comment_spec(tr: Tree, n: int, allow_line_comments: bool) -> Option<
    Seq<char>,
> {
    let node = tr.nodes[n];
    if node.lo >= node.hi || node.lo == 0 {
        None
    } else {
        match comment_probe(tr, node.lo - 1) {
            None => None,
            Some(j0) => {
                let found = if allow_line_comments {
                    Some(j0)
                } else {
                    skip_line_comments(tr, j0)
                };
                match found {
                    None => None,
                    Some(j) => if starts_block(tok_text(tr, j)) {
                        Some(comment_text_spec(tok_text(tr, j)))
                    } else if starts_hash(tok_text(tr, j)) {
                        Some(merge_line_comments(tr, j))
                    } else {
                        None
                    },
                }
            },
        }
    }
}

/// Whether the text begins with `#`.
fn check_starts_hash(s: &str) -> (b: bool)
    ensures
        b == starts_hash(s@),
{
    s.unicode_len() >= 1 && s.get_char(0) == '#'
}

/// Whether the text begins with `/*`.
fn check_starts_block(s: &str) -> (b: bool)
    ensures
        b == starts_block(s@),
{
    s.unicode_len() >= 2 && s.get_char(0) == '/' && s.get_char(1) == '*'
}

/// Steps backward from line comment to line comment looking for one that
/// is not a line comment, as the legacy dialect does when line comments
/// may not serve as documentation.
fn skip_line_comments_exec(tr: &Tree, j0: usize) -> (r: Option<usize>)
    requires
        j0 < tr.tokens.len(),
        tok_kind(*tr, j0 as int) == TokenKind::Comment,
    ensures
        match r {
            Some(j) => skip_line_comments(*tr, j0 as int) == Some(j as int) && j
                < tr.tokens.len() && tok_kind(*tr, j as int) == TokenKind::Comment,
            None => skip_line_comments(*tr, j0 as int) is None,
        },
{
    let mut j = j0;
    loop
        invariant
            j <= j0 < tr.tokens.len(),
            tok_kind(*tr, j as int) == TokenKind::Comment,
            skip_line_comments(*tr, j0 as int) == skip_line_comments(*tr, j as int),
        decreases j,
    {
        if !check_starts_hash(tr.tokens[j].text.as_str()) {
            assert(skip_line_comments(*tr, j as int) == Some(j as int));
            return Some(j);
        }
        if j == 0 {
            return None;
        }
        let i = j - 1;
        let j2 = if tr.tokens[i].kind == TokenKind::Whitespace {
            if i == 0 {
                return None;
            }
            i - 1
        } else {
            i
        };
        if tr.tokens[j2].kind != TokenKind::Comment {
            return None;
        }
        j = j2;
    }
}

/// Resolves the legacy dialect for node `n`.  Absence of a comment is a
/// normal outcome, not an error.
pub fn retrieve_legacy_comment(tr: &Tree, n: usize, allow_line_comments: bool) -> (r: Option<
    String,
>)
    requires
        tr.wf(),
        n < tr.nodes.len(),
    ensures
        r.deep_view() == legacy_comment_spec(*tr, n as int, allow_line_comments),
{
    let node = &tr.nodes[n];
    if node.lo >= node.hi || node.lo == 0 {
        return None;
    }
    assert(tr.wf_node(n as int));
    let probed = find_comment_probe(tr, node.lo - 1);
    let j0 = match probed {
        None => {
            return None;
        },
        Some(j0) => j0,
    };
    let j = if allow_line_comments {
        j0
    } else {
        match skip_line_comments_exec(tr, j0) {
            None => {
                return None;
            },
            Some(j) => j,
        }
    };
    let text = tr.tokens[j].text.as_str();
    if check_starts_block(text) {
        return Some(comment_text(text));
    }
    if !check_starts_hash(text) {
        return None;
    }
    // Merge adjacent line comments, walking backward.
    let mut result = String::new();
    let mut cur = j;
    let ghost target = merge_line_comments(*tr, j as int);
    proof {
        assert(legacy_comment_spec(*tr, n as int, allow_line_comments) == Some(target));
        assert(result@ =~= Seq::<char>::empty());
        assert(merge_line_comments(*tr, j as int) + Seq::<char>::empty()
            =~= merge_line_comments(*tr, j as int));
    }
    loop
        invariant
            cur < tr.tokens.len(),
            tok_kind(*tr, cur as int) == TokenKind::Comment,
            starts_hash(tok_text(*tr, cur as int)),
            target == merge_line_comments(*tr, cur as int) + result@,
            legacy_comment_spec(*tr, n as int, allow_line_comments) == Some(target),
        decreases cur,
    {
        let inner = comment_text(tr.tokens[cur].text.as_str());
        let piece = trim(inner.as_str());
        let with_piece = piece.concat(result.as_str());
        if cur >= 2 && tr.tokens[cur - 1].kind == TokenKind::Whitespace && check_ws_adjacent(
            tr.tokens[cur - 1].text.as_str(),
        ) && tr.tokens[cur - 2].kind == TokenKind::Comment && check_starts_hash(
            tr.tokens[cur - 2].text.as_str(),
        ) {
            let spaced = {
                let sp = String::from_str(" ");
                proof {
                    reveal_strlit(" ");
                    assert(" "@ =~= seq![' ']);
                }
                sp.concat(with_piece.as_str())
            };
            proof {
                assert(merge_line_comments(*tr, cur as int) == merge_line_comments(
                    *tr,
                    cur - 2,
                ) + seq![' '] + trim_spec(comment_text_spec(tok_text(*tr, cur as int))));
                assert(merge_line_comments(*tr, cur - 2) + spaced@ =~= merge_line_comments(
                    *tr,
                    cur as int,
                ) + result@);
            }
            result = spaced;
            cur = cur - 2;
        } else {
            assert(merge_line_comments(*tr, cur as int) == trim_spec(
                comment_text_spec(tok_text(*tr, cur as int)),
            ));
            assert(target == with_piece@);
            return Some(with_piece);
        }
    }
}

/// A documented binding as the legacy dialect gathers it, before it is
/// assembled into a manual entry.
#[derive(Debug)]
pub struct LegacyDocItem {
    pub name: String,
    pub comment: DocComment,
    pub args: Vec<Argument>,
}

/// The mathematical shadow of [`LegacyDocItem`].
pub ghost struct LegacyDocItemV {
    pub name: Seq<char>,
    pub comment: DocCommentV,
    pub args: Seq<ArgumentV>,
}

impl DeepView for LegacyDocItem {
    type V = LegacyDocItemV;

    open spec fn deep_view(&self) -> LegacyDocItemV {
        LegacyDocItemV {
            name: self.name@,
            comment: self.comment.deep_view(),
            args: self.args.deep_view(),
        }
    }
}

/// What assembling a gathered item into a manual entry yields: the
/// location is looked up under the entry's identifier, and the
/// description splits into paragraphs at blank lines.
pub open spec fn into_entry_spec(
    item: LegacyDocItemV,
    prefix: Seq<char>,
    category: Seq<char>,
    locs: Seq<crate::collect::LocEntryV>,
) -> ManualEntryV {
    ManualEntryV {
        prefix: prefix,
        category: category,
        location: lookup_spec(locs, join3(prefix, category, replace_prime_spec(item.name))),
        name: item.name,
        fn_type: item.comment.doc_type,
        description: split_paras(item.comment.doc),
        example: item.comment.example,
        args: item.args,
    }
}

impl LegacyDocItem {
    /// Assembles this item into a manual entry under the given prefix
    /// and category, consulting the location table for its source place.
    pub fn into_entry(self, prefix: &str, category: &str, locs: &LocationMap) -> (r: ManualEntry)
        ensures
            r.deep_view() == into_entry_spec(
                self.deep_view(),
                prefix@,
                category@,
                locs.view_entries(),
            ),
    {
        let prefix_s = String::from_str(prefix);
        let category_s = String::from_str(category);
        let ident = get_identifier(&prefix_s, &category_s, &self.name);
        let location = locs.get(ident.as_str());
        let description = split_paragraphs(self.comment.doc.as_str());
        ManualEntry {
            prefix: prefix_s,
            category: category_s,
            location,
            name: self.name,
            fn_type: self.comment.doc_type,
            description,
            example: self.comment.example,
            args: self.args,
        }
    }
}

/// The flat argument gathered for an identifier parameter: its name is
/// the parameter text, its documentation the normalized legacy comment
/// above it, line comments allowed.
pub open spec fn flat_arg_spec(tr: Tree, p: int) -> ArgumentV {
    ArgumentV::Flat(
        SingleArgV {
            name: tr.node_text_spec(p),
            doc: handle_indentation_spec(opt_text(legacy_comment_spec(tr, p, true))),
        },
    )
}

/// The argument gathered for one destructuring entry: named by its
/// identifier, documented by the structured dialect (shifted one level,
/// a parameter's documentation nesting one deeper than a binding's) or,
/// failing that, by the legacy dialect with line comments allowed.
pub open spec fn pat_entry_arg_spec(tr: Tree, e: int, id: int) -> SingleArgV {
    SingleArgV {
        name: tr.node_text_spec(id),
        doc: handle_indentation_spec(
            opt_text(
                match doc_comment_spec(tr, e, 1) {
                    Some(d) => Some(d),
                    None => legacy_comment_spec(tr, e, true),
                },
            ),
        ),
    }
}

/// The entries of a destructuring parameter, in declared order; an entry
/// without an identifier contributes nothing.
pub open spec fn pat_entries_spec(tr: Tree, p: int, j: int) -> Seq<SingleArgV>
    decreases tr.nodes[p].children.len() - j,
{
    if j < 0 || j >= tr.nodes[p].children.len() {
        Seq::empty()
    } else {
        let c = tr.nodes[p].children[j] as int;
        let rest = pat_entries_spec(tr, p, j + 1);
        if c < tr.nodes.len() && tr.nodes[c].kind == NodeKind::PatEntry {
            match ident_search(tr, c, 0) {
                Some(id) => seq![pat_entry_arg_spec(tr, c, id)] + rest,
                None => rest,
            }
        } else {
            rest
        }
    }
}

/// The arguments of a possibly curried lambda at node `n`: one argument
/// per parameter along the chain of nested lambdas, in declaration
/// order.
pub open spec fn lambda_args_spec(tr: Tree, n: int) -> Seq<ArgumentV>
    decreases tr.nodes.len() - n,
{
    match param_search(tr, n, 0) {
        None => Seq::empty(),
        Some(p) => {
            let arg: Seq<ArgumentV> = if tr.nodes[p].kind == NodeKind::IdentParam {
                seq![flat_arg_spec(tr, p)]
            } else {
                seq![ArgumentV::Pattern(pat_entries_spec(tr, p, 0))]
            };
            match non_param_search(tr, n, 0) {
                Some(b) => if n < b && b < tr.nodes.len() && tr.nodes[b].kind
                    == NodeKind::Lambda {
                    arg + lambda_args_spec(tr, b)
                } else {
                    arg
                },
                None => arg,
            }
        },
    }
}

/// Gathers one flat identifier parameter.
fn collect_flat_arg(tr: &Tree, p: usize) -> (r: Argument)
    requires
        tr.wf(),
        p < tr.nodes.len(),
    ensures
        r.deep_view() == flat_arg_spec(*tr, p as int),
{
    let name = tr.node_text(p);
    let lc = retrieve_legacy_comment(tr, p, true);
    let doc = handle_indentation(opt_or_empty(lc).as_str());
    Argument::Flat(SingleArg { name, doc })
}

/// Gathers the entries of a destructuring parameter at node `p`.
fn collect_pattern_entries(tr: &Tree, p: usize) -> (r: Vec<SingleArg>)
    requires
        tr.wf(),
        p < tr.nodes.len(),
    ensures
        r.deep_view() == pat_entries_spec(*tr, p as int, 0),
{
    let mut entries: Vec<SingleArg> = Vec::new();
    let mut j: usize = 0;
    proof {
        assert(entries.deep_view() + pat_entries_spec(*tr, p as int, 0) =~= pat_entries_spec(
            *tr,
            p as int,
            0,
        ));
    }
    while j < tr.nodes[p].children.len()
        invariant
            tr.wf(),
            p < tr.nodes.len(),
            0 <= j <= tr.nodes[p as int].children.len(),
            pat_entries_spec(*tr, p as int, 0) =~= entries.deep_view() + pat_entries_spec(
                *tr,
                p as int,
                j as int,
            ),
        decreases tr.nodes[p as int].children.len() - j,
    {
        assert(tr.wf_node(p as int));
        assert(tr.wf_child(p as int, j as int));
        let c = tr.nodes[p].children[j];
        let ghost edv0 = entries.deep_view();
        if tr.nodes[c].kind == NodeKind::PatEntry {
            match find_ident_child(tr, c) {
                Some(id) => {
                    let name = tr.node_text(id);
                    let sd = retrieve_doc_comment(tr, c, Some(1));
                    let merged: Option<String> = match sd {
                        Some(d) => Some(d),
                        None => retrieve_legacy_comment(tr, c, true),
                    };
                    let doc = handle_indentation(opt_or_empty(merged).as_str());
                    entries.push(SingleArg { name, doc });
                    proof {
                        assert(entries.deep_view() =~= edv0.push(
                            pat_entry_arg_spec(*tr, c as int, id as int),
                        ));
                        assert(edv0.push(pat_entry_arg_spec(*tr, c as int, id as int))
                            + pat_entries_spec(*tr, p as int, j + 1) =~= edv0 + (seq![
                            pat_entry_arg_spec(*tr, c as int, id as int),
                        ] + pat_entries_spec(*tr, p as int, j + 1)));
                    }
                },
                None => {},
            }
        }
        j += 1;
    }
    proof {
        assert(entries.deep_view() + pat_entries_spec(
            *tr,
            p as int,
            tr.nodes[p as int].children.len() as int,
        ) =~= entries.deep_view());
    }
    entries
}

/// Walks a chain of curried lambda parameters starting at `lambda`,
/// gathering one argument per parameter with its own resolved comment,
/// in declaration order across the whole chain.
pub fn collect_lambda_args_legacy(tr: &Tree, lambda: usize) -> (r: Vec<Argument>)
    requires
        tr.wf(),
        lambda < tr.nodes.len(),
    ensures
        r.deep_view() == lambda_args_spec(*tr, lambda as int),
{
    let mut args: Vec<Argument> = Vec::new();
    let mut cur = lambda;
    proof {
        assert(args.deep_view() + lambda_args_spec(*tr, lambda as int) =~= lambda_args_spec(
            *tr,
            lambda as int,
        ));
    }
    loop
        invariant
            tr.wf(),
            cur < tr.nodes.len(),
            lambda_args_spec(*tr, lambda as int) =~= args.deep_view() + lambda_args_spec(
                *tr,
                cur as int,
            ),
        decreases tr.nodes.len() - cur,
    {
        let ghost adv0 = args.deep_view();
        let p = match find_param_child(tr, cur) {
            None => {
                proof {
                    assert(args.deep_view() + lambda_args_spec(*tr, cur as int)
                        =~= args.deep_view());
                }
                return args;
            },
            Some(p) => p,
        };
        let arg: Argument = if tr.nodes[p].kind == NodeKind::IdentParam {
            collect_flat_arg(tr, p)
        } else {
            Argument::Pattern(collect_pattern_entries(tr, p))
        };
        let ghost argv = arg.deep_view();
        proof {
            assert(lambda_args_spec(*tr, cur as int) == (match non_param_search(
                *tr,
                cur as int,
                0,
            ) {
                Some(b) => if cur < b && b < tr.nodes.len() && tr.nodes[b].kind
                    == NodeKind::Lambda {
                    seq![argv] + lambda_args_spec(*tr, b)
                } else {
                    seq![argv]
                },
                None => seq![argv],
            }));
        }
        args.push(arg);
        proof {
            assert(args.deep_view() =~= adv0.push(argv));
        }
        match find_non_param_child(tr, cur) {
            Some(b) => {
                if tr.nodes[b].kind == NodeKind::Lambda {
                    proof {
                        assert(adv0.push(argv) + lambda_args_spec(*tr, b as int) =~= adv0 + (seq![
                            argv,
                        ] + lambda_args_spec(*tr, b as int)));
                    }
                    cur = b;
                } else {
                    proof {
                        assert(adv0.push(argv) =~= adv0 + seq![argv]);
                    }
                    return args;
                }
            },
            None => {
                proof {
                    assert(adv0.push(argv) =~= adv0 + seq![argv]);
                }
                return args;
            },
        }
    }
}

} // verus!
