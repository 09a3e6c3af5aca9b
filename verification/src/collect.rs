//! Decomposition of raw comment text into semantic fields, and the walk
//! that turns a parsed source file into an ordered list of manual entries.

use vstd::prelude::*;
use vstd::string::*;

use crate::comment::{expr_docs_spec, get_expr_docs};
use crate::commonmark::{section_spec, ManualEntry, ManualEntryV};
use crate::legacy::{
    collect_lambda_args_legacy, into_entry_spec, lambda_args_spec, legacy_comment_spec,
    retrieve_legacy_comment, LegacyDocItem, LegacyDocItemV,
};
use crate::format::{
    handle_indentation, handle_indentation_spec, join_lines, lines_of, opt_or_empty, opt_text,
    shift_headings, shift_spec, split_lines, trim, trim_spec, unlines,
};
use crate::tree::{
    attrpath_search, find_attrpath_child, find_inherit_from_child, find_letin_body_child,
    find_non_attrpath_child, inherit_from_search, letin_body_search, non_attrpath_search,
    NodeKind, Tree,
};

verus! {

/// Normalized documentation fields: the free description, the optional
/// declared type, and the optional usage example.  A field that
/// normalizes to nothing is absent, never an empty string.
#[derive(Debug)]
pub struct DocComment {
    /// Primary documentation string.
    pub doc: String,
    /// Optional type annotation for the thing being documented.
    pub doc_type: Option<String>,
    /// Usage example, interpreted as one code block.
    pub example: Option<String>,
}

/// The mathematical shadow of [`DocComment`].
pub ghost struct DocCommentV {
    pub doc: Seq<char>,
    pub doc_type: Option<Seq<char>>,
    pub example: Option<Seq<char>>,
}

impl DeepView for DocComment {
    type V = DocCommentV;

    open spec fn deep_view(&self) -> DocCommentV {
        DocCommentV {
            doc: self.doc@,
            doc_type: self.doc_type.deep_view(),
            example: self.example.deep_view(),
        }
    }
}

/// One binding of the location table: an entry identifier and the
/// human-readable place it was defined.
#[derive(Debug)]
pub struct LocEntry {
    pub key: String,
    pub value: String,
}

/// The mathematical shadow of [`LocEntry`].
pub ghost struct LocEntryV {
    pub key: Seq<char>,
    pub value: Seq<char>,
}

impl DeepView for LocEntry {
    type V = LocEntryV;

    open spec fn deep_view(&self) -> LocEntryV {
        LocEntryV { key: self.key@, value: self.value@ }
    }
}

/// What a lookup finds: the value of the last entry bearing the key, so
/// that a later binding for the same identifier wins.
pub open spec fn lookup_spec(entries: Seq<LocEntryV>, key: Seq<char>) -> Option<Seq<char>>
    decreases entries.len(),
{
    if entries.len() == 0 {
        None
    } else if entries.last().key == key {
        Some(entries.last().value)
    } else {
        lookup_spec(entries.drop_last(), key)
    }
}

/// The location table: identifier-to-location bindings consulted while
/// assembling entries.  Absence of a binding is not an error.
#[derive(Debug)]
pub struct LocationMap {
    pub entries: Vec<LocEntry>,
}

impl LocationMap {
    /// The bindings as a mathematical sequence.
    pub open spec fn view_entries(&self) -> Seq<LocEntryV> {
        self.entries.deep_view()
    }

    /// An empty table.
    pub fn new() -> (r: LocationMap)
        ensures
            r.view_entries() == Seq::<LocEntryV>::empty(),
    {
        let r = LocationMap { entries: Vec::new() };
        proof {
            assert(r.view_entries() =~= Seq::<LocEntryV>::empty());
        }
        r
    }

    /// Adds a binding; a later binding for the same key shadows an
    /// earlier one.
    pub fn insert(&mut self, key: String, value: String)
        ensures
            final(self).view_entries() == old(self).view_entries().push(
                LocEntryV { key: key@, value: value@ },
            ),
    {
        let ghost before = self.view_entries();
        self.entries.push(LocEntry { key, value });
        proof {
            assert(final(self).view_entries() =~= before.push(
                LocEntryV { key: key@, value: value@ },
            ));
        }
    }

    /// Looks a key up, latest binding first.
    pub fn get(&self, key: &str) -> (r: Option<String>)
        ensures
            r.deep_view() == lookup_spec(self.view_entries(), key@),
    {
        let ghost dv = self.view_entries();
        let mut i: usize = self.entries.len();
        proof {
            assert(dv.take(i as int) =~= dv);
        }
        while i > 0
            invariant
                0 <= i <= self.entries.len(),
                dv == self.view_entries(),
                lookup_spec(dv, key@) == lookup_spec(dv.take(i as int), key@),
            decreases i,
        {
            proof {
                assert(dv.take(i as int).last() == dv[i - 1]);
                assert(dv.take(i as int).drop_last() =~= dv.take(i - 1));
            }
            if crate::format::str_eq(self.entries[i - 1].key.as_str(), key) {
                return Some(self.entries[i - 1].value.clone());
            }
            i -= 1;
        }
        proof {
            assert(dv.take(0) =~= Seq::<LocEntryV>::empty());
        }
        None
    }
}

/// The index of the first paragraph break (two adjacent newlines) at or
/// after `from`, or the length of `s` if there is none.
pub open spec fn find_para_break(s: Seq<char>, from: int) -> int
    decreases s.len() - from,
{
    if from < 0 || from >= s.len() {
        s.len() as int
    } else if from + 1 < s.len() && s[from] == '\n' && s[from + 1] == '\n' {
        from
    } else {
        find_para_break(s, from + 1)
    }
}

pub proof fn lemma_find_para_break(s: Seq<char>, from: int)
    requires
        0 <= from <= s.len(),
    ensures
        from <= find_para_break(s, from) <= s.len(),
        forall|i: int|
            from <= i < find_para_break(s, from) && i + 1 < s.len() ==> !(#[trigger] s[i] == '\n'
                && s[i + 1] == '\n'),
        find_para_break(s, from) < s.len() ==> find_para_break(s, from) + 1 < s.len()
            && s[find_para_break(s, from)] == '\n' && s[find_para_break(s, from) + 1] == '\n',
    decreases s.len() - from,
{
    if from < s.len() && !(from + 1 < s.len() && s[from] == '\n' && s[from + 1] == '\n') {
        lemma_find_para_break(s, from + 1);
    }
}

pub proof fn lemma_find_para_break_unique(s: Seq<char>, from: int, k: int)
    requires
        0 <= from <= k <= s.len(),
        forall|i: int|
            from <= i < k && i + 1 < s.len() ==> !(#[trigger] s[i] == '\n' && s[i + 1] == '\n'),
        k < s.len() ==> k + 1 < s.len() && s[k] == '\n' && s[k + 1] == '\n',
    ensures
        find_para_break(s, from) == k,
    decreases s.len() - from,
{
    if from < s.len() && !(from + 1 < s.len() && s[from] == '\n' && s[from + 1] == '\n') {
        lemma_find_para_break_unique(s, from + 1, k);
    }
}

/// The paragraphs of `s`: the pieces between double newlines, split left
/// to right without overlap.
pub open spec fn split_paras(s: Seq<char>) -> Seq<Seq<char>>
    decreases s.len(),
{
    let i = find_para_break(s, 0);
    if 0 <= i && i + 1 < s.len() {
        seq![s.take(i)] + split_paras(s.skip(i + 2))
    } else {
        seq![s]
    }
}

/// One step of paragraph splitting on a suffix.
pub proof fn lemma_paras_step(s: Seq<char>, p: int)
    requires
        0 <= p <= s.len(),
    ensures
        find_para_break(s, p) == s.len() ==> split_paras(s.skip(p)) == seq![s.skip(p)],
        find_para_break(s, p) < s.len() ==> split_paras(s.skip(p)) == seq![
            s.subrange(p, find_para_break(s, p)),
        ] + split_paras(s.skip(find_para_break(s, p) + 2)),
{
    lemma_find_para_break(s, p);
    let k = find_para_break(s, p);
    let t = s.skip(p);
    assert forall|i: int|
        0 <= i < k - p && i + 1 < t.len() implies !(#[trigger] t[i] == '\n' && t[i + 1]
        == '\n') by {
        assert(t[i] == s[p + i]);
        assert(t[i + 1] == s[p + i + 1]);
    }
    if k < s.len() {
        assert(t[k - p] == s[k]);
        assert(t[k - p + 1] == s[k + 1]);
        lemma_find_para_break_unique(t, 0, k - p);
        assert(t.take(k - p) =~= s.subrange(p, k));
        assert(t.skip(k - p + 2) =~= s.skip(k + 2));
    } else {
        lemma_find_para_break_unique(t, 0, t.len() as int);
    }
}

/// Splits a description into paragraphs at blank lines.
pub fn split_paragraphs(s: &str) -> (v: Vec<String>)
    ensures
        v.deep_view() == split_paras(s@),
{
    let n = s.unicode_len();
    let mut v: Vec<String> = Vec::new();
    let mut pos: usize = 0;
    proof {
        assert(s@.skip(0) =~= s@);
        assert(v.deep_view() + split_paras(s@) =~= split_paras(s@));
    }
    loop
        invariant
            0 <= pos <= n == s@.len(),
            split_paras(s@) =~= v.deep_view() + split_paras(s@.skip(pos as int)),
        decreases n - pos,
    {
        let mut k: usize = pos;
        while !(k >= n || (k + 1 < n && s.get_char(k) == '\n' && s.get_char(k + 1) == '\n'))
            invariant
                pos <= k <= n == s@.len(),
                forall|i: int|
                    pos <= i < k && i + 1 < n ==> !(#[trigger] s@[i] == '\n' && s@[i + 1]
                        == '\n'),
            decreases n - k,
        {
            k += 1;
        }
        proof {
            lemma_find_para_break_unique(s@, pos as int, k as int);
            lemma_paras_step(s@, pos as int);
        }
        let ghost dv0 = v.deep_view();
        let piece = String::from_str(s.substring_char(pos, k));
        if k == n {
            v.push(piece);
            proof {
                assert(v.deep_view() =~= dv0.push(piece@));
                assert(s@.skip(pos as int) =~= piece@);
                assert(dv0.push(piece@) =~= dv0 + seq![piece@]);
                assert(v.deep_view() =~= split_paras(s@));
            }
            return v;
        } else {
            v.push(piece);
            proof {
                assert(v.deep_view() =~= dv0.push(piece@));
                assert(dv0.push(piece@) =~= dv0 + seq![piece@]);
                assert((dv0 + seq![piece@]) + split_paras(s@.skip(k + 2)) =~= dv0 + (seq![
                    piece@,
                ] + split_paras(s@.skip(k + 2))));
                assert(v.deep_view() + split_paras(s@.skip(k + 2)) =~= split_paras(s@));
            }
            pos = k + 2;
        }
    }
}

/// The state of the line-oriented field parser: which buffer new text
/// lands in.  Transitions are sticky: only another explicit marker
/// switches state again.
#[derive(Clone, Copy, Debug, PartialEq, Eq, Structural)]
pub enum ParseState {
    Doc,
    Type,
    Example,
}

/// The accumulating state of the field parser: the current target buffer
/// and the lines gathered into each of the three.
pub ghost struct FieldAcc {
    pub st: ParseState,
    pub doc: Seq<Seq<char>>,
    pub ty: Seq<Seq<char>>,
    pub ex: Seq<Seq<char>>,
}

/// The literal marker that opens the type field.
pub open spec fn type_marker() -> Seq<char> {
    seq!['T', 'y', 'p', 'e', ':']
}

/// The literal marker that opens the example field.
pub open spec fn example_marker() -> Seq<char> {
    seq!['E', 'x', 'a', 'm', 'p', 'l', 'e', ':']
}

/// One line of the field parser: a marker line switches state and
/// contributes its remainder to the matching buffer; any other line goes
/// verbatim to whichever buffer is active.
pub open spec fn field_step(acc: FieldAcc, l: Seq<char>) -> FieldAcc {
    let t = trim_spec(l);
    if t.len() >= 5 && t.take(5) == type_marker() {
        FieldAcc { st: ParseState::Type, doc: acc.doc, ty: acc.ty.push(t.skip(5)), ex: acc.ex }
    } else if t.len() >= 8 && t.take(8) == example_marker() {
        FieldAcc { st: ParseState::Example, doc: acc.doc, ty: acc.ty, ex: acc.ex.push(t.skip(8)) }
    } else {
        match acc.st {
            ParseState::Doc => FieldAcc {
                st: acc.st,
                doc: acc.doc.push(l),
                ty: acc.ty,
                ex: acc.ex,
            },
            ParseState::Type => FieldAcc {
                st: acc.st,
                doc: acc.doc,
                ty: acc.ty.push(l),
                ex: acc.ex,
            },
            ParseState::Example => FieldAcc {
                st: acc.st,
                doc: acc.doc,
                ty: acc.ty,
                ex: acc.ex.push(l),
            },
        }
    }
}

pub open spec fn field_fold(ls: Seq<Seq<char>>, acc: FieldAcc) -> FieldAcc
    decreases ls.len(),
{
    if ls.len() == 0 {
        acc
    } else {
        field_fold(ls.drop_first(), field_step(acc, ls[0]))
    }
}

/// The initial parser state: gathering description text.
pub open spec fn field_init() -> FieldAcc {
    FieldAcc {
        st: ParseState::Doc,
        doc: Seq::empty(),
        ty: Seq::empty(),
        ex: Seq::empty(),
    }
}

/// What parsing a legacy comment yields: the lines sorted into the three
/// buffers by the sticky state machine, each buffer normalized on its
/// own, and empty results reported as absence.
pub open spec fn parse_doc_comment_spec(raw: Seq<char>) -> DocCommentV {
    let acc = field_fold(lines_of(raw), field_init());
    DocCommentV {
        doc: match handle_indentation_spec(unlines(acc.doc)) {
            None => Seq::empty(),
            Some(d) => d,
        },
        doc_type: handle_indentation_spec(unlines(acc.ty)),
        example: handle_indentation_spec(unlines(acc.ex)),
    }
}

/// Splits a legacy comment into description, type and example fields.
/// A line whose trimmed text opens with `Type:` or `Example:` switches
/// the target buffer and contributes the rest of the line; switching is
/// sticky until the next marker.
pub fn parse_doc_comment(raw: &str) -> (r: DocComment)
    ensures
        r.deep_view() == parse_doc_comment_spec(raw@),
{
    let lines = split_lines(raw);
    let ghost dv = lines.deep_view();
    let mut st = ParseState::Doc;
    let mut doc_v: Vec<String> = Vec::new();
    let mut ty_v: Vec<String> = Vec::new();
    let mut ex_v: Vec<String> = Vec::new();
    let mut i: usize = 0;
    proof {
        assert(dv.skip(0) =~= dv);
        assert(doc_v.deep_view() =~= Seq::<Seq<char>>::empty());
        assert(ty_v.deep_view() =~= Seq::<Seq<char>>::empty());
        assert(ex_v.deep_view() =~= Seq::<Seq<char>>::empty());
    }
    while i < lines.len()
        invariant
            0 <= i <= lines.len(),
            dv == lines.deep_view(),
            field_fold(dv, field_init()) == field_fold(
                dv.skip(i as int),
                FieldAcc {
                    st: st,
                    doc: doc_v.deep_view(),
                    ty: ty_v.deep_view(),
                    ex: ex_v.deep_view(),
                },
            ),
        decreases lines.len() - i,
    {
        let ghost acc0 = FieldAcc {
            st: st,
            doc: doc_v.deep_view(),
            ty: ty_v.deep_view(),
            ex: ex_v.deep_view(),
        };
        let l = &lines[i];
        let t = trim(l.as_str());
        let tn = t.as_str().unicode_len();
        proof {
            reveal_strlit("Type:");
            reveal_strlit("Example:");
            assert("Type:"@ =~= type_marker());
            assert("Example:"@ =~= example_marker());
        }
        if crate::format::str_starts_with(t.as_str(), "Type:") {
            st = ParseState::Type;
            let ghost tyv0 = ty_v.deep_view();
            ty_v.push(String::from_str(t.as_str().substring_char(5, tn)));
            proof {
                assert(t@.subrange(5, tn as int) =~= t@.skip(5));
                assert(ty_v.deep_view() =~= tyv0.push(t@.skip(5)));
            }
        } else if crate::format::str_starts_with(t.as_str(), "Example:") {
            st = ParseState::Example;
            let ghost exv0 = ex_v.deep_view();
            ex_v.push(String::from_str(t.as_str().substring_char(8, tn)));
            proof {
                assert(t@.subrange(8, tn as int) =~= t@.skip(8));
                assert(ex_v.deep_view() =~= exv0.push(t@.skip(8)));
            }
        } else {
            match st {
                ParseState::Doc => {
                    let ghost docv0 = doc_v.deep_view();
                    doc_v.push(l.clone());
                    proof {
                        assert(doc_v.deep_view() =~= docv0.push(l@));
                    }
                },
                ParseState::Type => {
                    let ghost tyv0 = ty_v.deep_view();
                    ty_v.push(l.clone());
                    proof {
                        assert(ty_v.deep_view() =~= tyv0.push(l@));
                    }
                },
                ParseState::Example => {
                    let ghost exv0 = ex_v.deep_view();
                    ex_v.push(l.clone());
                    proof {
                        assert(ex_v.deep_view() =~= exv0.push(l@));
                    }
                },
            }
        }
        proof {
            let rest = dv.skip(i as int);
            assert(rest[0] == dv[i as int]);
            assert(dv[i as int] == l@);
            assert(field_fold(rest, acc0) == field_fold(rest.drop_first(), field_step(acc0, l@)));
            assert(FieldAcc {
                st: st,
                doc: doc_v.deep_view(),
                ty: ty_v.deep_view(),
                ex: ex_v.deep_view(),
            } == field_step(acc0, l@));
            assert(rest.drop_first() =~= dv.skip(i + 1));
        }
        i += 1;
    }
    proof {
        assert(dv.skip(lines.len() as int) =~= Seq::<Seq<char>>::empty());
    }
    let doc_raw = join_lines(&doc_v);
    let ty_raw = join_lines(&ty_v);
    let ex_raw = join_lines(&ex_v);
    let doc = match handle_indentation(doc_raw.as_str()) {
        None => {
            let e = String::new();
            proof {
                assert(e@ =~= Seq::<char>::empty());
            }
            e
        },
        Some(d) => d,
    };
    DocComment {
        doc,
        doc_type: handle_indentation(ty_raw.as_str()),
        example: handle_indentation(ex_raw.as_str()),
    }
}

/// What the structured dialect yields for node `n`, after normalization
/// and a heading shift of `levels`.
pub open spec fn doc_comment_spec(tr: Tree, n: int, levels: nat) -> Option<Seq<char>> {
    match expr_docs_spec(tr, n) {
        None => None,
        Some(d) => {
            let cleaned = match handle_indentation_spec(d) {
                None => Seq::<char>::empty(),
                Some(x) => x,
            };
            Some(shift_spec(cleaned, levels))
        },
    }
}

/// Returns the structured doc comment of node `n`, if one is present:
/// its text is normalized and its headings are shifted down, by two
/// levels unless the caller asks otherwise (nested renderings sit under
/// category and function headings).
pub fn retrieve_doc_comment(tr: &Tree, n: usize, shift_headings_by: Option<usize>) -> (r: Option<
    String,
>)
    requires
        tr.wf(),
        n < tr.nodes.len(),
    ensures
        r.deep_view() == doc_comment_spec(
            *tr,
            n as int,
            (match shift_headings_by {
                None => 2,
                Some(k) => k as nat,
            }),
        ),
{
    let levels: usize = match shift_headings_by {
        None => 2,
        Some(k) => k,
    };
    match get_expr_docs(tr, n) {
        None => None,
        Some(d) => {
            let cleaned: String = match handle_indentation(d.as_str()) {
                None => {
                    let e = String::new();
                    proof {
                        assert(e@ =~= Seq::<char>::empty());
                    }
                    e
                },
                Some(x) => x,
            };
            Some(shift_headings(cleaned.as_str(), levels))
        },
    }
}

/// A documented binding before assembly, under whichever dialect
/// resolved it: the structured dialect yields finished text, the legacy
/// dialect yields fields still carrying their markers.
enum DocItemOrLegacy {
    LegacyDocItem(LegacyDocItem),
    DocItem(DocItem),
}

/// A binding documented by the structured dialect.
struct DocItem {
    name: String,
    comment: DocComment,
}

/// The mathematical shadow of [`DocItem`].
pub ghost struct DocItemV {
    pub name: Seq<char>,
    pub comment: DocCommentV,
}

/// The mathematical shadow of [`DocItemOrLegacy`].
pub ghost enum DocItemOrLegacyV {
    LegacyDocItem(LegacyDocItemV),
    DocItem(DocItemV),
}

impl DeepView for DocItem {
    type V = DocItemV;

    closed spec fn deep_view(&self) -> DocItemV {
        DocItemV { name: self.name@, comment: self.comment.deep_view() }
    }
}

impl DeepView for DocItemOrLegacy {
    type V = DocItemOrLegacyV;

    closed spec fn deep_view(&self) -> DocItemOrLegacyV {
        match self {
            DocItemOrLegacy::LegacyDocItem(v) => DocItemOrLegacyV::LegacyDocItem(v.deep_view()),
            DocItemOrLegacy::DocItem(v) => DocItemOrLegacyV::DocItem(v.deep_view()),
        }
    }
}

/// What resolving the documentation of a binding yields: the structured
/// dialect is consulted first (shifted two levels, a binding's text
/// nesting under category and function headings); the legacy dialect,
/// consulted as a fallback with line comments skipped, has its fields
/// parsed out.  A binding without an attribute path or a comment yields
/// nothing.
pub open spec fn doc_item_spec(tr: Tree, n: int) -> Option<DocItemOrLegacyV> {
    match attrpath_search(tr, n, 0) {
        None => None,
        Some(ap) => {
            let name = tr.node_text_spec(ap);
            match doc_comment_spec(tr, n, 2) {
                Some(c) => Some(
                    DocItemOrLegacyV::DocItem(
                        DocItemV {
                            name: name,
                            comment: DocCommentV { doc: c, doc_type: None, example: None },
                        },
                    ),
                ),
                None => match legacy_comment_spec(tr, n, false) {
                    None => None,
                    Some(c) => Some(
                        DocItemOrLegacyV::LegacyDocItem(
                            LegacyDocItemV {
                                name: name,
                                comment: parse_doc_comment_spec(c),
                                args: Seq::empty(),
                            },
                        ),
                    ),
                },
            }
        },
    }
}

/// Resolves the documentation attached to binding `n`, if any.
fn retrieve_doc_item(tr: &Tree, n: usize) -> (r: Option<DocItemOrLegacy>)
    requires
        tr.wf(),
        n < tr.nodes.len(),
    ensures
        r.deep_view() == doc_item_spec(*tr, n as int),
{
    let ap = match find_attrpath_child(tr, n) {
        None => {
            return None;
        },
        Some(ap) => ap,
    };
    let item_name = tr.node_text(ap);
    match retrieve_doc_comment(tr, n, Some(2)) {
        Some(comment) => Some(
            DocItemOrLegacy::DocItem(
                DocItem {
                    name: item_name,
                    comment: DocComment { doc: comment, doc_type: None, example: None },
                },
            ),
        ),
        None => {
            match retrieve_legacy_comment(tr, n, false) {
                None => None,
                Some(comment) => {
                    let empty_args: Vec<crate::commonmark::Argument> = Vec::new();
                    proof {
                        assert(empty_args.deep_view() =~= Seq::<
                            crate::commonmark::ArgumentV,
                        >::empty());
                    }
                    Some(
                        DocItemOrLegacy::LegacyDocItem(
                            LegacyDocItem {
                                name: item_name,
                                comment: parse_doc_comment(comment.as_str()),
                                args: empty_args,
                            },
                        ),
                    )
                },
            }
        },
    }
}

/// The arguments gathered for binding `n`: those of the bound value,
/// when it is a lambda, and none otherwise.
pub open spec fn entry_args_spec(tr: Tree, n: int) -> Seq<crate::commonmark::ArgumentV> {
    match non_attrpath_search(tr, n, 0) {
        Some(val) => if n < val && val < tr.nodes.len() && tr.nodes[val].kind
            == NodeKind::Lambda {
            lambda_args_spec(tr, val)
        } else {
            Seq::empty()
        },
        None => Seq::empty(),
    }
}

/// What gathering one binding yields: its resolved documentation under
/// either dialect, and, whenever the bound value is a lambda, the
/// arguments of that lambda.
pub open spec fn entry_info_spec(tr: Tree, n: int) -> Option<LegacyDocItemV> {
    match doc_item_spec(tr, n) {
        None => None,
        Some(DocItemOrLegacyV::LegacyDocItem(v)) => Some(
            LegacyDocItemV { name: v.name, comment: v.comment, args: entry_args_spec(tr, n) },
        ),
        Some(DocItemOrLegacyV::DocItem(v)) => Some(
            LegacyDocItemV { name: v.name, comment: v.comment, args: entry_args_spec(tr, n) },
        ),
    }
}

/// Gathers the arguments of the value bound by `n`, when it is a lambda.
fn collect_entry_args(tr: &Tree, n: usize) -> (r: Vec<crate::commonmark::Argument>)
    requires
        tr.wf(),
        n < tr.nodes.len(),
    ensures
        r.deep_view() == entry_args_spec(*tr, n as int),
{
    match find_non_attrpath_child(tr, n) {
        Some(val) => {
            if tr.nodes[val].kind == NodeKind::Lambda {
                collect_lambda_args_legacy(tr, val)
            } else {
                let empty_args: Vec<crate::commonmark::Argument> = Vec::new();
                proof {
                    assert(empty_args.deep_view() =~= Seq::<
                        crate::commonmark::ArgumentV,
                    >::empty());
                }
                empty_args
            }
        },
        None => {
            let empty_args: Vec<crate::commonmark::Argument> = Vec::new();
            proof {
                assert(empty_args.deep_view() =~= Seq::<
                    crate::commonmark::ArgumentV,
                >::empty());
            }
            empty_args
        },
    }
}

/// Gathers one binding: its name, its attached documentation under
/// either dialect, and the argument names of the bound lambda.
pub fn collect_entry_information(tr: &Tree, n: usize) -> (r: Option<LegacyDocItem>)
    requires
        tr.wf(),
        n < tr.nodes.len(),
    ensures
        r.deep_view() == entry_info_spec(*tr, n as int),
{
    match retrieve_doc_item(tr, n) {
        None => None,
        Some(DocItemOrLegacy::LegacyDocItem(v)) => {
            let args = collect_entry_args(tr, n);
            Some(LegacyDocItem { name: v.name, comment: v.comment, args })
        },
        Some(DocItemOrLegacy::DocItem(v)) => {
            let args = collect_entry_args(tr, n);
            Some(LegacyDocItem { name: v.name, comment: v.comment, args })
        },
    }
}

/// One binding of a scope: a name defined in the enclosing `let` block
/// and the entry already produced for it.
pub struct ScopeEntry {
    pub name: String,
    pub entry: ManualEntry,
}

/// The mathematical shadow of [`ScopeEntry`].
pub ghost struct ScopeEntryV {
    pub name: Seq<char>,
    pub entry: ManualEntryV,
}

impl DeepView for ScopeEntry {
    type V = ScopeEntryV;

    open spec fn deep_view(&self) -> ScopeEntryV {
        ScopeEntryV { name: self.name@, entry: self.entry.deep_view() }
    }
}

/// What a scope lookup finds: the entry of the last binding bearing the
/// name, so that a later binding shadows an earlier one.
pub open spec fn scope_lookup_spec(entries: Seq<ScopeEntryV>, name: Seq<char>) -> Option<
    ManualEntryV,
>
    decreases entries.len(),
{
    if entries.len() == 0 {
        None
    } else if entries.last().name == name {
        Some(entries.last().entry)
    } else {
        scope_lookup_spec(entries.drop_last(), name)
    }
}

/// A one-level scope: the entries produced for the bindings of the
/// directly enclosing `let` block, indexed by name.  It lives for one
/// walk and is never persisted or merged across nesting levels.
pub struct Scope {
    pub entries: Vec<ScopeEntry>,
}

impl Scope {
    /// The bindings as a mathematical sequence.
    pub open spec fn view_entries(&self) -> Seq<ScopeEntryV> {
        self.entries.deep_view()
    }

    /// An empty scope.
    pub fn new() -> (r: Scope)
        ensures
            r.view_entries() == Seq::<ScopeEntryV>::empty(),
    {
        let r = Scope { entries: Vec::new() };
        proof {
            assert(r.view_entries() =~= Seq::<ScopeEntryV>::empty());
        }
        r
    }

    /// Adds a binding; a later binding for the same name shadows an
    /// earlier one.
    pub fn insert(&mut self, name: String, entry: ManualEntry)
        ensures
            final(self).view_entries() == old(self).view_entries().push(
                ScopeEntryV { name: name@, entry: entry.deep_view() },
            ),
    {
        let ghost before = self.view_entries();
        let ghost ev = entry.deep_view();
        self.entries.push(ScopeEntry { name, entry });
        proof {
            assert(final(self).view_entries() =~= before.push(
                ScopeEntryV { name: name@, entry: ev },
            ));
        }
    }

    /// Looks a name up, latest binding first, returning a copy of the
    /// entry produced for it.
    pub fn get(&self, name: &str) -> (r: Option<ManualEntry>)
        ensures
            r.deep_view() == scope_lookup_spec(self.view_entries(), name@),
    {
        let ghost dv = self.view_entries();
        let mut i: usize = self.entries.len();
        proof {
            assert(dv.take(i as int) =~= dv);
        }
        while i > 0
            invariant
                0 <= i <= self.entries.len(),
                dv == self.view_entries(),
                scope_lookup_spec(dv, name@) == scope_lookup_spec(dv.take(i as int), name@),
            decreases i,
        {
            proof {
                assert(dv.take(i as int).last() == dv[i - 1]);
                assert(dv.take(i as int).drop_last() =~= dv.take(i - 1));
            }
            if crate::format::str_eq(self.entries[i - 1].name.as_str(), name) {
                return Some(self.entries[i - 1].entry.duplicate());
            }
            i -= 1;
        }
        proof {
            assert(dv.take(0) =~= Seq::<ScopeEntryV>::empty());
        }
        None
    }
}

/// The first attribute set in preorder from node `n`, the node itself
/// included.
pub open spec fn attrset_preorder(tr: Tree, n: int) -> Option<int>
    decreases tr.nodes.len() - n, 1int, 0int,
{
    if !(0 <= n < tr.nodes.len()) {
        None
    } else if tr.nodes[n].kind == NodeKind::AttrSet {
        Some(n)
    } else {
        attrset_preorder_children(tr, n, 0)
    }
}

/// The first attribute set found under the children of `n` from child
/// position `j` on.
pub open spec fn attrset_preorder_children(tr: Tree, n: int, j: int) -> Option<int>
    decreases tr.nodes.len() - n, 0int, tr.nodes[n].children.len() - j,
{
    if !(0 <= n < tr.nodes.len()) || j < 0 || j >= tr.nodes[n].children.len() {
        None
    } else {
        let c = tr.nodes[n].children[j] as int;
        let found = if n < c && c < tr.nodes.len() {
            attrset_preorder(tr, c)
        } else {
            None
        };
        match found {
            Some(x) => Some(x),
            None => attrset_preorder_children(tr, n, j + 1),
        }
    }
}

/// Finds the first attribute set in preorder from `n`.
pub fn find_attrset(tr: &Tree, n: usize) -> (r: Option<usize>)
    requires
        tr.wf(),
        n < tr.nodes.len(),
    ensures
        match r {
            Some(c) => attrset_preorder(*tr, n as int) == Some(c as int) && c < tr.nodes.len()
                && tr.nodes[c as int].kind == NodeKind::AttrSet,
            None => attrset_preorder(*tr, n as int) is None,
        },
    decreases tr.nodes.len() - n,
{
    if tr.nodes[n].kind == NodeKind::AttrSet {
        return Some(n);
    }
    let mut j: usize = 0;
    while j < tr.nodes[n].children.len()
        invariant
            tr.wf(),
            n < tr.nodes.len(),
            tr.nodes[n as int].kind != NodeKind::AttrSet,
            0 <= j <= tr.nodes[n as int].children.len(),
            attrset_preorder_children(*tr, n as int, 0) == attrset_preorder_children(
                *tr,
                n as int,
                j as int,
            ),
        decreases tr.nodes[n as int].children.len() - j,
    {
        assert(tr.wf_node(n as int));
        assert(tr.wf_child(n as int, j as int));
        let c = tr.nodes[n].children[j];
        match find_attrset(tr, c) {
            Some(x) => {
                return Some(x);
            },
            None => {},
        }
        j += 1;
    }
    None
}

/// The first binding container in preorder from node `n`: a `let`
/// construct or, failing that, a bare attribute set; destructuring
/// patterns are skipped whole, so that a function signature is never
/// mistaken for a binding set.
pub open spec fn container_preorder(tr: Tree, n: int) -> Option<int>
    decreases tr.nodes.len() - n, 1int, 0int,
{
    if !(0 <= n < tr.nodes.len()) {
        None
    } else if tr.nodes[n].kind == NodeKind::Pattern {
        None
    } else if tr.nodes[n].kind == NodeKind::LetIn || tr.nodes[n].kind == NodeKind::AttrSet {
        Some(n)
    } else {
        container_preorder_children(tr, n, 0)
    }
}

/// The first binding container under the children of `n` from child
/// position `j` on.
pub open spec fn container_preorder_children(tr: Tree, n: int, j: int) -> Option<int>
    decreases tr.nodes.len() - n, 0int, tr.nodes[n].children.len() - j,
{
    if !(0 <= n < tr.nodes.len()) || j < 0 || j >= tr.nodes[n].children.len() {
        None
    } else {
        let c = tr.nodes[n].children[j] as int;
        let found = if n < c && c < tr.nodes.len() {
            container_preorder(tr, c)
        } else {
            None
        };
        match found {
            Some(x) => Some(x),
            None => container_preorder_children(tr, n, j + 1),
        }
    }
}

/// Finds the first binding container in preorder from `n`.
pub fn find_container(tr: &Tree, n: usize) -> (r: Option<usize>)
    requires
        tr.wf(),
        n < tr.nodes.len(),
    ensures
        match r {
            Some(c) => container_preorder(*tr, n as int) == Some(c as int) && c < tr.nodes.len()
                && (tr.nodes[c as int].kind == NodeKind::LetIn || tr.nodes[c as int].kind
                == NodeKind::AttrSet),
            None => container_preorder(*tr, n as int) is None,
        },
    decreases tr.nodes.len() - n,
{
    if tr.nodes[n].kind == NodeKind::Pattern {
        return None;
    }
    if tr.nodes[n].kind == NodeKind::LetIn || tr.nodes[n].kind == NodeKind::AttrSet {
        return Some(n);
    }
    let mut j: usize = 0;
    while j < tr.nodes[n].children.len()
        invariant
            tr.wf(),
            n < tr.nodes.len(),
            tr.nodes[n as int].kind != NodeKind::Pattern,
            tr.nodes[n as int].kind != NodeKind::LetIn,
            tr.nodes[n as int].kind != NodeKind::AttrSet,
            0 <= j <= tr.nodes[n as int].children.len(),
            container_preorder_children(*tr, n as int, 0) == container_preorder_children(
                *tr,
                n as int,
                j as int,
            ),
        decreases tr.nodes[n as int].children.len() - j,
    {
        assert(tr.wf_node(n as int));
        assert(tr.wf_child(n as int, j as int));
        let c = tr.nodes[n].children[j];
        match find_container(tr, c) {
            Some(x) => {
                return Some(x);
            },
            None => {},
        }
        j += 1;
    }
    None
}

/// The entries an `inherit` contributes: for each inherited identifier,
/// the entry the scope already holds under that name; names the scope
/// does not know are silently omitted.
pub open spec fn inherit_entries_spec(
    tr: Tree,
    inh: int,
    j: int,
    scope: Seq<ScopeEntryV>,
) -> Seq<ManualEntryV>
    decreases tr.nodes[inh].children.len() - j,
{
    if j < 0 || j >= tr.nodes[inh].children.len() {
        Seq::empty()
    } else {
        let c = tr.nodes[inh].children[j] as int;
        let rest = inherit_entries_spec(tr, inh, j + 1, scope);
        if c < tr.nodes.len() && tr.nodes[c].kind == NodeKind::Ident {
            match scope_lookup_spec(scope, tr.node_text_spec(c)) {
                Some(e) => seq![e] + rest,
                None => rest,
            }
        } else {
            rest
        }
    }
}

/// Gathers the entries an `inherit` without a source form contributes.
fn collect_inherit_entries(tr: &Tree, inh: usize, scope: &Scope) -> (r: Vec<ManualEntry>)
    requires
        tr.wf(),
        inh < tr.nodes.len(),
    ensures
        r.deep_view() == inherit_entries_spec(*tr, inh as int, 0, scope.view_entries()),
{
    let ghost sv = scope.view_entries();
    let mut out: Vec<ManualEntry> = Vec::new();
    let mut j: usize = 0;
    proof {
        assert(out.deep_view() + inherit_entries_spec(*tr, inh as int, 0, sv)
            =~= inherit_entries_spec(*tr, inh as int, 0, sv));
    }
    while j < tr.nodes[inh].children.len()
        invariant
            tr.wf(),
            inh < tr.nodes.len(),
            sv == scope.view_entries(),
            0 <= j <= tr.nodes[inh as int].children.len(),
            inherit_entries_spec(*tr, inh as int, 0, sv) =~= out.deep_view()
                + inherit_entries_spec(*tr, inh as int, j as int, sv),
        decreases tr.nodes[inh as int].children.len() - j,
    {
        assert(tr.wf_node(inh as int));
        assert(tr.wf_child(inh as int, j as int));
        let c = tr.nodes[inh].children[j];
        let ghost odv = out.deep_view();
        if tr.nodes[c].kind == NodeKind::Ident {
            let name = tr.node_text(c);
            match scope.get(name.as_str()) {
                Some(e) => {
                    let ghost ev = e.deep_view();
                    out.push(e);
                    proof {
                        assert(out.deep_view() =~= odv.push(ev));
                        assert(odv.push(ev) + inherit_entries_spec(*tr, inh as int, j + 1, sv)
                            =~= odv + (seq![ev] + inherit_entries_spec(
                            *tr,
                            inh as int,
                            j + 1,
                            sv,
                        )));
                    }
                },
                None => {},
            }
        }
        j += 1;
    }
    out
}

/// The entries of the target attribute set, in source order: one per
/// documented binding, and, for each `inherit` without a source form,
/// the scope's entries for the inherited names.  An `inherit (expr) ...`
/// with a source form is skipped whole.
pub open spec fn bindings_list_spec(
    tr: Tree,
    set: int,
    j: int,
    prefix: Seq<char>,
    category: Seq<char>,
    locs: Seq<LocEntryV>,
    scope: Seq<ScopeEntryV>,
) -> Seq<ManualEntryV>
    decreases tr.nodes[set].children.len() - j,
{
    if j < 0 || j >= tr.nodes[set].children.len() {
        Seq::empty()
    } else {
        let c = tr.nodes[set].children[j] as int;
        let rest = bindings_list_spec(tr, set, j + 1, prefix, category, locs, scope);
        if c < tr.nodes.len() && tr.nodes[c].kind == NodeKind::AttrpathValue {
            match entry_info_spec(tr, c) {
                Some(di) => seq![into_entry_spec(di, prefix, category, locs)] + rest,
                None => rest,
            }
        } else if c < tr.nodes.len() && tr.nodes[c].kind == NodeKind::Inherit
            && inherit_from_search(tr, c, 0) is None {
            inherit_entries_spec(tr, c, 0, scope) + rest
        } else {
            rest
        }
    }
}

/// Inherit resolution law: an `inherit` with a source expression
/// contributes no entries, whatever the scope holds; an `inherit`
/// without one contributes exactly the scope's entries for its names,
/// in order, ahead of whatever the later children contribute.
pub proof fn lemma_inherit_resolution(
    tr: Tree,
    set: int,
    j: int,
    prefix: Seq<char>,
    category: Seq<char>,
    locs: Seq<LocEntryV>,
    scope: Seq<ScopeEntryV>,
)
    requires
        0 <= j < tr.nodes[set].children.len(),
        tr.nodes[set].children[j] < tr.nodes.len(),
        tr.nodes[tr.nodes[set].children[j] as int].kind == NodeKind::Inherit,
    ensures
        inherit_from_search(tr, tr.nodes[set].children[j] as int, 0) is Some
            ==> bindings_list_spec(tr, set, j, prefix, category, locs, scope)
            == bindings_list_spec(tr, set, j + 1, prefix, category, locs, scope),
        inherit_from_search(tr, tr.nodes[set].children[j] as int, 0) is None
            ==> bindings_list_spec(tr, set, j, prefix, category, locs, scope)
            == inherit_entries_spec(tr, tr.nodes[set].children[j] as int, 0, scope)
            + bindings_list_spec(tr, set, j + 1, prefix, category, locs, scope),
{
}

/// What collecting bindings from node `n` yields: the entries of the
/// first attribute set found in preorder from `n`, or none.
pub open spec fn collect_bindings_spec(
    tr: Tree,
    n: int,
    prefix: Seq<char>,
    category: Seq<char>,
    locs: Seq<LocEntryV>,
    scope: Seq<ScopeEntryV>,
) -> Seq<ManualEntryV> {
    match attrset_preorder(tr, n) {
        None => Seq::empty(),
        Some(set) => bindings_list_spec(tr, set, 0, prefix, category, locs, scope),
    }
}

/// Collects the entries of the first attribute set in preorder from
/// `n`: each documented binding becomes an entry, and an `inherit`
/// without a source form re-exports the scope's entries for its names.
pub fn collect_bindings(
    tr: &Tree,
    n: usize,
    prefix: &str,
    category: &str,
    locs: &LocationMap,
    scope: &Scope,
) -> (r: Vec<ManualEntry>)
    requires
        tr.wf(),
        n < tr.nodes.len(),
    ensures
        r.deep_view() == collect_bindings_spec(
            *tr,
            n as int,
            prefix@,
            category@,
            locs.view_entries(),
            scope.view_entries(),
        ),
{
    let ghost lv = locs.view_entries();
    let ghost sv = scope.view_entries();
    let mut out: Vec<ManualEntry> = Vec::new();
    let set = match find_attrset(tr, n) {
        None => {
            proof {
                assert(out.deep_view() =~= Seq::<ManualEntryV>::empty());
            }
            return out;
        },
        Some(set) => set,
    };
    let mut j: usize = 0;
    proof {
        assert(out.deep_view() + bindings_list_spec(*tr, set as int, 0, prefix@, category@, lv, sv)
            =~= bindings_list_spec(*tr, set as int, 0, prefix@, category@, lv, sv));
    }
    while j < tr.nodes[set].children.len()
        invariant
            tr.wf(),
            set < tr.nodes.len(),
            lv == locs.view_entries(),
            sv == scope.view_entries(),
            0 <= j <= tr.nodes[set as int].children.len(),
            bindings_list_spec(*tr, set as int, 0, prefix@, category@, lv, sv) =~= out.deep_view()
                + bindings_list_spec(*tr, set as int, j as int, prefix@, category@, lv, sv),
        decreases tr.nodes[set as int].children.len() - j,
    {
        assert(tr.wf_node(set as int));
        assert(tr.wf_child(set as int, j as int));
        let c = tr.nodes[set].children[j];
        let ghost odv = out.deep_view();
        if tr.nodes[c].kind == NodeKind::AttrpathValue {
            match collect_entry_information(tr, c) {
                Some(di) => {
                    let ghost div = di.deep_view();
                    let entry = di.into_entry(prefix, category, locs);
                    let ghost ev = entry.deep_view();
                    out.push(entry);
                    proof {
                        assert(out.deep_view() =~= odv.push(ev));
                        assert(odv.push(ev) + bindings_list_spec(
                            *tr,
                            set as int,
                            j + 1,
                            prefix@,
                            category@,
                            lv,
                            sv,
                        ) =~= odv + (seq![ev] + bindings_list_spec(
                            *tr,
                            set as int,
                            j + 1,
                            prefix@,
                            category@,
                            lv,
                            sv,
                        )));
                    }
                },
                None => {},
            }
        } else if tr.nodes[c].kind == NodeKind::Inherit {
            match find_inherit_from_child(tr, c) {
                Some(_) => {},
                None => {
                    let mut inherited = collect_inherit_entries(tr, c, scope);
                    let ghost idv = inherited.deep_view();
                    out.append(&mut inherited);
                    proof {
                        assert(out.deep_view() =~= odv + idv);
                        assert((odv + idv) + bindings_list_spec(
                            *tr,
                            set as int,
                            j + 1,
                            prefix@,
                            category@,
                            lv,
                            sv,
                        ) =~= odv + (idv + bindings_list_spec(
                            *tr,
                            set as int,
                            j + 1,
                            prefix@,
                            category@,
                            lv,
                            sv,
                        )));
                    }
                },
            }
        }
        j += 1;
    }
    out
}

/// The scope a `let` block provides: one binding per documented
/// attribute among its direct children, in source order, later bindings
/// shadowing earlier ones.
pub open spec fn scope_build_spec(
    tr: Tree,
    letin: int,
    j: int,
    prefix: Seq<char>,
    category: Seq<char>,
    locs: Seq<LocEntryV>,
) -> Seq<ScopeEntryV>
    decreases tr.nodes[letin].children.len() - j,
{
    if j < 0 || j >= tr.nodes[letin].children.len() {
        Seq::empty()
    } else {
        let c = tr.nodes[letin].children[j] as int;
        let rest = scope_build_spec(tr, letin, j + 1, prefix, category, locs);
        if c < tr.nodes.len() && tr.nodes[c].kind == NodeKind::AttrpathValue {
            match entry_info_spec(tr, c) {
                Some(di) => seq![
                    ScopeEntryV {
                        name: di.name,
                        entry: into_entry_spec(di, prefix, category, locs),
                    },
                ] + rest,
                None => rest,
            }
        } else {
            rest
        }
    }
}

/// What collecting a whole file yields: the first `let` construct, or
/// failing that the first bare attribute set, determines the binding
/// container; a `let` provides its bindings as a one-level scope for the
/// `inherit` forms of its body.
pub open spec fn collect_entries_spec(
    tr: Tree,
    prefix: Seq<char>,
    category: Seq<char>,
    locs: Seq<LocEntryV>,
) -> Seq<ManualEntryV> {
    if tr.nodes.len() == 0 {
        Seq::empty()
    } else {
        match container_preorder(tr, 0) {
            None => Seq::empty(),
            Some(c) => if tr.nodes[c].kind == NodeKind::LetIn {
                let scope = scope_build_spec(tr, c, 0, prefix, category, locs);
                match letin_body_search(tr, c, 0) {
                    Some(b) => if 0 <= b < tr.nodes.len() {
                        collect_bindings_spec(tr, b, prefix, category, locs, scope)
                    } else {
                        Seq::empty()
                    },
                    None => Seq::empty(),
                }
            } else {
                collect_bindings_spec(tr, c, prefix, category, locs, Seq::empty())
            },
        }
    }
}

/// Walks one source file and produces its manual entries in source
/// order.  The first `let ... in ...` construct, or failing that the
/// first bare attribute set, is the one binding container processed;
/// only one container is ever processed per file.
pub fn collect_entries(tr: &Tree, prefix: &str, category: &str, locs: &LocationMap) -> (r: Vec<
    ManualEntry,
>)
    requires
        tr.wf(),
    ensures
        r.deep_view() == collect_entries_spec(*tr, prefix@, category@, locs.view_entries()),
{
    let ghost lv = locs.view_entries();
    let empty_out: Vec<ManualEntry> = Vec::new();
    proof {
        assert(empty_out.deep_view() =~= Seq::<ManualEntryV>::empty());
    }
    if tr.nodes.len() == 0 {
        return empty_out;
    }
    let c = match find_container(tr, 0) {
        None => {
            return empty_out;
        },
        Some(c) => c,
    };
    if tr.nodes[c].kind == NodeKind::LetIn {
        let mut scope = Scope::new();
        let mut j: usize = 0;
        proof {
            assert(scope.view_entries() + scope_build_spec(*tr, c as int, 0, prefix@, category@, lv)
                =~= scope_build_spec(*tr, c as int, 0, prefix@, category@, lv));
        }
        while j < tr.nodes[c].children.len()
            invariant
                tr.wf(),
                c < tr.nodes.len(),
                lv == locs.view_entries(),
                0 <= j <= tr.nodes[c as int].children.len(),
                scope_build_spec(*tr, c as int, 0, prefix@, category@, lv) =~= scope.view_entries()
                    + scope_build_spec(*tr, c as int, j as int, prefix@, category@, lv),
            decreases tr.nodes[c as int].children.len() - j,
        {
            assert(tr.wf_node(c as int));
            assert(tr.wf_child(c as int, j as int));
            let ch = tr.nodes[c].children[j];
            let ghost sdv = scope.view_entries();
            if tr.nodes[ch].kind == NodeKind::AttrpathValue {
                match collect_entry_information(tr, ch) {
                    Some(di) => {
                        let name = di.name.clone();
                        let ghost div = di.deep_view();
                        let entry = di.into_entry(prefix, category, locs);
                        let ghost sev = ScopeEntryV { name: div.name, entry: entry.deep_view() };
                        scope.insert(name, entry);
                        proof {
                            assert(scope.view_entries() =~= sdv.push(sev));
                            assert(sdv.push(sev) + scope_build_spec(
                                *tr,
                                c as int,
                                j + 1,
                                prefix@,
                                category@,
                                lv,
                            ) =~= sdv + (seq![sev] + scope_build_spec(
                                *tr,
                                c as int,
                                j + 1,
                                prefix@,
                                category@,
                                lv,
                            )));
                        }
                    },
                    None => {},
                }
            }
            j += 1;
        }
        match find_letin_body_child(tr, c) {
            Some(b) => collect_bindings(tr, b, prefix, category, locs, &scope),
            None => empty_out,
        }
    } else {
        let scope = Scope::new();
        collect_bindings(tr, c, prefix, category, locs, &scope)
    }
}

/// The rendered file description: a category heading with its anchor,
/// then the file's own leading comment, resolved under the structured
/// dialect (shifted one level) or the legacy dialect, normalized.
pub open spec fn description_spec(
    tr: Tree,
    description: Seq<char>,
    category: Seq<char>,
) -> Seq<char> {
    let body = if tr.nodes.len() > 0 && tr.nodes[0].children.len() > 0 && tr.nodes[0].children[0]
        < tr.nodes.len() {
        let c = tr.nodes[0].children[0] as int;
        let dc = match doc_comment_spec(tr, c, 1) {
            Some(d) => Some(d),
            None => legacy_comment_spec(tr, c, false),
        };
        match dc {
            None => Seq::<char>::empty(),
            Some(d) => opt_text(handle_indentation_spec(d)),
        }
    } else {
        Seq::<char>::empty()
    };
    "# "@ + description + " {#sec-functions-library-"@ + category + "}\n"@ + body + "\n"@
}

/// Renders the file description heading and the file's leading comment.
pub fn retrieve_description(tr: &Tree, description: &str, category: &str) -> (r: String)
    requires
        tr.wf(),
    ensures
        r@ == description_spec(*tr, description@, category@),
{
    let mut out = String::from_str("# ");
    out.append(description);
    out.append(" {#sec-functions-library-");
    out.append(category);
    out.append("}\n");
    if tr.nodes.len() > 0 && tr.nodes[0].children.len() > 0
        && tr.nodes[0].children[0] < tr.nodes.len() {
        assert(tr.wf_node(0));
        assert(tr.wf_child(0, 0));
        let c = tr.nodes[0].children[0];
        let dc: Option<String> = match retrieve_doc_comment(tr, c, Some(1)) {
            Some(d) => Some(d),
            None => retrieve_legacy_comment(tr, c, false),
        };
        match dc {
            None => {},
            Some(d) => {
                let cleaned = opt_or_empty(handle_indentation(d.as_str()));
                out.append(cleaned.as_str());
            },
        }
    }
    out.append("\n");
    out
}

/// The renderings of a list of entries, concatenated in order.
pub open spec fn sections_spec(entries: Seq<ManualEntryV>, anchor: Seq<char>) -> Seq<char>
    decreases entries.len(),
{
    if entries.len() == 0 {
        Seq::empty()
    } else {
        section_spec(entries[0], anchor) + sections_spec(entries.drop_first(), anchor)
    }
}

pub proof fn lemma_sections_spec_snoc(entries: Seq<ManualEntryV>, e: ManualEntryV, anchor: Seq<char>)
    ensures
        sections_spec(entries.push(e), anchor) == sections_spec(entries, anchor) + section_spec(
            e,
            anchor,
        ),
    decreases entries.len(),
{
    if entries.len() == 0 {
        assert(entries.push(e)[0] == e);
        assert(entries.push(e).drop_first() =~= Seq::<ManualEntryV>::empty());
        assert(sections_spec(entries.push(e).drop_first(), anchor) =~= Seq::<char>::empty());
        assert(sections_spec(entries.push(e), anchor) =~= sections_spec(entries, anchor)
            + section_spec(e, anchor));
    } else {
        lemma_sections_spec_snoc(entries.drop_first(), e, anchor);
        assert(entries.push(e)[0] == entries[0]);
        assert(entries.push(e).drop_first() =~= entries.drop_first().push(e));
        assert(section_spec(entries[0], anchor) + (sections_spec(entries.drop_first(), anchor)
            + section_spec(e, anchor)) =~= (section_spec(entries[0], anchor) + sections_spec(
            entries.drop_first(),
            anchor,
        )) + section_spec(e, anchor));
    }
}

/// Renders a whole document: the description, a blank line, then one
/// section per entry in order.
pub fn render_document(description: &str, entries: Vec<ManualEntry>, anchor_prefix: &str) -> (r:
    String)
    ensures
        r@ == description@ + "\n"@ + sections_spec(entries.deep_view(), anchor_prefix@),
{
    let ghost edv = entries.deep_view();
    let mut output = String::from_str(description);
    output.append("\n");
    let ghost base = output@;
    let mut i: usize = 0;
    while i < entries.len()
        invariant
            0 <= i <= entries.len(),
            edv == entries.deep_view(),
            base == description@ + "\n"@,
            output@ == base + sections_spec(edv.take(i as int), anchor_prefix@),
        decreases entries.len() - i,
    {
        let entry = entries[i].duplicate();
        entry.write_section(anchor_prefix, &mut output);
        proof {
            lemma_sections_spec_snoc(edv.take(i as int), edv[i as int], anchor_prefix@);
            assert(edv.take(i as int).push(edv[i as int]) =~= edv.take(i + 1));
        }
        i += 1;
    }
    proof {
        assert(edv.take(entries.len() as int) =~= edv);
    }
    output
}

} // verus!
