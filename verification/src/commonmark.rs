//! The manual-entry data model and its CommonMark rendering.

use vstd::prelude::*;
use vstd::string::*;

use crate::format::{
    find_from, join_lines, line_blank, lines_of, scan_char_from, split_lines, str_blank, trim,
    trim_spec, trim_start, trim_start_spec, unlines,
};

verus! {

/// One function argument name with its optional documentation.
#[derive(Clone, Debug)]
pub struct SingleArg {
    pub name: String,
    pub doc: Option<String>,
}

/// The mathematical shadow of [`SingleArg`].
pub ghost struct SingleArgV {
    pub name: Seq<char>,
    pub doc: Option<Seq<char>>,
}

impl DeepView for SingleArg {
    type V = SingleArgV;

    open spec fn deep_view(&self) -> SingleArgV {
        SingleArgV { name: self.name@, doc: self.doc.deep_view() }
    }
}

/// A function argument: either a flat identifier or a destructuring
/// pattern with one entry per bound name, in declaration order.
#[derive(Clone, Debug)]
pub enum Argument {
    /// Flat function argument.
    Flat(SingleArg),
    /// Pattern function argument.
    Pattern(Vec<SingleArg>),
}

/// The mathematical shadow of [`Argument`].
pub ghost enum ArgumentV {
    Flat(SingleArgV),
    Pattern(Seq<SingleArgV>),
}

impl DeepView for Argument {
    type V = ArgumentV;

    open spec fn deep_view(&self) -> ArgumentV {
        match self {
            Argument::Flat(a) => ArgumentV::Flat(a.deep_view()),
            Argument::Pattern(v) => ArgumentV::Pattern(v.deep_view()),
        }
    }
}

impl SingleArg {
    /// A structurally equal copy.
    pub fn duplicate(&self) -> (r: SingleArg)
        ensures
            r.deep_view() == self.deep_view(),
    {
        let doc = match &self.doc {
            None => None,
            Some(d) => Some(d.clone()),
        };
        SingleArg { name: self.name.clone(), doc }
    }
}

impl Argument {
    /// A structurally equal copy.
    pub fn duplicate(&self) -> (r: Argument)
        ensures
            r.deep_view() == self.deep_view(),
    {
        match self {
            Argument::Flat(a) => Argument::Flat(a.duplicate()),
            Argument::Pattern(v) => {
                let mut out: Vec<SingleArg> = Vec::new();
                let mut i: usize = 0;
                while i < v.len()
                    invariant
                        0 <= i <= v.len(),
                        out.deep_view() =~= v.deep_view().take(i as int),
                    decreases v.len() - i,
                {
                    let ghost odv = out.deep_view();
                    out.push(v[i].duplicate());
                    proof {
                        assert(out.deep_view() =~= odv.push(v[i as int].deep_view()));
                    }
                    i += 1;
                }
                proof {
                    assert(v.deep_view().take(v.len() as int) =~= v.deep_view());
                }
                Argument::Pattern(out)
            },
        }
    }
}

/// The replacement written for each quote character in an identifier.
pub open spec fn prime_marker() -> Seq<char> {
    seq!['-', 'p', 'r', 'i', 'm', 'e']
}

/// Each quote character replaced by the textual marker `-prime`.
pub open spec fn replace_prime_spec(s: Seq<char>) -> Seq<char>
    decreases s.len(),
{
    if s.len() == 0 {
        Seq::empty()
    } else if s[0] == '\'' {
        prime_marker() + replace_prime_spec(s.drop_first())
    } else {
        seq![s[0]] + replace_prime_spec(s.drop_first())
    }
}

pub proof fn lemma_replace_prime_snoc(s: Seq<char>, c: char)
    ensures
        replace_prime_spec(s.push(c)) == replace_prime_spec(s) + (if c == '\'' {
            prime_marker()
        } else {
            seq![c]
        }),
    decreases s.len(),
{
    let unit: Seq<char> = if c == '\'' {
        prime_marker()
    } else {
        seq![c]
    };
    if s.len() == 0 {
        assert(s.push(c)[0] == c);
        assert(s.push(c).drop_first() =~= Seq::<char>::empty());
        assert(replace_prime_spec(s.push(c).drop_first()) =~= Seq::<char>::empty());
        assert(replace_prime_spec(s.push(c)) =~= unit);
        assert(replace_prime_spec(s) + unit =~= unit);
    } else {
        lemma_replace_prime_snoc(s.drop_first(), c);
        assert(s.push(c)[0] == s[0]);
        assert(s.push(c).drop_first() =~= s.drop_first().push(c));
        let head: Seq<char> = if s[0] == '\'' {
            prime_marker()
        } else {
            seq![s[0]]
        };
        assert(replace_prime_spec(s.push(c)) == head + (replace_prime_spec(s.drop_first())
            + unit));
        assert(head + (replace_prime_spec(s.drop_first()) + unit) =~= (head + replace_prime_spec(
            s.drop_first(),
        )) + unit);
    }
}

/// A copy of `s` with every quote character replaced by `-prime`.
pub fn replace_prime(s: &str) -> (r: String)
    ensures
        r@ == replace_prime_spec(s@),
{
    let n = s.unicode_len();
    let mut r = String::new();
    let mut i: usize = 0;
    proof {
        assert(s@.take(0) =~= Seq::<char>::empty());
    }
    while i < n
        invariant
            0 <= i <= n == s@.len(),
            r@ == replace_prime_spec(s@.take(i as int)),
        decreases n - i,
    {
        let c = s.get_char(i);
        if c == '\'' {
            r.append("-prime");
            proof {
                reveal_strlit("-prime");
                assert("-prime"@ =~= prime_marker());
            }
        } else {
            r.append(s.substring_char(i, i + 1));
            proof {
                assert(s@.subrange(i as int, i + 1) =~= seq![s@[i as int]]);
            }
        }
        proof {
            lemma_replace_prime_snoc(s@.take(i as int), s@[i as int]);
            assert(s@.take(i as int).push(s@[i as int]) =~= s@.take(i + 1));
        }
        i += 1;
    }
    proof {
        assert(s@.take(n as int) =~= s@);
    }
    r
}

/// Joins two pieces with a dot, dropping the dot when either is empty.
pub open spec fn dot_concat(x: Seq<char>, y: Seq<char>) -> Seq<char> {
    if x.len() == 0 {
        y
    } else if y.len() == 0 {
        x
    } else {
        x + seq!['.'] + y
    }
}

/// Joins the non-empty ones among three pieces with dots.
pub open spec fn join3(a: Seq<char>, b: Seq<char>, c: Seq<char>) -> Seq<char> {
    dot_concat(dot_concat(a, b), c)
}

/// Appends `piece` to `acc`, preceded by a dot when both are non-empty.
fn push_dotted(acc: &mut String, piece: &str)
    ensures
        final(acc)@ == dot_concat(old(acc)@, piece@),
{
    if acc.as_str().unicode_len() != 0 && piece.unicode_len() != 0 {
        acc.append(".");
        proof {
            reveal_strlit(".");
            assert("."@ =~= seq!['.']);
        }
    }
    acc.append(piece);
    assert(final(acc)@ =~= dot_concat(old(acc)@, piece@));
}

/// The anchor identifier of an entry: prefix, category and sanitized
/// name joined with dots, empty fields skipped.  The quote character of
/// "primed" names is not valid in anchors, so it becomes `-prime`.
pub fn get_identifier(prefix: &String, category: &String, name: &String) -> (r: String)
    ensures
        r@ == join3(prefix@, category@, replace_prime_spec(name@)),
{
    let sanitized = replace_prime(name.as_str());
    let mut acc = String::new();
    push_dotted(&mut acc, prefix.as_str());
    push_dotted(&mut acc, category.as_str());
    push_dotted(&mut acc, sanitized.as_str());
    acc
}

/// The display title of an entry: prefix, category and name joined with
/// dots, empty fields skipped, the name kept exactly as written.
pub fn get_title(prefix: &String, category: &String, name: &String) -> (r: String)
    ensures
        r@ == join3(prefix@, category@, name@),
{
    let mut acc = String::new();
    push_dotted(&mut acc, prefix.as_str());
    push_dotted(&mut acc, category.as_str());
    push_dotted(&mut acc, name.as_str());
    acc
}

/// Every line of `s` that has visible content, prefixed by `prefix`;
/// blank lines pass unchanged.
pub open spec fn indent_spec(s: Seq<char>, prefix: Seq<char>) -> Seq<char> {
    unlines(
        lines_of(s).map(
            |i: int, l: Seq<char>|
                if line_blank(l) {
                    l
                } else {
                    prefix + l
                },
        ),
    )
}

/// Prefixes every non-blank line of `s` with `prefix`.
pub fn indent_by(s: &str, prefix: &str) -> (r: String)
    ensures
        r@ == indent_spec(s@, prefix@),
{
    let lines = split_lines(s);
    let ghost dv = lines.deep_view();
    let ghost mapped = dv.map(
        |i: int, l: Seq<char>|
            if line_blank(l) {
                l
            } else {
                prefix@ + l
            },
    );
    let mut out: Vec<String> = Vec::new();
    let mut i: usize = 0;
    while i < lines.len()
        invariant
            0 <= i <= lines.len(),
            dv == lines.deep_view(),
            mapped == dv.map(
                |i: int, l: Seq<char>|
                    if line_blank(l) {
                        l
                    } else {
                        prefix@ + l
                    },
            ),
            out.deep_view() =~= mapped.take(i as int),
        decreases lines.len() - i,
    {
        let ghost odv = out.deep_view();
        let l = &lines[i];
        if str_blank(l.as_str()) {
            out.push(l.clone());
            proof {
                assert(out.deep_view() =~= odv.push(l@));
            }
        } else {
            let mut piece = String::from_str(prefix);
            piece.append(l.as_str());
            out.push(piece);
            proof {
                assert(out.deep_view() =~= odv.push(prefix@ + l@));
            }
        }
        proof {
            assert(mapped[i as int] == if line_blank(dv[i as int]) {
                dv[i as int]
            } else {
                prefix@ + dv[i as int]
            });
            assert(dv[i as int] == l@);
            assert(mapped.take(i as int).push(mapped[i as int]) =~= mapped.take(i + 1));
            assert(out.deep_view() =~= mapped.take(i + 1));
        }
        i += 1;
    }
    proof {
        assert(mapped.take(dv.len() as int) =~= mapped);
    }
    join_lines(&out)
}

/// Aligns a multi-line definition-list body: the first line stands after
/// the `: ` marker, so only the following lines are indented to match.
pub open spec fn def_body_spec(s: Seq<char>) -> Seq<char> {
    let i = find_from(s, 0, '\n');
    if 0 <= i && i < s.len() {
        s.take(i) + seq!['\n'] + indent_spec(s.skip(i + 1), seq![' ', ' '])
    } else {
        s
    }
}

/// Indents every line but the first by two spaces.
fn def_body(raw: &str) -> (r: String)
    ensures
        r@ == def_body_spec(raw@),
{
    let n = raw.unicode_len();
    let i = scan_char_from(raw, 0, '\n');
    if i < n {
        let mut c = String::from_str(raw.substring_char(0, i));
        c.append("\n");
        let ind = indent_by(raw.substring_char(i + 1, n), "  ");
        c.append(ind.as_str());
        proof {
            reveal_strlit("\n");
            reveal_strlit("  ");
            assert("\n"@ =~= seq!['\n']);
            assert("  "@ =~= seq![' ', ' ']);
            assert(raw@.subrange(0, i as int) == raw@.take(i as int));
            assert(raw@.subrange(i + 1, n as int) == raw@.skip(i + 1));
        }
        c
    } else {
        String::from_str(raw)
    }
}

/// The fallback text shown for an argument without documentation.
pub open spec fn fallback_arg_doc() -> Seq<char> {
    seq!['F', 'u', 'n', 'c', 't', 'i', 'o', 'n', ' ', 'a', 'r', 'g', 'u', 'm', 'e', 'n', 't']
}

/// The rendering of one flat argument as a definition-list item.
pub open spec fn format_flat_spec(a: SingleArgV) -> Seq<char> {
    let doc = match a.doc {
        None => fallback_arg_doc(),
        Some(d) => d,
    };
    seq!['`'] + a.name + seq!['`', '\n', '\n', ':', ' '] + def_body_spec(trim_spec(doc)) + seq![
        '\n',
        '\n',
    ]
}

/// The renderings of a pattern's entries, concatenated.
pub open spec fn format_flat_seq(args: Seq<SingleArgV>) -> Seq<char>
    decreases args.len(),
{
    if args.len() == 0 {
        Seq::empty()
    } else {
        format_flat_spec(args[0]) + format_flat_seq(args.drop_first())
    }
}

pub proof fn lemma_format_flat_seq_snoc(args: Seq<SingleArgV>, a: SingleArgV)
    ensures
        format_flat_seq(args.push(a)) == format_flat_seq(args) + format_flat_spec(a),
    decreases args.len(),
{
    if args.len() == 0 {
        assert(args.push(a)[0] == a);
        assert(args.push(a).drop_first() =~= Seq::<SingleArgV>::empty());
        assert(format_flat_seq(args.push(a).drop_first()) =~= Seq::<char>::empty());
        assert(format_flat_seq(args.push(a)) =~= format_flat_spec(a));
        assert(format_flat_seq(args) + format_flat_spec(a) =~= format_flat_spec(a));
    } else {
        lemma_format_flat_seq_snoc(args.drop_first(), a);
        assert(args.push(a)[0] == args[0]);
        assert(args.push(a).drop_first() =~= args.drop_first().push(a));
        assert(format_flat_spec(args[0]) + (format_flat_seq(args.drop_first())
            + format_flat_spec(a)) =~= (format_flat_spec(args[0]) + format_flat_seq(
            args.drop_first(),
        )) + format_flat_spec(a));
    }
}

/// The rendering of one argument: flat arguments become one item, a
/// pattern becomes a nested definition list of its entries.
pub open spec fn format_argument_spec(arg: ArgumentV) -> Seq<char> {
    match arg {
        ArgumentV::Flat(a) => format_flat_spec(a),
        ArgumentV::Pattern(entries) => {
            let inner = format_flat_seq(entries);
            let indented = indent_spec(inner, seq![' ', ' ']);
            seq![
                's', 't', 'r', 'u', 'c', 't', 'u', 'r', 'e', 'd', ' ', 'f', 'u', 'n', 'c', 't',
                'i', 'o', 'n', ' ', 'a', 'r', 'g', 'u', 'm', 'e', 'n', 't', '\n', '\n', ':', ' ',
            ] + trim_start_spec(indented)
        },
    }
}

impl Argument {
    /// Renders this argument as CommonMark definition-list structure.
    pub fn format_argument(self) -> (r: String)
        ensures
            r@ == format_argument_spec(self.deep_view()),
    {
        match self {
            Argument::Flat(arg) => format_flat(arg),
            Argument::Pattern(pattern_args) => {
                let mut inner = String::new();
                let ghost pv = pattern_args.deep_view();
                let mut i: usize = 0;
                while i < pattern_args.len()
                    invariant
                        0 <= i <= pattern_args.len(),
                        pv == pattern_args.deep_view(),
                        inner@ == format_flat_seq(pv.take(i as int)),
                    decreases pattern_args.len() - i,
                {
                    let piece = format_flat(pattern_args[i].duplicate());
                    inner.append(piece.as_str());
                    proof {
                        lemma_format_flat_seq_snoc(pv.take(i as int), pv[i as int]);
                        assert(pv.take(i as int).push(pv[i as int]) =~= pv.take(i + 1));
                    }
                    i += 1;
                }
                proof {
                    assert(pv.take(pattern_args.len() as int) =~= pv);
                }
                let indented = indent_by(inner.as_str(), "  ");
                let mut r = String::from_str("structured function argument\n\n: ");
                let tail = trim_start(indented.as_str());
                r.append(tail.as_str());
                proof {
                    reveal_strlit("structured function argument\n\n: ");
                    reveal_strlit("  ");
                    assert("  "@ =~= seq![' ', ' ']);
                    assert("structured function argument\n\n: "@ =~= seq![
                        's', 't', 'r', 'u', 'c', 't', 'u', 'r', 'e', 'd', ' ', 'f', 'u', 'n', 'c',
                        't', 'i', 'o', 'n', ' ', 'a', 'r', 'g', 'u', 'm', 'e', 'n', 't', '\n',
                        '\n', ':', ' ',
                    ]);
                }
                r
            },
        }
    }
}

/// Renders one flat argument.
fn format_flat(arg: SingleArg) -> (r: String)
    ensures
        r@ == format_flat_spec(arg.deep_view()),
{
    let doc: String = match arg.doc {
        None => String::from_str("Function argument"),
        Some(d) => d,
    };
    proof {
        reveal_strlit("Function argument");
        assert("Function argument"@ =~= fallback_arg_doc());
    }
    let trimmed = trim(doc.as_str());
    let body = def_body(trimmed.as_str());
    let mut r = String::from_str("`");
    r.append(arg.name.as_str());
    r.append("`\n\n: ");
    r.append(body.as_str());
    r.append("\n\n");
    proof {
        reveal_strlit("`");
        reveal_strlit("`\n\n: ");
        reveal_strlit("\n\n");
        assert("`"@ =~= seq!['`']);
        assert("`\n\n: "@ =~= seq!['`', '\n', '\n', ':', ' ']);
        assert("\n\n"@ =~= seq!['\n', '\n']);
        assert(r@ =~= format_flat_spec(arg.deep_view()));
    }
    r
}

/// A single manual section describing one library function.
#[derive(Clone, Debug)]
pub struct ManualEntry {
    /// Prefix for the category (e.g. `lib` or `utils`).
    pub prefix: String,
    /// Name of the function category (e.g. `strings`).
    pub category: String,
    /// Location of the function, when the location table knows it.
    pub location: Option<String>,
    /// Name of the section, used as the title.
    pub name: String,
    /// Type signature, if documented.  Never checked against anything.
    pub fn_type: Option<String>,
    /// Primary description, one string per paragraph.
    pub description: Vec<String>,
    /// Usage example for the entry.
    pub example: Option<String>,
    /// Arguments of the function.
    pub args: Vec<Argument>,
}

/// The mathematical shadow of [`ManualEntry`].
pub ghost struct ManualEntryV {
    pub prefix: Seq<char>,
    pub category: Seq<char>,
    pub location: Option<Seq<char>>,
    pub name: Seq<char>,
    pub fn_type: Option<Seq<char>>,
    pub description: Seq<Seq<char>>,
    pub example: Option<Seq<char>>,
    pub args: Seq<ArgumentV>,
}

impl DeepView for ManualEntry {
    type V = ManualEntryV;

    open spec fn deep_view(&self) -> ManualEntryV {
        ManualEntryV {
            prefix: self.prefix@,
            category: self.category@,
            location: self.location.deep_view(),
            name: self.name@,
            fn_type: self.fn_type.deep_view(),
            description: self.description.deep_view(),
            example: self.example.deep_view(),
            args: self.args.deep_view(),
        }
    }
}

/// A copy of an optional string, with its contents known.
fn duplicate_opt_string(o: &Option<String>) -> (r: Option<String>)
    ensures
        r.deep_view() == o.deep_view(),
{
    match o {
        None => None,
        Some(s) => Some(s.clone()),
    }
}

/// The identifier of an entry, over its mathematical shadow.
pub open spec fn identifier_spec(e: ManualEntryV) -> Seq<char> {
    join3(e.prefix, e.category, replace_prime_spec(e.name))
}

/// The title of an entry, over its mathematical shadow.
pub open spec fn title_spec(e: ManualEntryV) -> Seq<char> {
    join3(e.prefix, e.category, e.name)
}

/// Whether a type signature spans more than one rendered line.
pub open spec fn multiline(t: Seq<char>) -> bool {
    find_from(t, 0, '\n') < t.len() - 1
}

/// The concatenation of the description paragraphs, each closed by a
/// blank line.
pub open spec fn paragraphs_spec(ds: Seq<Seq<char>>) -> Seq<char>
    decreases ds.len(),
{
    if ds.len() == 0 {
        Seq::empty()
    } else {
        ds[0] + seq!['\n', '\n'] + paragraphs_spec(ds.drop_first())
    }
}

pub proof fn lemma_paragraphs_spec_snoc(ds: Seq<Seq<char>>, d: Seq<char>)
    ensures
        paragraphs_spec(ds.push(d)) == paragraphs_spec(ds) + d + seq!['\n', '\n'],
    decreases ds.len(),
{
    if ds.len() == 0 {
        assert(ds.push(d)[0] == d);
        assert(ds.push(d).drop_first() =~= Seq::<Seq<char>>::empty());
        assert(paragraphs_spec(ds.push(d).drop_first()) =~= Seq::<char>::empty());
        assert(paragraphs_spec(ds.push(d)) =~= paragraphs_spec(ds) + d + seq!['\n', '\n']);
    } else {
        lemma_paragraphs_spec_snoc(ds.drop_first(), d);
        assert(ds.push(d)[0] == ds[0]);
        assert(ds.push(d).drop_first() =~= ds.drop_first().push(d));
        assert(ds[0] + seq!['\n', '\n'] + (paragraphs_spec(ds.drop_first()) + d + seq![
            '\n',
            '\n',
        ]) =~= (ds[0] + seq!['\n', '\n'] + paragraphs_spec(ds.drop_first())) + d + seq![
            '\n',
            '\n',
        ]);
    }
}

/// The concatenation of the rendered arguments, each closed by a newline.
pub open spec fn args_section_spec(args: Seq<ArgumentV>) -> Seq<char>
    decreases args.len(),
{
    if args.len() == 0 {
        Seq::empty()
    } else {
        format_argument_spec(args[0]) + seq!['\n'] + args_section_spec(args.drop_first())
    }
}

pub proof fn lemma_args_section_spec_snoc(args: Seq<ArgumentV>, a: ArgumentV)
    ensures
        args_section_spec(args.push(a)) == args_section_spec(args) + format_argument_spec(a)
            + seq!['\n'],
    decreases args.len(),
{
    if args.len() == 0 {
        assert(args.push(a)[0] == a);
        assert(args.push(a).drop_first() =~= Seq::<ArgumentV>::empty());
        assert(args_section_spec(args.push(a).drop_first()) =~= Seq::<char>::empty());
        assert(args_section_spec(args.push(a)) =~= args_section_spec(args)
            + format_argument_spec(a) + seq!['\n']);
    } else {
        lemma_args_section_spec_snoc(args.drop_first(), a);
        assert(args.push(a)[0] == args[0]);
        assert(args.push(a).drop_first() =~= args.drop_first().push(a));
        assert(format_argument_spec(args[0]) + seq!['\n'] + (args_section_spec(args.drop_first())
            + format_argument_spec(a) + seq!['\n']) =~= (format_argument_spec(args[0]) + seq![
            '\n',
        ] + args_section_spec(args.drop_first())) + format_argument_spec(a) + seq!['\n']);
    }
}

/// The heading of a section.
pub open spec fn section_head_spec(e: ManualEntryV, anchor: Seq<char>) -> Seq<char> {
    "## `"@ + title_spec(e) + "` {#"@ + anchor + identifier_spec(e) + "}\n\n"@
}

/// The type-signature block of a section, when there is one.
pub open spec fn section_type_spec(e: ManualEntryV) -> Seq<char> {
    match e.fn_type {
        None => Seq::empty(),
        Some(t) => if multiline(t) {
            "**Type**:\n```\n"@ + t + "\n```\n\n"@
        } else {
            "**Type**: `"@ + t + "`\n\n"@
        },
    }
}

/// The example block of a section, when there is one.
pub open spec fn section_example_spec(e: ManualEntryV, anchor: Seq<char>) -> Seq<char> {
    match e.example {
        None => Seq::empty(),
        Some(ex) => "::: {.example #"@ + anchor + "example-"@ + identifier_spec(e) + "}\n"@
            + "# `"@ + title_spec(e) + "` usage example\n\n"@ + "```nix\n"@ + trim_spec(ex)
            + "\n```\n:::\n\n"@,
    }
}

/// The location line of a section, when the location is known.
pub open spec fn section_location_spec(e: ManualEntryV) -> Seq<char> {
    match e.location {
        None => Seq::empty(),
        Some(loc) => "Located at "@ + loc + ".\n\n"@,
    }
}

/// The complete rendering of one entry.
pub open spec fn section_spec(e: ManualEntryV, anchor: Seq<char>) -> Seq<char> {
    section_head_spec(e, anchor) + section_type_spec(e) + paragraphs_spec(e.description)
        + args_section_spec(e.args) + section_example_spec(e, anchor) + section_location_spec(e)
}

impl ManualEntry {
    /// A structurally equal copy.
    pub fn duplicate(&self) -> (r: ManualEntry)
        ensures
            r.deep_view() == self.deep_view(),
    {
        let mut description: Vec<String> = Vec::new();
        let mut i: usize = 0;
        while i < self.description.len()
            invariant
                0 <= i <= self.description.len(),
                description.deep_view() =~= self.description.deep_view().take(i as int),
            decreases self.description.len() - i,
        {
            let ghost ddv = description.deep_view();
            description.push(self.description[i].clone());
            proof {
                assert(description.deep_view() =~= ddv.push(
                    self.description.deep_view()[i as int],
                ));
            }
            i += 1;
        }
        let mut args: Vec<Argument> = Vec::new();
        let mut j: usize = 0;
        while j < self.args.len()
            invariant
                0 <= j <= self.args.len(),
                args.deep_view() =~= self.args.deep_view().take(j as int),
            decreases self.args.len() - j,
        {
            let ghost adv = args.deep_view();
            args.push(self.args[j].duplicate());
            proof {
                assert(args.deep_view() =~= adv.push(self.args.deep_view()[j as int]));
            }
            j += 1;
        }
        proof {
            assert(self.description.deep_view().take(self.description.len() as int)
                =~= self.description.deep_view());
            assert(self.args.deep_view().take(self.args.len() as int) =~= self.args.deep_view());
        }
        ManualEntry {
            prefix: self.prefix.clone(),
            category: self.category.clone(),
            location: duplicate_opt_string(&self.location),
            name: self.name.clone(),
            fn_type: duplicate_opt_string(&self.fn_type),
            description,
            example: duplicate_opt_string(&self.example),
            args,
        }
    }

    /// The anchor identifier and the display title of this entry.
    pub fn get_ident_title(&self) -> (r: (String, String))
        ensures
            r.0@ == identifier_spec(self.deep_view()),
            r.1@ == title_spec(self.deep_view()),
    {
        let ident = get_identifier(&self.prefix, &self.category, &self.name);
        let title = get_title(&self.prefix, &self.category, &self.name);
        (ident, title)
    }

    /// Appends the complete CommonMark section for this entry to
    /// `output`: heading with anchor, type signature, description
    /// paragraphs, arguments, example block, and location line.  Returns
    /// a copy of the grown output.
    #[verifier::rlimit(100)]
    pub fn write_section(self, anchor_prefix: &str, output: &mut String) -> (r: String)
        ensures
            final(output)@ == old(output)@ + section_spec(self.deep_view(), anchor_prefix@),
            r@ == final(output)@,
    {
        let ghost e = self.deep_view();
        let ghost base = output@;
        let (ident, title) = self.get_ident_title();
        output.append("## `");
        output.append(title.as_str());
        output.append("` {#");
        output.append(anchor_prefix);
        output.append(ident.as_str());
        output.append("}\n\n");
        proof {
            assert(output@ =~= base + section_head_spec(e, anchor_prefix@));
        }
        let ghost base1 = output@;
        if let Some(t) = &self.fn_type {
            let tn = t.as_str().unicode_len();
            let nl = scan_char_from(t.as_str(), 0, '\n');
            if tn > 0 && nl < tn - 1 {
                output.append("**Type**:\n```\n");
                output.append(t.as_str());
                output.append("\n```\n\n");
            } else {
                output.append("**Type**: `");
                output.append(t.as_str());
                output.append("`\n\n");
            }
        }
        proof {
            assert(output@ =~= base1 + section_type_spec(e));
        }
        let ghost base2 = output@;
        let mut i: usize = 0;
        while i < self.description.len()
            invariant
                0 <= i <= self.description.len(),
                e == self.deep_view(),
                output@ == base2 + paragraphs_spec(e.description.take(i as int)),
            decreases self.description.len() - i,
        {
            output.append(self.description[i].as_str());
            output.append("\n\n");
            proof {
                reveal_strlit("\n\n");
                assert("\n\n"@ =~= seq!['\n', '\n']);
                lemma_paragraphs_spec_snoc(e.description.take(i as int), e.description[i as int]);
                assert(e.description.take(i as int).push(e.description[i as int])
                    =~= e.description.take(i + 1));
                assert(output@ =~= base2 + paragraphs_spec(e.description.take(i + 1)));
            }
            i += 1;
        }
        proof {
            assert(e.description.take(self.description.len() as int) =~= e.description);
        }
        let ghost base3 = output@;
        let mut args = self.args;
        let ghost argsv = e.args;
        let mut j: usize = 0;
        while j < args.len()
            invariant
                0 <= j <= args.len(),
                args.deep_view() == argsv,
                output@ == base3 + args_section_spec(argsv.take(j as int)),
            decreases args.len() - j,
        {
            let piece = args[j].duplicate().format_argument();
            output.append(piece.as_str());
            output.append("\n");
            proof {
                reveal_strlit("\n");
                assert("\n"@ =~= seq!['\n']);
                lemma_args_section_spec_snoc(argsv.take(j as int), argsv[j as int]);
                assert(argsv.take(j as int).push(argsv[j as int]) =~= argsv.take(j + 1));
                assert(output@ =~= base3 + args_section_spec(argsv.take(j + 1)));
            }
            j += 1;
        }
        proof {
            assert(argsv.take(args.len() as int) =~= argsv);
        }
        let ghost base4 = output@;
        if let Some(example) = &self.example {
            output.append("::: {.example #");
            output.append(anchor_prefix);
            output.append("example-");
            output.append(ident.as_str());
            output.append("}\n");
            output.append("# `");
            output.append(title.as_str());
            output.append("` usage example\n\n");
            output.append("```nix\n");
            let tr = trim(example.as_str());
            output.append(tr.as_str());
            output.append("\n```\n:::\n\n");
        }
        proof {
            assert(output@ =~= base4 + section_example_spec(e, anchor_prefix@));
        }
        let ghost base5 = output@;
        if let Some(loc) = &self.location {
            output.append("Located at ");
            output.append(loc.as_str());
            output.append(".\n\n");
        }
        proof {
            assert(output@ =~= base5 + section_location_spec(e));
            assert(output@ =~= base + section_spec(e, anchor_prefix@));
        }
        output.clone()
    }
}

/// What a dangling reference link resolves to: an anchor built from the
/// title under the function-library prefix, displayed as the title.
pub fn reference_link_fn(title: &str, _fragment: &str) -> (r: Option<(String, String)>)
    ensures
        r matches Some((url, text)) && url@ == "#function-library-"@ + title@ && text@ == title@,
{
    let mut url = String::from_str("#function-library-");
    url.append(title);
    Some((url, String::from_str(title)))
}

} // verus!
