//! Normalization and transformation of raw comment text: dedenting,
//! trimming, and the fence-aware heading shifter.

use vstd::prelude::*;
use vstd::string::*;

verus! {

/// The characters that count as whitespace when trimming and dedenting,
/// following Unicode's White_Space property.
pub open spec fn is_space(c: char) -> bool {
    c == ' ' || c == '\t' || c == '\n' || c == '\r' || c == '\u{b}' || c == '\u{c}' || c == '\u{85}'
        || c == '\u{a0}' || c == '\u{1680}' || ('\u{2000}' <= c && c <= '\u{200a}') || c
        == '\u{2028}' || c == '\u{2029}' || c == '\u{202f}' || c == '\u{205f}' || c == '\u{3000}'
}

/// Executable test for [`is_space`].
pub fn char_is_space(c: char) -> (b: bool)
    ensures
        b == is_space(c),
{
    c == ' ' || c == '\t' || c == '\n' || c == '\r' || c == '\u{b}' || c == '\u{c}' || c == '\u{85}'
        || c == '\u{a0}' || c == '\u{1680}' || ('\u{2000}' <= c && c <= '\u{200a}') || c
        == '\u{2028}' || c == '\u{2029}' || c == '\u{202f}' || c == '\u{205f}' || c == '\u{3000}'
}

/// The index of the first occurrence of `c` at or after `from`, or the
/// length of `s` if there is none.
pub open spec fn find_from(s: Seq<char>, from: int, c: char) -> int
    decreases s.len() - from,
{
    if from < 0 || from >= s.len() {
        s.len() as int
    } else if s[from] == c {
        from
    } else {
        find_from(s, from + 1, c)
    }
}

pub proof fn lemma_find_from(s: Seq<char>, from: int, c: char)
    requires
        0 <= from <= s.len(),
    ensures
        from <= find_from(s, from, c) <= s.len(),
        forall|i: int| from <= i < find_from(s, from, c) ==> s[i] != c,
        find_from(s, from, c) < s.len() ==> s[find_from(s, from, c)] == c,
    decreases s.len() - from,
{
    if from < s.len() && s[from] != c {
        lemma_find_from(s, from + 1, c);
    }
}

pub proof fn lemma_find_from_unique(s: Seq<char>, from: int, c: char, k: int)
    requires
        0 <= from <= k <= s.len(),
        forall|i: int| from <= i < k ==> s[i] != c,
        k < s.len() ==> s[k] == c,
    ensures
        find_from(s, from, c) == k,
    decreases s.len() - from,
{
    if from < s.len() && s[from] != c {
        lemma_find_from_unique(s, from + 1, c, k);
    }
}

/// Finding a character in a suffix is finding it in the whole, shifted.
pub proof fn lemma_find_from_skip(s: Seq<char>, p: int, c: char)
    requires
        0 <= p <= s.len(),
    ensures
        find_from(s.skip(p), 0, c) == find_from(s, p, c) - p,
{
    lemma_find_from(s, p, c);
    let k = find_from(s, p, c);
    assert forall|i: int| 0 <= i < k - p implies s.skip(p)[i] != c by {
        assert(s.skip(p)[i] == s[p + i]);
    }
    if k < s.len() {
        assert(s.skip(p)[k - p] == s[k]);
    }
    lemma_find_from_unique(s.skip(p), 0, c, k - p);
}

/// The length of the leading whitespace run.
pub open spec fn lead_spaces(s: Seq<char>) -> nat
    decreases s.len(),
{
    if s.len() > 0 && is_space(s[0]) {
        (1 + lead_spaces(s.drop_first())) as nat
    } else {
        0
    }
}

pub proof fn lemma_lead_spaces(s: Seq<char>)
    ensures
        lead_spaces(s) <= s.len(),
        forall|i: int| 0 <= i < lead_spaces(s) ==> is_space(s[i]),
        lead_spaces(s) < s.len() ==> !is_space(s[lead_spaces(s) as int]),
    decreases s.len(),
{
    if s.len() > 0 && is_space(s[0]) {
        lemma_lead_spaces(s.drop_first());
        assert forall|i: int| 0 <= i < lead_spaces(s) implies is_space(s[i]) by {
            if i > 0 {
                assert(s.drop_first()[i - 1] == s[i]);
            }
        }
        if lead_spaces(s) < s.len() {
            assert(s.drop_first()[lead_spaces(s) - 1] == s[lead_spaces(s) as int]);
        }
    }
}

pub proof fn lemma_lead_spaces_unique(s: Seq<char>, k: int)
    requires
        0 <= k <= s.len(),
        forall|i: int| 0 <= i < k ==> is_space(s[i]),
        k < s.len() ==> !is_space(s[k]),
    ensures
        lead_spaces(s) == k,
    decreases s.len(),
{
    if s.len() > 0 && is_space(s[0]) {
        assert(k > 0);
        lemma_lead_spaces_unique(s.drop_first(), k - 1);
    }
}

/// The length of the trailing whitespace run.
pub open spec fn trail_spaces(s: Seq<char>) -> nat
    decreases s.len(),
{
    if s.len() > 0 && is_space(s.last()) {
        (1 + trail_spaces(s.drop_last())) as nat
    } else {
        0
    }
}

pub proof fn lemma_trail_spaces(s: Seq<char>)
    ensures
        trail_spaces(s) <= s.len(),
        forall|i: int| s.len() - trail_spaces(s) <= i < s.len() ==> is_space(s[i]),
        trail_spaces(s) < s.len() ==> !is_space(s[s.len() - trail_spaces(s) - 1]),
    decreases s.len(),
{
    if s.len() > 0 && is_space(s.last()) {
        lemma_trail_spaces(s.drop_last());
        assert forall|i: int| s.len() - trail_spaces(s) <= i < s.len() implies is_space(s[i]) by {
            if i < s.len() - 1 {
                assert(s.drop_last()[i] == s[i]);
            }
        }
        if trail_spaces(s) < s.len() {
            assert(s.drop_last()[s.len() - trail_spaces(s) - 1] == s[s.len() - trail_spaces(s)
                - 1]);
        }
    }
}

pub proof fn lemma_trail_spaces_unique(s: Seq<char>, k: int)
    requires
        0 <= k <= s.len(),
        forall|i: int| s.len() - k <= i < s.len() ==> is_space(s[i]),
        k < s.len() ==> !is_space(s[s.len() - k - 1]),
    ensures
        trail_spaces(s) == k,
    decreases s.len(),
{
    if s.len() > 0 && is_space(s.last()) {
        assert(k > 0);
        lemma_trail_spaces_unique(s.drop_last(), k - 1);
    }
}

/// `s` with its leading whitespace removed.
pub open spec fn trim_start_spec(s: Seq<char>) -> Seq<char> {
    s.skip(lead_spaces(s) as int)
}

/// `s` with its trailing whitespace removed.
pub open spec fn trim_end_spec(s: Seq<char>) -> Seq<char> {
    s.take(s.len() - trail_spaces(s))
}

/// `s` with whitespace removed from both ends.
pub open spec fn trim_spec(s: Seq<char>) -> Seq<char> {
    trim_end_spec(trim_start_spec(s))
}

/// The position right after the leading whitespace of `s`, found by scanning.
pub fn scan_lead_spaces(s: &str) -> (r: usize)
    ensures
        r == lead_spaces(s@),
{
    let n = s.unicode_len();
    let mut i: usize = 0;
    while i < n && char_is_space(s.get_char(i))
        invariant
            0 <= i <= n == s@.len(),
            forall|j: int| 0 <= j < i ==> is_space(s@[j]),
        decreases n - i,
    {
        i += 1;
    }
    proof {
        lemma_lead_spaces_unique(s@, i as int);
    }
    i
}

/// A copy of `s` with whitespace removed from both ends.
pub fn trim(s: &str) -> (r: String)
    ensures
        r@ == trim_spec(s@),
{
    let n = s.unicode_len();
    let lead = scan_lead_spaces(s);
    proof {
        lemma_lead_spaces(s@);
    }
    let mut k: usize = n;
    while k > lead && char_is_space(s.get_char(k - 1))
        invariant
            lead <= k <= n == s@.len(),
            lead == lead_spaces(s@),
            forall|j: int| k <= j < n ==> is_space(s@[j]),
        decreases k,
    {
        k -= 1;
    }
    let r = String::from_str(s.substring_char(lead, k));
    proof {
        let t = trim_start_spec(s@);
        assert forall|j: int| t.len() - (n - k) <= j < t.len() implies is_space(t[j]) by {
            assert(t[j] == s@[lead + j]);
        }
        if (n - k) < t.len() {
            assert(t[t.len() - (n - k) - 1] == s@[k - 1]);
            if k > lead {
            } else {
                assert(t.len() == n - lead);
                assert((n - k) >= t.len());
            }
        }
        lemma_trail_spaces_unique(t, n - k);
        assert(r@ =~= trim_spec(s@));
    }
    r
}

/// A copy of `s` with its leading whitespace removed.
pub fn trim_start(s: &str) -> (r: String)
    ensures
        r@ == trim_start_spec(s@),
{
    let n = s.unicode_len();
    let lead = scan_lead_spaces(s);
    proof {
        lemma_lead_spaces(s@);
    }
    String::from_str(s.substring_char(lead, n))
}

/// Scans for `c` at or after `from`, returning the index found or the length.
pub fn scan_char_from(s: &str, from: usize, c: char) -> (r: usize)
    requires
        from <= s@.len(),
    ensures
        r == find_from(s@, from as int, c),
        from <= r <= s@.len(),
        r < s@.len() ==> s@[r as int] == c,
        forall|i: int| from <= i < r ==> s@[i] != c,
{
    let n = s.unicode_len();
    let mut i: usize = from;
    while i < n && s.get_char(i) != c
        invariant
            from <= i <= n == s@.len(),
            forall|j: int| from <= j < i ==> s@[j] != c,
        decreases n - i,
    {
        i += 1;
    }
    proof {
        lemma_find_from_unique(s@, from as int, c, i as int);
    }
    i
}

/// Whether every character of `l` is whitespace.
pub open spec fn line_blank(l: Seq<char>) -> bool {
    forall|i: int| 0 <= i < l.len() ==> is_space(l[i])
}

/// Whether the token range `[i, j)` of `s` is all whitespace.
pub fn range_blank(s: &str, i: usize, j: usize) -> (b: bool)
    requires
        i <= j <= s@.len(),
    ensures
        b == line_blank(s@.subrange(i as int, j as int)),
{
    let mut k: usize = i;
    while k < j && char_is_space(s.get_char(k))
        invariant
            i <= k <= j <= s@.len(),
            forall|m: int| i <= m < k ==> is_space(s@[m]),
        decreases j - k,
    {
        k += 1;
    }
    proof {
        let l = s@.subrange(i as int, j as int);
        if k < j {
            assert(l[k - i] == s@[k as int]);
            assert(!line_blank(l));
        } else {
            assert forall|m: int| 0 <= m < l.len() implies is_space(l[m]) by {
                assert(l[m] == s@[i + m]);
            }
        }
    }
    k == j
}

/// The lines of `s`: the maximal runs of characters between newlines.  A
/// text with `n` newline characters has `n + 1` lines; the newline
/// characters themselves belong to no line.
pub open spec fn lines_of(s: Seq<char>) -> Seq<Seq<char>>
    decreases s.len(),
{
    let i = find_from(s, 0, '\n');
    if 0 <= i && i < s.len() {
        seq![s.take(i)] + lines_of(s.skip(i + 1))
    } else {
        seq![s]
    }
}

/// The inverse of [`lines_of`]: the lines joined by single newlines.
pub open spec fn unlines(ls: Seq<Seq<char>>) -> Seq<char>
    decreases ls.len(),
{
    if ls.len() == 0 {
        Seq::empty()
    } else if ls.len() == 1 {
        ls[0]
    } else {
        ls[0] + seq!['\n'] + unlines(ls.drop_first())
    }
}

pub proof fn lemma_lines_nonempty(s: Seq<char>)
    ensures
        lines_of(s).len() >= 1,
    decreases s.len(),
{
    let i = find_from(s, 0, '\n');
    lemma_find_from(s, 0, '\n');
    if i != s.len() {
        lemma_lines_nonempty(s.skip(i + 1));
    }
}

/// Joining the lines of `s` gives back `s`.
pub proof fn lemma_unlines_lines(s: Seq<char>)
    ensures
        unlines(lines_of(s)) == s,
    decreases s.len(),
{
    let i = find_from(s, 0, '\n');
    lemma_find_from(s, 0, '\n');
    if i == s.len() {
        assert(unlines(lines_of(s)) == s);
    } else {
        lemma_unlines_lines(s.skip(i + 1));
        lemma_lines_nonempty(s.skip(i + 1));
        let ls = lines_of(s);
        assert(ls.drop_first() =~= lines_of(s.skip(i + 1)));
        assert(s[i] == '\n');
        assert(unlines(ls) == s.take(i) + seq!['\n'] + s.skip(i + 1));
        assert(s.take(i) + seq!['\n'] + s.skip(i + 1) =~= s);
    }
}

/// Appending one more line to a join appends a newline and that line.
pub proof fn lemma_unlines_push(ls: Seq<Seq<char>>, x: Seq<char>)
    ensures
        ls.len() == 0 ==> unlines(ls.push(x)) == x,
        ls.len() > 0 ==> unlines(ls.push(x)) == unlines(ls) + seq!['\n'] + x,
    decreases ls.len(),
{
    if ls.len() == 0 {
        assert(ls.push(x)[0] == x);
        assert(unlines(ls.push(x)) == x);
    } else if ls.len() == 1 {
        assert(ls.push(x).drop_first() =~= seq![x]);
        assert(unlines(ls.push(x)) == ls.push(x)[0] + seq!['\n'] + unlines(seq![x]));
        assert(ls.push(x)[0] == ls[0]);
        assert(unlines(seq![x]) == x);
    } else {
        lemma_unlines_push(ls.drop_first(), x);
        assert(ls.push(x).drop_first() =~= ls.drop_first().push(x));
        assert(unlines(ls.push(x)) == ls.push(x)[0] + seq!['\n'] + unlines(
            ls.drop_first().push(x),
        ));
        assert(ls.push(x)[0] == ls[0]);
        assert((ls[0] + seq!['\n'] + (unlines(ls.drop_first()) + seq!['\n'] + x)) =~= (ls[0]
            + seq!['\n'] + unlines(ls.drop_first())) + seq!['\n'] + x);
    }
}

/// One step of line splitting: the first line of the suffix starting at
/// `p` runs to the next newline.
pub proof fn lemma_lines_step(s: Seq<char>, p: int)
    requires
        0 <= p <= s.len(),
    ensures
        find_from(s, p, '\n') == s.len() ==> lines_of(s.skip(p)) == seq![s.skip(p)],
        find_from(s, p, '\n') < s.len() ==> lines_of(s.skip(p)) == seq![
            s.subrange(p, find_from(s, p, '\n')),
        ] + lines_of(s.skip(find_from(s, p, '\n') + 1)),
{
    lemma_find_from_skip(s, p, '\n');
    lemma_find_from(s, p, '\n');
    let k = find_from(s, p, '\n');
    let t = s.skip(p);
    if k == s.len() {
        assert(find_from(t, 0, '\n') == t.len());
        assert(lines_of(t) == seq![t]);
    } else {
        assert(find_from(t, 0, '\n') == k - p < t.len());
        assert(lines_of(t) == seq![t.take(k - p)] + lines_of(t.skip(k - p + 1)));
        assert(t.take(k - p) =~= s.subrange(p, k));
        assert(t.skip(k - p + 1) =~= s.skip(k + 1));
    }
}

/// Splits `s` into its lines.
pub fn split_lines(s: &str) -> (v: Vec<String>)
    ensures
        v.deep_view() == lines_of(s@),
{
    let n = s.unicode_len();
    let mut v: Vec<String> = Vec::new();
    let mut pos: usize = 0;
    proof {
        assert(s@.skip(0) =~= s@);
        assert(v.deep_view() + lines_of(s@) =~= lines_of(s@));
    }
    loop
        invariant
            0 <= pos <= n == s@.len(),
            lines_of(s@) =~= v.deep_view() + lines_of(s@.skip(pos as int)),
        decreases n - pos,
    {
        let nl = scan_char_from(s, pos, '\n');
        let piece = String::from_str(s.substring_char(pos, nl));
        let ghost dv0 = v.deep_view();
        proof {
            lemma_lines_step(s@, pos as int);
        }
        if nl == n {
            v.push(piece);
            proof {
                assert(v.deep_view() =~= dv0.push(piece@));
                assert(s@.skip(pos as int) =~= piece@);
                assert(dv0.push(piece@) =~= dv0 + seq![piece@]);
                assert(v.deep_view() =~= lines_of(s@));
            }
            return v;
        } else {
            v.push(piece);
            proof {
                assert(v.deep_view() =~= dv0.push(piece@));
                assert(dv0.push(piece@) =~= dv0 + seq![piece@]);
                assert((dv0 + seq![piece@]) + lines_of(s@.skip(nl + 1)) =~= dv0 + (seq![piece@]
                    + lines_of(s@.skip(nl + 1))));
                assert(v.deep_view() + lines_of(s@.skip(nl + 1)) =~= lines_of(s@));
            }
            pos = nl + 1;
        }
    }
}

/// Joins lines with single newlines, inverting [`split_lines`].
pub fn join_lines(v: &Vec<String>) -> (r: String)
    ensures
        r@ == unlines(v.deep_view()),
{
    let mut r = String::new();
    let mut i: usize = 0;
    while i < v.len()
        invariant
            0 <= i <= v.len(),
            r@ == unlines(v.deep_view().take(i as int)),
        decreases v.len() - i,
    {
        if i > 0 {
            r.append("\n");
            proof {
                reveal_strlit("\n");
            }
        }
        r.append(v[i].as_str());
        proof {
            lemma_unlines_push(v.deep_view().take(i as int), v.deep_view()[i as int]);
            assert(v.deep_view().take(i as int).push(v.deep_view()[i as int]) =~= v.deep_view()
                .take(i + 1));
        }
        i += 1;
    }
    proof {
        assert(v.deep_view().take(v.len() as int) =~= v.deep_view());
    }
    r
}

/// `p` is a prefix of `l`.
pub open spec fn is_prefix(p: Seq<char>, l: Seq<char>) -> bool {
    p.len() <= l.len() && p == l.take(p.len() as int)
}

/// The length of the longest common prefix of `p` and `l`.
pub open spec fn common_len(p: Seq<char>, l: Seq<char>) -> nat
    decreases p.len(),
{
    if p.len() > 0 && l.len() > 0 && p[0] == l[0] {
        (1 + common_len(p.drop_first(), l.drop_first())) as nat
    } else {
        0
    }
}

pub proof fn lemma_common_len(p: Seq<char>, l: Seq<char>)
    ensures
        common_len(p, l) <= p.len(),
        common_len(p, l) <= l.len(),
        forall|i: int| 0 <= i < common_len(p, l) ==> p[i] == l[i],
        common_len(p, l) < p.len() && common_len(p, l) < l.len() ==> p[common_len(p, l) as int]
            != l[common_len(p, l) as int],
    decreases p.len(),
{
    if p.len() > 0 && l.len() > 0 && p[0] == l[0] {
        lemma_common_len(p.drop_first(), l.drop_first());
        let c = common_len(p, l);
        assert forall|i: int| 0 <= i < c implies p[i] == l[i] by {
            if i > 0 {
                assert(p.drop_first()[i - 1] == p[i]);
                assert(l.drop_first()[i - 1] == l[i]);
            }
        }
        if c < p.len() && c < l.len() {
            assert(p.drop_first()[c - 1] == p[c as int]);
            assert(l.drop_first()[c - 1] == l[c as int]);
        }
    }
}

pub proof fn lemma_common_len_unique(p: Seq<char>, l: Seq<char>, k: int)
    requires
        0 <= k <= p.len(),
        k <= l.len(),
        forall|i: int| 0 <= i < k ==> p[i] == l[i],
        k < p.len() && k < l.len() ==> p[k] != l[k],
    ensures
        common_len(p, l) == k,
    decreases p.len(),
{
    if p.len() > 0 && l.len() > 0 && p[0] == l[0] {
        assert(k > 0) by {
            if k == 0 {
                assert(p[0] != l[0]);
            }
        }
        lemma_common_len_unique(p.drop_first(), l.drop_first(), k - 1);
    }
}

/// One folding step of the dedent prefix computation: a blank line is
/// ignored; the first non-blank line contributes its whitespace prefix;
/// every later non-blank line shortens the prefix to what it shares.
pub open spec fn dedent_prefix_step(acc: Option<Seq<char>>, l: Seq<char>) -> Option<Seq<char>> {
    if line_blank(l) {
        acc
    } else {
        match acc {
            None => Some(l.take(lead_spaces(l) as int)),
            Some(p) => Some(p.take(common_len(p, l) as int)),
        }
    }
}

pub open spec fn dedent_prefix_rec(ls: Seq<Seq<char>>, acc: Option<Seq<char>>) -> Option<
    Seq<char>,
>
    decreases ls.len(),
{
    if ls.len() == 0 {
        acc
    } else {
        dedent_prefix_rec(ls.drop_first(), dedent_prefix_step(acc, ls[0]))
    }
}

/// The longest whitespace prefix shared by every non-blank line.
pub open spec fn dedent_prefix(ls: Seq<Seq<char>>) -> Seq<char> {
    match dedent_prefix_rec(ls, None) {
        None => Seq::empty(),
        Some(p) => p,
    }
}

/// What dedenting does to one line, given the common prefix length: blank
/// lines are emptied, the rest lose the prefix.
pub open spec fn dedent_line(l: Seq<char>, plen: nat) -> Seq<char> {
    if line_blank(l) {
        Seq::empty()
    } else {
        l.skip(plen as int)
    }
}

/// The dedent of a list of lines.
pub open spec fn dedent_lines(ls: Seq<Seq<char>>) -> Seq<Seq<char>> {
    ls.map(|i: int, l: Seq<char>| dedent_line(l, dedent_prefix(ls).len()))
}

/// Rectangular dedent of a whole text, line by line.
pub open spec fn dedent_spec(s: Seq<char>) -> Seq<char> {
    unlines(dedent_lines(lines_of(s)))
}

/// The folded dedent prefix is whitespace and a prefix of every non-blank
/// line (and of the accumulator it started from).
pub proof fn lemma_dedent_prefix_rec_prefix(ls: Seq<Seq<char>>, acc: Option<Seq<char>>)
    requires
        acc matches Some(p0) ==> line_blank(p0),
    ensures
        dedent_prefix_rec(ls, acc) matches Some(p) ==> {
            &&& line_blank(p)
            &&& forall|i: int| 0 <= i < ls.len() && !line_blank(#[trigger] ls[i]) ==> is_prefix(
                p,
                ls[i],
            )
            &&& acc matches Some(p0) ==> is_prefix(p, p0)
        },
        dedent_prefix_rec(ls, acc) is None ==> acc is None && forall|i: int|
            0 <= i < ls.len() ==> line_blank(#[trigger] ls[i]),
    decreases ls.len(),
{
    if ls.len() == 0 {
        if acc is Some {
            let p0 = acc->Some_0;
            assert(p0 =~= p0.take(p0.len() as int));
        }
    }
    if ls.len() > 0 {
        let l = ls[0];
        let acc2 = dedent_prefix_step(acc, l);
        if acc2 is Some {
            let p1 = acc2->Some_0;
            if line_blank(l) {
                assert(p1 =~= p1.take(p1.len() as int));
            } else {
                match acc {
                    None => {
                        lemma_lead_spaces(l);
                        assert forall|i: int| 0 <= i < p1.len() implies is_space(p1[i]) by {
                            assert(p1[i] == l[i]);
                        }
                        assert(p1 =~= l.take(p1.len() as int));
                        assert(p1 =~= p1.take(p1.len() as int));
                    },
                    Some(p0) => {
                        lemma_common_len(p0, l);
                        let c = common_len(p0, l) as int;
                        assert forall|i: int| 0 <= i < p1.len() implies is_space(p1[i]) by {
                            assert(p1[i] == p0[i]);
                        }
                        assert(p1 =~= l.take(c));
                        assert(p1 =~= p0.take(p1.len() as int));
                    },
                }
            }
            assert(line_blank(p1));
            assert(!line_blank(l) ==> is_prefix(p1, l));
            assert(acc matches Some(p0) ==> is_prefix(p1, p0));
        }
        lemma_dedent_prefix_rec_prefix(ls.drop_first(), acc2);
        if dedent_prefix_rec(ls, acc) is Some {
            let p = dedent_prefix_rec(ls, acc)->Some_0;
            assert(dedent_prefix_rec(ls.drop_first(), acc2) == Some(p));
            if acc2 is Some {
                let p1 = acc2->Some_0;
                assert(is_prefix(p, p1));
                assert forall|i: int|
                    0 <= i < ls.len() && !line_blank(#[trigger] ls[i]) implies is_prefix(
                    p,
                    ls[i],
                ) by {
                    if i == 0 {
                        assert(is_prefix(p1, l));
                        assert(p =~= l.take(p.len() as int)) by {
                            assert forall|j: int| 0 <= j < p.len() implies p[j] == l[j] by {
                                assert(p[j] == p1.take(p.len() as int)[j]);
                                assert(p1[j] == l.take(p1.len() as int)[j]);
                            }
                        }
                    } else {
                        assert(ls.drop_first()[i - 1] == ls[i]);
                    }
                }
                if acc is Some {
                    let p0 = acc->Some_0;
                    if line_blank(l) {
                        assert(is_prefix(p, p0));
                    } else {
                        assert(is_prefix(p1, p0));
                        assert(p =~= p0.take(p.len() as int)) by {
                            assert forall|j: int| 0 <= j < p.len() implies p[j] == p0[j] by {
                                assert(p[j] == p1.take(p.len() as int)[j]);
                                assert(p1[j] == p0.take(p1.len() as int)[j]);
                            }
                        }
                    }
                }
            } else {
                assert(acc is None);
                assert(line_blank(l));
                assert forall|i: int|
                    0 <= i < ls.len() && !line_blank(#[trigger] ls[i]) implies is_prefix(
                    p,
                    ls[i],
                ) by {
                    assert(i != 0);
                    assert(ls.drop_first()[i - 1] == ls[i]);
                }
            }
        }
        if dedent_prefix_rec(ls, acc) is None {
            assert(dedent_prefix_rec(ls.drop_first(), acc2) is None);
            assert(acc2 is None);
            assert forall|i: int| 0 <= i < ls.len() implies line_blank(#[trigger] ls[i]) by {
                if i > 0 {
                    assert(ls.drop_first()[i - 1] == ls[i]);
                } else {
                    if !line_blank(l) {
                        assert(acc2 is Some);
                    }
                }
            }
        }
    }
}

/// The folded dedent prefix is the longest: any whitespace sequence that
/// prefixes every non-blank line (and the starting accumulator) is no
/// longer than the fold's result.
pub proof fn lemma_dedent_prefix_rec_max(ls: Seq<Seq<char>>, acc: Option<Seq<char>>, q: Seq<char>)
    requires
        line_blank(q),
        forall|i: int| 0 <= i < ls.len() && !line_blank(#[trigger] ls[i]) ==> is_prefix(q, ls[i]),
        acc matches Some(p0) ==> is_prefix(q, p0),
        dedent_prefix_rec(ls, acc) matches Some(p),
    ensures
        dedent_prefix_rec(ls, acc) matches Some(p) ==> is_prefix(q, p),
    decreases ls.len(),
{
    if ls.len() == 0 {
    } else {
        let l = ls[0];
        let acc2 = dedent_prefix_step(acc, l);
        assert(acc2 matches Some(p1) ==> is_prefix(q, p1)) by {
            if !line_blank(l) {
                assert(is_prefix(q, l));
                match acc {
                    None => {
                        let p1 = l.take(lead_spaces(l) as int);
                        lemma_lead_spaces(l);
                        assert(q.len() <= lead_spaces(l)) by {
                            if q.len() > lead_spaces(l) {
                                assert(q[lead_spaces(l) as int] == l.take(q.len() as int)[
                                    lead_spaces(l) as int]);
                                assert(is_space(l[lead_spaces(l) as int]));
                            }
                        }
                        assert(q =~= p1.take(q.len() as int)) by {
                            assert forall|j: int| 0 <= j < q.len() implies q[j] == p1[j] by {
                                assert(q[j] == l.take(q.len() as int)[j]);
                            }
                        }
                    },
                    Some(p0) => {
                        lemma_common_len(p0, l);
                        let c = common_len(p0, l);
                        assert(q.len() <= c) by {
                            if q.len() > c {
                                assert(c < p0.len() && c < l.len());
                                assert(p0[c as int] == q[c as int]) by {
                                    assert(q[c as int] == p0.take(q.len() as int)[c as int]);
                                }
                                assert(l[c as int] == q[c as int]) by {
                                    assert(q[c as int] == l.take(q.len() as int)[c as int]);
                                }
                            }
                        }
                        let p1 = p0.take(c as int);
                        assert(q =~= p1.take(q.len() as int)) by {
                            assert forall|j: int| 0 <= j < q.len() implies q[j] == p1[j] by {
                                assert(q[j] == p0.take(q.len() as int)[j]);
                            }
                        }
                    },
                }
            }
        }
        assert forall|i: int|
            0 <= i < ls.drop_first().len() && !line_blank(
                #[trigger] ls.drop_first()[i],
            ) implies is_prefix(q, ls.drop_first()[i]) by {
            assert(ls.drop_first()[i] == ls[i + 1]);
        }
        lemma_dedent_prefix_rec_max(ls.drop_first(), acc2, q);
    }
}

/// Whether `s` is entirely whitespace.
pub fn str_blank(s: &str) -> (b: bool)
    ensures
        b == line_blank(s@),
{
    let n = s.unicode_len();
    let mut i: usize = 0;
    while i < n && char_is_space(s.get_char(i))
        invariant
            0 <= i <= n == s@.len(),
            forall|j: int| 0 <= j < i ==> is_space(s@[j]),
        decreases n - i,
    {
        i += 1;
    }
    if i < n {
        assert(!is_space(s@[i as int]));
        false
    } else {
        true
    }
}

/// The length of the longest shared prefix of `p` and `l`, by scanning.
pub fn scan_common(p: &str, l: &str) -> (r: usize)
    ensures
        r == common_len(p@, l@),
{
    let np = p.unicode_len();
    let nl = l.unicode_len();
    let mut i: usize = 0;
    while i < np && i < nl && p.get_char(i) == l.get_char(i)
        invariant
            0 <= i <= np == p@.len(),
            i <= nl == l@.len(),
            forall|j: int| 0 <= j < i ==> p@[j] == l@[j],
        decreases np - i,
    {
        i += 1;
    }
    proof {
        lemma_common_len_unique(p@, l@, i as int);
    }
    i
}

/// The shared whitespace prefix of the lines, folded left to right.
fn compute_dedent_prefix(lines: &Vec<String>) -> (r: Option<String>)
    ensures
        r.deep_view() == dedent_prefix_rec(lines.deep_view(), None),
{
    let ghost dv = lines.deep_view();
    let mut acc: Option<String> = None;
    let mut i: usize = 0;
    proof {
        assert(dv.skip(0) =~= dv);
    }
    while i < lines.len()
        invariant
            0 <= i <= lines.len(),
            dv == lines.deep_view(),
            dedent_prefix_rec(dv, None) == dedent_prefix_rec(
                dv.skip(i as int),
                acc.deep_view(),
            ),
        decreases lines.len() - i,
    {
        let ghost acc0 = acc.deep_view();
        let l = &lines[i];
        let blank = str_blank(l.as_str());
        if !blank {
            let newp: String = match &acc {
                None => {
                    let k = scan_lead_spaces(l.as_str());
                    proof {
                        lemma_lead_spaces(l@);
                    }
                    String::from_str(l.as_str().substring_char(0, k))
                },
                Some(q) => {
                    let c = scan_common(q.as_str(), l.as_str());
                    proof {
                        lemma_common_len(q@, l@);
                    }
                    String::from_str(q.as_str().substring_char(0, c))
                },
            };
            acc = Some(newp);
        }
        proof {
            let rest = dv.skip(i as int);
            assert(rest[0] == dv[i as int]);
            assert(dv[i as int] == l@);
            assert(dedent_prefix_rec(rest, acc0) == dedent_prefix_rec(
                rest.drop_first(),
                dedent_prefix_step(acc0, rest[0]),
            ));
            assert(acc.deep_view() == dedent_prefix_step(acc0, l@)) by {
                if !line_blank(l@) {
                    match acc0 {
                        None => {
                            assert(acc.deep_view()->Some_0 =~= l@.take(lead_spaces(l@) as int));
                        },
                        Some(q0) => {
                            assert(acc.deep_view()->Some_0 =~= q0.take(
                                common_len(q0, l@) as int,
                            ));
                        },
                    }
                }
            }
            assert(rest.drop_first() =~= dv.skip(i + 1));
        }
        i += 1;
    }
    proof {
        assert(dv.skip(lines.len() as int) =~= Seq::<Seq<char>>::empty());
    }
    acc
}

/// Rectangular dedent: strips the longest whitespace prefix shared by all
/// non-blank lines from each of them, and empties blank lines.
pub fn dedent(s: &str) -> (r: String)
    ensures
        r@ == dedent_spec(s@),
{
    let lines = split_lines(s);
    let ghost dv = lines.deep_view();
    let pre = compute_dedent_prefix(&lines);
    proof {
        lemma_dedent_prefix_rec_prefix(dv, None);
    }
    let plen: usize = match &pre {
        None => 0,
        Some(q) => q.unicode_len(),
    };
    proof {
        assert(plen == dedent_prefix(dv).len());
    }
    let mut out: Vec<String> = Vec::new();
    let mut j: usize = 0;
    while j < lines.len()
        invariant
            0 <= j <= lines.len(),
            dv == lines.deep_view(),
            plen == dedent_prefix(dv).len(),
            dedent_prefix_rec(dv, None) matches Some(p) ==> forall|i: int|
                0 <= i < dv.len() && !line_blank(#[trigger] dv[i]) ==> is_prefix(p, dv[i]),
            dedent_prefix_rec(dv, None) is None ==> forall|i: int|
                0 <= i < dv.len() ==> line_blank(#[trigger] dv[i]),
            out.deep_view() =~= dedent_lines(dv).take(j as int),
        decreases lines.len() - j,
    {
        let ghost odv0 = out.deep_view();
        let l = &lines[j];
        if str_blank(l.as_str()) {
            out.push(String::new());
            proof {
                assert(out.deep_view() =~= odv0.push(Seq::<char>::empty()));
            }
        } else {
            let n = l.as_str().unicode_len();
            assert(plen <= n) by {
                assert(dv[j as int] == l@);
                if dedent_prefix_rec(dv, None) is Some {
                    assert(is_prefix(dedent_prefix(dv), dv[j as int]));
                } else {
                    assert(line_blank(dv[j as int]));
                }
            }
            let piece = String::from_str(l.as_str().substring_char(plen, n));
            out.push(piece);
            proof {
                assert(out.deep_view() =~= odv0.push(l@.skip(plen as int)));
            }
        }
        proof {
            assert(dedent_lines(dv)[j as int] == dedent_line(dv[j as int], dedent_prefix(
                dv,
            ).len()));
            assert(dv[j as int] == l@);
            assert(out.deep_view() =~= dedent_lines(dv).take(j + 1));
        }
        j += 1;
    }
    proof {
        assert(dedent_lines(dv).take(dv.len() as int) =~= dedent_lines(dv));
    }
    join_lines(&out)
}

/// What normalizing a raw comment yields: the first line loses its leading
/// whitespace, the rest is dedented as a block, the whole is trimmed, and
/// an empty result is reported as absence.
pub open spec fn handle_indentation_spec(s: Seq<char>) -> Option<Seq<char>> {
    let i = find_from(s, 0, '\n');
    let combined = if 0 <= i && i < s.len() {
        trim_start_spec(s.take(i)) + seq!['\n'] + dedent_spec(s.skip(i + 1))
    } else {
        s
    };
    let t = trim_spec(combined);
    if t.len() == 0 {
        None
    } else {
        Some(t)
    }
}

/// Ensures all lines of a multi-line comment share one indentation level:
/// the first line is stripped of leading whitespace, the remaining block is
/// dedented, and the trimmed result is returned, or nothing if it is empty.
pub fn handle_indentation(raw: &str) -> (r: Option<String>)
    ensures
        r.deep_view() == handle_indentation_spec(raw@),
{
    let n = raw.unicode_len();
    let i = scan_char_from(raw, 0, '\n');
    let combined: String = if i < n {
        let mut c = trim_start(raw.substring_char(0, i));
        c.append("\n");
        let d = dedent(raw.substring_char(i + 1, n));
        c.append(d.as_str());
        proof {
            reveal_strlit("\n");
            assert("\n"@ =~= seq!['\n']);
            assert(raw@.take(i as int) == raw@.subrange(0, i as int));
            assert(raw@.skip(i + 1) == raw@.subrange(i + 1, n as int));
        }
        c
    } else {
        String::from_str(raw)
    };
    let t = trim(combined.as_str());
    if t.as_str().unicode_len() == 0 {
        assert(trim_spec(combined@).len() == 0);
        None
    } else {
        Some(t)
    }
}

/// The length of the leading run of `c` in `l`.
pub open spec fn run_len(l: Seq<char>, c: char) -> nat
    decreases l.len(),
{
    if l.len() > 0 && l[0] == c {
        (1 + run_len(l.drop_first(), c)) as nat
    } else {
        0
    }
}

pub proof fn lemma_run_len(l: Seq<char>, c: char)
    ensures
        run_len(l, c) <= l.len(),
        forall|i: int| 0 <= i < run_len(l, c) ==> l[i] == c,
        run_len(l, c) < l.len() ==> l[run_len(l, c) as int] != c,
    decreases l.len(),
{
    if l.len() > 0 && l[0] == c {
        lemma_run_len(l.drop_first(), c);
        assert forall|i: int| 0 <= i < run_len(l, c) implies l[i] == c by {
            if i > 0 {
                assert(l.drop_first()[i - 1] == l[i]);
            }
        }
        if run_len(l, c) < l.len() {
            assert(l.drop_first()[run_len(l, c) - 1] == l[run_len(l, c) as int]);
        }
    }
}

pub proof fn lemma_run_len_unique(l: Seq<char>, c: char, k: int)
    requires
        0 <= k <= l.len(),
        forall|i: int| 0 <= i < k ==> l[i] == c,
        k < l.len() ==> l[k] != c,
    ensures
        run_len(l, c) == k,
    decreases l.len(),
{
    if l.len() > 0 && l[0] == c {
        assert(k > 0);
        lemma_run_len_unique(l.drop_first(), c, k - 1);
    }
}

/// The index right after the leading run of `c`, found by scanning.
pub fn scan_run(s: &str, c: char) -> (r: usize)
    ensures
        r == run_len(s@, c),
{
    let n = s.unicode_len();
    let mut i: usize = 0;
    while i < n && s.get_char(i) == c
        invariant
            0 <= i <= n == s@.len(),
            forall|j: int| 0 <= j < i ==> s@[j] == c,
        decreases n - i,
    {
        i += 1;
    }
    proof {
        lemma_run_len_unique(s@, c, i as int);
    }
    i
}

/// `c` repeated `n` times.
pub open spec fn repeat_char(c: char, n: nat) -> Seq<char>
    decreases n,
{
    if n == 0 {
        Seq::empty()
    } else {
        seq![c] + repeat_char(c, (n - 1) as nat)
    }
}

pub proof fn lemma_repeat_char(c: char, n: nat)
    ensures
        repeat_char(c, n).len() == n,
        forall|i: int| 0 <= i < n ==> repeat_char(c, n)[i] == c,
    decreases n,
{
    if n > 0 {
        lemma_repeat_char(c, (n - 1) as nat);
    }
}

pub proof fn lemma_repeat_char_snoc(c: char, n: nat)
    ensures
        repeat_char(c, (n + 1) as nat) == repeat_char(c, n) + seq![c],
    decreases n,
{
    if n == 0 {
        assert(repeat_char(c, 1) =~= repeat_char(c, 0) + seq![c]);
    } else {
        lemma_repeat_char_snoc(c, (n - 1) as nat);
        assert(repeat_char(c, (n + 1) as nat) == seq![c] + repeat_char(c, n));
        assert(seq![c] + (repeat_char(c, (n - 1) as nat) + seq![c]) =~= (seq![c] + repeat_char(
            c,
            (n - 1) as nat,
        )) + seq![c]);
    }
}

/// `l` with up to `max` characters of leading whitespace removed.
pub open spec fn trim_lead_limited(l: Seq<char>, max: nat) -> Seq<char> {
    if lead_spaces(l) <= max {
        l.skip(lead_spaces(l) as int)
    } else {
        l.skip(max as int)
    }
}

/// Removes leading whitespace, but at most `max` characters of it.
pub fn trim_leading_whitespace(input: &str, max: usize) -> (r: String)
    ensures
        r@ == trim_lead_limited(input@, max as nat),
{
    let n = input.unicode_len();
    let mut i: usize = 0;
    while i < max && i < n && char_is_space(input.get_char(i))
        invariant
            0 <= i <= n == input@.len(),
            i <= max,
            forall|j: int| 0 <= j < i ==> is_space(input@[j]),
        decreases n - i,
    {
        i += 1;
    }
    proof {
        lemma_lead_spaces(input@);
        if i < max {
            lemma_lead_spaces_unique(input@, i as int);
        } else {
            if lead_spaces(input@) < i {
                assert(is_space(input@[lead_spaces(input@) as int]));
            }
        }
    }
    String::from_str(input.substring_char(i, n))
}

/// What [`get_fence`] returns: if the line opens with a run of backticks
/// or tildes, its length and character, provided anything after the run is
/// permitted (`allow_info`) or is a newline.
pub open spec fn fence_spec(l: Seq<char>, allow_info: bool) -> Option<(nat, char)> {
    if l.len() == 0 {
        None
    } else if l[0] != '`' && l[0] != '~' {
        None
    } else {
        let n = run_len(l, l[0]);
        if n == l.len() {
            Some((n, l[0]))
        } else if allow_info || l[n as int] == '\n' {
            Some((n, l[0]))
        } else {
            None
        }
    }
}

/// Reads a code-fence marker off the front of `line`: the count of
/// repeated backticks or tildes and which of the two it was.  With
/// `allow_info` false, any trailing info string disqualifies the line,
/// since closing fences cannot carry one.
pub fn get_fence(line: &str, allow_info: bool) -> (r: Option<(usize, char)>)
    ensures
        match r {
            Some((cnt, ch)) => fence_spec(line@, allow_info) == Some((cnt as nat, ch)),
            None => fence_spec(line@, allow_info) is None,
        },
{
    let n = line.unicode_len();
    if n == 0 {
        return None;
    }
    let first = line.get_char(0);
    if first != '`' && first != '~' {
        return None;
    }
    let cnt = scan_run(line, first);
    proof {
        lemma_run_len(line@, first);
    }
    if cnt == n {
        Some((cnt, first))
    } else if allow_info || line.get_char(cnt) == '\n' {
        Some((cnt, first))
    } else {
        None
    }
}

/// What [`handle_heading`] returns: the leading run of `#` grown by
/// `levels` and clamped at six, followed by the rest of the line.
pub open spec fn heading_spec(l: Seq<char>, levels: nat) -> Seq<char> {
    let h = run_len(l, '#');
    let m: nat = if h + levels >= 6 {
        6
    } else {
        h + levels
    };
    repeat_char('#', m) + l.skip(h as int)
}

/// Rewrites a heading line: its run of `#` marks grows by `levels`, but
/// never past six, the deepest level the output format renders.
pub fn handle_heading(line: &str, levels: usize) -> (r: String)
    ensures
        r@ == heading_spec(line@, levels as nat),
{
    let n = line.unicode_len();
    let h = scan_run(line, '#');
    proof {
        lemma_run_len(line@, '#');
    }
    let m: usize = if h >= 6 || levels >= 6 {
        6
    } else if h + levels >= 6 {
        6
    } else {
        h + levels
    };
    let mut r = String::new();
    let mut k: usize = 0;
    proof {
        reveal_strlit("#");
        assert("#"@ =~= seq!['#']);
    }
    while k < m
        invariant
            0 <= k <= m,
            r@ == repeat_char('#', k as nat),
        decreases m - k,
    {
        r.append("#");
        proof {
            reveal_strlit("#");
            assert("#"@ =~= seq!['#']);
            lemma_repeat_char_snoc('#', k as nat);
        }
        k += 1;
    }
    r.append(line.substring_char(h, n));
    r
}

/// Whether the (already indent-trimmed) line begins a fence marker.
pub open spec fn starts_fence(fl: Seq<char>) -> bool {
    fl.len() >= 3 && ((fl[0] == '`' && fl[1] == '`' && fl[2] == '`') || (fl[0] == '~' && fl[1]
        == '~' && fl[2] == '~'))
}

/// The fence state after one line: an opening fence marker records its
/// character and length; a line repeating at least as many of the same
/// character, with no info string, closes it; everything else leaves the
/// state alone.
pub open spec fn fence_step(f: Option<(nat, char)>, line: Seq<char>) -> Option<(nat, char)> {
    let fl = trim_lead_limited(line, 3);
    if starts_fence(fl) {
        match f {
            None => fence_spec(fl, true),
            Some((sc, sch)) => match fence_spec(fl, false) {
                Some((ec, ech)) => if sc <= ec && sch == ech {
                    None
                } else {
                    f
                },
                None => f,
            },
        }
    } else {
        f
    }
}

/// What one line becomes: a heading line outside any fence is rewritten
/// (after dropping up to three spaces of indentation); every other line is
/// kept exactly.
pub open spec fn emit_line(f: Option<(nat, char)>, line: Seq<char>, levels: nat) -> Seq<char> {
    let f2 = fence_step(f, line);
    let hl = trim_lead_limited(line, 3);
    if f2 is None && hl.len() > 0 && hl[0] == '#' {
        heading_spec(hl, levels)
    } else {
        line
    }
}

/// The shift of a list of lines, threading the fence state through.
pub open spec fn shift_lines_spec(
    ls: Seq<Seq<char>>,
    levels: nat,
    f: Option<(nat, char)>,
) -> Seq<Seq<char>>
    decreases ls.len(),
{
    if ls.len() == 0 {
        Seq::empty()
    } else {
        seq![emit_line(f, ls[0], levels)] + shift_lines_spec(
            ls.drop_first(),
            levels,
            fence_step(f, ls[0]),
        )
    }
}

/// The fence state after a list of lines.
pub open spec fn fence_state_lines(ls: Seq<Seq<char>>, f: Option<(nat, char)>) -> Option<
    (nat, char),
>
    decreases ls.len(),
{
    if ls.len() == 0 {
        f
    } else {
        fence_state_lines(ls.drop_first(), fence_step(f, ls[0]))
    }
}

/// What shifting a whole text yields.
pub open spec fn shift_spec(s: Seq<char>, levels: nat) -> Seq<char> {
    unlines(shift_lines_spec(lines_of(s), levels, None))
}

/// Shifts Markdown heading levels down by `levels`, line by line, leaving
/// lines inside code fences untouched.
pub fn shift_headings(raw: &str, levels: usize) -> (r: String)
    ensures
        r@ == shift_spec(raw@, levels as nat),
{
    let lines = split_lines(raw);
    let ghost dv = lines.deep_view();
    let mut out: Vec<String> = Vec::new();
    let mut fence: Option<(usize, char)> = None;
    let ghost gtotal = shift_lines_spec(dv, levels as nat, None);
    let mut i: usize = 0;
    proof {
        assert(dv.skip(0) =~= dv);
    }
    while i < lines.len()
        invariant
            0 <= i <= lines.len(),
            dv == lines.deep_view(),
            gtotal == shift_lines_spec(dv, levels as nat, None),
            gtotal =~= out.deep_view() + shift_lines_spec(
                dv.skip(i as int),
                levels as nat,
                match fence {
                    None => None,
                    Some((c, ch)) => Some((c as nat, ch)),
                },
            ),
        decreases lines.len() - i,
    {
        let ghost gf: Option<(nat, char)> = match fence {
            None => None,
            Some((c, ch)) => Some((c as nat, ch)),
        };
        let ghost odv0 = out.deep_view();
        let l = &lines[i];
        let fl = trim_leading_whitespace(l.as_str(), 3);
        let fn_ = fl.as_str().unicode_len();
        let opens = fn_ >= 3 && {
            let c0 = fl.as_str().get_char(0);
            let c1 = fl.as_str().get_char(1);
            let c2 = fl.as_str().get_char(2);
            (c0 == '`' && c1 == '`' && c2 == '`') || (c0 == '~' && c1 == '~' && c2 == '~')
        };
        if opens {
            match fence {
                None => {
                    fence = get_fence(fl.as_str(), true);
                },
                Some((sc, sch)) => {
                    match get_fence(fl.as_str(), false) {
                        Some((ec, ech)) => {
                            if sc <= ec && sch == ech {
                                fence = None;
                            }
                        },
                        None => {},
                    }
                },
            }
        }
        proof {
            assert(opens == starts_fence(fl@));
            assert((match fence {
                None => None,
                Some((c, ch)) => Some((c as nat, ch)),
            }) == fence_step(gf, l@));
        }
        let emitted: String = if fence.is_none() && fn_ > 0 && fl.as_str().get_char(0) == '#' {
            handle_heading(fl.as_str(), levels)
        } else {
            String::from_str(l.as_str())
        };
        proof {
            assert(emitted@ == emit_line(gf, l@, levels as nat));
        }
        out.push(emitted);
        proof {
            let rest = dv.skip(i as int);
            assert(rest[0] == dv[i as int]);
            assert(dv[i as int] == l@);
            assert(shift_lines_spec(rest, levels as nat, gf) == seq![
                emit_line(gf, rest[0], levels as nat),
            ] + shift_lines_spec(rest.drop_first(), levels as nat, fence_step(gf, rest[0])));
            assert(rest.drop_first() =~= dv.skip(i + 1));
            assert(out.deep_view() =~= odv0.push(emitted@));
            assert(odv0.push(emitted@) + shift_lines_spec(
                dv.skip(i + 1),
                levels as nat,
                fence_step(gf, l@),
            ) =~= odv0 + shift_lines_spec(rest, levels as nat, gf));
        }
        i += 1;
    }
    proof {
        assert(dv.skip(lines.len() as int) =~= Seq::<Seq<char>>::empty());
        assert(out.deep_view() =~= gtotal);
        lemma_unlines_lines(raw@);
    }
    join_lines(&out)
}

/// Heading clamp law: rewriting a heading that opens with `h` marks
/// yields exactly `min(6, h + levels)` leading `#` characters, whatever
/// the line or the shift distance.
pub proof fn lemma_heading_clamp(l: Seq<char>, levels: nat)
    ensures
        run_len(heading_spec(l, levels), '#') == if run_len(l, '#') + levels >= 6 {
            6 as nat
        } else {
            run_len(l, '#') + levels
        },
{
    let h = run_len(l, '#');
    let m: nat = if h + levels >= 6 {
        6
    } else {
        h + levels
    };
    lemma_run_len(l, '#');
    lemma_repeat_char('#', m);
    let res = heading_spec(l, levels);
    assert forall|i: int| 0 <= i < m implies res[i] == '#' by {
        assert(res[i] == repeat_char('#', m)[i]);
    }
    if m < res.len() {
        assert(res[m as int] == l.skip(h as int)[m - m]);
        assert(l.skip(h as int)[0] == l[h as int]);
        assert(res[m as int] != '#');
    }
    lemma_run_len_unique(res, '#', m as int);
}

/// While a fence is open and the line does not close it, the shifter
/// emits the line exactly as it came.
pub proof fn lemma_fence_immune_line(f: (nat, char), line: Seq<char>, levels: nat)
    requires
        fence_step(Some(f), line) is Some,
    ensures
        emit_line(Some(f), line, levels) == line,
{
}

/// Shifting distributes over splitting the line list, with the fence
/// state carried across the seam.
pub proof fn lemma_shift_lines_append(
    a: Seq<Seq<char>>,
    b: Seq<Seq<char>>,
    levels: nat,
    f: Option<(nat, char)>,
)
    ensures
        shift_lines_spec(a + b, levels, f) == shift_lines_spec(a, levels, f) + shift_lines_spec(
            b,
            levels,
            fence_state_lines(a, f),
        ),
    decreases a.len(),
{
    if a.len() == 0 {
        assert(a + b =~= b);
        assert(shift_lines_spec(a, levels, f) + shift_lines_spec(b, levels, f) =~= shift_lines_spec(
            b,
            levels,
            f,
        ));
    } else {
        let f2 = fence_step(f, a[0]);
        lemma_shift_lines_append(a.drop_first(), b, levels, f2);
        assert((a + b).drop_first() =~= a.drop_first() + b);
        assert((a + b)[0] == a[0]);
        assert(shift_lines_spec(a + b, levels, f) == seq![emit_line(f, a[0], levels)] + (
        shift_lines_spec(a.drop_first(), levels, f2) + shift_lines_spec(
            b,
            levels,
            fence_state_lines(a.drop_first(), f2),
        )));
        assert(seq![emit_line(f, a[0], levels)] + (shift_lines_spec(a.drop_first(), levels, f2)
            + shift_lines_spec(b, levels, fence_state_lines(a.drop_first(), f2))) =~= (seq![
            emit_line(f, a[0], levels),
        ] + shift_lines_spec(a.drop_first(), levels, f2)) + shift_lines_spec(
            b,
            levels,
            fence_state_lines(a.drop_first(), f2),
        ));
    }
}

/// Fence immunity law: a line standing after lines that leave a fence
/// open, and which does not close that fence, passes through the shifter
/// unchanged, whatever the shift distance.
pub proof fn lemma_fence_immunity(
    pre: Seq<Seq<char>>,
    mid: Seq<char>,
    post: Seq<Seq<char>>,
    levels: nat,
)
    requires
        fence_state_lines(pre, None) is Some,
        fence_step(fence_state_lines(pre, None), mid) is Some,
    ensures
        shift_lines_spec(pre + seq![mid] + post, levels, None) == shift_lines_spec(
            pre,
            levels,
            None,
        ) + seq![mid] + shift_lines_spec(
            post,
            levels,
            fence_step(fence_state_lines(pre, None), mid),
        ),
{
    let f = fence_state_lines(pre, None);
    let fc = f->Some_0;
    lemma_shift_lines_append(pre, seq![mid] + post, levels, None);
    assert(pre + seq![mid] + post =~= pre + (seq![mid] + post));
    let tail = seq![mid] + post;
    assert(tail[0] == mid);
    assert(tail.drop_first() =~= post);
    lemma_fence_immune_line(fc, mid, levels);
    assert(shift_lines_spec(tail, levels, f) == seq![mid] + shift_lines_spec(
        post,
        levels,
        fence_step(f, mid),
    ));
    assert(shift_lines_spec(pre, levels, None) + (seq![mid] + shift_lines_spec(
        post,
        levels,
        fence_step(f, mid),
    )) =~= shift_lines_spec(pre, levels, None) + seq![mid] + shift_lines_spec(
        post,
        levels,
        fence_step(f, mid),
    ));
}

/// No line produced by [`lines_of`] contains a newline.
pub proof fn lemma_lines_nl_free(s: Seq<char>)
    ensures
        forall|i: int, j: int|
            0 <= i < lines_of(s).len() && 0 <= j < lines_of(s)[i].len() ==> #[trigger] lines_of(
                s,
            )[i][j] != '\n',
    decreases s.len(),
{
    let k = find_from(s, 0, '\n');
    lemma_find_from(s, 0, '\n');
    if 0 <= k && k < s.len() {
        lemma_lines_nl_free(s.skip(k + 1));
        assert forall|i: int, j: int|
            0 <= i < lines_of(s).len() && 0 <= j < lines_of(s)[i].len() implies #[trigger] lines_of(
            s,
        )[i][j] != '\n' by {
            if i == 0 {
                assert(lines_of(s)[0] == s.take(k));
                assert(s.take(k)[j] == s[j]);
            } else {
                assert(lines_of(s)[i] == lines_of(s.skip(k + 1))[i - 1]);
            }
        }
    } else {
        assert(lines_of(s) == seq![s]);
        assert forall|i: int, j: int|
            0 <= i < lines_of(s).len() && 0 <= j < lines_of(s)[i].len() implies #[trigger] lines_of(
            s,
        )[i][j] != '\n' by {
            assert(lines_of(s)[i] == s);
        }
    }
}

/// A text without newlines is its own single line.
pub proof fn lemma_lines_single(s: Seq<char>)
    requires
        forall|j: int| 0 <= j < s.len() ==> s[j] != '\n',
    ensures
        lines_of(s) == seq![s],
{
    lemma_find_from_unique(s, 0, '\n', s.len() as int);
}

/// Splitting a join of newline-free lines gives the lines back.
pub proof fn lemma_lines_unlines(ls: Seq<Seq<char>>)
    requires
        ls.len() >= 1,
        forall|i: int, j: int|
            0 <= i < ls.len() && 0 <= j < ls[i].len() ==> #[trigger] ls[i][j] != '\n',
    ensures
        lines_of(unlines(ls)) == ls,
    decreases ls.len(),
{
    if ls.len() == 1 {
        lemma_lines_single(ls[0]);
        assert(lines_of(unlines(ls)) =~= ls);
    } else {
        let s = unlines(ls);
        let hd = ls[0];
        let tl = ls.drop_first();
        assert(s == hd + seq!['\n'] + unlines(tl));
        assert forall|i: int, j: int|
            0 <= i < tl.len() && 0 <= j < tl[i].len() implies #[trigger] tl[i][j] != '\n' by {
            assert(tl[i] == ls[i + 1]);
        }
        lemma_lines_unlines(tl);
        assert(s.len() == hd.len() + 1 + unlines(tl).len());
        assert forall|j: int| 0 <= j < hd.len() implies s[j] != '\n' by {
            assert(s[j] == hd[j]);
        }
        assert(s[hd.len() as int] == '\n');
        lemma_find_from_unique(s, 0, '\n', hd.len() as int);
        assert(lines_of(s) == seq![s.take(hd.len() as int)] + lines_of(
            s.skip(hd.len() as int + 1),
        ));
        assert(s.take(hd.len() as int) =~= hd);
        assert(s.skip(hd.len() as int + 1) =~= unlines(tl));
        assert(lines_of(s) =~= ls);
    }
}

/// A line list is in dedented form when its blank lines are empty and no
/// whitespace prefix is shared by all the non-blank ones.
pub open spec fn dedented(ls: Seq<Seq<char>>) -> bool {
    &&& forall|i: int| 0 <= i < ls.len() && line_blank(#[trigger] ls[i]) ==> ls[i].len() == 0
    &&& (dedent_prefix_rec(ls, None) matches Some(p) ==> p.len() == 0)
}

/// Dedenting leaves a dedented line list alone.
pub proof fn lemma_dedent_lines_fix(ls: Seq<Seq<char>>)
    requires
        dedented(ls),
    ensures
        dedent_lines(ls) == ls,
{
    assert(dedent_prefix(ls).len() == 0);
    assert forall|i: int| 0 <= i < ls.len() implies dedent_lines(ls)[i] == ls[i] by {
        if line_blank(ls[i]) {
            assert(ls[i].len() == 0);
            assert(dedent_lines(ls)[i] == Seq::<char>::empty());
            assert(ls[i] =~= Seq::<char>::empty());
        } else {
            assert(dedent_lines(ls)[i] == ls[i].skip(0));
            assert(ls[i].skip(0) =~= ls[i]);
        }
    }
    assert(dedent_lines(ls) =~= ls);
}

/// The output of a dedent is in dedented form.
pub proof fn lemma_dedent_lines_dedented(ls: Seq<Seq<char>>)
    ensures
        dedented(dedent_lines(ls)),
{
    let out = dedent_lines(ls);
    lemma_dedent_prefix_rec_prefix(ls, None);
    let plen = dedent_prefix(ls).len();
    assert forall|i: int|
        0 <= i < out.len() && line_blank(#[trigger] out[i]) implies out[i].len() == 0 by {
        if !line_blank(ls[i]) {
            assert(out[i] == ls[i].skip(plen as int));
            assert(is_prefix(dedent_prefix(ls), ls[i]));
            let w = lead_spaces(ls[i]);
            lemma_lead_spaces(ls[i]);
            assert(w < ls[i].len()) by {
                if w == ls[i].len() {
                    assert(line_blank(ls[i]));
                }
            }
            assert(plen <= w) by {
                if plen > w {
                    assert(dedent_prefix(ls)[w as int] == ls[i].take(plen as int)[w as int]);
                    assert(is_space(ls[i][w as int]));
                }
            }
            assert(out[i][w - plen] == ls[i][w as int]);
            assert(!line_blank(out[i]));
        }
    }
    if dedent_prefix_rec(out, None) is Some {
        let q = dedent_prefix_rec(out, None)->Some_0;
        lemma_dedent_prefix_rec_prefix(out, None);
        if q.len() > 0 {
            assert(dedent_prefix_rec(ls, None) is Some) by {
                if dedent_prefix_rec(ls, None) is None {
                    assert forall|i: int| 0 <= i < out.len() implies line_blank(
                        #[trigger] out[i],
                    ) by {
                        assert(line_blank(ls[i]));
                        assert(out[i] == Seq::<char>::empty());
                    }
                    lemma_dedent_prefix_rec_prefix(out, None);
                    assert(line_blank(q));
                    assert(forall|i: int|
                        0 <= i < out.len() ==> line_blank(#[trigger] out[i]));
                    lemma_all_blank_none(out);
                }
            }
            let pp = dedent_prefix(ls);
            let pq = pp + q;
            assert(line_blank(pq)) by {
                assert(line_blank(pp));
                assert(line_blank(q));
                assert forall|i: int| 0 <= i < pq.len() implies is_space(pq[i]) by {
                    if i < pp.len() {
                        assert(pq[i] == pp[i]);
                    } else {
                        assert(pq[i] == q[i - pp.len()]);
                    }
                }
            }
            assert forall|i: int|
                0 <= i < ls.len() && !line_blank(#[trigger] ls[i]) implies is_prefix(
                pq,
                ls[i],
            ) by {
                assert(is_prefix(pp, ls[i]));
                assert(!line_blank(out[i])) by {
                    let w = lead_spaces(ls[i]);
                    lemma_lead_spaces(ls[i]);
                    assert(w < ls[i].len()) by {
                        if w == ls[i].len() {
                            assert(line_blank(ls[i]));
                        }
                    }
                    assert(plen <= w) by {
                        if plen > w {
                            assert(pp[w as int] == ls[i].take(plen as int)[w as int]);
                            assert(is_space(ls[i][w as int]));
                        }
                    }
                    assert(out[i] == ls[i].skip(plen as int));
                    assert(out[i][w - plen] == ls[i][w as int]);
                }
                assert(is_prefix(q, out[i]));
                assert(out[i] == ls[i].skip(plen as int));
                assert(pq.len() <= ls[i].len());
                assert(pq =~= ls[i].take(pq.len() as int)) by {
                    assert forall|j: int| 0 <= j < pq.len() implies pq[j] == ls[i][j] by {
                        if j < pp.len() {
                            assert(pq[j] == pp[j]);
                            assert(pp[j] == ls[i].take(plen as int)[j]);
                        } else {
                            assert(pq[j] == q[j - pp.len()]);
                            assert(q[j - pp.len()] == out[i].take(q.len() as int)[j - pp.len()]);
                            assert(out[i][j - pp.len()] == ls[i][j]);
                        }
                    }
                }
            }
            lemma_dedent_prefix_rec_max(ls, None, pq);
            assert(is_prefix(pq, pp));
            assert(false);
        }
    }
}

/// A list of blank lines folds to no prefix at all.
pub proof fn lemma_all_blank_none(ls: Seq<Seq<char>>)
    requires
        forall|i: int| 0 <= i < ls.len() ==> line_blank(#[trigger] ls[i]),
    ensures
        dedent_prefix_rec(ls, None) is None,
    decreases ls.len(),
{
    if ls.len() > 0 {
        assert(line_blank(ls[0]));
        assert forall|i: int| 0 <= i < ls.drop_first().len() implies line_blank(
            #[trigger] ls.drop_first()[i],
        ) by {
            assert(ls.drop_first()[i] == ls[i + 1]);
        }
        lemma_all_blank_none(ls.drop_first());
    }
}

/// Dedent idempotence law: dedenting is a projection; doing it twice is
/// the same as doing it once, for every text.
pub proof fn lemma_dedent_idempotent(x: Seq<char>)
    ensures
        dedent_spec(dedent_spec(x)) == dedent_spec(x),
{
    let ls = lines_of(x);
    let out = dedent_lines(ls);
    lemma_lines_nonempty(x);
    lemma_lines_nl_free(x);
    assert forall|i: int, j: int|
        0 <= i < out.len() && 0 <= j < out[i].len() implies #[trigger] out[i][j] != '\n' by {
        if line_blank(ls[i]) {
            assert(out[i] == Seq::<char>::empty());
        } else {
            lemma_dedent_prefix_rec_prefix(ls, None);
            let plen = dedent_prefix(ls).len();
            assert(out[i] == ls[i].skip(plen as int));
            assert(out[i][j] == ls[i][plen + j]);
        }
    }
    lemma_lines_unlines(out);
    assert(lines_of(dedent_spec(x)) == out);
    lemma_dedent_lines_dedented(ls);
    lemma_dedent_lines_fix(out);
}

/// Character-wise string equality.
pub fn str_eq(a: &str, b: &str) -> (r: bool)
    ensures
        r == (a@ == b@),
{
    let na = a.unicode_len();
    let nb = b.unicode_len();
    if na != nb {
        return false;
    }
    let mut i: usize = 0;
    while i < na
        invariant
            0 <= i <= na == a@.len(),
            na == nb == b@.len(),
            forall|j: int| 0 <= j < i ==> a@[j] == b@[j],
        decreases na - i,
    {
        if a.get_char(i) != b.get_char(i) {
            return false;
        }
        i += 1;
    }
    proof {
        assert(a@ =~= b@);
    }
    true
}

/// Whether `p` is a prefix of `s`, character-wise.
pub fn str_starts_with(s: &str, p: &str) -> (r: bool)
    ensures
        r == (s@.len() >= p@.len() && s@.take(p@.len() as int) == p@),
{
    let ns = s.unicode_len();
    let np = p.unicode_len();
    if np > ns {
        return false;
    }
    let mut i: usize = 0;
    while i < np
        invariant
            0 <= i <= np == p@.len(),
            np <= ns == s@.len(),
            forall|j: int| 0 <= j < i ==> s@[j] == p@[j],
        decreases np - i,
    {
        if s.get_char(i) != p.get_char(i) {
            proof {
                if s@.take(np as int) == p@ {
                    assert(s@.take(np as int)[i as int] == p@[i as int]);
                }
            }
            return false;
        }
        i += 1;
    }
    proof {
        assert(s@.take(np as int) =~= p@);
    }
    true
}

/// The text of an optional string, with absence reading as empty.
pub open spec fn opt_text(o: Option<Seq<char>>) -> Seq<char> {
    match o {
        None => Seq::empty(),
        Some(s) => s,
    }
}

/// Unwraps an optional string, with absence reading as empty.
pub fn opt_or_empty(o: Option<String>) -> (r: String)
    ensures
        r@ == opt_text(o.deep_view()),
{
    match o {
        None => {
            let e = String::new();
            proof {
                assert(e@ =~= Seq::<char>::empty());
            }
            e
        },
        Some(s) => s,
    }
}

/// A text whose first character shows content keeps it under a leading
/// trim.
pub proof fn lemma_trim_start_fix(s: Seq<char>)
    requires
        s.len() > 0,
        !is_space(s[0]),
    ensures
        trim_start_spec(s) == s,
{
    lemma_lead_spaces_unique(s, 0);
    assert(s.skip(0) =~= s);
}

/// A text whose last character shows content keeps it under a trailing
/// trim.
pub proof fn lemma_trim_end_fix(s: Seq<char>)
    requires
        s.len() > 0,
        !is_space(s.last()),
    ensures
        trim_end_spec(s) == s,
{
    lemma_trail_spaces_unique(s, 0);
    assert(s.take(s.len() as int) =~= s);
}

/// A trailing trim that leaves anything leaves a non-space last
/// character, and only cuts whitespace.
pub proof fn lemma_trim_end_props(s: Seq<char>)
    ensures
        trim_end_spec(s).len() == s.len() - trail_spaces(s),
        trim_end_spec(s).len() > 0 ==> !is_space(trim_end_spec(s).last()),
        forall|i: int| 0 <= i < trim_end_spec(s).len() ==> trim_end_spec(s)[i] == s[i],
{
    lemma_trail_spaces(s);
    if trim_end_spec(s).len() > 0 {
        assert(trim_end_spec(s).last() == s[s.len() - trail_spaces(s) - 1]);
    }
}

/// A leading trim of a line with content leaves something whose first
/// character shows content.
pub proof fn lemma_trim_start_props(s: Seq<char>)
    requires
        !line_blank(s),
    ensures
        trim_start_spec(s).len() > 0,
        !is_space(trim_start_spec(s)[0]),
        forall|i: int|
            0 <= i < trim_start_spec(s).len() ==> trim_start_spec(s)[i] == s[lead_spaces(s) + i],
{
    lemma_lead_spaces(s);
    assert(lead_spaces(s) < s.len()) by {
        if lead_spaces(s) == s.len() {
            assert(line_blank(s));
        }
    }
    assert(trim_start_spec(s)[0] == s[lead_spaces(s) as int]);
}

/// A full trim that leaves anything leaves content at both ends, so a
/// second trim changes nothing.
pub proof fn lemma_trim_fixpoint(s: Seq<char>)
    ensures
        trim_spec(trim_spec(s)) == trim_spec(s),
{
    let t = trim_spec(s);
    if t.len() == 0 {
        lemma_lead_spaces_unique(t, 0);
        lemma_trail_spaces_unique(t, 0);
        assert(trim_spec(t) =~= t);
    } else {
        let u = trim_start_spec(s);
        lemma_trim_end_props(u);
        lemma_lead_spaces(s);
        assert(t[0] == u[0]);
        assert(!is_space(u[0])) by {
            if is_space(s[lead_spaces(s) as int]) {
            }
            assert(u[0] == s[lead_spaces(s) as int]);
        }
        lemma_trim_start_fix(t);
        lemma_trim_end_fix(t);
    }
}

/// Appending an all-whitespace tail grows the trailing run by its whole
/// length.
pub proof fn lemma_trail_concat_blank(a: Seq<char>, b: Seq<char>)
    requires
        line_blank(b),
    ensures
        trail_spaces(a + b) == b.len() + trail_spaces(a),
    decreases b.len(),
{
    if b.len() == 0 {
        assert(a + b =~= a);
    } else {
        assert(is_space(b.last()));
        assert((a + b).last() == b.last());
        assert((a + b).drop_last() =~= a + b.drop_last());
        assert(line_blank(b.drop_last())) by {
            assert(forall|i: int| 0 <= i < b.drop_last().len() ==> b.drop_last()[i] == b[i]);
        }
        lemma_trail_concat_blank(a, b.drop_last());
    }
}

/// Appending a tail with content confines the trailing run to the tail.
pub proof fn lemma_trail_concat_content(a: Seq<char>, b: Seq<char>)
    requires
        !line_blank(b),
    ensures
        trail_spaces(a + b) == trail_spaces(b),
{
    lemma_trail_spaces(b);
    let t = trail_spaces(b) as int;
    assert(t < b.len()) by {
        if t == b.len() {
            assert(line_blank(b));
        }
    }
    let s = a + b;
    assert forall|i: int| s.len() - t <= i < s.len() implies is_space(s[i]) by {
        assert(s[i] == b[i - a.len()]);
    }
    assert(s[s.len() - t - 1] == b[b.len() - t - 1]);
    lemma_trail_spaces_unique(s, t);
}

/// The trailing run covers everything exactly of blank texts.
pub proof fn lemma_trail_all_blank(s: Seq<char>)
    requires
        line_blank(s),
    ensures
        trail_spaces(s) == s.len(),
{
    lemma_trail_spaces_unique(s, s.len() as int);
}

/// The index of the last line with visible content, or `-1` when every
/// line is blank.
pub open spec fn last_nonblank(ls: Seq<Seq<char>>) -> int
    decreases ls.len(),
{
    if ls.len() == 0 {
        -1
    } else if !line_blank(ls.last()) {
        ls.len() - 1
    } else {
        last_nonblank(ls.drop_last())
    }
}

pub proof fn lemma_last_nonblank(ls: Seq<Seq<char>>)
    ensures
        -1 <= last_nonblank(ls) < ls.len(),
        last_nonblank(ls) == -1 ==> forall|k: int| 0 <= k < ls.len() ==> line_blank(
            #[trigger] ls[k],
        ),
        last_nonblank(ls) >= 0 ==> !line_blank(ls[last_nonblank(ls)]) && forall|k: int|
            last_nonblank(ls) < k < ls.len() ==> line_blank(#[trigger] ls[k]),
    decreases ls.len(),
{
    if ls.len() > 0 && line_blank(ls.last()) {
        lemma_last_nonblank(ls.drop_last());
        assert forall|k: int|
            0 <= k < ls.drop_last().len() implies ls.drop_last()[k] == ls[k] by {}
        if last_nonblank(ls) == -1 {
            assert forall|k: int| 0 <= k < ls.len() implies line_blank(#[trigger] ls[k]) by {
                if k < ls.len() - 1 {
                    assert(ls.drop_last()[k] == ls[k]);
                }
            }
        } else {
            assert(ls.drop_last()[last_nonblank(ls)] == ls[last_nonblank(ls)]);
            assert forall|k: int| last_nonblank(ls) < k < ls.len() implies line_blank(
                #[trigger] ls[k],
            ) by {
                if k < ls.len() - 1 {
                    assert(ls.drop_last()[k] == ls[k]);
                }
            }
        }
    }
}

pub proof fn lemma_last_nonblank_unique(ls: Seq<Seq<char>>, m: int)
    requires
        0 <= m < ls.len(),
        !line_blank(ls[m]),
        forall|k: int| m < k < ls.len() ==> line_blank(#[trigger] ls[k]),
    ensures
        last_nonblank(ls) == m,
    decreases ls.len(),
{
    if m == ls.len() - 1 {
    } else {
        assert(line_blank(ls.last()));
        assert(ls.drop_last()[m] == ls[m]);
        assert forall|k: int| m < k < ls.drop_last().len() implies line_blank(
            #[trigger] ls.drop_last()[k],
        ) by {
            assert(ls.drop_last()[k] == ls[k]);
        }
        lemma_last_nonblank_unique(ls.drop_last(), m);
    }
}

/// Trimming the join of newline-free lines whose blank lines are empty:
/// everything after the last line with content goes, and that line loses
/// its own trailing whitespace.
pub proof fn lemma_trim_end_unlines(ls: Seq<Seq<char>>)
    requires
        ls.len() >= 1,
        forall|i: int, j: int|
            0 <= i < ls.len() && 0 <= j < ls[i].len() ==> #[trigger] ls[i][j] != '\n',
        forall|i: int| 0 <= i < ls.len() && line_blank(#[trigger] ls[i]) ==> ls[i].len() == 0,
    ensures
        last_nonblank(ls) == -1 ==> trim_end_spec(unlines(ls)).len() == 0,
        last_nonblank(ls) >= 0 ==> lines_of(trim_end_spec(unlines(ls))) == ls.take(
            last_nonblank(ls),
        ).push(trim_end_spec(ls[last_nonblank(ls)])),
    decreases ls.len(),
{
    lemma_last_nonblank(ls);
    let m = last_nonblank(ls);
    if ls.len() == 1 {
        assert(unlines(ls) == ls[0]);
        if m == -1 {
            assert(line_blank(ls[0]));
            lemma_trail_all_blank(ls[0]);
        } else {
            assert(m == 0);
            let t = trim_end_spec(ls[0]);
            lemma_trim_end_props(ls[0]);
            assert(forall|j: int| 0 <= j < t.len() ==> t[j] != '\n');
            lemma_lines_single(t);
            assert(ls.take(0).push(t) =~= seq![t]);
        }
    } else {
        let dl = ls.drop_last();
        let x = ls.last();
        assert(dl.push(x) =~= ls);
        lemma_unlines_push(dl, x);
        assert(unlines(ls) == unlines(dl) + seq!['\n'] + x);
        let a = unlines(dl);
        if line_blank(x) {
            // The last line is empty; the trailing newline is all that
            // remains of it, and the trim removes it too.
            assert(x.len() == 0);
            let b = seq!['\n'] + x;
            assert(line_blank(b)) by {
                assert(forall|i: int| 0 <= i < b.len() ==> b[i] == '\n');
            }
            lemma_trail_concat_blank(a, b);
            assert(unlines(ls) == a + b) by {
                assert((a + seq!['\n']) + x =~= a + (seq!['\n'] + x));
            }
            assert(trim_end_spec(unlines(ls)) =~= trim_end_spec(a)) by {
                lemma_trail_spaces(a);
            }
            assert forall|i: int, j: int|
                0 <= i < dl.len() && 0 <= j < dl[i].len() implies #[trigger] dl[i][j] != '\n' by {
                assert(dl[i] == ls[i]);
            }
            assert forall|i: int|
                0 <= i < dl.len() && line_blank(#[trigger] dl[i]) implies dl[i].len() == 0 by {
                assert(dl[i] == ls[i]);
            }
            lemma_trim_end_unlines(dl);
            assert(last_nonblank(ls) == last_nonblank(dl));
            if m >= 0 {
                assert(dl.take(m) =~= ls.take(m));
                assert(dl[m] == ls[m]);
            }
        } else {
            // The last line has content: the trim stays inside it.
            assert(m == ls.len() - 1);
            let b = x;
            lemma_trail_concat_content(a + seq!['\n'], b);
            assert(unlines(ls) == (a + seq!['\n']) + b) by {
                assert((a + seq!['\n']) + b =~= a + seq!['\n'] + b);
            }
            let t = trim_end_spec(b);
            lemma_trim_end_props(b);
            lemma_trail_spaces(b);
            assert(trim_end_spec(unlines(ls)) =~= a + seq!['\n'] + t);
            lemma_unlines_push(dl, t);
            assert(unlines(dl.push(t)) == a + seq!['\n'] + t);
            assert forall|i: int, j: int|
                0 <= i < dl.push(t).len() && 0 <= j < dl.push(t)[i].len() implies #[trigger] dl.push(
                t,
            )[i][j] != '\n' by {
                if i < dl.len() {
                    assert(dl.push(t)[i] == ls[i]);
                } else {
                    assert(dl.push(t)[i] == t);
                    assert(t[j] == b[j]);
                }
            }
            lemma_lines_unlines(dl.push(t));
            assert(lines_of(trim_end_spec(unlines(ls))) == dl.push(t));
            assert(dl.push(t) =~= ls.take(m).push(trim_end_spec(ls[m]))) by {
                assert(dl =~= ls.take(m));
            }
        }
    }
}

/// Dedenting newline-free lines yields newline-free lines.
pub proof fn lemma_dedent_lines_nl_free(ls: Seq<Seq<char>>)
    requires
        forall|i: int, j: int|
            0 <= i < ls.len() && 0 <= j < ls[i].len() ==> #[trigger] ls[i][j] != '\n',
    ensures
        forall|i: int, j: int|
            0 <= i < dedent_lines(ls).len() && 0 <= j < dedent_lines(ls)[i].len()
                ==> #[trigger] dedent_lines(ls)[i][j] != '\n',
{
    let out = dedent_lines(ls);
    assert forall|i: int, j: int|
        0 <= i < out.len() && 0 <= j < out[i].len() implies #[trigger] out[i][j] != '\n' by {
        if line_blank(ls[i]) {
            assert(out[i] == Seq::<char>::empty());
        } else {
            let plen = dedent_prefix(ls).len();
            lemma_dedent_prefix_rec_prefix(ls, None);
            assert(plen <= ls[i].len()) by {
                if dedent_prefix_rec(ls, None) is Some {
                    assert(is_prefix(dedent_prefix(ls), ls[i]));
                } else {
                    assert(line_blank(ls[i]));
                }
            }
            assert(out[i] == ls[i].skip(plen as int));
            assert(out[i][j] == ls[i][plen + j]);
        }
    }
}

/// The lines of a dedented text are the dedent of the text's lines.
pub proof fn lemma_lines_of_dedent(x: Seq<char>)
    ensures
        lines_of(dedent_spec(x)) == dedent_lines(lines_of(x)),
{
    let ls = lines_of(x);
    let out = dedent_lines(ls);
    lemma_lines_nonempty(x);
    lemma_lines_nl_free(x);
    lemma_dedent_lines_nl_free(ls);
    lemma_lines_unlines(out);
}

/// A line with content keeps some under a trailing trim, and stays a
/// prefix of itself.
pub proof fn lemma_trim_end_nonblank(l: Seq<char>)
    requires
        !line_blank(l),
    ensures
        trim_end_spec(l).len() > 0,
        !line_blank(trim_end_spec(l)),
{
    lemma_trail_spaces(l);
    assert(trail_spaces(l) < l.len()) by {
        if trail_spaces(l) == l.len() {
            assert(line_blank(l));
        }
    }
    lemma_trim_end_props(l);
    let t = trim_end_spec(l);
    assert(!is_space(t.last()));
    assert(!line_blank(t)) by {
        if line_blank(t) {
            assert(is_space(t[t.len() - 1]));
        }
    }
}

/// Cutting the blank tail lines and the last content line's trailing
/// whitespace keeps a line list in dedented form.
pub proof fn lemma_dedented_tail_trim(ls: Seq<Seq<char>>, m: int)
    requires
        dedented(ls),
        0 <= m < ls.len(),
        !line_blank(ls[m]),
        forall|k: int| m < k < ls.len() ==> line_blank(#[trigger] ls[k]),
    ensures
        dedented(ls.take(m).push(trim_end_spec(ls[m]))),
{
    let t = trim_end_spec(ls[m]);
    let ls2 = ls.take(m).push(t);
    lemma_trim_end_props(ls[m]);
    lemma_trim_end_nonblank(ls[m]);
    assert(t =~= ls[m].take(t.len() as int));
    assert forall|i: int|
        0 <= i < ls2.len() && line_blank(#[trigger] ls2[i]) implies ls2[i].len() == 0 by {
        if i < m {
            assert(ls2[i] == ls[i]);
        } else {
            assert(ls2[i] == t);
        }
    }
    if dedent_prefix_rec(ls2, None) is Some {
        let q = dedent_prefix_rec(ls2, None)->Some_0;
        lemma_dedent_prefix_rec_prefix(ls2, None);
        if q.len() > 0 {
            lemma_dedent_prefix_rec_prefix(ls, None);
            assert(dedent_prefix_rec(ls, None) is Some) by {
                if dedent_prefix_rec(ls, None) is None {
                    assert(line_blank(ls[m]));
                }
            }
            let p = dedent_prefix_rec(ls, None)->Some_0;
            assert(p.len() == 0);
            assert forall|i: int|
                0 <= i < ls.len() && !line_blank(#[trigger] ls[i]) implies is_prefix(q, ls[i]) by {
                if i < m {
                    assert(ls2[i] == ls[i]);
                    assert(is_prefix(q, ls2[i]));
                } else if i == m {
                    assert(ls2[m] == t);
                    assert(!line_blank(t));
                    assert(is_prefix(q, t));
                    assert(q =~= ls[m].take(q.len() as int)) by {
                        assert forall|j: int| 0 <= j < q.len() implies q[j] == ls[m][j] by {
                            assert(q[j] == t.take(q.len() as int)[j]);
                            assert(t[j] == ls[m][j]);
                        }
                    }
                } else {
                    assert(line_blank(ls[i]));
                }
            }
            lemma_dedent_prefix_rec_max(ls, None, q);
            assert(is_prefix(q, p));
            assert(false);
        }
    }
}

/// Normalization is a projection: on any text whose first line shows
/// content, normalizing the result of a normalization changes nothing.
/// (A text opening with a blank line can fall out of line: the final
/// trim then swallows the newline and merges the first lines, and a
/// second pass may dedent further.)
pub proof fn lemma_handle_indentation_idempotent(x: Seq<char>)
    requires
        !line_blank(lines_of(x)[0]),
    ensures
        handle_indentation_spec(x) matches Some(y) ==> handle_indentation_spec(y) == Some(y),
{
    if handle_indentation_spec(x) is Some {
        let y = handle_indentation_spec(x)->Some_0;
        let i = find_from(x, 0, '\n');
        lemma_find_from(x, 0, '\n');
        if i == x.len() {
            assert(y == trim_spec(x));
            assert(y.len() > 0);
            let u = trim_start_spec(x);
            lemma_lead_spaces(x);
            lemma_trim_end_props(u);
            assert forall|j: int| 0 <= j < y.len() implies y[j] != '\n' by {
                assert(y[j] == u[j]);
                assert(u[j] == x[lead_spaces(x) + j]);
            }
            lemma_find_from_unique(y, 0, '\n', y.len() as int);
            lemma_trim_fixpoint(x);
            assert(handle_indentation_spec(y) == Some(y));
        } else {
            let first = x.take(i);
            assert(lines_of(x)[0] == first);
            assert(!line_blank(first));
            let ff = trim_start_spec(first);
            let dd = dedent_spec(x.skip(i + 1));
            let combined = ff + seq!['\n'] + dd;
            assert(y == trim_spec(combined));
            assert(y.len() > 0);
            lemma_trim_start_props(first);
            assert(ff.len() > 0 && !is_space(ff[0]));
            assert(!line_blank(ff)) by {
                if line_blank(ff) {
                    assert(is_space(ff[0]));
                }
            }
            lemma_lead_spaces(first);
            assert forall|j: int| 0 <= j < ff.len() implies ff[j] != '\n' by {
                assert(ff[j] == first[lead_spaces(first) + j]);
                assert(first[lead_spaces(first) + j] == x[lead_spaces(first) + j]);
            }
            assert(combined[0] == ff[0]);
            lemma_trim_start_fix(combined);
            assert(trim_spec(combined) == trim_end_spec(combined));
            let ls0 = lines_of(x.skip(i + 1));
            let ls_d = dedent_lines(ls0);
            lemma_lines_of_dedent(x.skip(i + 1));
            assert(lines_of(dd) == ls_d);
            lemma_lines_nonempty(x.skip(i + 1));
            assert(ls_d.len() >= 1);
            lemma_unlines_lines(dd);
            assert(unlines(ls_d) == dd);
            let ls_y = seq![ff] + ls_d;
            assert(ls_y[0] == ff);
            assert(ls_y.drop_first() =~= ls_d);
            assert(ls_y.len() >= 2);
            assert(unlines(ls_y) == ff + seq!['\n'] + unlines(ls_d));
            assert(unlines(ls_y) == combined);
            lemma_lines_nl_free(x.skip(i + 1));
            lemma_dedent_lines_nl_free(ls0);
            assert forall|a: int, b: int|
                0 <= a < ls_y.len() && 0 <= b < ls_y[a].len() implies #[trigger] ls_y[a][b]
                != '\n' by {
                if a == 0 {
                    assert(ls_y[0] == ff);
                } else {
                    assert(ls_y[a] == ls_d[a - 1]);
                }
            }
            lemma_dedent_lines_dedented(ls0);
            assert(dedented(ls_d));
            assert forall|a: int|
                0 <= a < ls_y.len() && line_blank(#[trigger] ls_y[a]) implies ls_y[a].len()
                == 0 by {
                if a == 0 {
                    assert(ls_y[0] == ff);
                } else {
                    assert(ls_y[a] == ls_d[a - 1]);
                }
            }
            lemma_trim_end_unlines(ls_y);
            lemma_last_nonblank(ls_y);
            let m = last_nonblank(ls_y);
            assert(m >= 0) by {
                if m == -1 {
                    assert(line_blank(ls_y[0]));
                }
            }
            assert(lines_of(y) == ls_y.take(m).push(trim_end_spec(ls_y[m])));
            if m == 0 {
                let t = trim_end_spec(ff);
                assert(ls_y[0] == ff);
                assert(lines_of(y) == ls_y.take(0).push(t));
                assert(ls_y.take(0).push(t) =~= seq![t]);
                lemma_unlines_lines(y);
                assert(y == unlines(seq![t]));
                assert(unlines(seq![t]) == t);
                lemma_trim_end_props(ff);
                assert forall|j: int| 0 <= j < y.len() implies y[j] != '\n' by {
                    assert(y[j] == t[j]);
                    assert(t[j] == ff[j]);
                }
                lemma_find_from_unique(y, 0, '\n', y.len() as int);
                lemma_trim_fixpoint(combined);
                assert(trim_spec(y) == y);
                assert(handle_indentation_spec(y) == Some(y));
            } else {
                let t = trim_end_spec(ls_y[m]);
                assert(ls_y[m] == ls_d[m - 1]);
                let ls2 = ls_d.take(m - 1).push(t);
                assert(ls_y.take(m) =~= seq![ff] + ls_d.take(m - 1));
                assert(lines_of(y) =~= seq![ff] + ls2) by {
                    assert((seq![ff] + ls_d.take(m - 1)).push(t) =~= seq![ff] + ls_d.take(
                        m - 1,
                    ).push(t));
                }
                let rr = unlines(ls2);
                assert(ls2.len() == m >= 1);
                lemma_unlines_lines(y);
                assert((seq![ff] + ls2)[0] == ff);
                assert((seq![ff] + ls2).drop_first() =~= ls2);
                assert(y == unlines(seq![ff] + ls2));
                assert(y == ff + seq!['\n'] + rr);
                assert forall|j: int| 0 <= j < ff.len() implies y[j] != '\n' by {
                    assert(y[j] == ff[j]);
                }
                assert(y[ff.len() as int] == '\n');
                lemma_find_from_unique(y, 0, '\n', ff.len() as int);
                assert(find_from(y, 0, '\n') == ff.len() < y.len());
                assert(y.take(ff.len() as int) =~= ff);
                assert(y.skip(ff.len() as int + 1) =~= rr);
                lemma_trim_start_fix(ff);
                // The tail of the fixpoint is still in dedented form.
                assert(!line_blank(ls_d[m - 1]));
                assert forall|k: int|
                    m - 1 < k < ls_d.len() implies line_blank(#[trigger] ls_d[k]) by {
                    assert(ls_d[k] == ls_y[k + 1]);
                }
                lemma_dedented_tail_trim(ls_d, m - 1);
                assert(dedented(ls2));
                lemma_trim_end_props(ls_d[m - 1]);
                assert forall|a: int, b: int|
                    0 <= a < ls2.len() && 0 <= b < ls2[a].len() implies #[trigger] ls2[a][b]
                    != '\n' by {
                    if a < m - 1 {
                        assert(ls2[a] == ls_d[a]);
                    } else {
                        assert(ls2[a] == t);
                        assert(t[b] == ls_d[m - 1][b]);
                    }
                }
                lemma_lines_unlines(ls2);
                assert(lines_of(rr) == ls2);
                lemma_dedent_lines_fix(ls2);
                assert(dedent_spec(rr) == unlines(dedent_lines(ls2)));
                assert(dedent_spec(rr) == rr);
                lemma_trim_fixpoint(combined);
                assert(trim_spec(y) == y);
                assert(trim_start_spec(y.take(find_from(y, 0, '\n'))) + seq!['\n'] + dedent_spec(
                    y.skip(find_from(y, 0, '\n') + 1),
                ) == y);
                assert(handle_indentation_spec(y) == Some(y));
            }
        }
    }
}

/// A line the zero shift cannot touch: if it reads as a heading, its
/// marks start at column zero and number at most six.
pub open spec fn zero_shift_line_ok(l: Seq<char>) -> bool {
    ({
        let hl = trim_lead_limited(l, 3);
        hl.len() > 0 && hl[0] == '#'
    }) ==> (lead_spaces(l) == 0 && run_len(l, '#') <= 6)
}

/// The zero shift leaves such a line exactly as it came, whatever the
/// fence state.
pub proof fn lemma_zero_shift_line(f: Option<(nat, char)>, l: Seq<char>)
    requires
        zero_shift_line_ok(l),
    ensures
        emit_line(f, l, 0) == l,
{
    let hl = trim_lead_limited(l, 3);
    if fence_step(f, l) is None && hl.len() > 0 && hl[0] == '#' {
        assert(hl =~= l);
        let h = run_len(l, '#');
        lemma_run_len(l, '#');
        lemma_repeat_char('#', h);
        assert(heading_spec(l, 0) =~= l) by {
            assert forall|i: int| 0 <= i < l.len() implies heading_spec(l, 0)[i] == l[i] by {
                if i < h {
                    assert(heading_spec(l, 0)[i] == repeat_char('#', h)[i]);
                } else {
                    assert(heading_spec(l, 0)[i] == l.skip(h as int)[i - h]);
                }
            }
        }
        assert(emit_line(f, hl, 0) == heading_spec(hl, 0));
    }
}

pub proof fn lemma_zero_shift_lines(ls: Seq<Seq<char>>, f: Option<(nat, char)>)
    requires
        forall|i: int| 0 <= i < ls.len() ==> zero_shift_line_ok(#[trigger] ls[i]),
    ensures
        shift_lines_spec(ls, 0, f) == ls,
    decreases ls.len(),
{
    if ls.len() > 0 {
        lemma_zero_shift_line(f, ls[0]);
        assert forall|i: int|
            0 <= i < ls.drop_first().len() implies zero_shift_line_ok(
            #[trigger] ls.drop_first()[i],
        ) by {
            assert(ls.drop_first()[i] == ls[i + 1]);
        }
        lemma_zero_shift_lines(ls.drop_first(), fence_step(f, ls[0]));
        assert(seq![ls[0]] + ls.drop_first() =~= ls);
    }
}

/// Zero-shift identity law: shifting by zero levels leaves a document
/// unchanged whenever each of its heading lines sits at column zero
/// with at most six marks.
pub proof fn lemma_zero_shift_identity(s: Seq<char>)
    requires
        forall|i: int|
            0 <= i < lines_of(s).len() ==> zero_shift_line_ok(#[trigger] lines_of(s)[i]),
    ensures
        shift_spec(s, 0) == s,
{
    lemma_zero_shift_lines(lines_of(s), None);
    lemma_unlines_lines(s);
}

} // verus!
