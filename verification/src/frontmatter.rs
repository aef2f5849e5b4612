//! Frontmatter text handling: splitting a note into its YAML header and body,
//! and replacing the `score:` block while keeping every other line verbatim.
use vstd::prelude::*;

use crate::text::{
    opt_view,
    chars_of, eq_chars, extend_chars, join, join_chars, lines, lines_of, pop_trailing_newlines,
    push_lines, split_char, starts_with, starts_with_chars, string_of, string_views, trim,
    trim_chars, trim_trailing_newlines, unlines, views,
};

verus! {

/// A note: the raw frontmatter text and the body after the closing `---`.
#[derive(Debug, Clone, PartialEq, Eq)]
pub struct Note {
    pub frontmatter: String,
    pub body: String,
}

/// Why a note could not be split into frontmatter and body.
#[derive(Debug, Clone, Copy, PartialEq, Eq, Structural)]
pub enum FrontmatterError {
    /// The first line is not `---`.
    MissingOpening,
    /// No later line is `---`.
    MissingClosing,
    /// The frontmatter is not a YAML mapping.
    NotYamlMapping,
}

/// A change to a note's metadata that an accepted suggestion applies.
#[derive(Debug, Clone, PartialEq, Eq)]
pub enum MetadataPatch {
    /// Add a tag to the frontmatter's `tags` list.
    AddTag(String),
    /// Add a wiki link `[[target]]` to the end of the body.
    AddLink(String),
}

/// What applying changes to a note did: whether the note changed, and its
/// content hash afterwards.
#[derive(Debug, Clone, PartialEq, Eq)]
pub struct MetadataPatchResult {
    pub changed: bool,
    pub content_hash: String,
}

/// Why changes were not applied to a note.
#[derive(Debug, Clone, PartialEq, Eq)]
pub enum MetadataPatchError {
    /// The note's content hash is not the one the changes were made for.
    Stale { expected: String, actual: String },
}

/// The text of a stale-note error.
pub open spec fn stale_text(expected: Seq<char>, actual: Seq<char>) -> Seq<char> {
    "content hash is stale: expected "@ + expected + ", actual "@ + actual
}

impl MetadataPatchError {
    /// What the error says.
    pub fn message(&self) -> (m: String)
        ensures
            match self {
                MetadataPatchError::Stale { expected, actual } => m@ == stale_text(expected@, actual@),
            },
    {
        match self {
            MetadataPatchError::Stale { expected, actual } => {
                let mut v: Vec<char> = chars_of("content hash is stale: expected ");
                extend_chars(&mut v, &chars_of(expected.as_str()));
                extend_chars(&mut v, &chars_of(", actual "));
                extend_chars(&mut v, &chars_of(actual.as_str()));
                string_of(&v)
            },
        }
    }
}

/// The byte order mark that editors may put in front of a note.
pub open spec fn bom() -> char {
    '\u{feff}'
}

/// `s` without one leading byte order mark.
pub open spec fn strip_bom(s: Seq<char>) -> Seq<char> {
    if s.len() > 0 && s[0] == bom() {
        s.drop_first()
    } else {
        s
    }
}

/// The frontmatter delimiter `---`.
pub open spec fn dashes() -> Seq<char> {
    seq!['-', '-', '-']
}

/// Whether a line is a frontmatter delimiter (surrounding whitespace ignored).
pub open spec fn is_delimiter(line: Seq<char>) -> bool {
    trim(line) == dashes()
}

/// The index of the first delimiter line at or after `from`, or `ls.len()`.
pub open spec fn first_delimiter_from(ls: Seq<Seq<char>>, from: int) -> int
    decreases ls.len() - from,
{
    if from >= ls.len() {
        ls.len() as int
    } else if is_delimiter(ls[from]) {
        from
    } else {
        first_delimiter_from(ls, from + 1)
    }
}

/// What splitting `content` yields: the frontmatter lines between the opening
/// and the first closing delimiter, and the lines after it, each joined by `\n`.
pub open spec fn split_frontmatter_spec(content: Seq<char>) -> Result<(Seq<char>, Seq<char>), FrontmatterError> {
    let ls = lines(strip_bom(content));
    if ls.len() == 0 || !is_delimiter(ls[0]) {
        Err(FrontmatterError::MissingOpening)
    } else {
        let close = first_delimiter_from(ls, 1);
        if close >= ls.len() {
            Err(FrontmatterError::MissingClosing)
        } else {
            Ok((
                join(ls.subrange(1, close), seq!['\n']),
                join(ls.subrange(close + 1, ls.len() as int), seq!['\n']),
            ))
        }
    }
}

proof fn lemma_first_delimiter_bounds(ls: Seq<Seq<char>>, from: int)
    requires
        0 <= from,
    ensures
        from <= first_delimiter_from(ls, from) || first_delimiter_from(ls, from) == ls.len(),
        first_delimiter_from(ls, from) <= ls.len() || from > ls.len(),
        first_delimiter_from(ls, from) < ls.len() ==> is_delimiter(ls[first_delimiter_from(ls, from)]),
    decreases ls.len() - from,
{
    if from < ls.len() && !is_delimiter(ls[from]) {
        lemma_first_delimiter_bounds(ls, from + 1);
    }
}

/// Whether `line` is a delimiter line.
fn is_delimiter_line(line: &[char]) -> (r: bool)
    ensures
        r == is_delimiter(line@),
{
    let t = trim_chars(line);
    let d: Vec<char> = vec!['-', '-', '-'];
    proof { assert(d@ =~= dashes()); }
    eq_chars(&t, &d)
}

/// Copies `ls[from..to]`.
fn copy_lines(ls: &Vec<Vec<char>>, from: usize, to: usize) -> (r: Vec<Vec<char>>)
    requires
        from <= to <= ls@.len(),
    ensures
        views(r@) == views(ls@).subrange(from as int, to as int),
{
    let mut r: Vec<Vec<char>> = Vec::new();
    let mut i: usize = from;
    while i < to
        invariant
            from <= i <= to <= ls@.len(),
            views(r@) =~= views(ls@).subrange(from as int, i as int),
        decreases to - i,
    {
        let line = crate::text::copy_chars(&ls[i]);
        proof { crate::text::lemma_views_push(r@, line); }
        r.push(line);
        i = i + 1;
    }
    r
}

/// Splits `---\n<yaml>\n---\n<body>` into the YAML text and the body.
/// A leading byte order mark is ignored.
pub fn split_frontmatter(content: &str) -> (r: Result<(String, String), FrontmatterError>)
    ensures
        match r {
            Ok((fm, body)) => split_frontmatter_spec(content@) == Ok::<(Seq<char>, Seq<char>), FrontmatterError>((fm@, body@)),
            Err(e) => split_frontmatter_spec(content@) == Err::<(Seq<char>, Seq<char>), FrontmatterError>(e),
        },
{
    let all = chars_of(content);
    let mut start: usize = 0;
    if all.len() > 0 && all[0] == '\u{feff}' {
        start = 1;
    }
    let mut stripped: Vec<char> = Vec::new();
    let mut i: usize = start;
    while i < all.len()
        invariant
            start <= i <= all@.len(),
            stripped@ =~= all@.subrange(start as int, i as int),
        decreases all.len() - i,
    {
        stripped.push(all[i]);
        i = i + 1;
    }
    proof {
        if start == 1 {
            assert(all@.subrange(1, all@.len() as int) =~= all@.drop_first());
        } else {
            assert(all@.subrange(0, all@.len() as int) =~= all@);
        }
        assert(stripped@ == strip_bom(content@));
    }
    let ls = lines_of(&stripped);
    let ghost gls = views(ls@);
    if ls.len() == 0 || !is_delimiter_line(&ls[0]) {
        return Err(FrontmatterError::MissingOpening);
    }
    let mut close: usize = 1;
    while close < ls.len() && !is_delimiter_line(&ls[close])
        invariant
            1 <= close <= ls@.len(),
            gls == views(ls@),
            first_delimiter_from(gls, 1) == first_delimiter_from(gls, close as int),
        decreases ls.len() - close,
    {
        close = close + 1;
    }
    if close >= ls.len() {
        return Err(FrontmatterError::MissingClosing);
    }
    let head = copy_lines(&ls, 1, close);
    let tail = copy_lines(&ls, close + 1, ls.len());
    let nl: Vec<char> = vec!['\n'];
    proof { assert(nl@ =~= seq!['\n']); }
    let fm = join_chars(&head, &nl);
    let body = join_chars(&tail, &nl);
    Ok((string_of(&fm), string_of(&body)))
}


/// The key that opens the score block.
pub open spec fn score_key() -> Seq<char> {
    seq!['s', 'c', 'o', 'r', 'e', ':']
}

/// A line that opens a top-level YAML key: non-empty and not indented.
pub open spec fn is_top_level_line(line: Seq<char>) -> bool {
    line.len() > 0 && line[0] != ' ' && line[0] != '\t'
}

/// The index of the first line at or after `from` that starts with `score:`,
/// or `ls.len()` when there is none.
pub open spec fn first_score_line_from(ls: Seq<Seq<char>>, from: int) -> int
    decreases ls.len() - from,
{
    if from >= ls.len() {
        ls.len() as int
    } else if starts_with(ls[from], score_key()) {
        from
    } else {
        first_score_line_from(ls, from + 1)
    }
}

/// The index of the first top-level line at or after `from`, or `ls.len()`.
pub open spec fn next_top_level_from(ls: Seq<Seq<char>>, from: int) -> int
    decreases ls.len() - from,
{
    if from >= ls.len() {
        ls.len() as int
    } else if is_top_level_line(ls[from]) {
        from
    } else {
        next_top_level_from(ls, from + 1)
    }
}

/// The frontmatter text with its `score:` block (the `score:` line and the
/// indented or empty lines after it) replaced by `block`; without a score
/// block, `block` is appended on a line of its own. The result ends with
/// exactly one `\n`.
pub open spec fn replace_score_block_spec(frontmatter: Seq<char>, block: Seq<char>) -> Seq<char> {
    let ls = lines(frontmatter);
    let start = first_score_line_from(ls, 0);
    let raw = if start >= ls.len() {
        if frontmatter.len() > 0 && frontmatter.last() == '\n' {
            frontmatter + block
        } else {
            frontmatter + seq!['\n'] + block
        }
    } else {
        let end = next_top_level_from(ls, start + 1);
        unlines(ls.subrange(0, start)) + block + unlines(ls.subrange(end, ls.len() as int))
    };
    trim_trailing_newlines(raw).push('\n')
}

proof fn lemma_first_score_line_bounds(ls: Seq<Seq<char>>, from: int)
    requires
        0 <= from <= ls.len(),
    ensures
        from <= first_score_line_from(ls, from) <= ls.len(),
    decreases ls.len() - from,
{
    if from < ls.len() && !starts_with(ls[from], score_key()) {
        lemma_first_score_line_bounds(ls, from + 1);
    }
}

proof fn lemma_next_top_level_bounds(ls: Seq<Seq<char>>, from: int)
    requires
        0 <= from <= ls.len(),
    ensures
        from <= next_top_level_from(ls, from) <= ls.len(),
    decreases ls.len() - from,
{
    if from < ls.len() && !is_top_level_line(ls[from]) {
        lemma_next_top_level_bounds(ls, from + 1);
    }
}

proof fn lemma_first_score_facts(ls: Seq<Seq<char>>, from: int)
    requires
        0 <= from <= ls.len(),
    ensures
        forall|k: int| from <= k < first_score_line_from(ls, from) ==> !starts_with(#[trigger] ls[k], score_key()),
        first_score_line_from(ls, from) < ls.len() ==> starts_with(ls[first_score_line_from(ls, from)], score_key()),
    decreases ls.len() - from,
{
    if from < ls.len() && !starts_with(ls[from], score_key()) {
        lemma_first_score_facts(ls, from + 1);
    }
}

proof fn lemma_next_top_level_facts(ls: Seq<Seq<char>>, from: int)
    requires
        0 <= from <= ls.len(),
    ensures
        next_top_level_from(ls, from) < ls.len() ==> is_top_level_line(ls[next_top_level_from(ls, from)]),
    decreases ls.len() - from,
{
    if from < ls.len() && !is_top_level_line(ls[from]) {
        lemma_next_top_level_facts(ls, from + 1);
    }
}

proof fn lemma_first_score_after(p: Seq<Seq<char>>, r: Seq<Seq<char>>, i: int)
    requires
        0 <= i <= p.len(),
        r.len() > 0,
        starts_with(r[0], score_key()),
        forall|k: int| 0 <= k < p.len() ==> !starts_with(#[trigger] p[k], score_key()),
    ensures
        first_score_line_from(p + r, i) == p.len(),
    decreases p.len() - i,
{
    if i < p.len() {
        assert((p + r)[i] == p[i]);
        lemma_first_score_after(p, r, i + 1);
    } else {
        assert((p + r)[i] == r[0]);
    }
}

proof fn lemma_next_top_after_block(p: Seq<Seq<char>>, c: Seq<Seq<char>>, q: Seq<Seq<char>>, i: int)
    requires
        1 <= i <= c.len(),
        forall|m: int| 1 <= m < c.len() ==> !is_top_level_line(#[trigger] c[m]),
        q.len() > 0 ==> is_top_level_line(q[0]),
    ensures
        next_top_level_from(p + c + q, p.len() + i) == p.len() + c.len(),
    decreases c.len() - i,
{
    let m = p + c + q;
    if i < c.len() {
        assert(m[p.len() + i] == c[i]);
        lemma_next_top_level_from_step(m, p.len() + i);
        lemma_next_top_after_block(p, c, q, i + 1);
    } else if q.len() > 0 {
        assert(m[(p.len() + c.len()) as int] == q[0]);
    }
}

proof fn lemma_next_top_level_from_step(ls: Seq<Seq<char>>, from: int)
    requires
        0 <= from < ls.len(),
        !is_top_level_line(ls[from]),
    ensures
        next_top_level_from(ls, from) == next_top_level_from(ls, from + 1),
{
}

/// Lines that hold neither `\n` nor `\r`.
pub open spec fn plain_lines(ls: Seq<Seq<char>>) -> bool {
    crate::text::lines_without(ls, '\n') && crate::text::lines_without(ls, '\r')
}

proof fn lemma_plain_sub(ls: Seq<Seq<char>>, a: int, b: int)
    requires
        plain_lines(ls),
        0 <= a <= b <= ls.len(),
    ensures
        plain_lines(ls.subrange(a, b)),
{
    let t = ls.subrange(a, b);
    assert forall|k: int, j: int| 0 <= k < t.len() && 0 <= j < t[k].len() implies #[trigger] t[k][j] != '\n' && t[k][j] != '\r' by {
        assert(t[k] == ls[a + k]);
    }
}

/// A score block: text that ends with `\n`, whose first line starts with
/// `score:` and whose other lines are empty or indented.
pub open spec fn is_score_block(b: Seq<char>) -> bool {
    &&& b.len() > 0 && b.last() == '\n'
    &&& lines(b).len() > 0
    &&& starts_with(lines(b)[0], score_key())
    &&& forall|m: int| 1 <= m < lines(b).len() ==> !is_top_level_line(#[trigger] lines(b)[m])
}

/// The text a score replacement gives: the lines before the block, the
/// block, and the lines after it, with the line breaks at the end trimmed
/// to one.
proof fn lemma_replace_parts(fm: Seq<char>, b: Seq<char>) -> (pq: (Seq<Seq<char>>, Seq<Seq<char>>))
    requires
        crate::text::text_without(fm, '\r'),
    ensures
        plain_lines(pq.0),
        plain_lines(pq.1),
        forall|k: int| 0 <= k < pq.0.len() ==> !starts_with(#[trigger] pq.0[k], score_key()),
        pq.1.len() > 0 ==> is_top_level_line(pq.1[0]),
        replace_score_block_spec(fm, b) == trim_trailing_newlines(unlines(pq.0) + b + unlines(pq.1)).push('\n'),
{
    let ls = lines(fm);
    crate::text::lemma_lines_without(fm);
    let st = first_score_line_from(ls, 0);
    lemma_first_score_line_bounds(ls, 0);
    lemma_first_score_facts(ls, 0);
    let e = Seq::<Seq<char>>::empty();
    assert(unlines(e) =~= Seq::<char>::empty());
    if st >= ls.len() {
        let p = if fm.len() == 0 { seq![Seq::<char>::empty()] } else { ls };
        if fm.len() == 0 {
            assert(p.drop_last() =~= Seq::<Seq<char>>::empty());
            assert(unlines(p.drop_last()) =~= Seq::<char>::empty());
            assert(unlines(p) =~= fm + seq!['\n']);
            assert(!starts_with(p[0], score_key()));
        } else {
            crate::text::lemma_unlines_lines(fm);
            assert(fm.push('\n') =~= fm + seq!['\n']);
        }
        assert(plain_lines(p));
        assert(plain_lines(e));
        assert(unlines(p) + b + unlines(e) =~= unlines(p) + b);
        (p, e)
    } else {
        let en = next_top_level_from(ls, st + 1);
        lemma_next_top_level_bounds(ls, st + 1);
        lemma_next_top_level_facts(ls, st + 1);
        let p = ls.subrange(0, st);
        let q = ls.subrange(en, ls.len() as int);
        lemma_plain_sub(ls, 0, st);
        lemma_plain_sub(ls, en, ls.len() as int);
        assert forall|k: int| 0 <= k < p.len() implies !starts_with(#[trigger] p[k], score_key()) by {
            assert(p[k] == ls[k]);
        }
        if q.len() > 0 {
            assert(q[0] == ls[en]);
        }
        (p, q)
    }
}

proof fn lemma_unlines_end(ls: Seq<Seq<char>>)
    ensures
        unlines(ls).len() == 0 || unlines(ls).last() == '\n',
{
}

/// Replacing the score block with the same block a second time changes
/// nothing, and a replacement ends with exactly one line break; for a
/// frontmatter without `\r`.
pub proof fn law_replace_score_block_idempotent(fm: Seq<char>, b: Seq<char>)
    requires
        crate::text::text_without(fm, '\r'),
        is_score_block(b),
    ensures
        replace_score_block_spec(fm, b).len() >= 2,
        replace_score_block_spec(fm, b).last() == '\n',
        replace_score_block_spec(fm, b)[replace_score_block_spec(fm, b).len() - 2] != '\n',
        replace_score_block_spec(replace_score_block_spec(fm, b), b) == replace_score_block_spec(fm, b),
{
    let bl = lines(b);
    let (p, q) = lemma_replace_parts(fm, b);
    let r = replace_score_block_spec(fm, b);
    let up = unlines(p);
    lemma_unlines_end(p);
    crate::text::lemma_lines_unlines(p);
    // The block's text does not start with a line break.
    assert(b[0] != '\n') by {
        if b[0] == '\n' {
            lemma_split_first(b, '\n', 0);
            assert(b.take(0) =~= Seq::<char>::empty());
            crate::text::lemma_split_char_nonempty(b, '\n');
            assert(bl[0] == crate::text::strip_cr(split_char(b, '\n')[0]));
            assert(bl[0].len() == 0);
        }
    }
    let tb = trim_trailing_newlines(b);
    crate::text::lemma_trim_newlines_prefix(b);
    assert(tb.len() > 0) by {
        if tb.len() == 0 {
            assert(b[0] == '\n');
        }
    }
    // The first result, its text `x` before the final line break, and its
    // lines: `p`, the block's lines `c` kept in it, and the lines `q2` after.
    let x = trim_trailing_newlines(up + b + unlines(q));
    assert(r == x.push('\n'));
    let dq = crate::text::drop_trailing_empty(q);
    crate::text::lemma_drop_trailing_prefix(q);
    let c: Seq<Seq<char>>;
    let q2: Seq<Seq<char>>;
    if q.len() > 0 {
        crate::text::lemma_trim_unlines(q);
        let tq = trim_trailing_newlines(unlines(q));
        assert(unlines(dq) == unlines(dq.drop_last()) + dq.last() + seq!['\n']);
        assert(tq.len() > 0);
        crate::text::lemma_trim_newlines_concat(up + b, unlines(q));
        assert(r =~= up + (b + unlines(dq)));
        lemma_plain_sub(q, 0, dq.len() as int);
        assert(q.subrange(0, dq.len() as int) =~= dq);
        crate::text::lemma_lines_unlines(dq);
        crate::text::lemma_lines_concat(up, b + unlines(dq));
        crate::text::lemma_lines_concat(b, unlines(dq));
        c = bl;
        q2 = dq;
        assert(q2[0] == q[0]);
    } else {
        assert(up + b + unlines(q) =~= up + b);
        crate::text::lemma_trim_newlines_concat(up, b);
        assert(r =~= up + (tb + seq!['\n']));
        let head = tb + seq!['\n'];
        let rest = b.skip((tb.len() + 1) as int);
        assert(b =~= head + rest) by {
            assert(b[tb.len() as int] == '\n');
        }
        crate::text::lemma_lines_concat(up, head);
        crate::text::lemma_lines_concat(head, rest);
        assert(head.drop_last() =~= tb);
        crate::text::lemma_split_char_nonempty(tb, '\n');
        assert(lines(head).len() >= 1);
        c = lines(head);
        q2 = Seq::<Seq<char>>::empty();
        assert forall|m: int| 0 <= m < c.len() implies #[trigger] c[m] == bl[m] by {
            assert(bl[m] == (lines(head) + lines(rest))[m]);
        }
    }
    let mp = p + (c + q2);
    assert(lines(r) =~= mp);
    assert(c.len() > 0 && c[0] == bl[0]);
    assert(forall|k: int| 1 <= k < c.len() ==> !is_top_level_line(#[trigger] c[k])) by {
        assert forall|k: int| 1 <= k < c.len() implies !is_top_level_line(#[trigger] c[k]) by {
            assert(c[k] == bl[k]);
        }
    }
    // The first result, read again: the block is found where it was put.
    lemma_first_score_after(p, c + q2, 0);
    assert(mp =~= p + c + q2);
    lemma_next_top_after_block(p, c, q2, 1);
    let e2 = p.len() + c.len();
    assert(first_score_line_from(lines(r), 0) == p.len());
    assert(next_top_level_from(lines(r), (p.len() + 1) as int) == e2);
    assert(mp.subrange(0, p.len() as int) =~= p);
    assert(mp.subrange(e2 as int, mp.len() as int) =~= q2);
    // The second raw text trims to the same result.
    if q.len() > 0 {
        crate::text::lemma_drop_trailing_idempotent(q);
        crate::text::lemma_trim_unlines(dq);
        assert(unlines(dq) == unlines(dq.drop_last()) + dq.last() + seq!['\n']);
        crate::text::lemma_trim_newlines_concat(up + b, unlines(dq));
        assert(trim_trailing_newlines(up + b + unlines(q2)).push('\n') =~= r);
    } else {
        assert(up + b + unlines(q2) =~= up + b + unlines(q));
    }
    // The result ends with one line break.
    crate::text::lemma_trim_newlines_prefix(up + b + unlines(q));
    assert(x.len() > 0) by {
        if q.len() > 0 {
            assert(x =~= up + b + trim_trailing_newlines(unlines(q)));
        } else {
            assert(x =~= up + tb);
        }
    }
    assert(r[r.len() - 2] == x.last());
}

/// Replaces (or appends) the `score:` block of a frontmatter text, keeping
/// every other line as it was.
pub fn replace_score_block(frontmatter: &str, new_block: &str) -> (r: String)
    ensures
        r@ == replace_score_block_spec(frontmatter@, new_block@),
{
    let fm = chars_of(frontmatter);
    let block = chars_of(new_block);
    let ls = lines_of(&fm);
    let ghost gls = views(ls@);
    let key: Vec<char> = vec!['s', 'c', 'o', 'r', 'e', ':'];
    proof { assert(key@ =~= score_key()); }
    let mut start: usize = 0;
    while start < ls.len() && !starts_with_chars(&ls[start], &key)
        invariant
            start <= ls@.len(),
            gls == views(ls@),
            key@ == score_key(),
            first_score_line_from(gls, 0) == first_score_line_from(gls, start as int),
        decreases ls.len() - start,
    {
        assert(gls[start as int] == ls@[start as int]@);
        start = start + 1;
    }
    proof {
        lemma_first_score_line_bounds(gls, start as int);
        if start < ls.len() {
            assert(gls[start as int] == ls@[start as int]@);
        }
    }
    let mut out: Vec<char> = Vec::new();
    if start >= ls.len() {
        extend_chars(&mut out, &fm);
        if !(fm.len() > 0 && fm[fm.len() - 1] == '\n') {
            out.push('\n');
        }
        extend_chars(&mut out, &block);
    } else {
        let mut end: usize = start + 1;
        proof { lemma_next_top_level_bounds(gls, start + 1); }
        while end < ls.len() && !(ls[end].len() > 0 && ls[end][0] != ' ' && ls[end][0] != '\t')
            invariant
                start < end <= ls@.len(),
                gls == views(ls@),
                next_top_level_from(gls, start + 1) == next_top_level_from(gls, end as int),
            decreases ls.len() - end,
        {
            assert(gls[end as int] == ls@[end as int]@);
            end = end + 1;
        }
        proof {
            if end < ls.len() {
                assert(gls[end as int] == ls@[end as int]@);
            }
        }
        push_lines(&mut out, &ls, 0, start);
        extend_chars(&mut out, &block);
        push_lines(&mut out, &ls, end, ls.len());
    }
    let ghost raw = out@;
    pop_trailing_newlines(&mut out);
    out.push('\n');
    proof {
        assert(gls == lines(frontmatter@));
        let st = first_score_line_from(gls, 0);
        let spec_raw = if st >= gls.len() {
            if frontmatter@.len() > 0 && frontmatter@.last() == '\n' {
                frontmatter@ + new_block@
            } else {
                frontmatter@ + seq!['\n'] + new_block@
            }
        } else {
            let e = next_top_level_from(gls, st + 1);
            unlines(gls.subrange(0, st)) + new_block@ + unlines(gls.subrange(e, gls.len() as int))
        };
        assert(raw == spec_raw);
        assert(out@ == trim_trailing_newlines(spec_raw).push('\n'));
    }
    string_of(&out)
}

/// The note text after its score block is replaced by `block`: the
/// frontmatter rewritten by `replace_score_block_spec` between `---` lines,
/// then the body.
pub open spec fn rewrite_score_spec(content: Seq<char>, block: Seq<char>) -> Result<Seq<char>, FrontmatterError> {
    match split_frontmatter_spec(content) {
        Err(e) => Err(e),
        Ok((fm, body)) => Ok(seq!['-', '-', '-', '\n'] + replace_score_block_spec(fm, block)
            + seq!['-', '-', '-', '\n'] + body),
    }
}

/// The text a score write puts in place of a note: the same note with its
/// score block replaced by `new_block`.
pub fn rewrite_score(content: &str, new_block: &str) -> (r: Result<String, FrontmatterError>)
    ensures
        match r {
            Ok(t) => rewrite_score_spec(content@, new_block@) == Ok::<Seq<char>, FrontmatterError>(t@),
            Err(e) => rewrite_score_spec(content@, new_block@) == Err::<Seq<char>, FrontmatterError>(e),
        },
{
    let (fm, body) = match split_frontmatter(content) {
        Ok(parts) => parts,
        Err(e) => return Err(e),
    };
    let new_fm = replace_score_block(fm.as_str(), new_block);
    let mut v: Vec<char> = vec!['-', '-', '-', '\n'];
    extend_chars(&mut v, &chars_of(new_fm.as_str()));
    v.push('-');
    v.push('-');
    v.push('-');
    v.push('\n');
    extend_chars(&mut v, &chars_of(body.as_str()));
    proof {
        assert(v@ =~= seq!['-', '-', '-', '\n'] + new_fm@ + seq!['-', '-', '-', '\n'] + body@);
    }
    Ok(string_of(&v))
}

/// Whether the frontmatter still holds a Templater expression (`<%` or `%>`);
/// such notes are templates rather than entities.
pub open spec fn has_templater_marker_spec(frontmatter: Seq<char>) -> bool {
    exists|i: int| 0 <= i < frontmatter.len() - 1 && #[trigger] marker_at(frontmatter, i)
}

/// Whether `<%` or `%>` starts at position `i` of `s`.
pub open spec fn marker_at(s: Seq<char>, i: int) -> bool {
    (s[i] == '<' && s[i + 1] == '%') || (s[i] == '%' && s[i + 1] == '>')
}

/// Returns true when the frontmatter still contains a Templater expression.
pub fn has_unrendered_templater_marker(frontmatter: &str) -> (r: bool)
    ensures
        r == has_templater_marker_spec(frontmatter@),
{
    let v = chars_of(frontmatter);
    if v.len() < 2 {
        return false;
    }
    let mut i: usize = 0;
    while i + 1 < v.len()
        invariant
            i + 1 <= v@.len(),
            v@ == frontmatter@,
            forall|k: int| 0 <= k < i ==> !#[trigger] marker_at(v@, k),
        decreases v.len() - i,
    {
        if (v[i] == '<' && v[i + 1] == '%') || (v[i] == '%' && v[i + 1] == '>') {
            proof { assert(marker_at(frontmatter@, i as int)); }
            return true;
        }
        i = i + 1;
    }
    false
}


/// The first `]` of `s` at or after `p`, or `s.len()`.
pub open spec fn close_from(s: Seq<char>, p: int) -> int
    decreases s.len() - p,
{
    if p < 0 || p >= s.len() {
        s.len() as int
    } else if s[p] == ']' {
        p
    } else {
        close_from(s, p + 1)
    }
}

/// Whether `\[\[([^\]]+)\]\]` matches at `j`: `[[`, then a non-empty run
/// of characters other than `]`, then `]]`. The run is taken whole, since a
/// shorter one could not be followed by `]`.
pub open spec fn link_at(s: Seq<char>, j: int) -> bool {
    let k = close_from(s, j + 2);
    0 <= j && j + 1 < s.len() && s[j] == '[' && s[j + 1] == '[' && j + 2 < k && k + 1 < s.len()
        && s[k + 1] == ']'
}

/// The group-1 captures of the leftmost-first, non-overlapping matches of
/// `\[\[([^\]]+)\]\]` in `s` from `i` on: the first position where a
/// match starts gives its run, and the search goes on after the match.
pub open spec fn link_scan(s: Seq<char>, i: int) -> Seq<Seq<char>>
    decreases s.len() - i,
{
    if i < 0 || i >= s.len() {
        Seq::<Seq<char>>::empty()
    } else if link_at(s, i) {
        let k = close_from(s, i + 2);
        seq![s.subrange(i + 2, k)] + link_scan(s, k + 2)
    } else {
        link_scan(s, i + 1)
    }
}

/// The captures of `\[\[([^\]]+)\]\]` in `body`, in order.
pub open spec fn wiki_link_captures_spec(body: Seq<char>) -> Seq<Seq<char>> {
    link_scan(body, 0)
}

/// `regex::Regex::captures_iter` with `\[\[([^\]]+)\]\]`, group 1 of each
/// match. The contract claims that the matches are the leftmost-first,
/// non-overlapping ones (as the crate documents for `captures_iter`), and
/// that each capture is non-empty and free of `]`.
#[verifier::external_body]
fn wiki_link_captures(body: &str) -> (r: Vec<String>)
    ensures
        string_views(r@) == wiki_link_captures_spec(body@),
        forall|i: int| 0 <= i < r@.len() ==> (#[trigger] r@[i])@.len() > 0,
        forall|i: int, j: int| 0 <= i < r@.len() && 0 <= j < r@[i]@.len() ==> #[trigger] r@[i]@[j] != ']',
{
    let re = regex::Regex::new(r"\[\[([^\]]+)\]\]").unwrap();
    re.captures_iter(body).map(|c| c.get(1).unwrap().as_str().to_string()).collect()
}

/// The target of a wiki link: the text before any `|` alias and `#`
/// heading, trimmed.
pub open spec fn link_target(raw: Seq<char>) -> Seq<char> {
    trim(split_char(split_char(raw, '|')[0], '#')[0])
}

/// The non-empty link targets of `caps`, in order.
pub open spec fn link_targets(caps: Seq<Seq<char>>) -> Seq<Seq<char>>
    decreases caps.len(),
{
    if caps.len() == 0 {
        Seq::<Seq<char>>::empty()
    } else {
        let r = link_targets(caps.drop_last());
        if link_target(caps.last()).len() > 0 {
            r.push(link_target(caps.last()))
        } else {
            r
        }
    }
}

/// The prefix of `s` before the first `c`: `split_char(s, c)[0]`.
fn before_char(s: &[char], c: char) -> (r: Vec<char>)
    ensures
        r@ == split_char(s@, c)[0],
{
    let mut r: Vec<char> = Vec::new();
    let mut i: usize = 0;
    while i < s.len() && s[i] != c
        invariant
            i <= s@.len(),
            r@ =~= s@.take(i as int),
            forall|k: int| 0 <= k < i ==> s@[k] != c,
        decreases s.len() - i,
    {
        r.push(s[i]);
        i = i + 1;
    }
    proof { lemma_split_first(s@, c, i as int); }
    r
}

proof fn lemma_split_no_sep(s: Seq<char>, c: char)
    requires
        forall|k: int| 0 <= k < s.len() ==> s[k] != c,
    ensures
        split_char(s, c) == seq![s],
    decreases s.len(),
{
    if s.len() > 0 {
        lemma_split_no_sep(s.drop_last(), c);
        assert(s.drop_last().push(s.last()) =~= s);
        assert(split_char(s, c) =~= seq![s]);
    } else {
        assert(s =~= Seq::<char>::empty());
    }
}

proof fn lemma_split_first_stable(t: Seq<char>, w: Seq<char>, c: char)
    requires
        split_char(t, c).len() >= 2,
    ensures
        split_char(t + w, c).len() >= 2,
        split_char(t + w, c)[0] == split_char(t, c)[0],
    decreases w.len(),
{
    if w.len() > 0 {
        lemma_split_first_stable(t, w.drop_last(), c);
        assert((t + w).drop_last() =~= t + w.drop_last());
    } else {
        assert(t + w =~= t);
    }
}

proof fn lemma_split_first(s: Seq<char>, c: char, i: int)
    requires
        0 <= i <= s.len(),
        forall|k: int| 0 <= k < i ==> s[k] != c,
        i == s.len() || s[i] == c,
    ensures
        split_char(s, c)[0] == s.take(i),
{
    if i == s.len() {
        lemma_split_no_sep(s, c);
        assert(s.take(i) =~= s);
    } else {
        let t = s.take(i + 1);
        assert(t.drop_last() =~= s.take(i));
        lemma_split_no_sep(s.take(i), c);
        assert(split_char(t, c) =~= seq![s.take(i), Seq::<char>::empty()]);
        lemma_split_first_stable(t, s.skip(i + 1), c);
        assert(t + s.skip(i + 1) =~= s);
    }
}

/// The `[[target]]` wiki links of a body, aliases (`|`) and headings (`#`)
/// removed, empty targets skipped, in order of appearance.
pub fn extract_refs(body: &str) -> (r: Vec<String>)
    ensures
        string_views(r@) == link_targets(wiki_link_captures_spec(body@)),
{
    let caps = wiki_link_captures(body);
    let ghost gcaps = string_views(caps@);
    let mut out: Vec<String> = Vec::new();
    let mut i: usize = 0;
    proof { assert(gcaps.take(0) =~= Seq::<Seq<char>>::empty()); }
    while i < caps.len()
        invariant
            i <= caps@.len(),
            gcaps == string_views(caps@),
            string_views(out@) == link_targets(gcaps.take(i as int)),
        decreases caps.len() - i,
    {
        let raw = chars_of(caps[i].as_str());
        let a = before_char(&raw, '|');
        let b = before_char(&a, '#');
        let t = trim_chars(&b);
        proof {
            assert(gcaps.take(i + 1).drop_last() =~= gcaps.take(i as int));
            assert(gcaps.take(i + 1).last() == caps@[i as int]@);
        }
        if t.len() > 0 {
            let ghost before = string_views(out@);
            out.push(string_of(&t));
            proof { assert(string_views(out@) =~= before.push(t@)); }
        }
        i = i + 1;
    }
    proof { assert(gcaps.take(caps@.len() as int) =~= gcaps); }
    out
}

// ---------------------------------------------------------------- YAML fields

/// What a frontmatter key holds: nothing, a value that is not a string, or
/// a string.
#[derive(Debug, Clone, PartialEq, Eq)]
pub enum YamlEntry {
    Absent,
    NotString,
    Str(String),
}

/// A `YamlEntry` with its text as characters.
pub ghost enum YamlEntryView {
    Absent,
    NotString,
    Str(Seq<char>),
}

/// The view of an entry.
pub open spec fn yaml_entry_view(e: YamlEntry) -> YamlEntryView {
    match e {
        YamlEntry::Absent => YamlEntryView::Absent,
        YamlEntry::NotString => YamlEntryView::NotString,
        YamlEntry::Str(s) => YamlEntryView::Str(s@),
    }
}

/// What the key holds in the frontmatter read as YAML, or `None` when the
/// text is not YAML or not a mapping (a name for what `serde_yaml::from_str`
/// followed by a lookup of the key gives).
pub uninterp spec fn yaml_entry_spec(frontmatter: Seq<char>, key: Seq<char>) -> Option<YamlEntryView>;

/// `serde_yaml::from_str` of the frontmatter as a `Value`, then
/// `Mapping::get` of the key and `Value::as_str`. The contract claims that
/// the result depends on the frontmatter and the key alone.
#[verifier::external_body]
pub(crate) fn yaml_entry(frontmatter: &str, key: &str) -> (r: Option<YamlEntry>)
    ensures
        match r {
            Some(e) => yaml_entry_spec(frontmatter@, key@) == Some(yaml_entry_view(e)),
            None => yaml_entry_spec(frontmatter@, key@) is None,
        },
{
    let Ok(value) = serde_yaml::from_str::<serde_yaml::Value>(frontmatter) else { return None };
    let mapping = value.as_mapping()?;
    Some(match mapping.get(serde_yaml::Value::String(key.to_string())) {
        None => YamlEntry::Absent,
        Some(v) => match v.as_str() {
            Some(s) => YamlEntry::Str(s.to_string()),
            None => YamlEntry::NotString,
        },
    })
}

/// The value of a frontmatter key when it is a string; `None` when the text
/// is not a YAML mapping, the key is absent, or its value is not a string.
pub open spec fn yaml_scalar_spec(frontmatter: Seq<char>, key: Seq<char>) -> Option<Seq<char>> {
    match yaml_entry_spec(frontmatter, key) {
        Some(YamlEntryView::Str(s)) => Some(s),
        _ => None,
    }
}

/// The value of a frontmatter key when it is a string.
pub fn yaml_scalar(frontmatter: &str, key: &str) -> (r: Option<String>)
    ensures
        opt_view(r) == yaml_scalar_spec(frontmatter@, key@),
{
    match yaml_entry(frontmatter, key) {
        Some(YamlEntry::Str(s)) => Some(s),
        _ => None,
    }
}

/// When a note's content last changed, as its frontmatter says: the
/// `content_updated_at` string; when that key is absent, the `updated_at`
/// string; nothing when the key read holds no string. A frontmatter that is
/// not a YAML mapping is an error.
pub open spec fn content_updated_at_spec(frontmatter: Seq<char>) -> Result<Option<Seq<char>>, FrontmatterError> {
    match yaml_entry_spec(frontmatter, "content_updated_at"@) {
        None => Err(FrontmatterError::NotYamlMapping),
        Some(YamlEntryView::Str(s)) => Ok(Some(s)),
        Some(YamlEntryView::NotString) => Ok(None),
        Some(YamlEntryView::Absent) => Ok(yaml_scalar_spec(frontmatter, "updated_at"@)),
    }
}

/// The note's `content_updated_at` value, or its `updated_at` value when the
/// former is absent.
pub fn content_updated_at(frontmatter: &str) -> (r: Result<Option<String>, FrontmatterError>)
    ensures
        match r {
            Ok(o) => content_updated_at_spec(frontmatter@) == Ok::<Option<Seq<char>>, FrontmatterError>(opt_view(o)),
            Err(e) => content_updated_at_spec(frontmatter@) == Err::<Option<Seq<char>>, FrontmatterError>(e),
        },
{
    match yaml_entry(frontmatter, "content_updated_at") {
        None => Err(FrontmatterError::NotYamlMapping),
        Some(YamlEntry::Str(s)) => Ok(Some(s)),
        Some(YamlEntry::NotString) => Ok(None),
        Some(YamlEntry::Absent) => Ok(yaml_scalar(frontmatter, "updated_at")),
    }
}

/// The index fields a note's frontmatter gives: its `id`, and its `title`,
/// `layer` and `status` where they are strings.
#[derive(Debug, Clone, PartialEq, Eq)]
pub struct EntityFields {
    pub id: String,
    pub title: Option<String>,
    pub layer: Option<String>,
    pub status: Option<String>,
}

/// The fields as characters: id, title, layer, status.
pub open spec fn entity_fields_view(f: EntityFields) -> (Seq<char>, Option<Seq<char>>, Option<Seq<char>>, Option<Seq<char>>) {
    (f.id@, opt_view(f.title), opt_view(f.layer), opt_view(f.status))
}

/// The index fields of a frontmatter: an error when it is not a YAML
/// mapping; nothing when its `id` is not a string (such a note is not an
/// entity); else the id and the string values of `title`, `layer` and
/// `status`.
pub open spec fn entity_fields_spec(frontmatter: Seq<char>)
    -> Result<Option<(Seq<char>, Option<Seq<char>>, Option<Seq<char>>, Option<Seq<char>>)>, FrontmatterError> {
    match yaml_entry_spec(frontmatter, "id"@) {
        None => Err(FrontmatterError::NotYamlMapping),
        Some(YamlEntryView::Str(id)) => Ok(Some((
            id,
            yaml_scalar_spec(frontmatter, "title"@),
            yaml_scalar_spec(frontmatter, "layer"@),
            yaml_scalar_spec(frontmatter, "status"@),
        ))),
        Some(_) => Ok(None),
    }
}

/// Reads the index fields of a note's frontmatter; `Ok(None)` when the note
/// has no string `id`.
pub fn entity_fields(frontmatter: &str) -> (r: Result<Option<EntityFields>, FrontmatterError>)
    ensures
        match r {
            Ok(Some(f)) => entity_fields_spec(frontmatter@) == Ok::<_, FrontmatterError>(Some(entity_fields_view(f))),
            Ok(None) => entity_fields_spec(frontmatter@) == Ok::<Option<(Seq<char>, Option<Seq<char>>, Option<Seq<char>>, Option<Seq<char>>)>, FrontmatterError>(None),
            Err(e) => entity_fields_spec(frontmatter@) == Err::<Option<(Seq<char>, Option<Seq<char>>, Option<Seq<char>>, Option<Seq<char>>)>, FrontmatterError>(e),
        },
{
    match yaml_entry(frontmatter, "id") {
        None => Err(FrontmatterError::NotYamlMapping),
        Some(YamlEntry::Str(id)) => Ok(Some(EntityFields {
            id,
            title: yaml_scalar(frontmatter, "title"),
            layer: yaml_scalar(frontmatter, "layer"),
            status: yaml_scalar(frontmatter, "status"),
        })),
        Some(_) => Ok(None),
    }
}

} // verus!
