//! Character-level helpers shared by the text-processing modules.
//!
//! Text is modelled as `Seq<char>`; executable code works on `Vec<char>` and
//! converts to and from `String` at the edges.
use vstd::prelude::*;

verus! {

/// Appends one character to a string (`String::push`).
#[verifier::external_body]
pub(crate) fn push_char(s: &mut String, c: char)
    ensures
        final(s)@ == old(s)@.push(c),
{
    s.push(c);
}

/// The characters of a string slice, in order.
pub fn chars_of(s: &str) -> (v: Vec<char>)
    ensures
        v@ == s@,
{
    let mut v: Vec<char> = Vec::new();
    for c in it: s.chars()
        invariant
            v@ == it.seq().take(it.index() as int),
            it.seq() == s@,
    {
        v.push(c);
    }
    v
}

/// Appends the characters of `s` to `r`.
pub fn extend_chars(r: &mut Vec<char>, s: &[char])
    ensures
        final(r)@ == old(r)@ + s@,
{
    let mut i: usize = 0;
    while i < s.len()
        invariant
            i <= s@.len(),
            r@ == old(r)@ + s@.take(i as int),
        decreases s.len() - i,
    {
        r.push(s[i]);
        proof { assert(old(r)@ + s@.take(i + 1) =~= (old(r)@ + s@.take(i as int)).push(s@[i as int])); }
        i = i + 1;
    }
    proof { assert(s@.take(s@.len() as int) =~= s@); }
}

/// A fresh vector holding the characters of `v`.
pub fn copy_chars(v: &[char]) -> (r: Vec<char>)
    ensures
        r@ == v@,
{
    let mut r: Vec<char> = Vec::new();
    extend_chars(&mut r, v);
    proof { assert(Seq::<char>::empty() + v@ =~= v@); }
    r
}

/// Whether two character slices are equal.
pub fn eq_chars(a: &[char], b: &[char]) -> (r: bool)
    ensures
        r == (a@ == b@),
{
    if a.len() != b.len() {
        return false;
    }
    let mut i: usize = 0;
    while i < a.len()
        invariant
            i <= a@.len(),
            a@.len() == b@.len(),
            forall|k: int| 0 <= k < i ==> a@[k] == b@[k],
        decreases a.len() - i,
    {
        if a[i] != b[i] {
            return false;
        }
        i = i + 1;
    }
    proof { assert(a@ =~= b@); }
    true
}

/// Whether `s` begins with `prefix`.
pub open spec fn starts_with(s: Seq<char>, prefix: Seq<char>) -> bool {
    prefix.len() <= s.len() && s.take(prefix.len() as int) == prefix
}

/// Executable `starts_with`.
pub fn starts_with_chars(s: &[char], prefix: &[char]) -> (r: bool)
    ensures
        r == starts_with(s@, prefix@),
{
    if prefix.len() > s.len() {
        return false;
    }
    let mut i: usize = 0;
    while i < prefix.len()
        invariant
            i <= prefix@.len() <= s@.len(),
            forall|k: int| 0 <= k < i ==> s@[k] == prefix@[k],
        decreases prefix.len() - i,
    {
        if s[i] != prefix[i] {
            proof { assert(s@.take(prefix@.len() as int)[i as int] != prefix@[i as int]); }
            return false;
        }
        i = i + 1;
    }
    proof { assert(s@.take(prefix@.len() as int) =~= prefix@); }
    true
}

/// Builds a string from a slice of characters.
pub fn string_of(v: &[char]) -> (s: String)
    ensures
        s@ == v@,
{
    let mut s = String::new();
    let mut i: usize = 0;
    while i < v.len()
        invariant
            i <= v@.len(),
            s@ == v@.take(i as int),
        decreases v.len() - i,
    {
        push_char(&mut s, v[i]);
        proof {
            assert(v@.take(i as int + 1) =~= v@.take(i as int).push(v@[i as int]));
        }
        i = i + 1;
    }
    proof {
        assert(v@.take(v@.len() as int) =~= v@);
    }
    s
}

/// The Unicode `White_Space` property, which `char::is_whitespace` tests.
pub open spec fn is_ws(c: char) -> bool {
    let u = c as u32;
    (0x9 <= u && u <= 0xd) || u == 0x20 || u == 0x85 || u == 0xa0 || u == 0x1680
        || (0x2000 <= u && u <= 0x200a) || u == 0x2028 || u == 0x2029 || u == 0x202f
        || u == 0x205f || u == 0x3000
}

/// Executable `char::is_whitespace`.
pub fn is_whitespace(c: char) -> (b: bool)
    ensures
        b == is_ws(c),
{
    let u = c as u32;
    (0x9 <= u && u <= 0xd) || u == 0x20 || u == 0x85 || u == 0xa0 || u == 0x1680
        || (0x2000 <= u && u <= 0x200a) || u == 0x2028 || u == 0x2029 || u == 0x202f
        || u == 0x205f || u == 0x3000
}

/// `s` with its leading whitespace removed (`str::trim_start`).
pub open spec fn trim_start(s: Seq<char>) -> Seq<char>
    decreases s.len(),
{
    if s.len() > 0 && is_ws(s[0]) {
        trim_start(s.drop_first())
    } else {
        s
    }
}

/// `s` with its trailing whitespace removed (`str::trim_end`).
pub open spec fn trim_end(s: Seq<char>) -> Seq<char>
    decreases s.len(),
{
    if s.len() > 0 && is_ws(s.last()) {
        trim_end(s.drop_last())
    } else {
        s
    }
}

/// `s` with leading and trailing whitespace removed (`str::trim`).
pub open spec fn trim(s: Seq<char>) -> Seq<char> {
    trim_end(trim_start(s))
}

proof fn lemma_trim_start_skip(s: Seq<char>, i: int)
    requires
        0 <= i <= s.len(),
        forall|k: int| 0 <= k < i ==> is_ws(#[trigger] s[k]),
    ensures
        trim_start(s) == trim_start(s.skip(i)),
    decreases i,
{
    if i > 0 {
        assert(s.drop_first().skip(i - 1) =~= s.skip(i));
        lemma_trim_start_skip(s.drop_first(), i - 1);
    } else {
        assert(s.skip(0) =~= s);
    }
}

proof fn lemma_trim_end_take(s: Seq<char>, j: int)
    requires
        0 <= j <= s.len(),
        forall|k: int| j <= k < s.len() ==> is_ws(#[trigger] s[k]),
    ensures
        trim_end(s) == trim_end(s.take(j)),
    decreases s.len() - j,
{
    if j < s.len() {
        assert(s.drop_last().take(j) =~= s.take(j));
        lemma_trim_end_take(s.drop_last(), j);
    } else {
        assert(s.take(j) =~= s);
    }
}

proof fn lemma_trim_start_first(s: Seq<char>)
    ensures
        trim_start(s).len() > 0 ==> !is_ws(trim_start(s)[0]),
    decreases s.len(),
{
    if s.len() > 0 && is_ws(s[0]) {
        lemma_trim_start_first(s.drop_first());
    }
}

proof fn lemma_trim_end_prefix(s: Seq<char>)
    ensures
        trim_end(s).len() <= s.len(),
        trim_end(s) =~= s.take(trim_end(s).len() as int),
        trim_end(s).len() > 0 ==> !is_ws(trim_end(s).last()),
    decreases s.len(),
{
    if s.len() > 0 && is_ws(s.last()) {
        lemma_trim_end_prefix(s.drop_last());
        assert(s.drop_last().take(trim_end(s).len() as int) =~= s.take(trim_end(s).len() as int));
    } else {
        assert(s.take(s.len() as int) =~= s);
    }
}

/// Trimming a trimmed text changes nothing.
pub proof fn lemma_trim_idempotent(s: Seq<char>)
    ensures
        trim(trim(s)) == trim(s),
{
    let t = trim_start(s);
    let u = trim_end(t);
    lemma_trim_start_first(s);
    lemma_trim_end_prefix(t);
    if u.len() > 0 {
        assert(u[0] == t[0]);
        assert(trim_start(u) == u);
        assert(trim_end(u) == u);
    } else {
        assert(trim_start(u) == u);
        assert(trim_end(u) == u);
    }
}

/// Executable `trim` over a character slice.
pub fn trim_chars(v: &[char]) -> (r: Vec<char>)
    ensures
        r@ == trim(v@),
{
    let mut i: usize = 0;
    while i < v.len() && is_whitespace(v[i])
        invariant
            i <= v@.len(),
            forall|k: int| 0 <= k < i ==> is_ws(#[trigger] v@[k]),
        decreases v.len() - i,
    {
        i = i + 1;
    }
    proof {
        lemma_trim_start_skip(v@, i as int);
    }
    let ghost t = v@.skip(i as int);
    assert(t.len() == 0 || !is_ws(t[0]));
    assert(trim_start(v@) == t);
    let mut j: usize = v.len();
    while j > i && is_whitespace(v[j - 1])
        invariant
            i <= j <= v@.len(),
            t == v@.skip(i as int),
            forall|k: int| j <= k < v@.len() ==> is_ws(#[trigger] v@[k]),
        decreases j,
    {
        j = j - 1;
    }
    proof {
        lemma_trim_end_take(t, j - i);
        assert(t.take(j - i) =~= v@.subrange(i as int, j as int));
    }
    let mut r: Vec<char> = Vec::new();
    let mut k: usize = i;
    while k < j
        invariant
            i <= k <= j <= v@.len(),
            r@ == v@.subrange(i as int, k as int),
        decreases j - k,
    {
        r.push(v[k]);
        proof {
            assert(v@.subrange(i as int, k + 1) =~= v@.subrange(i as int, k as int).push(v@[k as int]));
        }
        k = k + 1;
    }
    r
}


/// Splits `s` at every occurrence of `sep` (`str::split` with a char pattern).
/// The result always holds at least one piece.
pub open spec fn split_char(s: Seq<char>, sep: char) -> Seq<Seq<char>>
    decreases s.len(),
{
    if s.len() == 0 {
        seq![Seq::<char>::empty()]
    } else {
        let r = split_char(s.drop_last(), sep);
        if s.last() == sep {
            r.push(Seq::<char>::empty())
        } else {
            r.update(r.len() - 1, r.last().push(s.last()))
        }
    }
}

pub proof fn lemma_split_char_nonempty(s: Seq<char>, sep: char)
    ensures
        split_char(s, sep).len() >= 1,
    decreases s.len(),
{
    if s.len() > 0 {
        lemma_split_char_nonempty(s.drop_last(), sep);
    }
}

/// Splitting at a separator splits the two sides of it apart.
pub proof fn lemma_split_char_concat(a: Seq<char>, b: Seq<char>, sep: char)
    ensures
        split_char(a + seq![sep] + b, sep) == split_char(a, sep) + split_char(b, sep),
    decreases b.len(),
{
    let x = a + seq![sep] + b;
    if b.len() == 0 {
        assert(x.drop_last() =~= a);
        assert(split_char(b, sep) =~= seq![Seq::<char>::empty()]);
        assert(split_char(x, sep) =~= split_char(a, sep) + split_char(b, sep));
    } else {
        let b2 = b.drop_last();
        lemma_split_char_concat(a, b2, sep);
        assert(x.drop_last() =~= a + seq![sep] + b2);
        lemma_split_char_nonempty(b2, sep);
        let ra = split_char(a, sep);
        let rb = split_char(b2, sep);
        if b.last() == sep {
            assert(split_char(x, sep) =~= ra + rb.push(Seq::<char>::empty()));
        } else {
            let r = ra + rb;
            assert(r.update(r.len() - 1, r.last().push(b.last()))
                =~= ra + rb.update(rb.len() - 1, rb.last().push(b.last())));
        }
    }
}

/// Whether no line of `ls` holds `c`.
pub open spec fn lines_without(ls: Seq<Seq<char>>, c: char) -> bool {
    forall|k: int, j: int| 0 <= k < ls.len() && 0 <= j < ls[k].len() ==> #[trigger] ls[k][j] != c
}

proof fn lemma_split_single(s: Seq<char>, c: char)
    requires
        forall|j: int| 0 <= j < s.len() ==> s[j] != c,
    ensures
        split_char(s, c) == seq![s],
    decreases s.len(),
{
    if s.len() > 0 {
        lemma_split_single(s.drop_last(), c);
        assert(s.drop_last().push(s.last()) =~= s);
        assert(split_char(s, c) =~= seq![s]);
    } else {
        assert(s =~= Seq::<char>::empty());
    }
}

/// Joining lines without the separator and splitting again gives the lines.
pub proof fn lemma_split_join(ls: Seq<Seq<char>>, c: char)
    requires
        ls.len() >= 1,
        lines_without(ls, c),
    ensures
        split_char(join(ls, seq![c]), c) == ls,
    decreases ls.len(),
{
    if ls.len() == 1 {
        assert forall|j: int| 0 <= j < ls[0].len() implies ls[0][j] != c by {
            assert(ls[0][j] != c);
        }
        lemma_split_single(ls[0], c);
        assert(seq![ls[0]] =~= ls);
    } else {
        let init = ls.drop_last();
        assert(lines_without(init, c)) by {
            assert forall|k: int, j: int| 0 <= k < init.len() && 0 <= j < init[k].len() implies #[trigger] init[k][j] != c by {
                assert(init[k] == ls[k]);
            }
        }
        lemma_split_join(init, c);
        let l = ls.last();
        assert forall|j: int| 0 <= j < l.len() implies l[j] != c by {
            assert(ls[ls.len() - 1][j] != c);
        }
        lemma_split_single(l, c);
        lemma_split_char_concat(join(init, seq![c]), l, c);
        assert(init + seq![l] =~= ls);
    }
}

/// Whether `s` holds the character `c` nowhere.
pub open spec fn text_without(s: Seq<char>, c: char) -> bool {
    forall|j: int| 0 <= j < s.len() ==> s[j] != c
}

/// Joining the pieces of a split with the separator gives the text back.
pub proof fn lemma_join_split(s: Seq<char>, c: char)
    ensures
        join(split_char(s, c), seq![c]) == s,
    decreases s.len(),
{
    if s.len() > 0 {
        let s2 = s.drop_last();
        lemma_join_split(s2, c);
        lemma_split_char_nonempty(s2, c);
        let r = split_char(s2, c);
        if s.last() == c {
            let q = r.push(Seq::<char>::empty());
            assert(q.drop_last() =~= r);
            assert(join(q, seq![c]) =~= s2 + seq![c]);
            assert(s2 + seq![c] =~= s);
        } else {
            let q = r.update(r.len() - 1, r.last().push(s.last()));
            if r.len() == 1 {
                assert(join(r, seq![c]) == r[0]);
                assert(join(q, seq![c]) == q[0]);
                assert(q[0] =~= s);
            } else {
                assert(q.drop_last() =~= r.drop_last());
                assert(join(r, seq![c]) == join(r.drop_last(), seq![c]) + seq![c] + r.last());
                assert(join(q, seq![c]) =~= join(r.drop_last(), seq![c]) + seq![c] + r.last().push(s.last()));
                assert(s2.push(s.last()) =~= s);
                assert(join(q, seq![c]) =~= s);
            }
        }
    }
}

/// The pieces of a split hold neither the separator nor a character the
/// text does not hold.
pub proof fn lemma_split_pieces_without(s: Seq<char>, c: char, d: char)
    requires
        text_without(s, d),
    ensures
        lines_without(split_char(s, c), c),
        lines_without(split_char(s, c), d),
    decreases s.len(),
{
    if s.len() > 0 {
        let s2 = s.drop_last();
        assert(text_without(s2, d)) by {
            assert forall|j: int| 0 <= j < s2.len() implies s2[j] != d by {
                assert(s2[j] == s[j]);
            }
        }
        lemma_split_pieces_without(s2, c, d);
        lemma_split_char_nonempty(s2, c);
        let r = split_char(s2, c);
        let q = split_char(s, c);
        assert(s.last() == s[s.len() - 1]);
        assert forall|k: int, j: int| 0 <= k < q.len() && 0 <= j < q[k].len() implies #[trigger] q[k][j] != c && q[k][j] != d by {
            if s.last() == c {
                if k < r.len() {
                    assert(q[k] == r[k]);
                    assert(r[k][j] != c && r[k][j] != d);
                }
            } else {
                if k < r.len() - 1 {
                    assert(q[k] == r[k]);
                    assert(r[k][j] != c && r[k][j] != d);
                } else {
                    assert(q[k] == r.last().push(s.last()));
                    if j < r.last().len() {
                        assert(r[r.len() - 1][j] != c && r[r.len() - 1][j] != d);
                    }
                }
            }
        }
    } else {
        assert(split_char(s, c) =~= seq![Seq::<char>::empty()]);
    }
}

/// `unlines` is the lines, with an empty one after them, joined by `\n`.
pub proof fn lemma_unlines_join(ls: Seq<Seq<char>>)
    ensures
        unlines(ls) == join(ls.push(Seq::<char>::empty()), seq!['\n']),
    decreases ls.len(),
{
    let e = Seq::<char>::empty();
    if ls.len() == 0 {
        assert(ls.push(e) =~= seq![e]);
    } else {
        let init = ls.drop_last();
        lemma_unlines_join(init);
        assert(ls.push(e).drop_last() =~= ls);
        if init.len() == 0 {
            assert(join(ls, seq!['\n']) == ls[0]);
            assert(init.push(e) =~= seq![e]);
            assert(unlines(ls) =~= ls.last() + seq!['\n']);
            assert(join(ls.push(e), seq!['\n']) =~= ls[0] + seq!['\n'] + e);
        } else {
            assert(init.push(e).drop_last() =~= init);
            assert(ls.drop_last() =~= init);
            assert(join(init.push(e), seq!['\n']) =~= join(init, seq!['\n']) + seq!['\n']);
            assert(unlines(ls) =~= join(init, seq!['\n']) + seq!['\n'] + ls.last() + seq!['\n']);
            assert(join(ls, seq!['\n']) == join(init, seq!['\n']) + seq!['\n'] + ls.last());
            assert(join(ls.push(e), seq!['\n']) == join(ls, seq!['\n']) + seq!['\n'] + e);
            assert(join(ls.push(e), seq!['\n']) =~= join(init, seq!['\n']) + seq!['\n'] + ls.last() + seq!['\n'] + e);
        }
    }
}

/// The lines of a text made by `unlines` are the lines it was made of.
pub proof fn lemma_lines_unlines(ls: Seq<Seq<char>>)
    requires
        lines_without(ls, '\n'),
        lines_without(ls, '\r'),
    ensures
        lines(unlines(ls)) == ls,
{
    let e = Seq::<char>::empty();
    if ls.len() > 0 {
        let q = ls.push(e);
        assert(lines_without(q, '\n')) by {
            assert forall|k: int, j: int| 0 <= k < q.len() && 0 <= j < q[k].len() implies #[trigger] q[k][j] != '\n' by {
                assert(q[k] == ls[k]);
            }
        }
        lemma_unlines_join(ls);
        lemma_split_join(q, '\n');
        let s = unlines(ls);
        assert(s == unlines(ls.drop_last()) + ls.last() + seq!['\n']);
        assert(s.last() == '\n');
        assert(q.drop_last() =~= ls);
        assert forall|k: int| 0 <= k < ls.len() implies strip_cr(#[trigger] ls[k]) == ls[k] by {
            if ls[k].len() > 0 {
                assert(ls[k][ls[k].len() - 1] != '\r');
            }
        }
        assert(ls.map_values(|x: Seq<char>| strip_cr(x)) =~= ls);
    } else {
        assert(unlines(ls) =~= Seq::<char>::empty());
    }
}

/// The lines of a text without `\r`, each followed by `\n`, give the text
/// back, with a final `\n` where it had none.
pub proof fn lemma_unlines_lines(s: Seq<char>)
    requires
        text_without(s, '\r'),
    ensures
        unlines(lines(s)) == if s.len() == 0 || s.last() == '\n' { s } else { s.push('\n') },
{
    if s.len() > 0 {
        let p = split_char(s, '\n');
        lemma_split_char_nonempty(s, '\n');
        lemma_split_pieces_without(s, '\n', '\r');
        lemma_join_split(s, '\n');
        assert forall|k: int| 0 <= k < p.len() implies strip_cr(#[trigger] p[k]) == p[k] by {
            if p[k].len() > 0 {
                assert(p[k][p[k].len() - 1] != '\r');
            }
        }
        assert(p.drop_last().map_values(|x: Seq<char>| strip_cr(x)) =~= p.drop_last());
        if s.last() == '\n' {
            assert(s.drop_last().push(s.last()) =~= s);
            assert(p == split_char(s.drop_last(), '\n').push(Seq::<char>::empty()));
            lemma_unlines_join(p.drop_last());
            assert(p.drop_last().push(Seq::<char>::empty()) =~= p);
        } else {
            assert(p.drop_last().push(p.last()) =~= p);
            lemma_unlines_join(p);
            if p.len() == 1 {
                assert(p.push(Seq::<char>::empty()).drop_last() =~= p);
                assert(join(p.push(Seq::<char>::empty()), seq!['\n']) =~= join(p, seq!['\n']) + seq!['\n'] + Seq::<char>::empty());
            } else {
                assert(p.push(Seq::<char>::empty()).drop_last() =~= p);
                assert(join(p.push(Seq::<char>::empty()), seq!['\n']) =~= join(p, seq!['\n']) + seq!['\n'] + Seq::<char>::empty());
            }
        }
    }
}

/// The lines without the empty lines at their end.
pub open spec fn drop_trailing_empty(ls: Seq<Seq<char>>) -> Seq<Seq<char>>
    decreases ls.len(),
{
    if ls.len() > 0 && ls.last().len() == 0 {
        drop_trailing_empty(ls.drop_last())
    } else {
        ls
    }
}

/// Dropping the empty lines at the end twice drops nothing more.
pub proof fn lemma_drop_trailing_idempotent(ls: Seq<Seq<char>>)
    ensures
        drop_trailing_empty(drop_trailing_empty(ls)) == drop_trailing_empty(ls),
    decreases ls.len(),
{
    if ls.len() > 0 && ls.last().len() == 0 {
        lemma_drop_trailing_idempotent(ls.drop_last());
    }
}

/// A run of lines keeps its text when its trailing line breaks go and one
/// comes back, as `unlines` of the run without its empty last lines.
pub proof fn lemma_trim_unlines(ls: Seq<Seq<char>>)
    requires
        drop_trailing_empty(ls).len() > 0,
        lines_without(ls, '\n'),
    ensures
        trim_trailing_newlines(unlines(ls)).push('\n') == unlines(drop_trailing_empty(ls)),
    decreases ls.len(),
{
    let init = ls.drop_last();
    let l = ls.last();
    let u = unlines(ls);
    assert(u == unlines(init) + l + seq!['\n']);
    assert(u.drop_last() =~= unlines(init) + l);
    if l.len() == 0 {
        assert(lines_without(init, '\n')) by {
            assert forall|k: int, j: int| 0 <= k < init.len() && 0 <= j < init[k].len() implies #[trigger] init[k][j] != '\n' by {
                assert(init[k] == ls[k]);
            }
        }
        assert(unlines(init) + l =~= unlines(init));
        lemma_trim_unlines(init);
    } else {
        let v = unlines(init) + l;
        assert(v.last() == l[l.len() - 1]);
        assert(ls[ls.len() - 1][l.len() - 1] != '\n');
        assert(trim_trailing_newlines(v) == v);
        assert(v.push('\n') =~= u);
    }
}

/// Dropping the empty lines at the end keeps a leading run of the lines;
/// what it keeps, if anything, ends in a non-empty line, and it keeps
/// something when the first line is not empty.
pub proof fn lemma_drop_trailing_prefix(ls: Seq<Seq<char>>)
    ensures
        drop_trailing_empty(ls).len() <= ls.len(),
        drop_trailing_empty(ls) == ls.take(drop_trailing_empty(ls).len() as int),
        drop_trailing_empty(ls).len() > 0 ==> drop_trailing_empty(ls).last().len() > 0,
        ls.len() > 0 && ls[0].len() > 0 ==> drop_trailing_empty(ls).len() > 0,
    decreases ls.len(),
{
    if ls.len() > 0 && ls.last().len() == 0 {
        let init = ls.drop_last();
        lemma_drop_trailing_prefix(init);
        let n = drop_trailing_empty(init).len() as int;
        assert(init.take(n) =~= ls.take(n));
        if ls.len() > 1 {
            assert(init[0] == ls[0]);
        }
    } else {
        assert(ls.take(ls.len() as int) =~= ls);
    }
}

/// The lines of a text without `\r` hold neither `\n` nor `\r`.
pub proof fn lemma_lines_without(s: Seq<char>)
    requires
        text_without(s, '\r'),
    ensures
        lines_without(lines(s), '\n'),
        lines_without(lines(s), '\r'),
{
    if s.len() > 0 {
        let p = split_char(s, '\n');
        lemma_split_char_nonempty(s, '\n');
        lemma_split_pieces_without(s, '\n', '\r');
        assert forall|k: int| 0 <= k < p.len() implies strip_cr(#[trigger] p[k]) == p[k] by {
            if p[k].len() > 0 {
                assert(p[k][p[k].len() - 1] != '\r');
            }
        }
        assert(p.drop_last().map_values(|x: Seq<char>| strip_cr(x)) =~= p.drop_last());
        assert(p.drop_last().push(p.last()) =~= p);
        let l = lines(s);
        assert forall|k: int, j: int| 0 <= k < l.len() && 0 <= j < l[k].len() implies #[trigger] l[k][j] != '\n' && l[k][j] != '\r' by {
            assert(l[k] == p[k]);
        }
    }
}

/// Trimming trailing line breaks keeps a leading run of the text, after
/// which there are only line breaks, and the run does not end in one.
pub proof fn lemma_trim_newlines_prefix(s: Seq<char>)
    ensures
        trim_trailing_newlines(s).len() <= s.len(),
        trim_trailing_newlines(s) == s.take(trim_trailing_newlines(s).len() as int),
        forall|k: int| trim_trailing_newlines(s).len() <= k < s.len() ==> s[k] == '\n',
        trim_trailing_newlines(s).len() > 0 ==> trim_trailing_newlines(s).last() != '\n',
    decreases s.len(),
{
    if s.len() > 0 && s.last() == '\n' {
        let init = s.drop_last();
        lemma_trim_newlines_prefix(init);
        let n = trim_trailing_newlines(init).len() as int;
        assert(init.take(n) =~= s.take(n));
        assert forall|k: int| n <= k < s.len() implies s[k] == '\n' by {
            if k < init.len() {
                assert(s[k] == init[k]);
            }
        }
    } else {
        assert(s.take(s.len() as int) =~= s);
    }
}

/// Trimming trailing line breaks of a text that goes on after `x` touches
/// only what follows `x`, when something of it stays.
pub proof fn lemma_trim_newlines_concat(x: Seq<char>, y: Seq<char>)
    requires
        trim_trailing_newlines(y).len() > 0,
    ensures
        trim_trailing_newlines(x + y) == x + trim_trailing_newlines(y),
    decreases y.len(),
{
    assert((x + y).last() == y.last());
    if y.last() == '\n' {
        assert((x + y).drop_last() =~= x + y.drop_last());
        lemma_trim_newlines_concat(x, y.drop_last());
    }
}

/// The lines of two texts one after the other, when the first is empty or
/// ends its last line.
pub proof fn lemma_lines_concat(x: Seq<char>, y: Seq<char>)
    requires
        x.len() == 0 || x.last() == '\n',
    ensures
        lines(x + y) == lines(x) + lines(y),
{
    if x.len() == 0 {
        assert(x + y =~= y);
        assert(lines(x) + lines(y) =~= lines(y));
    } else if y.len() == 0 {
        assert(x + y =~= x);
        assert(lines(x) + lines(y) =~= lines(x));
    } else {
        let x2 = x.drop_last();
        let e = Seq::<char>::empty();
        assert(x + y =~= x2 + seq!['\n'] + y);
        assert(x =~= x2 + seq!['\n'] + e);
        lemma_split_char_concat(x2, y, '\n');
        lemma_split_char_concat(x2, e, '\n');
        lemma_split_char_nonempty(y, '\n');
        let sx = split_char(x2, '\n');
        let sy = split_char(y, '\n');
        assert(split_char(e, '\n') =~= seq![e]);
        assert((sx + seq![e]).drop_last() =~= sx);
        assert((sx + sy).drop_last() =~= sx + sy.drop_last());
        assert((sx + sy).last() == sy.last());
        assert((x + y).last() == y.last());
        let f = |z: Seq<char>| strip_cr(z);
        assert((sx + sy.drop_last()).map_values(f) =~= sx.map_values(f) + sy.drop_last().map_values(f));
        if y.last() == '\n' {
            assert(lines(x + y) =~= lines(x) + lines(y));
        } else {
            assert(lines(x + y) =~= lines(x) + lines(y));
        }
    }
}

/// Removes one trailing carriage return.
pub open spec fn strip_cr(p: Seq<char>) -> Seq<char> {
    if p.len() > 0 && p.last() == '\r' {
        p.drop_last()
    } else {
        p
    }
}

/// The lines of `s` as `str::lines` yields them: split at `\n`, a `\r` just
/// before a `\n` removed, and a final line ending optional.
pub open spec fn lines(s: Seq<char>) -> Seq<Seq<char>> {
    if s.len() == 0 {
        Seq::<Seq<char>>::empty()
    } else {
        let p = split_char(s, '\n');
        let terminated = p.drop_last().map_values(|x: Seq<char>| strip_cr(x));
        if s.last() == '\n' {
            terminated
        } else {
            terminated.push(p.last())
        }
    }
}

/// Joins `list` with `sep` between consecutive items (`[T]::join`).
pub open spec fn join(list: Seq<Seq<char>>, sep: Seq<char>) -> Seq<char>
    decreases list.len(),
{
    if list.len() == 0 {
        Seq::<char>::empty()
    } else if list.len() == 1 {
        list[0]
    } else {
        join(list.drop_last(), sep) + sep + list.last()
    }
}

/// The character sequences held by a vector of character vectors.
pub open spec fn views(s: Seq<Vec<char>>) -> Seq<Seq<char>> {
    s.map_values(|x: Vec<char>| x@)
}

pub proof fn lemma_views_push(s: Seq<Vec<char>>, x: Vec<char>)
    ensures
        views(s.push(x)) == views(s).push(x@),
{
    assert(views(s.push(x)) =~= views(s).push(x@));
}

/// Executable `str::lines` over characters.
pub fn lines_of(v: &[char]) -> (r: Vec<Vec<char>>)
    ensures
        views(r@) == lines(v@),
{
    let mut done: Vec<Vec<char>> = Vec::new();
    let mut current: Vec<char> = Vec::new();
    let mut i: usize = 0;
    proof {
        assert(v@.take(0) =~= Seq::<char>::empty());
    }
    while i < v.len()
        invariant
            i <= v@.len(),
            split_char(v@.take(i as int), '\n') == views(done@).push(current@),
        decreases v.len() - i,
    {
        let c = v[i];
        let ghost pre = v@.take(i as int);
        proof {
            assert(v@.take(i + 1).drop_last() =~= pre);
            assert(v@.take(i + 1).last() == c);
            lemma_split_char_nonempty(pre, '\n');
        }
        let ghost old_done = done@;
        if c == '\n' {
            proof { lemma_views_push(old_done, current); }
            done.push(current);
            current = Vec::new();
        } else {
            current.push(c);
        }
        i = i + 1;
    }
    proof {
        assert(v@.take(v@.len() as int) =~= v@);
    }
    let ghost split = views(done@).push(current@);
    let mut r: Vec<Vec<char>> = Vec::new();
    let mut k: usize = 0;
    while k < done.len()
        invariant
            k <= done@.len(),
            views(r@) =~= views(done@).take(k as int).map_values(|x: Seq<char>| strip_cr(x)),
        decreases done.len() - k,
    {
        let mut cut: Vec<char> = done[k].clone();
        if cut.len() > 0 && cut[cut.len() - 1] == '\r' {
            cut.pop();
        }
        proof { lemma_views_push(r@, cut); }
        r.push(cut);
        k = k + 1;
    }
    proof {
        assert(views(done@).take(done@.len() as int) =~= views(done@));
        assert(split.drop_last() =~= views(done@));
        if v@.len() > 0 {
            lemma_split_char_nonempty(v@.drop_last(), '\n');
            assert(split == split_char(v@, '\n'));
            assert(split.last() == current@);
            if v@.last() == '\n' {
                assert(split_char(v@, '\n').last() =~= Seq::<char>::empty());
                assert(current@.len() == 0);
            } else {
                assert(current@.len() > 0);
            }
        }
    }
    let ghost terminated = views(done@).map_values(|x: Seq<char>| strip_cr(x));
    assert(views(r@) == terminated);
    if current.len() > 0 {
        proof { lemma_views_push(r@, current); }
        r.push(current);
    }
    proof {
        if v@.len() > 0 {
            let p = split_char(v@, '\n');
            assert(p.drop_last().map_values(|x: Seq<char>| strip_cr(x)) == terminated);
        } else {
            assert(split_char(v@, '\n') =~= seq![Seq::<char>::empty()]);
            assert(views(done@).len() == 0);
        }
    }
    r
}


proof fn lemma_join_step(list: Seq<Seq<char>>, sep: Seq<char>, k: int)
    requires
        1 <= k < list.len(),
    ensures
        join(list.take(k + 1), sep) == join(list.take(k), sep) + sep + list[k],
{
    assert(list.take(k + 1).drop_last() =~= list.take(k));
}

/// Executable `join` of character vectors.
pub fn join_chars(list: &[Vec<char>], sep: &[char]) -> (r: Vec<char>)
    ensures
        r@ == join(views(list@), sep@),
{
    let mut r: Vec<char> = Vec::new();
    if list.len() == 0 {
        return r;
    }
    r = list[0].clone();
    let mut k: usize = 1;
    proof {
        assert(views(list@).take(1) =~= seq![list@[0]@]);
    }
    while k < list.len()
        invariant
            1 <= k <= list@.len(),
            r@ == join(views(list@).take(k as int), sep@),
        decreases list.len() - k,
    {
        let ghost before = r@;
        let mut i: usize = 0;
        while i < sep.len()
            invariant
                i <= sep@.len(),
                r@ == before + sep@.take(i as int),
            decreases sep.len() - i,
        {
            r.push(sep[i]);
            proof { assert(before + sep@.take(i + 1) =~= (before + sep@.take(i as int)).push(sep@[i as int])); }
            i = i + 1;
        }
        let item = &list[k];
        let ghost mid = r@;
        let mut j: usize = 0;
        while j < item.len()
            invariant
                j <= item@.len(),
                r@ == mid + item@.take(j as int),
            decreases item.len() - j,
        {
            r.push(item[j]);
            proof { assert(mid + item@.take(j + 1) =~= (mid + item@.take(j as int)).push(item@[j as int])); }
            j = j + 1;
        }
        proof {
            assert(sep@.take(sep@.len() as int) =~= sep@);
            assert(item@.take(item@.len() as int) =~= item@);
            lemma_join_step(views(list@), sep@, k as int);
        }
        k = k + 1;
    }
    proof { assert(views(list@).take(list@.len() as int) =~= views(list@)); }
    r
}


/// Each line followed by `\n`, concatenated.
pub open spec fn unlines(ls: Seq<Seq<char>>) -> Seq<char>
    decreases ls.len(),
{
    if ls.len() == 0 {
        Seq::<char>::empty()
    } else {
        unlines(ls.drop_last()) + ls.last() + seq!['\n']
    }
}

/// Appends `ls[from..to]`, each followed by `\n`, to `r`.
pub fn push_lines(r: &mut Vec<char>, ls: &Vec<Vec<char>>, from: usize, to: usize)
    requires
        from <= to <= ls@.len(),
    ensures
        final(r)@ == old(r)@ + unlines(views(ls@).subrange(from as int, to as int)),
{
    let mut i: usize = from;
    proof { assert(views(ls@).subrange(from as int, from as int) =~= Seq::<Seq<char>>::empty()); }
    while i < to
        invariant
            from <= i <= to <= ls@.len(),
            r@ == old(r)@ + unlines(views(ls@).subrange(from as int, i as int)),
        decreases to - i,
    {
        let ghost before = r@;
        extend_chars(r, &ls[i]);
        r.push('\n');
        proof {
            let sub = views(ls@).subrange(from as int, i + 1);
            assert(sub.drop_last() =~= views(ls@).subrange(from as int, i as int));
            assert(sub.last() == ls@[i as int]@);
            assert(r@ =~= old(r)@ + unlines(sub));
        }
        i = i + 1;
    }
}

/// `s` without its trailing `\n` characters (`str::trim_end_matches('\n')`).
pub open spec fn trim_trailing_newlines(s: Seq<char>) -> Seq<char>
    decreases s.len(),
{
    if s.len() > 0 && s.last() == '\n' {
        trim_trailing_newlines(s.drop_last())
    } else {
        s
    }
}

/// Executable `trim_trailing_newlines`, in place.
pub fn pop_trailing_newlines(r: &mut Vec<char>)
    ensures
        final(r)@ == trim_trailing_newlines(old(r)@),
{
    while r.len() > 0 && r[r.len() - 1] == '\n'
        invariant
            trim_trailing_newlines(r@) == trim_trailing_newlines(old(r)@),
        decreases r.len(),
    {
        r.pop();
    }
}


/// The text of an optional string.
pub open spec fn opt_view(o: Option<String>) -> Option<Seq<char>> {
    match o {
        Some(s) => Some(s@),
        None => None,
    }
}

/// The character sequences held by a vector of strings.
pub open spec fn string_views(s: Seq<String>) -> Seq<Seq<char>> {
    s.map_values(|x: String| x@)
}

/// Lexicographic order on character sequences by code point, which is the
/// order of `String` (UTF-8 byte order agrees with code point order).
pub open spec fn seq_lt(a: Seq<char>, b: Seq<char>) -> bool
    decreases a.len(),
{
    if a.len() == 0 {
        b.len() > 0
    } else if b.len() == 0 {
        false
    } else if a[0] == b[0] {
        seq_lt(a.drop_first(), b.drop_first())
    } else {
        a[0] < b[0]
    }
}

pub proof fn lemma_seq_lt_irreflexive(a: Seq<char>)
    ensures
        !seq_lt(a, a),
    decreases a.len(),
{
    if a.len() > 0 {
        lemma_seq_lt_irreflexive(a.drop_first());
    }
}

pub proof fn lemma_seq_lt_transitive(a: Seq<char>, b: Seq<char>, c: Seq<char>)
    requires
        seq_lt(a, b),
        seq_lt(b, c),
    ensures
        seq_lt(a, c),
    decreases a.len(),
{
    if a.len() > 0 && b.len() > 0 && c.len() > 0 {
        if a[0] == b[0] && b[0] == c[0] {
            lemma_seq_lt_transitive(a.drop_first(), b.drop_first(), c.drop_first());
        }
    }
}

pub proof fn lemma_seq_lt_total(a: Seq<char>, b: Seq<char>)
    ensures
        seq_lt(a, b) || seq_lt(b, a) || a == b,
    decreases a.len(),
{
    if a.len() > 0 && b.len() > 0 {
        if a[0] == b[0] {
            lemma_seq_lt_total(a.drop_first(), b.drop_first());
            if a.drop_first() == b.drop_first() {
                assert(a =~= seq![a[0]] + a.drop_first());
                assert(b =~= seq![b[0]] + b.drop_first());
            }
        } else {
        }
    } else if a.len() == 0 && b.len() == 0 {
        assert(a =~= b);
    }
}

pub proof fn lemma_seq_lt_asymmetric(a: Seq<char>, b: Seq<char>)
    requires
        seq_lt(a, b),
    ensures
        !seq_lt(b, a),
{
    if seq_lt(b, a) {
        lemma_seq_lt_transitive(a, b, a);
        lemma_seq_lt_irreflexive(a);
    }
}

/// Three-way comparison: negative, zero or positive as `a` sorts before,
/// equal to, or after `b`.
pub fn lex_compare(a: &[char], b: &[char]) -> (r: i8)
    ensures
        r < 0 <==> seq_lt(a@, b@),
        r == 0 <==> a@ == b@,
        r > 0 <==> seq_lt(b@, a@),
{
    let mut i: usize = 0;
    proof {
        assert(a@.skip(0) =~= a@);
        assert(b@.skip(0) =~= b@);
    }
    while i < a.len() && i < b.len() && a[i] == b[i]
        invariant
            i <= a@.len(),
            i <= b@.len(),
            a@.take(i as int) == b@.take(i as int),
            seq_lt(a@, b@) == seq_lt(a@.skip(i as int), b@.skip(i as int)),
            seq_lt(b@, a@) == seq_lt(b@.skip(i as int), a@.skip(i as int)),
        decreases a.len() - i,
    {
        proof {
            let sa = a@.skip(i as int);
            let sb = b@.skip(i as int);
            assert(sa.drop_first() =~= a@.skip(i + 1));
            assert(sb.drop_first() =~= b@.skip(i + 1));
            assert(a@.take(i + 1) =~= a@.take(i as int).push(a@[i as int]));
            assert(b@.take(i + 1) =~= b@.take(i as int).push(b@[i as int]));
        }
        i = i + 1;
    }
    proof {
        lemma_seq_lt_total(a@, b@);
        lemma_seq_lt_irreflexive(a@);
        if seq_lt(a@, b@) {
            lemma_seq_lt_asymmetric(a@, b@);
        }
    }
    if i < a.len() && i < b.len() {
        if a[i] < b[i] {
            proof {
                assert(a@ != b@) by { assert(a@[i as int] != b@[i as int]); }
            }
            -1
        } else {
            proof {
                assert(a@ != b@) by { assert(a@[i as int] != b@[i as int]); }
            }
            1
        }
    } else if i < a.len() {
        proof {
            assert(a@ != b@);
            assert(b@.skip(i as int).len() == 0);
        }
        1
    } else if i < b.len() {
        proof {
            assert(a@ != b@);
            assert(a@.skip(i as int).len() == 0);
        }
        -1
    } else {
        proof {
            assert(a@ =~= a@.take(i as int));
            assert(b@ =~= b@.take(i as int));
        }
        0
    }
}


/// ASCII lowercase of one character; other characters are unchanged.
pub open spec fn ascii_lower(c: char) -> char {
    if 'A' <= c && c <= 'Z' {
        ((c as u32) + 32) as char
    } else {
        c
    }
}

/// `s` with `A`-`Z` mapped to `a`-`z`.
pub open spec fn ascii_fold(s: Seq<char>) -> Seq<char> {
    s.map_values(|c: char| ascii_lower(c))
}

/// Equality up to ASCII case (`str::eq_ignore_ascii_case`): on UTF-8 text,
/// comparing bytes with ASCII case folded is comparing characters so.
pub open spec fn eq_ignore_case(a: Seq<char>, b: Seq<char>) -> bool {
    ascii_fold(a) == ascii_fold(b)
}

/// Whether two characters are equal up to ASCII case.
pub fn char_eq_ignore_case(a: char, b: char) -> (r: bool)
    ensures
        r == (ascii_lower(a) == ascii_lower(b)),
{
    let x = a as u32;
    let y = b as u32;
    let lx = if 65 <= x && x <= 90 { x + 32 } else { x };
    let ly = if 65 <= y && y <= 90 { y + 32 } else { y };
    proof {
        assert(ascii_lower(a) as u32 == lx);
        assert(ascii_lower(b) as u32 == ly);
    }
    lx == ly
}

/// Executable `eq_ignore_case`.
pub fn eq_ignore_ascii_case(a: &[char], b: &[char]) -> (r: bool)
    ensures
        r == eq_ignore_case(a@, b@),
{
    if a.len() != b.len() {
        proof { assert(ascii_fold(a@).len() != ascii_fold(b@).len()); }
        return false;
    }
    let mut i: usize = 0;
    while i < a.len()
        invariant
            i <= a@.len(),
            a@.len() == b@.len(),
            forall|k: int| 0 <= k < i ==> ascii_lower(#[trigger] a@[k]) == ascii_lower(b@[k]),
        decreases a.len() - i,
    {
        if !char_eq_ignore_case(a[i], b[i]) {
            proof { assert(ascii_fold(a@)[i as int] != ascii_fold(b@)[i as int]); }
            return false;
        }
        i = i + 1;
    }
    proof { assert(ascii_fold(a@) =~= ascii_fold(b@)); }
    true
}

/// Whether every character of `s` is ASCII.
pub open spec fn is_ascii_seq(s: Seq<char>) -> bool {
    forall|i: int| 0 <= i < s.len() ==> (#[trigger] s[i] as u32) < 128
}

/// The lowercase mapping of `s` (a name for what `str::to_lowercase`
/// returns: the Unicode lowercase mapping, which for a final capital sigma
/// also looks at the characters around it).
pub uninterp spec fn lowercase_spec(s: Seq<char>) -> Seq<char>;

/// The lowercase form of `s`: `A`-`Z` mapped to `a`-`z` when `s` is ASCII,
/// the Unicode lowercase mapping otherwise.
pub open spec fn lowercase(s: Seq<char>) -> Seq<char> {
    if is_ascii_seq(s) {
        ascii_fold(s)
    } else {
        lowercase_spec(s)
    }
}

/// `str::to_lowercase`. The contract claims that the result is a function of
/// the input alone and that on ASCII input it maps `A`-`Z` to `a`-`z` and
/// keeps every other character (Unicode lowercase agrees with ASCII there);
/// what it does to other characters is left unsaid.
#[verifier::external_body]
pub(crate) fn to_lowercase(s: &str) -> (r: String)
    ensures
        r@ == lowercase_spec(s@),
        is_ascii_seq(s@) ==> r@ == ascii_fold(s@),
{
    s.to_lowercase()
}

} // verus!
