//! Lexical analysis of notes: the words of a text, their weighted counts,
//! and the tag candidates ranked from them.
use vstd::prelude::*;

use crate::contracts::MAX_SUGGESTIONS_PER_REQUEST;
use crate::entities::{decimal_digits, push_decimal};
use crate::frontmatter::{yaml_scalar, yaml_scalar_spec};
use crate::text::{
    chars_of, eq_chars, lemma_seq_lt_asymmetric, lemma_seq_lt_irreflexive, lemma_seq_lt_total,
    lemma_seq_lt_transitive, lex_compare, lowercase, opt_view, seq_lt, string_of, to_lowercase,
};

verus! {

/// Whether `char::is_alphanumeric` holds of `c` (a name for its result:
/// the Unicode `Alphabetic` property or a numeric general category).
pub uninterp spec fn alphanumeric_spec(c: char) -> bool;

/// `char::is_alphanumeric`. The contract claims that the result depends on
/// the character alone and that among ASCII characters exactly the letters
/// and digits qualify.
#[verifier::external_body]
fn is_alphanumeric(c: char) -> (r: bool)
    ensures
        r == alphanumeric_spec(c),
        (c as u32) < 128 ==> (r <==> ('a' <= c <= 'z' || 'A' <= c <= 'Z' || '0' <= c <= '9')),
{
    c.is_alphanumeric()
}

/// Whether `char::is_numeric` holds of `c` (a name for its result: one of
/// the numeric general categories).
pub uninterp spec fn numeric_spec(c: char) -> bool;

/// `char::is_numeric`. The contract claims that the result depends on the
/// character alone and that among ASCII characters exactly the digits
/// qualify.
#[verifier::external_body]
fn is_numeric(c: char) -> (r: bool)
    ensures
        r == numeric_spec(c),
        (c as u32) < 128 ==> (r <==> '0' <= c <= '9'),
{
    c.is_numeric()
}

/// Whether `c` counts as part of a word: an ASCII letter or digit, or, past
/// ASCII, what `char::is_alphanumeric` says.
pub open spec fn word_char(c: char) -> bool {
    if (c as u32) < 128 {
        'a' <= c <= 'z' || 'A' <= c <= 'Z' || '0' <= c <= '9'
    } else {
        alphanumeric_spec(c)
    }
}

/// Whether `c` is a numeral: an ASCII digit, or, past ASCII, what
/// `char::is_numeric` says.
pub open spec fn numeral(c: char) -> bool {
    if (c as u32) < 128 {
        '0' <= c <= '9'
    } else {
        numeric_spec(c)
    }
}

/// The runs of `s` between characters that are not alphanumeric, empty runs
/// included.
pub open spec fn word_pieces(s: Seq<char>) -> Seq<Seq<char>>
    decreases s.len(),
{
    if s.len() == 0 {
        seq![Seq::<char>::empty()]
    } else {
        let r = word_pieces(s.drop_last());
        if !word_char(s.last()) {
            r.push(Seq::<char>::empty())
        } else {
            r.update(r.len() - 1, r.last().push(s.last()))
        }
    }
}

proof fn lemma_word_pieces_nonempty(s: Seq<char>)
    ensures
        word_pieces(s).len() >= 1,
    decreases s.len(),
{
    if s.len() > 0 {
        lemma_word_pieces_nonempty(s.drop_last());
    }
}

/// Common English words that make no useful tag.
pub open spec fn is_stopword_spec(t: Seq<char>) -> bool {
    t == "a"@ || t == "an"@ || t == "and"@ || t == "are"@ || t == "as"@ || t == "at"@
        || t == "be"@ || t == "by"@ || t == "for"@ || t == "from"@ || t == "in"@ || t == "is"@
        || t == "it"@ || t == "of"@ || t == "on"@ || t == "or"@ || t == "that"@ || t == "the"@
        || t == "this"@ || t == "to"@ || t == "with"@
}

fn same(t: &[char], w: &str) -> (r: bool)
    ensures
        r == (t@ == w@),
{
    eq_chars(t, &chars_of(w))
}

/// Whether `term` is a stopword.
pub fn is_stopword(term: &str) -> (r: bool)
    ensures
        r == is_stopword_spec(term@),
{
    let t = chars_of(term);
    same(&t, "a") || same(&t, "an") || same(&t, "and") || same(&t, "are") || same(&t, "as")
        || same(&t, "at") || same(&t, "be") || same(&t, "by") || same(&t, "for")
        || same(&t, "from") || same(&t, "in") || same(&t, "is") || same(&t, "it")
        || same(&t, "of") || same(&t, "on") || same(&t, "or") || same(&t, "that")
        || same(&t, "the") || same(&t, "this") || same(&t, "to") || same(&t, "with")
}

/// Whether every character of `t` is numeric (true of an empty `t`).
pub open spec fn all_numeric(t: Seq<char>) -> bool {
    forall|i: int| 0 <= i < t.len() ==> numeral(#[trigger] t[i])
}

fn all_numeric_chars(t: &[char]) -> (r: bool)
    ensures
        r == all_numeric(t@),
{
    let mut i: usize = 0;
    while i < t.len()
        invariant
            i <= t@.len(),
            forall|k: int| 0 <= k < i ==> numeral(#[trigger] t@[k]),
        decreases t.len() - i,
    {
        if !is_numeric(t[i]) {
            return false;
        }
        i = i + 1;
    }
    true
}

/// The term a run of characters yields: runs of two or more characters,
/// lowercased, unless a stopword or only numerals.
pub open spec fn term_of(piece: Seq<char>) -> Option<Seq<char>> {
    if piece.len() >= 2 {
        let t = lowercase(piece);
        if !is_stopword_spec(t) && !all_numeric(t) {
            Some(t)
        } else {
            None
        }
    } else {
        None
    }
}

/// The terms of a sequence of runs, in order.
pub open spec fn terms_of(pieces: Seq<Seq<char>>) -> Seq<Seq<char>>
    decreases pieces.len(),
{
    if pieces.len() == 0 {
        Seq::<Seq<char>>::empty()
    } else {
        let r = terms_of(pieces.drop_last());
        match term_of(pieces.last()) {
            Some(t) => r.push(t),
            None => r,
        }
    }
}

/// The terms of a text, in order, repeats kept.
pub open spec fn text_terms(s: Seq<char>) -> Seq<Seq<char>> {
    terms_of(word_pieces(s))
}

/// How often `t` occurs in `ts`.
pub open spec fn count_in(ts: Seq<Seq<char>>, t: Seq<char>) -> nat
    decreases ts.len(),
{
    if ts.len() == 0 {
        0
    } else {
        count_in(ts.drop_last(), t) + if ts.last() == t { 1nat } else { 0nat }
    }
}

proof fn lemma_terms_of_len(pieces: Seq<Seq<char>>)
    ensures
        terms_of(pieces).len() <= pieces.len(),
    decreases pieces.len(),
{
    if pieces.len() > 0 {
        lemma_terms_of_len(pieces.drop_last());
    }
}

proof fn lemma_count_in_le(ts: Seq<Seq<char>>, t: Seq<char>)
    ensures
        count_in(ts, t) <= ts.len(),
    decreases ts.len(),
{
    if ts.len() > 0 {
        lemma_count_in_le(ts.drop_last(), t);
    }
}

proof fn lemma_word_pieces_len(s: Seq<char>)
    ensures
        word_pieces(s).len() <= s.len() + 1,
    decreases s.len(),
{
    if s.len() > 0 {
        lemma_word_pieces_len(s.drop_last());
        lemma_word_pieces_nonempty(s.drop_last());
    }
}

/// A text yields at most one more term than it has characters, so no term
/// occurs more often than that.
pub proof fn lemma_text_count_bound(s: Seq<char>, t: Seq<char>)
    ensures
        count_in(text_terms(s), t) <= s.len() + 1,
{
    lemma_word_pieces_len(s);
    lemma_terms_of_len(word_pieces(s));
    lemma_count_in_le(text_terms(s), t);
}

// ---------------------------------------------------------------- counts

/// A table of terms and counts, terms as characters.
pub open spec fn table_view(v: Seq<(Vec<char>, u64)>) -> Seq<(Seq<char>, u64)> {
    v.map_values(|p: (Vec<char>, u64)| (p.0@, p.1))
}

/// The total count of `t` in a table (the sum over the rows for `t`).
pub open spec fn table_count(v: Seq<(Seq<char>, u64)>, t: Seq<char>) -> nat
    decreases v.len(),
{
    if v.len() == 0 {
        0
    } else {
        table_count(v.drop_last(), t) + if v.last().0 == t { v.last().1 as nat } else { 0nat }
    }
}

/// Whether no term occurs in two rows of a table.
pub open spec fn distinct_terms(v: Seq<(Seq<char>, u64)>) -> bool {
    forall|i: int, j: int| 0 <= i < j < v.len() ==> (#[trigger] v[i]).0 != (#[trigger] v[j]).0
}

proof fn lemma_table_count_absent(v: Seq<(Seq<char>, u64)>, t: Seq<char>)
    requires
        forall|i: int| 0 <= i < v.len() ==> (#[trigger] v[i]).0 != t,
    ensures
        table_count(v, t) == 0,
    decreases v.len(),
{
    if v.len() > 0 {
        assert forall|i: int| 0 <= i < v.drop_last().len() implies (#[trigger] v.drop_last()[i]).0 != t by {
            assert(v.drop_last()[i] == v[i]);
        }
        lemma_table_count_absent(v.drop_last(), t);
    }
}

proof fn lemma_table_count_update(v: Seq<(Seq<char>, u64)>, i: int, c: u64, t: Seq<char>)
    requires
        0 <= i < v.len(),
    ensures
        table_count(v.update(i, (v[i].0, c)), t) + (if v[i].0 == t { v[i].1 as nat } else { 0nat })
            == table_count(v, t) + (if v[i].0 == t { c as nat } else { 0nat }),
    decreases v.len(),
{
    let u = v.update(i, (v[i].0, c));
    if i == v.len() - 1 {
        assert(u.drop_last() =~= v.drop_last());
    } else {
        assert(u.drop_last() =~= v.drop_last().update(i, (v[i].0, c)));
        lemma_table_count_update(v.drop_last(), i, c, t);
    }
}

pub proof fn lemma_table_count_distinct(v: Seq<(Seq<char>, u64)>, i: int)
    requires
        0 <= i < v.len(),
        distinct_terms(v),
    ensures
        table_count(v, v[i].0) == v[i].1,
    decreases v.len(),
{
    if i == v.len() - 1 {
        assert forall|k: int| 0 <= k < v.drop_last().len() implies (#[trigger] v.drop_last()[k]).0 != v[i].0 by {
            assert(v.drop_last()[k] == v[k]);
        }
        lemma_table_count_absent(v.drop_last(), v[i].0);
    } else {
        assert(distinct_terms(v.drop_last())) by {
            assert forall|a: int, b: int| 0 <= a < b < v.drop_last().len() implies
                (#[trigger] v.drop_last()[a]).0 != (#[trigger] v.drop_last()[b]).0 by {
                assert(v.drop_last()[a] == v[a] && v.drop_last()[b] == v[b]);
            }
        }
        assert(v.drop_last()[i] == v[i]);
        lemma_table_count_distinct(v.drop_last(), i);
        assert(v.last() == v[v.len() - 1]);
    }
}

pub proof fn lemma_table_count_present(v: Seq<(Seq<char>, u64)>, t: Seq<char>)
    requires
        table_count(v, t) > 0,
    ensures
        exists|i: int| 0 <= i < v.len() && (#[trigger] v[i]).0 == t,
{
    if forall|i: int| 0 <= i < v.len() ==> (#[trigger] v[i]).0 != t {
        lemma_table_count_absent(v, t);
    }
}

/// Adds `w` to the count of `t` in the table, adding a row when `t` has none.
fn bump(table: &mut Vec<(Vec<char>, u64)>, t: Vec<char>, w: u64, Ghost(bound): Ghost<nat>)
    requires
        distinct_terms(table_view(old(table)@)),
        forall|s: Seq<char>| table_count(table_view(old(table)@), s) <= bound,
        bound + w <= u64::MAX,
    ensures
        distinct_terms(table_view(final(table)@)),
        forall|s: Seq<char>| #[trigger] table_count(table_view(final(table)@), s)
            == table_count(table_view(old(table)@), s) + if s == t@ { w as nat } else { 0nat },
{
    let ghost old_v = table_view(table@);
    let mut i: usize = 0;
    while i < table.len()
        invariant
            i <= table@.len(),
            table@ == old(table)@,
            old_v == table_view(table@),
            distinct_terms(old_v),
            forall|s: Seq<char>| table_count(old_v, s) <= bound,
            bound + w <= u64::MAX,
            forall|k: int| 0 <= k < i ==> (#[trigger] old_v[k]).0 != t@,
        decreases table.len() - i,
    {
        if eq_chars(&table[i].0, &t) {
            proof {
                assert(old_v[i as int] == (table@[i as int].0@, table@[i as int].1));
                lemma_table_count_distinct(old_v, i as int);
            }
            let c = table[i].1 + w;
            let key = table[i].0.clone();
            proof { assert(key@ == table@[i as int].0@); }
            table.set(i, (key, c));
            proof {
                let nv = table_view(table@);
                assert(nv =~= old_v.update(i as int, (old_v[i as int].0, c)));
                assert forall|s: Seq<char>| #[trigger] table_count(nv, s)
                    == table_count(old_v, s) + if s == t@ { w as nat } else { 0nat } by {
                    lemma_table_count_update(old_v, i as int, c, s);
                }
                assert forall|a: int, b: int| 0 <= a < b < nv.len() implies
                    (#[trigger] nv[a]).0 != (#[trigger] nv[b]).0 by {
                    assert(nv[a].0 == old_v[a].0 && nv[b].0 == old_v[b].0);
                }
            }
            return;
        }
        proof { assert(old_v[i as int].0 == table@[i as int].0@); }
        i = i + 1;
    }
    proof {
        assert(old_v.len() == table@.len());
    }
    table.push((t, w));
    proof {
        let nv = table_view(table@);
        assert(nv =~= old_v.push((t@, w)));
        assert(nv.drop_last() =~= old_v);
        assert forall|a: int, b: int| 0 <= a < b < nv.len() implies
            (#[trigger] nv[a]).0 != (#[trigger] nv[b]).0 by {
            if b == nv.len() - 1 {
                assert(nv[a] == old_v[a]);
            } else {
                assert(nv[a] == old_v[a] && nv[b] == old_v[b]);
            }
        }
    }
}

/// How much a run adds to the count of `s`: `w` when its term is `s`.
pub open spec fn run_weight(piece: Seq<char>, s: Seq<char>, w: u64) -> nat {
    if term_of(piece) == Some(s) { w as nat } else { 0nat }
}

/// Counts the term of one run, if it yields one.
fn flush(table: &mut Vec<(Vec<char>, u64)>, run: &Vec<char>, w: u64, Ghost(bound): Ghost<nat>)
    requires
        distinct_terms(table_view(old(table)@)),
        forall|s: Seq<char>| table_count(table_view(old(table)@), s) <= bound,
        bound + w <= u64::MAX,
    ensures
        distinct_terms(table_view(final(table)@)),
        forall|s: Seq<char>| #[trigger] table_count(table_view(final(table)@), s)
            == table_count(table_view(old(table)@), s) + run_weight(run@, s, w),
{
    if run.len() >= 2 {
        let raw = string_of(run);
        let low = to_lowercase(raw.as_str());
        let lt = chars_of(low.as_str());
        if !is_stopword(low.as_str()) && !all_numeric_chars(&lt) {
            bump(table, lt, w, Ghost(bound));
        }
    }
}

/// Adds the terms of `text` to the table, each counting `w`.
pub(crate) fn add_terms(table: &mut Vec<(Vec<char>, u64)>, text: &str, w: u64, Ghost(bound): Ghost<nat>)
    requires
        distinct_terms(table_view(old(table)@)),
        forall|s: Seq<char>| table_count(table_view(old(table)@), s) <= bound,
        bound + w * (text@.len() + 1) <= u64::MAX,
    ensures
        distinct_terms(table_view(final(table)@)),
        forall|s: Seq<char>| #[trigger] table_count(table_view(final(table)@), s)
            == table_count(table_view(old(table)@), s) + w * count_in(text_terms(text@), s),
{
    let v = chars_of(text);
    let ghost start = table_view(table@);
    let mut cur: Vec<char> = Vec::new();
    let mut i: usize = 0;
    proof {
        assert(v@.take(0) =~= Seq::<char>::empty());
        let p0 = word_pieces(v@.take(0));
        assert(p0.drop_last() =~= Seq::<Seq<char>>::empty());
        assert forall|s: Seq<char>| #[trigger] table_count(table_view(table@), s)
            == table_count(start, s) + w * count_in(terms_of(p0.drop_last()), s) by {
            assert(count_in(terms_of(p0.drop_last()), s) == 0);
            assert(w * 0 == 0) by (nonlinear_arith);
        }
    }
    while i < v.len()
        invariant
            i <= v@.len(),
            v@ == text@,
            start == table_view(old(table)@),
            forall|s: Seq<char>| table_count(start, s) <= bound,
            bound + w * (text@.len() + 1) <= u64::MAX,
            distinct_terms(table_view(table@)),
            cur@ == word_pieces(v@.take(i as int)).last(),
            forall|s: Seq<char>| #[trigger] table_count(table_view(table@), s)
                == table_count(start, s) + w * count_in(terms_of(word_pieces(v@.take(i as int)).drop_last()), s),
            forall|s: Seq<char>| count_in(terms_of(word_pieces(v@.take(i as int)).drop_last()), s) <= i,
        decreases v.len() - i,
    {
        let c = v[i];
        let ghost pre = v@.take(i as int);
        let ghost p = word_pieces(pre);
        proof {
            assert(v@.take(i + 1).drop_last() =~= pre);
            assert(v@.take(i + 1).last() == c);
            lemma_word_pieces_nonempty(pre);
        }
        if !is_alphanumeric(c) {
            let ghost before = table_view(table@);
            proof {
                assert forall|s: Seq<char>| table_count(before, s) <= bound + w * i by {
                    assert(w * count_in(terms_of(p.drop_last()), s) <= w * i) by (nonlinear_arith)
                        requires count_in(terms_of(p.drop_last()), s) <= i;
                }
                assert(bound + w * i + w <= u64::MAX) by (nonlinear_arith)
                    requires bound + w * (text@.len() + 1) <= u64::MAX, i < text@.len();
            }
            flush(table, &cur, w, Ghost((bound + w * i) as nat));
            proof {
                let np = p.push(Seq::<char>::empty());
                assert(np.drop_last() =~= p);
                assert(p =~= p.drop_last().push(p.last()));
                assert forall|s: Seq<char>| #[trigger] table_count(table_view(table@), s)
                    == table_count(start, s) + w * count_in(terms_of(np.drop_last()), s) by {
                    let tp = terms_of(p.drop_last());
                    match term_of(p.last()) {
                        Some(t) => {
                            assert(terms_of(p) == tp.push(t));
                            assert(tp.push(t).drop_last() =~= tp);
                        },
                        None => {},
                    }
                    assert(w * count_in(terms_of(p), s) == w * count_in(tp, s) + run_weight(p.last(), s, w)) by (nonlinear_arith)
                        requires count_in(terms_of(p), s) == count_in(tp, s) + if term_of(p.last()) == Some(s) { 1nat } else { 0nat },
                            run_weight(p.last(), s, w) == if term_of(p.last()) == Some(s) { w as nat } else { 0nat };
                }
                assert forall|s: Seq<char>| count_in(terms_of(np.drop_last()), s) <= i + 1 by {
                    let tp = terms_of(p.drop_last());
                    assert(count_in(tp, s) <= i);
                    match term_of(p.last()) {
                        Some(t) => {
                            assert(terms_of(p) == tp.push(t));
                            assert(tp.push(t).drop_last() =~= tp);
                            assert(count_in(tp.push(t), s) <= count_in(tp, s) + 1);
                        },
                        None => {
                            assert(terms_of(p) == tp);
                        },
                    }
                    assert(np.drop_last() == p);
                }
            }
            cur = Vec::new();
            proof { assert(cur@ =~= Seq::<char>::empty()); }
        } else {
            proof {
                let np = p.update(p.len() - 1, p.last().push(c));
                assert(np.drop_last() =~= p.drop_last());
            }
            cur.push(c);
        }
        i = i + 1;
    }
    proof {
        assert(v@.take(v@.len() as int) =~= v@);
        lemma_word_pieces_nonempty(v@);
        let p = word_pieces(v@);
        assert(p =~= p.drop_last().push(p.last()));
        assert forall|s: Seq<char>| table_count(table_view(table@), s) <= bound + w * i by {
            assert(w * count_in(terms_of(p.drop_last()), s) <= w * i) by (nonlinear_arith)
                requires count_in(terms_of(p.drop_last()), s) <= i;
        }
        assert(bound + w * i + w <= u64::MAX) by (nonlinear_arith)
            requires bound + w * (text@.len() + 1) <= u64::MAX, i == text@.len();
    }
    let ghost before = table_view(table@);
    flush(table, &cur, w, Ghost((bound + w * i) as nat));
    proof {
        let p = word_pieces(v@);
        assert forall|s: Seq<char>| #[trigger] table_count(table_view(table@), s)
            == table_count(start, s) + w * count_in(text_terms(text@), s) by {
            let tp = terms_of(p.drop_last());
            match term_of(p.last()) {
                Some(t) => {
                    assert(terms_of(p) == tp.push(t));
                    assert(tp.push(t).drop_last() =~= tp);
                },
                None => {},
            }
            assert(w * count_in(terms_of(p), s) == w * count_in(tp, s) + run_weight(p.last(), s, w)) by (nonlinear_arith)
                requires count_in(terms_of(p), s) == count_in(tp, s) + if term_of(p.last()) == Some(s) { 1nat } else { 0nat },
                    run_weight(p.last(), s, w) == if term_of(p.last()) == Some(s) { w as nat } else { 0nat };
        }
    }
}

// ---------------------------------------------------------------- ranking

/// Whether candidate `a` ranks before `b`: a higher count first, then the
/// term that sorts first.
pub open spec fn ranks_before(a: (Seq<char>, u64), b: (Seq<char>, u64)) -> bool {
    a.1 > b.1 || (a.1 == b.1 && seq_lt(a.0, b.0))
}

proof fn lemma_ranks_order(a: (Seq<char>, u64), b: (Seq<char>, u64), c: (Seq<char>, u64))
    ensures
        !ranks_before(a, a),
        ranks_before(a, b) && ranks_before(b, c) ==> ranks_before(a, c),
        a.0 != b.0 ==> (ranks_before(a, b) || ranks_before(b, a)),
        ranks_before(a, b) ==> !ranks_before(b, a),
{
    lemma_seq_lt_irreflexive(a.0);
    if ranks_before(a, b) && ranks_before(b, c) && a.1 == b.1 && b.1 == c.1 {
        lemma_seq_lt_transitive(a.0, b.0, c.0);
    }
    lemma_seq_lt_total(a.0, b.0);
    if ranks_before(a, b) && a.1 == b.1 {
        lemma_seq_lt_asymmetric(a.0, b.0);
    }
}

fn rank_before(a: &(Vec<char>, u64), b: &(Vec<char>, u64)) -> (r: bool)
    ensures
        r == ranks_before((a.0@, a.1), (b.0@, b.1)),
{
    a.1 > b.1 || (a.1 == b.1 && lex_compare(&a.0, &b.0) < 0)
}

/// Whether a term with count `c` may be suggested: it occurs, it has from 2
/// to 48 characters, and the note does not already carry it as a tag
/// (`existing_lower` holds the note's tags lowercased).
pub open spec fn suggestible(t: Seq<char>, c: nat, existing_lower: Seq<Seq<char>>) -> bool {
    c > 0 && 2 <= t.len() <= 48 && !existing_lower.contains(t)
}

/// Whether `v` is ordered strictly by rank.
pub open spec fn strictly_ranked(v: Seq<(Seq<char>, u64)>) -> bool {
    forall|i: int, j: int| 0 <= i < j < v.len() ==> ranks_before(#[trigger] v[i], #[trigger] v[j])
}

fn contains_term(list: &Vec<Vec<char>>, t: &Vec<char>) -> (r: bool)
    ensures
        r == crate::text::views(list@).contains(t@),
{
    let mut i: usize = 0;
    while i < list.len()
        invariant
            i <= list@.len(),
            forall|k: int| 0 <= k < i ==> (#[trigger] list@[k])@ != t@,
        decreases list.len() - i,
    {
        if eq_chars(&list[i], t) {
            proof { assert(crate::text::views(list@)[i as int] == t@); }
            return true;
        }
        i = i + 1;
    }
    proof {
        if crate::text::views(list@).contains(t@) {
            let k = choose|k: int| 0 <= k < crate::text::views(list@).len() && crate::text::views(list@)[k] == t@;
            assert(list@[k]@ == t@);
        }
    }
    false
}

/// Orders the suggestible rows of a table by rank and keeps the first
/// `MAX_SUGGESTIONS_PER_REQUEST`.
fn top_ranked(table: &Vec<(Vec<char>, u64)>, existing_lower: &Vec<Vec<char>>) -> (r: Vec<(Vec<char>, u64)>)
    requires
        distinct_terms(table_view(table@)),
    ensures
        r@.len() <= MAX_SUGGESTIONS_PER_REQUEST,
        strictly_ranked(table_view(r@)),
        forall|i: int| 0 <= i < r@.len() ==> table_view(table@).contains(#[trigger] table_view(r@)[i])
            && suggestible(table_view(r@)[i].0, table_view(r@)[i].1 as nat, crate::text::views(existing_lower@)),
        forall|x: (Seq<char>, u64)| table_view(table@).contains(x)
            && suggestible(x.0, x.1 as nat, crate::text::views(existing_lower@))
            && !table_view(r@).contains(x)
            ==> r@.len() == MAX_SUGGESTIONS_PER_REQUEST
                && forall|i: int| 0 <= i < r@.len() ==> ranks_before(#[trigger] table_view(r@)[i], x),
{
    let ghost tv = table_view(table@);
    let ghost ex = crate::text::views(existing_lower@);
    let mut sorted: Vec<(Vec<char>, u64)> = Vec::new();
    let mut k: usize = 0;
    while k < table.len()
        invariant
            k <= table@.len(),
            tv == table_view(table@),
            ex == crate::text::views(existing_lower@),
            distinct_terms(tv),
            strictly_ranked(table_view(sorted@)),
            forall|x: (Seq<char>, u64)| table_view(sorted@).contains(x)
                <==> (exists|j: int| 0 <= j < k && tv[j] == x && suggestible(x.0, x.1 as nat, ex)),
        decreases table.len() - k,
    {
        let row = &table[k];
        proof { assert(tv[k as int] == (row.0@, row.1)); }
        let eligible = row.1 > 0 && row.0.len() >= 2 && row.0.len() <= 48
            && !contains_term(existing_lower, &row.0);
        let ghost sv = table_view(sorted@);
        if eligible {
            let mut p: usize = 0;
            while p < sorted.len() && !rank_before(row, &sorted[p])
                invariant
                    p <= sorted@.len(),
                    sv == table_view(sorted@),
                    forall|q: int| 0 <= q < p ==> !ranks_before((row.0@, row.1), #[trigger] sv[q]),
                decreases sorted.len() - p,
            {
                p = p + 1;
            }
            let item = (row.0.clone(), row.1);
            proof { assert((item.0@, item.1) == tv[k as int]); }
            sorted.insert(p, item);
            proof {
                let nv = table_view(sorted@);
                let x = tv[k as int];
                assert(nv =~= sv.insert(p as int, x));
                sv.insert_ensures(p as int, x);
                // x is not yet in the sorted list: its term is new.
                assert forall|q: int| 0 <= q < sv.len() implies (#[trigger] sv[q]).0 != x.0 by {
                    assert(sv.contains(sv[q]));
                    let j = choose|j: int| 0 <= j < k && tv[j] == sv[q] && suggestible(sv[q].0, sv[q].1 as nat, ex);
                    assert(tv[j].0 != tv[k as int].0);
                }
                assert forall|q: int| 0 <= q < p implies ranks_before(#[trigger] sv[q], x) by {
                    lemma_ranks_order(sv[q], x, x);
                }
                assert forall|a: int, b: int| 0 <= a < b < nv.len() implies ranks_before(#[trigger] nv[a], #[trigger] nv[b]) by {
                    if b < p {
                        assert(nv[a] == sv[a] && nv[b] == sv[b]);
                    } else if b == p {
                        assert(nv[a] == sv[a] && nv[b] == x);
                    } else if a < p {
                        assert(nv[a] == sv[a] && nv[b] == sv[b - 1]);
                        if (p as int) < sv.len() {
                            lemma_ranks_order(sv[a], x, sv[p as int]);
                            if b - 1 > p {
                                lemma_ranks_order(sv[a], sv[p as int], sv[b - 1]);
                            }
                        }
                    } else if a == p {
                        assert(nv[a] == x && nv[b] == sv[b - 1]);
                        if b - 1 > p {
                            lemma_ranks_order(x, sv[p as int], sv[b - 1]);
                        }
                    } else {
                        assert(nv[a] == sv[a - 1] && nv[b] == sv[b - 1]);
                    }
                }
                assert forall|y: (Seq<char>, u64)| nv.contains(y)
                    <==> (exists|j: int| 0 <= j < k + 1 && tv[j] == y && suggestible(y.0, y.1 as nat, ex)) by {
                    if nv.contains(y) {
                        let q = choose|q: int| 0 <= q < nv.len() && nv[q] == y;
                        if q < p {
                            assert(sv[q] == y && sv.contains(y));
                        } else if q > p {
                            assert(sv[q - 1] == y && sv.contains(y));
                        } else {
                            assert(tv[k as int] == y);
                        }
                    }
                    if exists|j: int| 0 <= j < k + 1 && tv[j] == y && suggestible(y.0, y.1 as nat, ex) {
                        let j = choose|j: int| 0 <= j < k + 1 && tv[j] == y && suggestible(y.0, y.1 as nat, ex);
                        if j == k {
                            assert(nv[p as int] == y);
                        } else {
                            assert(sv.contains(y));
                            let q = choose|q: int| 0 <= q < sv.len() && sv[q] == y;
                            if q < p {
                                assert(nv[q] == y);
                            } else {
                                assert(nv[q + 1] == y);
                            }
                        }
                    }
                }
            }
        } else {
            proof {
                assert forall|y: (Seq<char>, u64)| sv.contains(y)
                    <==> (exists|j: int| 0 <= j < k + 1 && tv[j] == y && suggestible(y.0, y.1 as nat, ex)) by {
                    if exists|j: int| 0 <= j < k + 1 && tv[j] == y && suggestible(y.0, y.1 as nat, ex) {
                        let j = choose|j: int| 0 <= j < k + 1 && tv[j] == y && suggestible(y.0, y.1 as nat, ex);
                        assert(j != k);
                    }
                }
            }
        }
        k = k + 1;
    }
    let ghost full = table_view(sorted@);
    sorted.truncate(MAX_SUGGESTIONS_PER_REQUEST);
    proof {
        let rv = table_view(sorted@);
        if full.len() > MAX_SUGGESTIONS_PER_REQUEST {
            assert(rv =~= full.subrange(0, MAX_SUGGESTIONS_PER_REQUEST as int));
        } else {
            assert(rv =~= full);
        }
        assert forall|i: int| 0 <= i < sorted@.len() implies tv.contains(#[trigger] table_view(sorted@)[i])
            && suggestible(table_view(sorted@)[i].0, table_view(sorted@)[i].1 as nat, ex) by {
            assert(rv[i] == full[i]);
            assert(full.contains(full[i]));
            let j = choose|j: int| 0 <= j < k && tv[j] == full[i] && suggestible(full[i].0, full[i].1 as nat, ex);
            assert(tv[j] == rv[i]);
        }
        assert forall|x: (Seq<char>, u64)| tv.contains(x) && suggestible(x.0, x.1 as nat, ex) && !rv.contains(x)
            implies sorted@.len() == MAX_SUGGESTIONS_PER_REQUEST
                && forall|i: int| 0 <= i < sorted@.len() ==> ranks_before(#[trigger] rv[i], x) by {
            let j = choose|j: int| 0 <= j < tv.len() && tv[j] == x;
            assert(full.contains(x));
            let q = choose|q: int| 0 <= q < full.len() && full[q] == x;
            if q < rv.len() {
                assert(rv[q] == x);
            }
            assert(q >= MAX_SUGGESTIONS_PER_REQUEST);
            assert forall|i: int| 0 <= i < sorted@.len() implies ranks_before(#[trigger] rv[i], x) by {
                assert(rv[i] == full[i]);
            }
        }
    }
    sorted
}

// ---------------------------------------------------------------- candidates

/// The terms of an optional text.
pub open spec fn opt_terms(o: Option<Seq<char>>) -> Seq<Seq<char>> {
    match o {
        Some(s) => text_terms(s),
        None => Seq::<Seq<char>>::empty(),
    }
}

/// The length of an optional text.
pub open spec fn opt_len(o: Option<Seq<char>>) -> nat {
    match o {
        Some(s) => s.len(),
        None => 0,
    }
}

/// The weight of a term in a note: each occurrence in the title counts
/// three, in the category two, in the body one.
pub open spec fn tag_weight(category: Option<Seq<char>>, title: Option<Seq<char>>, body: Seq<char>, t: Seq<char>) -> nat {
    2 * count_in(opt_terms(category), t) + 3 * count_in(opt_terms(title), t) + count_in(text_terms(body), t)
}

/// The most characters the texts of one note may hold together, so that no
/// weight overflows.
pub open spec fn max_note_chars() -> nat {
    0x1000_0000_0000_0000
}

/// A tag suggested from the words of a note.
#[derive(Debug, Clone, PartialEq, Eq)]
pub struct LexicalCandidate {
    /// The term, lowercased.
    pub tag: String,
    /// Its weight in the note.
    pub count: u64,
    /// `lexical overlap count: <count>`.
    pub reason: String,
}

/// The reason text of a candidate.
pub open spec fn count_reason(c: u64) -> Seq<char> {
    "lexical overlap count: "@ + decimal_digits(c as nat)
}

/// The candidates as (term, weight) pairs.
pub open spec fn candidate_pairs(r: Seq<LexicalCandidate>) -> Seq<(Seq<char>, u64)> {
    r.map_values(|c: LexicalCandidate| (c.tag@, c.count))
}

/// The note's tags, lowercased.
pub open spec fn lowered(existing: Seq<String>) -> Seq<Seq<char>> {
    existing.map_values(|s: String| lowercase(s@))
}

/// What the tag candidates of a note are: at most
/// `MAX_SUGGESTIONS_PER_REQUEST` suggestible terms with their weights, in
/// rank order, and no suggestible term left out that ranks before one taken.
pub open spec fn ranked_candidates(
    r: Seq<(Seq<char>, u64)>,
    category: Option<Seq<char>>,
    title: Option<Seq<char>>,
    body: Seq<char>,
    existing_lower: Seq<Seq<char>>,
) -> bool {
    &&& r.len() <= MAX_SUGGESTIONS_PER_REQUEST
    &&& strictly_ranked(r)
    &&& forall|i: int| 0 <= i < r.len() ==> (#[trigger] r[i]).1 == tag_weight(category, title, body, r[i].0)
        && suggestible(r[i].0, r[i].1 as nat, existing_lower)
    &&& forall|t: Seq<char>| suggestible(t, tag_weight(category, title, body, t), existing_lower)
        && !(exists|i: int| 0 <= i < r.len() && (#[trigger] r[i]).0 == t)
        ==> r.len() == MAX_SUGGESTIONS_PER_REQUEST
            && forall|i: int| 0 <= i < r.len()
                ==> ranks_before(#[trigger] r[i], (t, tag_weight(category, title, body, t) as u64))
}

fn lower_all(existing: &[String]) -> (r: Vec<Vec<char>>)
    ensures
        crate::text::views(r@) == lowered(existing@),
{
    let mut r: Vec<Vec<char>> = Vec::new();
    let mut i: usize = 0;
    while i < existing.len()
        invariant
            i <= existing@.len(),
            crate::text::views(r@) =~= lowered(existing@).take(i as int),
        decreases existing.len() - i,
    {
        let low = to_lowercase(existing[i].as_str());
        let ghost before = r@;
        r.push(chars_of(low.as_str()));
        proof {
            crate::text::lemma_views_push(before, r@.last());
            assert(lowered(existing@).take(i + 1) =~= lowered(existing@).take(i as int).push(lowercase(existing@[i as int]@)));
        }
        i = i + 1;
    }
    proof { assert(lowered(existing@).take(existing@.len() as int) =~= lowered(existing@)); }
    r
}

fn opt_chars(o: Option<&str>) -> (r: Vec<char>)
    ensures
        r@ == match o { Some(s) => s@, None => Seq::<char>::empty() },
{
    match o {
        Some(s) => chars_of(s),
        None => Vec::new(),
    }
}

/// Ranks the terms of a note as tag candidates. `category` and `title` are
/// the note's frontmatter values, `existing` its tags.
pub fn rank_tag_candidates(category: Option<&str>, title: Option<&str>, body: &str, existing: &[String]) -> (r: Vec<LexicalCandidate>)
    requires
        opt_len(match category { Some(s) => Some(s@), None => None }) + opt_len(match title { Some(s) => Some(s@), None => None })
            + body@.len() <= max_note_chars(),
    ensures
        ranked_candidates(
            candidate_pairs(r@),
            match category { Some(s) => Some(s@), None => None },
            match title { Some(s) => Some(s@), None => None },
            body@,
            lowered(existing@),
        ),
        forall|i: int| 0 <= i < r@.len() ==> (#[trigger] r@[i]).reason@ == count_reason(r@[i].count),
{
    let ghost cat = match category { Some(s) => Some(s@), None => None::<Seq<char>> };
    let ghost tit = match title { Some(s) => Some(s@), None => None::<Seq<char>> };
    let mut table: Vec<(Vec<char>, u64)> = Vec::new();
    let ghost lc = opt_len(cat);
    let ghost lt = opt_len(tit);
    let ghost lb = body@.len();
    proof {
        assert(table_view(table@) =~= Seq::<(Seq<char>, u64)>::empty());
    }
    match category {
        Some(c) => {
            proof { assert(2 * (c@.len() + 1) <= u64::MAX); }
            add_terms(&mut table, c, 2, Ghost(0));
        },
        None => {},
    }
    let ghost b1: nat = (2 * (lc + 1)) as nat;
    proof {
        assert forall|s: Seq<char>| #[trigger] table_count(table_view(table@), s) == 2 * count_in(opt_terms(cat), s)
            && table_count(table_view(table@), s) <= b1 by {
            match category {
                Some(c) => { lemma_text_count_bound(c@, s); },
                None => {},
            }
        }
    }
    match title {
        Some(t) => {
            proof { assert(b1 + 3 * (t@.len() + 1) <= u64::MAX); }
            add_terms(&mut table, t, 3, Ghost(b1));
        },
        None => {},
    }
    let ghost b2: nat = (b1 + 3 * (lt + 1)) as nat;
    proof {
        assert forall|s: Seq<char>| #[trigger] table_count(table_view(table@), s)
            == 2 * count_in(opt_terms(cat), s) + 3 * count_in(opt_terms(tit), s)
            && table_count(table_view(table@), s) <= b2 by {
            match category {
                Some(c) => { lemma_text_count_bound(c@, s); },
                None => {},
            }
            match title {
                Some(t) => { lemma_text_count_bound(t@, s); },
                None => {},
            }
        }
        assert(b2 + 1 * (body@.len() + 1) <= u64::MAX);
    }
    add_terms(&mut table, body, 1, Ghost(b2));
    let ghost tv = table_view(table@);
    proof {
        assert forall|s: Seq<char>| #[trigger] table_count(tv, s) == tag_weight(cat, tit, body@, s) by {}
    }
    let lowered_existing = lower_all(existing);
    let ranked = top_ranked(&table, &lowered_existing);
    let mut out: Vec<LexicalCandidate> = Vec::new();
    let mut i: usize = 0;
    while i < ranked.len()
        invariant
            i <= ranked@.len(),
            candidate_pairs(out@) =~= table_view(ranked@).take(i as int),
            forall|k: int| 0 <= k < out@.len() ==> (#[trigger] out@[k]).reason@ == count_reason(out@[k].count),
        decreases ranked.len() - i,
    {
        let mut reason: Vec<char> = chars_of("lexical overlap count: ");
        push_decimal(&mut reason, ranked[i].1);
        let cand = LexicalCandidate {
            tag: string_of(&ranked[i].0),
            count: ranked[i].1,
            reason: string_of(&reason),
        };
        let ghost before = out@;
        out.push(cand);
        proof {
            assert(candidate_pairs(out@) =~= candidate_pairs(before).push((ranked@[i as int].0@, ranked@[i as int].1)));
            assert(table_view(ranked@).take(i + 1) =~= table_view(ranked@).take(i as int).push(table_view(ranked@)[i as int]));
        }
        i = i + 1;
    }
    proof {
        let rv = table_view(ranked@);
        let ex = crate::text::views(lowered_existing@);
        assert(rv.take(rv.len() as int) =~= rv);
        assert(candidate_pairs(out@) == rv);
        assert forall|k: int| 0 <= k < rv.len() implies (#[trigger] rv[k]).1 == tag_weight(cat, tit, body@, rv[k].0) by {
            assert(tv.contains(rv[k]));
            let j = choose|j: int| 0 <= j < tv.len() && tv[j] == rv[k];
            lemma_table_count_distinct(tv, j);
        }
        assert forall|t: Seq<char>| suggestible(t, tag_weight(cat, tit, body@, t), ex)
            && !(exists|i: int| 0 <= i < rv.len() && (#[trigger] rv[i]).0 == t)
            implies rv.len() == MAX_SUGGESTIONS_PER_REQUEST
                && forall|i: int| 0 <= i < rv.len() ==> ranks_before(#[trigger] rv[i], (t, tag_weight(cat, tit, body@, t) as u64)) by {
            lemma_table_count_present(tv, t);
            let j = choose|j: int| 0 <= j < tv.len() && (#[trigger] tv[j]).0 == t;
            lemma_table_count_distinct(tv, j);
            let x = tv[j];
            assert(tv.contains(x));
            if rv.contains(x) {
                let q = choose|q: int| 0 <= q < rv.len() && rv[q] == x;
                assert(rv[q].0 == t);
            }
        }
    }
    out
}

/// The tag candidates of a note from its frontmatter and body, or `None`
/// when its title, category and body together exceed `max_note_chars()`.
pub fn lexical_tag_candidates(frontmatter: &str, body: &str, existing: &[String]) -> (r: Option<Vec<LexicalCandidate>>)
    ensures
        r is Some <==> opt_len(yaml_scalar_spec(frontmatter@, "category"@)) + opt_len(yaml_scalar_spec(frontmatter@, "title"@))
            + body@.len() <= max_note_chars(),
        r matches Some(v) ==> ranked_candidates(
            candidate_pairs(v@),
            yaml_scalar_spec(frontmatter@, "category"@),
            yaml_scalar_spec(frontmatter@, "title"@),
            body@,
            lowered(existing@),
        ) && forall|i: int| 0 <= i < v@.len() ==> (#[trigger] v@[i]).reason@ == count_reason(v@[i].count),
{
    let category = yaml_scalar(frontmatter, "category");
    let title = yaml_scalar(frontmatter, "title");
    let lc = match &category { Some(c) => c.as_str().unicode_len(), None => 0 };
    let lt = match &title { Some(t) => t.as_str().unicode_len(), None => 0 };
    let lb = body.unicode_len();
    if lc as u128 + lt as u128 + lb as u128 > 0x1000_0000_0000_0000 {
        return None;
    }
    let c = match &category { Some(c) => Some(c.as_str()), None => None };
    let t = match &title { Some(t) => Some(t.as_str()), None => None };
    Some(rank_tag_candidates(c, t, body, existing))
}

} // verus!
