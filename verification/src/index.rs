//! Values of the rebuildable search index and the full-text query it runs.
use vstd::prelude::*;

use crate::text::{is_whitespace, is_ws, join, join_chars, views};

verus! {

/// One hit of a full-text search.
#[derive(Debug, Clone, PartialEq, Eq)]
pub struct FtsHit {
    pub id: String,
    pub title: Option<String>,
    pub snippet: Option<String>,
}

/// Counts of a full rebuild of the index from the vault.
#[derive(Debug, Clone, Copy, PartialEq, Eq, Default, Structural)]
pub struct RebuildStats {
    /// Notes indexed.
    pub indexed: u32,
    /// Notes without an id, or templates, left out.
    pub skipped: u32,
    /// Notes whose id was already taken by another note.
    pub duplicates: u32,
}

/// Counts of one pass of the decay scheduler.
#[derive(Debug, Clone, Copy, PartialEq, Eq, Default, Structural)]
pub struct DecayResult {
    pub total: u32,
    pub decayed: u32,
    pub skipped_archived: u32,
    pub skipped_boost_protection: u32,
    pub errors: u32,
}

/// The pieces of `s` between whitespace characters, empty pieces included
/// (so `str::split_whitespace` yields exactly the non-empty ones).
pub open spec fn ws_pieces(s: Seq<char>) -> Seq<Seq<char>>
    decreases s.len(),
{
    if s.len() == 0 {
        seq![Seq::<char>::empty()]
    } else {
        let r = ws_pieces(s.drop_last());
        if is_ws(s.last()) {
            r.push(Seq::<char>::empty())
        } else {
            r.update(r.len() - 1, r.last().push(s.last()))
        }
    }
}

proof fn lemma_ws_pieces_nonempty(s: Seq<char>)
    ensures
        ws_pieces(s).len() >= 1,
    decreases s.len(),
{
    if s.len() > 0 {
        lemma_ws_pieces_nonempty(s.drop_last());
    }
}

/// `w` without its `"` characters.
pub open spec fn unquote(w: Seq<char>) -> Seq<char>
    decreases w.len(),
{
    if w.len() == 0 {
        w
    } else if w.last() == '"' {
        unquote(w.drop_last())
    } else {
        unquote(w.drop_last()).push(w.last())
    }
}

/// The pieces with their quotes removed, keeping those that are not empty.
pub open spec fn search_terms(pieces: Seq<Seq<char>>) -> Seq<Seq<char>>
    decreases pieces.len(),
{
    if pieces.len() == 0 {
        Seq::<Seq<char>>::empty()
    } else {
        let r = search_terms(pieces.drop_last());
        let u = unquote(pieces.last());
        if u.len() == 0 {
            r
        } else {
            r.push(u)
        }
    }
}

/// A term in double quotes, so the index reads it as a phrase and not as
/// query syntax.
pub open spec fn phrase(w: Seq<char>) -> Seq<char> {
    seq!['"'] + w + seq!['"']
}

/// The query run for a search text: each whitespace-separated word with its
/// quotes removed, as a quoted phrase, words that were only quotes dropped,
/// the phrases joined by single spaces (which the index reads as AND).
pub open spec fn fts_query_spec(q: Seq<char>) -> Seq<char> {
    join(search_terms(ws_pieces(q)).map_values(|w: Seq<char>| phrase(w)), seq![' '])
}

/// The number of `"` characters in `s`.
pub open spec fn quote_count(s: Seq<char>) -> nat
    decreases s.len(),
{
    if s.len() == 0 {
        0
    } else {
        quote_count(s.drop_last()) + if s.last() == '"' { 1nat } else { 0nat }
    }
}

/// Whether a piece of the search text is a word: it holds something other
/// than `"`.
pub open spec fn is_word(p: Seq<char>) -> bool {
    exists|i: int| 0 <= i < p.len() && p[i] != '"'
}

/// The number of words among the pieces.
pub open spec fn word_count(pieces: Seq<Seq<char>>) -> nat
    decreases pieces.len(),
{
    if pieces.len() == 0 {
        0
    } else {
        word_count(pieces.drop_last()) + if is_word(pieces.last()) { 1nat } else { 0nat }
    }
}

proof fn lemma_quote_count_concat(a: Seq<char>, b: Seq<char>)
    ensures
        quote_count(a + b) == quote_count(a) + quote_count(b),
    decreases b.len(),
{
    if b.len() == 0 {
        assert(a + b =~= a);
    } else {
        lemma_quote_count_concat(a, b.drop_last());
        assert((a + b).drop_last() =~= a + b.drop_last());
    }
}

proof fn lemma_unquote(w: Seq<char>)
    ensures
        quote_count(unquote(w)) == 0,
        unquote(w).len() > 0 <==> is_word(w),
    decreases w.len(),
{
    if w.len() > 0 {
        let init = w.drop_last();
        lemma_unquote(init);
        if w.last() == '"' {
            if is_word(w) {
                let i = choose|i: int| 0 <= i < w.len() && w[i] != '"';
                assert(init[i] != '"');
            }
            if is_word(init) {
                let i = choose|i: int| 0 <= i < init.len() && init[i] != '"';
                assert(w[i] != '"');
            }
        } else {
            assert(w[w.len() - 1] != '"');
            let u = unquote(init);
            assert(u.push(w.last()).drop_last() =~= u);
        }
    }
}

proof fn lemma_phrases_quote_count(pieces: Seq<Seq<char>>)
    ensures
        quote_count(join(search_terms(pieces).map_values(|w: Seq<char>| phrase(w)), seq![' ']))
            == 2 * word_count(pieces),
    decreases pieces.len(),
{
    if pieces.len() > 0 {
        let init = pieces.drop_last();
        lemma_phrases_quote_count(init);
        let t = search_terms(init);
        let u = unquote(pieces.last());
        lemma_unquote(pieces.last());
        if u.len() > 0 {
            let f = |w: Seq<char>| phrase(w);
            let l = t.push(u).map_values(f);
            assert(l.drop_last() =~= t.map_values(f));
            assert(l.last() == phrase(u));
            lemma_quote_count_concat(seq!['"'] + u, seq!['"']);
            lemma_quote_count_concat(seq!['"'], u);
            assert(quote_count(seq!['"']) == 1) by {
                assert(quote_count(Seq::<char>::empty()) == 0);
                assert(seq!['"'].drop_last() =~= Seq::<char>::empty());
                assert(seq!['"'].last() == '"');
            }
            if t.len() > 0 {
                lemma_quote_count_concat(join(t.map_values(f), seq![' ']) + seq![' '], phrase(u));
                lemma_quote_count_concat(join(t.map_values(f), seq![' ']), seq![' ']);
                assert(quote_count(seq![' ']) == 0) by {
                    assert(quote_count(Seq::<char>::empty()) == 0);
                    assert(seq![' '].drop_last() =~= Seq::<char>::empty());
                    assert(seq![' '].last() == ' ');
                }
            }
        }
    }
}

/// Every word of the search text reaches the query, as one quoted phrase:
/// the query holds exactly two `"` per word (a piece between whitespace
/// that is not only quotes), since the quotes inside words are removed.
pub proof fn law_query_quotes_every_word(q: Seq<char>)
    ensures
        quote_count(fts_query_spec(q)) == 2 * word_count(ws_pieces(q)),
{
    lemma_phrases_quote_count(ws_pieces(q));
}

/// Sanitises a search text into a full-text query.
pub fn fts_query(q: &str) -> (r: String)
    ensures
        r@ == fts_query_spec(q@),
{
    let v = crate::text::chars_of(q);
    let mut terms: Vec<Vec<char>> = Vec::new();
    let mut cur: Vec<char> = Vec::new();
    let mut i: usize = 0;
    proof { assert(v@.take(0) =~= Seq::<char>::empty()); }
    while i < v.len()
        invariant
            i <= v@.len(),
            views(terms@) == search_terms(ws_pieces(v@.take(i as int)).drop_last()),
            cur@ == unquote(ws_pieces(v@.take(i as int)).last()),
        decreases v.len() - i,
    {
        let c = v[i];
        let ghost pre = v@.take(i as int);
        let ghost p = ws_pieces(pre);
        proof {
            assert(v@.take(i + 1).drop_last() =~= pre);
            assert(v@.take(i + 1).last() == c);
            lemma_ws_pieces_nonempty(pre);
        }
        if is_whitespace(c) {
            proof {
                let np = p.push(Seq::<char>::empty());
                assert(np.drop_last() =~= p);
                assert(p =~= p.drop_last().push(p.last()));
            }
            if cur.len() > 0 {
                let ghost old_terms = terms@;
                terms.push(cur);
                proof { crate::text::lemma_views_push(old_terms, terms@.last()); }
            }
            cur = Vec::new();
            proof {
                assert(unquote(Seq::<char>::empty()) =~= Seq::<char>::empty());
            }
        } else {
            proof {
                let np = p.update(p.len() - 1, p.last().push(c));
                assert(np.drop_last() =~= p.drop_last());
                assert(p.last().push(c).drop_last() =~= p.last());
            }
            if c != '"' {
                cur.push(c);
            }
        }
        i = i + 1;
    }
    proof {
        assert(v@.take(v@.len() as int) =~= v@);
        lemma_ws_pieces_nonempty(v@);
        let p = ws_pieces(v@);
        assert(p =~= p.drop_last().push(p.last()));
    }
    if cur.len() > 0 {
        let ghost old_terms = terms@;
        terms.push(cur);
        proof { crate::text::lemma_views_push(old_terms, terms@.last()); }
    }
    let ghost ts = search_terms(ws_pieces(v@));
    assert(views(terms@) == ts);
    let mut quoted: Vec<Vec<char>> = Vec::new();
    let mut k: usize = 0;
    while k < terms.len()
        invariant
            k <= terms@.len(),
            views(terms@) == ts,
            views(quoted@) =~= ts.take(k as int).map_values(|w: Seq<char>| phrase(w)),
        decreases terms.len() - k,
    {
        let mut w: Vec<char> = Vec::new();
        w.push('"');
        crate::text::extend_chars(&mut w, &terms[k]);
        w.push('"');
        proof {
            assert(views(terms@)[k as int] == terms@[k as int]@);
            assert(w@ =~= phrase(ts[k as int]));
        }
        let ghost old_quoted = quoted@;
        quoted.push(w);
        proof {
            crate::text::lemma_views_push(old_quoted, w);
            assert(ts.take(k + 1).map_values(|w: Seq<char>| phrase(w))
                =~= ts.take(k as int).map_values(|w: Seq<char>| phrase(w)).push(phrase(ts[k as int])));
        }
        k = k + 1;
    }
    proof {
        assert(ts.take(ts.len() as int) =~= ts);
        assert(views(quoted@) =~= ts.map_values(|w: Seq<char>| phrase(w)));
    }
    let sep: Vec<char> = vec![' '];
    assert(sep@ =~= seq![' ']);
    let joined = join_chars(&quoted, &sep);
    crate::text::string_of(&joined)
}

/// The positions of the first occurrence of each value, in order.
pub open spec fn first_occurrences(s: Seq<Seq<char>>) -> Seq<int>
    decreases s.len(),
{
    if s.len() == 0 {
        Seq::<int>::empty()
    } else {
        let r = first_occurrences(s.drop_last());
        if s.drop_last().contains(s.last()) { r } else { r.push(s.len() - 1) }
    }
}

proof fn lemma_first_occurrences_len(s: Seq<Seq<char>>)
    ensures
        first_occurrences(s).len() <= s.len(),
    decreases s.len(),
{
    if s.len() > 0 {
        lemma_first_occurrences_len(s.drop_last());
    }
}

/// Picks the notes a rebuild indexes: of notes sharing an id, only the first
/// is indexed and the others count as duplicates. Returns the positions of
/// the indexed notes and the rebuild's counts.
pub fn select_unique_ids(ids: &[String], skipped: u32) -> (r: (Vec<usize>, RebuildStats))
    requires
        ids@.len() <= u32::MAX,
    ensures
        r.0@.map_values(|i: usize| i as int) == first_occurrences(crate::text::string_views(ids@)),
        r.1.indexed == r.0@.len(),
        r.1.duplicates == ids@.len() - r.0@.len(),
        r.1.skipped == skipped,
{
    let ghost sv = crate::text::string_views(ids@);
    let mut kept: Vec<usize> = Vec::new();
    let mut seen: Vec<Vec<char>> = Vec::new();
    let mut i: usize = 0;
    proof { assert(sv.take(0) =~= Seq::<Seq<char>>::empty()); }
    while i < ids.len()
        invariant
            i <= ids@.len() <= u32::MAX,
            sv == crate::text::string_views(ids@),
            kept@.map_values(|k: usize| k as int) == first_occurrences(sv.take(i as int)),
            forall|t: Seq<char>| views(seen@).contains(t) <==> sv.take(i as int).contains(t),
            kept@.len() <= i,
        decreases ids.len() - i,
    {
        let id = crate::text::chars_of(ids[i].as_str());
        let ghost pre = sv.take(i as int);
        let ghost nxt = sv.take(i + 1);
        proof {
            assert(nxt.drop_last() =~= pre);
            assert(nxt.last() == id@);
        }
        let mut found = false;
        let mut k: usize = 0;
        while k < seen.len()
            invariant
                k <= seen@.len(),
                !found ==> forall|j: int| 0 <= j < k ==> (#[trigger] seen@[j])@ != id@,
                found ==> views(seen@).contains(id@),
            decreases seen.len() - k,
        {
            if crate::text::eq_chars(&seen[k], &id) {
                proof { assert(views(seen@)[k as int] == id@); }
                found = true;
            }
            k = k + 1;
        }
        proof {
            if !found && views(seen@).contains(id@) {
                let j = choose|j: int| 0 <= j < views(seen@).len() && views(seen@)[j] == id@;
                assert(seen@[j]@ == id@);
            }
        }
        if !found {
            let ghost before = kept@;
            kept.push(i);
            proof {
                assert(kept@.map_values(|k: usize| k as int) =~= before.map_values(|k: usize| k as int).push(i as int));
            }
            let ghost old_seen = seen@;
            seen.push(id);
            proof {
                crate::text::lemma_views_push(old_seen, seen@.last());
                let vs = views(seen@);
                let vo = views(old_seen);
                assert forall|t: Seq<char>| vs.contains(t) <==> nxt.contains(t) by {
                    if vs.contains(t) {
                        let q = choose|q: int| 0 <= q < vs.len() && vs[q] == t;
                        if q < vo.len() {
                            assert(vo[q] == t);
                            assert(vo.contains(t));
                            let w = choose|w: int| 0 <= w < pre.len() && pre[w] == t;
                            assert(nxt[w] == t);
                        } else {
                            assert(nxt[i as int] == t);
                        }
                    }
                    if nxt.contains(t) {
                        let w = choose|w: int| 0 <= w < nxt.len() && nxt[w] == t;
                        if w < i {
                            assert(pre[w] == t);
                            assert(vo.contains(t));
                            let q = choose|q: int| 0 <= q < vo.len() && vo[q] == t;
                            assert(vs[q] == t);
                        } else {
                            assert(vs[vo.len() as int] == t);
                        }
                    }
                }
            }
        } else {
            proof {
                let vs = views(seen@);
                assert forall|t: Seq<char>| vs.contains(t) <==> nxt.contains(t) by {
                    if nxt.contains(t) {
                        let w = choose|w: int| 0 <= w < nxt.len() && nxt[w] == t;
                        if w < i {
                            assert(pre[w] == t);
                        }
                    }
                    if vs.contains(t) {
                        let w = choose|w: int| 0 <= w < pre.len() && pre[w] == t;
                        assert(nxt[w] == t);
                    }
                }
            }
        }
        i = i + 1;
    }
    proof { assert(sv.take(ids@.len() as int) =~= sv); }
    let indexed = kept.len() as u32;
    let duplicates = (ids.len() - kept.len()) as u32;
    (kept, RebuildStats { indexed, skipped, duplicates })
}

} // verus!
