//! The integer signals of related-entity suggestions: which entities may be
//! suggested, and how many terms, tags and graph neighbours two entities
//! share.
use vstd::prelude::*;

use crate::frontmatter::{yaml_scalar, yaml_scalar_spec};
use crate::lexical::{
    add_terms, count_in, distinct_terms, lemma_text_count_bound, max_note_chars,
    opt_len, opt_terms, table_count, table_view, text_terms,
};
use crate::text::{
    chars_of, eq_chars, eq_ignore_ascii_case, eq_ignore_case, lowercase, string_of,
    string_views, to_lowercase, views,
};

verus! {

/// Whether an entity is left out of the related suggestions of `source`:
/// the source itself, an archived entity (status `archived` in any ASCII
/// case), or one the source already links to.
pub open spec fn excluded_spec(
    source_id: Seq<char>,
    candidate_id: Seq<char>,
    status: Option<Seq<char>>,
    source_neighbors: Seq<Seq<char>>,
) -> bool {
    candidate_id == source_id
        || (status matches Some(s) && eq_ignore_case(s, "archived"@))
        || source_neighbors.contains(candidate_id)
}

/// Whether a candidate entity is left out of `source_id`'s related
/// suggestions; `source_neighbors` are the entities the source links to.
pub fn related_candidate_excluded(
    source_id: &str,
    candidate_id: &str,
    candidate_status: Option<&str>,
    source_neighbors: &[String],
) -> (r: bool)
    ensures
        r == excluded_spec(
            source_id@,
            candidate_id@,
            match candidate_status { Some(s) => Some(s@), None => None },
            string_views(source_neighbors@),
        ),
{
    let c = chars_of(candidate_id);
    if eq_chars(&c, &chars_of(source_id)) {
        return true;
    }
    match candidate_status {
        Some(s) => {
            if eq_ignore_ascii_case(&chars_of(s), &chars_of("archived")) {
                return true;
            }
        },
        None => {},
    }
    let mut i: usize = 0;
    while i < source_neighbors.len()
        invariant
            i <= source_neighbors@.len(),
            c@ == candidate_id@,
            forall|k: int| 0 <= k < i ==> (#[trigger] source_neighbors@[k])@ != candidate_id@,
        decreases source_neighbors.len() - i,
    {
        if eq_chars(&chars_of(source_neighbors[i].as_str()), &c) {
            proof { assert(string_views(source_neighbors@)[i as int] == candidate_id@); }
            return true;
        }
        i = i + 1;
    }
    proof {
        if string_views(source_neighbors@).contains(candidate_id@) {
            let k = choose|k: int| 0 <= k < source_neighbors@.len() && string_views(source_neighbors@)[k] == candidate_id@;
            assert(source_neighbors@[k]@ == candidate_id@);
        }
    }
    false
}

/// The number of distinct values of `a` that also occur in `b` (the size of
/// the intersection of the two as sets).
pub open spec fn shared_spec(a: Seq<Seq<char>>, b: Seq<Seq<char>>) -> nat
    decreases a.len(),
{
    if a.len() == 0 {
        0
    } else {
        let rest = a.drop_last();
        shared_spec(rest, b) + if b.contains(a.last()) && !rest.contains(a.last()) { 1nat } else { 0nat }
    }
}

proof fn lemma_shared_le(a: Seq<Seq<char>>, b: Seq<Seq<char>>)
    ensures
        shared_spec(a, b) <= a.len(),
    decreases a.len(),
{
    if a.len() > 0 {
        lemma_shared_le(a.drop_last(), b);
    }
}

fn contains_text(list: &Vec<Vec<char>>, upto: usize, t: &Vec<char>) -> (r: bool)
    requires
        upto <= list@.len(),
    ensures
        r == views(list@).take(upto as int).contains(t@),
{
    let mut i: usize = 0;
    while i < upto
        invariant
            i <= upto <= list@.len(),
            forall|k: int| 0 <= k < i ==> (#[trigger] list@[k])@ != t@,
        decreases upto - i,
    {
        if eq_chars(&list[i], t) {
            proof { assert(views(list@).take(upto as int)[i as int] == t@); }
            return true;
        }
        i = i + 1;
    }
    proof {
        if views(list@).take(upto as int).contains(t@) {
            let k = choose|k: int| 0 <= k < upto && views(list@).take(upto as int)[k] == t@;
            assert(list@[k]@ == t@);
        }
    }
    false
}

/// The number of values shared by two character-vector lists.
fn shared_of(a: &Vec<Vec<char>>, b: &Vec<Vec<char>>) -> (r: usize)
    ensures
        r == shared_spec(views(a@), views(b@)),
{
    let ghost av = views(a@);
    let ghost bv = views(b@);
    let mut n: usize = 0;
    let mut i: usize = 0;
    proof { assert(av.take(0) =~= Seq::<Seq<char>>::empty()); }
    while i < a.len()
        invariant
            i <= a@.len(),
            av == views(a@),
            bv == views(b@),
            n == shared_spec(av.take(i as int), bv),
        decreases a.len() - i,
    {
        proof {
            assert(av.take(i + 1).drop_last() =~= av.take(i as int));
            assert(av.take(i + 1).last() == a@[i as int]@);
            lemma_shared_le(av.take(i as int), bv);
        }
        let in_b = contains_text(b, b.len(), &a[i]);
        let seen = contains_text(a, i, &a[i]);
        proof {
            assert(views(b@).take(b@.len() as int) =~= bv);
        }
        if in_b && !seen {
            n = n + 1;
        }
        i = i + 1;
    }
    proof { assert(av.take(a@.len() as int) =~= av); }
    n
}

fn char_lists(v: &[String]) -> (r: Vec<Vec<char>>)
    ensures
        views(r@) == string_views(v@),
{
    let mut r: Vec<Vec<char>> = Vec::new();
    let mut i: usize = 0;
    while i < v.len()
        invariant
            i <= v@.len(),
            views(r@) =~= string_views(v@).take(i as int),
        decreases v.len() - i,
    {
        let ghost before = r@;
        r.push(chars_of(v[i].as_str()));
        proof {
            crate::text::lemma_views_push(before, r@.last());
            assert(string_views(v@).take(i + 1) =~= string_views(v@).take(i as int).push(v@[i as int]@));
        }
        i = i + 1;
    }
    proof { assert(string_views(v@).take(v@.len() as int) =~= string_views(v@)); }
    r
}

/// How many distinct values two lists share: the shared terms or the
/// shared graph neighbours of two entities.
pub fn shared_count(a: &[String], b: &[String]) -> (r: usize)
    ensures
        r == shared_spec(string_views(a@), string_views(b@)),
{
    let av = char_lists(a);
    let bv = char_lists(b);
    shared_of(&av, &bv)
}

/// The values of a list, lowercased.
pub open spec fn lowered_all(v: Seq<String>) -> Seq<Seq<char>> {
    v.map_values(|s: String| lowercase(s@))
}

fn lower_lists(v: &[String]) -> (r: Vec<Vec<char>>)
    ensures
        views(r@) == lowered_all(v@),
{
    let mut r: Vec<Vec<char>> = Vec::new();
    let mut i: usize = 0;
    while i < v.len()
        invariant
            i <= v@.len(),
            views(r@) =~= lowered_all(v@).take(i as int),
        decreases v.len() - i,
    {
        let low = to_lowercase(v[i].as_str());
        let ghost before = r@;
        r.push(chars_of(low.as_str()));
        proof {
            crate::text::lemma_views_push(before, r@.last());
            assert(lowered_all(v@).take(i + 1) =~= lowered_all(v@).take(i as int).push(lowercase(v@[i as int]@)));
        }
        i = i + 1;
    }
    proof { assert(lowered_all(v@).take(v@.len() as int) =~= lowered_all(v@)); }
    r
}

/// How many tags two entities share, compared lowercased.
pub fn shared_tag_count(a: &[String], b: &[String]) -> (r: usize)
    ensures
        r == shared_spec(lowered_all(a@), lowered_all(b@)),
{
    let av = lower_lists(a);
    let bv = lower_lists(b);
    shared_of(&av, &bv)
}

/// Whether `t` is a term of a note with the given category, title and body.
pub open spec fn is_note_term(category: Option<Seq<char>>, title: Option<Seq<char>>, body: Seq<char>, t: Seq<char>) -> bool {
    count_in(opt_terms(category), t) + count_in(opt_terms(title), t) + count_in(text_terms(body), t) > 0
}

/// The distinct terms of a note's category, title and body, or `None` when
/// those together exceed `max_note_chars()`.
pub fn lexical_term_set(frontmatter: &str, body: &str) -> (r: Option<Vec<String>>)
    ensures
        r is Some <==> opt_len(yaml_scalar_spec(frontmatter@, "category"@)) + opt_len(yaml_scalar_spec(frontmatter@, "title"@))
            + body@.len() <= max_note_chars(),
        r matches Some(v) ==> {
            &&& forall|i: int, j: int| 0 <= i < j < v@.len() ==> (#[trigger] v@[i])@ != (#[trigger] v@[j])@
            &&& forall|t: Seq<char>| string_views(v@).contains(t) <==> is_note_term(
                yaml_scalar_spec(frontmatter@, "category"@), yaml_scalar_spec(frontmatter@, "title"@), body@, t)
        },
{
    let category = yaml_scalar(frontmatter, "category");
    let title = yaml_scalar(frontmatter, "title");
    let lc = match &category { Some(c) => c.as_str().unicode_len(), None => 0 };
    let lt = match &title { Some(t) => t.as_str().unicode_len(), None => 0 };
    let lb = body.unicode_len();
    if lc as u128 + lt as u128 + lb as u128 > 0x1000_0000_0000_0000 {
        return None;
    }
    let ghost cat = yaml_scalar_spec(frontmatter@, "category"@);
    let ghost tit = yaml_scalar_spec(frontmatter@, "title"@);
    let mut table: Vec<(Vec<char>, u64)> = Vec::new();
    proof { assert(table_view(table@) =~= Seq::<(Seq<char>, u64)>::empty()); }
    match &category {
        Some(c) => { add_terms(&mut table, c.as_str(), 1, Ghost(0)); },
        None => {},
    }
    let ghost b1: nat = (lc + 1) as nat;
    proof {
        assert forall|s: Seq<char>| #[trigger] table_count(table_view(table@), s) == count_in(opt_terms(cat), s)
            && table_count(table_view(table@), s) <= b1 by {
            match &category {
                Some(c) => { lemma_text_count_bound(c@, s); },
                None => {},
            }
        }
    }
    match &title {
        Some(t) => { add_terms(&mut table, t.as_str(), 1, Ghost(b1)); },
        None => {},
    }
    let ghost b2: nat = (b1 + lt + 1) as nat;
    proof {
        assert forall|s: Seq<char>| #[trigger] table_count(table_view(table@), s)
            == count_in(opt_terms(cat), s) + count_in(opt_terms(tit), s)
            && table_count(table_view(table@), s) <= b2 by {
            match &category {
                Some(c) => { lemma_text_count_bound(c@, s); },
                None => {},
            }
            match &title {
                Some(t) => { lemma_text_count_bound(t@, s); },
                None => {},
            }
        }
    }
    add_terms(&mut table, body, 1, Ghost(b2));
    let ghost tv = table_view(table@);
    let mut out: Vec<String> = Vec::new();
    let mut i: usize = 0;
    while i < table.len()
        invariant
            i <= table@.len(),
            tv == table_view(table@),
            distinct_terms(tv),
            forall|t: Seq<char>| string_views(out@).contains(t)
                <==> (exists|k: int| 0 <= k < i && (#[trigger] tv[k]).0 == t && tv[k].1 > 0),
            forall|a: int, b: int| 0 <= a < b < out@.len() ==> (#[trigger] out@[a])@ != (#[trigger] out@[b])@,
        decreases table.len() - i,
    {
        proof { assert(tv[i as int] == (table@[i as int].0@, table@[i as int].1)); }
        if table[i].1 > 0 {
            let ghost before = string_views(out@);
            let ghost old_out = out@;
            out.push(string_of(&table[i].0));
            proof {
                assert(string_views(out@) =~= before.push(tv[i as int].0));
                assert forall|t: Seq<char>| string_views(out@).contains(t)
                    <==> (exists|k: int| 0 <= k < i + 1 && (#[trigger] tv[k]).0 == t && tv[k].1 > 0) by {
                    if string_views(out@).contains(t) {
                        let q = choose|q: int| 0 <= q < string_views(out@).len() && string_views(out@)[q] == t;
                        if q < before.len() {
                            assert(before.contains(t));
                        } else {
                            assert(tv[i as int].0 == t);
                        }
                    }
                    if exists|k: int| 0 <= k < i + 1 && (#[trigger] tv[k]).0 == t && tv[k].1 > 0 {
                        let k = choose|k: int| 0 <= k < i + 1 && (#[trigger] tv[k]).0 == t && tv[k].1 > 0;
                        if k == i {
                            assert(string_views(out@)[before.len() as int] == t);
                        } else {
                            assert(before.contains(t));
                            let q = choose|q: int| 0 <= q < before.len() && before[q] == t;
                            assert(string_views(out@)[q] == t);
                        }
                    }
                }
                assert forall|a: int, b: int| 0 <= a < b < out@.len() implies (#[trigger] out@[a])@ != (#[trigger] out@[b])@ by {
                    if b == out@.len() - 1 {
                        assert(out@[b]@ == tv[i as int].0);
                        assert(before.contains(out@[a]@)) by { assert(before[a] == out@[a]@); }
                        let k = choose|k: int| 0 <= k < i && (#[trigger] tv[k]).0 == out@[a]@ && tv[k].1 > 0;
                        assert(tv[k].0 != tv[i as int].0);
                    } else {
                        assert(out@[a] == old_out[a] && out@[b] == old_out[b]);
                    }
                }
            }
        }
        i = i + 1;
    }
    proof {
        let keys = string_views(out@);
        assert forall|t: Seq<char>| keys.contains(t) <==> is_note_term(cat, tit, body@, t) by {
            if keys.contains(t) {
                let k = choose|k: int| 0 <= k < table@.len() && (#[trigger] tv[k]).0 == t && tv[k].1 > 0;
                crate::lexical::lemma_table_count_distinct(tv, k);
            }
            if is_note_term(cat, tit, body@, t) {
                crate::lexical::lemma_table_count_present(tv, t);
                let k = choose|k: int| 0 <= k < tv.len() && (#[trigger] tv[k]).0 == t;
                crate::lexical::lemma_table_count_distinct(tv, k);
            }
        }
    }
    Some(out)
}

/// The candidates left out of a source's related suggestions are exactly
/// the source itself, archived entities (any ASCII case of `archived`), and
/// every entity the source already links to, wherever it stands among the
/// source's neighbours.
pub proof fn law_related_exclusion(
    source_id: Seq<char>,
    candidate_id: Seq<char>,
    status: Option<Seq<char>>,
    source_neighbors: Seq<Seq<char>>,
)
    ensures
        forall|i: int| 0 <= i < source_neighbors.len() && #[trigger] source_neighbors[i] == candidate_id
            ==> excluded_spec(source_id, candidate_id, status, source_neighbors),
        candidate_id == source_id ==> excluded_spec(source_id, candidate_id, status, source_neighbors),
        (status matches Some(s) && eq_ignore_case(s, "archived"@))
            ==> excluded_spec(source_id, candidate_id, status, source_neighbors),
        excluded_spec(source_id, candidate_id, status, source_neighbors) ==> (
            candidate_id == source_id
            || (status matches Some(s) && eq_ignore_case(s, "archived"@))
            || exists|i: int| 0 <= i < source_neighbors.len() && #[trigger] source_neighbors[i] == candidate_id),
{
    assert forall|i: int| 0 <= i < source_neighbors.len() && #[trigger] source_neighbors[i] == candidate_id
        implies excluded_spec(source_id, candidate_id, status, source_neighbors) by {
        assert(source_neighbors.contains(candidate_id));
    }
}

} // verus!
