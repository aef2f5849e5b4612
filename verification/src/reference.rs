//! Extraction of `[[id]]` references from Markdown: each id is lowercased,
//! `/` becomes `-`, runs of `-` collapse and outer `-` are trimmed; the ids
//! come out sorted, without duplicates and without the note's own id.
use vstd::prelude::*;

use crate::text::{
    ascii_lower, chars_of, is_ascii_seq, lex_compare, lowercase, seq_lt, string_of,
    string_views, to_lowercase, views,
};

verus! {

/// Input of a reference-parsing request.
pub struct ReferenceInput {
    /// Raw Markdown content to extract `[[id]]` references from.
    pub content: String,
    /// Self-references to this entity id are filtered out.
    pub current_entity_id: Option<String>,
}

/// Output of a reference-parsing request.
pub struct ReferenceOutput {
    pub refs: Vec<String>,
}

/// A character allowed inside `[[...]]` references: `[a-zA-Z0-9_/-]`.
pub open spec fn is_ref_id_char(c: char) -> bool {
    ('a' <= c && c <= 'z') || ('A' <= c && c <= 'Z') || ('0' <= c && c <= '9') || c == '_'
        || c == '/' || c == '-'
}

/// The first position of `s` at or after `p` that holds no character of
/// the class, or `s.len()`.
pub open spec fn id_run_end(s: Seq<char>, p: int) -> int
    decreases s.len() - p,
{
    if p < 0 || p >= s.len() {
        s.len() as int
    } else if !is_ref_id_char(s[p]) {
        p
    } else {
        id_run_end(s, p + 1)
    }
}

/// Whether `\[\[([a-zA-Z0-9_/-]+)\]\]` matches at `j`: `[[`, then a
/// non-empty run of class characters, then `]]`. The run is taken whole,
/// since a shorter one would be followed by a class character, not `]`.
pub open spec fn id_link_at(s: Seq<char>, j: int) -> bool {
    let k = id_run_end(s, j + 2);
    0 <= j && j + 1 < s.len() && s[j] == '[' && s[j + 1] == '[' && j + 2 < k && k + 1 < s.len()
        && s[k] == ']' && s[k + 1] == ']'
}

/// The group-1 captures of the leftmost-first, non-overlapping matches of
/// `\[\[([a-zA-Z0-9_/-]+)\]\]` in `s` from `i` on.
pub open spec fn id_scan(s: Seq<char>, i: int) -> Seq<Seq<char>>
    decreases s.len() - i,
{
    if i < 0 || i >= s.len() {
        Seq::<Seq<char>>::empty()
    } else if id_link_at(s, i) {
        let k = id_run_end(s, i + 2);
        seq![s.subrange(i + 2, k)] + id_scan(s, k + 2)
    } else {
        id_scan(s, i + 1)
    }
}

/// The captures of `\[\[([a-zA-Z0-9_/-]+)\]\]` in `content`, in order.
pub open spec fn wiki_id_captures_spec(content: Seq<char>) -> Seq<Seq<char>> {
    id_scan(content, 0)
}

/// `regex::Regex::captures_iter` with `\[\[([a-zA-Z0-9_/-]+)\]\]`, group 1 of
/// each match. The contract claims that the matches are the leftmost-first,
/// non-overlapping ones (as the crate documents for `captures_iter`), and
/// that each capture is non-empty and made of characters of the class.
#[verifier::external_body]
fn wiki_id_captures(content: &str) -> (r: Vec<String>)
    ensures
        string_views(r@) == wiki_id_captures_spec(content@),
        forall|i: int| 0 <= i < r@.len() ==> (#[trigger] r@[i])@.len() > 0,
        forall|i: int, j: int| 0 <= i < r@.len() && 0 <= j < r@[i]@.len() ==> is_ref_id_char(#[trigger] r@[i]@[j]),
{
    let re = regex::Regex::new(r"\[\[([a-zA-Z0-9_/-]+)\]\]").unwrap();
    re.captures_iter(content).map(|c| c.get(1).unwrap().as_str().to_string()).collect()
}

/// `s` with every `/` and `\` replaced by `-`.
pub open spec fn slashes_to_dashes(s: Seq<char>) -> Seq<char> {
    s.map_values(|c: char| if c == '/' || c == '\\' { '-' } else { c })
}

/// `s` with every run of `-` collapsed to one `-`.
pub open spec fn collapse_dashes(s: Seq<char>) -> Seq<char>
    decreases s.len(),
{
    if s.len() == 0 {
        Seq::<char>::empty()
    } else {
        let r = collapse_dashes(s.drop_last());
        if s.last() == '-' && r.len() > 0 && r.last() == '-' {
            r
        } else {
            r.push(s.last())
        }
    }
}

/// `s` without leading `-`.
pub open spec fn trim_dashes_start(s: Seq<char>) -> Seq<char>
    decreases s.len(),
{
    if s.len() > 0 && s[0] == '-' {
        trim_dashes_start(s.drop_first())
    } else {
        s
    }
}

/// `s` without trailing `-`.
pub open spec fn trim_dashes_end(s: Seq<char>) -> Seq<char>
    decreases s.len(),
{
    if s.len() > 0 && s.last() == '-' {
        trim_dashes_end(s.drop_last())
    } else {
        s
    }
}

/// The normalised id of a raw reference: lowercased, `/` to `-`, dashes
/// collapsed, outer dashes trimmed.
pub open spec fn normalize_ref(raw: Seq<char>) -> Seq<char> {
    trim_dashes_end(trim_dashes_start(collapse_dashes(slashes_to_dashes(lowercase(raw)))))
}

/// Whether `s` is strictly increasing, hence free of duplicates.
pub open spec fn strictly_sorted(s: Seq<Seq<char>>) -> bool {
    forall|i: int, j: int| 0 <= i < j < s.len() ==> seq_lt(#[trigger] s[i], #[trigger] s[j])
}

/// Whether `x` is the normalised form of some capture.
pub open spec fn is_normalized_capture(caps: Seq<Seq<char>>, x: Seq<char>) -> bool {
    exists|i: int| 0 <= i < caps.len() && #[trigger] normalize_ref(caps[i]) == x
}

/// The ids `extract_ids` returns: sorted, distinct, exactly the normalised
/// captures other than the lowercased own id.
pub open spec fn extract_ids_ok(content: Seq<char>, current: Option<Seq<char>>, r: Seq<Seq<char>>) -> bool {
    let caps = wiki_id_captures_spec(content);
    &&& strictly_sorted(r)
    &&& forall|x: Seq<char>| r.contains(x) <==> (is_normalized_capture(caps, x) && match current {
        Some(c) => x != lowercase(c),
        None => true,
    })
}

/// Executable `normalize_ref` for a capture of reference characters.
fn normalize_capture(raw: &String) -> (r: Vec<char>)
    requires
        forall|j: int| 0 <= j < raw@.len() ==> is_ref_id_char(#[trigger] raw@[j]),
    ensures
        r@ == normalize_ref(raw@),
{
    proof {
        assert forall|j: int| 0 <= j < raw@.len() implies (#[trigger] raw@[j] as u32) < 128 by {
            assert(is_ref_id_char(raw@[j]));
        }
    }
    let lower = to_lowercase(raw.as_str());
    let low = chars_of(lower.as_str());
    // `/` and `\` to `-`
    let mut slashed: Vec<char> = Vec::new();
    let mut i: usize = 0;
    while i < low.len()
        invariant
            i <= low@.len(),
            slashed@ =~= slashes_to_dashes(low@).take(i as int),
        decreases low.len() - i,
    {
        let c = low[i];
        if c == '/' || c == '\\' {
            slashed.push('-');
        } else {
            slashed.push(c);
        }
        i = i + 1;
    }
    proof { assert(slashes_to_dashes(low@).take(low@.len() as int) =~= slashes_to_dashes(low@)); }
    // collapse runs of dashes
    let mut collapsed: Vec<char> = Vec::new();
    let mut k: usize = 0;
    proof { assert(slashed@.take(0) =~= Seq::<char>::empty()); }
    while k < slashed.len()
        invariant
            k <= slashed@.len(),
            collapsed@ == collapse_dashes(slashed@.take(k as int)),
        decreases slashed.len() - k,
    {
        let c = slashed[k];
        proof { assert(slashed@.take(k + 1).drop_last() =~= slashed@.take(k as int)); }
        if c == '-' && collapsed.len() > 0 && collapsed[collapsed.len() - 1] == '-' {
        } else {
            collapsed.push(c);
        }
        k = k + 1;
    }
    proof { assert(slashed@.take(slashed@.len() as int) =~= slashed@); }
    // trim outer dashes
    let mut a: usize = 0;
    proof { assert(collapsed@.skip(0) =~= collapsed@); }
    while a < collapsed.len() && collapsed[a] == '-'
        invariant
            a <= collapsed@.len(),
            trim_dashes_start(collapsed@) == trim_dashes_start(collapsed@.skip(a as int)),
        decreases collapsed.len() - a,
    {
        proof { assert(collapsed@.skip(a as int).drop_first() =~= collapsed@.skip(a + 1)); }
        a = a + 1;
    }
    let ghost t = collapsed@.skip(a as int);
    let mut b: usize = collapsed.len();
    proof { assert(t.take(t.len() as int) =~= t); }
    while b > a && collapsed[b - 1] == '-'
        invariant
            a <= b <= collapsed@.len(),
            t == collapsed@.skip(a as int),
            trim_dashes_end(t) == trim_dashes_end(t.take(b - a)),
        decreases b,
    {
        proof { assert(t.take(b - a).drop_last() =~= t.take(b - a - 1)); }
        b = b - 1;
    }
    let mut r: Vec<char> = Vec::new();
    let mut m: usize = a;
    while m < b
        invariant
            a <= m <= b <= collapsed@.len(),
            r@ =~= collapsed@.subrange(a as int, m as int),
        decreases b - m,
    {
        r.push(collapsed[m]);
        m = m + 1;
    }
    proof {
        assert(t.take(b - a) =~= collapsed@.subrange(a as int, b as int));
        assert(trim_dashes_start(collapsed@) == t);
    }
    r
}

/// Inserts `x` into the strictly sorted `v` unless it is already there.
fn insert_sorted(v: &mut Vec<Vec<char>>, x: Vec<char>)
    requires
        strictly_sorted(views(old(v)@)),
    ensures
        strictly_sorted(views(final(v)@)),
        forall|y: Seq<char>| views(final(v)@).contains(y) <==> (views(old(v)@).contains(y) || y == x@),
{
    let ghost old_v = views(v@);
    let mut pos: usize = 0;
    while pos < v.len() && lex_compare(&v[pos], &x) < 0
        invariant
            pos <= v@.len(),
            views(v@) == old_v,
            forall|k: int| 0 <= k < pos ==> seq_lt(#[trigger] old_v[k], x@),
        decreases v.len() - pos,
    {
        assert(old_v[pos as int] == v@[pos as int]@);
        pos = pos + 1;
    }
    if pos < v.len() && lex_compare(&v[pos], &x) == 0 {
        proof {
            assert(old_v[pos as int] == x@);
            assert(old_v.contains(x@));
        }
        return;
    }
    proof {
        if pos < v.len() {
            assert(old_v[pos as int] == v@[pos as int]@);
            crate::text::lemma_seq_lt_total(old_v[pos as int], x@);
        }
    }
    let ghost xv = x@;
    v.insert(pos, x);
    proof {
        let nv = views(v@);
        assert(nv =~= old_v.insert(pos as int, xv));
        assert forall|i: int, j: int| 0 <= i < j < nv.len() implies seq_lt(#[trigger] nv[i], #[trigger] nv[j]) by {
            if j < pos {
            } else if j == pos {
            } else if i == pos {
                // x < old_v[pos] <= old_v[j - 1]
                if j - 1 > pos {
                    crate::text::lemma_seq_lt_transitive(xv, old_v[pos as int], old_v[j - 1]);
                }
            } else if i < pos {
                // old_v[i] < x < old_v[pos] <= old_v[j - 1]
                crate::text::lemma_seq_lt_transitive(old_v[i], xv, old_v[pos as int]);
                if j - 1 > pos {
                    crate::text::lemma_seq_lt_transitive(old_v[i], old_v[pos as int], old_v[j - 1]);
                }
            } else {
            }
        }
        assert forall|y: Seq<char>| nv.contains(y) <==> (old_v.contains(y) || y == xv) by {
            if nv.contains(y) {
                let k = choose|k: int| 0 <= k < nv.len() && nv[k] == y;
                if k < pos {
                    assert(old_v[k] == y);
                } else if k > pos {
                    assert(old_v[k - 1] == y);
                }
            }
            if old_v.contains(y) {
                let k = choose|k: int| 0 <= k < old_v.len() && old_v[k] == y;
                if k < pos {
                    assert(nv[k] == y);
                } else {
                    assert(nv[k + 1] == y);
                }
            }
            if y == xv {
                assert(nv[pos as int] == y);
            }
        }
    }
}

/// The parser of `[[id]]` references.
pub struct ReferenceParser;

impl ReferenceParser {
    /// All distinct normalised `[[id]]` references of `content`, sorted; the
    /// lowercased `current_entity_id`, when given, is left out.
    pub fn extract_ids(content: &str, current_entity_id: Option<&str>) -> (r: Vec<String>)
        ensures
            extract_ids_ok(content@, match current_entity_id {
                Some(c) => Some(c@),
                None => None,
            }, string_views(r@)),
    {
        let caps = wiki_id_captures(content);
        let ghost gcaps = string_views(caps@);
        let mut ids: Vec<Vec<char>> = Vec::new();
        let mut i: usize = 0;
        while i < caps.len()
            invariant
                i <= caps@.len(),
                gcaps == string_views(caps@),
                gcaps == wiki_id_captures_spec(content@),
                forall|i: int, j: int| 0 <= i < caps@.len() && 0 <= j < caps@[i]@.len() ==> is_ref_id_char(#[trigger] caps@[i]@[j]),
                strictly_sorted(views(ids@)),
                forall|y: Seq<char>| views(ids@).contains(y) <==> exists|k: int| 0 <= k < i && #[trigger] normalize_ref(gcaps[k]) == y,
            decreases caps.len() - i,
        {
            let n = normalize_capture(&caps[i]);
            assert(gcaps[i as int] == caps@[i as int]@);
            let ghost nv = n@;
            insert_sorted(&mut ids, n);
            proof {
                assert forall|y: Seq<char>| views(ids@).contains(y) <==> exists|k: int| 0 <= k < i + 1 && #[trigger] normalize_ref(gcaps[k]) == y by {
                    if y == nv {
                        assert(normalize_ref(gcaps[i as int]) == y);
                    }
                    if exists|k: int| 0 <= k < i + 1 && #[trigger] normalize_ref(gcaps[k]) == y {
                        let k = choose|k: int| 0 <= k < i + 1 && #[trigger] normalize_ref(gcaps[k]) == y;
                        if k < i {
                        } else {
                            assert(y == nv);
                        }
                    }
                }
            }
            i = i + 1;
        }
        let ghost own: Option<Seq<char>> = match current_entity_id {
            Some(c) => Some(lowercase(c@)),
            None => None,
        };
        let own_chars: Option<Vec<char>> = match current_entity_id {
            Some(c) => {
                let l = to_lowercase(c);
                Some(chars_of(l.as_str()))
            },
            None => None,
        };
        let mut out: Vec<String> = Vec::new();
        let mut k: usize = 0;
        while k < ids.len()
            invariant
                k <= ids@.len(),
                strictly_sorted(views(ids@)),
                match own_chars {
                    Some(o) => own == Some(o@),
                    None => own.is_none(),
                },
                strictly_sorted(string_views(out@)),
                forall|m: int| #![trigger string_views(out@)[m]] 0 <= m < out@.len() ==> exists|q: int| 0 <= q < k && #[trigger] views(ids@)[q] == string_views(out@)[m],
                forall|q: int| 0 <= q < k ==> (string_views(out@).contains(#[trigger] views(ids@)[q]) <==> match own {
                    Some(o) => views(ids@)[q] != o,
                    None => true,
                }),
                forall|m: int| 0 <= m < out@.len() ==> (own.is_some() ==> string_views(out@)[m] != own.unwrap()),
                forall|m: int| #![trigger string_views(out@)[m]] 0 <= m < out@.len() ==> forall|q: int| k <= q < ids@.len() ==> seq_lt(string_views(out@)[m], #[trigger] views(ids@)[q]),
            decreases ids.len() - k,
        {
            let keep = match &own_chars {
                Some(o) => lex_compare(&ids[k], o) != 0,
                None => true,
            };
            let ghost cur = views(ids@)[k as int];
            assert(cur == ids@[k as int]@);
            if keep {
                let s = string_of(&ids[k]);
                let ghost before = string_views(out@);
                out.push(s);
                proof {
                    let now = string_views(out@);
                    assert(now =~= before.push(cur));
                    assert forall|a: int, b: int| 0 <= a < b < now.len() implies seq_lt(#[trigger] now[a], #[trigger] now[b]) by {
                        if b == now.len() - 1 {
                            assert(now[a] == before[a]);
                        } else {
                            assert(now[a] == before[a] && now[b] == before[b]);
                        }
                    }
                    assert forall|q: int| 0 <= q < k + 1 implies (now.contains(#[trigger] views(ids@)[q]) <==> match own {
                        Some(o) => views(ids@)[q] != o,
                        None => true,
                    }) by {
                        if q < k {
                            crate::text::lemma_seq_lt_irreflexive(views(ids@)[q]);
                            if now.contains(views(ids@)[q]) && !before.contains(views(ids@)[q]) {
                                assert(views(ids@)[q] == cur);
                                assert(seq_lt(views(ids@)[q], views(ids@)[k as int]));
                            }
                            if before.contains(views(ids@)[q]) {
                                let m = choose|m: int| 0 <= m < before.len() && before[m] == views(ids@)[q];
                                assert(now[m] == before[m]);
                            }
                        } else {
                            assert(now[now.len() - 1] == cur);
                        }
                    }
                    assert forall|m: int| #![trigger now[m]] 0 <= m < now.len() implies forall|q: int| k + 1 <= q < ids@.len() ==> seq_lt(now[m], #[trigger] views(ids@)[q]) by {
                        if m < before.len() {
                            assert(now[m] == before[m]);
                        } else {
                            assert(now[m] == cur);
                        }
                    }
                    assert forall|m: int| #![trigger now[m]] 0 <= m < now.len() implies exists|q: int| 0 <= q < k + 1 && #[trigger] views(ids@)[q] == now[m] by {
                        if m < before.len() {
                            assert(now[m] == before[m]);
                        } else {
                            assert(views(ids@)[k as int] == now[m]);
                        }
                    }
                }
            } else {
                proof {
                    let now = string_views(out@);
                    assert forall|q: int| 0 <= q < k + 1 implies (now.contains(#[trigger] views(ids@)[q]) <==> match own {
                        Some(o) => views(ids@)[q] != o,
                        None => true,
                    }) by {
                        if q == k {
                            if now.contains(cur) {
                                let m = choose|m: int| 0 <= m < now.len() && now[m] == cur;
                                crate::text::lemma_seq_lt_irreflexive(cur);
                            }
                        }
                    }
                }
            }
            k = k + 1;
        }
        proof {
            let r = string_views(out@);
            let caps_s = wiki_id_captures_spec(content@);
            assert forall|x: Seq<char>| r.contains(x) <==> (is_normalized_capture(caps_s, x) && match own {
                Some(c) => x != c,
                None => true,
            }) by {
                if r.contains(x) {
                    let m = choose|m: int| 0 <= m < r.len() && r[m] == x;
                    let q = choose|q: int| 0 <= q < ids@.len() && #[trigger] views(ids@)[q] == r[m];
                    assert(views(ids@).contains(x));
                    let kk = choose|kk: int| 0 <= kk < caps@.len() && #[trigger] normalize_ref(gcaps[kk]) == x;
                    assert(is_normalized_capture(caps_s, x));
                }
                if is_normalized_capture(caps_s, x) && match own { Some(c) => x != c, None => true } {
                    let kk = choose|kk: int| 0 <= kk < caps_s.len() && #[trigger] normalize_ref(caps_s[kk]) == x;
                    assert(views(ids@).contains(x));
                    let q = choose|q: int| 0 <= q < views(ids@).len() && views(ids@)[q] == x;
                    assert(r.contains(views(ids@)[q]));
                }
            }
        }
        out
    }

    /// Parses a request and returns its references.
    pub fn parse(input: ReferenceInput) -> (r: ReferenceOutput)
        ensures
            extract_ids_ok(input.content@, match input.current_entity_id {
                Some(c) => Some(c@),
                None => None,
            }, string_views(r.refs@)),
    {
        let refs = match &input.current_entity_id {
            Some(c) => Self::extract_ids(input.content.as_str(), Some(c.as_str())),
            None => Self::extract_ids(input.content.as_str(), None),
        };
        ReferenceOutput { refs }
    }
}

} // verus!
