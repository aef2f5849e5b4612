//! The `tags` of a note's frontmatter: reading them as canonical values and
//! adding one by rewriting only the `tags:` block.
use vstd::prelude::*;

use crate::frontmatter::{first_score_line_from, is_top_level_line, next_top_level_from, score_key};
use crate::suggestions::{tag_present, tag_present_spec};
use crate::text::{
    chars_of, extend_chars, join, join_chars, lines, lines_of, opt_view, starts_with,
    eq_ignore_case, starts_with_chars, string_of, string_views, trim, trim_chars, views,
};

verus! {

/// The entries under the frontmatter's `tags` key, each its text when it is
/// a string: the items of a sequence, in order, or the value itself when it
/// is a string; nothing when the text is not YAML, or `tags` is absent or of
/// another kind (a name for what `serde_yaml` gives).
pub uninterp spec fn yaml_tag_entries_spec(frontmatter: Seq<char>) -> Seq<Option<Seq<char>>>;

/// The texts of optional strings.
pub open spec fn opt_views(v: Seq<Option<String>>) -> Seq<Option<Seq<char>>> {
    v.map_values(|o: Option<String>| opt_view(o))
}

/// `serde_yaml::from_str` of the frontmatter, then the entries of its `tags`
/// value, each read as a string where it is one. The contract claims that
/// the result depends on the frontmatter alone.
#[verifier::external_body]
fn yaml_tag_entries(frontmatter: &str) -> (r: Vec<Option<String>>)
    ensures
        opt_views(r@) == yaml_tag_entries_spec(frontmatter@),
{
    let Ok(value) = serde_yaml::from_str::<serde_yaml::Value>(frontmatter) else { return Vec::new() };
    match value.as_mapping().and_then(|m| m.get(serde_yaml::Value::String("tags".into()))) {
        Some(serde_yaml::Value::Sequence(values)) => values.iter().map(|v| v.as_str().map(ToString::to_string)).collect(),
        Some(serde_yaml::Value::String(value)) => vec![Some(value.clone())],
        _ => Vec::new(),
    }
}

/// `s` without its leading `#` characters (`str::trim_start_matches('#')`).
pub open spec fn strip_hashes(s: Seq<char>) -> Seq<char>
    decreases s.len(),
{
    if s.len() > 0 && s[0] == '#' {
        strip_hashes(s.drop_first())
    } else {
        s
    }
}

/// A tag entry as a canonical value: trimmed, without leading `#`, trimmed.
pub open spec fn clean_tag(v: Seq<char>) -> Seq<char> {
    trim(strip_hashes(trim(v)))
}

/// The canonical tags of a list of entries: the strings among them,
/// cleaned, empty ones dropped, and only the first of those equal up to
/// ASCII case kept, in order.
pub open spec fn canonical_tags(vs: Seq<Option<Seq<char>>>) -> Seq<Seq<char>>
    decreases vs.len(),
{
    if vs.len() == 0 {
        Seq::<Seq<char>>::empty()
    } else {
        let r = canonical_tags(vs.drop_last());
        match vs.last() {
            Some(v) => {
                let c = clean_tag(v);
                if c.len() > 0 && !tag_present_spec(r, c) {
                    r.push(c)
                } else {
                    r
                }
            },
            None => r,
        }
    }
}

/// The tags of a frontmatter text.
pub open spec fn extract_tags_spec(frontmatter: Seq<char>) -> Seq<Seq<char>> {
    canonical_tags(yaml_tag_entries_spec(frontmatter))
}

proof fn lemma_canonical_tags_distinct(vs: Seq<Option<Seq<char>>>)
    ensures
        forall|i: int, j: int| 0 <= i < j < canonical_tags(vs).len()
            ==> !eq_ignore_case(#[trigger] canonical_tags(vs)[i], #[trigger] canonical_tags(vs)[j]),
        forall|i: int| 0 <= i < canonical_tags(vs).len() ==> #[trigger] canonical_tags(vs)[i].len() > 0,
    decreases vs.len(),
{
    if vs.len() > 0 {
        lemma_canonical_tags_distinct(vs.drop_last());
        let r = canonical_tags(vs.drop_last());
        match vs.last() {
            Some(v) => {
                let c = clean_tag(v);
                if c.len() > 0 && !tag_present_spec(r, c) {
                    let out = r.push(c);
                    assert(canonical_tags(vs) == out);
                    assert forall|i: int, j: int| 0 <= i < j < out.len()
                        implies !eq_ignore_case(#[trigger] out[i], #[trigger] out[j]) by {
                        if j == r.len() {
                            assert(out[i] == r[i]);
                            assert(!eq_ignore_case(r[i], c));
                        } else {
                            assert(out[i] == r[i] && out[j] == r[j]);
                        }
                    }
                    assert forall|i: int| 0 <= i < out.len() implies #[trigger] out[i].len() > 0 by {
                        if i < r.len() {
                            assert(out[i] == r[i]);
                        }
                    }
                }
            },
            None => {},
        }
    }
}

/// No two tags read from a frontmatter are equal up to ASCII case, and none
/// is empty.
pub proof fn law_extracted_tags_are_distinct(frontmatter: Seq<char>)
    ensures
        forall|i: int, j: int| 0 <= i < j < extract_tags_spec(frontmatter).len()
            ==> !eq_ignore_case(#[trigger] extract_tags_spec(frontmatter)[i], #[trigger] extract_tags_spec(frontmatter)[j]),
        forall|i: int| 0 <= i < extract_tags_spec(frontmatter).len()
            ==> #[trigger] extract_tags_spec(frontmatter)[i].len() > 0,
{
    lemma_canonical_tags_distinct(yaml_tag_entries_spec(frontmatter));
}

fn strip_hash_chars(s: &[char]) -> (r: Vec<char>)
    ensures
        r@ == strip_hashes(s@),
{
    let mut i: usize = 0;
    proof { assert(s@.skip(0) =~= s@); }
    while i < s.len() && s[i] == '#'
        invariant
            i <= s@.len(),
            strip_hashes(s@) == strip_hashes(s@.skip(i as int)),
        decreases s.len() - i,
    {
        proof { assert(s@.skip(i as int).drop_first() =~= s@.skip(i + 1)); }
        i = i + 1;
    }
    let mut r: Vec<char> = Vec::new();
    let mut k: usize = i;
    while k < s.len()
        invariant
            i <= k <= s@.len(),
            r@ =~= s@.subrange(i as int, k as int),
        decreases s.len() - k,
    {
        r.push(s[k]);
        k = k + 1;
    }
    proof { assert(r@ =~= s@.skip(i as int)); }
    r
}

/// The tags of a frontmatter text: the string entries of `tags`, trimmed and
/// without leading `#`, empty ones dropped, duplicates (ignoring ASCII case)
/// dropped after their first occurrence.
pub fn extract_tags(frontmatter: &str) -> (r: Vec<String>)
    ensures
        string_views(r@) == extract_tags_spec(frontmatter@),
{
    let entries = yaml_tag_entries(frontmatter);
    let ghost es = opt_views(entries@);
    let mut out: Vec<String> = Vec::new();
    let mut i: usize = 0;
    proof { assert(es.take(0) =~= Seq::<Option<Seq<char>>>::empty()); }
    while i < entries.len()
        invariant
            i <= entries@.len(),
            es == opt_views(entries@),
            string_views(out@) == canonical_tags(es.take(i as int)),
        decreases entries.len() - i,
    {
        proof {
            assert(es.take(i + 1).drop_last() =~= es.take(i as int));
            assert(es.take(i + 1).last() == opt_view(entries@[i as int]));
        }
        match &entries[i] {
            Some(entry) => {
                let raw = chars_of(entry.as_str());
                let c = trim_chars(&strip_hash_chars(&trim_chars(&raw)));
                if c.len() > 0 {
                    let cs = string_of(&c);
                    if !tag_present(&out, cs.as_str()) {
                        let ghost before = string_views(out@);
                        out.push(cs);
                        proof { assert(string_views(out@) =~= before.push(c@)); }
                    }
                }
            },
            None => {},
        }
        i = i + 1;
    }
    proof { assert(es.take(entries@.len() as int) =~= es); }
    out
}

// ---------------------------------------------------------------- adding a tag

/// The YAML text of a string scalar, or `None` when it cannot be written (a
/// name for what `serde_yaml::to_string` gives for a string).
pub uninterp spec fn yaml_string_spec(value: Seq<char>) -> Option<Seq<char>>;

/// `serde_yaml::to_string` of a string value. The contract claims that the
/// result depends on the value alone.
#[verifier::external_body]
fn yaml_string(value: &str) -> (r: Option<String>)
    ensures
        opt_view(r) == yaml_string_spec(value@),
{
    serde_yaml::to_string(value).ok()
}

/// `v` with each `'` doubled (`str::replace('\'', "''")`).
pub open spec fn double_quotes(v: Seq<char>) -> Seq<char>
    decreases v.len(),
{
    if v.len() == 0 {
        v
    } else if v.last() == '\'' {
        double_quotes(v.drop_last()) + seq!['\'', '\'']
    } else {
        double_quotes(v.drop_last()).push(v.last())
    }
}

/// A tag as written in the block: its YAML text, or, where YAML writing
/// fails, the tag in single quotes with its quotes doubled; trimmed.
pub open spec fn written_tag(v: Seq<char>) -> Seq<char> {
    trim(match yaml_string_spec(v) {
        Some(s) => s,
        None => seq!['\''] + double_quotes(v) + seq!['\''],
    })
}

/// The line of one tag in the block.
pub open spec fn tag_line(v: Seq<char>) -> Seq<char> {
    seq![' ', ' ', '-', ' '] + written_tag(v)
}

/// The `tags:` key.
pub open spec fn tags_key() -> Seq<char> {
    seq!['t', 'a', 'g', 's', ':']
}

/// The lines of a `tags` block listing `tags`.
pub open spec fn tags_block(tags: Seq<Seq<char>>) -> Seq<Seq<char>> {
    seq![tags_key()] + tags.map_values(|v: Seq<char>| tag_line(v))
}

/// The index of the first line at or after `from` that starts with `key`,
/// or `ls.len()`.
pub open spec fn first_line_with(ls: Seq<Seq<char>>, key: Seq<char>, from: int) -> int
    decreases ls.len() - from,
{
    if from >= ls.len() {
        ls.len() as int
    } else if starts_with(ls[from], key) {
        from
    } else {
        first_line_with(ls, key, from + 1)
    }
}

/// The frontmatter with `tag` added: its `tags:` block (the `tags:` line and
/// the indented or empty lines after it) replaced by a block listing the
/// existing tags and `tag`; without one, the block goes before the `score:`
/// line, or at the end. Lines are joined by `\n`.
pub open spec fn add_tag_spec(frontmatter: Seq<char>, tag: Seq<char>) -> Seq<char> {
    let ls = lines(frontmatter);
    let block = tags_block(extract_tags_spec(frontmatter).push(tag));
    let start = first_line_with(ls, tags_key(), 0);
    let out = if start < ls.len() {
        let end = next_top_level_from(ls, start + 1);
        ls.subrange(0, start) + block + ls.subrange(end, ls.len() as int)
    } else {
        let sc = first_score_line_from(ls, 0);
        if sc < ls.len() {
            ls.subrange(0, sc) + block + ls.subrange(sc, ls.len() as int)
        } else {
            ls + block
        }
    };
    join(out, seq!['\n'])
}

proof fn lemma_first_line_with_bounds(ls: Seq<Seq<char>>, key: Seq<char>, from: int)
    requires
        0 <= from <= ls.len(),
    ensures
        from <= first_line_with(ls, key, from) <= ls.len(),
        first_line_with(ls, key, from) < ls.len() ==> starts_with(ls[first_line_with(ls, key, from)], key),
    decreases ls.len() - from,
{
    if from < ls.len() && !starts_with(ls[from], key) {
        lemma_first_line_with_bounds(ls, key, from + 1);
    }
}

proof fn lemma_score_line_is_first_line_with(ls: Seq<Seq<char>>, from: int)
    requires
        0 <= from <= ls.len(),
    ensures
        first_score_line_from(ls, from) == first_line_with(ls, score_key(), from),
    decreases ls.len() - from,
{
    if from < ls.len() && !starts_with(ls[from], score_key()) {
        lemma_score_line_is_first_line_with(ls, from + 1);
    }
}

proof fn lemma_next_top_level_bounds(ls: Seq<Seq<char>>, from: int)
    requires
        0 <= from <= ls.len(),
    ensures
        from <= next_top_level_from(ls, from) <= ls.len(),
    decreases ls.len() - from,
{
    if from < ls.len() && !is_top_level_line(ls[from]) {
        lemma_next_top_level_bounds(ls, from + 1);
    }
}

/// Finds the first line at or after `from` that starts with `key`.
fn find_line_with(ls: &Vec<Vec<char>>, key: &Vec<char>, from: usize) -> (r: usize)
    requires
        from <= ls@.len(),
    ensures
        r == first_line_with(views(ls@), key@, from as int),
{
    let ghost gls = views(ls@);
    let mut i: usize = from;
    while i < ls.len() && !starts_with_chars(&ls[i], key)
        invariant
            from <= i <= ls@.len(),
            gls == views(ls@),
            first_line_with(gls, key@, from as int) == first_line_with(gls, key@, i as int),
        decreases ls.len() - i,
    {
        assert(gls[i as int] == ls@[i as int]@);
        i = i + 1;
    }
    proof {
        if i < ls.len() {
            assert(gls[i as int] == ls@[i as int]@);
        }
    }
    i
}

/// `v` with each `'` doubled.
fn double_quote_chars(v: &[char]) -> (r: Vec<char>)
    ensures
        r@ == double_quotes(v@),
{
    let mut r: Vec<char> = Vec::new();
    let mut i: usize = 0;
    proof { assert(v@.take(0) =~= Seq::<char>::empty()); }
    while i < v.len()
        invariant
            i <= v@.len(),
            r@ == double_quotes(v@.take(i as int)),
        decreases v.len() - i,
    {
        proof {
            assert(v@.take(i + 1).drop_last() =~= v@.take(i as int));
            assert(v@.take(i + 1).last() == v@[i as int]);
        }
        if v[i] == '\'' {
            let ghost before = r@;
            r.push('\'');
            r.push('\'');
            proof { assert(r@ =~= before + seq!['\'', '\'']); }
        } else {
            r.push(v[i]);
        }
        i = i + 1;
    }
    proof { assert(v@.take(v@.len() as int) =~= v@); }
    r
}

/// The block line of one tag.
fn make_tag_line(tag: &str) -> (r: Vec<char>)
    ensures
        r@ == tag_line(tag@),
{
    let written = match yaml_string(tag) {
        Some(s) => chars_of(s.as_str()),
        None => {
            let mut q: Vec<char> = vec!['\''];
            extend_chars(&mut q, &double_quote_chars(&chars_of(tag)));
            q.push('\'');
            q
        },
    };
    let mut line: Vec<char> = vec![' ', ' ', '-', ' '];
    extend_chars(&mut line, &trim_chars(&written));
    proof {
        assert(line@ =~= tag_line(tag@));
    }
    line
}

/// Adds `tag` to the frontmatter's tag list, rewriting only the `tags:`
/// block (or inserting one before `score:`, or at the end).
pub fn add_tag(frontmatter: &str, tag: &str) -> (r: String)
    ensures
        r@ == add_tag_spec(frontmatter@, tag@),
{
    let fm = chars_of(frontmatter);
    let ls = lines_of(&fm);
    let ghost gls = views(ls@);
    let mut tags = extract_tags(frontmatter);
    let ghost old_tags = string_views(tags@);
    tags.push(tag.to_owned());
    proof { assert(string_views(tags@) =~= old_tags.push(tag@)); }
    let ghost all = string_views(tags@);
    let mut block: Vec<Vec<char>> = Vec::new();
    block.push(vec!['t', 'a', 'g', 's', ':']);
    let mut i: usize = 0;
    proof {
        assert(views(block@) =~= seq![tags_key()]);
    }
    while i < tags.len()
        invariant
            i <= tags@.len(),
            all == string_views(tags@),
            views(block@) =~= seq![tags_key()] + all.take(i as int).map_values(|v: Seq<char>| tag_line(v)),
        decreases tags.len() - i,
    {
        let line = make_tag_line(tags[i].as_str());
        let ghost before = block@;
        block.push(line);
        proof {
            crate::text::lemma_views_push(before, line);
            assert(all[i as int] == tags@[i as int]@);
            assert(all.take(i + 1).map_values(|v: Seq<char>| tag_line(v))
                =~= all.take(i as int).map_values(|v: Seq<char>| tag_line(v)).push(tag_line(all[i as int])));
        }
        i = i + 1;
    }
    proof {
        assert(all.take(all.len() as int) =~= all);
        assert(views(block@) =~= tags_block(all));
    }
    let tags_key_chars: Vec<char> = vec!['t', 'a', 'g', 's', ':'];
    let score_key_chars: Vec<char> = vec!['s', 'c', 'o', 'r', 'e', ':'];
    proof {
        assert(tags_key_chars@ =~= tags_key());
        assert(score_key_chars@ =~= score_key());
    }
    let start = find_line_with(&ls, &tags_key_chars, 0);
    let mut out: Vec<Vec<char>> = Vec::new();
    if start < ls.len() {
        let mut end: usize = start + 1;
        proof { lemma_next_top_level_bounds(gls, start + 1); }
        while end < ls.len() && !(ls[end].len() > 0 && ls[end][0] != ' ' && ls[end][0] != '\t')
            invariant
                start < end <= ls@.len(),
                gls == views(ls@),
                next_top_level_from(gls, start + 1) == next_top_level_from(gls, end as int),
            decreases ls.len() - end,
        {
            assert(gls[end as int] == ls@[end as int]@);
            end = end + 1;
        }
        proof {
            if end < ls.len() {
                assert(gls[end as int] == ls@[end as int]@);
            }
        }
        append_lines(&mut out, &ls, 0, start);
        append_lines(&mut out, &block, 0, block.len());
        append_lines(&mut out, &ls, end, ls.len());
        proof {
            assert(views(block@).subrange(0, block@.len() as int) =~= views(block@));
        }
    } else {
        let sc = find_line_with(&ls, &score_key_chars, 0);
        proof {
            lemma_score_line_is_first_line_with(gls, 0);
            lemma_first_line_with_bounds(gls, score_key(), 0);
            assert(views(block@).subrange(0, block@.len() as int) =~= views(block@));
            assert(gls.subrange(0, gls.len() as int) =~= gls);
        }
        append_lines(&mut out, &ls, 0, sc);
        append_lines(&mut out, &block, 0, block.len());
        append_lines(&mut out, &ls, sc, ls.len());
        proof {
            if sc >= ls.len() {
                assert(gls.subrange(sc as int, gls.len() as int) =~= Seq::<Seq<char>>::empty());
            }
        }
    }
    let nl: Vec<char> = vec!['\n'];
    proof { assert(nl@ =~= seq!['\n']); }
    let joined = join_chars(&out, &nl);
    proof {
        assert(gls == lines(frontmatter@));
        assert(views(out@) =~= {
            let st = first_line_with(gls, tags_key(), 0);
            if st < gls.len() {
                let e = next_top_level_from(gls, st + 1);
                gls.subrange(0, st) + views(block@) + gls.subrange(e, gls.len() as int)
            } else {
                let s2 = first_score_line_from(gls, 0);
                if s2 < gls.len() {
                    gls.subrange(0, s2) + views(block@) + gls.subrange(s2, gls.len() as int)
                } else {
                    gls + views(block@)
                }
            }
        });
    }
    string_of(&joined)
}

/// Appends copies of `ls[from..to]` to `out`.
fn append_lines(out: &mut Vec<Vec<char>>, ls: &Vec<Vec<char>>, from: usize, to: usize)
    requires
        from <= to <= ls@.len(),
    ensures
        views(final(out)@) == views(old(out)@) + views(ls@).subrange(from as int, to as int),
{
    let mut i: usize = from;
    while i < to
        invariant
            from <= i <= to <= ls@.len(),
            views(out@) =~= views(old(out)@) + views(ls@).subrange(from as int, i as int),
        decreases to - i,
    {
        let copy = crate::text::copy_chars(&ls[i]);
        let ghost before = out@;
        out.push(copy);
        proof {
            crate::text::lemma_views_push(before, copy);
            assert(views(ls@).subrange(from as int, i + 1)
                =~= views(ls@).subrange(from as int, i as int).push(ls@[i as int]@));
        }
        i = i + 1;
    }
}

} // verus!
