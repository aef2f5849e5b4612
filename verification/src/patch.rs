//! Applying accepted suggestions to a note: adding tags to its frontmatter
//! and links to its body, guarded by the note's content hash, keeping its
//! byte order mark, line endings and every untouched line.
use vstd::prelude::*;

use crate::contracts::{
    normalize_line_endings, normalize_note, replace_cr, replace_crlf, normalize_tag, normalize_tag_spec, note_content_hash,
    note_content_hash_spec, TagError,
};
use crate::frontmatter::{
    bom, extract_refs, link_targets, split_frontmatter, split_frontmatter_spec,
    wiki_link_captures_spec, FrontmatterError, MetadataPatch, MetadataPatchError,
};
use crate::suggestions::{tag_present, tag_present_spec};
use crate::tags::{add_tag, add_tag_spec, extract_tags, extract_tags_spec};
use crate::text::{
    chars_of, eq_chars, extend_chars, pop_trailing_newlines, string_of, string_views, trim,
    trim_chars, trim_trailing_newlines,
};

verus! {

/// A metadata change with its text as characters.
pub ghost enum PatchView {
    AddTag(Seq<char>),
    AddLink(Seq<char>),
}

/// The view of a change.
pub open spec fn patch_view(p: MetadataPatch) -> PatchView {
    match p {
        MetadataPatch::AddTag(t) => PatchView::AddTag(t@),
        MetadataPatch::AddLink(t) => PatchView::AddLink(t@),
    }
}

/// Why changes could not be applied to a note.
#[derive(Debug, Clone, PartialEq, Eq)]
pub enum PatchError {
    /// The note has no frontmatter delimiters.
    Note(FrontmatterError),
    /// The note changed since the changes were made for it.
    Stale(MetadataPatchError),
    /// A tag to add is not a valid tag.
    Tag(TagError),
    /// A link target is empty, spans lines, or holds `]`.
    InvalidLink,
}

/// A `PatchError` with its texts as characters.
pub ghost enum PatchErrorView {
    Note(FrontmatterError),
    Stale { expected: Seq<char>, actual: Seq<char> },
    Tag(TagError),
    InvalidLink,
}

/// The view of a patch error.
pub open spec fn patch_error_view(e: PatchError) -> PatchErrorView {
    match e {
        PatchError::Note(f) => PatchErrorView::Note(f),
        PatchError::Stale(MetadataPatchError::Stale { expected, actual }) => PatchErrorView::Stale {
            expected: expected@,
            actual: actual@,
        },
        PatchError::Tag(t) => PatchErrorView::Tag(t),
        PatchError::InvalidLink => PatchErrorView::InvalidLink,
    }
}

/// What applying changes to a note gives.
#[derive(Debug, PartialEq, Eq)]
pub enum PatchOutcome {
    /// No change was needed; the note's content hash.
    Unchanged { content_hash: String },
    /// The note's new text, to be written, and its content hash (or why it
    /// has none).
    Changed { content: String, hash: Result<String, FrontmatterError> },
}

/// A `PatchOutcome` with its texts as characters.
pub ghost enum PatchOutcomeView {
    Unchanged { content_hash: Seq<char> },
    Changed { content: Seq<char>, hash: Result<Seq<char>, FrontmatterError> },
}

/// The view of an outcome.
pub open spec fn outcome_view(o: PatchOutcome) -> PatchOutcomeView {
    match o {
        PatchOutcome::Unchanged { content_hash } => PatchOutcomeView::Unchanged { content_hash: content_hash@ },
        PatchOutcome::Changed { content, hash } => PatchOutcomeView::Changed {
            content: content@,
            hash: match hash {
                Ok(h) => Ok(h@),
                Err(e) => Err(e),
            },
        },
    }
}

/// Whether `s` holds the character `c`.
pub open spec fn holds_char(s: Seq<char>, c: char) -> bool {
    exists|i: int| 0 <= i < s.len() && #[trigger] s[i] == c
}

/// A link target that may be written: non-empty, one line, without `]`.
pub open spec fn valid_link_target(t: Seq<char>) -> bool {
    t.len() > 0 && !holds_char(t, '\n') && !holds_char(t, '\r') && !holds_char(t, ']')
}

/// The body with a link to `t` appended: after a blank line when the body
/// is not empty, and followed by a line break.
pub open spec fn append_link(body: Seq<char>, t: Seq<char>) -> Seq<char> {
    let sep = if body.len() > 0 { seq!['\n', '\n'] } else { Seq::<char>::empty() };
    body + sep + seq!['[', '['] + t + seq![']', ']', '\n']
}

/// One change applied to a frontmatter and body, with whether anything
/// changed so far.
pub open spec fn apply_patch_spec(state: (Seq<char>, Seq<char>, bool), p: PatchView)
    -> Result<(Seq<char>, Seq<char>, bool), PatchErrorView> {
    let (fm, body, changed) = state;
    match p {
        PatchView::AddTag(raw) => match normalize_tag_spec(raw) {
            Err(e) => Err(PatchErrorView::Tag(e)),
            Ok(tag) => if tag_present_spec(extract_tags_spec(fm), tag) {
                Ok(state)
            } else {
                Ok((add_tag_spec(fm, tag), body, true))
            },
        },
        PatchView::AddLink(raw) => {
            let t = trim(raw);
            if !valid_link_target(t) {
                Err(PatchErrorView::InvalidLink)
            } else if link_targets(wiki_link_captures_spec(body)).contains(t) {
                Ok(state)
            } else {
                Ok((fm, append_link(body, t), true))
            }
        },
    }
}

/// The changes applied in order; the first failing one stops.
pub open spec fn apply_patches_spec(state: (Seq<char>, Seq<char>, bool), ps: Seq<PatchView>)
    -> Result<(Seq<char>, Seq<char>, bool), PatchErrorView>
    decreases ps.len(),
{
    if ps.len() == 0 {
        Ok(state)
    } else {
        match apply_patches_spec(state, ps.drop_last()) {
            Ok(s) => apply_patch_spec(s, ps.last()),
            Err(e) => Err(e),
        }
    }
}

/// `s` with each `\n` written as `\r\n` (`str::replace('\n', "\r\n")`).
pub open spec fn lf_to_crlf(s: Seq<char>) -> Seq<char>
    decreases s.len(),
{
    if s.len() == 0 {
        s
    } else if s.last() == '\n' {
        lf_to_crlf(s.drop_last()) + seq!['\r', '\n']
    } else {
        lf_to_crlf(s.drop_last()).push(s.last())
    }
}

/// Whether `s` holds a `\r\n`.
pub open spec fn has_crlf(s: Seq<char>) -> bool {
    exists|i: int| 0 <= i < s.len() - 1 && #[trigger] s[i] == '\r' && s[i + 1] == '\n'
}

/// The note text for a changed frontmatter and body: the frontmatter without
/// trailing line breaks between `---` lines, the body after a line break,
/// a final line break where the note had one, the byte order mark where the
/// note had one, and `\r\n` line endings where the note used them.
pub open spec fn assemble_note(fm: Seq<char>, body: Seq<char>, trailing_newline: bool, bom_first: bool, crlf: bool) -> Seq<char> {
    let c0 = seq!['-', '-', '-', '\n'] + trim_trailing_newlines(fm) + seq!['\n', '-', '-', '-'];
    let c1 = if body.len() > 0 { c0 + seq!['\n'] + body } else { c0 };
    let c2 = if trailing_newline && c1.last() != '\n' { c1.push('\n') } else { c1 };
    let c3 = if bom_first { seq![bom()] + c2 } else { c2 };
    if crlf { lf_to_crlf(c3) } else { c3 }
}

/// What applying changes to a note gives, when the note's content hash is
/// `expected`: the changes are applied to its frontmatter and body in
/// order; if none changed anything, the note stays as it is.
pub open spec fn patch_note_spec(original: Seq<char>, expected: Seq<char>, ps: Seq<PatchView>)
    -> Result<PatchOutcomeView, PatchErrorView> {
    match note_content_hash_spec(original) {
        Err(e) => Err(PatchErrorView::Note(e)),
        Ok(actual) => if actual != expected {
            Err(PatchErrorView::Stale { expected, actual })
        } else {
            let n = normalize_note(original);
            match split_frontmatter_spec(n) {
                Err(e) => Err(PatchErrorView::Note(e)),
                Ok((fm, body)) => match apply_patches_spec((fm, body, false), ps) {
                    Err(e) => Err(e),
                    Ok((fm2, body2, changed)) => if !changed {
                        Ok(PatchOutcomeView::Unchanged { content_hash: actual })
                    } else {
                        let content = assemble_note(fm2, body2, n.len() > 0 && n.last() == '\n',
                            original.len() > 0 && original[0] == bom(), has_crlf(original));
                        Ok(PatchOutcomeView::Changed { content, hash: note_content_hash_spec(content) })
                    },
                },
            }
        },
    }
}

fn has_char(v: &[char], c: char) -> (r: bool)
    ensures
        r == holds_char(v@, c),
{
    let mut i: usize = 0;
    while i < v.len()
        invariant
            i <= v@.len(),
            forall|k: int| 0 <= k < i ==> v@[k] != c,
        decreases v.len() - i,
    {
        if v[i] == c {
            return true;
        }
        i = i + 1;
    }
    false
}

fn crlf_in(v: &[char]) -> (r: bool)
    ensures
        r == has_crlf(v@),
{
    let mut i: usize = 0;
    while i < v.len() && i + 1 < v.len()
        invariant
            i <= v@.len(),
            forall|k: int| 0 <= k < i && k < v@.len() - 1 ==> !(#[trigger] v@[k] == '\r' && v@[k + 1] == '\n'),
        decreases v.len() - i,
    {
        if v[i] == '\r' && v[i + 1] == '\n' {
            return true;
        }
        i = i + 1;
    }
    false
}

fn to_crlf(v: &[char]) -> (r: Vec<char>)
    ensures
        r@ == lf_to_crlf(v@),
{
    let mut r: Vec<char> = Vec::new();
    let mut i: usize = 0;
    proof { assert(v@.take(0) =~= Seq::<char>::empty()); }
    while i < v.len()
        invariant
            i <= v@.len(),
            r@ == lf_to_crlf(v@.take(i as int)),
        decreases v.len() - i,
    {
        proof {
            assert(v@.take(i + 1).drop_last() =~= v@.take(i as int));
            assert(v@.take(i + 1).last() == v@[i as int]);
        }
        let ghost before = r@;
        if v[i] == '\n' {
            r.push('\r');
            r.push('\n');
            proof { assert(r@ =~= before + seq!['\r', '\n']); }
        } else {
            r.push(v[i]);
        }
        i = i + 1;
    }
    proof { assert(v@.take(v@.len() as int) =~= v@); }
    r
}

/// Applies one change to the frontmatter and body.
fn apply_patch(fm: &mut String, body: &mut String, changed: &mut bool, p: &MetadataPatch) -> (r: Result<(), PatchError>)
    ensures
        match apply_patch_spec((old(fm)@, old(body)@, *old(changed)), patch_view(*p)) {
            Ok(s) => r is Ok && s == (final(fm)@, final(body)@, *final(changed)),
            Err(e) => r matches Err(x) && patch_error_view(x) == e,
        },
{
    match p {
        MetadataPatch::AddTag(raw) => {
            let tag = match normalize_tag(raw.as_str()) {
                Ok(t) => t,
                Err(e) => return Err(PatchError::Tag(e)),
            };
            let existing = extract_tags(fm.as_str());
            if !tag_present(&existing, tag.as_str()) {
                *fm = add_tag(fm.as_str(), tag.as_str());
                *changed = true;
            }
            Ok(())
        },
        MetadataPatch::AddLink(raw) => {
            let t = trim_chars(&chars_of(raw.as_str()));
            if t.len() == 0 || has_char(&t, '\n') || has_char(&t, '\r') || has_char(&t, ']') {
                return Err(PatchError::InvalidLink);
            }
            let refs = extract_refs(body.as_str());
            let mut found = false;
            let mut i: usize = 0;
            while i < refs.len()
                invariant
                    i <= refs@.len(),
                    !found ==> forall|k: int| 0 <= k < i ==> (#[trigger] refs@[k])@ != t@,
                    found ==> string_views(refs@).contains(t@),
                decreases refs.len() - i,
            {
                let rc = chars_of(refs[i].as_str());
                if eq_chars(&rc, &t) {
                    proof { assert(string_views(refs@)[i as int] == t@); }
                    found = true;
                }
                i = i + 1;
            }
            proof {
                if !found && string_views(refs@).contains(t@) {
                    let k = choose|k: int| 0 <= k < string_views(refs@).len() && string_views(refs@)[k] == t@;
                    assert(refs@[k]@ == t@);
                }
            }
            if !found {
                let mut nb = chars_of(body.as_str());
                if nb.len() > 0 {
                    nb.push('\n');
                    nb.push('\n');
                }
                nb.push('[');
                nb.push('[');
                extend_chars(&mut nb, &t);
                nb.push(']');
                nb.push(']');
                nb.push('\n');
                proof {
                    assert(nb@ =~= append_link(old(body)@, t@));
                }
                *body = string_of(&nb);
                *changed = true;
            }
            Ok(())
        },
    }
}

proof fn lemma_patches_stop_at_error(state: (Seq<char>, Seq<char>, bool), ps: Seq<PatchView>, k: int)
    requires
        0 <= k <= ps.len(),
        apply_patches_spec(state, ps.take(k)) is Err,
    ensures
        apply_patches_spec(state, ps) == apply_patches_spec(state, ps.take(k)),
    decreases ps.len() - k,
{
    if k < ps.len() {
        assert(ps.take(k + 1).drop_last() =~= ps.take(k));
        lemma_patches_stop_at_error(state, ps, k + 1);
    } else {
        assert(ps.take(k) =~= ps);
    }
}

/// The note text without a leading byte order mark, with `\n` line endings.
fn normalized_chars(all: &Vec<char>) -> (r: Vec<char>)
    ensures
        r@ == normalize_note(all@),
{
    let mut start: usize = 0;
    if all.len() > 0 && all[0] == '\u{feff}' {
        start = 1;
    }
    let mut stripped: Vec<char> = Vec::new();
    let mut i: usize = start;
    while i < all.len()
        invariant
            start <= i <= all@.len(),
            stripped@ =~= all@.subrange(start as int, i as int),
        decreases all.len() - i,
    {
        stripped.push(all[i]);
        i = i + 1;
    }
    proof {
        if start == 1 {
            assert(all@.subrange(1, all@.len() as int) =~= all@.drop_first());
        } else {
            assert(all@.subrange(0, all@.len() as int) =~= all@);
        }
    }
    normalize_line_endings(&stripped)
}

/// Builds the note text of a changed frontmatter and body.
fn assemble(fm: &str, body: &str, trailing: bool, bom_first: bool, crlf: bool) -> (r: Vec<char>)
    ensures
        r@ == assemble_note(fm@, body@, trailing, bom_first, crlf),
{
    let mut fmc = chars_of(fm);
    pop_trailing_newlines(&mut fmc);
    let mut content: Vec<char> = vec!['-', '-', '-', '\n'];
    extend_chars(&mut content, &fmc);
    content.push('\n');
    content.push('-');
    content.push('-');
    content.push('-');
    let ghost c0 = content@;
    proof { assert(c0 =~= seq!['-', '-', '-', '\n'] + trim_trailing_newlines(fm@) + seq!['\n', '-', '-', '-']); }
    let bc = chars_of(body);
    if bc.len() > 0 {
        content.push('\n');
        extend_chars(&mut content, &bc);
        proof { assert(content@ =~= c0 + seq!['\n'] + body@); }
    }
    let ghost c1 = content@;
    if trailing && content[content.len() - 1] != '\n' {
        content.push('\n');
    }
    let ghost c2 = content@;
    if bom_first {
        content.insert(0, '\u{feff}');
        proof { assert(content@ =~= seq![bom()] + c2); }
    }
    if crlf { to_crlf(&content) } else { content }
}

/// Applies accepted changes to a note's text, provided the note's content
/// hash is still `expected_hash`. The caller reads the note before and
/// writes the new text after, under the note's lock.
pub fn apply_metadata_patches(original: &str, expected_hash: &str, patches: &[MetadataPatch]) -> (r: Result<PatchOutcome, PatchError>)
    ensures
        match r {
            Ok(o) => patch_note_spec(original@, expected_hash@, patches@.map_values(|p: MetadataPatch| patch_view(p)))
                == Ok::<PatchOutcomeView, PatchErrorView>(outcome_view(o)),
            Err(e) => patch_note_spec(original@, expected_hash@, patches@.map_values(|p: MetadataPatch| patch_view(p)))
                == Err::<PatchOutcomeView, PatchErrorView>(patch_error_view(e)),
        },
{
    let ghost ps = patches@.map_values(|p: MetadataPatch| patch_view(p));
    let actual = match note_content_hash(original) {
        Ok(h) => h,
        Err(e) => return Err(PatchError::Note(e)),
    };
    let actual_chars = chars_of(actual.as_str());
    if !eq_chars(&actual_chars, &chars_of(expected_hash)) {
        return Err(PatchError::Stale(MetadataPatchError::Stale {
            expected: expected_hash.to_owned(),
            actual,
        }));
    }
    let all = chars_of(original);
    let crlf = crlf_in(&all);
    let bom_first = all.len() > 0 && all[0] == '\u{feff}';
    let n = normalized_chars(&all);
    let trailing = n.len() > 0 && n[n.len() - 1] == '\n';
    let normalized = string_of(&n);
    let (mut fm, mut body) = match split_frontmatter(normalized.as_str()) {
        Ok(parts) => parts,
        Err(e) => return Err(PatchError::Note(e)),
    };
    let mut changed = false;
    let mut k: usize = 0;
    proof { assert(ps.take(0) =~= Seq::<PatchView>::empty()); }
    let ghost init = (fm@, body@, false);
    proof { assert(actual_chars@ == expected_hash@); }
    while k < patches.len()
        invariant
            k <= patches@.len(),
            ps == patches@.map_values(|p: MetadataPatch| patch_view(p)),
            note_content_hash_spec(original@) == Ok::<Seq<char>, FrontmatterError>(actual@),
            actual@ == expected_hash@,
            split_frontmatter_spec(normalize_note(original@)) == Ok::<(Seq<char>, Seq<char>), FrontmatterError>((init.0, init.1)),
            init.2 == false,
            n@ == normalize_note(original@),
            trailing == (n@.len() > 0 && n@.last() == '\n'),
            bom_first == (original@.len() > 0 && original@[0] == bom()),
            crlf == has_crlf(original@),
            apply_patches_spec(init, ps.take(k as int)) == Ok::<(Seq<char>, Seq<char>, bool), PatchErrorView>((fm@, body@, changed)),
        decreases patches.len() - k,
    {
        proof {
            assert(ps.take(k + 1).drop_last() =~= ps.take(k as int));
            assert(ps.take(k + 1).last() == patch_view(patches@[k as int]));
        }
        let ghost state = (fm@, body@, changed);
        match apply_patch(&mut fm, &mut body, &mut changed, &patches[k]) {
            Ok(()) => {},
            Err(e) => {
                proof {
                    assert(apply_patch_spec(state, ps[k as int]) == Err::<(Seq<char>, Seq<char>, bool), PatchErrorView>(patch_error_view(e)));
                    assert(apply_patches_spec(init, ps.take(k + 1)) == Err::<(Seq<char>, Seq<char>, bool), PatchErrorView>(patch_error_view(e)));
                    lemma_patches_stop_at_error(init, ps, k + 1);
                    assert(apply_patches_spec(init, ps) == Err::<(Seq<char>, Seq<char>, bool), PatchErrorView>(patch_error_view(e)));
                }
                return Err(e);
            },
        }
        k = k + 1;
    }
    proof { assert(ps.take(patches@.len() as int) =~= ps); }
    if !changed {
        return Ok(PatchOutcome::Unchanged { content_hash: actual });
    }
    let text = assemble(fm.as_str(), body.as_str(), trailing, bom_first, crlf);
    let new_content = string_of(&text);
    let hash = note_content_hash(new_content.as_str());
    Ok(PatchOutcome::Changed { content: new_content, hash })
}

// ---------------------------------------------------------------- hash laws

proof fn lemma_lf_to_crlf_concat(a: Seq<char>, b: Seq<char>)
    ensures
        lf_to_crlf(a + b) == lf_to_crlf(a) + lf_to_crlf(b),
    decreases b.len(),
{
    if b.len() == 0 {
        assert(a + b =~= a);
        assert(lf_to_crlf(a) + lf_to_crlf(b) =~= lf_to_crlf(a));
    } else {
        lemma_lf_to_crlf_concat(a, b.drop_last());
        assert((a + b).drop_last() =~= a + b.drop_last());
        assert((a + b).last() == b.last());
        if b.last() == '\n' {
            assert(lf_to_crlf(a) + lf_to_crlf(b) =~= lf_to_crlf(a) + lf_to_crlf(b.drop_last()) + seq!['\r', '\n']);
        } else {
            assert(lf_to_crlf(a) + lf_to_crlf(b) =~= (lf_to_crlf(a) + lf_to_crlf(b.drop_last())).push(b.last()));
        }
    }
}

proof fn lemma_lf_single(c: char)
    ensures
        lf_to_crlf(seq![c]) == if c == '\n' { seq!['\r', '\n'] } else { seq![c] },
{
    let e = Seq::<char>::empty();
    assert(seq![c].drop_last() =~= e);
    assert(lf_to_crlf(e) == e);
    if c == '\n' {
        assert(lf_to_crlf(seq![c]) =~= seq!['\r', '\n']);
    } else {
        assert(lf_to_crlf(seq![c]) =~= seq![c]);
    }
}

proof fn lemma_replace_crlf_identity(y: Seq<char>)
    requires
        !holds_char(y, '\r'),
    ensures
        replace_crlf(y) == y,
    decreases y.len(),
{
    if y.len() > 0 {
        let rest = y.drop_first();
        assert(!holds_char(rest, '\r')) by {
            if holds_char(rest, '\r') {
                let i = choose|i: int| 0 <= i < rest.len() && rest[i] == '\r';
                assert(y[i + 1] == '\r');
            }
        }
        lemma_replace_crlf_identity(rest);
        assert(y[0] != '\r');
        assert(replace_crlf(y) =~= y);
    } else {
        assert(replace_crlf(y) =~= y);
    }
}

proof fn lemma_crlf_round_trip(y: Seq<char>)
    requires
        !holds_char(y, '\r'),
    ensures
        replace_crlf(lf_to_crlf(y)) == y,
    decreases y.len(),
{
    if y.len() > 0 {
        let c = y[0];
        let rest = y.drop_first();
        assert(y =~= seq![c] + rest);
        assert(!holds_char(rest, '\r')) by {
            if holds_char(rest, '\r') {
                let i = choose|i: int| 0 <= i < rest.len() && rest[i] == '\r';
                assert(y[i + 1] == '\r');
            }
        }
        lemma_crlf_round_trip(rest);
        lemma_lf_to_crlf_concat(seq![c], rest);
        let r = lf_to_crlf(rest);
        lemma_lf_single(c);
        if c == '\n' {
            let t = seq!['\r', '\n'] + r;
            assert(t.skip(2) =~= r);
            assert(replace_crlf(t) == seq!['\n'] + replace_crlf(t.skip(2)));
            assert(replace_crlf(t) =~= y);
        } else {
            assert(c != '\r');
            let t = seq![c] + r;
            assert(t.drop_first() =~= r);
            assert(replace_crlf(t) == seq![c] + replace_crlf(t.drop_first()));
            assert(replace_crlf(t) =~= y);
        }
    } else {
        assert(replace_crlf(lf_to_crlf(y)) =~= y);
    }
}

/// The content hash of a note does not depend on a byte order mark in front
/// of it.
pub proof fn law_hash_ignores_bom(note: Seq<char>)
    requires
        !(note.len() > 0 && note[0] == bom()),
    ensures
        note_content_hash_spec(seq![bom()] + note) == note_content_hash_spec(note),
{
    assert((seq![bom()] + note).drop_first() =~= note);
}

/// The content hash of a note does not depend on whether its lines end in
/// `\n` or `\r\n`.
pub proof fn law_hash_ignores_crlf(note: Seq<char>)
    requires
        !holds_char(note, '\r'),
    ensures
        note_content_hash_spec(lf_to_crlf(note)) == note_content_hash_spec(note),
{
    let w = lf_to_crlf(note);
    if note.len() > 0 && note[0] == bom() {
        let rest = note.drop_first();
        assert(note =~= seq![bom()] + rest);
        lemma_lf_to_crlf_concat(seq![bom()], rest);
        lemma_lf_single(bom());
        assert(w =~= seq![bom()] + lf_to_crlf(rest));
        assert(w.drop_first() =~= lf_to_crlf(rest));
        assert(!holds_char(rest, '\r')) by {
            if holds_char(rest, '\r') {
                let i = choose|i: int| 0 <= i < rest.len() && rest[i] == '\r';
                assert(note[i + 1] == '\r');
            }
        }
        lemma_crlf_round_trip(rest);
        lemma_replace_crlf_identity(rest);
        assert(replace_cr(rest) =~= rest);
    } else {
        if note.len() > 0 {
            let c = note[0];
            let rest = note.drop_first();
            assert(note =~= seq![c] + rest);
            lemma_lf_to_crlf_concat(seq![c], rest);
            lemma_lf_single(c);
            assert(w[0] != bom());
        }
        lemma_crlf_round_trip(note);
        lemma_replace_crlf_identity(note);
        assert(replace_cr(note) =~= note);
    }
    assert(normalize_note(w) == normalize_note(note));
}

/// `s` with each `\n` written as a bare `\r` (old Mac line endings).
pub open spec fn lf_to_cr(s: Seq<char>) -> Seq<char> {
    s.map_values(|c: char| if c == '\n' { '\r' } else { c })
}

proof fn lemma_replace_crlf_no_lf(y: Seq<char>)
    requires
        !holds_char(y, '\n'),
    ensures
        replace_crlf(y) == y,
    decreases y.len(),
{
    if y.len() > 0 {
        let rest = y.drop_first();
        assert(!holds_char(rest, '\n')) by {
            if holds_char(rest, '\n') {
                let i = choose|i: int| 0 <= i < rest.len() && rest[i] == '\n';
                assert(y[i + 1] == '\n');
            }
        }
        lemma_replace_crlf_no_lf(rest);
        if y.len() >= 2 {
            assert(y[1] != '\n');
        }
        assert(replace_crlf(y) =~= y);
    } else {
        assert(replace_crlf(y) =~= y);
    }
}

/// The content hash of a note does not depend on whether its lines end in
/// `\n` or in a bare `\r`.
pub proof fn law_hash_ignores_cr(note: Seq<char>)
    requires
        !holds_char(note, '\r'),
    ensures
        note_content_hash_spec(lf_to_cr(note)) == note_content_hash_spec(note),
{
    let w = lf_to_cr(note);
    let sn = if note.len() > 0 && note[0] == bom() { note.drop_first() } else { note };
    let sw = if w.len() > 0 && w[0] == bom() { w.drop_first() } else { w };
    assert(sw =~= lf_to_cr(sn));
    assert(!holds_char(sn, '\r')) by {
        if holds_char(sn, '\r') {
            let i = choose|i: int| 0 <= i < sn.len() && sn[i] == '\r';
            if note.len() > 0 && note[0] == bom() {
                assert(note[i + 1] == '\r');
            } else {
                assert(note[i] == '\r');
            }
        }
    }
    assert(!holds_char(sw, '\n')) by {
        if holds_char(sw, '\n') {
            let i = choose|i: int| 0 <= i < sw.len() && sw[i] == '\n';
            assert(sw[i] == lf_to_cr(sn)[i]);
        }
    }
    lemma_replace_crlf_no_lf(sw);
    lemma_replace_crlf_identity(sn);
    assert(replace_cr(sw) =~= sn);
    assert(replace_cr(sn) =~= sn);
    assert(normalize_note(w) == normalize_note(note));
}

/// Whether a change is already in a note's frontmatter and body: a valid
/// tag the note carries (ignoring ASCII case), or a valid link target the
/// body already links to.
pub open spec fn already_applied(fm: Seq<char>, body: Seq<char>, p: PatchView) -> bool {
    match p {
        PatchView::AddTag(raw) => match normalize_tag_spec(raw) {
            Ok(t) => tag_present_spec(extract_tags_spec(fm), t),
            Err(_) => false,
        },
        PatchView::AddLink(raw) => valid_link_target(trim(raw))
            && link_targets(wiki_link_captures_spec(body)).contains(trim(raw)),
    }
}

proof fn lemma_present_changes_keep_state(fm: Seq<char>, body: Seq<char>, ps: Seq<PatchView>)
    requires
        forall|i: int| 0 <= i < ps.len() ==> already_applied(fm, body, #[trigger] ps[i]),
    ensures
        apply_patches_spec((fm, body, false), ps) == Ok::<(Seq<char>, Seq<char>, bool), PatchErrorView>((fm, body, false)),
    decreases ps.len(),
{
    if ps.len() > 0 {
        let init = ps.drop_last();
        assert forall|i: int| 0 <= i < init.len() implies already_applied(fm, body, #[trigger] init[i]) by {
            assert(init[i] == ps[i]);
        }
        lemma_present_changes_keep_state(fm, body, init);
        assert(already_applied(fm, body, ps[ps.len() - 1]));
    }
}

/// Changes that are all already in a note (tags it carries up to ASCII case,
/// links its body already has) change nothing: the note is reported
/// unchanged, with its own content hash. This is what a repeated
/// application of the same changes meets.
pub proof fn law_present_changes_leave_note_unchanged(
    note: Seq<char>,
    fm: Seq<char>,
    body: Seq<char>,
    ps: Seq<PatchView>,
)
    requires
        note_content_hash_spec(note) is Ok,
        split_frontmatter_spec(normalize_note(note)) == Ok::<(Seq<char>, Seq<char>), FrontmatterError>((fm, body)),
        forall|i: int| 0 <= i < ps.len() ==> already_applied(fm, body, #[trigger] ps[i]),
    ensures
        patch_note_spec(note, note_content_hash_spec(note)->Ok_0, ps)
            == Ok::<PatchOutcomeView, PatchErrorView>(PatchOutcomeView::Unchanged {
                content_hash: note_content_hash_spec(note)->Ok_0,
            }),
{
    lemma_present_changes_keep_state(fm, body, ps);
}

/// The line endings a note may be written with.
pub ghost enum LineEnding {
    Lf,
    Crlf,
    Cr,
}

/// A note written with the given line endings, and a byte order mark in
/// front where `bom_first` says so.
pub open spec fn note_variant(note: Seq<char>, bom_first: bool, ending: LineEnding) -> Seq<char> {
    let t = match ending {
        LineEnding::Lf => note,
        LineEnding::Crlf => lf_to_crlf(note),
        LineEnding::Cr => lf_to_cr(note),
    };
    if bom_first { seq![bom()] + t } else { t }
}

/// The content hash of a note is the same whatever its byte order mark,
/// its line endings and its top-level score block: a note whose frontmatter
/// differs from another's only in the `score:` line and the empty or
/// indented lines under it, written with or without a byte order mark and
/// with `\n`, `\r\n` or `\r` line endings, has the other's hash (as
/// `law_hash_ignores_score_block` states the notes).
pub proof fn law_hash_ignores_note_variants(
    pre: Seq<Seq<char>>,
    h1: Seq<char>,
    b1: Seq<Seq<char>>,
    h2: Seq<char>,
    b2: Seq<Seq<char>>,
    post: Seq<Seq<char>>,
    body: Seq<char>,
    bom_first: bool,
    ending: LineEnding,
)
    requires
        forall|k: int| 0 <= k < pre.len() ==> !crate::text::starts_with(#[trigger] pre[k], crate::frontmatter::score_key()),
        crate::text::starts_with(h1, crate::frontmatter::score_key()),
        crate::text::starts_with(h2, crate::frontmatter::score_key()),
        forall|m: int| 0 <= m < b1.len() ==> (#[trigger] b1[m]).len() == 0 || crate::text::is_ws(b1[m][0]),
        forall|m: int| 0 <= m < b2.len() ==> (#[trigger] b2[m]).len() == 0 || crate::text::is_ws(b2[m][0]),
        crate::text::lines_without(pre + (seq![h1] + b1 + post), '\n'),
        crate::text::lines_without(pre + (seq![h2] + b2 + post), '\n'),
        crate::contracts::closes_after(pre + (seq![h1] + b1 + post)),
        crate::contracts::closes_after(pre + (seq![h2] + b2 + post)),
        !crate::contracts::contains_char(crate::contracts::note_text(pre + (seq![h1] + b1 + post), body), '\r'),
        !crate::contracts::contains_char(crate::contracts::note_text(pre + (seq![h2] + b2 + post), body), '\r'),
    ensures
        note_content_hash_spec(note_variant(crate::contracts::note_text(pre + (seq![h2] + b2 + post), body), bom_first, ending))
            == note_content_hash_spec(crate::contracts::note_text(pre + (seq![h1] + b1 + post), body)),
{
    let n1 = crate::contracts::note_text(pre + (seq![h1] + b1 + post), body);
    let n2 = crate::contracts::note_text(pre + (seq![h2] + b2 + post), body);
    crate::contracts::law_hash_ignores_score_block(pre, h1, b1, h2, b2, post, body);
    assert(!holds_char(n2, '\r')) by {
        if holds_char(n2, '\r') {
            let i = choose|i: int| 0 <= i < n2.len() && n2[i] == '\r';
            assert(crate::contracts::contains_char(n2, '\r'));
        }
    }
    assert(n2[0] == '-');
    let rest = n2.drop_first();
    assert(n2 =~= seq!['-'] + rest);
    let t = match ending {
        LineEnding::Lf => n2,
        LineEnding::Crlf => lf_to_crlf(n2),
        LineEnding::Cr => lf_to_cr(n2),
    };
    match ending {
        LineEnding::Lf => {},
        LineEnding::Crlf => {
            law_hash_ignores_crlf(n2);
            lemma_lf_to_crlf_concat(seq!['-'], rest);
            lemma_lf_single('-');
            assert(t[0] == '-');
        },
        LineEnding::Cr => {
            law_hash_ignores_cr(n2);
            assert(t[0] == '-');
        },
    }
    assert(note_content_hash_spec(t) == note_content_hash_spec(n2));
    if bom_first {
        assert(t[0] != bom());
        law_hash_ignores_bom(t);
    }
}

} // verus!
