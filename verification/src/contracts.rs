//! Suggestion contracts shared by the suggestion, write-back and report
//! features: kinds, statuses and their transitions, stable suggestion ids,
//! tag normalisation and the score-independent note content hash.
use vstd::prelude::*;

use crate::frontmatter::{bom, FrontmatterError};
use crate::text::{
    chars_of, copy_chars, extend_chars, is_ws, is_whitespace, join, join_chars, split_char,
    starts_with, starts_with_chars, string_of, trim, trim_chars, views,
};

verus! {

/// The algorithm tag of lexical tag suggestions, as stored.
pub const TAG_ALGORITHM_VERSION: &'static str = "tags-v1";

/// The largest number of suggestions one request may return or submit.
pub const MAX_SUGGESTIONS_PER_REQUEST: usize = 20;

/// Kind of a suggestion.
#[derive(Debug, Clone, Copy, PartialEq, Eq, Structural)]
pub enum SuggestionKind {
    Tag,
    Related,
}

/// The wire name of a suggestion kind.
pub open spec fn kind_name(kind: SuggestionKind) -> Seq<char> {
    match kind {
        SuggestionKind::Tag => seq!['t', 'a', 'g'],
        SuggestionKind::Related => seq!['r', 'e', 'l', 'a', 't', 'e', 'd'],
    }
}

impl SuggestionKind {
    /// `"tag"` or `"related"`.
    pub fn as_str(self) -> (name: &'static str)
        ensures
            name@ == kind_name(self),
    {
        match self {
            SuggestionKind::Tag => {
                proof { reveal_strlit("tag"); }
                "tag"
            },
            SuggestionKind::Related => {
                proof { reveal_strlit("related"); }
                "related"
            },
        }
    }
}

/// Lifecycle status of a suggestion.
#[derive(Debug, Clone, Copy, PartialEq, Eq, Structural)]
pub enum SuggestionStatus {
    Pending,
    Accepted,
    Rejected,
    Expired,
}

/// A suggestion may leave `Pending` once, for any other status; no other
/// transition exists.
pub open spec fn transition_allowed(from: SuggestionStatus, to: SuggestionStatus) -> bool {
    from == SuggestionStatus::Pending && to != SuggestionStatus::Pending
}

/// Whether a suggestion may move from `from` to `to`.
pub fn can_transition(from: SuggestionStatus, to: SuggestionStatus) -> (r: bool)
    ensures
        r == transition_allowed(from, to),
{
    from == SuggestionStatus::Pending && (to == SuggestionStatus::Accepted
        || to == SuggestionStatus::Rejected || to == SuggestionStatus::Expired)
}

/// Only a pending suggestion can change status, and it can never return to
/// pending: after one allowed transition, no further transition is allowed.
pub proof fn law_status_leaves_pending_once(a: SuggestionStatus, b: SuggestionStatus, c: SuggestionStatus)
    requires
        transition_allowed(a, b),
    ensures
        a == SuggestionStatus::Pending,
        !transition_allowed(b, c),
{
}

/// Counts of finished suggestions in a report window.
#[derive(Debug, Clone, Copy, PartialEq, Eq, Structural)]
pub struct SuggestionStats {
    pub accepted: u64,
    pub rejected: u64,
    pub expired: u64,
}

/// Whether the report's history data was available.
pub struct DataQuality {
    pub history_unavailable: bool,
    pub missing: Vec<String>,
}

// ---------------------------------------------------------------- tags

/// Why a tag was refused.
#[derive(Debug, Clone, Copy, PartialEq, Eq, Structural)]
pub enum TagError {
    /// Nothing but whitespace.
    Empty,
    /// The tag holds `#`.
    ContainsHash,
}

/// Whether `s` holds the character `c`.
pub open spec fn contains_char(s: Seq<char>, c: char) -> bool {
    exists|i: int| 0 <= i < s.len() && #[trigger] s[i] == c
}

/// The outcome of normalising a tag: trimmed, never empty, never with `#`.
pub open spec fn normalize_tag_spec(tag: Seq<char>) -> Result<Seq<char>, TagError> {
    let t = trim(tag);
    if t.len() == 0 {
        Err(TagError::Empty)
    } else if contains_char(t, '#') {
        Err(TagError::ContainsHash)
    } else {
        Ok(t)
    }
}

/// Whether `v` holds `c`.
pub fn has_char(v: &[char], c: char) -> (r: bool)
    ensures
        r == contains_char(v@, c),
{
    let mut i: usize = 0;
    while i < v.len()
        invariant
            i <= v@.len(),
            forall|k: int| 0 <= k < i ==> v@[k] != c,
        decreases v.len() - i,
    {
        if v[i] == c {
            proof { assert(v@[i as int] == c); }
            return true;
        }
        i = i + 1;
    }
    false
}

/// Trims a tag and refuses empty tags and tags with `#`.
pub fn normalize_tag(tag: &str) -> (r: Result<String, TagError>)
    ensures
        match r {
            Ok(t) => normalize_tag_spec(tag@) == Ok::<Seq<char>, TagError>(t@),
            Err(e) => normalize_tag_spec(tag@) == Err::<Seq<char>, TagError>(e),
        },
{
    let v = chars_of(tag);
    let t = trim_chars(&v);
    if t.len() == 0 {
        return Err(TagError::Empty);
    }
    if has_char(&t, '#') {
        return Err(TagError::ContainsHash);
    }
    Ok(string_of(&t))
}

/// A tag that normalises is already in normal form: normalising the result
/// again gives it back unchanged.
pub proof fn law_normalized_tag_is_stable(tag: Seq<char>)
    ensures
        match normalize_tag_spec(tag) {
            Ok(t) => normalize_tag_spec(t) == Ok::<Seq<char>, TagError>(t),
            Err(_) => true,
        },
{
    crate::text::lemma_trim_idempotent(tag);
}

// ---------------------------------------------------------------- hashing

/// The SHA-256 digest of `data` (a name for what `sha2::Sha256::digest` returns).
pub uninterp spec fn sha256_spec(data: Seq<u8>) -> Seq<u8>;

/// `sha2::Sha256::digest`: the contract claims that the digest is a function
/// of the input bytes alone and is 32 bytes long.
#[verifier::external_body]
fn sha256(data: &[u8]) -> (d: Vec<u8>)
    ensures
        d@ == sha256_spec(data@),
        d@.len() == 32,
{
    <sha2::Sha256 as sha2::Digest>::digest(data).to_vec()
}

/// The lowercase hex digit of a value below 16.
pub open spec fn hex_digit(n: u8) -> char {
    if n < 10 {
        (('0' as u8) + n) as char
    } else {
        (('a' as u8) + n - 10) as char
    }
}

/// Lowercase hex of a byte string, two digits per byte (`{:02x}` each).
pub open spec fn hex_spec(bytes: Seq<u8>) -> Seq<char>
    decreases bytes.len(),
{
    if bytes.len() == 0 {
        Seq::<char>::empty()
    } else {
        hex_spec(bytes.drop_last()) + seq![hex_digit(bytes.last() / 16), hex_digit(bytes.last() % 16)]
    }
}

proof fn lemma_hex_len(bytes: Seq<u8>)
    ensures
        hex_spec(bytes).len() == 2 * bytes.len(),
    decreases bytes.len(),
{
    if bytes.len() > 0 {
        lemma_hex_len(bytes.drop_last());
    }
}

fn hex_digit_of(n: u8) -> (c: char)
    requires
        n < 16,
    ensures
        c == hex_digit(n),
{
    if n < 10 {
        ((48u8 + n) as char)
    } else {
        ((97u8 + n - 10) as char)
    }
}

/// Executable `hex_spec`.
fn hex_chars(bytes: &[u8]) -> (r: Vec<char>)
    ensures
        r@ == hex_spec(bytes@),
{
    let mut r: Vec<char> = Vec::new();
    let mut i: usize = 0;
    proof { assert(bytes@.take(0) =~= Seq::<u8>::empty()); }
    while i < bytes.len()
        invariant
            i <= bytes@.len(),
            r@ == hex_spec(bytes@.take(i as int)),
        decreases bytes.len() - i,
    {
        let b = bytes[i];
        r.push(hex_digit_of(b / 16));
        r.push(hex_digit_of(b % 16));
        proof {
            assert(bytes@.take(i + 1).drop_last() =~= bytes@.take(i as int));
            assert(r@ =~= hex_spec(bytes@.take(i + 1)));
        }
        i = i + 1;
    }
    proof { assert(bytes@.take(bytes@.len() as int) =~= bytes@); }
    r
}

/// Lowercase hex of the SHA-256 digest of the UTF-8 bytes of `text`.
pub open spec fn hex_sha256_of(text: Seq<char>) -> Seq<char> {
    hex_spec(sha256_spec(vstd::utf8::encode_utf8(text)))
}

fn hex_digest_of(text: &[char]) -> (r: Vec<char>)
    ensures
        r@ == hex_sha256_of(text@),
        r@.len() == 64,
{
    let s = string_of(text);
    let bytes = s.as_str().as_bytes();
    let d = sha256(bytes);
    proof { lemma_hex_len(d@); }
    hex_chars(&d)
}

// ---------------------------------------------------------------- stable ids

/// The prefix of every suggestion id.
pub open spec fn suggestion_id_prefix() -> Seq<char> {
    seq!['s', 'u', 'g', '-']
}

/// A suggestion id: `sug-` and the hex SHA-256 of the kind, entity, candidate,
/// content hash, algorithm version and source, joined by `\n`.
pub open spec fn stable_suggestion_id_spec(
    kind: SuggestionKind,
    entity_id: Seq<char>,
    candidate: Seq<char>,
    content_hash: Seq<char>,
    algorithm_version: Seq<char>,
    source: Seq<char>,
) -> Seq<char> {
    suggestion_id_prefix() + hex_sha256_of(
        join(seq![kind_name(kind), entity_id, candidate, content_hash, algorithm_version, source], seq!['\n']),
    )
}

/// The deterministic id of a suggestion.
pub fn stable_suggestion_id(
    kind: SuggestionKind,
    entity_id: &str,
    candidate: &str,
    content_hash: &str,
    algorithm_version: &str,
    source: &str,
) -> (r: String)
    ensures
        r@ == stable_suggestion_id_spec(kind, entity_id@, candidate@, content_hash@, algorithm_version@, source@),
        r@.len() == 68,
{
    let mut parts: Vec<Vec<char>> = Vec::new();
    parts.push(chars_of(kind.as_str()));
    parts.push(chars_of(entity_id));
    parts.push(chars_of(candidate));
    parts.push(chars_of(content_hash));
    parts.push(chars_of(algorithm_version));
    parts.push(chars_of(source));
    proof {
        assert(views(parts@) =~= seq![kind_name(kind), entity_id@, candidate@, content_hash@, algorithm_version@, source@]);
    }
    let nl: Vec<char> = vec!['\n'];
    let key = join_chars(&parts, &nl);
    let digest = hex_digest_of(&key);
    let mut out: Vec<char> = vec!['s', 'u', 'g', '-'];
    extend_chars(&mut out, &digest);
    proof {
        assert(nl@ =~= seq!['\n']);
        assert(out@ =~= stable_suggestion_id_spec(kind, entity_id@, candidate@, content_hash@, algorithm_version@, source@));
    }
    string_of(&out)
}


// ---------------------------------------------------------------- note hash

/// `s` with every `\r\n` replaced by `\n` (`str::replace("\r\n", "\n")`).
pub open spec fn replace_crlf(s: Seq<char>) -> Seq<char>
    decreases s.len(),
{
    if s.len() == 0 {
        Seq::<char>::empty()
    } else if s.len() >= 2 && s[0] == '\r' && s[1] == '\n' {
        seq!['\n'] + replace_crlf(s.skip(2))
    } else {
        seq![s[0]] + replace_crlf(s.drop_first())
    }
}

/// `s` with every `\r` replaced by `\n` (`str::replace('\r', "\n")`).
pub open spec fn replace_cr(s: Seq<char>) -> Seq<char> {
    s.map_values(|c: char| if c == '\r' { '\n' } else { c })
}

/// The text a note hash is computed over: without a byte order mark, with
/// `\n` line endings only.
pub open spec fn normalize_note(note: Seq<char>) -> Seq<char> {
    let s = if note.len() > 0 && note[0] == bom() { note.drop_first() } else { note };
    replace_cr(replace_crlf(s))
}

/// The opening delimiter with its line break.
pub open spec fn opening() -> Seq<char> {
    seq!['-', '-', '-', '\n']
}

/// The closing delimiter with its line breaks.
pub open spec fn closing() -> Seq<char> {
    seq!['\n', '-', '-', '-', '\n']
}

/// Whether `pat` occurs in `s` at position `i`.
pub open spec fn occurs_at(s: Seq<char>, pat: Seq<char>, i: int) -> bool {
    0 <= i && i + pat.len() <= s.len() && s.subrange(i, i + pat.len()) == pat
}

/// The first position at or after `from` where `pat` occurs, or `s.len()`.
pub open spec fn find_from(s: Seq<char>, pat: Seq<char>, from: int) -> int
    decreases s.len() - from,
{
    if from >= s.len() {
        s.len() as int
    } else if occurs_at(s, pat, from) {
        from
    } else {
        find_from(s, pat, from + 1)
    }
}

/// Lines kept by `without_top_level_score` from index `i` on, given whether
/// a score block is being skipped: the `score:` line and the empty or
/// whitespace-led lines after it are dropped.
pub open spec fn drop_score_lines(ls: Seq<Seq<char>>, i: int, skipping: bool) -> Seq<Seq<char>>
    decreases ls.len() - i,
{
    if i < 0 || i >= ls.len() {
        Seq::<Seq<char>>::empty()
    } else if !skipping && starts_with(ls[i], crate::frontmatter::score_key()) {
        drop_score_lines(ls, i + 1, true)
    } else if skipping && (ls[i].len() == 0 || is_ws(ls[i][0])) {
        drop_score_lines(ls, i + 1, true)
    } else {
        seq![ls[i]] + drop_score_lines(ls, i + 1, false)
    }
}

proof fn lemma_drop_score_shift(a: Seq<Seq<char>>, x: Seq<Seq<char>>, j: int, skipping: bool)
    requires
        0 <= j,
    ensures
        drop_score_lines(a + x, a.len() + j, skipping) == drop_score_lines(x, j, skipping),
    decreases x.len() - j,
{
    if j < x.len() {
        assert((a + x)[a.len() + j] == x[j]);
        lemma_drop_score_shift(a, x, j + 1, true);
        lemma_drop_score_shift(a, x, j + 1, false);
    }
}

proof fn lemma_drop_score_prefix(pre: Seq<Seq<char>>, x: Seq<Seq<char>>, i: int)
    requires
        0 <= i <= pre.len(),
        forall|k: int| 0 <= k < pre.len() ==> !starts_with(#[trigger] pre[k], crate::frontmatter::score_key()),
    ensures
        drop_score_lines(pre + x, i, false) == pre.skip(i) + drop_score_lines(x, 0, false),
    decreases pre.len() - i,
{
    if i == pre.len() {
        lemma_drop_score_shift(pre, x, 0, false);
        assert(pre.skip(i) =~= Seq::<Seq<char>>::empty());
        assert(pre.skip(i) + drop_score_lines(x, 0, false) =~= drop_score_lines(x, 0, false));
    } else {
        assert((pre + x)[i] == pre[i]);
        lemma_drop_score_prefix(pre, x, i + 1);
        assert(pre.skip(i) =~= seq![pre[i]] + pre.skip(i + 1));
    }
}

proof fn lemma_drop_score_block(h: Seq<char>, b: Seq<Seq<char>>, post: Seq<Seq<char>>, k: int)
    requires
        0 <= k <= b.len(),
        forall|m: int| 0 <= m < b.len() ==> (#[trigger] b[m]).len() == 0 || is_ws(b[m][0]),
    ensures
        drop_score_lines(seq![h] + b + post, 1 + k, true) == drop_score_lines(post, 0, true),
    decreases b.len() - k,
{
    let y = seq![h] + b + post;
    if k == b.len() {
        assert(y =~= (seq![h] + b) + post);
        lemma_drop_score_shift(seq![h] + b, post, 0, true);
    } else {
        assert(y[1 + k] == b[k]);
        lemma_drop_score_block(h, b, post, k + 1);
    }
}

/// The lines a frontmatter keeps once its top-level score block is dropped,
/// when the block (a `score:` line and the empty or indented lines after
/// it) comes after lines that open no score block: the lines before it, and
/// what follows the block.
pub proof fn lemma_drop_score_around(pre: Seq<Seq<char>>, h: Seq<char>, b: Seq<Seq<char>>, post: Seq<Seq<char>>)
    requires
        forall|k: int| 0 <= k < pre.len() ==> !starts_with(#[trigger] pre[k], crate::frontmatter::score_key()),
        starts_with(h, crate::frontmatter::score_key()),
        forall|m: int| 0 <= m < b.len() ==> (#[trigger] b[m]).len() == 0 || is_ws(b[m][0]),
    ensures
        drop_score_lines(pre + (seq![h] + b + post), 0, false) == pre + drop_score_lines(post, 0, true),
{
    let y = seq![h] + b + post;
    lemma_drop_score_prefix(pre, y, 0);
    assert(pre.skip(0) =~= pre);
    assert(y[0] == h);
    lemma_drop_score_block(h, b, post, 0);
}

/// The text of a note with the frontmatter lines `ls` and the body `body`.
pub open spec fn note_text(ls: Seq<Seq<char>>, body: Seq<char>) -> Seq<char> {
    opening() + join(ls, seq!['\n']) + closing() + body
}

/// Whether the frontmatter lines `ls` hold no closing `---` line of their
/// own, so that a note closes its frontmatter right after them.
pub open spec fn closes_after(ls: Seq<Seq<char>>) -> bool {
    find_from(join(ls, seq!['\n']) + closing(), closing(), 0) == join(ls, seq!['\n']).len()
}

proof fn lemma_find_from_lower(s: Seq<char>, pat: Seq<char>, from: int)
    requires
        0 <= from <= s.len(),
    ensures
        from <= find_from(s, pat, from) <= s.len(),
    decreases s.len() - from,
{
    if from < s.len() && !occurs_at(s, pat, from) {
        lemma_find_from_lower(s, pat, from + 1);
    }
}

proof fn lemma_find_from_extend(s: Seq<char>, t: Seq<char>, pat: Seq<char>, from: int)
    requires
        pat.len() > 0,
        0 <= from <= find_from(s, pat, from),
        find_from(s, pat, from) + pat.len() <= s.len(),
    ensures
        find_from(s + t, pat, from) == find_from(s, pat, from),
    decreases s.len() - from,
{
    let p = find_from(s, pat, from);
    if from < s.len() {
        if occurs_at(s, pat, from) {
            assert((s + t).subrange(from, from + pat.len()) =~= s.subrange(from, from + pat.len()));
        } else {
            assert(p == find_from(s, pat, from + 1));
            lemma_find_from_lower(s, pat, from + 1);
            assert(from + pat.len() <= s.len());
            assert((s + t).subrange(from, from + pat.len()) =~= s.subrange(from, from + pat.len()));
            lemma_find_from_extend(s, t, pat, from + 1);
        }
    }
}

/// The canonical text of an LF-only note built from frontmatter lines and a
/// body.
pub proof fn lemma_canonical_note_text(ls: Seq<Seq<char>>, body: Seq<char>)
    requires
        closes_after(ls),
        !contains_char(note_text(ls, body), '\r'),
    ensures
        canonical_note(note_text(ls, body)) == Ok::<Seq<char>, FrontmatterError>(
            without_top_level_score_spec(join(ls, seq!['\n'])) + closing() + body),
{
    let j = join(ls, seq!['\n']);
    let note = note_text(ls, body);
    assert(note[0] == '-');
    assert(note[0] != bom());
    lemma_replace_crlf_no_cr(note);
    assert(replace_cr(note) =~= note);
    assert(normalize_note(note) == note);
    assert(note.subrange(0, 4) =~= opening());
    let rest = note.skip(4);
    assert(rest =~= (j + closing()) + body);
    assert(occurs_at(j + closing(), closing(), j.len() as int)) by {
        assert((j + closing()).subrange(j.len() as int, (j.len() + 5) as int) =~= closing());
    }
    lemma_find_from_extend(j + closing(), body, closing(), 0);
    assert(rest.take(j.len() as int) =~= j);
    assert(rest.skip((j.len() + 5) as int) =~= body);
}

proof fn lemma_replace_crlf_no_cr(y: Seq<char>)
    requires
        !contains_char(y, '\r'),
    ensures
        replace_crlf(y) == y,
    decreases y.len(),
{
    if y.len() > 0 {
        let rest = y.drop_first();
        assert(!contains_char(rest, '\r')) by {
            if contains_char(rest, '\r') {
                let i = choose|i: int| 0 <= i < rest.len() && rest[i] == '\r';
                assert(y[i + 1] == '\r');
            }
        }
        lemma_replace_crlf_no_cr(rest);
        assert(y[0] != '\r');
        assert(replace_crlf(y) =~= y);
    } else {
        assert(replace_crlf(y) =~= y);
    }
}

/// The content hash of a note does not depend on its top-level score block:
/// two notes whose frontmatters differ only in the `score:` line and the
/// empty or indented lines under it (the first `score:` line of each, after
/// lines that hold no other) have the same hash. Notes here use `\n` line
/// endings, and neither frontmatter holds a `---` line of its own.
pub proof fn law_hash_ignores_score_block(
    pre: Seq<Seq<char>>,
    h1: Seq<char>,
    b1: Seq<Seq<char>>,
    h2: Seq<char>,
    b2: Seq<Seq<char>>,
    post: Seq<Seq<char>>,
    body: Seq<char>,
)
    requires
        forall|k: int| 0 <= k < pre.len() ==> !starts_with(#[trigger] pre[k], crate::frontmatter::score_key()),
        starts_with(h1, crate::frontmatter::score_key()),
        starts_with(h2, crate::frontmatter::score_key()),
        forall|m: int| 0 <= m < b1.len() ==> (#[trigger] b1[m]).len() == 0 || is_ws(b1[m][0]),
        forall|m: int| 0 <= m < b2.len() ==> (#[trigger] b2[m]).len() == 0 || is_ws(b2[m][0]),
        crate::text::lines_without(pre + (seq![h1] + b1 + post), '\n'),
        crate::text::lines_without(pre + (seq![h2] + b2 + post), '\n'),
        closes_after(pre + (seq![h1] + b1 + post)),
        closes_after(pre + (seq![h2] + b2 + post)),
        !contains_char(note_text(pre + (seq![h1] + b1 + post), body), '\r'),
        !contains_char(note_text(pre + (seq![h2] + b2 + post), body), '\r'),
    ensures
        note_content_hash_spec(note_text(pre + (seq![h1] + b1 + post), body))
            == note_content_hash_spec(note_text(pre + (seq![h2] + b2 + post), body)),
{
    let ls1 = pre + (seq![h1] + b1 + post);
    let ls2 = pre + (seq![h2] + b2 + post);
    lemma_canonical_note_text(ls1, body);
    lemma_canonical_note_text(ls2, body);
    crate::text::lemma_split_join(ls1, '\n');
    crate::text::lemma_split_join(ls2, '\n');
    lemma_drop_score_around(pre, h1, b1, post);
    lemma_drop_score_around(pre, h2, b2, post);
}

/// The frontmatter without its top-level `score:` block.
pub open spec fn without_top_level_score_spec(frontmatter: Seq<char>) -> Seq<char> {
    join(drop_score_lines(split_char(frontmatter, '\n'), 0, false), seq!['\n'])
}

/// The canonical text of a note: frontmatter without the score block, the
/// closing delimiter, and the body.
pub open spec fn canonical_note(note: Seq<char>) -> Result<Seq<char>, FrontmatterError> {
    let n = normalize_note(note);
    if !starts_with(n, opening()) {
        Err(FrontmatterError::MissingOpening)
    } else {
        let rest = n.skip(4);
        let p = find_from(rest, closing(), 0);
        if p >= rest.len() {
            Err(FrontmatterError::MissingClosing)
        } else {
            Ok(without_top_level_score_spec(rest.take(p)) + closing() + rest.skip(p + 5))
        }
    }
}

/// The content hash of a note (`sha256-note-v1`).
pub open spec fn note_content_hash_spec(note: Seq<char>) -> Result<Seq<char>, FrontmatterError> {
    match canonical_note(note) {
        Ok(c) => Ok(hex_sha256_of(c)),
        Err(e) => Err(e),
    }
}

proof fn lemma_replace_crlf_skip(s: Seq<char>, i: int)
    requires
        0 <= i < s.len(),
    ensures
        s.len() - i >= 2 && s[i] == '\r' && s[i + 1] == '\n' ==> replace_crlf(s.skip(i)) == seq!['\n'] + replace_crlf(s.skip(i + 2)),
        !(s.len() - i >= 2 && s[i] == '\r' && s[i + 1] == '\n') ==> replace_crlf(s.skip(i)) == seq![s[i]] + replace_crlf(s.skip(i + 1)),
{
    let t = s.skip(i);
    assert(t.skip(2) =~= s.skip(i + 2) || t.len() < 2);
    assert(t.drop_first() =~= s.skip(i + 1));
    if t.len() >= 2 {
        assert(t.skip(2) =~= s.skip(i + 2));
    }
}

/// `str::replace("\r\n", "\n")` followed by `str::replace('\r', "\n")`.
pub(crate) fn normalize_line_endings(s: &[char]) -> (r: Vec<char>)
    ensures
        r@ == replace_cr(replace_crlf(s@)),
{
    let mut first: Vec<char> = Vec::new();
    let mut i: usize = 0;
    proof { assert(s@.skip(0) =~= s@); }
    while i < s.len()
        invariant
            i <= s@.len(),
            replace_crlf(s@) == first@ + replace_crlf(s@.skip(i as int)),
        decreases s.len() - i,
    {
        proof { lemma_replace_crlf_skip(s@, i as int); }
        if i + 1 < s.len() && s[i] == '\r' && s[i + 1] == '\n' {
            let ghost before = first@;
            first.push('\n');
            proof { assert(first@ + replace_crlf(s@.skip(i + 2)) =~= before + (seq!['\n'] + replace_crlf(s@.skip(i + 2)))); }
            i = i + 2;
        } else {
            let ghost before = first@;
            first.push(s[i]);
            proof { assert(first@ + replace_crlf(s@.skip(i + 1)) =~= before + (seq![s@[i as int]] + replace_crlf(s@.skip(i + 1)))); }
            i = i + 1;
        }
    }
    proof { assert(first@ =~= first@ + replace_crlf(s@.skip(i as int))); }
    let mut second: Vec<char> = Vec::new();
    let mut k: usize = 0;
    while k < first.len()
        invariant
            k <= first@.len(),
            second@ =~= replace_cr(first@).take(k as int),
        decreases first.len() - k,
    {
        let c = first[k];
        if c == '\r' {
            second.push('\n');
        } else {
            second.push(c);
        }
        k = k + 1;
    }
    proof { assert(replace_cr(first@).take(first@.len() as int) =~= replace_cr(first@)); }
    second
}

/// The first position at or after `from` where `pat` occurs in `s`, or `s.len()`.
fn find_chars(s: &[char], pat: &[char], from: usize) -> (r: usize)
    requires
        from <= s@.len(),
    ensures
        r == find_from(s@, pat@, from as int),
{
    let mut i: usize = from;
    while i < s.len()
        invariant
            from <= i <= s@.len(),
            find_from(s@, pat@, from as int) == find_from(s@, pat@, i as int),
        decreases s.len() - i,
    {
        if pat.len() <= s.len() - i {
            let mut j: usize = 0;
            let mut same = true;
            while j < pat.len()
                invariant
                    j <= pat@.len(),
                    i + pat@.len() <= s@.len(),
                    s@.len() == s.len(),
                    same == (forall|k: int| 0 <= k < j ==> s@[i + k] == pat@[k]),
                decreases pat.len() - j,
            {
                if s[i + j] != pat[j] {
                    same = false;
                }
                j = j + 1;
            }
            proof {
                if same {
                    assert(s@.subrange(i as int, i + pat@.len()) =~= pat@);
                } else {
                    let k = choose|k: int| 0 <= k < pat@.len() && s@[i + k] != pat@[k];
                    assert(s@.subrange(i as int, i + pat@.len())[k] != pat@[k]);
                }
            }
            if same {
                return i;
            }
        }
        i = i + 1;
    }
    i
}

/// Executable `without_top_level_score_spec`.
pub fn without_top_level_score(frontmatter: &[char]) -> (r: Vec<char>)
    ensures
        r@ == without_top_level_score_spec(frontmatter@),
{
    let ls = split_on_newline(frontmatter);
    let ghost gls = views(ls@);
    let key: Vec<char> = vec!['s', 'c', 'o', 'r', 'e', ':'];
    let mut kept: Vec<Vec<char>> = Vec::new();
    let mut skipping = false;
    let mut i: usize = 0;
    while i < ls.len()
        invariant
            i <= ls@.len(),
            gls == views(ls@),
            key@ == crate::frontmatter::score_key(),
            drop_score_lines(gls, 0, false) == views(kept@) + drop_score_lines(gls, i as int, skipping),
        decreases ls.len() - i,
    {
        let line = &ls[i];
        assert(gls[i as int] == line@);
        if !skipping && starts_with_chars(line, &key) {
            skipping = true;
        } else if skipping && (line.len() == 0 || is_whitespace(line[0])) {
        } else {
            let ghost before = views(kept@);
            let copy = copy_chars(line);
            proof { crate::text::lemma_views_push(kept@, copy); }
            kept.push(copy);
            skipping = false;
            proof {
                assert(before + (seq![gls[i as int]] + drop_score_lines(gls, i + 1, false)) =~= views(kept@) + drop_score_lines(gls, i + 1, false));
            }
        }
        i = i + 1;
    }
    proof { assert(views(kept@) + drop_score_lines(gls, i as int, skipping) =~= views(kept@)); }
    let nl: Vec<char> = vec!['\n'];
    proof { assert(nl@ =~= seq!['\n']); }
    join_chars(&kept, &nl)
}

/// Executable `split_char(s, '\n')`.
fn split_on_newline(s: &[char]) -> (r: Vec<Vec<char>>)
    ensures
        views(r@) == split_char(s@, '\n'),
{
    let mut done: Vec<Vec<char>> = Vec::new();
    let mut current: Vec<char> = Vec::new();
    let mut i: usize = 0;
    proof { assert(s@.take(0) =~= Seq::<char>::empty()); }
    while i < s.len()
        invariant
            i <= s@.len(),
            split_char(s@.take(i as int), '\n') == views(done@).push(current@),
        decreases s.len() - i,
    {
        let c = s[i];
        proof {
            assert(s@.take(i + 1).drop_last() =~= s@.take(i as int));
            crate::text::lemma_split_char_nonempty(s@.take(i as int), '\n');
        }
        if c == '\n' {
            proof { crate::text::lemma_views_push(done@, current); }
            done.push(current);
            current = Vec::new();
        } else {
            current.push(c);
        }
        i = i + 1;
    }
    proof {
        assert(s@.take(s@.len() as int) =~= s@);
        crate::text::lemma_views_push(done@, current);
    }
    done.push(current);
    done
}

/// The hash of a note's frontmatter and body, excluding the top-level score
/// block, a byte order mark and the kind of line endings.
pub fn note_content_hash(note: &str) -> (r: Result<String, FrontmatterError>)
    ensures
        match r {
            Ok(h) => note_content_hash_spec(note@) == Ok::<Seq<char>, FrontmatterError>(h@) && h@.len() == 64,
            Err(e) => note_content_hash_spec(note@) == Err::<Seq<char>, FrontmatterError>(e),
        },
{
    let all = chars_of(note);
    let mut start: usize = 0;
    if all.len() > 0 && all[0] == '\u{feff}' {
        start = 1;
    }
    let mut stripped: Vec<char> = Vec::new();
    let mut i: usize = start;
    while i < all.len()
        invariant
            start <= i <= all@.len(),
            stripped@ =~= all@.subrange(start as int, i as int),
        decreases all.len() - i,
    {
        stripped.push(all[i]);
        i = i + 1;
    }
    proof {
        if start == 1 {
            assert(all@.subrange(1, all@.len() as int) =~= all@.drop_first());
        } else {
            assert(all@.subrange(0, all@.len() as int) =~= all@);
        }
    }
    let n = normalize_line_endings(&stripped);
    let open: Vec<char> = vec!['-', '-', '-', '\n'];
    proof { assert(open@ =~= opening()); }
    if !starts_with_chars(&n, &open) {
        return Err(FrontmatterError::MissingOpening);
    }
    let mut rest: Vec<char> = Vec::new();
    let mut k: usize = 4;
    while k < n.len()
        invariant
            4 <= k <= n@.len(),
            rest@ =~= n@.subrange(4, k as int),
        decreases n.len() - k,
    {
        rest.push(n[k]);
        k = k + 1;
    }
    proof { assert(rest@ =~= n@.skip(4)); }
    let close: Vec<char> = vec!['\n', '-', '-', '-', '\n'];
    proof { assert(close@ =~= closing()); }
    let p = find_chars(&rest, &close, 0);
    if p >= rest.len() {
        return Err(FrontmatterError::MissingClosing);
    }
    proof {
        assert(occurs_at(rest@, closing(), p as int)) by {
            lemma_find_from_found(rest@, closing(), 0);
        }
    }
    let mut head: Vec<char> = Vec::new();
    let mut j: usize = 0;
    while j < p
        invariant
            j <= p < rest@.len(),
            head@ =~= rest@.take(j as int),
        decreases p - j,
    {
        head.push(rest[j]);
        j = j + 1;
    }
    let mut canonical = without_top_level_score(&head);
    extend_chars(&mut canonical, &close);
    let mut m: usize = p + 5;
    let ghost prefix = canonical@;
    while m < rest.len()
        invariant
            p + 5 <= m <= rest@.len(),
            canonical@ =~= prefix + rest@.subrange(p + 5, m as int),
        decreases rest.len() - m,
    {
        canonical.push(rest[m]);
        m = m + 1;
    }
    proof {
        assert(rest@.subrange(p + 5, rest@.len() as int) =~= rest@.skip(p + 5));
        assert(canonical_note(note@) == Ok::<Seq<char>, FrontmatterError>(canonical@));
    }
    let h = hex_digest_of(&canonical);
    Ok(string_of(&h))
}

proof fn lemma_find_from_found(s: Seq<char>, pat: Seq<char>, from: int)
    requires
        0 <= from,
        find_from(s, pat, from) < s.len(),
    ensures
        occurs_at(s, pat, find_from(s, pat, from)),
        from <= find_from(s, pat, from),
    decreases s.len() - from,
{
    if from < s.len() && !occurs_at(s, pat, from) {
        lemma_find_from_found(s, pat, from + 1);
    }
}

} // verus!
