//! Which file-system events of the vault lead to re-indexing: hidden
//! directories are ignored, sync-conflict copies ask for a full rebuild, and
//! Markdown files (or removed paths) are re-indexed under their path
//! relative to the vault.
use vstd::prelude::*;

use crate::text::{chars_of, eq_chars, opt_view, string_of, string_views};

verus! {

/// The components of a path under the platform's path syntax, each a name,
/// or `None` for a root, prefix, `.` or `..` component (a name for what
/// `std::path::Path::components` yields, names read lossily as text).
pub uninterp spec fn path_components_spec(path: Seq<char>) -> Seq<Option<Seq<char>>>;

/// `std::path::Path::components`, each normal component converted to its
/// text and any other component to `None`. The contract claims that the
/// result depends on the path text alone; it does so within one build, as
/// the path syntax is that of the target (a backslash separates components on
/// Windows only).
#[verifier::external_body]
fn path_components(path: &str) -> (r: Vec<Option<String>>)
    ensures
        r@.map_values(|o: Option<String>| opt_view(o)) == path_components_spec(path@),
{
    std::path::Path::new(path).components().map(|c| match c {
        std::path::Component::Normal(name) => Some(name.to_string_lossy().into_owned()),
        _ => None,
    }).collect()
}

/// The text of `path` relative to `base`, when `base` is a leading run of
/// its components (a name for what `std::path::Path::strip_prefix` returns,
/// read lossily as text).
pub uninterp spec fn stripped_path_spec(path: Seq<char>, base: Seq<char>) -> Option<Seq<char>>;

/// `std::path::Path::strip_prefix`, its result read as text. The contract
/// claims that the result depends on the two path texts alone; it does so
/// within one build, as the path syntax is that of the target.
#[verifier::external_body]
fn strip_path_prefix(path: &str, base: &str) -> (r: Option<String>)
    ensures
        opt_view(r) == stripped_path_spec(path@, base@),
{
    std::path::Path::new(path).strip_prefix(base).ok().map(|rest| rest.to_string_lossy().into_owned())
}

/// The directories whose contents are never indexed.
pub open spec fn is_hidden_name(name: Seq<char>) -> bool {
    name == ".obsidian"@ || name == ".compass"@ || name == ".git"@
}

/// Whether some component of the path is a hidden directory.
pub open spec fn is_hidden_spec(path: Seq<char>) -> bool {
    exists|i: int|
        0 <= i < path_components_spec(path).len() && (#[trigger] path_components_spec(path)[i] matches Some(n)
            && is_hidden_name(n))
}

fn hidden_name(name: &str) -> (r: bool)
    ensures
        r == is_hidden_name(name@),
{
    let n = chars_of(name);
    eq_chars(&n, &chars_of(".obsidian")) || eq_chars(&n, &chars_of(".compass"))
        || eq_chars(&n, &chars_of(".git"))
}

/// Whether a path lies inside (or is) a hidden directory such as
/// `.obsidian`, `.compass` or `.git`.
pub fn is_hidden_path(path: &str) -> (r: bool)
    ensures
        r == is_hidden_spec(path@),
{
    let comps = path_components(path);
    let ghost cs = path_components_spec(path@);
    let mut i: usize = 0;
    while i < comps.len()
        invariant
            i <= comps@.len(),
            comps@.map_values(|o: Option<String>| opt_view(o)) == cs,
            cs == path_components_spec(path@),
            forall|k: int| 0 <= k < i ==> !(#[trigger] cs[k] matches Some(n) && is_hidden_name(n)),
        decreases comps.len() - i,
    {
        proof { assert(cs[i as int] == opt_view(comps@[i as int])); }
        match &comps[i] {
            Some(name) => {
                if hidden_name(name.as_str()) {
                    return true;
                }
            },
            None => {},
        }
        i = i + 1;
    }
    false
}

/// Whether some component of the path is the `Templates` directory, whose
/// notes are note templates rather than entities.
pub open spec fn is_template_spec(path: Seq<char>) -> bool {
    exists|i: int|
        0 <= i < path_components_spec(path).len() && (#[trigger] path_components_spec(path)[i] matches Some(n)
            && n == "Templates"@)
}

/// Whether a path lies inside a `Templates` directory.
pub fn is_template_path(path: &str) -> (r: bool)
    ensures
        r == is_template_spec(path@),
{
    let comps = path_components(path);
    let ghost cs = path_components_spec(path@);
    let templates = chars_of("Templates");
    let mut i: usize = 0;
    while i < comps.len()
        invariant
            i <= comps@.len(),
            comps@.map_values(|o: Option<String>| opt_view(o)) == cs,
            cs == path_components_spec(path@),
            templates@ == "Templates"@,
            forall|k: int| 0 <= k < i ==> !(#[trigger] cs[k] matches Some(n) && n == "Templates"@),
        decreases comps.len() - i,
    {
        proof { assert(cs[i as int] == opt_view(comps@[i as int])); }
        match &comps[i] {
            Some(name) => {
                if eq_chars(&chars_of(name.as_str()), &templates) {
                    return true;
                }
            },
            None => {},
        }
        i = i + 1;
    }
    false
}

/// The file name of a path: its last component, when that is a name.
pub open spec fn file_name_spec(path: Seq<char>) -> Option<Seq<char>> {
    let cs = path_components_spec(path);
    if cs.len() == 0 {
        None
    } else {
        cs.last()
    }
}

/// The index of the last `.` of `name` before position `j`, or -1.
pub open spec fn last_dot_before(name: Seq<char>, j: int) -> int
    decreases j,
{
    if j <= 0 {
        -1
    } else if name[j - 1] == '.' {
        j - 1
    } else {
        last_dot_before(name, j - 1)
    }
}

proof fn lemma_last_dot_before(name: Seq<char>, j: int)
    requires
        j <= name.len(),
    ensures
        last_dot_before(name, j) == -1 || (0 <= last_dot_before(name, j) < j
            && name[last_dot_before(name, j)] == '.'),
    decreases j,
{
    if j > 0 && name[j - 1] != '.' {
        lemma_last_dot_before(name, j - 1);
    }
}

/// The text of `name` after its last `.`, when that `.` is not its first
/// character (the extension as `std::path::Path::extension` documents it).
pub open spec fn extension_of(name: Seq<char>) -> Option<Seq<char>> {
    let k = last_dot_before(name, name.len() as int);
    if k > 0 {
        Some(name.skip(k + 1))
    } else {
        None
    }
}

/// Whether a file name ends in `.md` after a non-empty stem.
pub open spec fn is_markdown_name(name: Seq<char>) -> bool {
    name.len() >= 4 && name[name.len() - 3] == '.' && name[name.len() - 2] == 'm' && name[name.len() - 1] == 'd'
}

proof fn lemma_markdown_extension(name: Seq<char>)
    ensures
        is_markdown_name(name) <==> extension_of(name) == Some(seq!['m', 'd']),
{
    let n = name.len() as int;
    lemma_last_dot_before(name, n);
    if is_markdown_name(name) {
        assert(last_dot_before(name, n - 2) == n - 3);
        assert(last_dot_before(name, n - 1) == n - 3);
        assert(last_dot_before(name, n) == n - 3);
        assert(name.skip(n - 2) =~= seq!['m', 'd']);
    } else if extension_of(name) == Some(seq!['m', 'd']) {
        let k = last_dot_before(name, n);
        let t = name.skip(k + 1);
        assert(t == seq!['m', 'd']);
        assert(t.len() == 2);
        assert(k + 3 == n);
        assert(name[k + 1] == t[0]);
        assert(name[k + 2] == t[1]);
        assert(is_markdown_name(name));
    }
}

/// Whether a file name ends in `.md` after a non-empty stem.
fn markdown_name(name: &str) -> (r: bool)
    ensures
        r == is_markdown_name(name@),
{
    let v = chars_of(name);
    let n = v.len();
    n >= 4 && v[n - 3] == '.' && v[n - 2] == 'm' && v[n - 1] == 'd'
}

/// The marker Syncthing puts into the name of a conflicting copy.
pub open spec fn conflict_marker() -> Seq<char> {
    ".sync-conflict-"@
}

/// Whether `s` holds `m` somewhere.
pub open spec fn contains_seq(s: Seq<char>, m: Seq<char>) -> bool {
    exists|i: int| 0 <= i && i + m.len() <= s.len() && #[trigger] s.subrange(i, i + m.len()) == m
}

/// Whether a path names a sync-conflict copy: its file name holds
/// `.sync-conflict-`.
pub open spec fn is_sync_conflict_spec(path: Seq<char>) -> bool {
    file_name_spec(path) matches Some(n) && contains_seq(n, conflict_marker())
}

fn contains_marker(s: &[char], m: &[char]) -> (r: bool)
    ensures
        r == contains_seq(s@, m@),
{
    if m.len() > s.len() {
        return false;
    }
    let mut i: usize = 0;
    while i <= s.len() - m.len()
        invariant
            m@.len() <= s@.len(),
            i <= s@.len() - m@.len() + 1,
            forall|k: int| 0 <= k < i ==> #[trigger] s@.subrange(k, k + m@.len()) != m@,
        decreases s.len() - i,
    {
        let mut j: usize = 0;
        let mut same = true;
        while j < m.len()
            invariant
                j <= m@.len(),
                i + m@.len() <= s@.len(),
                s@.len() == s.len(),
                same == (forall|t: int| 0 <= t < j ==> s@[i + t] == m@[t]),
            decreases m.len() - j,
        {
            let idx = i + j;
            if s[idx] != m[j] {
                same = false;
            }
            j = j + 1;
        }
        if same {
            proof { assert(s@.subrange(i as int, i + m@.len()) =~= m@); }
            return true;
        }
        proof {
            let t = choose|t: int| 0 <= t < m@.len() && s@[i + t] != m@[t];
            assert(s@.subrange(i as int, i + m@.len())[t] != m@[t]);
        }
        i = i + 1;
    }
    false
}

/// Whether a path names a sync-conflict copy, whose appearance means the
/// index must be rebuilt from the vault.
pub fn is_sync_conflict_path(path: &str) -> (r: bool)
    ensures
        r == is_sync_conflict_spec(path@),
{
    let comps = path_components(path);
    proof {
        assert(comps@.map_values(|o: Option<String>| opt_view(o)).len() == comps@.len());
    }
    if comps.len() == 0 {
        return false;
    }
    proof {
        assert(path_components_spec(path@).last() == opt_view(comps@[comps@.len() - 1]));
    }
    match &comps[comps.len() - 1] {
        Some(name) => {
            let n = chars_of(name.as_str());
            let marker = chars_of(".sync-conflict-");
            contains_marker(&n, &marker)
        },
        None => false,
    }
}

/// `s` with each `\` replaced by `/`.
pub open spec fn forward_slashes(s: Seq<char>) -> Seq<char> {
    s.map_values(|c: char| if c == '\\' { '/' } else { c })
}

/// The path of a vault file as the index stores it: relative to the vault
/// when it lies in it (the whole path otherwise), with forward slashes.
pub open spec fn relative_path_spec(vault: Seq<char>, path: Seq<char>) -> Seq<char> {
    match stripped_path_spec(path, vault) {
        Some(rest) => forward_slashes(rest),
        None => forward_slashes(path),
    }
}

/// The index path of a vault file.
pub fn relative_path(vault: &str, path: &str) -> (r: String)
    ensures
        r@ == relative_path_spec(vault@, path@),
{
    let text = match strip_path_prefix(path, vault) {
        Some(rest) => chars_of(rest.as_str()),
        None => chars_of(path),
    };
    let mut out: Vec<char> = Vec::new();
    let mut i: usize = 0;
    while i < text.len()
        invariant
            i <= text@.len(),
            out@ == forward_slashes(text@.take(i as int)),
        decreases text.len() - i,
    {
        let c = text[i];
        out.push(if c == '\\' { '/' } else { c });
        proof { assert(forward_slashes(text@.take(i + 1)) =~= forward_slashes(text@.take(i as int)).push(if c == '\\' { '/' } else { c })); }
        i = i + 1;
    }
    proof { assert(text@.take(text@.len() as int) =~= text@); }
    string_of(&out)
}

/// Whether an event path is re-indexed: not hidden, not a conflict copy, and
/// either a Markdown file or, for a removal, a path that no longer exists.
pub open spec fn reindexed(path: Seq<char>, exists_now: bool, is_remove: bool) -> bool {
    !is_hidden_spec(path) && !is_sync_conflict_spec(path) && (
        (file_name_spec(path) matches Some(n) && extension_of(n) == Some(seq!['m', 'd']))
        || (is_remove && !exists_now))
}

/// The paths of an event that are re-indexed, in order.
pub open spec fn reindexed_paths(paths: Seq<Seq<char>>, exists_now: Seq<bool>, is_remove: bool) -> Seq<Seq<char>>
    decreases paths.len(),
{
    if paths.len() == 0 {
        Seq::<Seq<char>>::empty()
    } else {
        let r = reindexed_paths(paths.drop_last(), exists_now.drop_last(), is_remove);
        if reindexed(paths.last(), exists_now.last(), is_remove) {
            r.push(paths.last())
        } else {
            r
        }
    }
}

/// Whether an event holds a sync-conflict copy outside hidden directories.
pub open spec fn needs_rebuild(paths: Seq<Seq<char>>) -> bool {
    exists|i: int| 0 <= i < paths.len() && !is_hidden_spec(#[trigger] paths[i]) && is_sync_conflict_spec(paths[i])
}

/// Sorts the paths of one file-system event: the paths to re-index, in
/// order, and whether the index must be rebuilt. `exists_now[i]` tells
/// whether `event_paths[i]` exists on disk after the event.
pub fn collect_event_paths(event_paths: &[String], exists_now: &[bool], is_remove: bool) -> (r: (Vec<String>, bool))
    requires
        exists_now@.len() == event_paths@.len(),
    ensures
        string_views(r.0@) == reindexed_paths(string_views(event_paths@), exists_now@, is_remove),
        r.1 == needs_rebuild(string_views(event_paths@)),
{
    let ghost ps = string_views(event_paths@);
    let mut kept: Vec<String> = Vec::new();
    let mut rebuild = false;
    let mut i: usize = 0;
    while i < event_paths.len()
        invariant
            i <= event_paths@.len(),
            exists_now@.len() == event_paths@.len(),
            ps == string_views(event_paths@),
            string_views(kept@) == reindexed_paths(ps.take(i as int), exists_now@.take(i as int), is_remove),
            rebuild == (exists|k: int| 0 <= k < i && !is_hidden_spec(#[trigger] ps[k]) && is_sync_conflict_spec(ps[k])),
        decreases event_paths.len() - i,
    {
        let p = event_paths[i].as_str();
        proof {
            assert(ps[i as int] == p@);
            assert(ps.take(i + 1).drop_last() =~= ps.take(i as int));
            assert(exists_now@.take(i + 1).drop_last() =~= exists_now@.take(i as int));
            assert(ps.take(i + 1).last() == p@);
            assert(exists_now@.take(i + 1).last() == exists_now@[i as int]);
        }
        let hidden = is_hidden_path(p);
        if !hidden {
            if is_sync_conflict_path(p) {
                rebuild = true;
            } else {
                let comps = path_components(p);
                proof {
                    assert(comps@.map_values(|o: Option<String>| opt_view(o)).len() == comps@.len());
                }
                let md = if comps.len() > 0 {
                    proof {
                        assert(path_components_spec(p@).last() == opt_view(comps@[comps@.len() - 1]));
                    }
                    match &comps[comps.len() - 1] {
                        Some(name) => {
                            proof { lemma_markdown_extension(name@); }
                            markdown_name(name.as_str())
                        },
                        None => false,
                    }
                } else {
                    false
                };
                if md || (is_remove && !exists_now[i]) {
                    let ghost old_kept = kept@;
                    kept.push(event_paths[i].clone());
                    proof {
                        assert(string_views(kept@) =~= string_views(old_kept).push(p@));
                    }
                }
            }
        }
        i = i + 1;
    }
    proof {
        assert(ps.take(event_paths@.len() as int) =~= ps);
        assert(exists_now@.take(event_paths@.len() as int) =~= exists_now@);
    }
    (kept, rebuild)
}

// ---------------------------------------------------------------- debouncing

/// What the watcher does when its debounce timer fires.
#[derive(Debug, Clone, PartialEq, Eq)]
pub enum WatchAction {
    /// Rebuild the whole index from the vault.
    Rebuild,
    /// Re-index these paths, each once.
    Reindex(Vec<String>),
}

/// The changes gathered since the timer last fired.
#[derive(Debug)]
pub struct WatchBatch {
    /// The paths to re-index, each once.
    paths: Vec<String>,
    /// Whether a sync conflict asked for a full rebuild.
    rebuild_required: bool,
}

/// Whether no value occurs twice in `s`.
pub open spec fn no_repeats(s: Seq<Seq<char>>) -> bool {
    forall|i: int, j: int| 0 <= i < j < s.len() ==> s[i] != s[j]
}

/// `acc` with the values of `more` that it lacks appended, in order.
pub open spec fn union_in_order(acc: Seq<Seq<char>>, more: Seq<Seq<char>>) -> Seq<Seq<char>>
    decreases more.len(),
{
    if more.len() == 0 {
        acc
    } else {
        let r = union_in_order(acc, more.drop_last());
        if r.contains(more.last()) { r } else { r.push(more.last()) }
    }
}

/// Gathering paths loses none and invents none: the paths already pending
/// stay first, in their order; every newly gathered path is pending
/// afterwards; nothing else is; and no path is pending twice when none was.
pub proof fn law_gathering_keeps_pending_paths(acc: Seq<Seq<char>>, more: Seq<Seq<char>>)
    ensures
        union_in_order(acc, more).len() >= acc.len(),
        union_in_order(acc, more).take(acc.len() as int) == acc,
        forall|i: int| 0 <= i < more.len() ==> union_in_order(acc, more).contains(#[trigger] more[i]),
        forall|x: Seq<char>| union_in_order(acc, more).contains(x) ==> acc.contains(x) || more.contains(x),
        no_repeats(acc) ==> no_repeats(union_in_order(acc, more)),
    decreases more.len(),
{
    if more.len() > 0 {
        let init = more.drop_last();
        law_gathering_keeps_pending_paths(acc, init);
        let r = union_in_order(acc, init);
        let x = more.last();
        assert forall|i: int| 0 <= i < more.len() implies union_in_order(acc, more).contains(#[trigger] more[i]) by {
            if i < init.len() {
                assert(init[i] == more[i]);
                assert(r.contains(init[i]));
                if !r.contains(x) {
                    let k = choose|k: int| 0 <= k < r.len() && r[k] == init[i];
                    assert(r.push(x)[k] == init[i]);
                }
            } else {
                if !r.contains(x) {
                    assert(r.push(x)[r.len() as int] == x);
                }
            }
        }
        assert forall|y: Seq<char>| union_in_order(acc, more).contains(y) implies acc.contains(y) || more.contains(y) by {
            if !r.contains(x) && y == x {
                assert(more[more.len() - 1] == y);
            } else {
                if !r.contains(x) {
                    let k = choose|k: int| 0 <= k < r.len() + 1 && r.push(x)[k] == y;
                    assert(r[k] == y);
                }
                assert(r.contains(y));
                if init.contains(y) {
                    let k = choose|k: int| 0 <= k < init.len() && init[k] == y;
                    assert(more[k] == y);
                }
            }
        }
        if !r.contains(x) {
            assert(r.push(x).take(acc.len() as int) =~= r.take(acc.len() as int));
            if no_repeats(acc) {
                assert forall|a: int, b: int| 0 <= a < b < r.push(x).len() implies r.push(x)[a] != r.push(x)[b] by {
                    if b == r.len() {
                        assert(r.push(x)[a] == r[a]);
                    }
                }
            }
        }
    } else {
        assert(acc.take(acc.len() as int) =~= acc);
    }
}

fn contains_path(v: &Vec<String>, p: &str) -> (r: bool)
    ensures
        r == string_views(v@).contains(p@),
{
    let t = chars_of(p);
    let mut i: usize = 0;
    while i < v.len()
        invariant
            i <= v@.len(),
            t@ == p@,
            forall|k: int| 0 <= k < i ==> (#[trigger] v@[k])@ != p@,
        decreases v.len() - i,
    {
        if eq_chars(&chars_of(v[i].as_str()), &t) {
            proof { assert(string_views(v@)[i as int] == p@); }
            return true;
        }
        i = i + 1;
    }
    proof {
        if string_views(v@).contains(p@) {
            let k = choose|k: int| 0 <= k < v@.len() && string_views(v@)[k] == p@;
            assert(v@[k]@ == p@);
        }
    }
    false
}

impl WatchBatch {
    /// No path is gathered twice.
    #[verifier::type_invariant]
    spec fn paths_once(self) -> bool {
        no_repeats(string_views(self.paths@))
    }

    /// The paths gathered so far, in the order they came.
    pub closed spec fn pending(self) -> Seq<Seq<char>> {
        string_views(self.paths@)
    }

    /// Whether a full rebuild was asked for.
    pub closed spec fn rebuild_asked(self) -> bool {
        self.rebuild_required
    }

    /// The paths gathered so far.
    pub fn paths(&self) -> (r: &Vec<String>)
        ensures
            string_views(r@) == self.pending(),
    {
        &self.paths
    }

    /// Whether a full rebuild was asked for.
    pub fn rebuild_required(&self) -> (r: bool)
        ensures
            r == self.rebuild_asked(),
    {
        self.rebuild_required
    }

    /// An empty batch.
    pub fn new() -> (b: WatchBatch)
        ensures
            b.pending().len() == 0,
            !b.rebuild_asked(),
    {
        WatchBatch { paths: Vec::new(), rebuild_required: false }
    }

    /// Takes in one file-system event (`exists_now[i]` tells whether
    /// `event_paths[i]` exists after it). Returns whether the debounce timer
    /// is (re)started: whenever the batch then holds work.
    pub fn on_event(&mut self, event_paths: &[String], exists_now: &[bool], is_remove: bool) -> (restart: bool)
        requires
            exists_now@.len() == event_paths@.len(),
        ensures
            no_repeats(final(self).pending()),
            final(self).pending() == union_in_order(old(self).pending(),
                reindexed_paths(string_views(event_paths@), exists_now@, is_remove)),
            final(self).rebuild_asked() == (old(self).rebuild_asked() || needs_rebuild(string_views(event_paths@))),
            restart == (final(self).pending().len() > 0 || final(self).rebuild_asked()),
    {
        proof { use_type_invariant(&*self); }
        let (kept, rebuild) = collect_event_paths(event_paths, exists_now, is_remove);
        let mut paths: Vec<String> = Vec::new();
        std::mem::swap(&mut paths, &mut self.paths);
        let ghost start = string_views(paths@);
        let ghost more = string_views(kept@);
        let mut i: usize = 0;
        proof { assert(more.take(0) =~= Seq::<Seq<char>>::empty()); }
        while i < kept.len()
            invariant
                i <= kept@.len(),
                more == string_views(kept@),
                string_views(paths@) == union_in_order(start, more.take(i as int)),
                no_repeats(string_views(paths@)),
            decreases kept.len() - i,
        {
            proof {
                assert(more.take(i + 1).drop_last() =~= more.take(i as int));
                assert(more.take(i + 1).last() == kept@[i as int]@);
            }
            if !contains_path(&paths, kept[i].as_str()) {
                let ghost before = string_views(paths@);
                paths.push(kept[i].clone());
                proof {
                    assert(string_views(paths@) =~= before.push(kept@[i as int]@));
                    assert forall|a: int, b: int| 0 <= a < b < string_views(paths@).len() implies
                        string_views(paths@)[a] != string_views(paths@)[b] by {
                        if b == before.len() {
                            assert(before[a] == string_views(paths@)[a]);
                            assert(before.contains(before[a]));
                        } else {
                            assert(before[a] == string_views(paths@)[a] && before[b] == string_views(paths@)[b]);
                        }
                    }
                }
            }
            i = i + 1;
        }
        proof { assert(more.take(kept@.len() as int) =~= more); }
        self.paths = paths;
        self.rebuild_required = self.rebuild_required || rebuild;
        self.paths.len() > 0 || self.rebuild_required
    }

    /// What to do when the debounce timer fires: a full rebuild when one was
    /// asked for (the gathered paths are covered by it), else re-index the
    /// gathered paths. The batch is emptied.
    pub fn on_timer(&mut self) -> (action: WatchAction)
        ensures
            old(self).rebuild_asked() ==> action == WatchAction::Rebuild,
            !old(self).rebuild_asked() ==> (action matches WatchAction::Reindex(ps)
                && string_views(ps@) == old(self).pending()),
            final(self).pending().len() == 0,
            !final(self).rebuild_asked(),
    {
        let mut taken: Vec<String> = Vec::new();
        std::mem::swap(&mut taken, &mut self.paths);
        let rebuild = self.rebuild_required;
        self.rebuild_required = false;
        if rebuild {
            WatchAction::Rebuild
        } else {
            WatchAction::Reindex(taken)
        }
    }
}

} // verus!
