//! Naming rules for entities: layers, id prefixes, target folders, the next
//! free id, access depths and the change-detection hash of a body.
use vstd::prelude::*;

use crate::scoring::AccessDepth;
use crate::text::{chars_of, eq_chars, extend_chars, lowercase, starts_with, starts_with_chars, string_of, string_views, to_lowercase};

verus! {

/// The layer of an entity.
#[derive(Debug, Clone, Copy, PartialEq, Eq, Structural)]
pub enum Layer {
    Direction,
    Knowledge,
    Case,
    Log,
    Insight,
}

/// Word constants used by the layer rules.
pub open spec fn w_direction() -> Seq<char> { seq!['d', 'i', 'r', 'e', 'c', 't', 'i', 'o', 'n'] }
pub open spec fn w_knowledge() -> Seq<char> { seq!['k', 'n', 'o', 'w', 'l', 'e', 'd', 'g', 'e'] }
pub open spec fn w_case() -> Seq<char> { seq!['c', 'a', 's', 'e'] }
pub open spec fn w_log() -> Seq<char> { seq!['l', 'o', 'g'] }
pub open spec fn w_insight() -> Seq<char> { seq!['i', 'n', 's', 'i', 'g', 'h', 't'] }

/// The id prefix of a layer name (case-insensitive); unknown layers get `know`.
pub open spec fn layer_prefix_spec(layer: Seq<char>) -> Seq<char> {
    let l = lowercase(layer);
    if l == w_direction() {
        seq!['d', 'i', 'r']
    } else if l == w_knowledge() {
        seq!['k', 'n', 'o', 'w']
    } else if l == w_case() {
        seq!['c', 'a', 's', 'e']
    } else if l == w_log() {
        seq!['l', 'o', 'g']
    } else if l == w_insight() {
        seq!['i', 'n', 's']
    } else {
        seq!['k', 'n', 'o', 'w']
    }
}

/// The vault folder of a layer name (case-insensitive); unknown layers go to `Inbox`.
pub open spec fn layer_dir_spec(layer: Seq<char>) -> Seq<char> {
    let l = lowercase(layer);
    if l == w_direction() {
        seq!['D', 'i', 'r', 'e', 'c', 't', 'i', 'o', 'n']
    } else if l == w_knowledge() {
        seq!['K', 'n', 'o', 'w', 'l', 'e', 'd', 'g', 'e']
    } else if l == w_case() {
        seq!['C', 'a', 's', 'e', 's']
    } else if l == w_log() {
        seq!['L', 'o', 'g', 's']
    } else if l == w_insight() {
        seq!['I', 'n', 's', 'i', 'g', 'h', 't', 's']
    } else {
        seq!['I', 'n', 'b', 'o', 'x']
    }
}

/// Whether the lowercased name is one of the five layer words.
pub open spec fn known_layer(layer: Seq<char>) -> bool {
    let l = lowercase(layer);
    l == w_direction() || l == w_knowledge() || l == w_case() || l == w_log() || l == w_insight()
}

/// The layer table: direction `dir` in `Direction`, knowledge `know` in
/// `Knowledge`, case `case` in `Cases`, log `log` in `Logs`, insight `ins`
/// in `Insights`, whatever the case of the name; any other name gets `know`
/// in `Inbox`.
pub proof fn law_layer_table(layer: Seq<char>)
    ensures
        lowercase(layer) == "direction"@ ==> layer_prefix_spec(layer) == "dir"@ && layer_dir_spec(layer) == "Direction"@,
        lowercase(layer) == "knowledge"@ ==> layer_prefix_spec(layer) == "know"@ && layer_dir_spec(layer) == "Knowledge"@,
        lowercase(layer) == "case"@ ==> layer_prefix_spec(layer) == "case"@ && layer_dir_spec(layer) == "Cases"@,
        lowercase(layer) == "log"@ ==> layer_prefix_spec(layer) == "log"@ && layer_dir_spec(layer) == "Logs"@,
        lowercase(layer) == "insight"@ ==> layer_prefix_spec(layer) == "ins"@ && layer_dir_spec(layer) == "Insights"@,
        !known_layer(layer) ==> layer_prefix_spec(layer) == "know"@ && layer_dir_spec(layer) == "Inbox"@,
{
    reveal_strlit("direction");
    reveal_strlit("knowledge");
    reveal_strlit("case");
    reveal_strlit("log");
    reveal_strlit("insight");
    reveal_strlit("dir");
    reveal_strlit("know");
    reveal_strlit("ins");
    reveal_strlit("Direction");
    reveal_strlit("Knowledge");
    reveal_strlit("Cases");
    reveal_strlit("Logs");
    reveal_strlit("Insights");
    reveal_strlit("Inbox");
    assert("direction"@ =~= w_direction());
    assert("knowledge"@ =~= w_knowledge());
    assert("case"@ =~= w_case());
    assert("log"@ =~= w_log());
    assert("insight"@ =~= w_insight());
    assert("dir"@ =~= seq!['d', 'i', 'r']);
    assert("know"@ =~= seq!['k', 'n', 'o', 'w']);
    assert("ins"@ =~= seq!['i', 'n', 's']);
    assert("Direction"@ =~= seq!['D', 'i', 'r', 'e', 'c', 't', 'i', 'o', 'n']);
    assert("Knowledge"@ =~= seq!['K', 'n', 'o', 'w', 'l', 'e', 'd', 'g', 'e']);
    assert("Cases"@ =~= seq!['C', 'a', 's', 'e', 's']);
    assert("Logs"@ =~= seq!['L', 'o', 'g', 's']);
    assert("Insights"@ =~= seq!['I', 'n', 's', 'i', 'g', 'h', 't', 's']);
    assert("Inbox"@ =~= seq!['I', 'n', 'b', 'o', 'x']);
    assert(w_direction() != w_knowledge() && w_direction() != w_case() && w_direction() != w_log()
        && w_direction() != w_insight() && w_knowledge() != w_case() && w_knowledge() != w_log()
        && w_knowledge() != w_insight() && w_case() != w_log() && w_case() != w_insight()
        && w_log() != w_insight()) by {
        assert(w_direction().len() != w_case().len());
        assert(w_direction().len() != w_log().len());
        assert(w_direction().len() != w_insight().len());
        assert(w_direction()[0] != w_knowledge()[0]);
        assert(w_knowledge().len() != w_case().len());
        assert(w_knowledge().len() != w_log().len());
        assert(w_knowledge().len() != w_insight().len());
        assert(w_case().len() != w_log().len());
        assert(w_case().len() != w_insight().len());
        assert(w_log().len() != w_insight().len());
    }
}

/// A known layer's id prefix opens its name, and different layers get
/// different prefixes, so ids tell the layers apart.
pub proof fn law_layer_prefixes_distinct(a: Seq<char>, b: Seq<char>)
    ensures
        known_layer(a) ==> layer_prefix_spec(a).len() > 0 && starts_with(lowercase(a), layer_prefix_spec(a)),
        known_layer(a) && known_layer(b) && lowercase(a) != lowercase(b)
            ==> layer_prefix_spec(a) != layer_prefix_spec(b),
{
    law_layer_table(a);
    law_layer_table(b);
    let p = layer_prefix_spec(a);
    let l = lowercase(a);
    if known_layer(a) {
        assert(l.take(p.len() as int) =~= p);
    }
}

/// Which of the five layer words the lowercased name is, if any.
fn layer_word(layer: &str) -> (r: u8)
    ensures
        r == 0 ==> lowercase(layer@) == w_direction(),
        r == 1 ==> lowercase(layer@) == w_knowledge(),
        r == 2 ==> lowercase(layer@) == w_case(),
        r == 3 ==> lowercase(layer@) == w_log(),
        r == 4 ==> lowercase(layer@) == w_insight(),
        r >= 5 ==> lowercase(layer@) != w_direction() && lowercase(layer@) != w_knowledge()
            && lowercase(layer@) != w_case() && lowercase(layer@) != w_log()
            && lowercase(layer@) != w_insight(),
{
    let low = to_lowercase(layer);
    let l = chars_of(low.as_str());
    let d: Vec<char> = vec!['d', 'i', 'r', 'e', 'c', 't', 'i', 'o', 'n'];
    let k: Vec<char> = vec!['k', 'n', 'o', 'w', 'l', 'e', 'd', 'g', 'e'];
    let c: Vec<char> = vec!['c', 'a', 's', 'e'];
    let g: Vec<char> = vec!['l', 'o', 'g'];
    let i: Vec<char> = vec!['i', 'n', 's', 'i', 'g', 'h', 't'];
    proof {
        assert(d@ =~= w_direction());
        assert(k@ =~= w_knowledge());
        assert(c@ =~= w_case());
        assert(g@ =~= w_log());
        assert(i@ =~= w_insight());
    }
    if eq_chars(&l, &d) {
        0
    } else if eq_chars(&l, &k) {
        1
    } else if eq_chars(&l, &c) {
        2
    } else if eq_chars(&l, &g) {
        3
    } else if eq_chars(&l, &i) {
        4
    } else {
        5
    }
}

/// The id prefix for a new entity of the given layer.
pub fn layer_prefix(layer: &str) -> (r: &'static str)
    ensures
        r@ == layer_prefix_spec(layer@),
{
    let w = layer_word(layer);
    if w == 0 {
        proof { reveal_strlit("dir"); }
        "dir"
    } else if w == 1 {
        proof { reveal_strlit("know"); }
        "know"
    } else if w == 2 {
        proof { reveal_strlit("case"); }
        "case"
    } else if w == 3 {
        proof { reveal_strlit("log"); }
        "log"
    } else if w == 4 {
        proof { reveal_strlit("ins"); }
        "ins"
    } else {
        proof { reveal_strlit("know"); }
        "know"
    }
}

/// The vault folder for a new entity of the given layer.
pub fn layer_dir(layer: &str) -> (r: &'static str)
    ensures
        r@ == layer_dir_spec(layer@),
{
    let w = layer_word(layer);
    if w == 0 {
        proof { reveal_strlit("Direction"); }
        "Direction"
    } else if w == 1 {
        proof { reveal_strlit("Knowledge"); }
        "Knowledge"
    } else if w == 2 {
        proof { reveal_strlit("Cases"); }
        "Cases"
    } else if w == 3 {
        proof { reveal_strlit("Logs"); }
        "Logs"
    } else if w == 4 {
        proof { reveal_strlit("Insights"); }
        "Insights"
    } else {
        proof { reveal_strlit("Inbox"); }
        "Inbox"
    }
}

/// The access depth a name denotes (case-insensitive), if any.
pub open spec fn access_depth_spec(depth: Seq<char>) -> Option<AccessDepth> {
    let l = lowercase(depth);
    if l == seq!['g', 'l', 'a', 'n', 'c', 'e'] {
        Some(AccessDepth::Glance)
    } else if l == seq!['r', 'e', 'a', 'd'] {
        Some(AccessDepth::Read)
    } else if l == seq!['s', 't', 'u', 'd', 'y'] {
        Some(AccessDepth::Study)
    } else if l == seq!['a', 'p', 'p', 'l', 'y'] {
        Some(AccessDepth::Apply)
    } else {
        None
    }
}

/// Parses `glance`, `read`, `study` or `apply`, in any case.
pub fn parse_access_depth(depth: &str) -> (r: Option<AccessDepth>)
    ensures
        r == access_depth_spec(depth@),
{
    let low = to_lowercase(depth);
    let l = chars_of(low.as_str());
    let glance: Vec<char> = vec!['g', 'l', 'a', 'n', 'c', 'e'];
    let read: Vec<char> = vec!['r', 'e', 'a', 'd'];
    let study: Vec<char> = vec!['s', 't', 'u', 'd', 'y'];
    let apply: Vec<char> = vec!['a', 'p', 'p', 'l', 'y'];
    proof {
        assert(glance@ =~= seq!['g', 'l', 'a', 'n', 'c', 'e']);
        assert(read@ =~= seq!['r', 'e', 'a', 'd']);
        assert(study@ =~= seq!['s', 't', 'u', 'd', 'y']);
        assert(apply@ =~= seq!['a', 'p', 'p', 'l', 'y']);
    }
    if eq_chars(&l, &glance) {
        Some(AccessDepth::Glance)
    } else if eq_chars(&l, &read) {
        Some(AccessDepth::Read)
    } else if eq_chars(&l, &study) {
        Some(AccessDepth::Study)
    } else if eq_chars(&l, &apply) {
        Some(AccessDepth::Apply)
    } else {
        None
    }
}

// ---------------------------------------------------------------- next id

/// Whether `c` is an ASCII decimal digit.
pub open spec fn is_digit(c: char) -> bool {
    '0' <= c && c <= '9'
}

/// The value of a digit character.
pub open spec fn digit_value(c: char) -> int {
    (c as u32) - ('0' as u32)
}

/// The value of a string of decimal digits.
pub open spec fn decimal_value(d: Seq<char>) -> int
    decreases d.len(),
{
    if d.len() == 0 {
        0
    } else {
        decimal_value(d.drop_last()) * 10 + digit_value(d.last())
    }
}

/// What `str::parse::<u32>` returns: an optional `+`, then one or more ASCII
/// digits whose value fits in 32 bits.
pub open spec fn parse_u32_spec(s: Seq<char>) -> Option<u32> {
    let d = unsigned_digits(s);
    if d.len() == 0 || !all_digits(d) {
        None
    } else if decimal_value(d) > u32::MAX {
        None
    } else {
        Some(decimal_value(d) as u32)
    }
}

proof fn lemma_decimal_nonneg(d: Seq<char>)
    requires
        forall|i: int| 0 <= i < d.len() ==> is_digit(#[trigger] d[i]),
    ensures
        decimal_value(d) >= 0,
    decreases d.len(),
{
    if d.len() > 0 {
        lemma_decimal_nonneg(d.drop_last());
    }
}

/// `s` without one leading `+`.
pub open spec fn unsigned_digits(s: Seq<char>) -> Seq<char> {
    if s.len() > 0 && s[0] == '+' { s.drop_first() } else { s }
}

/// Whether every character of `d` is a digit.
pub open spec fn all_digits(d: Seq<char>) -> bool {
    forall|i: int| 0 <= i < d.len() ==> is_digit(#[trigger] d[i])
}

/// Executable `parse_u32_spec`.
pub fn parse_u32(s: &[char]) -> (r: Option<u32>)
    ensures
        r == parse_u32_spec(s@),
{
    let mut start: usize = 0;
    if s.len() > 0 && s[0] == '+' {
        start = 1;
    }
    let ghost d = unsigned_digits(s@);
    proof { assert(d =~= s@.skip(start as int)); }
    if start >= s.len() {
        return None;
    }
    let mut value: u64 = 0;
    let mut i: usize = start;
    proof { assert(d.take(0) =~= Seq::<char>::empty()); }
    while i < s.len()
        invariant
            start <= i <= s@.len(),
            d == s@.skip(start as int),
            d == unsigned_digits(s@),
            forall|k: int| 0 <= k < i - start ==> is_digit(#[trigger] d[k]),
            value == decimal_value(d.take(i - start)),
            value <= u32::MAX,
        decreases s.len() - i,
    {
        let c = s[i];
        if !('0' <= c && c <= '9') {
            proof {
                assert(d[i - start] == s@[i as int]);
                assert(!is_digit(d[i - start]));
                assert(parse_u32_spec(s@).is_none());
            }
            return None;
        }
        let dv = (c as u32 - '0' as u32) as u64;
        proof {
            assert(d.take(i - start + 1).drop_last() =~= d.take(i - start));
            assert(d[i - start] == c);
        }
        let next = value * 10 + dv;
        if next > 4294967295u64 {
            proof {
                assert(d[i - start] == s@[i as int]);
                lemma_decimal_prefix_bound(d, i - start + 1);
                assert(parse_u32_spec(s@).is_none());
            }
            return None;
        }
        value = next;
        i = i + 1;
    }
    proof { assert(d.take(d.len() as int) =~= d); }
    Some(value as u32)
}

proof fn lemma_decimal_prefix_bound(d: Seq<char>, n: int)
    requires
        0 <= n <= d.len(),
        forall|k: int| 0 <= k < n ==> is_digit(#[trigger] d[k]),
        decimal_value(d.take(n)) > u32::MAX,
    ensures
        parse_u32_spec_digits_exceed(d),
    decreases d.len() - n,
{
    if n < d.len() {
        if is_digit(d[n]) {
            assert(d.take(n + 1).drop_last() =~= d.take(n));
            lemma_decimal_nonneg(d.take(n));
            lemma_decimal_prefix_bound(d, n + 1);
        } else {
            assert(!is_digit(d[n]));
        }
    } else {
        assert(d.take(n) =~= d);
    }
}

/// Either some character of `d` is not a digit or its value exceeds 32 bits.
pub open spec fn parse_u32_spec_digits_exceed(d: Seq<char>) -> bool {
    !all_digits(d) || decimal_value(d) > u32::MAX
}


/// The digit character of a value below 10.
pub open spec fn digit_char(n: nat) -> char {
    (('0' as u32) + n) as char
}

/// The decimal representation of `n`, without leading zeros.
pub open spec fn decimal_digits(n: nat) -> Seq<char>
    decreases n,
{
    if n < 10 {
        seq![digit_char(n)]
    } else {
        decimal_digits(n / 10).push(digit_char(n % 10))
    }
}

/// `s` padded on the left with `0` to at least `width` characters (`{:0width}`).
pub open spec fn zero_pad(s: Seq<char>, width: nat) -> Seq<char> {
    if s.len() >= width {
        s
    } else {
        Seq::new((width - s.len()) as nat, |i: int| '0') + s
    }
}

/// Appends the decimal digits of `n`.
pub fn push_decimal(out: &mut Vec<char>, n: u64)
    ensures
        final(out)@ == old(out)@ + decimal_digits(n as nat),
    decreases n,
{
    if n >= 10 {
        push_decimal(out, n / 10);
    }
    let d = (n % 10) as u8;
    let c = (48u8 + d) as char;
    proof { assert(c == digit_char((n % 10) as nat)); }
    out.push(c);
    proof {
        if n >= 10 {
            assert(old(out)@ + decimal_digits(n as nat) =~= (old(out)@ + decimal_digits((n / 10) as nat)).push(c));
        } else {
            assert(old(out)@ + decimal_digits(n as nat) =~= old(out)@.push(c));
        }
    }
}

/// The numeric suffix of an id with the given prefix, if it has one.
pub open spec fn suffix_value(id: Seq<char>, prefix: Seq<char>) -> Option<u32> {
    if starts_with(id, prefix) {
        parse_u32_spec(id.skip(prefix.len() as int))
    } else {
        None
    }
}

/// The largest numeric suffix among the ids with the prefix, 0 when none.
pub open spec fn max_suffix(ids: Seq<Seq<char>>, prefix: Seq<char>) -> nat
    decreases ids.len(),
{
    if ids.len() == 0 {
        0
    } else {
        let m = max_suffix(ids.drop_last(), prefix);
        match suffix_value(ids.last(), prefix) {
            Some(v) => if v > m { v as nat } else { m },
            None => m,
        }
    }
}

/// The next free id: the prefix and one more than the largest numeric suffix
/// in use with that prefix, zero-padded to six digits.
pub open spec fn next_id_spec(ids: Seq<Seq<char>>, prefix: Seq<char>) -> Seq<char> {
    prefix + zero_pad(decimal_digits(max_suffix(ids, prefix) + 1), 6)
}

proof fn lemma_max_suffix_bound(ids: Seq<Seq<char>>, prefix: Seq<char>)
    ensures
        max_suffix(ids, prefix) <= u32::MAX,
    decreases ids.len(),
{
    if ids.len() > 0 {
        lemma_max_suffix_bound(ids.drop_last(), prefix);
    }
}

/// The id for a new entity, given the ids in use: `prefix` followed by the
/// largest numeric suffix in use plus one, zero-padded to six digits.
pub fn next_id(existing_ids: &[String], prefix: &str) -> (r: String)
    requires
        max_suffix(string_views(existing_ids@), prefix@) < u32::MAX,
    ensures
        r@ == next_id_spec(string_views(existing_ids@), prefix@),
{
    let p = chars_of(prefix);
    let ghost ids = string_views(existing_ids@);
    let mut max: u32 = 0;
    let mut i: usize = 0;
    proof { assert(ids.take(0) =~= Seq::<Seq<char>>::empty()); }
    while i < existing_ids.len()
        invariant
            i <= existing_ids@.len(),
            ids == string_views(existing_ids@),
            p@ == prefix@,
            max == max_suffix(ids.take(i as int), prefix@),
        decreases existing_ids.len() - i,
    {
        let id = chars_of(existing_ids[i].as_str());
        proof {
            assert(ids.take(i + 1).drop_last() =~= ids.take(i as int));
            assert(ids.take(i + 1).last() == id@);
        }
        if starts_with_chars(&id, &p) {
            let mut rest: Vec<char> = Vec::new();
            let mut k: usize = p.len();
            while k < id.len()
                invariant
                    p@.len() <= k <= id@.len(),
                    rest@ =~= id@.subrange(p@.len() as int, k as int),
                decreases id.len() - k,
            {
                rest.push(id[k]);
                k = k + 1;
            }
            proof { assert(rest@ =~= id@.skip(p@.len() as int)); }
            match parse_u32(&rest) {
                Some(v) => {
                    if v > max {
                        max = v;
                    }
                },
                None => {},
            }
        }
        i = i + 1;
    }
    proof { assert(ids.take(existing_ids@.len() as int) =~= ids); }
    let mut digits: Vec<char> = Vec::new();
    push_decimal(&mut digits, (max as u64) + 1);
    proof { assert(Seq::<char>::empty() + decimal_digits((max + 1) as nat) =~= decimal_digits((max + 1) as nat)); }
    let mut out = p;
    let mut pad: usize = digits.len();
    let ghost before = out@;
    while pad < 6
        invariant
            digits@.len() <= pad <= 6 || (pad == digits@.len() && pad >= 6),
            out@ == before + Seq::new((pad - digits@.len()) as nat, |j: int| '0'),
        decreases 6 - pad,
    {
        out.push('0');
        proof { assert(before + Seq::new((pad + 1 - digits@.len()) as nat, |j: int| '0') =~= (before + Seq::new((pad - digits@.len()) as nat, |j: int| '0')).push('0')); }
        pad = pad + 1;
    }
    extend_chars(&mut out, &digits);
    proof {
        let dd = decimal_digits((max + 1) as nat);
        if dd.len() >= 6 {
            assert(Seq::new(0, |j: int| '0') =~= Seq::<char>::empty());
            assert(out@ =~= prefix@ + zero_pad(dd, 6));
        } else {
            assert(out@ =~= prefix@ + zero_pad(dd, 6));
        }
    }
    string_of(&out)
}


proof fn lemma_decimal_digits_value(n: nat)
    ensures
        decimal_value(decimal_digits(n)) == n,
        all_digits(decimal_digits(n)),
        decimal_digits(n).len() > 0,
    decreases n,
{
    if n >= 10 {
        lemma_decimal_digits_value(n / 10);
        let d = decimal_digits(n / 10).push(digit_char(n % 10));
        assert(d.drop_last() =~= decimal_digits(n / 10));
        assert(d.last() == digit_char(n % 10));
        assert(digit_value(digit_char(n % 10)) == n % 10);
        assert(decimal_value(d) == decimal_value(decimal_digits(n / 10)) * 10 + digit_value(d.last()));
        assert(n == (n / 10) * 10 + n % 10) by (nonlinear_arith);
        assert(decimal_digits(n) == d);
    } else {
        let d = decimal_digits(n);
        assert(d == seq![digit_char(n)]);
        assert(d.drop_last() =~= Seq::<char>::empty());
        assert(digit_value(digit_char(n)) == n);
        assert(decimal_value(d) == decimal_value(d.drop_last()) * 10 + digit_value(d.last()));
        assert forall|i: int| 0 <= i < d.len() implies is_digit(#[trigger] d[i]) by {
            if i < d.len() - 1 {
                assert(d[i] == decimal_digits(n / 10)[i]);
            }
        }
    }
}

proof fn lemma_zeros_value(k: nat)
    ensures
        decimal_value(Seq::new(k, |j: int| '0')) == 0,
        all_digits(Seq::new(k, |j: int| '0')),
    decreases k,
{
    if k > 0 {
        lemma_zeros_value((k - 1) as nat);
        assert(Seq::new(k, |j: int| '0').drop_last() =~= Seq::new((k - 1) as nat, |j: int| '0'));
    }
}

proof fn lemma_leading_zeros_value(k: nat, d: Seq<char>)
    ensures
        decimal_value(Seq::new(k, |j: int| '0') + d) == decimal_value(d),
    decreases d.len(),
{
    let z = Seq::new(k, |j: int| '0');
    if d.len() == 0 {
        assert(z + d =~= z);
        lemma_zeros_value(k);
    } else {
        lemma_leading_zeros_value(k, d.drop_last());
        assert((z + d).drop_last() =~= z + d.drop_last());
        assert((z + d).last() == d.last());
    }
}

proof fn lemma_parse_padded(n: nat, width: nat)
    requires
        n <= u32::MAX,
    ensures
        parse_u32_spec(zero_pad(decimal_digits(n), width)) == Some(n as u32),
{
    let d = decimal_digits(n);
    lemma_decimal_digits_value(n);
    let z = zero_pad(d, width);
    if d.len() >= width {
        assert(z == d);
    } else {
        let k = (width - d.len()) as nat;
        lemma_leading_zeros_value(k, d);
        lemma_zeros_value(k);
        assert forall|i: int| 0 <= i < z.len() implies is_digit(#[trigger] z[i]) by {
            if i >= k {
                assert(z[i] == d[i - k]);
            }
        }
    }
    assert(z.len() > 0);
    assert(is_digit(z[0]));
    assert(unsigned_digits(z) == z);
}

proof fn lemma_max_suffix_ge(ids: Seq<Seq<char>>, prefix: Seq<char>, i: int)
    requires
        0 <= i < ids.len(),
        suffix_value(ids[i], prefix) is Some,
    ensures
        suffix_value(ids[i], prefix).unwrap() <= max_suffix(ids, prefix),
    decreases ids.len(),
{
    if i < ids.len() - 1 {
        assert(ids.drop_last()[i] == ids[i]);
        lemma_max_suffix_ge(ids.drop_last(), prefix, i);
    }
}

/// A new entity's id is never one already in use: its numeric suffix is one
/// more than the largest suffix in use with its prefix.
pub proof fn law_next_id_is_fresh(ids: Seq<Seq<char>>, prefix: Seq<char>)
    requires
        max_suffix(ids, prefix) < u32::MAX,
    ensures
        !ids.contains(next_id_spec(ids, prefix)),
{
    let m = max_suffix(ids, prefix);
    let id = next_id_spec(ids, prefix);
    let z = zero_pad(decimal_digits(m + 1), 6);
    lemma_parse_padded(m + 1, 6);
    assert(id.take(prefix.len() as int) =~= prefix);
    assert(id.skip(prefix.len() as int) =~= z);
    assert(suffix_value(id, prefix) == Some((m + 1) as u32));
    if ids.contains(id) {
        let i = choose|i: int| 0 <= i < ids.len() && ids[i] == id;
        lemma_max_suffix_ge(ids, prefix, i);
    }
}

// ---------------------------------------------------------------- body hash

/// The `DefaultHasher` hash of a string (a name for what
/// `std::collections::hash_map::DefaultHasher` computes after `str::hash`).
pub uninterp spec fn default_hash_spec(s: Seq<char>) -> u64;

/// `DefaultHasher::new`, `Hash::hash` and `Hasher::finish` on a string. The
/// hasher is created with fixed keys, so the contract claims that the hash
/// depends on the text alone (for one build of the program; the standard
/// library does not promise the algorithm across releases).
#[verifier::external_body]
fn default_hash(s: &str) -> (r: u64)
    ensures
        r == default_hash_spec(s@),
{
    let mut h = std::collections::hash_map::DefaultHasher::new();
    std::hash::Hash::hash(s, &mut h);
    std::hash::Hasher::finish(&h)
}

/// The last `width` hex digits of `n`, most significant first (`{:0width$x}`
/// for values below `16^width`).
pub open spec fn hex_fixed(n: nat, width: nat) -> Seq<char>
    decreases width,
{
    if width == 0 {
        Seq::<char>::empty()
    } else {
        hex_fixed(n / 16, (width - 1) as nat).push(crate::contracts::hex_digit((n % 16) as u8))
    }
}

fn push_hex_fixed(out: &mut Vec<char>, n: u64, width: u32)
    ensures
        final(out)@ == old(out)@ + hex_fixed(n as nat, width as nat),
    decreases width,
{
    if width == 0 {
        proof { assert(old(out)@ + Seq::<char>::empty() =~= old(out)@); }
        return;
    }
    push_hex_fixed(out, n / 16, width - 1);
    let d = (n % 16) as u8;
    let c = if d < 10 { (48u8 + d) as char } else { (97u8 + d - 10) as char };
    proof { assert(c == crate::contracts::hex_digit(d)); }
    out.push(c);
    proof {
        assert(old(out)@ + hex_fixed(n as nat, width as nat) =~= (old(out)@ + hex_fixed((n / 16) as nat, (width - 1) as nat)).push(c));
    }
}

/// The change-detection fingerprint of a body: its `DefaultHasher` hash as
/// 16 lowercase hex digits.
pub open spec fn content_hash_spec(s: Seq<char>) -> Seq<char> {
    hex_fixed(default_hash_spec(s) as nat, 16)
}

/// A non-cryptographic fingerprint of a body, for change detection.
pub fn content_hash(value: &str) -> (r: String)
    ensures
        r@ == content_hash_spec(value@),
{
    let h = default_hash(value);
    let mut out: Vec<char> = Vec::new();
    push_hex_fixed(&mut out, h, 16);
    proof { assert(Seq::<char>::empty() + hex_fixed(h as nat, 16) =~= hex_fixed(h as nat, 16)); }
    string_of(&out)
}

} // verus!
