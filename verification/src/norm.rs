//! Message normalization: every variable part — a canonical UUID, a
//! dotted-quad IPv4 address, or a decimal number — is replaced by the
//! placeholder token `<VAR>`, leftmost first and non-overlapping, and the
//! remaining whitespace is collapsed. The result is the clustering key:
//! messages differing only in variable parts normalize alike.

use vstd::prelude::*;
use crate::scan::boundary_before;
use crate::scan::digit_run_from;
use crate::scan::digit_run;
use crate::scan::lemma_digit_run_chars;
use crate::scan::lemma_digit_run_le;
use crate::text::collapse_chars;
use crate::text::collapse_ws;
use crate::text::is_digit_char;
use crate::text::is_hex_char;
use crate::text::is_word_char;
use crate::text::hex_char;
use crate::text::word_char;

verus! {

/// The placeholder written in place of each variable part.
pub open spec fn var_token() -> Seq<char> {
    seq!['<', 'V', 'A', 'R', '>']
}

// ---------------------------------------------------------------------------
// The three variable-part shapes
// ---------------------------------------------------------------------------

/// `n` lowercase hexadecimal digits stand at positions `[i, i + n)`.
pub open spec fn hexes_at(s: Seq<char>, i: int, n: int) -> bool {
    &&& 0 <= i
    &&& 0 <= n
    &&& i + n <= s.len()
    &&& forall|k: int| i <= k < i + n ==> is_hex_char(#[trigger] s[k])
}

/// A canonical lowercase UUID stands at `i`: hexadecimal groups of
/// 8-4-4-4-12 digits separated by hyphens, 36 characters in all.
pub open spec fn uuid_at(s: Seq<char>, i: int) -> bool {
    &&& 0 <= i
    &&& i + 36 <= s.len()
    &&& hexes_at(s, i, 8)
    &&& s[i + 8] == '-'
    &&& hexes_at(s, i + 9, 4)
    &&& s[i + 13] == '-'
    &&& hexes_at(s, i + 14, 4)
    &&& s[i + 18] == '-'
    &&& hexes_at(s, i + 19, 4)
    &&& s[i + 23] == '-'
    &&& hexes_at(s, i + 24, 12)
}

/// The character at `j` is `c`.
pub open spec fn char_at_is(s: Seq<char>, j: int, c: char) -> bool {
    0 <= j < s.len() && s[j] == c
}

/// Length of the dotted-quad IPv4 address at `i`, if one stands there:
/// four runs of one to three digits separated by dots, with a word
/// boundary after (the boundary before is the caller's to check).
pub open spec fn ipv4_len_at(s: Seq<char>, i: int) -> Option<int> {
    let r1 = digit_run_from(s, i) as int;
    let p2 = i + r1 + 1;
    let r2 = digit_run_from(s, p2) as int;
    let p3 = p2 + r2 + 1;
    let r3 = digit_run_from(s, p3) as int;
    let p4 = p3 + r3 + 1;
    let r4 = digit_run_from(s, p4) as int;
    if 1 <= r1 <= 3 && char_at_is(s, i + r1, '.') && 1 <= r2 <= 3 && char_at_is(s, p2 + r2, '.')
        && 1 <= r3 <= 3 && char_at_is(s, p3 + r3, '.') && 1 <= r4 <= 3 && (p4 + r4 == s.len()
        || !is_word_char(s[p4 + r4])) {
        Some(p4 + r4 - i)
    } else {
        None
    }
}

/// Length of the decimal number at `i`: a maximal digit run, optionally
/// followed by a dot and another (possibly empty) maximal digit run;
/// zero when no digit stands at `i`.
pub open spec fn num_len_at(s: Seq<char>, i: int) -> int {
    let r = digit_run_from(s, i) as int;
    if r == 0 {
        0
    } else if char_at_is(s, i + r, '.') {
        r + 1 + digit_run_from(s, i + r + 1)
    } else {
        r
    }
}

/// The variable-part match at `i` and its length, trying the shapes in
/// priority order: UUID, then IPv4 (which asks for a word boundary
/// before), then decimal number.
pub open spec fn var_match_at(s: Seq<char>, i: int) -> Option<int> {
    if uuid_at(s, i) {
        Some(36)
    } else if boundary_before(s, i) && ipv4_len_at(s, i) is Some {
        ipv4_len_at(s, i)
    } else if num_len_at(s, i) >= 1 {
        Some(num_len_at(s, i))
    } else {
        None
    }
}

/// A variable-part match is nonempty and lies within the string.
pub proof fn lemma_var_match_len(s: Seq<char>, i: int)
    requires
        0 <= i < s.len(),
        var_match_at(s, i) is Some,
    ensures
        1 <= var_match_at(s, i)->0,
        i + var_match_at(s, i)->0 <= s.len(),
{
    if uuid_at(s, i) {
    } else if boundary_before(s, i) && ipv4_len_at(s, i) is Some {
        let r1 = digit_run_from(s, i) as int;
        let p2 = i + r1 + 1;
        let r2 = digit_run_from(s, p2) as int;
        let p3 = p2 + r2 + 1;
        let r3 = digit_run_from(s, p3) as int;
        let p4 = p3 + r3 + 1;
        let r4 = digit_run_from(s, p4) as int;
        assert(char_at_is(s, p3 + r3, '.'));
        lemma_digit_run_le(s, p4);
    } else {
        let r = digit_run_from(s, i) as int;
        lemma_digit_run_le(s, i);
        if char_at_is(s, i + r, '.') {
            lemma_digit_run_le(s, i + r + 1);
        }
    }
}

// ---------------------------------------------------------------------------
// Substitution and normalization
// ---------------------------------------------------------------------------

/// The suffix of `s` from `i` on with every variable-part match replaced
/// by the placeholder token, scanning left to right without overlap.
pub open spec fn subst_from(s: Seq<char>, i: int) -> Seq<char>
    decreases s.len() - i,
    when 0 <= i
    via subst_from_decreases
{
    if i >= s.len() {
        Seq::empty()
    } else {
        match var_match_at(s, i) {
            Some(l) => var_token() + subst_from(s, i + l),
            None => seq![s[i]] + subst_from(s, i + 1),
        }
    }
}

#[via_fn]
proof fn subst_from_decreases(s: Seq<char>, i: int) {
    if 0 <= i < s.len() && var_match_at(s, i) is Some {
        lemma_var_match_len(s, i);
    }
}

/// The normalized form of a message: variable parts replaced by the
/// placeholder, then whitespace collapsed.
pub open spec fn normalize_spec(s: Seq<char>) -> Seq<char> {
    collapse_ws(subst_from(s, 0))
}

fn hexes_check(v: &Vec<char>, i: usize, n: usize) -> (b: bool)
    ensures
        b == hexes_at(v@, i as int, n as int),
{
    let len = v.len();
    if i > len || n > len - i {
        return false;
    }
    let mut k: usize = 0;
    while k < n
        invariant
            i + n <= len,
            len == v@.len(),
            k <= n,
            forall|m: int| i <= m < i + k ==> is_hex_char(#[trigger] v@[m]),
        decreases n - k,
    {
        if !hex_char(v[i + k]) {
            return false;
        }
        k = k + 1;
    }
    true
}

fn uuid_check(v: &Vec<char>, i: usize) -> (b: bool)
    ensures
        b == uuid_at(v@, i as int),
{
    let len = v.len();
    if i > len || len - i < 36 {
        return false;
    }
    hexes_check(v, i, 8) && v[i + 8] == '-' && hexes_check(v, i + 9, 4) && v[i + 13] == '-'
        && hexes_check(v, i + 14, 4) && v[i + 18] == '-' && hexes_check(v, i + 19, 4) && v[i + 23]
        == '-' && hexes_check(v, i + 24, 12)
}

fn ipv4_check(v: &Vec<char>, i: usize) -> (r: Option<usize>)
    requires
        i <= v@.len(),
    ensures
        match r {
            Some(l) => ipv4_len_at(v@, i as int) == Some(l as int) && i + l <= v@.len(),
            None => ipv4_len_at(v@, i as int) is None,
        },
{
    let n = v.len();
    let r1 = digit_run(v, i);
    if !(1 <= r1 && r1 <= 3) || i + r1 >= n || v[i + r1] != '.' {
        return None;
    }
    let p2 = i + r1 + 1;
    let r2 = digit_run(v, p2);
    if !(1 <= r2 && r2 <= 3) || p2 + r2 >= n || v[p2 + r2] != '.' {
        return None;
    }
    let p3 = p2 + r2 + 1;
    let r3 = digit_run(v, p3);
    if !(1 <= r3 && r3 <= 3) || p3 + r3 >= n || v[p3 + r3] != '.' {
        return None;
    }
    let p4 = p3 + r3 + 1;
    let r4 = digit_run(v, p4);
    if !(1 <= r4 && r4 <= 3) || !(p4 + r4 == n || !word_char(v[p4 + r4])) {
        return None;
    }
    Some(p4 + r4 - i)
}

fn num_check(v: &Vec<char>, i: usize) -> (l: usize)
    requires
        i <= v@.len(),
    ensures
        l == num_len_at(v@, i as int),
        i + l <= v@.len(),
{
    let n = v.len();
    let r = digit_run(v, i);
    if r == 0 {
        0
    } else if i + r < n && v[i + r] == '.' {
        let r2 = digit_run(v, i + r + 1);
        r + 1 + r2
    } else {
        r
    }
}

fn var_match(v: &Vec<char>, i: usize) -> (r: Option<usize>)
    requires
        i < v@.len(),
    ensures
        match r {
            Some(l) => var_match_at(v@, i as int) == Some(l as int) && 1 <= l && i + l <= v@.len(),
            None => var_match_at(v@, i as int) is None,
        },
{
    if uuid_check(v, i) {
        return Some(36);
    }
    let bound = i == 0 || !word_char(v[i - 1]);
    if bound {
        if let Some(l) = ipv4_check(v, i) {
            proof {
                lemma_var_match_len(v@, i as int);
            }
            return Some(l);
        }
    } else {
        proof {
            assert(!boundary_before(v@, i as int));
        }
    }
    let l = num_check(v, i);
    if l >= 1 {
        Some(l)
    } else {
        None
    }
}

/// `v` with every variable-part match replaced by the placeholder token.
pub fn subst_vars(v: &Vec<char>) -> (out: Vec<char>)
    ensures
        out@ == subst_from(v@, 0),
{
    let n = v.len();
    let mut out: Vec<char> = Vec::new();
    let mut i: usize = 0;
    while i < n
        invariant
            i <= n,
            n == v@.len(),
            subst_from(v@, 0) == out@ + subst_from(v@, i as int),
        decreases n - i,
    {
        let ghost out0 = out@;
        match var_match(v, i) {
            Some(l) => {
                out.push('<');
                out.push('V');
                out.push('A');
                out.push('R');
                out.push('>');
                proof {
                    assert(out@ =~= out0 + var_token());
                    assert(subst_from(v@, i as int) == var_token() + subst_from(v@, i + l));
                    assert(subst_from(v@, 0) =~= out@ + subst_from(v@, i + l));
                }
                i = i + l;
            },
            None => {
                out.push(v[i]);
                proof {
                    assert(out@ =~= out0 + seq![v@[i as int]]);
                    assert(subst_from(v@, i as int) == seq![v@[i as int]] + subst_from(
                        v@,
                        i + 1,
                    ));
                    assert(subst_from(v@, 0) =~= out@ + subst_from(v@, i + 1));
                }
                i = i + 1;
            },
        }
    }
    proof {
        assert(subst_from(v@, n as int) =~= Seq::<char>::empty());
        assert(out@ + subst_from(v@, n as int) =~= out@);
    }
    out
}

/// The normalized form of `v`: variable parts replaced, whitespace
/// collapsed.
pub fn normalize_chars(v: &Vec<char>) -> (out: Vec<char>)
    ensures
        out@ == normalize_spec(v@),
{
    let substituted = subst_vars(v);
    collapse_chars(&substituted)
}

// ---------------------------------------------------------------------------
// Idempotence of normalization
// ---------------------------------------------------------------------------

/// A match starts on a lowercase hexadecimal character; anything but a
/// UUID starts on a digit.
proof fn lemma_match_start(s: Seq<char>, i: int)
    requires
        var_match_at(s, i) is Some,
    ensures
        0 <= i < s.len(),
        is_hex_char(s[i]),
        !uuid_at(s, i) ==> is_digit_char(s[i]),
{
    if uuid_at(s, i) {
        assert(is_hex_char(s[i]));
    } else if boundary_before(s, i) && ipv4_len_at(s, i) is Some {
        assert(digit_run_from(s, i) >= 1);
    } else {
        assert(num_len_at(s, i) >= 1);
        assert(digit_run_from(s, i) >= 1);
    }
}

/// Every character of a UUID window is a hexadecimal digit or a hyphen.
proof fn lemma_uuid_chars(s: Seq<char>, a: int, d: int)
    requires
        uuid_at(s, a),
        0 <= d < 36,
    ensures
        is_hex_char(s[a + d]) || s[a + d] == '-',
{
}

/// A UUID shape carries over along a pointwise-equal window.
proof fn lemma_uuid_transfer(x: Seq<char>, a: int, y: Seq<char>, b: int)
    requires
        uuid_at(x, a),
        0 <= b,
        b + 36 <= y.len(),
        forall|d: int| 0 <= d < 36 ==> #[trigger] y[b + d] == x[a + d],
    ensures
        uuid_at(y, b),
{
    assert forall|k: int| b <= k < b + 8 implies is_hex_char(#[trigger] y[k]) by {
        assert(y[b + (k - b)] == x[a + (k - b)]);
    }
    assert forall|k: int| b + 9 <= k < b + 13 implies is_hex_char(#[trigger] y[k]) by {
        assert(y[b + (k - b)] == x[a + (k - b)]);
    }
    assert forall|k: int| b + 14 <= k < b + 18 implies is_hex_char(#[trigger] y[k]) by {
        assert(y[b + (k - b)] == x[a + (k - b)]);
    }
    assert forall|k: int| b + 19 <= k < b + 23 implies is_hex_char(#[trigger] y[k]) by {
        assert(y[b + (k - b)] == x[a + (k - b)]);
    }
    assert forall|k: int| b + 24 <= k < b + 36 implies is_hex_char(#[trigger] y[k]) by {
        assert(y[b + (k - b)] == x[a + (k - b)]);
    }
    assert(y[b + 8] == x[a + 8]);
    assert(y[b + 13] == x[a + 13]);
    assert(y[b + 18] == x[a + 18]);
    assert(y[b + 23] == x[a + 23]);
}

/// Digit runs depend only on the text from the position on.
proof fn lemma_digit_run_concat(u: Seq<char>, w: Seq<char>, d: int)
    requires
        d >= 0,
    ensures
        digit_run_from(u + w, u.len() + d) == digit_run_from(w, d),
    decreases w.len() - d,
{
    let c = u + w;
    if d < w.len() {
        assert(c[u.len() + d] == w[d]);
        if is_digit_char(w[d]) {
            lemma_digit_run_concat(u, w, d + 1);
        }
    }
}

/// The IPv4 shape depends only on the text from the position on.
proof fn lemma_ipv4_concat(u: Seq<char>, w: Seq<char>, d: int)
    requires
        d >= 0,
    ensures
        ipv4_len_at(u + w, u.len() + d) == ipv4_len_at(w, d),
{
    let c = u + w;
    let n = u.len() as int;
    lemma_digit_run_concat(u, w, d);
    let r1 = digit_run_from(w, d) as int;
    lemma_digit_run_concat(u, w, d + r1 + 1);
    let r2 = digit_run_from(w, d + r1 + 1) as int;
    let p3 = d + r1 + 1 + r2 + 1;
    lemma_digit_run_concat(u, w, p3);
    let r3 = digit_run_from(w, p3) as int;
    let p4 = p3 + r3 + 1;
    lemma_digit_run_concat(u, w, p4);
    let r4 = digit_run_from(w, p4) as int;
    lemma_char_at_concat(u, w, d + r1, '.');
    lemma_char_at_concat(u, w, d + r1 + 1 + r2, '.');
    lemma_char_at_concat(u, w, p3 + r3, '.');
    if char_at_is(w, p3 + r3, '.') {
        lemma_digit_run_le(w, p4);
        if p4 + r4 < w.len() {
            assert(c[n + (p4 + r4)] == w[p4 + r4]);
        }
    }
}

/// One character of a concatenation's tail.
proof fn lemma_char_at_concat(u: Seq<char>, w: Seq<char>, x: int, ch: char)
    requires
        x >= 0,
    ensures
        char_at_is(u + w, u.len() + x, ch) == char_at_is(w, x, ch),
{
    if x < w.len() {
        assert((u + w)[u.len() + x] == w[x]);
    }
}

/// The number shape depends only on the text from the position on.
proof fn lemma_num_concat(u: Seq<char>, w: Seq<char>, d: int)
    requires
        d >= 0,
    ensures
        num_len_at(u + w, u.len() + d) == num_len_at(w, d),
{
    let c = u + w;
    let n = u.len() as int;
    lemma_digit_run_concat(u, w, d);
    let r = digit_run_from(w, d) as int;
    lemma_digit_run_concat(u, w, d + r + 1);
    lemma_char_at_concat(u, w, d + r, '.');
}

/// A match inside the tail of a concatenation is a match of the tail.
#[verifier::rlimit(30)]
proof fn lemma_match_shift(u: Seq<char>, w: Seq<char>, j: int)
    requires
        j >= u.len(),
        var_match_at(u + w, j) is Some,
    ensures
        var_match_at(w, j - u.len()) is Some,
{
    let c = u + w;
    let n = u.len() as int;
    let d = j - n;
    assert forall|x: int| 0 <= x < w.len() implies c[n + x] == w[x] by {}
    if uuid_at(c, j) {
        lemma_match_start(c, j);
        assert forall|t: int| 0 <= t < 36 implies #[trigger] w[d + t] == c[j + t] by {}
        lemma_uuid_transfer(c, j, w, d);
    } else if boundary_before(c, j) && ipv4_len_at(c, j) is Some {
        lemma_ipv4_concat(u, w, d);
        if d > 0 {
            assert(c[j - 1] == w[d - 1]);
        }
        assert(boundary_before(w, d));
        assert(var_match_at(w, d) is Some);
    } else {
        assert(num_len_at(c, j) >= 1);
        lemma_num_concat(u, w, d);
        assert(num_len_at(w, d) >= 1);
        assert(var_match_at(w, d) is Some);
    }
}

/// As long as the substituted text shows no placeholder, it copies the
/// source, and the source had no match there.
proof fn lemma_subst_literal_prefix(s: Seq<char>, k: int, m: int)
    requires
        0 <= k,
        0 <= m,
        m <= subst_from(s, k).len(),
        forall|d: int| 0 <= d < m ==> #[trigger] subst_from(s, k)[d] != '<',
    ensures
        m > 0 ==> k + m <= s.len(),
        forall|d: int| 0 <= d < m ==> #[trigger] subst_from(s, k)[d] == s[k + d],
        forall|d: int| 0 <= d < m ==> #[trigger] var_match_at(s, k + d) is None,
    decreases m,
{
    if m > 0 {
        assert(k < s.len());
        let out = subst_from(s, k);
        match var_match_at(s, k) {
            Some(l) => {
                assert(out[0] == var_token()[0]);
                assert(out[0] == '<');
                assert(false);
            },
            None => {
                let rest = subst_from(s, k + 1);
                assert(out == seq![s[k]] + rest);
                assert forall|d: int| 0 <= d < m - 1 implies #[trigger] rest[d] != '<' by {
                    assert(out[d + 1] == rest[d]);
                }
                lemma_subst_literal_prefix(s, k + 1, m - 1);
                assert forall|d: int| 0 <= d < m implies #[trigger] out[d] == s[k + d] by {
                    if d == 0 {
                    } else {
                        assert(out[d] == rest[d - 1]);
                        assert(rest[d - 1] == s[(k + 1) + (d - 1)]);
                    }
                }
                assert forall|d: int| 0 <= d < m implies #[trigger] var_match_at(s, k + d) is None by {
                    if d > 0 {
                        assert(var_match_at(s, (k + 1) + (d - 1)) is None);
                    }
                }
            },
        }
    }
}

/// After substitution no variable part remains anywhere.
pub proof fn lemma_no_match_in_subst(s: Seq<char>, i: int)
    requires
        0 <= i,
    ensures
        forall|j: int| var_match_at(#[trigger] subst_from(s, i), j) is None,
    decreases s.len() - i,
{
    let out = subst_from(s, i);
    if i >= s.len() {
        assert forall|j: int| var_match_at(out, j) is None by {
            if var_match_at(out, j) is Some {
                lemma_match_start(out, j);
            }
        }
    } else {
        match var_match_at(s, i) {
            Some(l) => {
                lemma_var_match_len(s, i);
                lemma_no_match_in_subst(s, i + l);
                let rest = subst_from(s, i + l);
                assert(out == var_token() + rest);
                assert forall|j: int| var_match_at(out, j) is None by {
                    if var_match_at(out, j) is Some {
                        lemma_match_start(out, j);
                        if j < 5 {
                            assert(out[j] == var_token()[j]);
                            assert(!is_hex_char(out[j]));
                            assert(false);
                        } else {
                            lemma_match_shift(var_token(), rest, j);
                            assert(false);
                        }
                    }
                }
            },
            None => {
                lemma_no_match_in_subst(s, i + 1);
                let rest = subst_from(s, i + 1);
                assert(out == seq![s[i]] + rest);
                assert forall|j: int| var_match_at(out, j) is None by {
                    if var_match_at(out, j) is Some {
                        lemma_match_start(out, j);
                        if j == 0 {
                            assert(out[0] == s[i]);
                            if uuid_at(out, 0) {
                                // the window shows no placeholder, so it is
                                // copied text: the source held the UUID
                                assert(out.len() >= 36);
                                assert forall|d: int| 0 <= d < 35 implies #[trigger] rest[d]
                                    != '<' by {
                                    lemma_uuid_chars(out, 0, d + 1);
                                    assert(out[d + 1] == rest[d]);
                                    assert(!is_hex_char('<'));
                                }
                                lemma_subst_literal_prefix(s, i + 1, 35);
                                assert forall|d: int| 0 <= d < 36 implies #[trigger] s[i + d]
                                    == out[d] by {
                                    if d > 0 {
                                        assert(out[d] == rest[d - 1]);
                                        assert(rest[d - 1] == subst_from(s, i + 1)[d - 1]);
                                        assert(subst_from(s, i + 1)[d - 1] == s[(i + 1) + (d
                                            - 1)]);
                                    }
                                }
                                lemma_uuid_transfer(out, 0, s, i);
                                assert(var_match_at(s, i) is Some);
                                assert(false);
                            } else {
                                assert(is_digit_char(s[i]));
                                assert(digit_run_from(s, i) >= 1);
                                assert(num_len_at(s, i) >= 1);
                                assert(var_match_at(s, i) is Some);
                                assert(false);
                            }
                        } else {
                            lemma_match_shift(seq![s[i]], rest, j);
                            assert(false);
                        }
                    }
                }
            },
        }
    }
}

/// Substitution changes nothing when no variable part occurs.
pub proof fn lemma_subst_id(z: Seq<char>, i: int)
    requires
        0 <= i <= z.len(),
        forall|j: int| var_match_at(z, j) is None,
    ensures
        subst_from(z, i) == z.skip(i),
    decreases z.len() - i,
{
    if i < z.len() {
        lemma_subst_id(z, i + 1);
        assert(subst_from(z, i) =~= z.skip(i));
    } else {
        assert(subst_from(z, i) =~= z.skip(i));
    }
}

/// Collapsing whitespace brings no variable part back.
proof fn lemma_no_match_in_collapse(y: Seq<char>)
    requires
        forall|p: int| var_match_at(y, p) is None,
    ensures
        forall|j: int| var_match_at(collapse_ws(y), j) is None,
{
    let z = collapse_ws(y);
    let ts = crate::text::tokens_from(y, 0);
    crate::text::lemma_tokens_wf(y, 0);
    crate::text::lemma_tokens_subranges(y, 0);
    assert forall|j: int| var_match_at(z, j) is None by {
        if var_match_at(z, j) is Some {
            lemma_match_start(z, j);
            if uuid_at(z, j) {
                assert forall|d: int| 0 <= d < 36 implies #[trigger] z[j + d] != ' ' by {
                    lemma_uuid_chars(z, j, d);
                    assert(!is_hex_char(' '));
                }
                crate::text::lemma_join_window(ts, j, 36);
                let (t, off) = choose|t: int, off: int|
                    0 <= t < ts.len() && 0 <= off && off + 36 <= ts[t].len() && z.subrange(
                        j,
                        j + 36,
                    ) == #[trigger] ts[t].subrange(off, off + 36);
                crate::text::lemma_subrange_of_subrange(ts[t], y, off, 36);
                let w36 = z.subrange(j, j + 36);
                assert(crate::text::is_subrange_of(w36, y));
                let p = choose|a: int|
                    0 <= a && a + w36.len() <= y.len() && w36 == #[trigger] y.subrange(
                        a,
                        a + w36.len(),
                    );
                assert forall|d: int| 0 <= d < 36 implies #[trigger] y[p + d] == z[j + d] by {
                    assert(w36[d] == y.subrange(p, p + 36)[d]);
                    assert(w36[d] == z[j + d]);
                }
                lemma_uuid_transfer(z, j, y, p);
                assert(var_match_at(y, p) is Some);
                assert(false);
            } else {
                assert(is_digit_char(z[j]));
                assert(z[j] != ' ');
                assert forall|d: int| 0 <= d < 1 implies #[trigger] z[j + d] != ' ' by {}
                crate::text::lemma_join_window(ts, j, 1);
                let (t, off) = choose|t: int, off: int|
                    0 <= t < ts.len() && 0 <= off && off + 1 <= ts[t].len() && z.subrange(
                        j,
                        j + 1,
                    ) == #[trigger] ts[t].subrange(off, off + 1);
                crate::text::lemma_subrange_of_subrange(ts[t], y, off, 1);
                let w1 = z.subrange(j, j + 1);
                assert(crate::text::is_subrange_of(w1, y));
                let p = choose|a: int|
                    0 <= a && a + w1.len() <= y.len() && w1 == #[trigger] y.subrange(
                        a,
                        a + w1.len(),
                    );
                assert(y[p] == y.subrange(p, p + 1)[0]);
                assert(y[p] == z[j]);
                assert(digit_run_from(y, p) >= 1);
                assert(num_len_at(y, p) >= 1);
                assert(var_match_at(y, p) is Some);
                assert(false);
            }
        }
    }
}

// ---------------------------------------------------------------------------
// One variable part never tells two messages apart
// ---------------------------------------------------------------------------

/// All the variable-part shapes at a position depend only on the text
/// from that position on.
proof fn lemma_shapes_local(s1: Seq<char>, i1: int, s2: Seq<char>, i2: int)
    requires
        0 <= i1 <= s1.len(),
        0 <= i2 <= s2.len(),
        s1.skip(i1) == s2.skip(i2),
    ensures
        uuid_at(s1, i1) == uuid_at(s2, i2),
        ipv4_len_at(s1, i1) == ipv4_len_at(s2, i2),
        num_len_at(s1, i1) == num_len_at(s2, i2),
        digit_run_from(s1, i1) == digit_run_from(s2, i2),
{
    let w = s1.skip(i1);
    assert(s1 =~= s1.take(i1) + w);
    assert(s2 =~= s2.take(i2) + w);
    assert(s1.take(i1).len() == i1);
    assert(s2.take(i2).len() == i2);
    lemma_ipv4_concat(s1.take(i1), w, 0);
    lemma_ipv4_concat(s2.take(i2), w, 0);
    lemma_num_concat(s1.take(i1), w, 0);
    lemma_num_concat(s2.take(i2), w, 0);
    lemma_digit_run_concat(s1.take(i1), w, 0);
    lemma_digit_run_concat(s2.take(i2), w, 0);
    assert forall|d: int| 0 <= d < w.len() implies #[trigger] w[d] == s1[i1 + d] && w[d] == s2[i2
        + d] by {}
    if uuid_at(s1, i1) {
        assert forall|d: int| 0 <= d < 36 implies #[trigger] s2[i2 + d] == s1[i1 + d] by {
            assert(w[d] == s1[i1 + d]);
        }
        lemma_uuid_transfer(s1, i1, s2, i2);
    }
    if uuid_at(s2, i2) {
        assert forall|d: int| 0 <= d < 36 implies #[trigger] s1[i1 + d] == s2[i2 + d] by {
            assert(w[d] == s2[i2 + d]);
        }
        lemma_uuid_transfer(s2, i2, s1, i1);
    }
}

/// A match at a position depends only on the text from the position on
/// and on the word boundary before it.
proof fn lemma_match_local(s1: Seq<char>, i1: int, s2: Seq<char>, i2: int)
    requires
        0 <= i1 <= s1.len(),
        0 <= i2 <= s2.len(),
        s1.skip(i1) == s2.skip(i2),
        boundary_before(s1, i1) == boundary_before(s2, i2),
    ensures
        var_match_at(s1, i1) == var_match_at(s2, i2),
{
    lemma_shapes_local(s1, i1, s2, i2);
}

/// Over a stretch without matches, substitution copies the text.
proof fn lemma_subst_copy_to(s: Seq<char>, i: int, k: int)
    requires
        0 <= i <= k <= s.len(),
        forall|j: int| i <= j < k ==> var_match_at(s, j) is None,
    ensures
        subst_from(s, i) == s.subrange(i, k) + subst_from(s, k),
    decreases k - i,
{
    if i < k {
        lemma_subst_copy_to(s, i + 1, k);
        assert(subst_from(s, i) =~= s.subrange(i, k) + subst_from(s, k));
    } else {
        assert(subst_from(s, i) =~= s.subrange(i, k) + subst_from(s, k));
    }
}

/// Substitution of equal tails runs alike, once the matches at the two
/// starting positions agree.
proof fn lemma_subst_tail(s1: Seq<char>, b1: int, s2: Seq<char>, b2: int)
    requires
        0 <= b1 <= s1.len(),
        0 <= b2 <= s2.len(),
        s1.skip(b1) == s2.skip(b2),
        var_match_at(s1, b1) == var_match_at(s2, b2),
    ensures
        subst_from(s1, b1) == subst_from(s2, b2),
    decreases s1.len() - b1,
{
    assert(s1.len() - b1 == s2.len() - b2) by {
        assert(s1.skip(b1).len() == s1.len() - b1);
        assert(s2.skip(b2).len() == s2.len() - b2);
        assert(s1.skip(b1).len() == s2.skip(b2).len());
    }
    if b1 >= s1.len() {
        assert(subst_from(s1, b1) =~= subst_from(s2, b2));
    } else {
        assert forall|d: int| 0 <= d < s1.len() - b1 implies #[trigger] s1[b1 + d] == s2[b2
            + d] by {
            assert(s1.skip(b1)[d] == s1[b1 + d]);
            assert(s2.skip(b2)[d] == s2[b2 + d]);
        }
        match var_match_at(s1, b1) {
            Some(l) => {
                lemma_var_match_len(s1, b1);
                lemma_var_match_len(s2, b2);
                assert forall|d: int| 0 <= d < s1.len() - (b1 + l) implies #[trigger] s1.skip(b1 + l)[d]
                    == s2.skip(b2 + l)[d] by {
                    assert(s1[b1 + (l + d)] == s2[b2 + (l + d)]);
                }
                assert(s1.skip(b1 + l) =~= s2.skip(b2 + l));
                assert(s1[b1 + (l - 1)] == s2[b2 + (l - 1)]);
                lemma_match_local(s1, b1 + l, s2, b2 + l);
                lemma_subst_tail(s1, b1 + l, s2, b2 + l);
            },
            None => {
                assert(s1[b1 + 0] == s2[b2 + 0]);
                assert forall|d: int| 0 <= d < s1.len() - (b1 + 1) implies #[trigger] s1.skip(b1 + 1)[d]
                    == s2.skip(b2 + 1)[d] by {
                    assert(s1[b1 + (1 + d)] == s2[b2 + (1 + d)]);
                }
                assert(s1.skip(b1 + 1) =~= s2.skip(b2 + 1));
                lemma_match_local(s1, b1 + 1, s2, b2 + 1);
                lemma_subst_tail(s1, b1 + 1, s2, b2 + 1);
                assert(subst_from(s1, b1) =~= subst_from(s2, b2));
            },
        }
    }
}

/// A match can only start strictly inside the string.
proof fn lemma_match_pos_in_range(s: Seq<char>, i: int)
    requires
        0 <= i,
        var_match_at(s, i) is Some,
    ensures
        i < s.len(),
{
    if i >= s.len() {
        assert(digit_run_from(s, i) == 0);
        assert(!uuid_at(s, i));
        assert(ipv4_len_at(s, i) is None);
        assert(num_len_at(s, i) == 0);
    }
}

/// Right after a variable part that the scan matched exactly, the match
/// outcome is the same whatever text the part and everything before it
/// held: the shapes read only the common tail, and the one look-back (the
/// IPv4 boundary) cannot tell the two last characters apart.
proof fn lemma_seam_match_agree(
    p1: Seq<char>,
    t1: Seq<char>,
    p2: Seq<char>,
    t2: Seq<char>,
    suf: Seq<char>,
)
    requires
        var_match_at(p1 + t1 + suf, p1.len() as int) == Some(t1.len() as int),
        var_match_at(p2 + t2 + suf, p2.len() as int) == Some(t2.len() as int),
    ensures
        var_match_at(p1 + t1 + suf, p1.len() + t1.len() as int) == var_match_at(
            p2 + t2 + suf,
            p2.len() + t2.len() as int,
        ),
{
    let s1 = p1 + t1 + suf;
    let s2 = p2 + t2 + suf;
    let n1 = p1.len() as int;
    let n2 = p2.len() as int;
    let b1 = n1 + t1.len();
    let b2 = n2 + t2.len();
    lemma_match_pos_in_range(s1, n1);
    lemma_match_pos_in_range(s2, n2);
    lemma_var_match_len(s1, n1);
    lemma_var_match_len(s2, n2);
    assert(s1.skip(b1) =~= suf);
    assert(s2.skip(b2) =~= suf);
    if suf.len() == 0 {
        lemma_shapes_local(s1, b1, s2, b2);
    } else if is_digit_char(suf[0]) {
        // then neither variable part ends in a digit or a dot, so a word
        // character precedes both positions
        lemma_last_char_word(p1, t1, suf);
        lemma_last_char_word(p2, t2, suf);
        assert(s1[b1 - 1] == t1.last()) by {
            assert(s1[n1 + (t1.len() - 1)] == t1[t1.len() - 1]);
        }
        assert(s2[b2 - 1] == t2.last()) by {
            assert(s2[n2 + (t2.len() - 1)] == t2[t2.len() - 1]);
        }
        lemma_match_local(s1, b1, s2, b2);
    } else {
        // no shape can start on a non-digit but a UUID, which needs no
        // boundary; the boundary is the only thing that could differ
        lemma_shapes_local(s1, b1, s2, b2);
        assert(s1[b1] == suf[0] && s2[b2] == suf[0]) by {
            assert(s1.skip(b1)[0] == s1[b1]);
            assert(s2.skip(b2)[0] == s2[b2]);
        }
        assert(digit_run_from(s1, b1) == 0) by {
            assert(!is_digit_char(s1[b1]));
        }
        assert(ipv4_len_at(s1, b1) is None);
        assert(ipv4_len_at(s2, b2) is None);
        assert(num_len_at(s1, b1) == 0);
        assert(num_len_at(s2, b2) == 0);
    }
}

/// The literal stretches around the variable parts, interleaved:
/// `lits[0] + parts[0] + lits[1] + ... + parts[n-1] + lits[n]`.
pub open spec fn interleave(lits: Seq<Seq<char>>, parts: Seq<Seq<char>>) -> Seq<char>
    recommends
        lits.len() == parts.len() + 1,
    decreases parts.len(),
{
    if parts.len() == 0 || lits.len() == 0 {
        if lits.len() == 0 {
            Seq::empty()
        } else {
            lits[0]
        }
    } else {
        lits[0] + parts[0] + interleave(lits.skip(1), parts.skip(1))
    }
}

/// The scan of `s` sees the interleaving from position `b` on: no match
/// starts inside a literal that a part follows, and at each such
/// literal's end the match covers exactly the following part.
pub open spec fn scan_shape(
    s: Seq<char>,
    b: int,
    lits: Seq<Seq<char>>,
    parts: Seq<Seq<char>>,
) -> bool
    recommends
        lits.len() == parts.len() + 1,
    decreases parts.len(),
{
    if parts.len() == 0 || lits.len() == 0 {
        true
    } else {
        let e = b + lits[0].len();
        &&& forall|j: int| b <= j < e ==> #[trigger] var_match_at(s, j) is None
        &&& var_match_at(s, e) == Some(parts[0].len() as int)
        &&& scan_shape(s, e + parts[0].len(), lits.skip(1), parts.skip(1))
    }
}

/// Substitution runs alike over two interleavings of the same literals,
/// from the position right after a matched part on.
#[verifier::rlimit(50)]
proof fn lemma_subst_after_part(
    p1: Seq<char>,
    t1: Seq<char>,
    p2: Seq<char>,
    t2: Seq<char>,
    lits: Seq<Seq<char>>,
    parts1: Seq<Seq<char>>,
    parts2: Seq<Seq<char>>,
)
    requires
        lits.len() == parts1.len() + 1,
        parts1.len() == parts2.len(),
        var_match_at(p1 + t1 + interleave(lits, parts1), p1.len() as int) == Some(
            t1.len() as int,
        ),
        var_match_at(p2 + t2 + interleave(lits, parts2), p2.len() as int) == Some(
            t2.len() as int,
        ),
        scan_shape(p1 + t1 + interleave(lits, parts1), p1.len() + t1.len() as int, lits, parts1),
        scan_shape(p2 + t2 + interleave(lits, parts2), p2.len() + t2.len() as int, lits, parts2),
    ensures
        subst_from(p1 + t1 + interleave(lits, parts1), p1.len() + t1.len() as int) == subst_from(
            p2 + t2 + interleave(lits, parts2),
            p2.len() + t2.len() as int,
        ),
    decreases parts1.len(),
{
    let s1 = p1 + t1 + interleave(lits, parts1);
    let s2 = p2 + t2 + interleave(lits, parts2);
    let b1 = p1.len() + t1.len() as int;
    let b2 = p2.len() + t2.len() as int;
    if parts1.len() == 0 {
        assert(interleave(lits, parts1) == lits[0]);
        assert(interleave(lits, parts2) == lits[0]);
        lemma_seam_match_agree(p1, t1, p2, t2, lits[0]);
        assert(s1.skip(b1) =~= lits[0]);
        assert(s2.skip(b2) =~= lits[0]);
        lemma_subst_tail(s1, b1, s2, b2);
    } else {
        let l0 = lits[0];
        let q1 = parts1[0];
        let q2 = parts2[0];
        let rest1 = interleave(lits.skip(1), parts1.skip(1));
        let rest2 = interleave(lits.skip(1), parts2.skip(1));
        assert(interleave(lits, parts1) == l0 + q1 + rest1);
        assert(interleave(lits, parts2) == l0 + q2 + rest2);
        let e1 = b1 + l0.len();
        let e2 = b2 + l0.len();
        lemma_triple_shift(p1, t1, l0, q1, rest1);
        lemma_triple_shift(p2, t2, l0, q2, rest2);
        lemma_subst_copy_to(s1, b1, e1);
        lemma_subst_copy_to(s2, b2, e2);
        assert(var_match_at(s1, e1) == Some(q1.len() as int));
        assert(var_match_at(s2, e2) == Some(q2.len() as int));
        lemma_match_pos_in_range(s1, e1);
        lemma_match_pos_in_range(s2, e2);
        // step over the part and recurse with the grown prefixes
        let np1 = p1 + t1 + l0;
        let np2 = p2 + t2 + l0;
        assert(np1.len() == e1);
        assert(np2.len() == e2);
        lemma_subst_after_part(np1, q1, np2, q2, lits.skip(1), parts1.skip(1), parts2.skip(1));
        assert(subst_from(s1, e1) == var_token() + subst_from(s1, e1 + q1.len()));
        assert(subst_from(s2, e2) == var_token() + subst_from(s2, e2 + q2.len()));
        assert(subst_from(s1, b1) == subst_from(s2, b2));
    }
}

/// Regrouping a concatenation around its middle stretch, and that
/// stretch read back out of it.
proof fn lemma_triple_shift(
    pp: Seq<char>,
    tt: Seq<char>,
    l0: Seq<char>,
    q: Seq<char>,
    rest: Seq<char>,
)
    ensures
        pp + tt + (l0 + q + rest) == (pp + tt + l0) + q + rest,
        (pp + tt + (l0 + q + rest)).subrange(
            pp.len() + tt.len() as int,
            pp.len() + tt.len() + l0.len() as int,
        ) == l0,
{
    assert(pp + tt + (l0 + q + rest) =~= (pp + tt + l0) + q + rest);
    assert((pp + tt + (l0 + q + rest)).subrange(
        pp.len() + tt.len() as int,
        pp.len() + tt.len() + l0.len() as int,
    ) =~= l0);
}

/// Messages that differ only in their variable parts normalize to the
/// same key: when two messages interleave the same literal stretches with
/// variable parts — the scan finding no match inside a literal and, at
/// each literal's end, a match covering exactly the part that follows —
/// the pattern keys are identical, whatever the parts are.
pub proof fn lemma_normalize_variables(
    lits: Seq<Seq<char>>,
    parts1: Seq<Seq<char>>,
    parts2: Seq<Seq<char>>,
)
    requires
        lits.len() == parts1.len() + 1,
        parts1.len() == parts2.len(),
        scan_shape(interleave(lits, parts1), 0, lits, parts1),
        scan_shape(interleave(lits, parts2), 0, lits, parts2),
    ensures
        normalize_spec(interleave(lits, parts1)) == normalize_spec(interleave(lits, parts2)),
{
    let s1 = interleave(lits, parts1);
    let s2 = interleave(lits, parts2);
    if parts1.len() == 0 {
        assert(s1 == s2);
    } else {
        let l0 = lits[0];
        let q1 = parts1[0];
        let q2 = parts2[0];
        let rest1 = interleave(lits.skip(1), parts1.skip(1));
        let rest2 = interleave(lits.skip(1), parts2.skip(1));
        assert(s1 == l0 + q1 + rest1);
        assert(s2 == l0 + q2 + rest2);
        let e = l0.len() as int;
        lemma_subst_copy_to(s1, 0, e);
        lemma_subst_copy_to(s2, 0, e);
        assert(var_match_at(s1, e) == Some(q1.len() as int));
        assert(var_match_at(s2, e) == Some(q2.len() as int));
        lemma_match_pos_in_range(s1, e);
        lemma_match_pos_in_range(s2, e);
        assert(s1.subrange(0, e) =~= l0);
        assert(s2.subrange(0, e) =~= l0);
        lemma_subst_after_part(l0, q1, l0, q2, lits.skip(1), parts1.skip(1), parts2.skip(1));
        assert(subst_from(s1, e) == var_token() + subst_from(s1, e + q1.len()));
        assert(subst_from(s2, e) == var_token() + subst_from(s2, e + q2.len()));
        assert(subst_from(s1, 0) == subst_from(s2, 0));
    }
}

/// Two messages that differ in one variable part alone normalize to the
/// same key: the one-part form of `lemma_normalize_variables`.
pub proof fn lemma_normalize_single_variable(
    p: Seq<char>,
    t1: Seq<char>,
    t2: Seq<char>,
    suf: Seq<char>,
)
    requires
        forall|j: int| 0 <= j < p.len() ==> #[trigger] var_match_at(p + t1 + suf, j) is None,
        forall|j: int| 0 <= j < p.len() ==> #[trigger] var_match_at(p + t2 + suf, j) is None,
        var_match_at(p + t1 + suf, p.len() as int) == Some(t1.len() as int),
        var_match_at(p + t2 + suf, p.len() as int) == Some(t2.len() as int),
    ensures
        normalize_spec(p + t1 + suf) == normalize_spec(p + t2 + suf),
{
    let lits = seq![p, suf];
    let parts1 = seq![t1];
    let parts2 = seq![t2];
    assert(lits.skip(1) =~= seq![suf]);
    assert(parts1.skip(1) =~= Seq::<Seq<char>>::empty());
    assert(parts2.skip(1) =~= Seq::<Seq<char>>::empty());
    assert(interleave(seq![suf], Seq::<Seq<char>>::empty()) == suf);
    assert(interleave(lits, parts1) == p + t1 + suf);
    assert(interleave(lits, parts2) == p + t2 + suf);
    assert(scan_shape(interleave(lits, parts1), 0, lits, parts1)) by {
        assert forall|j: int| 0 <= j < p.len() implies #[trigger] var_match_at(
            interleave(lits, parts1),
            j,
        ) is None by {
            assert(var_match_at(p + t1 + suf, j) is None);
        }
        assert(scan_shape(interleave(lits, parts1), p.len() + t1.len() as int, seq![suf],
            Seq::<Seq<char>>::empty()));
    }
    assert(scan_shape(interleave(lits, parts2), 0, lits, parts2)) by {
        assert forall|j: int| 0 <= j < p.len() implies #[trigger] var_match_at(
            interleave(lits, parts2),
            j,
        ) is None by {
            assert(var_match_at(p + t2 + suf, j) is None);
        }
        assert(scan_shape(interleave(lits, parts2), p.len() + t2.len() as int, seq![suf],
            Seq::<Seq<char>>::empty()));
    }
    lemma_normalize_variables(lits, parts1, parts2);
}

/// When a digit follows the matched variable part, the part ends on a
/// word character: a trailing digit or dot would have extended the match.
proof fn lemma_last_char_word(p: Seq<char>, t: Seq<char>, suf: Seq<char>)
    requires
        var_match_at(p + t + suf, p.len() as int) == Some(t.len() as int),
        suf.len() >= 1,
        is_digit_char(suf[0]),
    ensures
        t.len() >= 1,
        is_word_char(t.last()),
{
    let s = p + t + suf;
    let n = p.len() as int;
    let l = t.len() as int;
    lemma_var_match_len(s, n);
    assert(s[n + l] == suf[0]);
    assert forall|d: int| 0 <= d < l implies #[trigger] s[n + d] == t[d] by {}
    if uuid_at(s, n) {
        // l == 36 and the last character is a hexadecimal digit
        lemma_uuid_chars(s, n, 35);
        assert(t.last() == s[n + 35]);
        assert(is_hex_char(t.last()) || t.last() == '-');
        assert(s[n + 23] == '-');
        if t.last() == '-' {
            // the UUID shape puts a hexadecimal digit at its last place
            assert(is_hex_char(s[n + 35]));
            assert(false);
        }
    } else if boundary_before(s, n) && ipv4_len_at(s, n) is Some {
        // the last character of the IPv4 shape is a digit of its last run
        let r1 = digit_run_from(s, n) as int;
        let p2 = n + r1 + 1;
        let r2 = digit_run_from(s, p2) as int;
        let p3 = p2 + r2 + 1;
        let r3 = digit_run_from(s, p3) as int;
        let p4 = p3 + r3 + 1;
        let r4 = digit_run_from(s, p4) as int;
        assert(n + l == p4 + r4);
        lemma_digit_run_chars(s, p4);
        assert(is_digit_char(s[p4 + (r4 - 1)]));
        assert(t.last() == s[n + l - 1]);
    } else {
        // a number ending in a dot or digit would continue into the digit
        let r = digit_run_from(s, n) as int;
        assert(num_len_at(s, n) == l);
        assert(r >= 1);
        lemma_digit_run_stop(s, n);
        if char_at_is(s, n + r, '.') {
            let r2 = digit_run_from(s, n + r + 1) as int;
            assert(l == r + 1 + r2);
            lemma_digit_run_stop(s, n + r + 1);
            // the run after the dot stops at a non-digit, yet the next
            // character is the digit suf[0]: the run ends inside t
            assert(!is_digit_char(s[n + r + 1 + r2]));
            assert(s[n + l] == suf[0]);
            assert(false);
        } else {
            assert(l == r);
            assert(!is_digit_char(s[n + r]));
            assert(false);
        }
    }
}

proof fn lemma_digit_run_stop(s: Seq<char>, i: int)
    requires
        0 <= i <= s.len(),
    ensures
        i + digit_run_from(s, i) == s.len() || !is_digit_char(
            s[i + digit_run_from(s, i)],
        ),
    decreases s.len() - i,
{
    if i < s.len() && is_digit_char(s[i]) {
        lemma_digit_run_stop(s, i + 1);
    }
}

/// Normalization is idempotent: normalizing a normalized message changes
/// nothing.
pub proof fn lemma_normalize_idempotent(s: Seq<char>)
    ensures
        normalize_spec(normalize_spec(s)) == normalize_spec(s),
{
    let y = subst_from(s, 0);
    let z = collapse_ws(y);
    lemma_no_match_in_subst(s, 0);
    lemma_no_match_in_collapse(y);
    lemma_subst_id(z, 0);
    assert(z.skip(0) =~= z);
    crate::text::lemma_collapse_idem(y);
}

} // verus!
