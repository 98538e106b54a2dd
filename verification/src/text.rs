//! Character-level utilities: character classes, conversion between
//! `String` and `Vec<char>`, substring deletion, and whitespace collapsing.

use vstd::prelude::*;

verus! {

// ---------------------------------------------------------------------------
// Character classes
// ---------------------------------------------------------------------------

/// A Unicode `White_Space` character (the set used by `str::trim` and
/// `str::split_whitespace`).
pub open spec fn is_space_char(c: char) -> bool {
    ||| c == ' '
    ||| ('\u{9}' <= c && c <= '\u{d}')
    ||| c == '\u{85}'
    ||| c == '\u{a0}'
    ||| c == '\u{1680}'
    ||| ('\u{2000}' <= c && c <= '\u{200a}')
    ||| c == '\u{2028}'
    ||| c == '\u{2029}'
    ||| c == '\u{202f}'
    ||| c == '\u{205f}'
    ||| c == '\u{3000}'
}

/// An ASCII decimal digit.
pub open spec fn is_digit_char(c: char) -> bool {
    '0' <= c && c <= '9'
}

/// An ASCII word character: letter, digit or underscore.
pub open spec fn is_word_char(c: char) -> bool {
    ||| ('a' <= c && c <= 'z')
    ||| ('A' <= c && c <= 'Z')
    ||| is_digit_char(c)
    ||| c == '_'
}

/// A lowercase hexadecimal digit.
pub open spec fn is_hex_char(c: char) -> bool {
    is_digit_char(c) || ('a' <= c && c <= 'f')
}

/// `c` equals the uppercase ASCII letter `k` up to ASCII case.
pub open spec fn eq_ci(c: char, k: char) -> bool {
    c == k || (c as u32) == (k as u32) + 32
}

pub fn space_char(c: char) -> (b: bool)
    ensures
        b == is_space_char(c),
{
    c == ' ' || ('\u{9}' <= c && c <= '\u{d}') || c == '\u{85}' || c == '\u{a0}'
        || c == '\u{1680}' || ('\u{2000}' <= c && c <= '\u{200a}') || c == '\u{2028}'
        || c == '\u{2029}' || c == '\u{202f}' || c == '\u{205f}' || c == '\u{3000}'
}

pub fn digit_char(c: char) -> (b: bool)
    ensures
        b == is_digit_char(c),
{
    '0' <= c && c <= '9'
}

pub fn word_char(c: char) -> (b: bool)
    ensures
        b == is_word_char(c),
{
    ('a' <= c && c <= 'z') || ('A' <= c && c <= 'Z') || ('0' <= c && c <= '9') || c == '_'
}

pub fn hex_char(c: char) -> (b: bool)
    ensures
        b == is_hex_char(c),
{
    ('0' <= c && c <= '9') || ('a' <= c && c <= 'f')
}

pub fn char_eq_ci(c: char, k: char) -> (b: bool)
    ensures
        b == eq_ci(c, k),
{
    c == k || (c as u32) == (k as u32) + 32
}

// ---------------------------------------------------------------------------
// String <-> Vec<char>
// ---------------------------------------------------------------------------

/// Relies on `String::push`: appends exactly the given character.
#[verifier::external_body]
pub fn push_char(s: &mut String, c: char)
    ensures
        final(s)@ == old(s)@.push(c),
{
    s.push(c);
}

/// The characters of `s` as a vector.
pub fn to_chars(s: &str) -> (v: Vec<char>)
    ensures
        v@ == s@,
{
    let n = s.unicode_len();
    let mut v: Vec<char> = Vec::new();
    let mut i: usize = 0;
    while i < n
        invariant
            n == s@.len(),
            i <= n,
            v@ == s@.take(i as int),
        decreases n - i,
    {
        v.push(s.get_char(i));
        i = i + 1;
        proof {
            assert(v@ =~= s@.take(i as int));
        }
    }
    proof {
        assert(v@ =~= s@);
    }
    v
}

/// The string holding `v[from..to]`.
pub fn string_of_range(v: &Vec<char>, from: usize, to: usize) -> (s: String)
    requires
        from <= to <= v@.len(),
    ensures
        s@ == v@.subrange(from as int, to as int),
{
    let mut s = String::new();
    let mut i: usize = from;
    while i < to
        invariant
            from <= i <= to <= v@.len(),
            s@ == v@.subrange(from as int, i as int),
        decreases to - i,
    {
        push_char(&mut s, v[i]);
        i = i + 1;
        proof {
            assert(s@ =~= v@.subrange(from as int, i as int));
        }
    }
    s
}

/// The string holding exactly the characters of `v`.
pub fn string_of(v: &Vec<char>) -> (s: String)
    ensures
        s@ == v@,
{
    let s = string_of_range(v, 0, v.len());
    proof {
        assert(v@.subrange(0, v@.len() as int) =~= v@);
    }
    s
}

// ---------------------------------------------------------------------------
// Whitespace collapsing
// ---------------------------------------------------------------------------

/// Length of the maximal run of non-whitespace characters starting at `i`.
pub open spec fn token_len_from(s: Seq<char>, i: int) -> nat
    decreases s.len() - i,
{
    if i < 0 || i >= s.len() || is_space_char(s[i]) {
        0
    } else {
        1 + token_len_from(s, i + 1)
    }
}

pub proof fn lemma_token_len_le(s: Seq<char>, i: int)
    requires
        0 <= i <= s.len(),
    ensures
        i + token_len_from(s, i) <= s.len(),
    decreases s.len() - i,
{
    if i < s.len() && !is_space_char(s[i]) {
        lemma_token_len_le(s, i + 1);
    }
}

/// The maximal whitespace-free tokens of `s` from position `i` on, in order.
pub open spec fn tokens_from(s: Seq<char>, i: int) -> Seq<Seq<char>>
    decreases s.len() - i,
    when 0 <= i
    via tokens_from_decreases
{
    if i >= s.len() {
        Seq::empty()
    } else if is_space_char(s[i]) {
        tokens_from(s, i + 1)
    } else {
        seq![s.subrange(i, i + token_len_from(s, i))] + tokens_from(s, i + token_len_from(s, i))
    }
}

#[via_fn]
proof fn tokens_from_decreases(s: Seq<char>, i: int) {
    if 0 <= i < s.len() && !is_space_char(s[i]) {
        lemma_token_len_le(s, i);
    }
}

/// The tokens joined by single spaces.
pub open spec fn join_tokens(ts: Seq<Seq<char>>) -> Seq<char>
    decreases ts.len(),
{
    if ts.len() == 0 {
        Seq::empty()
    } else if ts.len() == 1 {
        ts[0]
    } else {
        ts[0] + seq![' '] + join_tokens(ts.skip(1))
    }
}

/// `s` with every whitespace run replaced by a single space and the ends
/// trimmed: the result of `s.split_whitespace()` joined by `" "`.
pub open spec fn collapse_ws(s: Seq<char>) -> Seq<char> {
    join_tokens(tokens_from(s, 0))
}

pub proof fn lemma_join_tokens_cons(ts: Seq<Seq<char>>)
    requires
        ts.len() >= 1,
    ensures
        join_tokens(ts) == ts[0] + (if ts.len() == 1 {
            Seq::<char>::empty()
        } else {
            seq![' '] + join_tokens(ts.skip(1))
        }),
{
    if ts.len() == 1 {
        assert(join_tokens(ts) =~= ts[0] + Seq::<char>::empty());
    }
}

/// In a run of non-whitespace characters `[i, j)` that is maximal (either
/// `j` is the end or a whitespace character follows), the token length is
/// exactly `j - i`.
pub proof fn lemma_token_len_run(s: Seq<char>, i: int, j: int)
    requires
        0 <= i <= j <= s.len(),
        forall|k: int| i <= k < j ==> !is_space_char(s[k]),
        j == s.len() || is_space_char(s[j]),
    ensures
        token_len_from(s, i) == j - i,
    decreases j - i,
{
    if i < j {
        lemma_token_len_run(s, i + 1, j);
    }
}

pub fn token_end(v: &Vec<char>, i: usize) -> (j: usize)
    requires
        i <= v@.len(),
    ensures
        i <= j <= v@.len(),
        j - i == token_len_from(v@, i as int),
        forall|k: int| i <= k < j ==> !is_space_char(v@[k]),
        j == v@.len() || is_space_char(v@[j as int]),
{
    let n = v.len();
    let mut j: usize = i;
    while j < n && !space_char(v[j])
        invariant
            i <= j <= n,
            n == v@.len(),
            forall|k: int| i <= k < j ==> !is_space_char(v@[k]),
        decreases n - j,
    {
        j = j + 1;
    }
    proof {
        lemma_token_len_run(v@, i as int, j as int);
    }
    j
}

/// What remains to be appended to an output of length `olen` so that the
/// whole equals the collapsed string: the joined tokens, preceded by a
/// space when output was already written and tokens remain.
pub open spec fn collapse_rest(olen: nat, ts: Seq<Seq<char>>) -> Seq<char> {
    if ts.len() == 0 {
        Seq::empty()
    } else if olen == 0 {
        join_tokens(ts)
    } else {
        seq![' '] + join_tokens(ts)
    }
}

/// `v` with whitespace runs collapsed to single spaces and ends trimmed.
pub fn collapse_chars(v: &Vec<char>) -> (out: Vec<char>)
    ensures
        out@ == collapse_ws(v@),
{
    let n = v.len();
    let mut out: Vec<char> = Vec::new();
    let mut i: usize = 0;
    while i < n
        invariant
            i <= n,
            n == v@.len(),
            collapse_ws(v@) == out@ + collapse_rest(out@.len(), tokens_from(v@, i as int)),
        decreases n - i,
    {
        if space_char(v[i]) {
            proof {
                assert(tokens_from(v@, i as int) == tokens_from(v@, i + 1));
            }
            i = i + 1;
        } else {
            let j = token_end(v, i);
            let ghost t = v@.subrange(i as int, j as int);
            let ghost rest = tokens_from(v@, j as int);
            let ghost ts = tokens_from(v@, i as int);
            proof {
                assert(ts == seq![t] + rest);
                assert(ts[0] == t);
                assert(ts.len() >= 1);
                if ts.len() > 1 {
                    assert(ts.skip(1) =~= rest);
                } else {
                    assert(rest =~= Seq::<Seq<char>>::empty());
                }
                lemma_join_tokens_cons(ts);
                assert(t.len() == j - i);
            }
            let ghost out0 = out@;
            if out.len() > 0 {
                out.push(' ');
            }
            let ghost base = out@;
            let mut k: usize = i;
            while k < j
                invariant
                    i <= k <= j <= n,
                    n == v@.len(),
                    out@ == base + v@.subrange(i as int, k as int),
                decreases j - k,
            {
                out.push(v[k]);
                k = k + 1;
                proof {
                    assert(out@ =~= base + v@.subrange(i as int, k as int));
                }
            }
            proof {
                // out@ == out0 + maybe-space + t; fold it back into the invariant
                if out0.len() == 0 {
                    assert(out@ =~= out0 + (t + (if rest.len() == 0 {
                        Seq::<char>::empty()
                    } else {
                        seq![' '] + join_tokens(rest)
                    })).subrange(0, t.len() as int));
                    assert(collapse_rest(out0.len(), ts) == join_tokens(ts));
                    assert(join_tokens(ts) == t + (if rest.len() == 0 {
                        Seq::<char>::empty()
                    } else {
                        seq![' '] + join_tokens(rest)
                    }));
                    assert(out0 + collapse_rest(out0.len(), ts) =~= out@ + collapse_rest(
                        out@.len(),
                        rest,
                    ));
                } else {
                    assert(collapse_rest(out0.len(), ts) == seq![' '] + join_tokens(ts));
                    assert(join_tokens(ts) == t + (if rest.len() == 0 {
                        Seq::<char>::empty()
                    } else {
                        seq![' '] + join_tokens(rest)
                    }));
                    assert(out@ =~= out0 + seq![' '] + t);
                    assert(out0 + collapse_rest(out0.len(), ts) =~= out@ + collapse_rest(
                        out@.len(),
                        rest,
                    ));
                }
            }
            i = j;
        }
    }
    proof {
        assert(tokens_from(v@, i as int) =~= Seq::<Seq<char>>::empty());
        assert(out@ + collapse_rest(out@.len(), Seq::<Seq<char>>::empty()) =~= out@);
    }
    out
}

// ---------------------------------------------------------------------------
// Structure of the collapsed string
// ---------------------------------------------------------------------------

/// A well-formed token: nonempty and free of whitespace.
pub open spec fn token_wf(t: Seq<char>) -> bool {
    t.len() >= 1 && forall|d: int| 0 <= d < t.len() ==> !is_space_char(#[trigger] t[d])
}

pub open spec fn tokens_wf(ts: Seq<Seq<char>>) -> bool {
    forall|t: int| 0 <= t < ts.len() ==> token_wf(#[trigger] ts[t])
}

/// `t` occurs as a contiguous part of `s`.
pub open spec fn is_subrange_of(t: Seq<char>, s: Seq<char>) -> bool {
    exists|a: int| 0 <= a && a + t.len() <= s.len() && t == #[trigger] s.subrange(a, a + t.len())
}

pub proof fn lemma_token_run_chars(s: Seq<char>, i: int)
    requires
        0 <= i <= s.len(),
    ensures
        forall|d: int| 0 <= d < token_len_from(s, i) ==> !is_space_char(#[trigger] s[i + d]),
    decreases s.len() - i,
{
    if i < s.len() && !is_space_char(s[i]) {
        lemma_token_run_chars(s, i + 1);
        assert forall|d: int| 0 <= d < token_len_from(s, i) implies !is_space_char(
            #[trigger] s[i + d],
        ) by {
            if d > 0 {
                assert(s[(i + 1) + (d - 1)] == s[i + d]);
            }
        }
    }
}

/// The tokens of a string are well formed.
pub proof fn lemma_tokens_wf(s: Seq<char>, i: int)
    requires
        0 <= i <= s.len(),
    ensures
        tokens_wf(tokens_from(s, i)),
    decreases s.len() - i,
{
    if i < s.len() {
        if is_space_char(s[i]) {
            lemma_tokens_wf(s, i + 1);
        } else {
            let tl = token_len_from(s, i) as int;
            lemma_token_len_le(s, i);
            lemma_tokens_wf(s, i + tl);
            lemma_token_run_chars(s, i);
            let t0 = s.subrange(i, i + tl);
            assert(token_wf(t0)) by {
                assert(forall|d: int| 0 <= d < tl ==> t0[d] == s[i + d]);
            }
            let ts = tokens_from(s, i);
            assert forall|t: int| 0 <= t < ts.len() implies token_wf(#[trigger] ts[t]) by {
                if t > 0 {
                    assert(ts[t] == tokens_from(s, i + tl)[t - 1]);
                }
            }
        }
    }
}

/// Each token occurs contiguously in the string.
pub proof fn lemma_tokens_subranges(s: Seq<char>, i: int)
    requires
        0 <= i <= s.len(),
    ensures
        forall|t: int|
            0 <= t < tokens_from(s, i).len() ==> is_subrange_of(
                #[trigger] tokens_from(s, i)[t],
                s,
            ),
    decreases s.len() - i,
{
    if i < s.len() {
        if is_space_char(s[i]) {
            lemma_tokens_subranges(s, i + 1);
            let ts = tokens_from(s, i);
            assert forall|t: int| 0 <= t < ts.len() implies is_subrange_of(
                #[trigger] ts[t],
                s,
            ) by {
                assert(ts[t] == tokens_from(s, i + 1)[t]);
            }
        } else {
            let tl = token_len_from(s, i) as int;
            lemma_token_len_le(s, i);
            lemma_tokens_subranges(s, i + tl);
            let ts = tokens_from(s, i);
            assert forall|t: int| 0 <= t < ts.len() implies is_subrange_of(
                #[trigger] ts[t],
                s,
            ) by {
                if t == 0 {
                    let t0 = s.subrange(i, i + tl);
                    assert(ts[0] == t0);
                    assert(0 <= i && i + t0.len() <= s.len() && t0 == s.subrange(
                        i,
                        i + t0.len(),
                    ));
                } else {
                    assert(ts[t] == tokens_from(s, i + tl)[t - 1]);
                }
            }
        }
    }
}

/// A contiguous part of a contiguous part is itself one.
pub proof fn lemma_subrange_of_subrange(t: Seq<char>, s: Seq<char>, off: int, m: int)
    requires
        is_subrange_of(t, s),
        0 <= off,
        0 <= m,
        off + m <= t.len(),
    ensures
        is_subrange_of(t.subrange(off, off + m), s),
{
    let a = choose|a: int| 0 <= a && a + t.len() <= s.len() && t == #[trigger] s.subrange(a, a + t.len());
    assert(t.subrange(off, off + m) =~= s.subrange(a + off, a + off + m));
}

/// Token lengths depend only on the text from the position on.
pub proof fn lemma_token_len_concat(u: Seq<char>, w: Seq<char>, d: int)
    requires
        d >= 0,
    ensures
        token_len_from(u + w, u.len() + d) == token_len_from(w, d),
    decreases w.len() - d,
{
    if d < w.len() && !is_space_char(w[d]) {
        assert((u + w)[u.len() + d] == w[d]);
        lemma_token_len_concat(u, w, d + 1);
    } else {
        if d < w.len() {
            assert((u + w)[u.len() + d] == w[d]);
        }
    }
}

/// The tokens from a position depend only on the text from there on.
pub proof fn lemma_tokens_concat(u: Seq<char>, w: Seq<char>, d: int)
    requires
        d >= 0,
    ensures
        tokens_from(u + w, u.len() + d) == tokens_from(w, d),
    decreases w.len() - d,
{
    let c = u + w;
    if d >= w.len() {
        assert(tokens_from(c, u.len() + d) =~= tokens_from(w, d));
    } else {
        assert(c[u.len() + d] == w[d]);
        if is_space_char(w[d]) {
            lemma_tokens_concat(u, w, d + 1);
        } else {
            lemma_token_len_concat(u, w, d);
            let tl = token_len_from(w, d) as int;
            lemma_token_len_le(w, d);
            lemma_tokens_concat(u, w, d + tl);
            assert(c.subrange(u.len() + d, u.len() + d + tl) =~= w.subrange(d, d + tl));
            assert(tokens_from(c, u.len() + d) =~= tokens_from(w, d));
        }
    }
}

/// A window of the joined tokens that holds no space lies inside one
/// token.
pub proof fn lemma_join_window(ts: Seq<Seq<char>>, a: int, m: int)
    requires
        tokens_wf(ts),
        1 <= m,
        0 <= a,
        a + m <= join_tokens(ts).len(),
        forall|d: int| 0 <= d < m ==> #[trigger] join_tokens(ts)[a + d] != ' ',
    ensures
        exists|t: int, off: int|
            0 <= t < ts.len() && 0 <= off && off + m <= ts[t].len() && join_tokens(ts).subrange(
                a,
                a + m,
            ) == #[trigger] ts[t].subrange(off, off + m),
    decreases ts.len(),
{
    let j = join_tokens(ts);
    if ts.len() == 0 {
        // impossible: the join is empty
        assert(false);
    } else if ts.len() == 1 {
        assert(j == ts[0]);
        assert(j.subrange(a, a + m) == ts[0].subrange(a, a + m));
        assert(0 <= 0 < ts.len() && 0 <= a && a + m <= ts[0].len() && j.subrange(a, a + m)
            == ts[0].subrange(a, a + m));
    } else {
        let t0 = ts[0];
        let rest = join_tokens(ts.skip(1));
        assert(j == t0 + seq![' '] + rest);
        let n0 = t0.len() as int;
        if a + m <= n0 {
            assert(j.subrange(a, a + m) =~= t0.subrange(a, a + m));
            assert(0 <= 0 < ts.len() && 0 <= a && a + m <= ts[0].len() && j.subrange(a, a + m)
                == ts[0].subrange(a, a + m));
        } else if a <= n0 {
            // the window would cover the separating space
            assert(j[n0] == ' ');
            assert(0 <= n0 - a < m);
            assert(j[a + (n0 - a)] != ' ');
            assert(false);
        } else {
            let a2 = a - n0 - 1;
            assert forall|d: int| 0 <= d < m implies #[trigger] rest[a2 + d] != ' ' by {
                assert(j[a + d] == rest[a2 + d]);
            }
            lemma_join_window(ts.skip(1), a2, m);
            let (t, off) = choose|t: int, off: int|
                0 <= t < ts.skip(1).len() && 0 <= off && off + m <= ts.skip(1)[t].len()
                    && rest.subrange(a2, a2 + m) == #[trigger] ts.skip(1)[t].subrange(off, off + m);
            assert(j.subrange(a, a + m) =~= rest.subrange(a2, a2 + m));
            assert(ts.skip(1)[t] == ts[t + 1]);
            assert(0 <= t + 1 < ts.len() && 0 <= off && off + m <= ts[t + 1].len() && j.subrange(
                a,
                a + m,
            ) == ts[t + 1].subrange(off, off + m));
        }
    }
}

/// Splitting the joined tokens yields the tokens back.
pub proof fn lemma_tokens_of_join(ts: Seq<Seq<char>>)
    requires
        tokens_wf(ts),
    ensures
        tokens_from(join_tokens(ts), 0) == ts,
    decreases ts.len(),
{
    let j = join_tokens(ts);
    if ts.len() == 0 {
        assert(tokens_from(j, 0) =~= ts);
    } else if ts.len() == 1 {
        let t0 = ts[0];
        assert(j == t0);
        assert(token_wf(t0));
        lemma_token_len_run(t0, 0, t0.len() as int);
        let tl = t0.len() as int;
        assert(t0.subrange(0, tl) =~= t0);
        assert(tokens_from(t0, tl) =~= Seq::<Seq<char>>::empty());
        assert(tokens_from(j, 0) =~= ts);
    } else {
        let t0 = ts[0];
        let rest = join_tokens(ts.skip(1));
        assert(j == t0 + seq![' '] + rest);
        let n0 = t0.len() as int;
        assert(token_wf(t0));
        // the first token of the join is exactly t0
        assert forall|k: int| 0 <= k < n0 implies !is_space_char(j[k]) by {
            assert(j[k] == t0[k]);
        }
        assert(j[n0] == ' ');
        lemma_token_len_run(j, 0, n0);
        assert(j.subrange(0, n0) =~= t0);
        // after the separator the rest of the tokens follow
        assert(t0 + seq![' '] + rest =~= (t0 + seq![' ']) + rest);
        assert((t0 + seq![' ']).len() == n0 + 1);
        lemma_tokens_concat(t0 + seq![' '], rest, 0);
        assert(tokens_wf(ts.skip(1))) by {
            assert(forall|t: int| 0 <= t < ts.skip(1).len() ==> ts.skip(1)[t] == ts[t + 1]);
        }
        lemma_tokens_of_join(ts.skip(1));
        assert(tokens_from(j, n0) == tokens_from(j, n0 + 1));
        assert(tokens_from(j, n0 + 1) == tokens_from(rest, 0));
        assert(tokens_from(j, 0) =~= ts);
    }
}

/// Collapsing is idempotent.
pub proof fn lemma_collapse_idem(s: Seq<char>)
    ensures
        collapse_ws(collapse_ws(s)) == collapse_ws(s),
{
    let ts = tokens_from(s, 0);
    lemma_tokens_wf(s, 0);
    lemma_tokens_of_join(ts);
}

// ---------------------------------------------------------------------------
// Substring deletion
// ---------------------------------------------------------------------------

/// `s` with the characters at positions `[a, b)` deleted.
pub open spec fn remove_range(s: Seq<char>, a: int, b: int) -> Seq<char> {
    s.subrange(0, a) + s.subrange(b, s.len() as int)
}

/// `v` with the characters at positions `[a, b)` deleted.
pub fn delete_range(v: &Vec<char>, a: usize, b: usize) -> (r: Vec<char>)
    requires
        a <= b <= v@.len(),
    ensures
        r@ == remove_range(v@, a as int, b as int),
{
    let n = v.len();
    let mut r: Vec<char> = Vec::new();
    let mut i: usize = 0;
    while i < a
        invariant
            i <= a <= b <= n,
            n == v@.len(),
            r@ == v@.subrange(0, i as int),
        decreases a - i,
    {
        r.push(v[i]);
        i = i + 1;
        proof {
            assert(r@ =~= v@.subrange(0, i as int));
        }
    }
    let mut j: usize = b;
    while j < n
        invariant
            a <= b <= j <= n,
            n == v@.len(),
            r@ == v@.subrange(0, a as int) + v@.subrange(b as int, j as int),
        decreases n - j,
    {
        r.push(v[j]);
        j = j + 1;
        proof {
            assert(r@ =~= v@.subrange(0, a as int) + v@.subrange(b as int, j as int));
        }
    }
    proof {
        assert(r@ =~= remove_range(v@, a as int, b as int));
    }
    r
}

} // verus!
