//! Title and preview derivation.
//!
//! `derive_title_preview` computes a display title and a preview snippet from
//! raw note text: it splits the text into non-blank trimmed lines, strips
//! markdown markers and escape sequences, decodes a fixed set of HTML
//! entities, compacts whitespace in the preview, and truncates both results
//! at a UTF-8 byte ceiling that never splits a character's encoding.

use vstd::prelude::*;

verus! {

/// How many bytes the UTF-8 encoding of `c` takes.
pub open spec fn char_bytes(c: char) -> int {
    if (c as u32) < 0x80 {
        1
    } else if (c as u32) < 0x800 {
        2
    } else if (c as u32) < 0x10000 {
        3
    } else {
        4
    }
}

/// The UTF-8 byte length of a character sequence.
pub open spec fn byte_len(s: Seq<char>) -> int
    decreases s.len(),
{
    if s.len() == 0 {
        0
    } else {
        byte_len(s.drop_last()) + char_bytes(s.last())
    }
}

/// A prefix never takes more bytes than the whole sequence.
pub proof fn lemma_byte_len_take_le(s: Seq<char>, j: int)
    requires
        0 <= j <= s.len(),
    ensures
        byte_len(s.take(j)) <= byte_len(s),
    decreases s.len(),
{
    if j == s.len() {
        assert(s.take(j) =~= s);
    } else {
        assert(s.drop_last().take(j) =~= s.take(j));
        lemma_byte_len_take_le(s.drop_last(), j);
    }
}

/// The longest prefix of `s` whose UTF-8 byte length is at most `max`.
pub open spec fn spec_truncate(s: Seq<char>, max: int) -> Seq<char>
    decreases s.len(),
{
    if byte_len(s) <= max || s.len() == 0 {
        s
    } else {
        spec_truncate(s.drop_last(), max)
    }
}

pub proof fn lemma_truncate_bound(s: Seq<char>, max: int)
    requires
        max >= 0,
    ensures
        byte_len(spec_truncate(s, max)) <= max,
    decreases s.len(),
{
    if byte_len(s) <= max || s.len() == 0 {
    } else {
        lemma_truncate_bound(s.drop_last(), max);
    }
}

/// `spec_truncate` is the prefix of length `k` when `k` bytes fit and one
/// more character would not.
pub proof fn lemma_truncate_take(s: Seq<char>, max: int, k: int)
    requires
        0 <= k <= s.len(),
        byte_len(s.take(k)) <= max,
        k == s.len() || byte_len(s.take(k + 1)) > max,
    ensures
        spec_truncate(s, max) == s.take(k),
    decreases s.len(),
{
    if byte_len(s) <= max {
        if k < s.len() {
            lemma_byte_len_take_le(s, k + 1);
            assert(false);
        }
        assert(s.take(k) =~= s);
    } else {
        assert(s.len() > 0) by {
            if s.len() == 0 {
                assert(s =~= Seq::<char>::empty());
            }
        }
        assert(k < s.len()) by {
            if k == s.len() {
                assert(s.take(k) =~= s);
            }
        }
        let d = s.drop_last();
        assert(d.take(k) =~= s.take(k));
        if k < d.len() {
            assert(d.take(k + 1) =~= s.take(k + 1));
        }
        lemma_truncate_take(d, max, k);
    }
}

/// True of the characters Unicode marks as white space; the set `char`'s
/// `is_whitespace` tests.
pub open spec fn spec_is_space(c: char) -> bool {
    ||| c as u32 == 0x09
    ||| c as u32 == 0x0a
    ||| c as u32 == 0x0b
    ||| c as u32 == 0x0c
    ||| c as u32 == 0x0d
    ||| c as u32 == 0x20
    ||| c as u32 == 0x85
    ||| c as u32 == 0xa0
    ||| c as u32 == 0x1680
    ||| (0x2000 <= c as u32 && c as u32 <= 0x200a)
    ||| c as u32 == 0x2028
    ||| c as u32 == 0x2029
    ||| c as u32 == 0x202f
    ||| c as u32 == 0x205f
    ||| c as u32 == 0x3000
}

fn is_space(c: char) -> (r: bool)
    ensures
        r == spec_is_space(c),
{
    let u = c as u32;
    u == 0x09 || u == 0x0a || u == 0x0b || u == 0x0c || u == 0x0d || u == 0x20 || u == 0x85
        || u == 0xa0 || u == 0x1680 || (0x2000 <= u && u <= 0x200a) || u == 0x2028 || u == 0x2029
        || u == 0x202f || u == 0x205f || u == 0x3000
}

/// The characters of `s`, in order.
pub fn chars_of(s: &str) -> (v: Vec<char>)
    ensures
        v@ == s@,
{
    let n = s.unicode_len();
    let mut v: Vec<char> = Vec::new();
    let mut i: usize = 0;
    while i < n
        invariant
            i <= n,
            n == s@.len(),
            v@ == s@.take(i as int),
        decreases n - i,
    {
        v.push(s.get_char(i));
        assert(s@.take(i + 1) =~= s@.take(i as int).push(s@[i as int]));
        i = i + 1;
    }
    assert(s@.take(n as int) =~= s@);
    v
}

/// Relies on `String`'s `FromIterator<char>` implementation: collecting
/// characters yields the string of exactly those characters, in order.
#[verifier::external_body]
pub fn string_from_chars(v: &Vec<char>) -> (r: String)
    ensures
        r@ == v@,
{
    v.iter().copied().collect()
}

/// True exactly when the two strings hold the same characters.
pub fn str_eq(a: &str, b: &str) -> (r: bool)
    ensures
        r == (a@ == b@),
{
    let na = a.unicode_len();
    let nb = b.unicode_len();
    if na != nb {
        return false;
    }
    let mut i: usize = 0;
    while i < na
        invariant
            i <= na,
            na == a@.len(),
            na == b@.len(),
            forall|j: int| 0 <= j < i ==> a@[j] == b@[j],
        decreases na - i,
    {
        if a.get_char(i) != b.get_char(i) {
            return false;
        }
        i = i + 1;
    }
    assert(a@ =~= b@);
    true
}

/// True exactly when the two character vectors hold the same sequence.
pub fn chars_eq(a: &Vec<char>, b: &Vec<char>) -> (r: bool)
    ensures
        r == (a@ == b@),
{
    if a.len() != b.len() {
        return false;
    }
    let mut i: usize = 0;
    while i < a.len()
        invariant
            i <= a@.len(),
            a@.len() == b@.len(),
            forall|j: int| 0 <= j < i ==> a@[j] == b@[j],
        decreases a@.len() - i,
    {
        if a[i] != b[i] {
            return false;
        }
        i = i + 1;
    }
    assert(a@ =~= b@);
    true
}

/// The longest prefix of `v` whose UTF-8 byte length is at most `max`.
fn truncate_chars(v: &Vec<char>, max: usize) -> (r: Vec<char>)
    ensures
        r@ == spec_truncate(v@, max as int),
{
    let n = v.len();
    let mut k: usize = 0;
    let mut total: usize = 0;
    let mut stop: bool = false;
    while !stop && k < n
        invariant
            k <= n,
            n == v@.len(),
            total == byte_len(v@.take(k as int)),
            total <= max,
            stop ==> k < n && byte_len(v@.take(k + 1)) > max,
        decreases n - k, (if stop { 0int } else { 1int }),
    {
        let u = v[k] as u32;
        let cb: usize = if u < 0x80 {
            1
        } else if u < 0x800 {
            2
        } else if u < 0x10000 {
            3
        } else {
            4
        };
        assert(cb == char_bytes(v@[k as int]));
        assert(v@.take(k + 1).drop_last() =~= v@.take(k as int));
        assert(v@.take(k + 1).last() == v@[k as int]);
        if cb <= max - total {
            total = total + cb;
            k = k + 1;
        } else {
            stop = true;
        }
    }
    proof {
        lemma_truncate_take(v@, max as int, k as int);
    }
    let mut r: Vec<char> = Vec::new();
    let mut i: usize = 0;
    while i < k
        invariant
            i <= k <= v@.len(),
            r@ == v@.take(i as int),
        decreases k - i,
    {
        r.push(v[i]);
        assert(v@.take(i + 1) =~= v@.take(i as int).push(v@[i as int]));
        i = i + 1;
    }
    r
}

/// Truncates `s` to at most `max_len` UTF-8 bytes without splitting a
/// character's encoding.
pub fn truncate(s: String, max_len: usize) -> (r: String)
    ensures
        r@ == spec_truncate(s@, max_len as int),
{
    let v = chars_of(s.as_str());
    let t = truncate_chars(&v, max_len);
    string_from_chars(&t)
}

/// `s` with leading white space removed.
pub open spec fn spec_trim_start(s: Seq<char>) -> Seq<char>
    decreases s.len(),
{
    if s.len() == 0 {
        s
    } else if spec_is_space(s[0]) {
        spec_trim_start(s.skip(1))
    } else {
        s
    }
}

/// `s` with trailing white space removed.
pub open spec fn spec_trim_end(s: Seq<char>) -> Seq<char>
    decreases s.len(),
{
    if s.len() == 0 {
        s
    } else if spec_is_space(s.last()) {
        spec_trim_end(s.drop_last())
    } else {
        s
    }
}

/// `s` with leading and trailing white space removed.
pub open spec fn spec_trim(s: Seq<char>) -> Seq<char> {
    spec_trim_end(spec_trim_start(s))
}

proof fn lemma_trim_start_skip(s: Seq<char>, a: int)
    requires
        0 <= a <= s.len(),
        forall|j: int| 0 <= j < a ==> spec_is_space(s[j]),
        a == s.len() || !spec_is_space(s[a]),
    ensures
        spec_trim_start(s) == s.skip(a),
    decreases a,
{
    if a == 0 {
        assert(s.skip(0) =~= s);
    } else {
        let t = s.skip(1);
        assert(forall|j: int| 0 <= j < a - 1 ==> spec_is_space(t[j]));
        lemma_trim_start_skip(t, a - 1);
        assert(t.skip(a - 1) =~= s.skip(a));
    }
}

proof fn lemma_trim_end_take(s: Seq<char>, b: int)
    requires
        0 <= b <= s.len(),
        forall|j: int| b <= j < s.len() ==> spec_is_space(s[j]),
        b == 0 || !spec_is_space(s[b - 1]),
    ensures
        spec_trim_end(s) == s.take(b),
    decreases s.len() - b,
{
    if b == s.len() {
        assert(s.take(b) =~= s);
    } else {
        let t = s.drop_last();
        assert(spec_is_space(s.last()));
        lemma_trim_end_take(t, b);
        assert(t.take(b) =~= s.take(b));
    }
}

/// A copy of `v[a..b]`.
pub fn sub_chars(v: &Vec<char>, a: usize, b: usize) -> (r: Vec<char>)
    requires
        a <= b <= v@.len(),
    ensures
        r@ == v@.subrange(a as int, b as int),
{
    let mut r: Vec<char> = Vec::new();
    let mut i: usize = a;
    while i < b
        invariant
            a <= i <= b <= v@.len(),
            r@ == v@.subrange(a as int, i as int),
        decreases b - i,
    {
        r.push(v[i]);
        assert(v@.subrange(a as int, i + 1) =~= v@.subrange(a as int, i as int).push(
            v@[i as int],
        ));
        i = i + 1;
    }
    r
}

/// `v` with leading white space removed.
pub fn trim_start_chars(v: &Vec<char>) -> (r: Vec<char>)
    ensures
        r@ == spec_trim_start(v@),
{
    let n = v.len();
    let mut a: usize = 0;
    while a < n && is_space(v[a])
        invariant
            a <= n,
            n == v@.len(),
            forall|j: int| 0 <= j < a ==> spec_is_space(v@[j]),
        decreases n - a,
    {
        a = a + 1;
    }
    proof {
        lemma_trim_start_skip(v@, a as int);
        assert(v@.skip(a as int) =~= v@.subrange(a as int, n as int));
    }
    sub_chars(v, a, n)
}

/// `v` with leading and trailing white space removed.
pub fn trim_chars(v: &Vec<char>) -> (r: Vec<char>)
    ensures
        r@ == spec_trim(v@),
{
    let n = v.len();
    let mut a: usize = 0;
    while a < n && is_space(v[a])
        invariant
            a <= n,
            n == v@.len(),
            forall|j: int| 0 <= j < a ==> spec_is_space(v@[j]),
        decreases n - a,
    {
        a = a + 1;
    }
    let mut b: usize = n;
    while b > a && is_space(v[b - 1])
        invariant
            a <= b <= n,
            n == v@.len(),
            forall|j: int| b <= j < n ==> spec_is_space(v@[j]),
        decreases b,
    {
        b = b - 1;
    }
    proof {
        lemma_trim_start_skip(v@, a as int);
        let t = v@.skip(a as int);
        assert(forall|j: int| b - a <= j < t.len() ==> spec_is_space(t[j]));
        assert(b - a == 0 || !spec_is_space(t[b - a - 1]));
        lemma_trim_end_take(t, b - a);
        assert(t.take(b - a) =~= v@.subrange(a as int, b as int));
    }
    sub_chars(v, a, b)
}

/// `s` split on newline characters; like the split itself, always at least
/// one piece, with an empty trailing piece when `s` ends in a newline.
pub open spec fn spec_split(s: Seq<char>) -> Seq<Seq<char>>
    decreases s.len(),
{
    if s.len() == 0 {
        seq![Seq::<char>::empty()]
    } else if s[0] == '\n' {
        seq![Seq::<char>::empty()] + spec_split(s.skip(1))
    } else {
        let r = spec_split(s.skip(1));
        seq![seq![s[0]] + r[0]] + r.skip(1)
    }
}

proof fn lemma_split_len(s: Seq<char>)
    ensures
        spec_split(s).len() >= 1,
    decreases s.len(),
{
    if s.len() == 0 {
    } else if s[0] == '\n' {
        lemma_split_len(s.skip(1));
    } else {
        lemma_split_len(s.skip(1));
    }
}

proof fn lemma_split_no_newline(s: Seq<char>)
    requires
        forall|j: int| 0 <= j < s.len() ==> s[j] != '\n',
    ensures
        spec_split(s) =~~= seq![s],
    decreases s.len(),
{
    if s.len() == 0 {
        assert(s =~= Seq::<char>::empty());
    } else {
        let t = s.skip(1);
        lemma_split_no_newline(t);
        lemma_split_len(t);
        assert(seq![s[0]] + t =~= s);
        assert(spec_split(t)[0] == t);
        assert(spec_split(t).skip(1) =~~= Seq::<Seq<char>>::empty());
    }
}

proof fn lemma_split_at_newline(s: Seq<char>, i: int)
    requires
        0 <= i < s.len(),
        s[i] == '\n',
        forall|j: int| 0 <= j < i ==> s[j] != '\n',
    ensures
        spec_split(s) =~~= seq![s.take(i)] + spec_split(s.skip(i + 1)),
    decreases i,
{
    if i == 0 {
        assert(s.take(0) =~= Seq::<char>::empty());
    } else {
        let t = s.skip(1);
        assert(t[i - 1] == '\n');
        assert(forall|j: int| 0 <= j < i - 1 ==> t[j] != '\n');
        lemma_split_at_newline(t, i - 1);
        lemma_split_len(t.skip(i));
        assert(spec_split(t)[0] == t.take(i - 1));
        assert(seq![s[0]] + t.take(i - 1) =~= s.take(i));
        assert(spec_split(t).skip(1) =~~= spec_split(t.skip(i)));
        assert(t.skip(i) =~= s.skip(i + 1));
    }
}

/// The views of a vector of character vectors.
pub open spec fn views_of(vs: Seq<Vec<char>>) -> Seq<Seq<char>> {
    vs.map_values(|l: Vec<char>| l@)
}

/// `v` split on newline characters.
fn split_lines(v: &Vec<char>) -> (r: Vec<Vec<char>>)
    ensures
        views_of(r@) == spec_split(v@),
{
    let n = v.len();
    let mut pieces: Vec<Vec<char>> = Vec::new();
    let mut pos: usize = 0;
    let mut done: bool = false;
    proof {
        assert(v@.skip(0) =~= v@);
        assert(views_of(pieces@) + spec_split(v@) =~~= spec_split(v@));
    }
    while !done
        invariant
            pos <= n,
            n == v@.len(),
            !done ==> spec_split(v@) =~~= views_of(pieces@) + spec_split(v@.skip(pos as int)),
            done ==> spec_split(v@) =~~= views_of(pieces@),
        decreases n - pos, (if done { 0int } else { 1int }),
    {
        let mut j: usize = pos;
        while j < n && v[j] != '\n'
            invariant
                pos <= j <= n,
                n == v@.len(),
                forall|m: int| pos <= m < j ==> v@[m] != '\n',
            decreases n - j,
        {
            j = j + 1;
        }
        let piece = sub_chars(v, pos, j);
        let ghost rest = v@.skip(pos as int);
        if j < n {
            proof {
                assert(rest[j - pos] == '\n');
                assert(forall|m: int| 0 <= m < j - pos ==> rest[m] != '\n');
                lemma_split_at_newline(rest, j - pos);
                assert(rest.take(j - pos) =~= v@.subrange(pos as int, j as int));
                assert(rest.skip(j - pos + 1) =~= v@.skip(j + 1));
                assert(views_of(pieces@.push(piece)) =~~= views_of(pieces@) + seq![piece@]);
            }
            pieces.push(piece);
            pos = j + 1;
        } else {
            proof {
                assert(forall|m: int| 0 <= m < rest.len() ==> rest[m] != '\n');
                lemma_split_no_newline(rest);
                assert(rest =~= v@.subrange(pos as int, n as int));
                assert(views_of(pieces@.push(piece)) =~~= views_of(pieces@) + seq![piece@]);
            }
            pieces.push(piece);
            done = true;
        }
    }
    pieces
}

/// Each piece trimmed, blank pieces dropped.
pub open spec fn spec_clean_lines(ls: Seq<Seq<char>>) -> Seq<Seq<char>>
    decreases ls.len(),
{
    if ls.len() == 0 {
        Seq::<Seq<char>>::empty()
    } else {
        let t = spec_trim(ls[0]);
        (if t.len() > 0 {
            seq![t]
        } else {
            Seq::<Seq<char>>::empty()
        }) + spec_clean_lines(ls.skip(1))
    }
}

/// The non-blank trimmed lines of a text.
pub open spec fn spec_lines(content: Seq<char>) -> Seq<Seq<char>> {
    spec_clean_lines(spec_split(content))
}

/// The non-blank trimmed lines of `v`.
fn lines_of(v: &Vec<char>) -> (r: Vec<Vec<char>>)
    ensures
        views_of(r@) == spec_lines(v@),
{
    let pieces = split_lines(v);
    let mut lines: Vec<Vec<char>> = Vec::new();
    let mut i: usize = 0;
    let ghost pv = views_of(pieces@);
    proof {
        assert(pv.skip(0) =~~= pv);
        assert(views_of(lines@) + spec_clean_lines(pv) =~~= spec_clean_lines(pv));
    }
    while i < pieces.len()
        invariant
            i <= pieces@.len(),
            pv == views_of(pieces@),
            spec_clean_lines(pv) =~~= views_of(lines@) + spec_clean_lines(pv.skip(i as int)),
        decreases pieces@.len() - i,
    {
        let t = trim_chars(&pieces[i]);
        proof {
            assert(pv.skip(i as int)[0] == pv[i as int]);
            assert(pv.skip(i as int).skip(1) =~~= pv.skip(i + 1));
        }
        if t.len() > 0 {
            proof {
                assert(views_of(lines@.push(t)) =~~= views_of(lines@) + seq![t@]);
            }
            lines.push(t);
        }
        i = i + 1;
    }
    proof {
        assert(pv.skip(pieces@.len() as int) =~~= Seq::<Seq<char>>::empty());
    }
    lines
}

/// `s` with every occurrence of `pat` replaced by `rep`, scanning left to
/// right over non-overlapping occurrences.
pub open spec fn spec_replace(s: Seq<char>, pat: Seq<char>, rep: Seq<char>) -> Seq<char>
    decreases s.len(),
{
    if pat.len() == 0 || s.len() == 0 {
        s
    } else if pat.is_prefix_of(s) {
        rep + spec_replace(s.skip(pat.len() as int), pat, rep)
    } else {
        seq![s[0]] + spec_replace(s.skip(1), pat, rep)
    }
}

/// True when `pat` occurs in `v` at position `i`.
fn matches_at(v: &Vec<char>, i: usize, pat: &Vec<char>) -> (r: bool)
    requires
        i <= v@.len(),
    ensures
        r == pat@.is_prefix_of(v@.skip(i as int)),
{
    let pn = pat.len();
    let vn = v.len();
    if vn - i < pn {
        assert(!pat@.is_prefix_of(v@.skip(i as int)));
        return false;
    }
    let mut m: usize = 0;
    while m < pn
        invariant
            m <= pn,
            pn == pat@.len(),
            vn == v@.len(),
            i + pn <= vn,
            forall|q: int| 0 <= q < m ==> v@[i + q] == pat@[q],
        decreases pn - m,
    {
        if v[i + m] != pat[m] {
            assert(v@.skip(i as int)[m as int] != pat@[m as int]);
            assert(!pat@.is_prefix_of(v@.skip(i as int)));
            return false;
        }
        m = m + 1;
    }
    assert(v@.skip(i as int).take(pn as int) =~= pat@);
    true
}

/// `v` with every occurrence of `pat` replaced by `rep`.
fn replace_chars(v: &Vec<char>, pat: &Vec<char>, rep: &Vec<char>) -> (r: Vec<char>)
    requires
        pat@.len() > 0,
    ensures
        r@ == spec_replace(v@, pat@, rep@),
{
    let n = v.len();
    let mut out: Vec<char> = Vec::new();
    let mut i: usize = 0;
    proof {
        assert(v@.skip(0) =~= v@);
        assert(out@ + spec_replace(v@, pat@, rep@) =~= spec_replace(v@, pat@, rep@));
    }
    while i < n
        invariant
            i <= n,
            n == v@.len(),
            pat@.len() > 0,
            out@ + spec_replace(v@.skip(i as int), pat@, rep@) == spec_replace(v@, pat@, rep@),
        decreases n - i,
    {
        let ghost rest = v@.skip(i as int);
        if matches_at(v, i, pat) {
            let ghost out0 = out@;
            let mut q: usize = 0;
            while q < rep.len()
                invariant
                    q <= rep@.len(),
                    out@ == out0 + rep@.take(q as int),
                decreases rep@.len() - q,
            {
                proof {
                    assert(out0 + rep@.take(q + 1) =~= (out0 + rep@.take(q as int)).push(
                        rep@[q as int],
                    ));
                }
                out.push(rep[q]);
                q = q + 1;
            }
            proof {
                assert(rep@.take(rep@.len() as int) =~= rep@);
                assert(spec_replace(rest, pat@, rep@) == rep@ + spec_replace(
                    rest.skip(pat@.len() as int),
                    pat@,
                    rep@,
                ));
                assert(rest.skip(pat@.len() as int) =~= v@.skip(i + pat@.len()));
                assert((out0 + rep@) + spec_replace(v@.skip(i + pat@.len()), pat@, rep@) =~= out0
                    + (rep@ + spec_replace(rest.skip(pat@.len() as int), pat@, rep@)));
            }
            i = i + pat.len();
        } else {
            proof {
                assert(rest[0] == v@[i as int]);
                assert(spec_replace(rest, pat@, rep@) == seq![rest[0]] + spec_replace(
                    rest.skip(1),
                    pat@,
                    rep@,
                ));
                assert(rest.skip(1) =~= v@.skip(i + 1));
                assert(out@.push(v@[i as int]) + spec_replace(v@.skip(i + 1), pat@, rep@) =~= out@
                    + spec_replace(rest, pat@, rep@));
            }
            out.push(v[i]);
            i = i + 1;
        }
    }
    proof {
        assert(v@.skip(n as int) =~= Seq::<char>::empty());
        assert(out@ + Seq::<char>::empty() =~= out@);
    }
    out
}

/// `s` with the fixed set of HTML entities decoded, applied one entity at a
/// time in this order.
pub open spec fn spec_decode_entities(s: Seq<char>) -> Seq<char> {
    spec_replace(
        spec_replace(
            spec_replace(
                spec_replace(
                    spec_replace(spec_replace(s, "&nbsp;"@, " "@), "&amp;"@, "&"@),
                    "&lt;"@,
                    "<"@,
                ),
                "&gt;"@,
                ">"@,
            ),
            "&quot;"@,
            "\""@,
        ),
        "&#39;"@,
        "'"@,
    )
}

/// `v` with the fixed set of HTML entities decoded.
fn decode_entities_chars(v: &Vec<char>) -> (r: Vec<char>)
    ensures
        r@ == spec_decode_entities(v@),
{
    proof {
        reveal_strlit("&nbsp;");
        reveal_strlit("&amp;");
        reveal_strlit("&lt;");
        reveal_strlit("&gt;");
        reveal_strlit("&quot;");
        reveal_strlit("&#39;");
    }
    let r1 = replace_chars(v, &chars_of("&nbsp;"), &chars_of(" "));
    let r2 = replace_chars(&r1, &chars_of("&amp;"), &chars_of("&"));
    let r3 = replace_chars(&r2, &chars_of("&lt;"), &chars_of("<"));
    let r4 = replace_chars(&r3, &chars_of("&gt;"), &chars_of(">"));
    let r5 = replace_chars(&r4, &chars_of("&quot;"), &chars_of("\""));
    replace_chars(&r5, &chars_of("&#39;"), &chars_of("'"))
}

/// The markdown characters a backslash can escape.
pub open spec fn spec_is_escapable(c: char) -> bool {
    ||| c == '\\'
    ||| c == '`'
    ||| c == '*'
    ||| c == '_'
    ||| c == '{'
    ||| c == '}'
    ||| c == '['
    ||| c == ']'
    ||| c == '('
    ||| c == ')'
    ||| c == '#'
    ||| c == '+'
    ||| c == '-'
    ||| c == '.'
    ||| c == '!'
    ||| c == '>'
    ||| c == '~'
    ||| c == '|'
}

fn is_escapable(c: char) -> (r: bool)
    ensures
        r == spec_is_escapable(c),
{
    c == '\\' || c == '`' || c == '*' || c == '_' || c == '{' || c == '}' || c == '[' || c == ']'
        || c == '(' || c == ')' || c == '#' || c == '+' || c == '-' || c == '.' || c == '!'
        || c == '>' || c == '~' || c == '|'
}

/// `s` with each backslash escape of a markdown character reduced to the
/// character itself.
pub open spec fn spec_strip_escapes(s: Seq<char>) -> Seq<char>
    decreases s.len(),
{
    if s.len() == 0 {
        s
    } else if s[0] == '\\' && s.len() >= 2 && spec_is_escapable(s[1]) {
        seq![s[1]] + spec_strip_escapes(s.skip(2))
    } else {
        seq![s[0]] + spec_strip_escapes(s.skip(1))
    }
}

/// `v` with backslash escapes reduced.
fn strip_escapes_chars(v: &Vec<char>) -> (r: Vec<char>)
    ensures
        r@ == spec_strip_escapes(v@),
{
    let n = v.len();
    let mut out: Vec<char> = Vec::new();
    let mut i: usize = 0;
    proof {
        assert(v@.skip(0) =~= v@);
        assert(out@ + spec_strip_escapes(v@) =~= spec_strip_escapes(v@));
    }
    while i < n
        invariant
            i <= n,
            n == v@.len(),
            out@ + spec_strip_escapes(v@.skip(i as int)) == spec_strip_escapes(v@),
        decreases n - i,
    {
        let ghost rest = v@.skip(i as int);
        proof {
            assert(rest[0] == v@[i as int]);
        }
        if v[i] == '\\' && i + 1 < n && is_escapable(v[i + 1]) {
            proof {
                assert(rest[1] == v@[i + 1]);
                assert(rest.skip(2) =~= v@.skip(i + 2));
                assert(out@.push(v@[i + 1]) + spec_strip_escapes(v@.skip(i + 2)) =~= out@ + (seq![
                    rest[1],
                ] + spec_strip_escapes(rest.skip(2))));
            }
            out.push(v[i + 1]);
            i = i + 2;
        } else {
            proof {
                assert(rest.skip(1) =~= v@.skip(i + 1));
                assert(out@.push(v@[i as int]) + spec_strip_escapes(v@.skip(i + 1)) =~= out@ + (seq![
                    rest[0],
                ] + spec_strip_escapes(rest.skip(1))));
            }
            out.push(v[i]);
            i = i + 1;
        }
    }
    proof {
        assert(v@.skip(n as int) =~= Seq::<char>::empty());
        assert(out@ + Seq::<char>::empty() =~= out@);
    }
    out
}

/// The markers stripped from the head of a line: heading, list and quote
/// characters.
pub open spec fn spec_is_marker(c: char) -> bool {
    c == '#' || c == '-' || c == '>' || c == '*'
}

fn is_marker(c: char) -> (r: bool)
    ensures
        r == spec_is_marker(c),
{
    c == '#' || c == '-' || c == '>' || c == '*'
}

/// `s` with every leading marker character removed.
pub open spec fn spec_drop_markers(s: Seq<char>) -> Seq<char>
    decreases s.len(),
{
    if s.len() > 0 && spec_is_marker(s[0]) {
        spec_drop_markers(s.skip(1))
    } else {
        s
    }
}

proof fn lemma_drop_markers_skip(s: Seq<char>, a: int)
    requires
        0 <= a <= s.len(),
        forall|j: int| 0 <= j < a ==> spec_is_marker(s[j]),
        a == s.len() || !spec_is_marker(s[a]),
    ensures
        spec_drop_markers(s) == s.skip(a),
    decreases a,
{
    if a == 0 {
        assert(s.skip(0) =~= s);
    } else {
        let t = s.skip(1);
        assert(forall|j: int| 0 <= j < a - 1 ==> spec_is_marker(t[j]));
        lemma_drop_markers_skip(t, a - 1);
        assert(t.skip(a - 1) =~= s.skip(a));
    }
}

/// A line with markdown heading, list and quote markers removed from its
/// head; a line whose first marker is escaped keeps the marker.
pub open spec fn spec_sanitize_heading(line: Seq<char>) -> Seq<char> {
    let t = spec_trim_start(line);
    if t.len() >= 2 && t[0] == '\\' && spec_is_marker(t[1]) {
        spec_trim(t.skip(1))
    } else {
        spec_trim(spec_drop_markers(t))
    }
}

/// `v` with leading markdown markers removed as `spec_sanitize_heading` says.
fn sanitize_heading_chars(v: &Vec<char>) -> (r: Vec<char>)
    ensures
        r@ == spec_sanitize_heading(v@),
{
    let t = trim_start_chars(v);
    if t.len() >= 2 && t[0] == '\\' && is_marker(t[1]) {
        let rest = sub_chars(&t, 1, t.len());
        proof {
            assert(rest@ =~= t@.skip(1));
        }
        trim_chars(&rest)
    } else {
        let n = t.len();
        let mut a: usize = 0;
        while a < n && is_marker(t[a])
            invariant
                a <= n,
                n == t@.len(),
                forall|j: int| 0 <= j < a ==> spec_is_marker(t@[j]),
            decreases n - a,
        {
            a = a + 1;
        }
        proof {
            lemma_drop_markers_skip(t@, a as int);
            assert(t@.skip(a as int) =~= t@.subrange(a as int, n as int));
        }
        let d = sub_chars(&t, a, n);
        trim_chars(&d)
    }
}

/// Runs of white space collapsed to single spaces; `pending` records a run in
/// progress, `started` that a word was already emitted.
pub open spec fn spec_compact_go(s: Seq<char>, pending: bool, started: bool) -> Seq<char>
    decreases s.len(),
{
    if s.len() == 0 {
        Seq::<char>::empty()
    } else if spec_is_space(s[0]) {
        spec_compact_go(s.skip(1), true, started)
    } else {
        (if pending && started {
            seq![' ']
        } else {
            Seq::<char>::empty()
        }) + seq![s[0]] + spec_compact_go(s.skip(1), false, true)
    }
}

/// `s` with its words joined by single spaces.
pub open spec fn spec_compact(s: Seq<char>) -> Seq<char> {
    spec_compact_go(s, false, false)
}

/// `v` with its words joined by single spaces.
fn compact_chars(v: &Vec<char>) -> (r: Vec<char>)
    ensures
        r@ == spec_compact(v@),
{
    let n = v.len();
    let mut out: Vec<char> = Vec::new();
    let mut pending: bool = false;
    let mut started: bool = false;
    let mut i: usize = 0;
    proof {
        assert(v@.skip(0) =~= v@);
        assert(out@ + spec_compact(v@) =~= spec_compact(v@));
    }
    while i < n
        invariant
            i <= n,
            n == v@.len(),
            out@ + spec_compact_go(v@.skip(i as int), pending, started) == spec_compact(v@),
        decreases n - i,
    {
        let ghost rest = v@.skip(i as int);
        proof {
            assert(rest[0] == v@[i as int]);
            assert(rest.skip(1) =~= v@.skip(i + 1));
        }
        if is_space(v[i]) {
            pending = true;
        } else {
            if pending && started {
                proof {
                    assert(out@.push(' ').push(v@[i as int]) + spec_compact_go(
                        v@.skip(i + 1),
                        false,
                        true,
                    ) =~= out@ + (seq![' '] + seq![rest[0]] + spec_compact_go(
                        rest.skip(1),
                        false,
                        true,
                    )));
                }
                out.push(' ');
                out.push(v[i]);
            } else {
                proof {
                    assert(out@.push(v@[i as int]) + spec_compact_go(v@.skip(i + 1), false, true)
                        =~= out@ + (Seq::<char>::empty() + seq![rest[0]] + spec_compact_go(
                        rest.skip(1),
                        false,
                        true,
                    )));
                }
                out.push(v[i]);
            }
            pending = false;
            started = true;
        }
        i = i + 1;
    }
    proof {
        assert(v@.skip(n as int) =~= Seq::<char>::empty());
        assert(out@ + Seq::<char>::empty() =~= out@);
    }
    out
}

/// A line fully cleaned: markers stripped, escapes reduced, entities decoded,
/// then trimmed.
pub open spec fn spec_clean(line: Seq<char>) -> Seq<char> {
    spec_trim(spec_decode_entities(spec_strip_escapes(spec_sanitize_heading(line))))
}

/// `v` fully cleaned as `spec_clean` says.
fn clean_chars(v: &Vec<char>) -> (r: Vec<char>)
    ensures
        r@ == spec_clean(v@),
{
    let s = sanitize_heading_chars(v);
    let e = strip_escapes_chars(&s);
    let d = decode_entities_chars(&e);
    trim_chars(&d)
}

/// Strips markdown heading, list and quote markers from the head of a line;
/// a line whose first marker is escaped keeps the marker.
pub fn sanitize_heading(line: &str) -> (r: String)
    ensures
        r@ == spec_sanitize_heading(line@),
{
    let v = chars_of(line);
    let t = sanitize_heading_chars(&v);
    string_from_chars(&t)
}

/// Decodes the fixed set of HTML entities.
pub fn decode_entities(s: &str) -> (r: String)
    ensures
        r@ == spec_decode_entities(s@),
{
    let v = chars_of(s);
    let t = decode_entities_chars(&v);
    string_from_chars(&t)
}

/// Reduces each backslash escape of a markdown character to the character.
pub fn strip_escapes(s: &str) -> (r: String)
    ensures
        r@ == spec_strip_escapes(s@),
{
    let v = chars_of(s);
    let t = strip_escapes_chars(&v);
    string_from_chars(&t)
}

/// Cleans a line: markers stripped, escapes reduced, entities decoded, then
/// trimmed.
pub fn clean(line: &str) -> (r: String)
    ensures
        r@ == spec_clean(line@),
{
    let v = chars_of(line);
    let t = clean_chars(&v);
    string_from_chars(&t)
}

/// Joins the words of `s` with single spaces.
pub fn compact_whitespace(s: String) -> (r: String)
    ensures
        r@ == spec_compact(s@),
{
    let v = chars_of(s.as_str());
    let t = compact_chars(&v);
    string_from_chars(&t)
}

/// The first line whose cleaned form is non-empty; an empty sequence when
/// there is none.
pub open spec fn first_title_line(lines: Seq<Seq<char>>) -> Seq<char>
    decreases lines.len(),
{
    if lines.len() == 0 {
        Seq::<char>::empty()
    } else if spec_clean(lines[0]).len() > 0 {
        lines[0]
    } else {
        first_title_line(lines.skip(1))
    }
}

/// The first line, other than the title line, whose cleaned form is
/// non-empty; the title line itself when there is none.
pub open spec fn first_preview_line(lines: Seq<Seq<char>>, title_line: Seq<char>) -> Seq<char>
    decreases lines.len(),
{
    if lines.len() == 0 {
        title_line
    } else if lines[0] != title_line && spec_clean(lines[0]).len() > 0 {
        lines[0]
    } else {
        first_preview_line(lines.skip(1), title_line)
    }
}

/// The derived title: the cleaned first meaningful line truncated to 80
/// bytes, or the fixed placeholder when no line survives cleaning.
pub open spec fn spec_derive_title(content: Seq<char>) -> Seq<char> {
    let lines = spec_lines(content);
    let traw = spec_clean(first_title_line(lines));
    if traw.len() == 0 {
        "New note"@
    } else {
        spec_truncate(traw, 80)
    }
}

/// The derived preview: the cleaned and compacted first meaningful line after
/// the title line, truncated to 140 bytes; it falls back to the title line.
pub open spec fn spec_derive_preview(content: Seq<char>) -> Seq<char> {
    let lines = spec_lines(content);
    let title_line = first_title_line(lines);
    spec_truncate(spec_compact(spec_clean(first_preview_line(lines, title_line))), 140)
}

pub proof fn lemma_byte_len_le(s: Seq<char>)
    ensures
        byte_len(s) <= 4 * s.len(),
    decreases s.len(),
{
    if s.len() > 0 {
        lemma_byte_len_le(s.drop_last());
    }
}

/// The derived title never exceeds 80 UTF-8 bytes.
pub proof fn lemma_title_bound(content: Seq<char>)
    ensures
        byte_len(spec_derive_title(content)) <= 80,
{
    let lines = spec_lines(content);
    let traw = spec_clean(first_title_line(lines));
    if traw.len() == 0 {
        reveal_strlit("New note");
        lemma_byte_len_le("New note"@);
    } else {
        lemma_truncate_bound(traw, 80);
    }
}

/// The derived preview never exceeds 140 UTF-8 bytes.
pub proof fn lemma_preview_bound(content: Seq<char>)
    ensures
        byte_len(spec_derive_preview(content)) <= 140,
{
    let lines = spec_lines(content);
    let title_line = first_title_line(lines);
    lemma_truncate_bound(spec_compact(spec_clean(first_preview_line(lines, title_line))), 140);
}

/// Derivation is idempotent on already-clean single-line input: a non-blank
/// single line that cleaning, trimming and compaction leave unchanged, and
/// that fits the title ceiling, comes back unchanged as both title and
/// preview — so deriving again reproduces it.
pub proof fn lemma_derive_idempotent_on_clean(t: Seq<char>)
    requires
        t.len() > 0,
        forall|j: int| 0 <= j < t.len() ==> t[j] != '\n',
        spec_trim(t) == t,
        spec_clean(t) == t,
        spec_compact(t) == t,
        byte_len(t) <= 80,
    ensures
        spec_derive_title(t) == t,
        spec_derive_preview(t) == t,
{
    lemma_split_no_newline(t);
    assert(spec_split(t) == seq![t]);
    let lines = spec_lines(t);
    assert(seq![t].skip(1) =~~= Seq::<Seq<char>>::empty());
    assert(spec_clean_lines(Seq::<Seq<char>>::empty()) =~~= Seq::<Seq<char>>::empty());
    assert(spec_clean_lines(seq![t]) =~~= seq![t] + Seq::<Seq<char>>::empty());
    assert(seq![t] + Seq::<Seq<char>>::empty() =~~= seq![t]);
    assert(lines =~~= seq![t]);
    assert(lines[0] == t);
    assert(first_title_line(lines) == t);
    assert(spec_truncate(t, 80) == t);
    assert(first_preview_line(lines.skip(1), t) == t);
    assert(first_preview_line(lines, t) == t);
    assert(spec_truncate(t, 140) == t);
}

/// Computes a display title and a preview snippet from raw note text.
pub fn derive_title_preview(content: &str) -> (r: (String, String))
    ensures
        r.0@ == spec_derive_title(content@),
        r.1@ == spec_derive_preview(content@),
        byte_len(r.0@) <= 80,
        byte_len(r.1@) <= 140,
{
    let cs = chars_of(content);
    let lines = lines_of(&cs);
    let ghost lv = views_of(lines@);
    let n = lines.len();

    let mut ti: usize = 0;
    let mut title_found: bool = false;
    proof {
        assert(lv.skip(0) =~~= lv);
    }
    while !title_found && ti < n
        invariant
            ti <= n,
            n == lines@.len(),
            lv == views_of(lines@),
            first_title_line(lv) == first_title_line(lv.skip(ti as int)),
            title_found ==> ti < n && spec_clean(lv[ti as int]).len() > 0 && first_title_line(lv)
                == lv[ti as int],
        decreases n - ti, (if title_found { 0int } else { 1int }),
    {
        let cl = clean_chars(&lines[ti]);
        proof {
            assert(lv.skip(ti as int)[0] == lv[ti as int]);
            assert(lv.skip(ti as int).skip(1) =~~= lv.skip(ti + 1));
        }
        if cl.len() > 0 {
            title_found = true;
        } else {
            ti = ti + 1;
        }
    }
    let title_line: Vec<char> = if title_found {
        sub_chars(&lines[ti], 0, lines[ti].len())
    } else {
        proof {
            assert(lv.skip(n as int) =~~= Seq::<Seq<char>>::empty());
        }
        Vec::new()
    };
    proof {
        assert(title_line@ =~= first_title_line(lv));
    }
    let title_raw = clean_chars(&title_line);
    let title: String = if title_raw.len() == 0 {
        String::from_str("New note")
    } else {
        let t = truncate_chars(&title_raw, 80);
        string_from_chars(&t)
    };

    let mut pi: usize = 0;
    let mut prev_found: bool = false;
    proof {
        assert(lv.skip(0) =~~= lv);
    }
    while !prev_found && pi < n
        invariant
            pi <= n,
            n == lines@.len(),
            lv == views_of(lines@),
            first_preview_line(lv, title_line@) == first_preview_line(
                lv.skip(pi as int),
                title_line@,
            ),
            prev_found ==> pi < n && first_preview_line(lv, title_line@) == lv[pi as int],
        decreases n - pi, (if prev_found { 0int } else { 1int }),
    {
        proof {
            assert(lv.skip(pi as int)[0] == lv[pi as int]);
            assert(lv.skip(pi as int).skip(1) =~~= lv.skip(pi + 1));
        }
        let differs = !chars_eq(&lines[pi], &title_line);
        if differs {
            let cl = clean_chars(&lines[pi]);
            if cl.len() > 0 {
                prev_found = true;
            } else {
                pi = pi + 1;
            }
        } else {
            pi = pi + 1;
        }
    }
    let preview_line: Vec<char> = if prev_found {
        sub_chars(&lines[pi], 0, lines[pi].len())
    } else {
        proof {
            assert(lv.skip(n as int) =~~= Seq::<Seq<char>>::empty());
        }
        title_line
    };
    proof {
        assert(preview_line@ =~= first_preview_line(lv, first_title_line(lv)));
    }
    let pc = clean_chars(&preview_line);
    let pcc = compact_chars(&pc);
    let pt = truncate_chars(&pcc, 140);
    let preview = string_from_chars(&pt);
    proof {
        lemma_title_bound(content@);
        lemma_preview_bound(content@);
    }
    (title, preview)
}

} // verus!
