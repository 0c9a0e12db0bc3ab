//! Text as it appears in reports: numbers, padding, and file names.
//!
//! The functions that build text append to a `String`; each states what it appends.
use vstd::prelude::*;
use vstd::utf8::{decode_utf8, encode_utf8, is_ascii_chars, valid_utf8};

use crate::paths::FsPath;

verus! {

/// `String::push` appends one character.
pub assume_specification[ String::push ](s: &mut String, c: char)
    ensures
        final(s)@ == old(s)@.push(c),
;

/// The text that stands for a byte string in a message: UTF-8 text stands for itself, and bytes
/// that are not UTF-8 are shown as replacement characters.
pub uninterp spec fn utf8_lossy(bytes: Seq<u8>) -> Seq<char>;

/// `String::from_utf8_lossy`, taken into an owned string. The result depends on the bytes alone,
/// and valid UTF-8 comes back as the text that it encodes.
#[verifier::external_body]
pub(crate) fn text_of_bytes(bytes: &[u8]) -> (r: String)
    ensures
        r@ == utf8_lossy(bytes@),
        valid_utf8(bytes@) ==> r@ == decode_utf8(bytes@),
{
    String::from_utf8_lossy(bytes).into_owned()
}

/// The text in lower case.
pub uninterp spec fn lowercase(text: Seq<char>) -> Seq<char>;

/// A letter of the English alphabet in lower case; any other character as it is.
pub open spec fn plain_lower(c: char) -> char {
    if 'A' <= c <= 'Z' {
        ((c as u32) + 32) as char
    } else {
        c
    }
}

/// `str::to_lowercase`. The result depends on the text alone, and in a text of ASCII characters the
/// letters `A` to `Z` become `a` to `z` and nothing else changes. What becomes of other characters
/// is Unicode's table, and not stated.
#[verifier::external_body]
pub(crate) fn to_lower(text: &str) -> (r: String)
    ensures
        r@ == lowercase(text@),
        is_ascii_chars(text@) ==> r@ == Seq::new(text@.len(), |i: int| plain_lower(text@[i])),
{
    text.to_lowercase()
}

/// Appends a path as it is spelled.
pub fn push_spelled(out: &mut String, p: &FsPath)
    ensures
        final(out)@ == old(out)@ + utf8_lossy(p.spelled()),
{
    let b = p.spelling();
    let t = text_of_bytes(b.as_slice());
    out.append(t.as_str());
}

/// A path as it is spelled.
pub fn show_spelled(p: &FsPath) -> (r: String)
    ensures
        r@ == utf8_lossy(p.spelled()),
{
    let b = p.spelling();
    text_of_bytes(b.as_slice())
}

/// The character of a digit below sixteen.
pub open spec fn digit(d: int) -> char {
    if d < 10 {
        (48 + d) as char
    } else {
        (87 + d) as char
    }
}

/// A number in the given base, most significant digit first and without leading zeros.
pub open spec fn in_base(n: nat, base: nat) -> Seq<char>
    decreases n,
{
    if base < 2 || n < base {
        seq![digit(n as int)]
    } else {
        proof {
            assert(n / base < n) by (nonlinear_arith)
                requires
                    n >= base,
                    base >= 2,
            ;
        }
        in_base(n / base, base).push(digit((n % base) as int))
    }
}

/// A number in decimal.
pub open spec fn dec(n: nat) -> Seq<char> {
    in_base(n, 10)
}

/// `k` times the same character.
pub open spec fn run_of(c: char, k: int) -> Seq<char> {
    Seq::new(if k < 0 { 0 } else { k as nat }, |i: int| c)
}

/// `s` filled with spaces on the right up to `width` characters.
pub open spec fn left_aligned(s: Seq<char>, width: int) -> Seq<char> {
    s + run_of(' ', width - s.len())
}

/// `s` filled with spaces on the left up to `width` characters.
pub open spec fn right_aligned(s: Seq<char>, width: int) -> Seq<char> {
    run_of(' ', width - s.len()) + s
}

/// `s` filled with zeros on the left up to `width` characters.
pub open spec fn zero_filled(s: Seq<char>, width: int) -> Seq<char> {
    run_of('0', width - s.len()) + s
}

/// A number with its sign, which a zero carries as `+`.
pub open spec fn signed_dec(n: int) -> Seq<char> {
    if n < 0 {
        seq!['-'] + dec((-n) as nat)
    } else {
        seq!['+'] + dec(n as nat)
    }
}

/// Texts joined, in order.
pub open spec fn texts_view(v: Seq<String>) -> Seq<Seq<char>> {
    Seq::new(v.len(), |i: int| v[i]@)
}

/// The value of an optional text.
pub open spec fn opt_text(t: Option<String>) -> Option<Seq<char>> {
    match t {
        Some(x) => Some(x@),
        None => None,
    }
}

/// `out` with a line, or whatever `put` appends, for each of the first `n` items.
pub open spec fn put_each<T>(
    out: Seq<char>,
    items: Seq<T>,
    n: int,
    put: spec_fn(Seq<char>, T) -> Seq<char>,
) -> Seq<char>
    decreases n,
{
    if n <= 0 {
        out
    } else {
        put(put_each(out, items, n - 1, put), items[n - 1])
    }
}

/// `out` with what `put` appends for each item.
pub open spec fn put_all<T>(
    out: Seq<char>,
    items: Seq<T>,
    put: spec_fn(Seq<char>, T) -> Seq<char>,
) -> Seq<char> {
    put_each(out, items, items.len() as int, put)
}

pub(crate) fn digit_char(d: u8) -> (c: char)
    requires
        d < 16,
    ensures
        c == digit(d as int),
{
    if d < 10 {
        (48u8 + d) as char
    } else {
        (87u8 + d) as char
    }
}

/// Appends a number in base `base`.
pub fn push_in_base(out: &mut String, n: u64, base: u64)
    requires
        2 <= base <= 16,
    ensures
        final(out)@ == old(out)@ + in_base(n as nat, base as nat),
    decreases n,
{
    let ghost start = out@;
    if n >= base {
        assert(n / base < n) by (nonlinear_arith)
            requires
                n >= base,
                base >= 2,
        ;
        push_in_base(out, n / base, base);
        assert(n % base < base) by (nonlinear_arith)
            requires
                base >= 2,
        ;
        out.push(digit_char((n % base) as u8));
        assert(out@ =~= start + in_base(n as nat, base as nat));
    } else {
        out.push(digit_char(n as u8));
        assert(out@ =~= start + in_base(n as nat, base as nat));
    }
}

/// Appends a number in decimal.
pub fn push_dec(out: &mut String, n: u64)
    ensures
        final(out)@ == old(out)@ + dec(n as nat),
{
    push_in_base(out, n, 10);
}

/// A number in decimal.
pub fn dec_text(n: u64) -> (r: String)
    ensures
        r@ == dec(n as nat),
{
    let mut s = String::new();
    push_dec(&mut s, n);
    assert(s@ =~= dec(n as nat));
    s
}

/// Appends `k` times the character `c`.
pub fn push_run(out: &mut String, c: char, k: usize)
    ensures
        final(out)@ == old(out)@ + run_of(c, k as int),
{
    let ghost start = out@;
    let mut i: usize = 0;
    assert(out@ =~= start + run_of(c, 0));
    while i < k
        invariant
            0 <= i <= k,
            out@ == start + run_of(c, i as int),
        decreases k - i,
    {
        out.push(c);
        i = i + 1;
        assert(out@ =~= start + run_of(c, i as int));
    }
}

/// Appends `s` filled with spaces on the right up to `width` characters.
pub fn push_left(out: &mut String, s: &str, width: usize)
    ensures
        final(out)@ == old(out)@ + left_aligned(s@, width as int),
{
    let ghost start = out@;
    let n: usize = s.unicode_len();
    out.append(s);
    if n < width {
        push_run(out, ' ', width - n);
    }
    assert(out@ =~= start + left_aligned(s@, width as int));
}

/// Appends `s` filled on the left with `c` up to `width` characters.
fn push_filled(out: &mut String, s: &str, c: char, width: usize)
    ensures
        final(out)@ == old(out)@ + (run_of(c, width - s@.len()) + s@),
{
    let ghost start = out@;
    let n: usize = s.unicode_len();
    if n < width {
        push_run(out, c, width - n);
    }
    out.append(s);
    assert(out@ =~= start + (run_of(c, width - s@.len()) + s@));
}

/// Appends `s` filled with spaces on the left up to `width` characters.
pub fn push_right(out: &mut String, s: &str, width: usize)
    ensures
        final(out)@ == old(out)@ + right_aligned(s@, width as int),
{
    push_filled(out, s, ' ', width);
}

/// Appends a number in base `base`, filled with zeros up to `width` digits.
pub fn push_zero_filled(out: &mut String, n: u64, base: u64, width: usize)
    requires
        2 <= base <= 16,
    ensures
        final(out)@ == old(out)@ + zero_filled(in_base(n as nat, base as nat), width as int),
{
    let mut s = String::new();
    push_in_base(&mut s, n, base);
    assert(s@ =~= in_base(n as nat, base as nat));
    push_filled(out, s.as_str(), '0', width);
}

/// Appends a number with its sign.
pub fn push_signed(out: &mut String, n: i64)
    ensures
        final(out)@ == old(out)@ + signed_dec(n as int),
{
    let ghost start = out@;
    if n < 0 {
        out.push('-');
        let m: u64 = (-(n as i128)) as u64;
        push_dec(out, m);
    } else {
        out.push('+');
        push_dec(out, n as u64);
    }
    assert(out@ =~= start + signed_dec(n as int));
}

/// Two texts are the same.
pub fn text_same(a: &str, b: &str) -> (r: bool)
    ensures
        r == (a@ == b@),
{
    let x: String = String::from_str(a);
    let y: String = String::from_str(b);
    x == y
}

/// A fresh copy of a list of texts.
pub fn copy_texts(v: &Vec<String>) -> (r: Vec<String>)
    ensures
        texts_view(r@) == texts_view(v@),
{
    let mut out: Vec<String> = Vec::new();
    let mut i: usize = 0;
    while i < v.len()
        invariant
            0 <= i <= v@.len(),
            out@.len() == i,
            forall|k: int| 0 <= k < i ==> #[trigger] out@[k]@ == v@[k]@,
        decreases v@.len() - i,
    {
        out.push(v[i].clone());
        i = i + 1;
    }
    assert(texts_view(out@) =~= texts_view(v@));
    out
}

pub proof fn lemma_texts_push(v: Seq<String>, x: String)
    ensures
        texts_view(v.push(x)) == texts_view(v).push(x@),
{
    assert(texts_view(v.push(x)) =~= texts_view(v).push(x@));
}

pub proof fn lemma_texts_add(a: Seq<String>, b: Seq<String>)
    ensures
        texts_view(a + b) == texts_view(a) + texts_view(b),
{
    assert(texts_view(a + b) =~= texts_view(a) + texts_view(b));
}

/// Appends a text to a list.
pub fn add_text(v: &mut Vec<String>, t: String)
    ensures
        texts_view(final(v)@) == texts_view(old(v)@).push(t@),
{
    proof {
        lemma_texts_push(v@, t);
    }
    v.push(t);
}

/// `pat` occurs in `text`.
pub open spec fn mentions(text: Seq<char>, pat: Seq<char>) -> bool {
    exists|k: int|
        0 <= k <= encode_utf8(text).len() - encode_utf8(pat).len() && #[trigger] encode_utf8(text).subrange(
            k,
            k + encode_utf8(pat).len(),
        ) == encode_utf8(pat)
}

/// Some of the texts mentions `pat`.
pub open spec fn any_mentions(texts: Seq<Seq<char>>, pat: Seq<char>) -> bool {
    exists|i: int| 0 <= i < texts.len() && mentions(#[trigger] texts[i], pat)
}

/// Whether `pat` occurs in `text`.
pub fn contains_text(text: &str, pat: &str) -> (r: bool)
    ensures
        r == mentions(text@, pat@),
{
    let b = text.as_bytes();
    let p = pat.as_bytes();
    let n: usize = b.len();
    let m: usize = p.len();
    assert(b@.len() == n && p@.len() == m);
    if m > n {
        return false;
    }
    let mut k: usize = 0;
    while k <= n - m
        invariant
            n == b@.len(),
            m == p@.len(),
            m <= n,
            b@ == encode_utf8(text@),
            p@ == encode_utf8(pat@),
            0 <= k <= n - m + 1,
            forall|j: int| 0 <= j < k ==> #[trigger] b@.subrange(j, j + m) != p@,
        decreases n - m + 1 - k,
    {
        let mut i: usize = 0;
        while i < m && b[k + i] == p[i]
            invariant
                n == b@.len(),
                m == p@.len(),
                m <= n,
                k <= n - m,
                0 <= i <= m,
                forall|j: int| 0 <= j < i ==> b@[k + j] == p@[j],
            decreases m - i,
        {
            i = i + 1;
        }
        if i == m {
            assert(b@.subrange(k as int, k + m) =~= p@);
            return true;
        }
        assert(b@.subrange(k as int, k + m)[i as int] != p@[i as int]);
        k = k + 1;
    }
    false
}

/// Whether some of the texts mentions `pat`.
pub fn any_contains(texts: &Vec<String>, pat: &str) -> (r: bool)
    ensures
        r == any_mentions(texts_view(texts@), pat@),
{
    let ghost ts = texts_view(texts@);
    let mut i: usize = 0;
    while i < texts.len()
        invariant
            ts == texts_view(texts@),
            0 <= i <= texts@.len(),
            forall|k: int| 0 <= k < i ==> !mentions(#[trigger] ts[k], pat@),
        decreases texts@.len() - i,
    {
        assert(ts[i as int] == texts@[i as int]@);
        if contains_text(texts[i].as_str(), pat) {
            return true;
        }
        i = i + 1;
    }
    false
}

// ── white space ──────────────────────────────────────────────────────────────

/// The character is white space, in the sense of Unicode.
pub uninterp spec fn whitespace(c: char) -> bool;

/// White space among the ASCII characters: the tab, the line breaks and the space.
pub open spec fn plain_space(c: char) -> bool {
    c == ' ' || 9 <= (c as u32) <= 13
}

/// `char::is_whitespace`. The result depends on the character alone; of the ASCII characters, the
/// tab, the line breaks and the space are white space and no others. Which other characters are is
/// Unicode's table, and not stated.
#[verifier::external_body]
pub(crate) fn is_whitespace(c: char) -> (r: bool)
    ensures
        r == whitespace(c),
        (c as u32) < 128 ==> r == plain_space(c),
{
    c.is_whitespace()
}

/// The text without white space at either end.
pub open spec fn trimmed(s: Seq<char>) -> Seq<char>
    decreases s.len(),
{
    if s.len() > 0 && whitespace(s[0]) {
        trimmed(s.subrange(1, s.len() as int))
    } else if s.len() > 0 && whitespace(s.last()) {
        trimmed(s.drop_last())
    } else {
        s
    }
}

/// An ASCII text without white space at either end.
pub open spec fn plain_trim(s: Seq<char>) -> Seq<char>
    decreases s.len(),
{
    if s.len() > 0 && plain_space(s[0]) {
        plain_trim(s.subrange(1, s.len() as int))
    } else if s.len() > 0 && plain_space(s.last()) {
        plain_trim(s.drop_last())
    } else {
        s
    }
}

/// The text without white space at either end.
pub fn trim(s: &str) -> (r: String)
    ensures
        r@ == trimmed(s@),
        is_ascii_chars(s@) ==> r@ == plain_trim(s@),
{
    let n: usize = s.unicode_len();
    let mut a: usize = 0;
    assert(s@.subrange(0, n as int) =~= s@);
    while a < n && is_whitespace(s.get_char(a))
        invariant
            n == s@.len(),
            0 <= a <= n,
            trimmed(s@) == trimmed(s@.subrange(a as int, n as int)),
            is_ascii_chars(s@) ==> plain_trim(s@) == plain_trim(s@.subrange(a as int, n as int)),
        ensures
            n == s@.len(),
            0 <= a <= n,
            trimmed(s@) == trimmed(s@.subrange(a as int, n as int)),
            is_ascii_chars(s@) ==> plain_trim(s@) == plain_trim(s@.subrange(a as int, n as int)),
            a < n ==> !whitespace(s@[a as int]),
            a < n && is_ascii_chars(s@) ==> !plain_space(s@[a as int]),
        decreases n - a,
    {
        let ghost t = s@.subrange(a as int, n as int);
        assert(t[0] == s@[a as int]);
        assert(t.subrange(1, t.len() as int) =~= s@.subrange(a + 1, n as int));
        a = a + 1;
    }
    let mut b: usize = n;
    while a < b && is_whitespace(s.get_char(b - 1))
        invariant
            n == s@.len(),
            0 <= a <= b <= n,
            trimmed(s@) == trimmed(s@.subrange(a as int, b as int)),
            is_ascii_chars(s@) ==> plain_trim(s@) == plain_trim(s@.subrange(a as int, b as int)),
            a < n ==> !whitespace(s@[a as int]),
            a < n && is_ascii_chars(s@) ==> !plain_space(s@[a as int]),
        ensures
            0 <= a <= b <= n,
            trimmed(s@) == trimmed(s@.subrange(a as int, b as int)),
            is_ascii_chars(s@) ==> plain_trim(s@) == plain_trim(s@.subrange(a as int, b as int)),
            a < b ==> !whitespace(s@[b - 1]),
            a < b && is_ascii_chars(s@) ==> !plain_space(s@[b - 1]),
            a < n ==> !whitespace(s@[a as int]),
            a < n && is_ascii_chars(s@) ==> !plain_space(s@[a as int]),
        decreases b - a,
    {
        let ghost t = s@.subrange(a as int, b as int);
        assert(t[0] == s@[a as int]);
        assert(t.last() == s@[b - 1]);
        assert(t.drop_last() =~= s@.subrange(a as int, b - 1));
        b = b - 1;
    }
    let ghost t = s@.subrange(a as int, b as int);
    if a < b {
        assert(t[0] == s@[a as int] && t.last() == s@[b - 1]);
    }
    text_between(s, a, b)
}

/// The characters `from..to` of a text.
pub fn text_between(s: &str, from: usize, to: usize) -> (r: String)
    requires
        from <= to <= s@.len(),
    ensures
        r@ == s@.subrange(from as int, to as int),
{
    let mut out = String::new();
    let mut i: usize = from;
    assert(out@ =~= s@.subrange(from as int, from as int));
    while i < to
        invariant
            from <= i <= to <= s@.len(),
            out@ == s@.subrange(from as int, i as int),
        decreases to - i,
    {
        out.push(s.get_char(i));
        i = i + 1;
        assert(out@ =~= s@.subrange(from as int, i as int));
    }
    out
}

/// The words of a text: what stands between white space.
pub open spec fn words(s: Seq<char>) -> Seq<Seq<char>>
    decreases s.len(),
{
    if s.len() == 0 {
        Seq::empty()
    } else {
        let head = s.drop_last();
        let w = words(head);
        if whitespace(s.last()) {
            w
        } else if head.len() == 0 || whitespace(head.last()) || w.len() == 0 {
            w.push(seq![s.last()])
        } else {
            w.drop_last().push(w.last().push(s.last()))
        }
    }
}

/// The words of a text.
pub fn split_words(s: &str) -> (r: Vec<String>)
    ensures
        texts_view(r@) == words(s@),
{
    let n: usize = s.unicode_len();
    let mut done: Vec<String> = Vec::new();
    let mut cur = String::new();
    let mut open = false;
    let mut i: usize = 0;
    assert(texts_view(done@) =~= words(s@.subrange(0, 0)));
    while i < n
        invariant
            n == s@.len(),
            0 <= i <= n,
            open == (i > 0 && !whitespace(s@[i - 1])),
            open ==> words(s@.subrange(0, i as int)) == texts_view(done@).push(cur@),
            !open ==> words(s@.subrange(0, i as int)) == texts_view(done@) && cur@.len() == 0,
        decreases n - i,
    {
        let c = s.get_char(i);
        let ghost head = s@.subrange(0, i as int);
        let ghost next = s@.subrange(0, i + 1);
        assert(next.drop_last() =~= head);
        assert(next.last() == c);
        assert(i > 0 ==> head.last() == s@[i - 1]);
        let ghost before = texts_view(done@);
        assert(open ==> before.push(cur@).drop_last() =~= before);
        let ghost word = cur@;
        if is_whitespace(c) {
            if open {
                add_text(&mut done, cur);
                cur = String::new();
                open = false;
            }
        } else {
            cur.push(c);
            assert(!open ==> cur@ =~= seq![c]);
            open = true;
        }
        i = i + 1;
    }
    assert(s@.subrange(0, n as int) =~= s@);
    if open {
        add_text(&mut done, cur);
    }
    done
}

/// Texts put together are written as their bytes put together.
pub proof fn lemma_encode_joined(a: Seq<char>, b: Seq<char>)
    ensures
        encode_utf8(a + b) == encode_utf8(a) + encode_utf8(b),
    decreases a.len(),
{
    if a.len() == 0 {
        assert(a + b =~= b);
        assert(encode_utf8(a) =~= Seq::<u8>::empty());
        assert(encode_utf8(a) + encode_utf8(b) =~= encode_utf8(b));
    } else {
        lemma_encode_joined(a.drop_first(), b);
        assert((a + b).drop_first() =~= a.drop_first() + b);
        assert((a + b)[0] == a[0]);
        assert(encode_utf8(a + b) =~= encode_utf8(a) + encode_utf8(b));
    }
}

/// An aligned text fills its width with blanks on the other side, and is never cut; a zero-filled one
/// fills it with zeros in front.
pub proof fn alignment_fills_and_never_cuts(s: Seq<char>, width: nat, i: int)
    ensures
        left_aligned(s, width as int).len() == if s.len() < width {
            width
        } else {
            s.len()
        },
        right_aligned(s, width as int).len() == left_aligned(s, width as int).len(),
        zero_filled(s, width as int).len() == left_aligned(s, width as int).len(),
        left_aligned(s, width as int).subrange(0, s.len() as int) == s,
        right_aligned(s, width as int).subrange(
            right_aligned(s, width as int).len() - s.len(),
            right_aligned(s, width as int).len() as int,
        ) == s,
        zero_filled(s, width as int).subrange(
            zero_filled(s, width as int).len() - s.len(),
            zero_filled(s, width as int).len() as int,
        ) == s,
        0 <= i < width - s.len() ==> right_aligned(s, width as int)[i] == ' ' && zero_filled(s, width as int)[i] == '0'
            && left_aligned(s, width as int)[s.len() + i] == ' ',
{
    let (l, r, z) = (left_aligned(s, width as int), right_aligned(s, width as int), zero_filled(s, width as int));
    assert(l.subrange(0, s.len() as int) =~= s);
    assert(r.subrange(r.len() - s.len(), r.len() as int) =~= s);
    assert(z.subrange(z.len() - s.len(), z.len() as int) =~= s);
}

/// A number with its sign tells a gain from a loss.
pub proof fn a_signed_number_shows_its_sign(n: nat)
    ensures
        signed_dec(n as int) == seq!['+'] + dec(n),
        n > 0 ==> signed_dec(-(n as int)) == seq!['-'] + dec(n),
{
}

/// The part of a text from `a` to `b` is all but the white space at its ends.
pub open spec fn is_core(s: Seq<char>, a: int, b: int) -> bool {
    &&& 0 <= a <= b <= s.len()
    &&& a < b ==> !whitespace(s[a]) && !whitespace(s[b - 1])
    &&& forall|i: int| 0 <= i < a ==> whitespace(#[trigger] s[i])
    &&& forall|i: int| b <= i < s.len() ==> whitespace(#[trigger] s[i])
}

proof fn lemma_core(s: Seq<char>) -> (r: (int, int))
    ensures
        is_core(s, r.0, r.1),
        trimmed(s) == s.subrange(r.0, r.1),
    decreases s.len(),
{
    if s.len() > 0 && whitespace(s[0]) {
        let t = s.subrange(1, s.len() as int);
        let (a, b) = lemma_core(t);
        assert(t.subrange(a, b) =~= s.subrange(a + 1, b + 1));
        assert forall|i: int| 0 <= i < a + 1 implies whitespace(#[trigger] s[i]) by {
            if i > 0 {
                assert(whitespace(t[i - 1]));
            }
        }
        assert forall|i: int| b + 1 <= i < s.len() implies whitespace(#[trigger] s[i]) by {
            assert(whitespace(t[i - 1]));
        }
        (a + 1, b + 1)
    } else if s.len() > 0 && whitespace(s.last()) {
        let t = s.drop_last();
        let (a, b) = lemma_core(t);
        assert(t.subrange(a, b) =~= s.subrange(a, b));
        assert forall|i: int| 0 <= i < a implies whitespace(#[trigger] s[i]) by {
            assert(whitespace(t[i]));
        }
        assert forall|i: int| b <= i < s.len() implies whitespace(#[trigger] s[i]) by {
            if i < t.len() {
                assert(whitespace(t[i]));
            }
        }
        (a, b)
    } else {
        assert(s.subrange(0, s.len() as int) =~= s);
        (0, s.len() as int)
    }
}

/// Trimming takes off the white space at both ends, and nothing else.
pub proof fn trimming_takes_off_the_ends(s: Seq<char>)
    ensures
        exists|a: int, b: int| #[trigger] is_core(s, a, b) && trimmed(s) == s.subrange(a, b),
{
    let (a, b) = lemma_core(s);
    assert(is_core(s, a, b));
}

/// White space parts words and is in none: a word that follows white space is one more word, and white
/// space behind a text adds none.
pub proof fn white_space_parts_words(s: Seq<char>, c: char, w: Seq<char>)
    requires
        whitespace(c),
        w.len() > 0,
        forall|i: int| 0 <= i < w.len() ==> !whitespace(#[trigger] w[i]),
    ensures
        words(s.push(c)) == words(s),
        words(s.push(c) + w) == words(s).push(w),
        words(w) == seq![w],
        words(Seq::empty()) == Seq::<Seq<char>>::empty(),
    decreases w.len(),
{
    let t = s.push(c);
    assert(t.last() == c && t.drop_last() =~= s);
    let last = w.last();
    assert(last == w[w.len() - 1]);
    let head = w.drop_last();
    assert((t + w).last() == last);
    assert((t + w).drop_last() =~= t + head);
    assert(words(t) == words(s));
    if w.len() == 1 {
        assert(t + head =~= t);
        assert(w =~= seq![last]);
        assert(head =~= Seq::empty());
        assert(words((t + w).drop_last()) == words(s));
        assert(words(t + w) == words(s).push(seq![last]));
        assert(words(head) == Seq::<Seq<char>>::empty());
        assert(words(w) == words(head).push(seq![last]));
        assert(words(w) =~= seq![w]);
    } else {
        assert forall|i: int| 0 <= i < head.len() implies !whitespace(#[trigger] head[i]) by {
            assert(head[i] == w[i]);
        }
        white_space_parts_words(s, c, head);
        assert((t + head).last() == head.last());
        assert(head.last() == head[head.len() - 1]);
        assert(words(s).push(head).drop_last() =~= words(s));
        assert(head.push(last) =~= w);
        assert(seq![head].drop_last() =~= Seq::<Seq<char>>::empty());
        assert(words((t + w).drop_last()) == words(s).push(head));
        assert(words(s).push(head).last() == head);
        assert(words(t + w) == words(s).push(head).drop_last().push(head.push(last)));
        assert(words(head) == seq![head]);
        assert(words(w) == seq![head].drop_last().push(seq![head].last().push(last)));
        assert(words(w) =~= seq![w]);
    }
}

} // verus!
