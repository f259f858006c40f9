//! Characters and their display widths.
//!
//! How many terminal columns a character or a string takes is what the
//! `unicode-width` crate computes; the functions here call it, and state the
//! few facts about its answers that the layout code relies on.

use vstd::prelude::*;

verus! {

/// The width `unicode-width` gives one character, `None` for a control character.
pub uninterp spec fn char_width(c: char) -> Option<usize>;

/// The width `unicode-width` gives a whole string. It is not always the sum of
/// its characters' widths: emoji sequences and some ligatures count differently.
pub uninterp spec fn str_width(s: Seq<char>) -> usize;

/// Whether `c` is printable ASCII, from the space to the tilde.
pub open spec fn is_printable_ascii(c: char) -> bool {
    ' ' <= c && c <= '~'
}

/// Whether `c` is a control character: general category Cc, which is exactly
/// U+0000 to U+001F and U+007F to U+009F.
pub open spec fn spec_is_control(c: char) -> bool {
    c <= '\u{1f}' || ('\u{7f}' <= c && c <= '\u{9f}')
}

/// The columns a character takes, counting a control character as none.
pub open spec fn cols(c: char) -> int {
    match char_width(c) {
        Some(w) => w as int,
        None => 0,
    }
}

/// `UnicodeWidthChar::width` of unicode-width. Its source shows: `None`
/// exactly for the control characters, 1 for printable ASCII, and otherwise a
/// table value that its documentation lists as 0, 1, 2 or 3.
#[verifier::external_body]
pub fn unicode_char_width(c: char) -> (r: Option<usize>)
    ensures
        r == char_width(c),
        r is None <==> spec_is_control(c),
        is_printable_ascii(c) ==> r == Some(1usize),
        r matches Some(w) ==> w <= 3,
{
    unicode_width::UnicodeWidthChar::width(c)
}

/// `UnicodeWidthStr::width` of unicode-width. Its documentation gives the
/// width of a string as the sum of its characters' widths except for a list of
/// sequences, none of which is made of printable ASCII alone; so such a string
/// is as wide as it is long.
#[verifier::external_body]
pub fn unicode_str_width(s: &str) -> (r: usize)
    ensures
        r == str_width(s@),
        (forall|i: int| 0 <= i < s@.len() ==> is_printable_ascii(#[trigger] s@[i])) ==> r == s@.len(),
{
    unicode_width::UnicodeWidthStr::width(s)
}

/// Whether `c` is a control character, as `char::is_control` decides it.
pub fn is_control(c: char) -> (r: bool)
    ensures
        r == spec_is_control(c),
{
    c <= '\u{1f}' || ('\u{7f}' <= c && c <= '\u{9f}')
}

/// The characters of `s`, in order (`str::chars`).
#[verifier::external_body]
pub fn chars_of(s: &str) -> (r: Vec<char>)
    ensures
        r@ == s@,
{
    s.chars().collect()
}

/// The string made of `cs`, in order (`String::from_iter`).
#[verifier::external_body]
pub fn string_of(cs: &[char]) -> (r: String)
    ensures
        r@ == cs@,
{
    cs.iter().collect()
}

/// `n` copies of `c`.
pub open spec fn spec_repeat(c: char, n: nat) -> Seq<char> {
    Seq::new(n, |_i: int| c)
}

/// `c` repeated `n` times, as one string.
pub fn repeat_char(c: char, n: usize) -> (r: String)
    ensures
        r@ == spec_repeat(c, n as nat),
{
    let mut cs: Vec<char> = Vec::new();
    let mut i: usize = 0;
    while i < n
        invariant
            i <= n,
            cs@ == spec_repeat(c, i as nat),
        decreases n - i,
    {
        cs.push(c);
        i = i + 1;
        assert(cs@ =~= spec_repeat(c, i as nat));
    }
    string_of(cs.as_slice())
}

/// The decimal digit `d` (for `d < 10`).
pub open spec fn digit(d: int) -> char {
    (48 + d) as char
}

/// `n` in decimal, without leading zeros.
pub open spec fn dec(n: nat) -> Seq<char>
    decreases n,
{
    if n < 10 {
        seq![digit(n as int)]
    } else {
        dec(n / 10).push(digit((n % 10) as int))
    }
}

pub proof fn lemma_dec_len(n: nat)
    ensures
        dec(n).len() >= 1,
    decreases n,
{
    if n >= 10 {
        lemma_dec_len(n / 10);
    }
}

/// `n` in decimal, as `usize`'s `Display` writes it.
pub fn decimal(n: usize) -> (r: Vec<char>)
    ensures
        r@ == dec(n as nat),
    decreases n,
{
    if n < 10 {
        let mut v: Vec<char> = Vec::new();
        let c = ((48 + n) as u8) as char;
        assert(c == digit(n as int));
        v.push(c);
        assert(v@ =~= dec(n as nat));
        v
    } else {
        let mut v = decimal(n / 10);
        let d = n % 10;
        let c = ((48 + d) as u8) as char;
        assert(c == digit(d as int));
        v.push(c);
        v
    }
}

/// Whether `c` is whitespace, as `char::is_whitespace` decides it: the
/// characters with the Unicode `White_Space` property.
pub open spec fn spec_is_whitespace(c: char) -> bool {
    c == ' ' || ('\t' <= c && c <= '\r') || c == '\u{85}' || c == '\u{a0}' || c == '\u{1680}'
        || ('\u{2000}' <= c && c <= '\u{200a}') || c == '\u{2028}' || c == '\u{2029}' || c == '\u{202f}'
        || c == '\u{205f}' || c == '\u{3000}'
}

/// `char::is_whitespace`.
pub fn is_whitespace(c: char) -> (r: bool)
    ensures
        r == spec_is_whitespace(c),
{
    c == ' ' || ('\t' <= c && c <= '\r') || c == '\u{85}' || c == '\u{a0}' || c == '\u{1680}'
        || ('\u{2000}' <= c && c <= '\u{200a}') || c == '\u{2028}' || c == '\u{2029}' || c == '\u{202f}'
        || c == '\u{205f}' || c == '\u{3000}'
}

/// `s` without trailing whitespace.
pub open spec fn spec_trim_end(s: Seq<char>) -> Seq<char>
    decreases s.len(),
{
    if s.len() > 0 && spec_is_whitespace(s.last()) {
        spec_trim_end(s.drop_last())
    } else {
        s
    }
}

/// `s` without leading whitespace.
pub open spec fn spec_trim_start(s: Seq<char>) -> Seq<char>
    decreases s.len(),
{
    if s.len() > 0 && spec_is_whitespace(s[0]) {
        spec_trim_start(s.drop_first())
    } else {
        s
    }
}

/// `s` without leading or trailing whitespace.
pub open spec fn spec_trim(s: Seq<char>) -> Seq<char> {
    spec_trim_start(spec_trim_end(s))
}

/// `str::trim_end`, on characters.
pub fn trim_end(s: &Vec<char>) -> (r: Vec<char>)
    ensures
        r@ == spec_trim_end(s@),
{
    let mut k = s.len();
    assert(s@.take(k as int) =~= s@);
    while k > 0 && is_whitespace(s[k - 1])
        invariant
            k <= s@.len(),
            spec_trim_end(s@.take(k as int)) == spec_trim_end(s@),
        decreases k,
    {
        assert(s@.take(k as int).drop_last() =~= s@.take(k - 1));
        k = k - 1;
    }
    let mut r: Vec<char> = Vec::new();
    let mut i: usize = 0;
    while i < k
        invariant
            i <= k <= s@.len(),
            r@ == s@.take(i as int),
        decreases k - i,
    {
        r.push(s[i]);
        i = i + 1;
        assert(r@ =~= s@.take(i as int));
    }
    assert(s@.take(s@.len() as int) =~= s@);
    r
}

/// `str::trim_start`, on characters.
pub fn trim_start(s: &Vec<char>) -> (r: Vec<char>)
    ensures
        r@ == spec_trim_start(s@),
{
    let mut k: usize = 0;
    assert(s@.skip(0) =~= s@);
    while k < s.len() && is_whitespace(s[k])
        invariant
            k <= s@.len(),
            spec_trim_start(s@.skip(k as int)) == spec_trim_start(s@),
        decreases s@.len() - k,
    {
        assert(s@.skip(k as int).drop_first() =~= s@.skip(k + 1));
        k = k + 1;
    }
    let mut r: Vec<char> = Vec::new();
    let mut i = k;
    while i < s.len()
        invariant
            k <= i <= s@.len(),
            r@ == s@.subrange(k as int, i as int),
        decreases s@.len() - i,
    {
        r.push(s[i]);
        i = i + 1;
        assert(r@ =~= s@.subrange(k as int, i as int));
    }
    assert(r@ =~= s@.skip(k as int));
    r
}

/// `str::trim`, on characters.
pub fn trim(s: &Vec<char>) -> (r: Vec<char>)
    ensures
        r@ == spec_trim(s@),
{
    let e = trim_end(s);
    trim_start(&e)
}

/// Whether `s` begins with `p`.
pub open spec fn starts_with(s: Seq<char>, p: Seq<char>) -> bool {
    p.len() <= s.len() && s.take(p.len() as int) == p
}

/// Whether `s` ends with `p`.
pub open spec fn ends_with(s: Seq<char>, p: Seq<char>) -> bool {
    p.len() <= s.len() && s.skip(s.len() - p.len()) == p
}

/// Whether `p` occurs in `s`.
pub open spec fn contains_at(s: Seq<char>, p: Seq<char>, i: int) -> bool {
    0 <= i && i + p.len() <= s.len() && s.subrange(i, i + p.len()) == p
}

/// `str::starts_with`, on characters.
pub fn has_prefix(s: &Vec<char>, p: &Vec<char>) -> (r: bool)
    ensures
        r == starts_with(s@, p@),
{
    if p.len() > s.len() {
        return false;
    }
    let mut i: usize = 0;
    while i < p.len()
        invariant
            p@.len() <= s@.len(),
            i <= p@.len(),
            forall|k: int| 0 <= k < i ==> s@[k] == p@[k],
        decreases p@.len() - i,
    {
        if s[i] != p[i] {
            assert(s@.take(p@.len() as int)[i as int] != p@[i as int]);
            return false;
        }
        i = i + 1;
    }
    assert(s@.take(p@.len() as int) =~= p@);
    true
}

/// `str::ends_with`, on characters.
pub fn has_suffix(s: &Vec<char>, p: &Vec<char>) -> (r: bool)
    ensures
        r == ends_with(s@, p@),
{
    if p.len() > s.len() {
        return false;
    }
    let off = s.len() - p.len();
    let mut i: usize = 0;
    while i < p.len()
        invariant
            p@.len() <= s@.len(),
            off == s.len() - p.len(),
            i <= p@.len(),
            forall|k: int| 0 <= k < i ==> s@[off + k] == p@[k],
        decreases p@.len() - i,
    {
        if s[off + i] != p[i] {
            assert(s@.skip(off as int)[i as int] != p@[i as int]);
            return false;
        }
        i = i + 1;
    }
    assert(s@.skip(off as int) =~= p@);
    true
}

/// `str::contains`, on characters.
pub fn has_infix(s: &Vec<char>, p: &Vec<char>) -> (r: bool)
    ensures
        r == exists|i: int| contains_at(s@, p@, i),
{
    if p.len() > s.len() {
        assert forall|i: int| !contains_at(s@, p@, i) by {}
        return false;
    }
    let mut i: usize = 0;
    while i <= s.len() - p.len()
        invariant
            p@.len() <= s@.len(),
            i <= s@.len() - p@.len() + 1,
            forall|k: int| 0 <= k < i ==> !contains_at(s@, p@, k),
        decreases s@.len() - p@.len() + 1 - i,
    {
        let mut j: usize = 0;
        let mut same = true;
        while j < p.len()
            invariant
                i + p.len() <= s.len(),
                j <= p@.len(),
                same == forall|k: int| 0 <= k < j ==> s@[i + k] == p@[k],
            decreases p@.len() - j,
        {
            if s[i + j] != p[j] {
                same = false;
            }
            j = j + 1;
        }
        if same {
            assert(s@.subrange(i as int, i + p@.len()) =~= p@);
            assert(contains_at(s@, p@, i as int));
            return true;
        }
        assert(!contains_at(s@, p@, i as int)) by {
            let k = choose|k: int| 0 <= k < p@.len() && s@[i + k] != p@[k];
            assert(s@.subrange(i as int, i + p@.len())[k] != p@[k]);
        }
        i = i + 1;
    }
    assert forall|k: int| !contains_at(s@, p@, k) by {
        if 0 <= k && k + p@.len() <= s@.len() {
            assert(k < i);
        }
    }
    false
}

/// `c` lowercased if it is an ASCII capital, as `to_ascii_lowercase` does.
pub open spec fn ascii_lower(c: char) -> char {
    if 'A' <= c && c <= 'Z' { ((c as u32) + 32) as char } else { c }
}

/// `str::to_ascii_lowercase`, on characters.
pub fn to_ascii_lowercase(s: &Vec<char>) -> (r: Vec<char>)
    ensures
        r@ == s@.map_values(|c: char| ascii_lower(c)),
{
    let mut r: Vec<char> = Vec::new();
    let mut i: usize = 0;
    while i < s.len()
        invariant
            i <= s@.len(),
            r@ == s@.take(i as int).map_values(|c: char| ascii_lower(c)),
        decreases s@.len() - i,
    {
        let c = s[i];
        let l = if 'A' <= c && c <= 'Z' { ((c as u32 + 32) as u8) as char } else { c };
        assert(l == ascii_lower(c));
        r.push(l);
        i = i + 1;
        assert(r@ =~= s@.take(i as int).map_values(|c: char| ascii_lower(c)));
    }
    assert(s@.take(s@.len() as int) =~= s@);
    r
}

/// `s` split at every newline, keeping an empty last piece after a final newline.
pub open spec fn split_newlines(s: Seq<char>) -> Seq<Seq<char>>
    decreases s.len(),
{
    if s.len() == 0 {
        seq![seq![]]
    } else {
        let p = split_newlines(s.drop_last());
        if s.last() == '\n' {
            p.push(seq![])
        } else {
            p.update(p.len() - 1, p.last().push(s.last()))
        }
    }
}

/// A line without the carriage return of a `\r\n` ending.
pub open spec fn strip_cr(l: Seq<char>) -> Seq<char> {
    if l.len() > 0 && l.last() == '\r' { l.drop_last() } else { l }
}

/// The lines of `s`, as `str::lines` gives them: split at `\n` or `\r\n`,
/// without the endings, and without an empty line after a final ending.
pub open spec fn spec_lines(s: Seq<char>) -> Seq<Seq<char>> {
    let p = split_newlines(s);
    p.drop_last().map_values(|l: Seq<char>| strip_cr(l)) + (if p.last().len() > 0 { seq![p.last()] } else { seq![] })
}

pub proof fn lemma_split_newlines_nonempty(s: Seq<char>)
    ensures
        split_newlines(s).len() >= 1,
    decreases s.len(),
{
    if s.len() > 0 {
        lemma_split_newlines_nonempty(s.drop_last());
    }
}

/// `str::lines`, on characters.
pub fn lines_of(s: &Vec<char>) -> (r: Vec<Vec<char>>)
    ensures
        r@.map_values(|l: Vec<char>| l@) == spec_lines(s@),
{
    let mut done: Vec<Vec<char>> = Vec::new();
    let mut cur: Vec<char> = Vec::new();
    let mut i: usize = 0;
    assert(s@.take(0) =~= Seq::<char>::empty());
    assert(done@.map_values(|l: Vec<char>| l@).push(cur@) =~= split_newlines(s@.take(0)));
    while i < s.len()
        invariant
            i <= s@.len(),
            done@.map_values(|l: Vec<char>| l@).push(cur@) == split_newlines(s@.take(i as int)),
        decreases s@.len() - i,
    {
        let c = s[i];
        let ghost d0 = done@.map_values(|l: Vec<char>| l@);
        let ghost c0 = cur@;
        assert(s@.take(i + 1).drop_last() =~= s@.take(i as int));
        if c == '\n' {
            done.push(cur);
            cur = Vec::new();
            assert(done@.map_values(|l: Vec<char>| l@) =~= d0.push(c0));
            assert(done@.map_values(|l: Vec<char>| l@).push(cur@) =~= d0.push(c0).push(seq![]));
        } else {
            cur.push(c);
            assert(done@.map_values(|l: Vec<char>| l@).push(cur@) =~= d0.push(c0).update(d0.len() as int, c0.push(c)));
        }
        i = i + 1;
    }
    assert(s@.take(s@.len() as int) =~= s@);
    let ghost pieces = split_newlines(s@);
    let ghost body = done@.map_values(|l: Vec<char>| l@);
    assert(pieces.drop_last() =~= body);
    let mut out: Vec<Vec<char>> = Vec::new();
    let mut k: usize = 0;
    while k < done.len()
        invariant
            k <= done@.len(),
            body == done@.map_values(|l: Vec<char>| l@),
            out@.map_values(|l: Vec<char>| l@) == body.take(k as int).map_values(|l: Seq<char>| strip_cr(l)),
        decreases done@.len() - k,
    {
        let l = &done[k];
        let mut m: Vec<char> = Vec::new();
        let n = if l.len() > 0 && l[l.len() - 1] == '\r' { l.len() - 1 } else { l.len() };
        let mut t: usize = 0;
        while t < n
            invariant
                t <= n <= l@.len(),
                m@ == l@.take(t as int),
            decreases n - t,
        {
            m.push(l[t]);
            t = t + 1;
            assert(m@ =~= l@.take(t as int));
        }
        assert(m@ =~= strip_cr(l@));
        let ghost o0 = out@.map_values(|l: Vec<char>| l@);
        out.push(m);
        assert(out@.map_values(|l: Vec<char>| l@) =~= o0.push(strip_cr(body[k as int])));
        assert(body.take(k + 1).map_values(|l: Seq<char>| strip_cr(l)) =~= body.take(k as int).map_values(|l: Seq<char>| strip_cr(l)).push(strip_cr(body[k as int])));
        k = k + 1;
    }
    assert(body.take(body.len() as int) =~= body);
    let ghost o1 = out@.map_values(|l: Vec<char>| l@);
    if cur.len() > 0 {
        out.push(cur);
        assert(out@.map_values(|l: Vec<char>| l@) =~= o1.push(pieces.last()));
    }
    assert(out@.map_values(|l: Vec<char>| l@) =~= spec_lines(s@));
    out
}

} // verus!
