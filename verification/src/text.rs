//! Characters and strings: what the pieces of a text are, and the functions
//! that take a text apart and put one together. A text is the sequence of its
//! characters; slices of characters stand for the parts of one.
use vstd::prelude::*;
use vstd::slice::slice_subrange;

verus! {

/// `String::push` appends the given character to the end of the string.
pub assume_specification[ String::push ](s: &mut String, c: char)
    ensures
        final(s)@ == old(s)@.push(c),
;

// ---------------------------------------------------------------------------
// Classes of characters
// ---------------------------------------------------------------------------

/// The characters with the Unicode property `White_Space`.
pub open spec fn is_space(c: char) -> bool {
    ||| '\u{9}' <= c <= '\u{d}'
    ||| c == ' '
    ||| c == '\u{85}'
    ||| c == '\u{a0}'
    ||| c == '\u{1680}'
    ||| '\u{2000}' <= c <= '\u{200a}'
    ||| c == '\u{2028}'
    ||| c == '\u{2029}'
    ||| c == '\u{202f}'
    ||| c == '\u{205f}'
    ||| c == '\u{3000}'
}

/// The ASCII digits `0` to `9`.
pub open spec fn is_digit(c: char) -> bool {
    '0' <= c <= '9'
}

/// The ASCII letters and digits.
pub open spec fn is_alphanumeric(c: char) -> bool {
    is_digit(c) || 'a' <= c <= 'z' || 'A' <= c <= 'Z'
}

/// The ASCII hexadecimal digits, in either case.
pub open spec fn is_hex_digit(c: char) -> bool {
    is_digit(c) || 'a' <= c <= 'f' || 'A' <= c <= 'F'
}

/// ASCII letters in lower case; every other character as it is.
pub open spec fn lower(c: char) -> char {
    if 'A' <= c <= 'Z' {
        (c as u8 + 32) as char
    } else {
        c
    }
}

/// ASCII letters in upper case; every other character as it is.
pub open spec fn upper(c: char) -> char {
    if 'a' <= c <= 'z' {
        (c as u8 - 32) as char
    } else {
        c
    }
}

/// Tells whether `c` is white space.
pub fn space(c: char) -> (r: bool)
    ensures
        r == is_space(c),
{
    ('\u{9}' <= c && c <= '\u{d}') || c == ' ' || c == '\u{85}' || c == '\u{a0}' || c == '\u{1680}'
        || ('\u{2000}' <= c && c <= '\u{200a}') || c == '\u{2028}' || c == '\u{2029}' || c == '\u{202f}'
        || c == '\u{205f}' || c == '\u{3000}'
}

/// Tells whether `c` is an ASCII digit.
pub fn digit(c: char) -> (r: bool)
    ensures
        r == is_digit(c),
{
    '0' <= c && c <= '9'
}

/// Tells whether `c` is an ASCII letter or digit.
pub fn alphanumeric(c: char) -> (r: bool)
    ensures
        r == is_alphanumeric(c),
{
    digit(c) || ('a' <= c && c <= 'z') || ('A' <= c && c <= 'Z')
}

/// Tells whether `c` is an ASCII hexadecimal digit.
pub fn hex_digit(c: char) -> (r: bool)
    ensures
        r == is_hex_digit(c),
{
    digit(c) || ('a' <= c && c <= 'f') || ('A' <= c && c <= 'F')
}

/// The lower-case form of an ASCII letter.
pub fn to_lower(c: char) -> (r: char)
    ensures
        r == lower(c),
{
    if 'A' <= c && c <= 'Z' {
        (c as u8 + 32) as char
    } else {
        c
    }
}

/// The upper-case form of an ASCII letter.
pub fn to_upper(c: char) -> (r: char)
    ensures
        r == upper(c),
{
    if 'a' <= c && c <= 'z' {
        (c as u8 - 32) as char
    } else {
        c
    }
}

// ---------------------------------------------------------------------------
// Strings and slices of characters
// ---------------------------------------------------------------------------

/// The contents of each of a sequence of slices.
pub open spec fn views(parts: Seq<&[char]>) -> Seq<Seq<char>> {
    parts.map_values(|p: &[char]| p@)
}

/// The contents of each of a sequence of strings.
pub open spec fn string_views(parts: Seq<String>) -> Seq<Seq<char>> {
    parts.map_values(|p: String| p@)
}

/// The contents of each of a sequence of string slices.
pub open spec fn str_views(parts: Seq<&str>) -> Seq<Seq<char>> {
    parts.map_values(|p: &str| p@)
}

/// The contents of an optional string.
pub open spec fn opt_view(s: Option<String>) -> Option<Seq<char>> {
    match s {
        Some(t) => Some(t@),
        None => None,
    }
}

/// The characters of a string.
pub fn chars_of(s: &str) -> (v: Vec<char>)
    ensures
        v@ == s@,
{
    let mut v: Vec<char> = Vec::new();
    for c in it: s.chars()
        invariant
            it.seq() == s@,
            v@ == s@.take(it.index() as int),
    {
        v.push(c);
    }
    assert(s@.take(s@.len() as int) =~= s@);
    v
}

/// Appends characters to a string.
pub fn push_chars(out: &mut String, s: &[char])
    ensures
        final(out)@ == old(out)@ + s@,
{
    let mut i: usize = 0;
    while i < s.len()
        invariant
            i <= s@.len(),
            out@ == old(out)@ + s@.take(i as int),
        decreases s@.len() - i,
    {
        out.push(s[i]);
        i += 1;
        assert(s@.take(i as int) =~= s@.take(i - 1).push(s@[i - 1]));
    }
    assert(s@.take(s@.len() as int) =~= s@);
}

/// The string made of the given characters.
pub fn string_of(s: &[char]) -> (r: String)
    ensures
        r@ == s@,
{
    let mut out = String::new();
    push_chars(&mut out, s);
    out
}

/// Tells whether two slices hold the same characters.
pub fn same(a: &[char], b: &[char]) -> (r: bool)
    ensures
        r == (a@ == b@),
{
    if a.len() != b.len() {
        return false;
    }
    let mut i: usize = 0;
    while i < a.len()
        invariant
            a@.len() == b@.len(),
            i <= a@.len(),
            forall|j: int| 0 <= j < i ==> a@[j] == b@[j],
        decreases a@.len() - i,
    {
        if a[i] != b[i] {
            return false;
        }
        i += 1;
    }
    assert(a@ =~= b@);
    true
}

/// Tells whether two strings hold the same characters.
pub fn str_same(a: &str, b: &str) -> (r: bool)
    ensures
        r == (a@ == b@),
{
    let x = chars_of(a);
    let y = chars_of(b);
    same(x.as_slice(), y.as_slice())
}

/// Tells whether a slice holds the characters of a string.
pub fn is_text(s: &[char], t: &str) -> (r: bool)
    ensures
        r == (s@ == t@),
{
    let u = chars_of(t);
    same(s, u.as_slice())
}

/// `a` and `b` agree up to the case of ASCII letters.
pub open spec fn same_ignoring_case(a: Seq<char>, b: Seq<char>) -> bool {
    a.map_values(|c: char| lower(c)) == b.map_values(|c: char| lower(c))
}

/// Tells whether two slices agree up to the case of ASCII letters.
pub fn same_nocase(a: &[char], b: &[char]) -> (r: bool)
    ensures
        r == same_ignoring_case(a@, b@),
{
    let ghost la = a@.map_values(|c: char| lower(c));
    let ghost lb = b@.map_values(|c: char| lower(c));
    if a.len() != b.len() {
        assert(la.len() != lb.len());
        return false;
    }
    let mut i: usize = 0;
    while i < a.len()
        invariant
            a@.len() == b@.len(),
            la == a@.map_values(|c: char| lower(c)),
            lb == b@.map_values(|c: char| lower(c)),
            i <= a@.len(),
            forall|j: int| 0 <= j < i ==> la[j] == lb[j],
        decreases a@.len() - i,
    {
        if to_lower(a[i]) != to_lower(b[i]) {
            assert(la[i as int] != lb[i as int]);
            return false;
        }
        i += 1;
    }
    assert(la =~= lb);
    true
}

// ---------------------------------------------------------------------------
// Searching
// ---------------------------------------------------------------------------

/// The position of the first `c` in `s`, or the length of `s` where there is none.
pub open spec fn index_of(s: Seq<char>, c: char) -> nat
    decreases s.len(),
{
    if s.len() == 0 || s[0] == c {
        0
    } else {
        1 + index_of(s.skip(1), c)
    }
}

/// The length of the run of characters before the first white space.
pub open spec fn word_len(s: Seq<char>) -> nat
    decreases s.len(),
{
    if s.len() == 0 || is_space(s[0]) {
        0
    } else {
        1 + word_len(s.skip(1))
    }
}

/// `p` stands in `s` at position `i`.
pub open spec fn occurs_at(s: Seq<char>, p: Seq<char>, i: int) -> bool {
    0 <= i && i + p.len() <= s.len() && s.subrange(i, i + p.len()) == p
}

/// `p` stands somewhere in `s`.
pub open spec fn occurs(s: Seq<char>, p: Seq<char>) -> bool {
    exists|i: int| occurs_at(s, p, i)
}

/// `s` begins with `p`.
pub open spec fn starts(s: Seq<char>, p: Seq<char>) -> bool {
    occurs_at(s, p, 0)
}

/// `s` ends with `p`.
pub open spec fn ends(s: Seq<char>, p: Seq<char>) -> bool {
    occurs_at(s, p, s.len() - p.len())
}

/// `i` is where `p` first stands in `s`.
pub open spec fn first_at(s: Seq<char>, p: Seq<char>, i: int) -> bool {
    occurs_at(s, p, i) && forall|j: int| 0 <= j < i ==> !occurs_at(s, p, j)
}

/// Where `p` first stands in `s`, for a `p` that stands there.
pub open spec fn text_index(s: Seq<char>, p: Seq<char>) -> nat
    decreases s.len(),
{
    if s.len() == 0 || occurs_at(s, p, 0) {
        0
    } else {
        1 + text_index(s.skip(1), p)
    }
}

pub proof fn lemma_text_index(s: Seq<char>, p: Seq<char>, i: int)
    requires
        first_at(s, p, i),
    ensures
        text_index(s, p) == i,
    decreases s.len(),
{
    if i > 0 {
        let t = s.skip(1);
        assert(!occurs_at(s, p, 0));
        assert(t.subrange(i - 1, i - 1 + p.len()) =~= s.subrange(i, i + p.len()));
        assert forall|j: int| 0 <= j < i - 1 implies !occurs_at(t, p, j) by {
            assert(!occurs_at(s, p, j + 1));
            if occurs_at(t, p, j) {
                assert(t.subrange(j, j + p.len()) =~= s.subrange(j + 1, j + 1 + p.len()));
            }
        }
        lemma_text_index(t, p, i - 1);
    } else {
        assert(occurs_at(s, p, 0));
    }
}

/// What pins `index_of` down: no `c` before it, and `c` or the end at it.
pub proof fn lemma_index_of(s: Seq<char>, c: char, i: int)
    requires
        0 <= i <= s.len(),
        forall|j: int| 0 <= j < i ==> s[j] != c,
        i < s.len() ==> s[i] == c,
    ensures
        index_of(s, c) == i,
    decreases s.len(),
{
    if i > 0 {
        let t = s.skip(1);
        assert forall|j: int| 0 <= j < i - 1 implies t[j] != c by {
            assert(t[j] == s[j + 1]);
        }
        lemma_index_of(t, c, i - 1);
    }
}

/// What `index_of` says of the text: no `c` before it, and `c` or the end at it.
pub proof fn lemma_index_of_props(s: Seq<char>, c: char)
    ensures
        index_of(s, c) <= s.len(),
        forall|j: int| 0 <= j < index_of(s, c) ==> s[j] != c,
        index_of(s, c) < s.len() ==> s[index_of(s, c) as int] == c,
        index_of(s, c) < s.len() <==> s.contains(c),
    decreases s.len(),
{
    if s.len() > 0 && s[0] != c {
        let t = s.skip(1);
        lemma_index_of_props(t, c);
        assert forall|j: int| 0 <= j < index_of(s, c) implies s[j] != c by {
            if j > 0 {
                assert(t[j - 1] == s[j]);
            }
        }
        if s.contains(c) {
            let k = choose|k: int| 0 <= k < s.len() && s[k] == c;
            assert(t[k - 1] == c);
        }
    }
}

/// A word is no longer than the text it stands in.
pub proof fn lemma_word_len_bound(s: Seq<char>)
    ensures
        word_len(s) <= s.len(),
    decreases s.len(),
{
    if s.len() > 0 && !is_space(s[0]) {
        lemma_word_len_bound(s.skip(1));
    }
}

pub proof fn lemma_word_len(s: Seq<char>, i: int)
    requires
        0 <= i <= s.len(),
        forall|j: int| 0 <= j < i ==> !is_space(s[j]),
        i < s.len() ==> is_space(s[i]),
    ensures
        word_len(s) == i,
    decreases s.len(),
{
    if i > 0 {
        let t = s.skip(1);
        assert forall|j: int| 0 <= j < i - 1 implies !is_space(t[j]) by {
            assert(t[j] == s[j + 1]);
        }
        lemma_word_len(t, i - 1);
    }
}

/// The position of the first `c`, or the length where there is none.
pub fn position(s: &[char], c: char) -> (r: usize)
    ensures
        r == index_of(s@, c),
        r <= s@.len(),
        r < s@.len() ==> s@[r as int] == c,
        forall|j: int| 0 <= j < r ==> s@[j] != c,
        r < s@.len() <==> s@.contains(c),
{
    let mut i: usize = 0;
    while i < s.len() && s[i] != c
        invariant
            i <= s@.len(),
            forall|j: int| 0 <= j < i ==> s@[j] != c,
        decreases s@.len() - i,
    {
        i += 1;
    }
    proof {
        lemma_index_of(s@, c, i as int);
        lemma_index_of_props(s@, c);
    }
    i
}

/// The length of the run of characters before the first white space.
pub fn word_end(s: &[char]) -> (r: usize)
    ensures
        r == word_len(s@),
        r <= s@.len(),
{
    let mut i: usize = 0;
    while i < s.len() && !space(s[i])
        invariant
            i <= s@.len(),
            forall|j: int| 0 <= j < i ==> !is_space(s@[j]),
        decreases s@.len() - i,
    {
        i += 1;
    }
    proof {
        lemma_word_len(s@, i as int);
    }
    i
}

/// Tells whether `p` stands in `s` at position `i`.
fn matches_at(s: &[char], p: &[char], i: usize) -> (r: bool)
    ensures
        r == occurs_at(s@, p@, i as int),
{
    if i > s.len() || p.len() > s.len() - i {
        return false;
    }
    same(slice_subrange(s, i, i + p.len()), p)
}

/// Tells whether `s` begins with `p`.
pub fn starts_with(s: &[char], p: &[char]) -> (r: bool)
    ensures
        r == starts(s@, p@),
{
    matches_at(s, p, 0)
}

/// Tells whether `s` ends with `p`.
pub fn ends_with(s: &[char], p: &[char]) -> (r: bool)
    ensures
        r == ends(s@, p@),
{
    if p.len() > s.len() {
        return false;
    }
    matches_at(s, p, s.len() - p.len())
}

/// Where `p` first stands in `s`, if it stands there at all.
pub fn find(s: &[char], p: &[char]) -> (r: Option<usize>)
    ensures
        match r {
            Some(i) => occurs(s@, p@) && first_at(s@, p@, i as int) && i == text_index(s@, p@) && i + p@.len()
                <= s@.len(),
            None => !occurs(s@, p@),
        },
{
    if p.len() > s.len() {
        return None;
    }
    let mut i: usize = 0;
    let last: usize = s.len() - p.len();
    while i <= last
        invariant
            last == s@.len() - p@.len(),
            i <= last + 1,
            forall|j: int| 0 <= j < i ==> !occurs_at(s@, p@, j),
        decreases last + 1 - i,
    {
        if matches_at(s, p, i) {
            proof {
                lemma_text_index(s@, p@, i as int);
            }
            return Some(i);
        }
        if i == last {
            assert forall|j: int| !occurs_at(s@, p@, j) by {
                if 0 <= j <= last {
                    assert(j < i || j == i);
                }
            }
            return None;
        }
        i += 1;
    }
    None
}

/// Tells whether `p` stands somewhere in `s`.
pub fn contains(s: &[char], p: &[char]) -> (r: bool)
    ensures
        r == occurs(s@, p@),
{
    find(s, p).is_some()
}

// ---------------------------------------------------------------------------
// Trimming
// ---------------------------------------------------------------------------

/// `s` without the white space at its start.
pub open spec fn trim_start_of(s: Seq<char>) -> Seq<char>
    decreases s.len(),
{
    if s.len() > 0 && is_space(s[0]) {
        trim_start_of(s.skip(1))
    } else {
        s
    }
}

/// `s` without the white space at its end.
pub open spec fn trim_end_of(s: Seq<char>) -> Seq<char>
    decreases s.len(),
{
    if s.len() > 0 && is_space(s.last()) {
        trim_end_of(s.drop_last())
    } else {
        s
    }
}

/// `s` without the white space at either end.
pub open spec fn trim_of(s: Seq<char>) -> Seq<char> {
    trim_end_of(trim_start_of(s))
}

/// `s` without the `c`s at its start.
pub open spec fn trim_start_char_of(s: Seq<char>, c: char) -> Seq<char>
    decreases s.len(),
{
    if s.len() > 0 && s[0] == c {
        trim_start_char_of(s.skip(1), c)
    } else {
        s
    }
}

/// `s` without the `c`s at its end.
pub open spec fn trim_end_char_of(s: Seq<char>, c: char) -> Seq<char>
    decreases s.len(),
{
    if s.len() > 0 && s.last() == c {
        trim_end_char_of(s.drop_last(), c)
    } else {
        s
    }
}

/// `s` without the `c`s at either end.
pub open spec fn trim_char_of(s: Seq<char>, c: char) -> Seq<char> {
    trim_end_char_of(trim_start_char_of(s, c), c)
}

/// The slice without the white space at its start.
pub fn trim_start<'a>(s: &'a [char]) -> (r: &'a [char])
    ensures
        r@ == trim_start_of(s@),
{
    let mut i: usize = 0;
    assert(s@.skip(0) =~= s@);
    while i < s.len() && space(s[i])
        invariant
            i <= s@.len(),
            trim_start_of(s@.skip(i as int)) == trim_start_of(s@),
        decreases s@.len() - i,
    {
        assert(s@.skip(i as int).skip(1) =~= s@.skip(i + 1));
        i += 1;
    }
    assert(s@.skip(i as int) =~= s@.subrange(i as int, s@.len() as int));
    slice_subrange(s, i, s.len())
}

/// The slice without the white space at its end.
pub fn trim_end<'a>(s: &'a [char]) -> (r: &'a [char])
    ensures
        r@ == trim_end_of(s@),
{
    let mut n: usize = s.len();
    assert(s@.take(n as int) =~= s@);
    while n > 0 && space(s[n - 1])
        invariant
            n <= s@.len(),
            trim_end_of(s@.take(n as int)) == trim_end_of(s@),
        decreases n,
    {
        assert(s@.take(n as int).drop_last() =~= s@.take(n - 1));
        n -= 1;
    }
    assert(s@.take(n as int) =~= s@.subrange(0, n as int));
    slice_subrange(s, 0, n)
}

/// The slice without the white space at either end.
pub fn trim<'a>(s: &'a [char]) -> (r: &'a [char])
    ensures
        r@ == trim_of(s@),
{
    trim_end(trim_start(s))
}

/// The slice without the `c`s at either end.
pub fn trim_char<'a>(s: &'a [char], c: char) -> (r: &'a [char])
    ensures
        r@ == trim_char_of(s@, c),
{
    let mut i: usize = 0;
    assert(s@.skip(0) =~= s@);
    while i < s.len() && s[i] == c
        invariant
            i <= s@.len(),
            trim_start_char_of(s@.skip(i as int), c) == trim_start_char_of(s@, c),
        decreases s@.len() - i,
    {
        assert(s@.skip(i as int).skip(1) =~= s@.skip(i + 1));
        i += 1;
    }
    let t = slice_subrange(s, i, s.len());
    assert(s@.skip(i as int) =~= t@);
    let mut n: usize = t.len();
    assert(t@.take(n as int) =~= t@);
    while n > 0 && t[n - 1] == c
        invariant
            n <= t@.len(),
            trim_end_char_of(t@.take(n as int), c) == trim_end_char_of(t@, c),
        decreases n,
    {
        assert(t@.take(n as int).drop_last() =~= t@.take(n - 1));
        n -= 1;
    }
    assert(t@.take(n as int) =~= t@.subrange(0, n as int));
    slice_subrange(t, 0, n)
}

// ---------------------------------------------------------------------------
// Splitting and joining
// ---------------------------------------------------------------------------

/// The parts of `s` between the `c`s; one part where there is no `c`.
pub open spec fn split_on(s: Seq<char>, c: char) -> Seq<Seq<char>>
    decreases s.len(),
{
    let i = index_of(s, c) as int;
    if i >= s.len() {
        seq![s]
    } else {
        seq![s.take(i)] + split_on(s.skip(i + 1), c)
    }
}

/// A line without the carriage return that stood before its line feed.
pub open spec fn strip_cr(s: Seq<char>) -> Seq<char> {
    if s.len() > 0 && s.last() == '\r' {
        s.drop_last()
    } else {
        s
    }
}

/// The lines of `s`: each ends in a line feed, with or without a carriage
/// return before it, which belong to no line; the last may end with the text.
pub open spec fn lines_of(s: Seq<char>) -> Seq<Seq<char>>
    decreases s.len(),
{
    let i = index_of(s, '\n') as int;
    if s.len() == 0 {
        seq![]
    } else if i >= s.len() {
        seq![s]
    } else {
        seq![strip_cr(s.take(i))] + lines_of(s.skip(i + 1))
    }
}

/// The words of `s`: its longest runs of characters that are not white space.
pub open spec fn words_of(s: Seq<char>) -> Seq<Seq<char>>
    decreases s.len(),
{
    if s.len() == 0 {
        seq![]
    } else if is_space(s[0]) {
        words_of(s.skip(1))
    } else {
        proof {
            lemma_word_len_bound(s);
        }
        seq![s.take(word_len(s) as int)] + words_of(s.skip(word_len(s) as int))
    }
}

/// The parts one after the other, with `sep` between each two.
pub open spec fn join_with(parts: Seq<Seq<char>>, sep: Seq<char>) -> Seq<char>
    decreases parts.len(),
{
    if parts.len() == 0 {
        seq![]
    } else if parts.len() == 1 {
        parts[0]
    } else {
        join_with(parts.drop_last(), sep) + sep + parts.last()
    }
}

/// The parts of the slice between the `c`s.
pub fn split<'a>(s: &'a [char], c: char) -> (r: Vec<&'a [char]>)
    ensures
        views(r@) == split_on(s@, c),
        r@.len() >= 1,
{
    let mut out: Vec<&'a [char]> = Vec::new();
    let mut rest: &'a [char] = s;
    assert(views(out@) + split_on(rest@, c) =~= split_on(s@, c));
    loop
        invariant
            split_on(s@, c) == views(out@) + split_on(rest@, c),
        decreases rest@.len(),
    {
        let i: usize = position(rest, c);
        let ghost before = out@;
        if i >= rest.len() {
            out.push(rest);
            assert(views(out@) =~= views(before) + seq![rest@]);
            return out;
        }
        let part = slice_subrange(rest, 0, i);
        out.push(part);
        let next = slice_subrange(rest, i + 1, rest.len());
        proof {
            assert(rest@.take(i as int) =~= part@);
            assert(rest@.skip(i + 1) =~= next@);
            assert(views(out@) =~= views(before) + seq![part@]);
            assert(views(out@) + split_on(next@, c) =~= views(before) + split_on(rest@, c));
        }
        rest = next;
    }
}

/// The lines of the slice.
pub fn lines<'a>(s: &'a [char]) -> (r: Vec<&'a [char]>)
    ensures
        views(r@) == lines_of(s@),
{
    let mut out: Vec<&'a [char]> = Vec::new();
    let mut rest: &'a [char] = s;
    assert(views(out@) + lines_of(rest@) =~= lines_of(s@));
    while rest.len() > 0
        invariant
            lines_of(s@) == views(out@) + lines_of(rest@),
        decreases rest@.len(),
    {
        let i: usize = position(rest, '\n');
        let ghost before = out@;
        if i >= rest.len() {
            out.push(rest);
            assert(views(out@) =~= views(before) + seq![rest@]);
            return out;
        }
        let whole = slice_subrange(rest, 0, i);
        let n: usize = if i > 0 && whole[i - 1] == '\r' { i - 1 } else { i };
        let line = slice_subrange(rest, 0, n);
        out.push(line);
        let next = slice_subrange(rest, i + 1, rest.len());
        proof {
            assert(rest@.take(i as int) =~= whole@);
            assert(strip_cr(whole@) =~= line@);
            assert(rest@.skip(i + 1) =~= next@);
            assert(views(out@) =~= views(before) + seq![line@]);
            assert(views(out@) + lines_of(next@) =~= views(before) + lines_of(rest@));
        }
        rest = next;
    }
    assert(views(out@) + lines_of(rest@) =~= views(out@));
    out
}

/// The words of the slice.
pub fn words<'a>(s: &'a [char]) -> (r: Vec<&'a [char]>)
    ensures
        views(r@) == words_of(s@),
{
    let mut out: Vec<&'a [char]> = Vec::new();
    let mut rest: &'a [char] = s;
    assert(views(out@) + words_of(rest@) =~= words_of(s@));
    while rest.len() > 0
        invariant
            words_of(s@) == views(out@) + words_of(rest@),
        decreases rest@.len(),
    {
        let ghost before = out@;
        if space(rest[0]) {
            let next = slice_subrange(rest, 1, rest.len());
            assert(rest@.skip(1) =~= next@);
            rest = next;
        } else {
            let n: usize = word_end(rest);
            let word = slice_subrange(rest, 0, n);
            out.push(word);
            let next = slice_subrange(rest, n, rest.len());
            proof {
                assert(rest@.take(n as int) =~= word@);
                assert(rest@.skip(n as int) =~= next@);
                assert(views(out@) =~= views(before) + seq![word@]);
                assert(views(out@) + words_of(next@) =~= views(before) + words_of(rest@));
            }
            rest = next;
        }
    }
    assert(views(out@) + words_of(rest@) =~= views(out@));
    out
}

/// The parts one after the other, with `sep` between each two.
pub fn join_slices(parts: &[&[char]], sep: &str) -> (r: String)
    ensures
        r@ == join_with(views(parts@), sep@),
{
    let mut out = String::new();
    let mut i: usize = 0;
    assert(views(parts@).take(0) =~= seq![]);
    while i < parts.len()
        invariant
            i <= parts@.len(),
            out@ == join_with(views(parts@).take(i as int), sep@),
        decreases parts@.len() - i,
    {
        let ghost v = views(parts@);
        proof {
            assert(v.take(i + 1).drop_last() =~= v.take(i as int));
            assert(v.take(i + 1).last() == parts@[i as int]@);
        }
        if i > 0 {
            out.append(sep);
        }
        push_chars(&mut out, parts[i]);
        proof {
            if i == 0 {
                assert(out@ =~= v.take(1)[0]);
            }
        }
        i += 1;
    }
    assert(views(parts@).take(parts@.len() as int) =~= views(parts@));
    out
}

/// The strings one after the other, with `sep` between each two.
pub fn join_strings(parts: &[String], sep: &str) -> (r: String)
    ensures
        r@ == join_with(string_views(parts@), sep@),
{
    let mut out = String::new();
    let mut i: usize = 0;
    assert(string_views(parts@).take(0) =~= seq![]);
    while i < parts.len()
        invariant
            i <= parts@.len(),
            out@ == join_with(string_views(parts@).take(i as int), sep@),
        decreases parts@.len() - i,
    {
        let ghost v = string_views(parts@);
        proof {
            assert(v.take(i + 1).drop_last() =~= v.take(i as int));
            assert(v.take(i + 1).last() == parts@[i as int]@);
        }
        if i > 0 {
            out.append(sep);
        }
        out.append(parts[i].as_str());
        proof {
            if i == 0 {
                assert(out@ =~= v.take(1)[0]);
            }
        }
        i += 1;
    }
    assert(string_views(parts@).take(parts@.len() as int) =~= string_views(parts@));
    out
}

/// The string slices one after the other, with `sep` between each two.
pub fn join_strs(parts: &[&str], sep: &str) -> (r: String)
    ensures
        r@ == join_with(str_views(parts@), sep@),
{
    let mut owned: Vec<String> = Vec::new();
    let mut i: usize = 0;
    while i < parts.len()
        invariant
            i <= parts@.len(),
            string_views(owned@) == str_views(parts@).take(i as int),
        decreases parts@.len() - i,
    {
        let ghost before = owned@;
        owned.push(parts[i].to_owned());
        assert(string_views(owned@) =~= string_views(before).push(parts@[i as int]@));
        i += 1;
        assert(string_views(owned@) =~= str_views(parts@).take(i as int));
    }
    assert(str_views(parts@).take(i as int) =~= str_views(parts@));
    join_strings(owned.as_slice(), sep)
}

/// Where a text stands in a list, if it does: the first place.
pub fn place_of(list: &[String], s: &str) -> (r: Option<usize>)
    ensures
        match r {
            Some(i) => i < list@.len() && list@[i as int]@ == s@ && forall|j: int|
                0 <= j < i ==> (#[trigger] string_views(list@)[j]) != s@,
            None => !string_views(list@).contains(s@),
        },
{
    let mut i: usize = 0;
    while i < list.len()
        invariant
            i <= list@.len(),
            forall|j: int| 0 <= j < i ==> (#[trigger] string_views(list@)[j]) != s@,
        decreases list@.len() - i,
    {
        assert(string_views(list@)[i as int] == list@[i as int]@);
        if str_same(list[i].as_str(), s) {
            return Some(i);
        }
        i += 1;
    }
    None
}

// ---------------------------------------------------------------------------
// Numbers
// ---------------------------------------------------------------------------

/// What a digit stands for: `0` to `9` for themselves, then the letters in
/// either case from ten on; a number past any radix for every other character.
pub open spec fn digit_of(c: char) -> nat {
    if is_digit(c) {
        (c as u32 - 48) as nat
    } else if 'a' <= c <= 'z' {
        (c as u32 - 87) as nat
    } else if 'A' <= c <= 'Z' {
        (c as u32 - 55) as nat
    } else {
        255
    }
}

/// Every character of `s` is a digit of the radix.
pub open spec fn all_digits(s: Seq<char>, radix: nat) -> bool {
    forall|i: int| 0 <= i < s.len() ==> digit_of(#[trigger] s[i]) < radix
}

/// The number that the digits of `s` write in the radix.
pub open spec fn digits_value(s: Seq<char>, radix: nat) -> nat
    decreases s.len(),
{
    if s.len() == 0 {
        0
    } else {
        digits_value(s.drop_last(), radix) * radix + digit_of(s.last())
    }
}

/// `s` without the plus sign that a number may begin with.
pub open spec fn unsigned_part(s: Seq<char>) -> Seq<char> {
    if s.len() > 0 && s[0] == '+' {
        s.skip(1)
    } else {
        s
    }
}

/// The number that `s` writes: an optional plus sign, then one or more digits
/// of the radix, with a value of at most `max`.
pub open spec fn number(s: Seq<char>, radix: nat, max: nat) -> Option<nat> {
    let d = unsigned_part(s);
    if d.len() > 0 && all_digits(d, radix) && digits_value(d, radix) <= max {
        Some(digits_value(d, radix))
    } else {
        None
    }
}

/// The digits that write `n` in decimal, without leading zeros.
pub open spec fn decimal(n: nat) -> Seq<char>
    decreases n,
{
    if n < 10 {
        seq![(48 + n) as char]
    } else {
        decimal(n / 10).push((48 + n % 10) as char)
    }
}

/// The upper-case hexadecimal digit of a number below sixteen.
pub open spec fn hex_char(n: int) -> char {
    if n < 10 {
        (48 + n) as char
    } else {
        (55 + n) as char
    }
}

/// A byte as two upper-case hexadecimal digits.
pub open spec fn hex_byte(b: u8) -> Seq<char> {
    seq![hex_char(b as int / 16), hex_char(b as int % 16)]
}

fn digit_value(c: char) -> (r: u32)
    ensures
        r == digit_of(c),
{
    if '0' <= c && c <= '9' {
        c as u32 - 48
    } else if 'a' <= c && c <= 'z' {
        c as u32 - 87
    } else if 'A' <= c && c <= 'Z' {
        c as u32 - 55
    } else {
        255
    }
}

proof fn lemma_digits_value_prefix(s: Seq<char>, radix: nat, i: int)
    requires
        0 <= i <= s.len(),
        radix >= 1,
    ensures
        digits_value(s.take(i), radix) <= digits_value(s, radix),
    decreases s.len(),
{
    if i == s.len() {
        assert(s.take(i) =~= s);
    } else {
        lemma_digits_value_prefix(s.drop_last(), radix, i);
        assert(s.drop_last().take(i) =~= s.take(i));
        let v = digits_value(s.drop_last(), radix);
        assert(v <= v * radix) by (nonlinear_arith)
            requires
                radix >= 1,
        ;
    }
}

/// Reads a number in radix ten or sixteen that is at most `max`.
pub fn parse_number(s: &[char], radix: u32, max: u32) -> (r: Option<u32>)
    requires
        2 <= radix <= 36,
    ensures
        match r {
            Some(v) => number(s@, radix as nat, max as nat) == Some(v as nat),
            None => number(s@, radix as nat, max as nat) is None,
        },
{
    let d = if s.len() > 0 && s[0] == '+' { slice_subrange(s, 1, s.len()) } else { s };
    assert(d@ =~= unsigned_part(s@));
    if d.len() == 0 {
        return None;
    }
    let mut value: u64 = 0;
    let mut i: usize = 0;
    while i < d.len()
        invariant
            2 <= radix <= 36,
            d@ == unsigned_part(s@),
            i <= d@.len(),
            value <= max,
            all_digits(d@.take(i as int), radix as nat),
            value == digits_value(d@.take(i as int), radix as nat),
        decreases d@.len() - i,
    {
        let g: u32 = digit_value(d[i]);
        assert(d@.take(i + 1).drop_last() =~= d@.take(i as int));
        if g >= radix {
            assert(!all_digits(d@, radix as nat)) by {
                assert(digit_of(d@[i as int]) >= radix);
            }
            return None;
        }
        assert(value * radix <= 0xffff_ffff * 36) by (nonlinear_arith)
            requires
                value <= 0xffff_ffff,
                radix <= 36,
        ;
        value = value * (radix as u64) + g as u64;
        assert(all_digits(d@.take(i + 1), radix as nat)) by {
            assert forall|j: int| 0 <= j < i + 1 implies digit_of(#[trigger] d@.take(i + 1)[j]) < radix by {
                if j < i {
                    assert(d@.take(i as int)[j] == d@.take(i + 1)[j]);
                }
            }
        }
        if value > max as u64 {
            proof {
                lemma_digits_value_prefix(d@, radix as nat, i + 1);
            }
            return None;
        }
        i += 1;
    }
    assert(d@.take(d@.len() as int) =~= d@);
    Some(value as u32)
}

/// Appends a number in decimal.
pub fn push_decimal(out: &mut String, n: u64)
    ensures
        final(out)@ == old(out)@ + decimal(n as nat),
    decreases n,
{
    if n >= 10 {
        push_decimal(out, n / 10);
    }
    out.push((48u8 + (n % 10) as u8) as char);
}

/// Appends a byte as two upper-case hexadecimal digits.
pub fn push_hex_byte(out: &mut String, b: u8)
    ensures
        final(out)@ == old(out)@ + hex_byte(b),
{
    let hi: u8 = b / 16;
    let lo: u8 = b % 16;
    out.push(if hi < 10 { (48 + hi) as char } else { (55 + hi) as char });
    out.push(if lo < 10 { (48 + lo) as char } else { (55 + lo) as char });
}

// ---------------------------------------------------------------------------
// Laws
// ---------------------------------------------------------------------------

/// A text that neither begins nor ends with white space is its own trim.
pub proof fn lemma_trim_fixed(s: Seq<char>)
    requires
        s.len() > 0 ==> !is_space(s[0]) && !is_space(s.last()),
    ensures
        trim_of(s) == s,
{
}

/// Splitting sets off the part before the first separator.
pub proof fn lemma_split_first(part: Seq<char>, c: char, rest: Seq<char>)
    requires
        !part.contains(c),
    ensures
        split_on(part.push(c) + rest, c) == seq![part] + split_on(rest, c),
{
    let s = part.push(c) + rest;
    let n = part.len() as int;
    assert forall|j: int| 0 <= j < n implies s[j] != c by {
        assert(s[j] == part[j]);
    }
    assert(s[n] == c);
    lemma_index_of(s, c, n);
    assert(s.take(n) =~= part);
    assert(s.skip(n + 1) =~= rest);
}

/// A text without the separator is one part.
pub proof fn lemma_split_single(part: Seq<char>, c: char)
    requires
        !part.contains(c),
    ensures
        split_on(part, c) == seq![part],
{
    lemma_index_of_props(part, c);
}

/// Splitting and joining with the separator gives the text back.
pub proof fn lemma_split_join(s: Seq<char>, c: char)
    ensures
        join_with(split_on(s, c), seq![c]) == s,
    decreases s.len(),
{
    lemma_index_of_props(s, c);
    let i = index_of(s, c) as int;
    if i < s.len() {
        let rest = s.skip(i + 1);
        lemma_split_join(rest, c);
        lemma_join_first(s.take(i), split_on(rest, c), seq![c]);
        assert(s.take(i) + seq![c] + rest =~= s);
    } else {
        assert(join_with(seq![s], seq![c]) =~= s);
    }
}

proof fn lemma_join_first(first: Seq<char>, rest: Seq<Seq<char>>, sep: Seq<char>)
    requires
        rest.len() > 0,
    ensures
        join_with(seq![first] + rest, sep) == first + sep + join_with(rest, sep),
    decreases rest.len(),
{
    let all = seq![first] + rest;
    assert(all.last() == rest.last());
    if rest.len() == 1 {
        assert(all.drop_last() =~= seq![first]);
        assert(join_with(all.drop_last(), sep) == first);
        assert(first + sep + rest.last() =~= first + sep + join_with(rest, sep));
    } else {
        assert(all.drop_last() =~= seq![first] + rest.drop_last());
        lemma_join_first(first, rest.drop_last(), sep);
        assert(join_with(all, sep) =~= first + sep + (join_with(rest.drop_last(), sep) + sep + rest.last()));
    }
}

/// A text that has been trimmed has no white space at either end.
pub proof fn lemma_trimmed_ends(s: Seq<char>)
    ensures
        trim_of(s).len() > 0 ==> !is_space(trim_of(s)[0]) && !is_space(trim_of(s).last()),
{
    let t = trim_start_of(s);
    lemma_trim_start_ends(s);
    lemma_trim_end_ends(t);
}

/// To trim a text takes off white space at either end and nothing else.
pub proof fn lemma_trim_parts(s: Seq<char>) -> (r: (Seq<char>, Seq<char>))
    ensures
        s == r.0 + trim_of(s) + r.1,
        forall|i: int| 0 <= i < r.0.len() ==> is_space(#[trigger] r.0[i]),
        forall|i: int| 0 <= i < r.1.len() ==> is_space(#[trigger] r.1[i]),
{
    let before = lemma_trim_start_part(s);
    let after = lemma_trim_end_part(trim_start_of(s));
    assert(s =~= before + trim_of(s) + after);
    (before, after)
}

proof fn lemma_trim_start_part(s: Seq<char>) -> (r: Seq<char>)
    ensures
        s == r + trim_start_of(s),
        forall|i: int| 0 <= i < r.len() ==> is_space(#[trigger] r[i]),
    decreases s.len(),
{
    if s.len() > 0 && is_space(s[0]) {
        let rest = lemma_trim_start_part(s.skip(1));
        assert(s =~= seq![s[0]] + s.skip(1));
        assert(s =~= (seq![s[0]] + rest) + trim_start_of(s));
        seq![s[0]] + rest
    } else {
        assert(s =~= Seq::<char>::empty() + s);
        Seq::empty()
    }
}

pub proof fn lemma_trim_end_part(s: Seq<char>) -> (r: Seq<char>)
    ensures
        s == trim_end_of(s) + r,
        forall|i: int| 0 <= i < r.len() ==> is_space(#[trigger] r[i]),
    decreases s.len(),
{
    if s.len() > 0 && is_space(s.last()) {
        let rest = lemma_trim_end_part(s.drop_last());
        assert(s =~= s.drop_last().push(s.last()));
        assert(s =~= trim_end_of(s) + rest.push(s.last()));
        rest.push(s.last())
    } else {
        assert(s =~= s + Seq::<char>::empty());
        Seq::empty()
    }
}

proof fn lemma_trim_start_ends(s: Seq<char>)
    ensures
        trim_start_of(s).len() > 0 ==> !is_space(trim_start_of(s)[0]),
    decreases s.len(),
{
    if s.len() > 0 && is_space(s[0]) {
        lemma_trim_start_ends(s.skip(1));
    }
}

proof fn lemma_trim_end_ends(s: Seq<char>)
    ensures
        trim_end_of(s).len() > 0 ==> !is_space(trim_end_of(s).last()) && trim_end_of(s)[0] == s[0],
    decreases s.len(),
{
    if s.len() > 0 && is_space(s.last()) {
        lemma_trim_end_ends(s.drop_last());
    }
}

/// The decimal digits of a number are digits, at least one, and write it.
pub proof fn lemma_decimal(n: nat)
    ensures
        decimal(n).len() > 0,
        forall|i: int| 0 <= i < decimal(n).len() ==> is_digit(#[trigger] decimal(n)[i]),
        all_digits(decimal(n), 10),
        digits_value(decimal(n), 10) == n,
    decreases n,
{
    let s = decimal(n);
    if n < 10 {
        let c = (48 + n) as char;
        assert(s.drop_last() =~= seq![]);
        assert(digit_of(c) == n);
        assert(digits_value(s.drop_last(), 10) == 0);
    } else {
        lemma_decimal(n / 10);
        let c = (48 + n % 10) as char;
        assert(digit_of(c) == n % 10);
        assert(s.drop_last() =~= decimal(n / 10));
        assert forall|i: int| 0 <= i < s.len() implies is_digit(#[trigger] s[i]) by {
            if i < s.len() - 1 {
                assert(s[i] == decimal(n / 10)[i]);
            }
        }
    }
    assert forall|i: int| 0 <= i < s.len() implies digit_of(#[trigger] s[i]) < 10 by {
        assert(is_digit(s[i]));
    }
}

/// Writing a number in decimal and reading it gives the number back.
pub proof fn lemma_number_of_decimal(n: nat, max: nat)
    requires
        n <= max,
    ensures
        number(decimal(n), 10, max) == Some(n),
{
    lemma_decimal(n);
    assert(is_digit(decimal(n)[0]));
}

/// The two digits of a byte are hexadecimal digits, and write it.
pub proof fn lemma_hex_byte(b: u8)
    ensures
        is_hex_digit(hex_byte(b)[0]),
        is_hex_digit(hex_byte(b)[1]),
        number(hex_byte(b), 16, 255) == Some(b as nat),
{
    let s = hex_byte(b);
    let hi = b as int / 16;
    let lo = b as int % 16;
    assert(digit_of(s[0]) == hi);
    assert(digit_of(s[1]) == lo);
    assert(s.drop_last() =~= seq![s[0]]);
    assert(s.drop_last().drop_last() =~= seq![]);
    assert(digits_value(s.drop_last().drop_last(), 16) == 0);
    assert(digits_value(s.drop_last(), 16) == hi);
    assert(digits_value(s, 16) == hi * 16 + lo);
}

/// A text between white space is what is left when that is trimmed off.
pub proof fn lemma_trim_between(before: Seq<char>, s: Seq<char>, after: Seq<char>)
    requires
        forall|i: int| 0 <= i < before.len() ==> is_space(#[trigger] before[i]),
        forall|i: int| 0 <= i < after.len() ==> is_space(#[trigger] after[i]),
        s.len() > 0 ==> !is_space(s[0]) && !is_space(s.last()),
    ensures
        trim_of(before + s + after) == s,
        s.len() > 0 ==> trim_start_of(before + s) == s,
        trim_end_of(s + after) == s,
{
    let whole = before + s + after;
    if s.len() > 0 {
        lemma_trim_start_over(before, s + after);
        assert(whole =~= before + (s + after));
        lemma_trim_start_over(before, s);
        lemma_trim_end_over(s, after);
    } else {
        lemma_trim_end_over(s, after);
        assert forall|i: int| 0 <= i < whole.len() implies is_space(#[trigger] whole[i]) by {
            if i >= before.len() {
                assert(whole[i] == after[i - before.len()]);
            }
        }
        lemma_trim_start_blank(whole);
    }
}

proof fn lemma_trim_start_over(before: Seq<char>, s: Seq<char>)
    requires
        forall|i: int| 0 <= i < before.len() ==> is_space(#[trigger] before[i]),
        s.len() > 0,
        !is_space(s[0]),
    ensures
        trim_start_of(before + s) == s,
    decreases before.len(),
{
    if before.len() == 0 {
        assert(before + s =~= s);
    } else {
        let rest = before.skip(1);
        assert forall|i: int| 0 <= i < rest.len() implies is_space(#[trigger] rest[i]) by {
            assert(rest[i] == before[i + 1]);
        }
        lemma_trim_start_over(rest, s);
        assert((before + s).skip(1) =~= rest + s);
        assert((before + s)[0] == before[0]);
    }
}

proof fn lemma_trim_start_blank(s: Seq<char>)
    requires
        forall|i: int| 0 <= i < s.len() ==> is_space(#[trigger] s[i]),
    ensures
        trim_start_of(s) == Seq::<char>::empty(),
    decreases s.len(),
{
    if s.len() > 0 {
        let rest = s.skip(1);
        assert forall|i: int| 0 <= i < rest.len() implies is_space(#[trigger] rest[i]) by {
            assert(rest[i] == s[i + 1]);
        }
        lemma_trim_start_blank(rest);
        assert(is_space(s[0]));
    } else {
        assert(s =~= Seq::<char>::empty());
    }
}

pub proof fn lemma_trim_end_over(s: Seq<char>, after: Seq<char>)
    requires
        forall|i: int| 0 <= i < after.len() ==> is_space(#[trigger] after[i]),
        s.len() > 0 ==> !is_space(s.last()),
    ensures
        trim_end_of(s + after) == s,
    decreases after.len(),
{
    if after.len() == 0 {
        assert(s + after =~= s);
    } else {
        let rest = after.drop_last();
        assert forall|i: int| 0 <= i < rest.len() implies is_space(#[trigger] rest[i]) by {
            assert(rest[i] == after[i]);
        }
        lemma_trim_end_over(s, rest);
        assert((s + after).drop_last() =~= s + rest);
        assert((s + after).last() == after[after.len() - 1]);
    }
}

/// A line ends at the first line feed, and a carriage return right before it
/// does not belong to it. What is left without a line feed is a line too,
/// unless it is empty.
pub proof fn lemma_lines(line: Seq<char>, rest: Seq<char>)
    requires
        !line.contains('\n'),
    ensures
        line.len() > 0 ==> lines_of(line) == seq![line],
        line.len() == 0 ==> lines_of(line).len() == 0,
        line.len() == 0 || line.last() != '\r' ==> {
            &&& lines_of(line.push('\n') + rest) == seq![line] + lines_of(rest)
            &&& lines_of(line.push('\r').push('\n') + rest) == seq![line] + lines_of(rest)
        },
{
    lemma_index_of_props(line, '\n');
    if line.len() == 0 || line.last() != '\r' {
        lemma_one_line(line, rest);
        let with = line.push('\r');
        assert forall|j: int| 0 <= j < with.len() implies with[j] != '\n' by {
            if j < line.len() {
                assert(with[j] == line[j]);
            }
        }
        assert(!with.contains('\n'));
        lemma_one_line(with, rest);
        assert(with.drop_last() =~= line);
    }
}

proof fn lemma_one_line(line: Seq<char>, rest: Seq<char>)
    requires
        !line.contains('\n'),
    ensures
        lines_of(line.push('\n') + rest) == seq![strip_cr(line)] + lines_of(rest),
{
    let s = line.push('\n') + rest;
    let n = line.len() as int;
    assert forall|j: int| 0 <= j < n implies s[j] != '\n' by {
        assert(s[j] == line[j]);
    }
    assert(s[n] == '\n');
    lemma_index_of(s, '\n', n);
    assert(s.take(n) =~= line);
    assert(s.skip(n + 1) =~= rest);
}

/// A word ends at the next white space, and white space belongs to no word.
pub proof fn lemma_words(word: Seq<char>, space: char, rest: Seq<char>)
    requires
        word.len() > 0,
        forall|i: int| 0 <= i < word.len() ==> !is_space(#[trigger] word[i]),
        is_space(space),
    ensures
        words_of(word) == seq![word],
        words_of(word.push(space) + rest) == seq![word] + words_of(rest),
        words_of(seq![space] + rest) == words_of(rest),
        words_of(Seq::empty()).len() == 0,
{
    lemma_word_alone(word);
    assert(word.take(word.len() as int) =~= word);
    assert(word.skip(word.len() as int) =~= Seq::empty());
    assert(!is_space(word[0]));
    assert(words_of(Seq::<char>::empty()) =~= seq![]);
    assert(words_of(word) =~= seq![word]);
    let s = word.push(space) + rest;
    let n = word.len() as int;
    assert(s[0] == word[0]);
    assert forall|j: int| 0 <= j < n implies !is_space(#[trigger] s[j]) by {
        assert(s[j] == word[j]);
    }
    assert(s[n] == space);
    lemma_word_len(s, n);
    assert(s.take(n) =~= word);
    assert(s.skip(n) =~= seq![space] + rest);
    assert((seq![space] + rest).skip(1) =~= rest);
    assert((seq![space] + rest)[0] == space);
    assert(words_of(seq![space] + rest) == words_of(rest));
    assert(!is_space(s[0]));
    assert(word_len(s) == n);
}

proof fn lemma_word_alone(word: Seq<char>)
    requires
        forall|i: int| 0 <= i < word.len() ==> !is_space(#[trigger] word[i]),
    ensures
        word_len(word) == word.len(),
    decreases word.len(),
{
    if word.len() > 0 {
        let rest = word.skip(1);
        assert forall|i: int| 0 <= i < rest.len() implies !is_space(#[trigger] rest[i]) by {
            assert(rest[i] == word[i + 1]);
        }
        lemma_word_alone(rest);
        assert(!is_space(word[0]));
    }
}

/// One part more comes last, after the separator; one part stands alone.
pub proof fn lemma_join_one_more(parts: Seq<Seq<char>>, part: Seq<char>, sep: Seq<char>)
    ensures
        join_with(parts.push(part), sep) == if parts.len() == 0 {
            part
        } else {
            join_with(parts, sep) + sep + part
        },
        join_with(seq![], sep).len() == 0,
{
    assert(parts.push(part).drop_last() =~= parts);
}

/// One digit more multiplies the number by the radix and adds the digit. A sign
/// in front changes nothing, and what is not made of digits, or is too large,
/// is no number.
pub proof fn lemma_number_read(digits: Seq<char>, c: char, radix: nat, max: nat)
    ensures
        digits_value(Seq::empty(), radix) == 0,
        digits_value(digits.push(c), radix) == digits_value(digits, radix) * radix + digit_of(c),
        digits.len() == 0 || digits[0] != '+' ==> {
            &&& number(seq!['+'] + digits, radix, max) == number(digits, radix, max)
            &&& number(digits, radix, max) == if digits.len() > 0 && digits_value(digits, radix) <= max && (forall|i: int|
                0 <= i < digits.len() ==> digit_of(#[trigger] digits[i]) < radix) {
                Some(digits_value(digits, radix))
            } else {
                None
            }
        },
{
    assert(digits.push(c).drop_last() =~= digits);
    assert((seq!['+'] + digits).skip(1) =~= digits);
}

/// What the characters stand for: the digits from zero to nine, the letters in
/// either case from ten to thirty-five, and nothing else in any radix.
pub proof fn lemma_digit(c: char)
    ensures
        '0' <= c <= '9' ==> digit_of(c) == c as u32 - '0' as u32,
        'a' <= c <= 'z' ==> digit_of(c) == c as u32 - 'a' as u32 + 10,
        'A' <= c <= 'Z' ==> digit_of(c) == c as u32 - 'A' as u32 + 10,
        !('0' <= c <= '9') && !('a' <= c <= 'z') && !('A' <= c <= 'Z') ==> digit_of(c) >= 36,
        is_digit(c) <==> '0' <= c <= '9',
        is_hex_digit(c) <==> digit_of(c) < 16,
{
}

/// Letters are changed into the other case, and nothing else is.
pub proof fn lemma_case(c: char)
    ensures
        'a' <= c <= 'z' ==> upper(c) as u32 == c as u32 - 32 && lower(c) == c && lower(upper(c)) == c,
        'A' <= c <= 'Z' ==> lower(c) as u32 == c as u32 + 32 && upper(c) == c && upper(lower(c)) == c,
        !('a' <= c <= 'z') && !('A' <= c <= 'Z') ==> upper(c) == c && lower(c) == c,
{
}

/// Two texts agree up to case where they are equally long and each two
/// characters are the same or the two cases of one letter.
pub proof fn lemma_same_ignoring_case(a: Seq<char>, b: Seq<char>)
    ensures
        same_ignoring_case(a, b) <==> a.len() == b.len() && forall|i: int|
            0 <= i < a.len() ==> lower(#[trigger] a[i]) == lower(b[i]),
{
    let la = a.map_values(|c: char| lower(c));
    let lb = b.map_values(|c: char| lower(c));
    assert(same_ignoring_case(a, b) == (la == lb));
    assert(la.len() == a.len() && lb.len() == b.len());
    assert forall|i: int| 0 <= i < a.len() implies la[i] == lower(#[trigger] a[i]) by {
    }
    assert forall|i: int| 0 <= i < b.len() implies lb[i] == lower(#[trigger] b[i]) by {
    }
    if la == lb {
        assert forall|i: int| 0 <= i < a.len() implies lower(#[trigger] a[i]) == lower(b[i]) by {
            assert(la[i] == lb[i]);
        }
    }
    if a.len() == b.len() && forall|i: int| 0 <= i < a.len() ==> lower(#[trigger] a[i]) == lower(b[i]) {
        assert forall|i: int| 0 <= i < la.len() implies la[i] == lb[i] by {
            assert(lower(a[i]) == lower(b[i]));
            assert(lb[i] == lower(b[i]));
        }
        assert(la =~= lb);
    }
}

/// A text begins with, ends with or holds another where it is made up of it and
/// what stands after it, before it, or on both sides; and only there.
pub proof fn lemma_occurs(before: Seq<char>, p: Seq<char>, after: Seq<char>, s: Seq<char>)
    ensures
        starts(p + after, p),
        ends(before + p, p),
        occurs(before + p + after, p),
        starts(s, p) ==> s == p + s.skip(p.len() as int),
        ends(s, p) ==> s == s.take(s.len() - p.len()) + p,
        occurs(s, p) ==> exists|i: int| 0 <= i <= s.len() - p.len() && s == #[trigger] s.take(i) + p + s.skip(i + p.len()),
{
    let m = p.len() as int;
    let k = before.len() as int;
    assert((p + after).subrange(0, m) =~= p);
    assert((before + p).subrange(k, k + m) =~= p);
    assert((before + p + after).subrange(k, k + m) =~= p);
    assert(occurs_at(before + p + after, p, k));
    if starts(s, p) {
        lemma_cut(s, p, 0);
        assert(s =~= p + s.skip(m));
    }
    if ends(s, p) {
        lemma_cut(s, p, s.len() - m);
        assert(s =~= s.take(s.len() - m) + p);
    }
    if occurs(s, p) {
        let i = choose|i: int| occurs_at(s, p, i);
        lemma_cut(s, p, i);
    }
}

proof fn lemma_cut(s: Seq<char>, p: Seq<char>, i: int)
    requires
        occurs_at(s, p, i),
    ensures
        s == s.take(i) + p + s.skip(i + p.len()),
{
    let m = p.len() as int;
    assert forall|j: int| i <= j < i + m implies s[j] == p[j - i] by {
        assert(s.subrange(i, i + m)[j - i] == p[j - i]);
    }
    assert(s =~= s.take(i) + p + s.skip(i + m));
}

/// The characters that count as white space, by their numbers.
pub proof fn lemma_space(c: char)
    ensures
        ({
            let v = c as u32;
            is_space(c) <==> {
                ||| 9 <= v <= 13
                ||| v == 32
                ||| v == 0x85
                ||| v == 0xa0
                ||| v == 0x1680
                ||| 0x2000 <= v <= 0x200a
                ||| 0x2028 <= v <= 0x2029
                ||| v == 0x202f
                ||| v == 0x205f
                ||| v == 0x3000
            }
        }),
{
}

} // verus!
