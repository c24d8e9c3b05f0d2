use vstd::prelude::*;

verus! {

/// `char::is_whitespace`: the characters with the Unicode `White_Space`
/// property. This is also what `\s` matches in a regular expression.
pub open spec fn is_whitespace(c: char) -> bool {
    let v = c as u32;
    ||| 0x09 <= v <= 0x0D
    ||| v == 0x20
    ||| v == 0x85
    ||| v == 0xA0
    ||| v == 0x1680
    ||| 0x2000 <= v <= 0x200A
    ||| v == 0x2028
    ||| v == 0x2029
    ||| v == 0x202F
    ||| v == 0x205F
    ||| v == 0x3000
}

/// `char::is_ascii_whitespace`: space, tab, line feed, form feed and carriage
/// return (not the vertical tab).
pub open spec fn is_ascii_whitespace(c: char) -> bool {
    c == ' ' || c == '\t' || c == '\n' || c == '\x0C' || c == '\r'
}

/// The characters that end a line: `\n`, `\r`, vertical tab, form feed,
/// next line, line separator and paragraph separator.
pub open spec fn is_newline(c: char) -> bool {
    let v = c as u32;
    v == 0x0A || v == 0x0D || v == 0x0B || v == 0x0C || v == 0x85 || v == 0x2028 || v == 0x2029
}

/// The kinds of character run that the readers take.
#[derive(Clone, Copy, Debug, PartialEq, Eq, Structural)]
pub enum CharClass {
    /// Unicode whitespace.
    Whitespace,
    /// Anything but ASCII whitespace.
    NotAsciiWhitespace,
    /// Anything but `:` and ASCII whitespace.
    PathChar,
    /// The space character alone.
    Space,
    /// Anything but whitespace and `=`.
    SymbolNameChar,
    /// ASCII letters, digits and `.`.
    SectionNameChar,
    /// Hexadecimal digits and `x` or `X`.
    AddressChar,
    /// Anything but `:`, space and line feed.
    AttrKeyChar,
    /// Anything but space and line feed.
    AttrValueChar,
}

/// An ASCII letter or decimal digit.
pub open spec fn is_ascii_alnum(c: char) -> bool {
    ('a' <= c <= 'z') || ('A' <= c <= 'Z') || ('0' <= c <= '9')
}

/// Whether `c` belongs to `class`.
pub open spec fn in_class(class: CharClass, c: char) -> bool {
    match class {
        CharClass::Whitespace => is_whitespace(c),
        CharClass::NotAsciiWhitespace => !is_ascii_whitespace(c),
        CharClass::PathChar => c != ':' && !is_ascii_whitespace(c),
        CharClass::Space => c == ' ',
        CharClass::SymbolNameChar => !is_whitespace(c) && c != '=',
        CharClass::SectionNameChar => is_ascii_alnum(c) || c == '.',
        CharClass::AddressChar => ('0' <= c <= '9') || ('a' <= c <= 'f') || ('A' <= c <= 'F') || c
            == 'x' || c == 'X',
        CharClass::AttrKeyChar => c != ':' && c != ' ' && c != '\n',
        CharClass::AttrValueChar => c != ' ' && c != '\n',
    }
}

/// What each kind of run is made of, character by character: Unicode
/// whitespace is tab, line feed, vertical tab, form feed, carriage return,
/// space, U+0085, U+00A0, U+1680, U+2000 to U+200A, U+2028, U+2029, U+202F,
/// U+205F and U+3000; ASCII whitespace is space, tab, line feed, form feed and
/// carriage return. A path takes every character but `:` and ASCII
/// whitespace; a symbol name every character but whitespace and `=`; a
/// section name ASCII letters, digits and `.`; an address the hexadecimal
/// digits of either case, `x` and `X`; an attribute key every character but
/// `:`, space and line feed; an attribute value every character but space and
/// line feed.
pub proof fn law_char_classes(c: char)
    ensures
        in_class(CharClass::Whitespace, c) <==> ({
            let v = c as u32;
            ||| 9 <= v <= 13
            ||| v == 32
            ||| v == 0x85
            ||| v == 0xA0
            ||| v == 0x1680
            ||| 0x2000 <= v <= 0x200A
            ||| v == 0x2028
            ||| v == 0x2029
            ||| v == 0x202F
            ||| v == 0x205F
            ||| v == 0x3000
        }),
        in_class(CharClass::NotAsciiWhitespace, c) <==> !(c == ' ' || c == '\t' || c == '\n' || c
            == '\x0C' || c == '\r'),
        in_class(CharClass::PathChar, c) <==> (c != ':' && !(c == ' ' || c == '\t' || c == '\n' || c
            == '\x0C' || c == '\r')),
        in_class(CharClass::Space, c) <==> c == ' ',
        in_class(CharClass::SymbolNameChar, c) <==> (c != '=' && !({
            let v = c as u32;
            ||| 9 <= v <= 13
            ||| v == 32
            ||| v == 0x85
            ||| v == 0xA0
            ||| v == 0x1680
            ||| 0x2000 <= v <= 0x200A
            ||| v == 0x2028
            ||| v == 0x2029
            ||| v == 0x202F
            ||| v == 0x205F
            ||| v == 0x3000
        })),
        in_class(CharClass::SectionNameChar, c) <==> (('a' <= c <= 'z') || ('A' <= c <= 'Z') || ('0'
            <= c <= '9') || c == '.'),
        in_class(CharClass::AddressChar, c) <==> (('0' <= c <= '9') || ('a' <= c <= 'f') || ('A' <= c
            <= 'F') || c == 'x' || c == 'X'),
        in_class(CharClass::AttrKeyChar, c) <==> (c != ':' && c != ' ' && c != '\n'),
        in_class(CharClass::AttrValueChar, c) <==> (c != ' ' && c != '\n'),
{
}

/// Where the longest run of `class` characters that starts at `i` ends.
pub open spec fn scan(s: Seq<char>, i: int, class: CharClass) -> int
    decreases s.len() - i,
{
    if 0 <= i < s.len() && in_class(class, s[i]) {
        scan(s, i + 1, class)
    } else {
        i
    }
}

/// `lit` stands in `s` at `i`.
pub open spec fn has_at(s: Seq<char>, i: int, lit: Seq<char>) -> bool {
    0 <= i && i + lit.len() <= s.len() && s.subrange(i, i + lit.len()) == lit
}

/// The run that `scan` finds is made of `class` characters and is followed by
/// the end of the text or by a character of another class.
pub proof fn lemma_scan(s: Seq<char>, i: int, class: CharClass)
    requires
        0 <= i <= s.len(),
    ensures
        i <= scan(s, i, class) <= s.len(),
        forall|j: int| i <= j < scan(s, i, class) ==> in_class(class, #[trigger] s[j]),
        scan(s, i, class) < s.len() ==> !in_class(class, s[scan(s, i, class)]),
    decreases s.len() - i,
{
    if i < s.len() && in_class(class, s[i]) {
        lemma_scan(s, i + 1, class);
    }
}

/// `scan` stays within the text and what it passes over is in the class,
/// wherever it starts.
pub proof fn lemma_scan_bounds(s: Seq<char>, i: int, class: CharClass)
    ensures
        scan(s, i, class) >= i,
        0 <= i ==> scan(s, i, class) <= s.len() || scan(s, i, class) == i,
        forall|j: int| i <= j < scan(s, i, class) ==> 0 <= j < s.len() && in_class(class, #[trigger] s[j]),
{
    if 0 <= i <= s.len() {
        lemma_scan(s, i, class);
    }
}

/// A run never ends before it starts.
pub proof fn lemma_scan_ge(s: Seq<char>, i: int, class: CharClass)
    ensures
        scan(s, i, class) >= i,
    decreases s.len() - i,
{
    if 0 <= i < s.len() && in_class(class, s[i]) {
        lemma_scan_ge(s, i + 1, class);
    }
}

/// `scan` depends only on the characters from `i` up to where the run ends.
pub proof fn lemma_scan_is(s: Seq<char>, i: int, k: int, class: CharClass)
    requires
        0 <= i <= k <= s.len(),
        forall|j: int| i <= j < k ==> in_class(class, #[trigger] s[j]),
        k < s.len() ==> !in_class(class, s[k]),
    ensures
        scan(s, i, class) == k,
    decreases k - i,
{
    if i < k {
        lemma_scan_is(s, i + 1, k, class);
    }
}

/// `a + b` stands at `i` exactly when `a` does and `b` follows it.
pub proof fn lemma_has_at_concat(s: Seq<char>, i: int, a: Seq<char>, b: Seq<char>)
    ensures
        has_at(s, i, a + b) <==> has_at(s, i, a) && has_at(s, i + a.len(), b),
{
    if has_at(s, i, a + b) {
        assert(s.subrange(i, i + a.len()) =~= (a + b).subrange(0, a.len() as int));
        assert((a + b).subrange(0, a.len() as int) =~= a);
        assert(s.subrange(i + a.len(), i + a.len() + b.len()) =~= (a + b).subrange(
            a.len() as int,
            (a.len() + b.len()) as int,
        ));
        assert((a + b).subrange(a.len() as int, (a.len() + b.len()) as int) =~= b);
    }
    if has_at(s, i, a) && has_at(s, i + a.len(), b) {
        assert forall|k: int| 0 <= k < a.len() + b.len() implies #[trigger] s.subrange(
            i,
            i + a.len() + b.len(),
        )[k] == (a + b)[k] by {
            if k < a.len() {
                assert(s.subrange(i, i + a.len())[k] == a[k]);
            } else {
                assert(s.subrange(i + a.len(), i + a.len() + b.len())[k - a.len()] == b[k
                    - a.len()]);
            }
        }
        assert(s.subrange(i, i + a.len() + b.len()) =~= a + b);
    }
}

/// A one-character literal is that character.
pub proof fn lemma_has_at_char(s: Seq<char>, i: int, c: char)
    ensures
        has_at(s, i, seq![c]) <==> (0 <= i < s.len() && s[i] == c),
{
    if 0 <= i < s.len() && s[i] == c {
        assert(s.subrange(i, i + 1) =~= seq![c]);
    }
    if has_at(s, i, seq![c]) {
        assert(s.subrange(i, i + 1)[0] == s[i]);
    }
}

/// The characters of a literal that stands at `i`.
pub proof fn lemma_has_at_index(s: Seq<char>, i: int, w: Seq<char>, k: int)
    requires
        has_at(s, i, w),
        0 <= k < w.len(),
    ensures
        s[i + k] == w[k],
{
    assert(s.subrange(i, i + w.len())[k] == s[i + k]);
}

/// A run of `class` characters that stands at `i` and is not followed by
/// another one is what `scan` finds there.
pub proof fn lemma_scan_word(s: Seq<char>, i: int, w: Seq<char>, class: CharClass)
    requires
        has_at(s, i, w),
        forall|k: int| 0 <= k < w.len() ==> in_class(class, #[trigger] w[k]),
        i + w.len() < s.len() ==> !in_class(class, s[i + w.len()]),
    ensures
        scan(s, i, class) == i + w.len(),
{
    assert forall|j: int| i <= j < i + w.len() implies in_class(class, #[trigger] s[j]) by {
        lemma_has_at_index(s, i, w, j - i);
    }
    lemma_scan_is(s, i, i + w.len(), class);
}

/// Whether `c` belongs to `class`.
pub fn class_contains(class: CharClass, c: char) -> (res: bool)
    ensures
        res == in_class(class, c),
{
    match class {
        CharClass::Whitespace => is_whitespace_char(c),
        CharClass::NotAsciiWhitespace => !is_ascii_whitespace_char(c),
        CharClass::PathChar => c != ':' && !is_ascii_whitespace_char(c),
        CharClass::Space => c == ' ',
        CharClass::SymbolNameChar => !is_whitespace_char(c) && c != '=',
        CharClass::SectionNameChar => ('a' <= c && c <= 'z') || ('A' <= c && c <= 'Z') || ('0' <= c
            && c <= '9') || c == '.',
        CharClass::AddressChar => ('0' <= c && c <= '9') || ('a' <= c && c <= 'f') || ('A' <= c
            && c <= 'F') || c == 'x' || c == 'X',
        CharClass::AttrKeyChar => c != ':' && c != ' ' && c != '\n',
        CharClass::AttrValueChar => c != ' ' && c != '\n',
    }
}

/// `char::is_whitespace`.
pub fn is_whitespace_char(c: char) -> (res: bool)
    ensures
        res == is_whitespace(c),
{
    let v = c as u32;
    (0x09 <= v && v <= 0x0D) || v == 0x20 || v == 0x85 || v == 0xA0 || v == 0x1680 || (0x2000 <= v
        && v <= 0x200A) || v == 0x2028 || v == 0x2029 || v == 0x202F || v == 0x205F || v == 0x3000
}

/// `char::is_ascii_whitespace`.
pub fn is_ascii_whitespace_char(c: char) -> (res: bool)
    ensures
        res == is_ascii_whitespace(c),
{
    c == ' ' || c == '\t' || c == '\n' || c == '\x0C' || c == '\r'
}

/// `is_newline` on a character.
pub fn is_newline_char(c: char) -> (res: bool)
    ensures
        res == is_newline(c),
{
    let v = c as u32;
    v == 0x0A || v == 0x0D || v == 0x0B || v == 0x0C || v == 0x85 || v == 0x2028 || v == 0x2029
}

/// The end of the longest run of `class` characters in `s` that starts at
/// `start` (the run may be empty).
pub fn take_while(s: &[char], start: usize, class: CharClass) -> (end: usize)
    requires
        start <= s@.len(),
    ensures
        end == scan(s@, start as int, class),
        start <= end <= s@.len(),
{
    proof {
        lemma_scan(s@, start as int, class);
    }
    let mut i = start;
    while i < s.len() && class_contains(class, s[i])
        invariant
            start <= i <= s@.len(),
            scan(s@, i as int, class) == scan(s@, start as int, class),
        decreases s@.len() - i,
    {
        i = i + 1;
    }
    i
}

/// The end of the run of `class` characters that starts at `start`, when that
/// run has at least one character.
pub fn take_while1(s: &[char], start: usize, class: CharClass) -> (res: Option<usize>)
    requires
        start <= s@.len(),
    ensures
        match res {
            Some(end) => end == scan(s@, start as int, class) && start < end <= s@.len(),
            None => scan(s@, start as int, class) == start,
        },
{
    let end = take_while(s, start, class);
    if end > start {
        Some(end)
    } else {
        None
    }
}

/// The end of the run of characters other than ASCII whitespace that starts at
/// `start`, when that run has at least one character.
pub fn take_until_space1(s: &[char], start: usize) -> (res: Option<usize>)
    requires
        start <= s@.len(),
    ensures
        match res {
            Some(end) => end == scan(s@, start as int, CharClass::NotAsciiWhitespace) && start < end
                <= s@.len(),
            None => scan(s@, start as int, CharClass::NotAsciiWhitespace) == start,
        },
{
    take_while1(s, start, CharClass::NotAsciiWhitespace)
}

/// Whether the characters `lit` stand in `s` at `i`.
pub fn literal_at(s: &[char], i: usize, lit: &[char]) -> (res: bool)
    ensures
        res == has_at(s@, i as int, lit@),
{
    if i > s.len() || lit.len() > s.len() - i {
        return false;
    }
    let n = s.len();
    let mut k: usize = 0;
    while k < lit.len()
        invariant
            n == s@.len(),
            i + lit@.len() <= s@.len(),
            k <= lit@.len(),
            forall|j: int| 0 <= j < k ==> s@[i + j] == lit@[j],
        decreases lit@.len() - k,
    {
        if s[i + k] != lit[k] {
            assert(s@.subrange(i as int, i + lit@.len())[k as int] != lit@[k as int]);
            return false;
        }
        k = k + 1;
    }
    assert(s@.subrange(i as int, i + lit@.len()) =~= lit@);
    true
}

} // verus!
