use vstd::prelude::*;

use crate::symbols::{
    default_attrs, fold_attrs, is_word, spec_data_kind, spec_symbol_flag, spec_symbol_kind, Attr,
    Attrs, AttrsSpec, ObjDataKind, ObjSymbol, ObjSymbolFlag, ObjSymbolKind, SymbolSpec,
};
use crate::util::parser::{
    has_at, in_class, is_newline, is_newline_char, lemma_scan, lemma_scan_ge, lemma_scan_word, literal_at,
    scan, take_while,
    take_while1, CharClass,
};
use crate::util::parsing::{
    failure_within, kept, kept_further, parse_dec_or_hex_chars, Failure, unexpected_at, spec_parse_dec_or_hex, within, ParseError,
    NumberError, ParseErrorReason,
};
use crate::util::text::Text;

verus! {

/// What opens the attribute comment of a symbol line.
pub open spec fn comment_start() -> Seq<char> {
    seq!['/', '/']
}

/// The one attribute that has no value.
pub open spec fn hidden_word() -> Seq<char> {
    seq!['h', 'i', 'd', 'd', 'e', 'n']
}

/// The attribute that `key:value` stands for: `type:` takes a symbol kind,
/// `scope:` a scope, `size:` and `align:` a number, `data:` a data kind.
pub open spec fn spec_key_value(key: Seq<char>, value: Seq<char>) -> Option<Attr> {
    if key == seq!['t', 'y', 'p', 'e'] {
        match spec_symbol_kind(value) {
            Some(k) => Some(Attr::Type(k)),
            None => None,
        }
    } else if key == seq!['s', 'c', 'o', 'p', 'e'] {
        match spec_symbol_flag(value) {
            Some(f) => Some(Attr::Flag(f)),
            None => None,
        }
    } else if key == seq!['s', 'i', 'z', 'e'] {
        match spec_parse_dec_or_hex(value) {
            Ok(n) => Some(Attr::Size(n)),
            Err(_) => None,
        }
    } else if key == seq!['d', 'a', 't', 'a'] {
        match spec_data_kind(value) {
            Some(d) => Some(Attr::Data(d)),
            None => None,
        }
    } else if key == seq!['a', 'l', 'i', 'g', 'n'] {
        match spec_parse_dec_or_hex(value) {
            Ok(n) => Some(Attr::Align(n)),
            Err(_) => None,
        }
    } else {
        None
    }
}

/// `key:value` at `i`, where the key has no `:`, space or line feed and the
/// value no space or line feed, and the pair names an attribute.
pub open spec fn spec_key_value_attr(s: Seq<char>, i: int) -> Option<(Attr, int)> {
    let k1 = scan(s, i, CharClass::AttrKeyChar);
    let v1 = scan(s, k1 + 1, CharClass::AttrValueChar);
    if 0 <= i && k1 > i && k1 < s.len() && s[k1] == ':' && v1 > k1 + 1 {
        match spec_key_value(s.subrange(i, k1), s.subrange(k1 + 1, v1)) {
            Some(a) => Some((a, v1)),
            None => None,
        }
    } else {
        None
    }
}

/// `key:value` read on its own, where the key has no `:`, space or line feed
/// and the value no space or line feed, is the attribute that the pair names
/// and takes up the whole text: `type:` with a symbol kind, `scope:` with a
/// scope, `size:` or `align:` with a number, `data:` with a data kind, each
/// as the readers of those give them. Any other pair is refused.
pub proof fn law_key_value_attr(key: Seq<char>, value: Seq<char>)
    requires
        key.len() > 0,
        value.len() > 0,
        forall|j: int| 0 <= j < key.len() ==> #[trigger] key[j] != ':' && key[j] != ' ' && key[j] != '\n',
        forall|j: int| 0 <= j < value.len() ==> #[trigger] value[j] != ' ' && value[j] != '\n',
    ensures
        spec_key_value_attr(key + seq![':'] + value, 0) == match spec_key_value(key, value) {
            Some(a) => Some((a, (key.len() + 1 + value.len()) as int)),
            None => None,
        },
        spec_key_value(key, value) == (if key == seq!['t', 'y', 'p', 'e'] {
            match spec_symbol_kind(value) {
                Some(k) => Some(Attr::Type(k)),
                None => None,
            }
        } else if key == seq!['s', 'c', 'o', 'p', 'e'] {
            match spec_symbol_flag(value) {
                Some(f) => Some(Attr::Flag(f)),
                None => None,
            }
        } else if key == seq!['s', 'i', 'z', 'e'] {
            match spec_parse_dec_or_hex(value) {
                Ok(n) => Some(Attr::Size(n)),
                Err(_) => None,
            }
        } else if key == seq!['d', 'a', 't', 'a'] {
            match spec_data_kind(value) {
                Some(d) => Some(Attr::Data(d)),
                None => None,
            }
        } else if key == seq!['a', 'l', 'i', 'g', 'n'] {
            match spec_parse_dec_or_hex(value) {
                Ok(n) => Some(Attr::Align(n)),
                Err(_) => None,
            }
        } else {
            None
        }),
{
    let s = key + seq![':'] + value;
    let k1 = key.len() as int;
    assert(s.subrange(0, k1) =~= key);
    assert(s.subrange(k1 + 1, k1 + 1 + value.len()) =~= value);
    assert(s[k1] == ':');
    assert forall|j: int| 0 <= j < key.len() implies in_class(CharClass::AttrKeyChar, #[trigger] key[j]) by {}
    assert forall|j: int| 0 <= j < value.len() implies in_class(CharClass::AttrValueChar, #[trigger] value[j]) by {}
    lemma_scan_word(s, 0, key, CharClass::AttrKeyChar);
    lemma_scan_word(s, k1 + 1, value, CharClass::AttrValueChar);
}

/// The word `hidden` at `i`, as a run without space or line feed.
pub open spec fn spec_key_attr(s: Seq<char>, i: int) -> Option<(Attr, int)> {
    let h = scan(s, i, CharClass::AttrValueChar);
    if 0 <= i && h > i && s.subrange(i, h) == hidden_word() {
        Some((Attr::Hidden, h))
    } else {
        None
    }
}

/// An attribute at `i`: `key:value`, or failing that the word `hidden`.
pub open spec fn spec_attr(s: Seq<char>, i: int) -> Option<(Attr, int)> {
    match spec_key_value_attr(s, i) {
        Some(r) => Some(r),
        None => spec_key_attr(s, i),
    }
}

/// An attribute that is read takes at least one character.
pub proof fn lemma_attr_progress(s: Seq<char>, i: int)
    ensures
        spec_attr(s, i) matches Some((_, j)) ==> i < j <= s.len(),
{
    let k1 = scan(s, i, CharClass::AttrKeyChar);
    if 0 <= i <= s.len() {
        lemma_scan(s, i, CharClass::AttrValueChar);
        if 0 <= k1 + 1 <= s.len() {
            lemma_scan(s, k1 + 1, CharClass::AttrValueChar);
        }
    }
}

/// The attributes that follow at `i`, each after one or more spaces.
pub open spec fn spec_more_attrs(s: Seq<char>, i: int) -> (Seq<Attr>, int)
    decreases s.len() - i,
{
    let w = scan(s, i, CharClass::Space);
    if w > i {
        match spec_attr(s, w) {
            Some((a, j)) => {
                proof {
                    lemma_attr_progress(s, w);
                }
                let (rest, e) = spec_more_attrs(s, j);
                (seq![a] + rest, e)
            },
            None => (seq![], i),
        }
    } else {
        (seq![], i)
    }
}

/// Attributes separated by spaces, possibly none.
pub open spec fn spec_attr_list(s: Seq<char>, i: int) -> (Seq<Attr>, int) {
    match spec_attr(s, i) {
        Some((a, j)) => {
            let (rest, e) = spec_more_attrs(s, j);
            (seq![a] + rest, e)
        },
        None => (seq![], i),
    }
}

/// Reading further attributes stays within the text.
pub proof fn lemma_more_attrs_bounds(s: Seq<char>, i: int)
    requires
        0 <= i <= s.len(),
    ensures
        i <= spec_more_attrs(s, i).1 <= s.len(),
    decreases s.len() - i,
{
    let w = scan(s, i, CharClass::Space);
    lemma_scan(s, i, CharClass::Space);
    if w > i {
        if let Some((a, j)) = spec_attr(s, w) {
            lemma_attr_progress(s, w);
            lemma_more_attrs_bounds(s, j);
        }
    }
}

/// Reading an attribute list stays within the text.
pub proof fn lemma_attr_list_bounds(s: Seq<char>, i: int)
    requires
        0 <= i <= s.len(),
    ensures
        i <= spec_attr_list(s, i).1 <= s.len(),
{
    if let Some((a, j)) = spec_attr(s, i) {
        lemma_attr_progress(s, i);
        lemma_more_attrs_bounds(s, j);
    }
}

/// The end of a line at `r`: `\r\n`, a lone `\r`, another newline character,
/// or the end of the text.
pub open spec fn spec_line_end(s: Seq<char>, r: int) -> Option<int> {
    if 0 <= r < s.len() && s[r] == '\r' {
        if r + 1 < s.len() && s[r + 1] == '\n' {
            Some(r + 2)
        } else {
            Some(r + 1)
        }
    } else if 0 <= r < s.len() && is_newline(s[r]) {
        Some(r + 1)
    } else if r == s.len() {
        Some(r)
    } else {
        None
    }
}

/// A symbol line at `i`: whitespace, the name (no whitespace and no `=`),
/// whitespace, `=`, whitespace, an optional section (ASCII letters, digits and
/// `.`) followed by `:`, the address (hexadecimal digits, `x` and `X`), `;`,
/// then optionally whitespace, `//`, whitespace and the attributes, and last
/// the end of the line.
pub open spec fn spec_symbol_line(s: Seq<char>, i: int) -> Option<(SymbolSpec, int)> {
    let a = scan(s, i, CharClass::Whitespace);
    let b = scan(s, a, CharClass::SymbolNameChar);
    let c = scan(s, b, CharClass::Whitespace);
    let d = scan(s, c + 1, CharClass::Whitespace);
    let sec_end = scan(s, d, CharClass::SectionNameChar);
    let has_section = sec_end > d && sec_end < s.len() && s[sec_end] == ':';
    let a0 = if has_section {
        sec_end + 1
    } else {
        d
    };
    let a1 = scan(s, a0, CharClass::AddressChar);
    let p = a1 + 1;
    let q = scan(s, p, CharClass::Whitespace);
    let (attrs, r) = if has_at(s, q, comment_start()) {
        spec_attr_list(s, scan(s, q + 2, CharClass::Whitespace))
    } else {
        (seq![], p)
    };
    if 0 <= i && b > a && c < s.len() && s[c] == '=' && a1 > a0 && a1 < s.len() && s[a1] == ';'
        && spec_line_end(s, r) is Some {
        Some(
            (
                SymbolSpec {
                    name: s.subrange(a, b),
                    section: if has_section {
                        Some(s.subrange(d, sec_end))
                    } else {
                        None
                    },
                    addr: s.subrange(a0, a1),
                    attrs: fold_attrs(attrs),
                },
                spec_line_end(s, r)->0,
            ),
        )
    } else {
        None
    }
}

/// A symbol line that is read takes at least one character.
pub proof fn lemma_symbol_line_progress(s: Seq<char>, i: int)
    ensures
        spec_symbol_line(s, i) matches Some((_, j)) ==> i < j <= s.len(),
{
    if let Some((_, j)) = spec_symbol_line(s, i) {
        let a = scan(s, i, CharClass::Whitespace);
        let b = scan(s, a, CharClass::SymbolNameChar);
        let c = scan(s, b, CharClass::Whitespace);
        let d = scan(s, c + 1, CharClass::Whitespace);
        let sec_end = scan(s, d, CharClass::SectionNameChar);
        let has_section = sec_end > d && sec_end < s.len() && s[sec_end] == ':';
        let a0 = if has_section {
            sec_end + 1
        } else {
            d
        };
        let a1 = scan(s, a0, CharClass::AddressChar);
        let p = a1 + 1;
        let q = scan(s, p, CharClass::Whitespace);
        lemma_scan_ge(s, i, CharClass::Whitespace);
        lemma_scan_ge(s, a, CharClass::SymbolNameChar);
        lemma_scan_ge(s, b, CharClass::Whitespace);
        lemma_scan_ge(s, c + 1, CharClass::Whitespace);
        lemma_scan_ge(s, d, CharClass::SectionNameChar);
        lemma_scan_ge(s, a0, CharClass::AddressChar);
        lemma_scan(s, p, CharClass::Whitespace);
        if has_at(s, q, comment_start()) {
            let q2 = scan(s, q + 2, CharClass::Whitespace);
            lemma_scan(s, q + 2, CharClass::Whitespace);
            lemma_attr_list_bounds(s, q2);
        }
    }
}

/// Symbol lines, as many as can be read from `i`.
pub open spec fn spec_symbol_lines(s: Seq<char>, i: int) -> (Seq<SymbolSpec>, int)
    decreases s.len() - i,
{
    match spec_symbol_line(s, i) {
        Some((sym, j)) => {
            proof {
                lemma_symbol_line_progress(s, i);
            }
            let (rest, e) = spec_symbol_lines(s, j);
            (seq![sym] + rest, e)
        },
        None => (seq![], i),
    }
}

/// A whole `symbols.txt`: symbol lines that take up all of the text.
pub open spec fn spec_symbols(s: Seq<char>) -> Option<Seq<SymbolSpec>> {
    let (syms, e) = spec_symbol_lines(s, 0);
    if e == s.len() {
        Some(syms)
    } else {
        None
    }
}

/// Why `key:value` is refused: a `type:`, `scope:` or `data:` value that
/// names nothing (carrying the value), a `size:` or `align:` value that is
/// no number (carrying that failure), or a key that names no attribute
/// (carrying the key).
pub open spec fn key_value_reason(r: ParseErrorReason, key: Seq<char>, value: Seq<char>) -> bool {
    if key == seq!['t', 'y', 'p', 'e'] {
        r matches ParseErrorReason::UnknownSymbolKind(v) && v@ == value
    } else if key == seq!['s', 'c', 'o', 'p', 'e'] {
        r matches ParseErrorReason::UnknownSymbolScope(v) && v@ == value
    } else if key == seq!['s', 'i', 'z', 'e'] || key == seq!['a', 'l', 'i', 'g', 'n'] {
        r matches ParseErrorReason::Number(e) && spec_parse_dec_or_hex(value) == Err::<u32, NumberError>(e)
    } else if key == seq!['d', 'a', 't', 'a'] {
        r matches ParseErrorReason::UnknownDataKind(v) && v@ == value
    } else {
        r matches ParseErrorReason::UnknownAttribute(k) && k@ == key
    }
}

/// A failure is met at `i` while `before` is kept, and it is the one kept
/// after: none was kept, or the one kept starts before `i`.
pub open spec fn takes_over(before: Failure, i: int) -> bool {
    before matches Some(b) ==> i > b.start
}

/// `after` is what is kept when `key:value` at `i..v1` (the key ending at
/// `k1`) is refused while `before` is kept: the refusal, with its reason,
/// when none was kept or it starts further on, `before` otherwise.
pub open spec fn key_value_noted(
    before: Failure,
    after: Failure,
    s: Seq<char>,
    i: int,
    k1: int,
    v1: int,
) -> bool {
    if takes_over(before, i) {
        &&& after matches Some(a)
        &&& a.start == i
        &&& a.end == v1
        &&& key_value_reason(a.reason, s.subrange(i, k1), s.subrange(k1 + 1, v1))
    } else {
        after == before
    }
}

/// `after` is what is kept when `key:value` is not read at `i` while
/// `before` is kept: with no `key:` there, `before`; with a key and `:` but no
/// value, unexpected input where the value should start; otherwise the
/// refusal of the pair.
pub open spec fn key_value_attr_noted(before: Failure, after: Failure, s: Seq<char>, i: int) -> bool {
    let k1 = scan(s, i, CharClass::AttrKeyChar);
    let v1 = scan(s, k1 + 1, CharClass::AttrValueChar);
    if k1 > i && k1 < s.len() && s[k1] == ':' {
        if v1 > k1 + 1 {
            key_value_noted(before, after, s, i, k1, v1)
        } else {
            after == kept(before, unexpected_at(s, v1))
        }
    } else {
        after == before
    }
}

/// `after` is what is kept when the word `hidden` is not read at `i` while
/// `before` is kept: an unknown attribute carrying the word that stands
/// there, or unexpected input when no word does, each only when none was
/// kept or it starts further on than `before`.
pub open spec fn key_attr_noted(before: Failure, after: Failure, s: Seq<char>, i: int) -> bool {
    let h = scan(s, i, CharClass::AttrValueChar);
    if h > i {
        if takes_over(before, i) {
            &&& after matches Some(a)
            &&& a.start == i
            &&& a.end == h
            &&& a.reason matches ParseErrorReason::UnknownAttribute(w)
            &&& w@ == s.subrange(i, h)
        } else {
            after == before
        }
    } else {
        after == kept(before, unexpected_at(s, i))
    }
}

/// `after` is what is kept when an attribute is tried at `i` while `before`
/// is kept: `before` when `key:value` is read there; otherwise what the
/// refusal of `key:value` leaves, and then, unless the word `hidden` is read
/// there, what the refusal of the word leaves.
pub open spec fn attr_noted(before: Failure, after: Failure, s: Seq<char>, i: int) -> bool {
    if spec_key_value_attr(s, i) is Some {
        after == before
    } else {
        exists|mid: Failure|
            #[trigger] key_value_attr_noted(before, mid, s, i) && (if spec_key_attr(s, i) is Some {
                after == mid
            } else {
                key_attr_noted(mid, after, s, i)
            })
    }
}

/// `after` is what is kept when the attributes that follow at `i`, each
/// after one or more spaces, are read while `before` is kept: what each
/// attribute tried leaves, up to the first one that is not read.
pub open spec fn more_attrs_noted(before: Failure, after: Failure, s: Seq<char>, i: int) -> bool
    decreases s.len() - i,
{
    let w = scan(s, i, CharClass::Space);
    if w > i {
        match spec_attr(s, w) {
            Some((_, j)) => {
                proof {
                    lemma_attr_progress(s, w);
                }
                exists|mid: Failure|
                    #[trigger] attr_noted(before, mid, s, w) && more_attrs_noted(mid, after, s, j)
            },
            None => attr_noted(before, after, s, w),
        }
    } else {
        after == before
    }
}

/// `after` is what is kept when attributes separated by spaces are read at
/// `i` while `before` is kept.
pub open spec fn attr_list_noted(before: Failure, after: Failure, s: Seq<char>, i: int) -> bool {
    match spec_attr(s, i) {
        Some((_, j)) => exists|mid: Failure|
            #[trigger] attr_noted(before, mid, s, i) && more_attrs_noted(mid, after, s, j),
        None => attr_noted(before, after, s, i),
    }
}

/// `after` is what is kept when a symbol line is tried at `i` while `before`
/// is kept: unexpected input at the first place where the line leaves its
/// shape before the attributes; what the attributes leave; and unexpected
/// input where the line should end but does not.
pub open spec fn symbol_line_noted(before: Failure, after: Failure, s: Seq<char>, i: int) -> bool {
    let a = scan(s, i, CharClass::Whitespace);
    let b = scan(s, a, CharClass::SymbolNameChar);
    let c = scan(s, b, CharClass::Whitespace);
    let d = scan(s, c + 1, CharClass::Whitespace);
    let sec_end = scan(s, d, CharClass::SectionNameChar);
    let has_section = sec_end > d && sec_end < s.len() && s[sec_end] == ':';
    let a0 = if has_section {
        sec_end + 1
    } else {
        d
    };
    let a1 = scan(s, a0, CharClass::AddressChar);
    if b == a {
        after == kept(before, unexpected_at(s, a))
    } else if !(c < s.len() && s[c] == '=') {
        after == kept(before, unexpected_at(s, c))
    } else if a1 == a0 {
        after == kept(before, unexpected_at(s, a0))
    } else if !(a1 < s.len() && s[a1] == ';') {
        after == kept(before, unexpected_at(s, a1))
    } else {
        line_tail_noted(before, after, s, a1 + 1)
    }
}

/// `after` is what is kept when the rest of a symbol line after its `;`, at
/// `p`, is read while `before` is kept: what the attributes after `//`
/// leave, if there are any, and then unexpected input where the line should
/// end but does not.
pub open spec fn line_tail_noted(before: Failure, after: Failure, s: Seq<char>, p: int) -> bool {
    let q = scan(s, p, CharClass::Whitespace);
    if has_at(s, q, comment_start()) {
        let q2 = scan(s, q + 2, CharClass::Whitespace);
        let r = spec_attr_list(s, q2).1;
        exists|mid: Failure|
            #[trigger] attr_list_noted(before, mid, s, q2) && (if spec_line_end(s, r) is Some {
                after == mid
            } else {
                after == kept(mid, unexpected_at(s, r))
            })
    } else if spec_line_end(s, p) is Some {
        after == before
    } else {
        after == kept(before, unexpected_at(s, p))
    }
}

/// `after` is what is kept when symbol lines are read from `i` while
/// `before` is kept, up to and with the first one that is not read.
pub open spec fn symbol_lines_noted(before: Failure, after: Failure, s: Seq<char>, i: int) -> bool
    decreases s.len() - i,
{
    match spec_symbol_line(s, i) {
        Some((_, j)) => {
            proof {
                lemma_symbol_line_progress(s, i);
            }
            exists|mid: Failure|
                #[trigger] symbol_line_noted(before, mid, s, i) && symbol_lines_noted(mid, after, s, j)
        },
        None => symbol_line_noted(before, after, s, i),
    }
}

/// `e` is the failure that a `symbols.txt` that is not read reports: of all
/// the places where reading stopped short, the first one that lies furthest
/// on, with why it stopped there; last comes what stands after the lines.
pub open spec fn symbols_failure_is(e: ParseError, s: Seq<char>) -> bool {
    exists|mid: Failure|
        #[trigger] symbol_lines_noted(None, mid, s, 0) && Some(e) == kept(
            mid,
            unexpected_at(s, spec_symbol_lines(s, 0).1),
        )
}

/// What the rest of a symbol line leaves, from what its attributes leave.
proof fn lemma_line_tail_noted(
    before: Failure,
    mid: Failure,
    after: Failure,
    s: Seq<char>,
    p: int,
    r: int,
)
    requires
        has_at(s, scan(s, p, CharClass::Whitespace), comment_start()) ==> {
            let q2 = scan(s, scan(s, p, CharClass::Whitespace) + 2, CharClass::Whitespace);
            &&& attr_list_noted(before, mid, s, q2)
            &&& r == spec_attr_list(s, q2).1
        },
        !has_at(s, scan(s, p, CharClass::Whitespace), comment_start()) ==> mid == before && r == p,
        spec_line_end(s, r) is Some ==> after == mid,
        spec_line_end(s, r) is None ==> after == kept(mid, unexpected_at(s, r)),
    ensures
        line_tail_noted(before, after, s, p),
{
}

/// Keeps `e` as the reported failure when it got further than the one kept.
fn note(best: &mut Failure, e: ParseError)
    ensures
        *final(best) == kept(*old(best), e),
{
    let replace = match best {
        Some(b) => e.start > b.start,
        None => true,
    };
    if replace {
        *best = Some(e);
    }
}

/// A failure at `pos`: the text does not have the expected shape there.
fn unexpected(s: &[char], pos: usize) -> (res: ParseError)
    requires
        pos <= s@.len(),
    ensures
        res == unexpected_at(s@, pos as int),
        within(res, s@.len() as int),
{
    let end = if pos < s.len() {
        pos + 1
    } else {
        pos
    };
    ParseError { start: pos, end, reason: ParseErrorReason::Unexpected }
}

/// Reads `key:value` at `i`, the key ending at `k1` and the value at `v1`.
fn key_value(text: &Text, i: usize, k1: usize, v1: usize, best: &mut Failure) -> (res: Option<Attr>)
    requires
        text.wf(),
        i < k1 < v1 <= text@.len(),
    ensures
        kept_further(*old(best), *final(best), text@.len() as int),
        res == spec_key_value(text@.subrange(i as int, k1 as int), text@.subrange(k1 + 1, v1 as int)),
        res is Some ==> *final(best) == *old(best),
        res is None ==> key_value_noted(*old(best), *final(best), text@, i as int, k1 as int, v1 as int),
{
    let s = text.chars().as_slice();
    let v0 = k1 + 1;
    if is_word(s, i, k1, &['t', 'y', 'p', 'e']) {
        match ObjSymbolKind::from_chars(s, v0, v1) {
            Some(k) => Some(Attr::Type(k)),
            None => {
                let name = text.slice(v0, v1).to_owned();
                note(best, ParseError { start: i, end: v1, reason: ParseErrorReason::UnknownSymbolKind(name) });
                None
            },
        }
    } else if is_word(s, i, k1, &['s', 'c', 'o', 'p', 'e']) {
        match ObjSymbolFlag::from_chars(s, v0, v1) {
            Some(f) => Some(Attr::Flag(f)),
            None => {
                let name = text.slice(v0, v1).to_owned();
                note(best, ParseError { start: i, end: v1, reason: ParseErrorReason::UnknownSymbolScope(name) });
                None
            },
        }
    } else if is_word(s, i, k1, &['s', 'i', 'z', 'e']) {
        match parse_dec_or_hex_chars(s, v0, v1) {
            Ok(n) => Some(Attr::Size(n)),
            Err(e) => {
                note(best, ParseError { start: i, end: v1, reason: ParseErrorReason::Number(e) });
                None
            },
        }
    } else if is_word(s, i, k1, &['d', 'a', 't', 'a']) {
        match ObjDataKind::from_chars(s, v0, v1) {
            Some(d) => Some(Attr::Data(d)),
            None => {
                let name = text.slice(v0, v1).to_owned();
                note(best, ParseError { start: i, end: v1, reason: ParseErrorReason::UnknownDataKind(name) });
                None
            },
        }
    } else if is_word(s, i, k1, &['a', 'l', 'i', 'g', 'n']) {
        match parse_dec_or_hex_chars(s, v0, v1) {
            Ok(n) => Some(Attr::Align(n)),
            Err(e) => {
                note(best, ParseError { start: i, end: v1, reason: ParseErrorReason::Number(e) });
                None
            },
        }
    } else {
        let key = text.slice(i, k1).to_owned();
        note(best, ParseError { start: i, end: v1, reason: ParseErrorReason::UnknownAttribute(key) });
        None
    }
}

/// Reads `key:value` at `i`.
pub fn key_value_attr(text: &Text, i: usize, best: &mut Failure) -> (res: Option<(Attr, usize)>)
    requires
        text.wf(),
        i <= text@.len(),
    ensures
        kept_further(*old(best), *final(best), text@.len() as int),
        match res {
            Some((a, j)) => spec_key_value_attr(text@, i as int) == Some((a, j as int)) && i < j
                <= text@.len() && *final(best) == *old(best),
            None => spec_key_value_attr(text@, i as int) is None,
        },
        res is None ==> key_value_attr_noted(*old(best), *final(best), text@, i as int),
{
    let s = text.chars().as_slice();
    let n = s.len();
    let k1 = take_while(s, i, CharClass::AttrKeyChar);
    if k1 > i && k1 < n && s[k1] == ':' {
        let v1 = take_while(s, k1 + 1, CharClass::AttrValueChar);
        if v1 > k1 + 1 {
            match key_value(text, i, k1, v1, best) {
                Some(a) => Some((a, v1)),
                None => None,
            }
        } else {
            note(best, unexpected(s, v1));
            None
        }
    } else {
        None
    }
}

/// Reads the word `hidden` at `i`.
pub fn key_attr(text: &Text, i: usize, best: &mut Failure) -> (res: Option<(Attr, usize)>)
    requires
        text.wf(),
        i <= text@.len(),
    ensures
        kept_further(*old(best), *final(best), text@.len() as int),
        match res {
            Some((a, j)) => spec_key_attr(text@, i as int) == Some((a, j as int)) && i < j
                <= text@.len() && *final(best) == *old(best),
            None => spec_key_attr(text@, i as int) is None,
        },
        res is None ==> key_attr_noted(*old(best), *final(best), text@, i as int),
{
    let s = text.chars().as_slice();
    let h = take_while(s, i, CharClass::AttrValueChar);
    if h > i && is_word(s, i, h, &['h', 'i', 'd', 'd', 'e', 'n']) {
        Some((Attr::Hidden, h))
    } else {
        if h > i {
            let word = text.slice(i, h).to_owned();
            note(best, ParseError { start: i, end: h, reason: ParseErrorReason::UnknownAttribute(word) });
        } else {
            note(best, unexpected(s, i));
        }
        None
    }
}

/// Reads an attribute at `i`: `key:value`, or else the word `hidden`.
pub fn attr(text: &Text, i: usize, best: &mut Failure) -> (res: Option<(Attr, usize)>)
    requires
        text.wf(),
        i <= text@.len(),
    ensures
        kept_further(*old(best), *final(best), text@.len() as int),
        match res {
            Some((a, j)) => spec_attr(text@, i as int) == Some((a, j as int)) && i < j <= text@.len(),
            None => spec_attr(text@, i as int) is None,
        },
        attr_noted(*old(best), *final(best), text@, i as int),
{
    match key_value_attr(text, i, best) {
        Some(r) => Some(r),
        None => {
            let ghost mid = *best;
            let r = key_attr(text, i, best);
            assert(key_value_attr_noted(*old(best), mid, text@, i as int));
            r
        },
    }
}

/// Reads attributes separated by spaces, as many as there are, and folds
/// them into the attributes of a symbol.
pub fn attrs(text: &Text, i: usize, best: &mut Failure) -> (res: (Attrs, usize))
    requires
        text.wf(),
        i <= text@.len(),
    ensures
        kept_further(*old(best), *final(best), text@.len() as int),
        res.0@ == fold_attrs(spec_attr_list(text@, i as int).0),
        res.1 == spec_attr_list(text@, i as int).1,
        i <= res.1 <= text@.len(),
        attr_list_noted(*old(best), *final(best), text@, i as int),
{
    let s = text.chars().as_slice();
    let n = s.len();
    let mut acc = Attrs::default();
    let ghost mut parsed: Seq<Attr> = seq![];
    let mut pos: usize;
    match attr(text, i, best) {
        None => {
            return (acc, i);
        },
        Some((a, j)) => {
            let ghost b1 = *best;
            assert forall|x: Failure| more_attrs_noted(b1, x, text@, j as int) implies attr_list_noted(
                *old(best),
                x,
                text@,
                i as int,
            ) by {
                assert(attr_noted(*old(best), b1, text@, i as int));
            }
            acc.apply(a);
            proof {
                parsed = seq![a];
                assert(parsed.drop_last() =~= Seq::<Attr>::empty());
                assert(fold_attrs(Seq::<Attr>::empty()) == default_attrs());
                assert(fold_attrs(parsed) == crate::symbols::apply_attr(default_attrs(), a));
            }
            pos = j;
        },
    }
    loop
        invariant
            kept_further(*old(best), *best, text@.len() as int),
            text.wf(),
            s@ == text@,
            n == s@.len(),
            i < pos <= n,
            acc@ == fold_attrs(parsed),
            forall|x: Failure|
                more_attrs_noted(*best, x, text@, pos as int) ==> attr_list_noted(
                    *old(best),
                    x,
                    text@,
                    i as int,
                ),
            spec_attr_list(text@, i as int) == (
                parsed + spec_more_attrs(text@, pos as int).0,
                spec_more_attrs(text@, pos as int).1,
            ),
        decreases n - pos,
    {
        let w = take_while(s, pos, CharClass::Space);
        if w == pos {
            assert(parsed + Seq::<Attr>::empty() =~= parsed);
            assert(more_attrs_noted(*best, *best, text@, pos as int));
            return (acc, pos);
        }
        let ghost b0 = *best;
        match attr(text, w, best) {
            Some((a, j)) => {
                let ghost b1 = *best;
                assert forall|x: Failure| more_attrs_noted(b1, x, text@, j as int) implies attr_list_noted(
                    *old(best),
                    x,
                    text@,
                    i as int,
                ) by {
                    assert(attr_noted(b0, b1, text@, w as int));
                    assert(more_attrs_noted(b0, x, text@, pos as int));
                }
                let ghost rest = spec_more_attrs(text@, j as int).0;
                acc.apply(a);
                proof {
                    assert(parsed.push(a).drop_last() =~= parsed);
                    assert(parsed + (seq![a] + rest) =~= parsed.push(a) + rest);
                    parsed = parsed.push(a);
                }
                pos = j;
            },
            None => {
                assert(parsed + Seq::<Attr>::empty() =~= parsed);
                assert(more_attrs_noted(b0, *best, text@, pos as int));
                return (acc, pos);
            },
        }
    }
}

/// The end of a line at `r`: `\r\n`, a lone `\r`, another newline character,
/// or the end of the text.
fn line_end(s: &[char], r: usize) -> (res: Option<usize>)
    requires
        r <= s@.len(),
    ensures
        match res {
            Some(e) => spec_line_end(s@, r as int) == Some(e as int) && r <= e <= s@.len(),
            None => spec_line_end(s@, r as int) is None,
        },
{
    let n = s.len();
    if r < n && s[r] == '\r' {
        if r + 1 < n && s[r + 1] == '\n' {
            Some(r + 2)
        } else {
            Some(r + 1)
        }
    } else if r < n && is_newline_char(s[r]) {
        Some(r + 1)
    } else if r == n {
        Some(r)
    } else {
        None
    }
}

/// Reads a symbol line at `i`.
pub fn symbol_line<'a>(text: &Text<'a>, i: usize, best: &mut Failure) -> (res: Option<(ObjSymbol<'a>, usize)>)
    requires
        text.wf(),
        i <= text@.len(),
    ensures
        kept_further(*old(best), *final(best), text@.len() as int),
        match res {
            Some((sym, j)) => spec_symbol_line(text@, i as int) == Some((sym.deep_view(), j as int))
                && i < j <= text@.len(),
            None => spec_symbol_line(text@, i as int) is None,
        },
        symbol_line_noted(*old(best), *final(best), text@, i as int),
{
    proof {
        lemma_symbol_line_progress(text@, i as int);
    }
    let s = text.chars().as_slice();
    let n = s.len();
    let a = take_while(s, i, CharClass::Whitespace);
    let b = match take_while1(s, a, CharClass::SymbolNameChar) {
        Some(b) => b,
        None => {
            note(best, unexpected(s, a));
            return None;
        },
    };
    let c = take_while(s, b, CharClass::Whitespace);
    if !(c < n && s[c] == '=') {
        note(best, unexpected(s, c));
        return None;
    }
    let d = take_while(s, c + 1, CharClass::Whitespace);
    let sec_end = take_while(s, d, CharClass::SectionNameChar);
    let has_section = sec_end > d && sec_end < n && s[sec_end] == ':';
    let a0 = if has_section {
        sec_end + 1
    } else {
        d
    };
    let a1 = match take_while1(s, a0, CharClass::AddressChar) {
        Some(e) => e,
        None => {
            note(best, unexpected(s, a0));
            return None;
        },
    };
    if !(a1 < n && s[a1] == ';') {
        note(best, unexpected(s, a1));
        return None;
    }
    let p = a1 + 1;
    let q = take_while(s, p, CharClass::Whitespace);
    let ghost b0 = *best;
    let (attrs, r) = if literal_at(s, q, &['/', '/']) {
        let q2 = take_while(s, q + 2, CharClass::Whitespace);
        let res = attrs(text, q2, best);
        assert(attr_list_noted(b0, *best, text@, q2 as int));
        res
    } else {
        assert(fold_attrs(Seq::<Attr>::empty()) == default_attrs());
        (Attrs::default(), p)
    };
    let ghost b2 = *best;
    let e = match line_end(s, r) {
        Some(e) => e,
        None => {
            note(best, unexpected(s, r));
            proof {
                lemma_line_tail_noted(b0, b2, *best, text@, p as int, r as int);
            }
            return None;
        },
    };
    proof {
        lemma_line_tail_noted(b0, b2, *best, text@, p as int, r as int);
    }
    let section = if has_section {
        Some(text.slice(d, sec_end))
    } else {
        None
    };
    let sym = ObjSymbol::new(text.slice(a, b), section, text.slice(a0, a1), attrs);
    Some((sym, e))
}

/// Reads a whole `symbols.txt`: one symbol per line, up to the end of the
/// text. On failure the single error says where reading got furthest and why
/// it stopped there.
pub fn symbols<'a>(input: &'a str) -> (res: Result<Vec<ObjSymbol<'a>>, Vec<ParseError>>)
    ensures
        match res {
            Ok(v) => spec_symbols(input@) == Some(v.deep_view()),
            Err(errs) => {
                &&& spec_symbols(input@) is None
                &&& errs@.len() == 1
                &&& within(errs@[0], input@.len() as int)
                &&& errs@[0].start >= spec_symbol_lines(input@, 0).1
                &&& symbols_failure_is(errs@[0], input@)
            },
        },
{
    let text = Text::new(input);
    let s = text.chars().as_slice();
    let n = s.len();
    let mut best: Failure = None;
    let ghost b_init = best;
    let mut out: Vec<ObjSymbol<'a>> = Vec::new();
    let mut pos: usize = 0;
    assert(out.deep_view() =~= Seq::<SymbolSpec>::empty());
    loop
        invariant
            text.wf(),
            text@ == input@,
            s@ == text@,
            n == s@.len(),
            pos <= n,
            failure_within(best, n as int),
            b_init == None::<ParseError>,
            forall|x: Failure|
                symbol_lines_noted(best, x, text@, pos as int) ==> symbol_lines_noted(
                    b_init,
                    x,
                    text@,
                    0,
                ),
            spec_symbol_lines(text@, 0) == (
                out.deep_view() + spec_symbol_lines(text@, pos as int).0,
                spec_symbol_lines(text@, pos as int).1,
            ),
        decreases n - pos,
    {
        let ghost b0 = best;
        match symbol_line(&text, pos, &mut best) {
            Some((sym, j)) => {
                let ghost b1 = best;
                assert forall|x: Failure| symbol_lines_noted(b1, x, text@, j as int) implies symbol_lines_noted(
                    b_init,
                    x,
                    text@,
                    0,
                ) by {
                    assert(symbol_line_noted(b0, b1, text@, pos as int));
                    assert(symbol_lines_noted(b0, x, text@, pos as int));
                }
                let ghost prev = out.deep_view();
                let ghost v = sym.deep_view();
                let ghost rest = spec_symbol_lines(text@, j as int).0;
                out.push(sym);
                assert(out.deep_view() =~= prev.push(v));
                assert(prev + (seq![v] + rest) =~= prev.push(v) + rest);
                pos = j;
            },
            None => {
                assert(out.deep_view() + Seq::<SymbolSpec>::empty() =~= out.deep_view());
                assert(symbol_lines_noted(b0, best, text@, pos as int));
                let ghost mid = best;
                if pos == n {
                    return Ok(out);
                } else {
                    note(&mut best, unexpected(s, pos));
                    assert(symbol_lines_noted(None, mid, text@, 0));
                    let mut errs = Vec::new();
                    errs.push(best.unwrap());
                    return Err(errs);
                }
            },
        }
    }
}

} // verus!
