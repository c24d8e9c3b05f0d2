//! The layout in which a `symbols.txt` is written, and the law that a file
//! written in it is read back as the symbols it was written from.
use vstd::prelude::*;

use crate::symbols::parser::{
    comment_start, hidden_word, lemma_symbol_line_progress, spec_attr, spec_attr_list,
    spec_key_value, spec_line_end,
    spec_more_attrs, spec_symbol_line, spec_symbol_lines, spec_symbols,
};
use crate::symbols::{
    apply_attr, default_attrs, fold_attrs, spec_data_kind, spec_symbol_flag, spec_symbol_kind, Attr, AttrsSpec,
    ObjDataKind, ObjSymbolFlag, ObjSymbolKind, SymbolSpec,
};
use crate::util::parser::{
    has_at, in_class, is_whitespace, lemma_has_at_char, lemma_has_at_concat, lemma_has_at_index,
    lemma_scan, lemma_scan_bounds, lemma_scan_word, scan, CharClass,
};
use crate::util::parsing::{
    law_number_text_roundtrip, lemma_digit_is_alnum, lemma_radix_text, radix_text,
};

verus! {

/// `n` in decimal.
pub open spec fn decimal(n: u32) -> Seq<char> {
    radix_text(n as nat, 10)
}

/// A symbol line before it is read: the attributes are kept as written.
pub struct SymbolLine {
    pub name: Seq<char>,
    pub section: Option<Seq<char>>,
    pub addr: Seq<char>,
    pub attrs: Seq<Attr>,
}

/// The word for a symbol kind.
pub open spec fn kind_name(k: ObjSymbolKind) -> Seq<char> {
    match k {
        ObjSymbolKind::Unknown => seq!['l', 'a', 'b', 'e', 'l'],
        ObjSymbolKind::Function => seq!['f', 'u', 'n', 'c', 't', 'i', 'o', 'n'],
        ObjSymbolKind::Object => seq!['o', 'b', 'j', 'e', 'c', 't'],
        ObjSymbolKind::Section => seq!['s', 'e', 'c', 't', 'i', 'o', 'n'],
    }
}

/// The word for a scope.
pub open spec fn flag_name(f: ObjSymbolFlag) -> Seq<char> {
    match f {
        ObjSymbolFlag::Common => seq!['c', 'o', 'm', 'm', 'o', 'n'],
        ObjSymbolFlag::Weak => seq!['w', 'e', 'a', 'k'],
        ObjSymbolFlag::Global => seq!['g', 'l', 'o', 'b', 'a', 'l'],
        ObjSymbolFlag::Local => seq!['l', 'o', 'c', 'a', 'l'],
    }
}

/// The word for a data kind (none for the unknown kind).
pub open spec fn data_name(d: ObjDataKind) -> Seq<char> {
    match d {
        ObjDataKind::Unknown => seq![],
        ObjDataKind::Byte => seq!['b', 'y', 't', 'e'],
        ObjDataKind::Byte2 => seq!['2', 'b', 'y', 't', 'e'],
        ObjDataKind::Byte4 => seq!['4', 'b', 'y', 't', 'e'],
        ObjDataKind::Byte8 => seq!['8', 'b', 'y', 't', 'e'],
        ObjDataKind::Float => seq!['f', 'l', 'o', 'a', 't'],
        ObjDataKind::Double => seq!['d', 'o', 'u', 'b', 'l', 'e'],
        ObjDataKind::String => seq!['s', 't', 'r', 'i', 'n', 'g'],
        ObjDataKind::ShiftJIS => seq!['s', 'j', 'i', 's'],
        ObjDataKind::String16 => seq!['w', 's', 't', 'r', 'i', 'n', 'g'],
        ObjDataKind::StringTable => seq!['s', 't', 'r', 'i', 'n', 'g', '_', 't', 'a', 'b', 'l', 'e'],
        ObjDataKind::ShiftJISTable => seq!['s', 'j', 'i', 's', '_', 't', 'a', 'b', 'l', 'e'],
        ObjDataKind::String16Table => seq![
            'w',
            's',
            't',
            'r',
            'i',
            'n',
            'g',
            '_',
            't',
            'a',
            'b',
            'l',
            'e',
        ],
        ObjDataKind::Int => seq!['i', 'n', 't'],
        ObjDataKind::Short => seq!['s', 'h', 'o', 'r', 't'],
    }
}

/// The key of an attribute.
pub open spec fn attr_key(a: Attr) -> Seq<char> {
    match a {
        Attr::Type(_) => seq!['t', 'y', 'p', 'e'],
        Attr::Flag(_) => seq!['s', 'c', 'o', 'p', 'e'],
        Attr::Size(_) => seq!['s', 'i', 'z', 'e'],
        Attr::Data(_) => seq!['d', 'a', 't', 'a'],
        Attr::Align(_) => seq!['a', 'l', 'i', 'g', 'n'],
        Attr::Hidden => hidden_word(),
    }
}

/// The value of an attribute, as it is written after the key and `:`.
pub open spec fn attr_value(a: Attr) -> Seq<char> {
    match a {
        Attr::Type(k) => kind_name(k),
        Attr::Flag(f) => flag_name(f),
        Attr::Size(n) => decimal(n),
        Attr::Data(d) => data_name(d),
        Attr::Align(n) => decimal(n),
        Attr::Hidden => seq![],
    }
}

/// An attribute as it is written: `key:value`, or `hidden`.
pub open spec fn attr_text(a: Attr) -> Seq<char> {
    if a is Hidden {
        hidden_word()
    } else {
        attr_key(a) + seq![':'] + attr_value(a)
    }
}

/// Each attribute after a space.
pub open spec fn more_attrs_text(attrs: Seq<Attr>) -> Seq<char>
    decreases attrs.len(),
{
    if attrs.len() == 0 {
        seq![]
    } else {
        seq![' '] + attr_text(attrs[0]) + more_attrs_text(attrs.drop_first())
    }
}

/// The attributes, separated by spaces.
pub open spec fn attrs_text(attrs: Seq<Attr>) -> Seq<char> {
    if attrs.len() == 0 {
        seq![]
    } else {
        attr_text(attrs[0]) + more_attrs_text(attrs.drop_first())
    }
}

/// ` // ` before the attributes, when there are any.
pub open spec fn comment_text(attrs: Seq<Attr>) -> Seq<char> {
    if attrs.len() == 0 {
        seq![]
    } else {
        seq![' '] + comment_start() + seq![' '] + attrs_text(attrs)
    }
}

/// `<section>:` when there is a section.
pub open spec fn section_text(section: Option<Seq<char>>) -> Seq<char> {
    match section {
        Some(sec) => sec + seq![':'],
        None => seq![],
    }
}

/// `<name> = <section>:<addr>; // <attrs>` and a line feed.
pub open spec fn symbol_line_text(l: SymbolLine) -> Seq<char> {
    l.name + seq![' ', '=', ' '] + section_text(l.section) + l.addr + seq![';'] + comment_text(
        l.attrs,
    ) + seq!['\n']
}

/// The lines, one after another.
pub open spec fn symbols_text(lines: Seq<SymbolLine>) -> Seq<char>
    decreases lines.len(),
{
    if lines.len() == 0 {
        seq![]
    } else {
        symbol_line_text(lines[0]) + symbols_text(lines.drop_first())
    }
}

/// The symbol that a line stands for: its attributes folded.
pub open spec fn read_line(l: SymbolLine) -> SymbolSpec {
    SymbolSpec { name: l.name, section: l.section, addr: l.addr, attrs: fold_attrs(l.attrs) }
}

/// The symbols that lines stand for.
pub open spec fn read_lines(lines: Seq<SymbolLine>) -> Seq<SymbolSpec> {
    lines.map_values(|l: SymbolLine| read_line(l))
}

/// `w` is not empty and all of its characters are in `class`.
pub open spec fn is_run(w: Seq<char>, class: CharClass) -> bool {
    w.len() > 0 && forall|k: int| 0 <= k < w.len() ==> in_class(class, #[trigger] w[k])
}

/// A symbol name: not empty, and neither whitespace nor `=` in it.
pub open spec fn is_name(w: Seq<char>) -> bool {
    w.len() > 0 && forall|k: int| 0 <= k < w.len() ==> #[trigger] w[k] != '=' && !is_whitespace(w[k])
}

/// A section name: not empty, and only ASCII letters, digits and `.` in it.
pub open spec fn is_section_name(w: Seq<char>) -> bool {
    w.len() > 0 && forall|k: int|
        0 <= k < w.len() ==> ('a' <= #[trigger] w[k] <= 'z') || ('A' <= w[k] <= 'Z') || ('0' <= w[k]
            <= '9') || w[k] == '.'
}

/// An address: not empty, and only hexadecimal digits of either case, `x`
/// and `X` in it.
pub open spec fn is_address(w: Seq<char>) -> bool {
    w.len() > 0 && forall|k: int|
        0 <= k < w.len() ==> ('0' <= #[trigger] w[k] <= '9') || ('a' <= w[k] <= 'f') || ('A' <= w[k]
            <= 'F') || w[k] == 'x' || w[k] == 'X'
}

/// An attribute that can be written (every one but an unknown data kind).
pub open spec fn attr_ok(a: Attr) -> bool {
    !(a matches Attr::Data(d) && d == ObjDataKind::Unknown)
}

/// A line that the layout can write.
pub open spec fn line_ok(l: SymbolLine) -> bool {
    &&& is_name(l.name)
    &&& (l.section matches Some(sec) ==> is_section_name(sec))
    &&& is_address(l.addr)
    &&& forall|k: int| 0 <= k < l.attrs.len() ==> attr_ok(#[trigger] l.attrs[k])
}

/// Every line can be written in the layout, and no name that starts with
/// `//` follows a line without attributes: there it would be taken for the
/// attribute comment of that line.
pub open spec fn symbols_ok(lines: Seq<SymbolLine>) -> bool {
    &&& forall|k: int| 0 <= k < lines.len() ==> line_ok(#[trigger] lines[k])
    &&& forall|k: int|
        0 < k < lines.len() && lines[k - 1].attrs.len() == 0 ==> !has_at(
            #[trigger] lines[k].name,
            0,
            comment_start(),
        )
}

proof fn lemma_decimal(n: u32)
    ensures
        is_run(decimal(n), CharClass::AttrValueChar),
        is_run(decimal(n), CharClass::NotAsciiWhitespace),
{
    lemma_radix_text(n as nat, 10);
    assert forall|k: int| 0 <= k < decimal(n).len() implies in_class(
        CharClass::AttrValueChar,
        #[trigger] decimal(n)[k],
    ) && in_class(CharClass::NotAsciiWhitespace, decimal(n)[k]) by {
        lemma_digit_is_alnum(decimal(n)[k], 10);
    }
}

proof fn lemma_data_name(d: ObjDataKind)
    requires
        d != ObjDataKind::Unknown,
    ensures
        spec_data_kind(data_name(d)) == Some(d),
{
    match d {
        ObjDataKind::Unknown => {
            assert(false);
        },
        ObjDataKind::Byte => {
            assert(spec_data_kind(data_name(d)) == Some(d));
        },
        ObjDataKind::Byte2 => {
            assert(spec_data_kind(data_name(d)) == Some(d));
        },
        ObjDataKind::Byte4 => {
            assert(data_name(d)[0] != '2');
            assert(spec_data_kind(data_name(d)) == Some(d));
        },
        ObjDataKind::Byte8 => {
            assert(data_name(d)[0] != '2');
            assert(data_name(d)[0] != '4');
            assert(spec_data_kind(data_name(d)) == Some(d));
        },
        ObjDataKind::Float => {
            assert(data_name(d)[0] != '2');
            assert(data_name(d)[0] != '4');
            assert(data_name(d)[0] != '8');
            assert(spec_data_kind(data_name(d)) == Some(d));
        },
        ObjDataKind::Double => {
            assert(spec_data_kind(data_name(d)) == Some(d));
        },
        ObjDataKind::String => {
            assert(data_name(d)[0] != 'd');
            assert(spec_data_kind(data_name(d)) == Some(d));
        },
        ObjDataKind::ShiftJIS => {
            assert(data_name(d)[0] != 'b');
            assert(spec_data_kind(data_name(d)) == Some(d));
        },
        ObjDataKind::String16 => {
            assert(spec_data_kind(data_name(d)) == Some(d));
        },
        ObjDataKind::StringTable => {
            assert(data_name(d).len() == 12);
            assert(spec_data_kind(data_name(d)) == Some(d));
        },
        ObjDataKind::ShiftJISTable => {
            assert(data_name(d).len() == 10);
            assert(spec_data_kind(data_name(d)) == Some(d));
        },
        ObjDataKind::String16Table => {
            assert(data_name(d).len() == 13);
            assert(spec_data_kind(data_name(d)) == Some(d));
        },
        ObjDataKind::Int => {
            assert(spec_data_kind(data_name(d)) == Some(d));
        },
        ObjDataKind::Short => {
            assert(data_name(d)[0] != '2');
            assert(data_name(d)[0] != '4');
            assert(data_name(d)[0] != '8');
            assert(data_name(d)[0] != 'f');
            assert(spec_data_kind(data_name(d)) == Some(d));
        },
    }
}

proof fn lemma_names()
    ensures
        forall|k: ObjSymbolKind| spec_symbol_kind(#[trigger] kind_name(k)) == Some(k),
        forall|f: ObjSymbolFlag| spec_symbol_flag(#[trigger] flag_name(f)) == Some(f),
        forall|d: ObjDataKind| d != ObjDataKind::Unknown ==> spec_data_kind(#[trigger] data_name(d)) == Some(d),
        forall|k: ObjSymbolKind| is_run(#[trigger] kind_name(k), CharClass::AttrValueChar),
        forall|f: ObjSymbolFlag| is_run(#[trigger] flag_name(f), CharClass::AttrValueChar),
        forall|d: ObjDataKind| d != ObjDataKind::Unknown ==> is_run(#[trigger] data_name(d), CharClass::AttrValueChar),
{
    assert forall|d: ObjDataKind| d != ObjDataKind::Unknown implies spec_data_kind(#[trigger] data_name(d)) == Some(d) by {
        lemma_data_name(d);
    }
}

/// The value of a written attribute is read back by its key.
proof fn lemma_key_value(a: Attr)
    requires
        attr_ok(a),
        !(a is Hidden),
    ensures
        spec_key_value(attr_key(a), attr_value(a)) == Some(a),
        is_run(attr_key(a), CharClass::AttrKeyChar),
        is_run(attr_value(a), CharClass::AttrValueChar),
{
    lemma_names();
    let key = attr_key(a);
    match a {
        Attr::Type(k) => {},
        Attr::Flag(f) => {},
        Attr::Size(n) => {
            assert(key[0] != 't');
            lemma_decimal(n);
            law_number_text_roundtrip(n);
        },
        Attr::Data(d) => {
            assert(key[0] != 't' && key[0] != 's');
        },
        Attr::Align(n) => {
            assert(key[0] != 's');
            lemma_decimal(n);
            law_number_text_roundtrip(n);
        },
        Attr::Hidden => {},
    }
}

/// A written attribute followed by a space or a line feed is read back.
proof fn lemma_read_attr(s: Seq<char>, i: int, a: Attr)
    requires
        attr_ok(a),
        has_at(s, i, attr_text(a)),
        i + attr_text(a).len() < s.len(),
        s[i + attr_text(a).len()] == ' ' || s[i + attr_text(a).len()] == '\n',
    ensures
        spec_attr(s, i) == Some((a, i + attr_text(a).len())),
{
    let e = i + attr_text(a).len();
    if a is Hidden {
        let h = hidden_word();
        assert forall|k: int| 0 <= k < h.len() implies in_class(CharClass::AttrKeyChar, #[trigger] h[k])
            && in_class(CharClass::AttrValueChar, h[k]) by {}
        lemma_scan_word(s, i, h, CharClass::AttrKeyChar);
        lemma_scan_word(s, i, h, CharClass::AttrValueChar);
    } else {
        lemma_key_value(a);
        let key = attr_key(a);
        let k1 = i + key.len();
        lemma_has_at_concat(s, i, key + seq![':'], attr_value(a));
        lemma_has_at_concat(s, i, key, seq![':']);
        lemma_has_at_char(s, k1, ':');
        lemma_scan_word(s, i, key, CharClass::AttrKeyChar);
        lemma_scan_word(s, k1 + 1, attr_value(a), CharClass::AttrValueChar);
    }
}

proof fn lemma_read_more_attrs(s: Seq<char>, i: int, attrs: Seq<Attr>)
    requires
        0 <= i,
        forall|k: int| 0 <= k < attrs.len() ==> attr_ok(#[trigger] attrs[k]),
        has_at(s, i, more_attrs_text(attrs)),
        i + more_attrs_text(attrs).len() < s.len(),
        s[i + more_attrs_text(attrs).len()] == '\n',
    ensures
        spec_more_attrs(s, i) == (attrs, i + more_attrs_text(attrs).len()),
    decreases attrs.len(),
{
    if attrs.len() == 0 {
        assert(attrs =~= Seq::<Attr>::empty());
        assert(scan(s, i, CharClass::Space) == i);
    } else {
        let at = attr_text(attrs[0]);
        let rest = attrs.drop_first();
        let j = i + 1 + at.len();
        lemma_has_at_concat(s, i, seq![' '] + at, more_attrs_text(rest));
        lemma_has_at_concat(s, i, seq![' '], at);
        lemma_has_at_char(s, i, ' ');
        assert(at.len() > 0 && at[0] != ' ') by {
            if attrs[0] is Hidden {
            } else {
                lemma_key_value(attrs[0]);
            }
        }
        lemma_has_at_index(s, i + 1, at, 0);
        lemma_scan_word(s, i, seq![' '], CharClass::Space);
        assert forall|k: int| 0 <= k < rest.len() implies attr_ok(#[trigger] rest[k]) by {
            assert(rest[k] == attrs[k + 1]);
        }
        if rest.len() > 0 {
            lemma_has_at_index(s, j, more_attrs_text(rest), 0);
        }
        lemma_read_attr(s, i + 1, attrs[0]);
        lemma_read_more_attrs(s, j, rest);
        assert(seq![attrs[0]] + rest =~= attrs);
    }
}

proof fn lemma_read_attrs(s: Seq<char>, i: int, attrs: Seq<Attr>)
    requires
        0 <= i,
        attrs.len() > 0,
        forall|k: int| 0 <= k < attrs.len() ==> attr_ok(#[trigger] attrs[k]),
        has_at(s, i, attrs_text(attrs)),
        i + attrs_text(attrs).len() < s.len(),
        s[i + attrs_text(attrs).len()] == '\n',
    ensures
        spec_attr_list(s, i) == (attrs, i + attrs_text(attrs).len()),
{
    let at = attr_text(attrs[0]);
    let rest = attrs.drop_first();
    let j = i + at.len();
    lemma_has_at_concat(s, i, at, more_attrs_text(rest));
    assert forall|k: int| 0 <= k < rest.len() implies attr_ok(#[trigger] rest[k]) by {
        assert(rest[k] == attrs[k + 1]);
    }
    if rest.len() > 0 {
        lemma_has_at_index(s, j, more_attrs_text(rest), 0);
    }
    lemma_read_attr(s, i, attrs[0]);
    lemma_read_more_attrs(s, j, rest);
    assert(seq![attrs[0]] + rest =~= attrs);
}

/// What follows a line written in the layout: the end of the text, or the
/// next line, which starts with a name.
pub open spec fn next_line_ok(s: Seq<char>, e: int) -> bool {
    e < s.len() ==> !is_whitespace(s[e]) && !has_at(s, e, comment_start())
}

/// A written symbol line is read back as the symbol it stands for.
proof fn lemma_read_symbol_line(s: Seq<char>, i: int, l: SymbolLine)
    requires
        0 <= i,
        line_ok(l),
        has_at(s, i, symbol_line_text(l)),
        l.attrs.len() == 0 ==> next_line_ok(s, i + symbol_line_text(l).len()),
    ensures
        spec_symbol_line(s, i) == Some((read_line(l), i + symbol_line_text(l).len())),
{
    let eq = seq![' ', '=', ' '];
    let sect = section_text(l.section);
    let comment = comment_text(l.attrs);
    let p1 = l.name + eq;
    let p2 = p1 + sect;
    let p3 = p2 + l.addr;
    let p4 = p3 + seq![';'];
    lemma_has_at_concat(s, i, p4, comment + seq!['\n']);
    assert(symbol_line_text(l) =~= p4 + (comment + seq!['\n']));
    lemma_has_at_concat(s, i, p3, seq![';']);
    lemma_has_at_concat(s, i, p2, l.addr);
    lemma_has_at_concat(s, i, p1, sect);
    lemma_has_at_concat(s, i, l.name, eq);
    let b = i + l.name.len();
    let d = b + 3;
    let a0 = d + sect.len();
    let a1 = a0 + l.addr.len();
    let p = a1 + 1;

    lemma_has_at_index(s, i, l.name, 0);
    lemma_has_at_index(s, b, eq, 0);
    lemma_has_at_index(s, b, eq, 1);
    lemma_has_at_index(s, b, eq, 2);
    lemma_has_at_char(s, a1, ';');
    assert(scan(s, i, CharClass::Whitespace) == i);
    lemma_scan_word(s, i, l.name, CharClass::SymbolNameChar);
    lemma_has_at_char(s, b, ' ');
    lemma_has_at_char(s, b + 2, ' ');
    lemma_scan_word(s, b, seq![' '], CharClass::Whitespace);
    if let Some(sec) = l.section {
        lemma_has_at_concat(s, d, sec, seq![':']);
        lemma_has_at_index(s, d, sect, 0);
        lemma_has_at_char(s, d + sec.len(), ':');
        lemma_scan_word(s, d, sec, CharClass::SectionNameChar);
    } else {
        lemma_has_at_index(s, d, l.addr, 0);
        assert forall|k: int| 0 <= k < l.addr.len() implies in_class(
            CharClass::SectionNameChar,
            #[trigger] l.addr[k],
        ) by {}
        lemma_scan_word(s, d, l.addr, CharClass::SectionNameChar);
    }
    assert(!is_whitespace(s[d]));
    lemma_scan_word(s, b + 2, seq![' '], CharClass::Whitespace);
    lemma_scan_word(s, a0, l.addr, CharClass::AddressChar);
    lemma_read_comment(s, p, l.attrs);
}

/// The attribute comment written at the end of a line, followed by the line
/// feed, is read back as the attributes it lists.
proof fn lemma_read_comment(s: Seq<char>, p: int, attrs: Seq<Attr>)
    requires
        0 <= p,
        forall|k: int| 0 <= k < attrs.len() ==> attr_ok(#[trigger] attrs[k]),
        has_at(s, p, comment_text(attrs) + seq!['\n']),
        attrs.len() == 0 ==> next_line_ok(s, p + comment_text(attrs).len() + 1),
    ensures
        ({
            let q = scan(s, p, CharClass::Whitespace);
            if has_at(s, q, comment_start()) {
                spec_attr_list(s, scan(s, q + 2, CharClass::Whitespace))
            } else {
                (seq![], p)
            }
        }) == (attrs, p + comment_text(attrs).len()),
        spec_line_end(s, p + comment_text(attrs).len()) == Some(p + comment_text(attrs).len() + 1),
{
    let comment = comment_text(attrs);
    lemma_has_at_concat(s, p, comment, seq!['\n']);
    lemma_has_at_char(s, p + comment.len(), '\n');
    if attrs.len() > 0 {
        let at = attrs_text(attrs);
        let c1 = seq![' '] + comment_start();
        let c2 = c1 + seq![' '];
        lemma_has_at_concat(s, p, c2, at);
        lemma_has_at_concat(s, p, c1, seq![' ']);
        lemma_has_at_concat(s, p, seq![' '], comment_start());
        lemma_has_at_index(s, p + 1, comment_start(), 0);
        lemma_has_at_char(s, p + 3, ' ');
        lemma_scan_word(s, p, seq![' '], CharClass::Whitespace);
        assert(at[0] == attr_text(attrs[0])[0]);
        assert(!is_whitespace(at[0])) by {
            if attrs[0] is Hidden {
            } else {
                lemma_key_value(attrs[0]);
            }
        }
        lemma_has_at_index(s, p + 4, at, 0);
        lemma_scan_word(s, p + 3, seq![' '], CharClass::Whitespace);
        lemma_read_attrs(s, p + 4, attrs);
    } else {
        assert(attrs =~= Seq::<Attr>::empty());
        lemma_scan_word(s, p, seq!['\n'], CharClass::Whitespace);
        assert(!has_at(s, p + 1, comment_start()));
    }
}

/// A name that does not start with `//` does not put `//` at the start of
/// its line.
proof fn lemma_next_line_ok(s: Seq<char>, e: int, l: SymbolLine)
    requires
        0 <= e,
        line_ok(l),
        !has_at(l.name, 0, comment_start()),
        has_at(s, e, symbol_line_text(l)),
    ensures
        next_line_ok(s, e),
{
    let eq = seq![' ', '=', ' '];
    lemma_has_at_concat(s, e, l.name + eq, symbol_line_text(l).subrange((l.name + eq).len() as int, symbol_line_text(l).len() as int));
    assert(symbol_line_text(l) =~= (l.name + eq) + symbol_line_text(l).subrange((l.name + eq).len() as int, symbol_line_text(l).len() as int));
    lemma_has_at_concat(s, e, l.name, eq);
    lemma_has_at_index(s, e, l.name, 0);
    if has_at(s, e, comment_start()) {
        lemma_has_at_index(s, e, comment_start(), 0);
        lemma_has_at_index(s, e, comment_start(), 1);
        if l.name.len() == 1 {
            lemma_has_at_index(s, e + 1, eq, 0);
        } else {
            lemma_has_at_index(s, e, l.name, 1);
            assert(l.name.subrange(0, 2) =~= comment_start());
        }
    }
}

proof fn lemma_read_lines(s: Seq<char>, i: int, lines: Seq<SymbolLine>)
    requires
        0 <= i,
        symbols_ok(lines),
        has_at(s, i, symbols_text(lines)),
        i + symbols_text(lines).len() == s.len(),
    ensures
        spec_symbol_lines(s, i) == (read_lines(lines), s.len() as int),
    decreases lines.len(),
{
    if lines.len() == 0 {
        assert(read_lines(lines) =~= Seq::<SymbolSpec>::empty());
        assert(scan(s, i, CharClass::Whitespace) == i);
        assert(scan(s, i, CharClass::SymbolNameChar) == i);
    } else {
        let lt = symbol_line_text(lines[0]);
        let rest = lines.drop_first();
        let j = i + lt.len();
        lemma_has_at_concat(s, i, lt, symbols_text(rest));
        assert(symbols_ok(rest)) by {
            assert forall|k: int| 0 <= k < rest.len() implies line_ok(#[trigger] rest[k]) by {
                assert(rest[k] == lines[k + 1]);
            }
            assert forall|k: int|
                0 < k < rest.len() && rest[k - 1].attrs.len() == 0 implies !has_at(
                #[trigger] rest[k].name,
                0,
                comment_start(),
            ) by {
                assert(rest[k] == lines[k + 1]);
                assert(rest[k - 1] == lines[k]);
            }
        }
        if rest.len() > 0 && lines[0].attrs.len() == 0 {
            lemma_has_at_concat(s, j, symbol_line_text(rest[0]), symbols_text(rest.drop_first()));
            assert(rest[0] == lines[1]);
            lemma_next_line_ok(s, j, rest[0]);
        }
        lemma_read_symbol_line(s, i, lines[0]);
        lemma_read_lines(s, j, rest);
        assert(read_lines(lines) =~= seq![read_line(lines[0])] + read_lines(rest));
    }
}

/// Every list of symbol lines that the layout can write is read back from
/// what it writes: each symbol with its name, section and address as written
/// and the attributes that its attribute list gives, in order.
pub proof fn law_symbols_layout_roundtrip(lines: Seq<SymbolLine>)
    requires
        symbols_ok(lines),
    ensures
        spec_symbols(symbols_text(lines)) == Some(read_lines(lines)),
{
    let s = symbols_text(lines);
    assert(s.subrange(0, s.len() as int) =~= s);
    lemma_read_lines(s, 0, lines);
}

/// `s`, then the scope `f` when `a` has it.
pub open spec fn push_flag(s: Seq<Attr>, a: AttrsSpec, f: ObjSymbolFlag) -> Seq<Attr> {
    if a.flags.contains(f) {
        s.push(Attr::Flag(f))
    } else {
        s
    }
}

/// Attributes that give back `a`: the kind, each scope of `a` in the order
/// in which the scopes are declared, the size when there is one, the data
/// kind unless it is unknown, `hidden` when the symbol is hidden, and the
/// alignment.
pub open spec fn attrs_of(a: AttrsSpec) -> Seq<Attr> {
    let s1 = seq![Attr::Type(a.kind)];
    let s2 = push_flag(
        push_flag(
            push_flag(push_flag(s1, a, ObjSymbolFlag::Common), a, ObjSymbolFlag::Weak),
            a,
            ObjSymbolFlag::Global,
        ),
        a,
        ObjSymbolFlag::Local,
    );
    let s3 = match a.size {
        Some(n) => s2.push(Attr::Size(n)),
        None => s2,
    };
    let s4 = if a.data != ObjDataKind::Unknown {
        s3.push(Attr::Data(a.data))
    } else {
        s3
    };
    let s5 = if a.hidden {
        s4.push(Attr::Hidden)
    } else {
        s4
    };
    s5.push(Attr::Align(a.align))
}

/// The line that writes a symbol.
pub open spec fn line_of(sym: SymbolSpec) -> SymbolLine {
    SymbolLine { name: sym.name, section: sym.section, addr: sym.addr, attrs: attrs_of(sym.attrs) }
}

/// The lines that write symbols, one each.
pub open spec fn lines_of(syms: Seq<SymbolSpec>) -> Seq<SymbolLine> {
    syms.map_values(|sym: SymbolSpec| line_of(sym))
}

proof fn lemma_fold_push(s: Seq<Attr>, x: Attr)
    ensures
        fold_attrs(s.push(x)) == apply_attr(fold_attrs(s), x),
{
    assert(s.push(x).drop_last() =~= s);
}

proof fn lemma_push_flag(s: Seq<Attr>, a: AttrsSpec, f: ObjSymbolFlag)
    requires
        forall|k: int| 0 <= k < s.len() ==> attr_ok(#[trigger] s[k]),
    ensures
        fold_attrs(push_flag(s, a, f)) == (if a.flags.contains(f) {
            apply_attr(fold_attrs(s), Attr::Flag(f))
        } else {
            fold_attrs(s)
        }),
        forall|k: int| 0 <= k < push_flag(s, a, f).len() ==> attr_ok(#[trigger] push_flag(s, a, f)[k]),
{
    if a.flags.contains(f) {
        lemma_fold_push(s, Attr::Flag(f));
        assert forall|k: int| 0 <= k < s.push(Attr::Flag(f)).len() implies attr_ok(
            #[trigger] s.push(Attr::Flag(f))[k],
        ) by {
            if k < s.len() {
                assert(s.push(Attr::Flag(f))[k] == s[k]);
            }
        }
    }
}

proof fn lemma_push_ok(s: Seq<Attr>, x: Attr)
    requires
        forall|k: int| 0 <= k < s.len() ==> attr_ok(#[trigger] s[k]),
        attr_ok(x),
    ensures
        forall|k: int| 0 <= k < s.push(x).len() ==> attr_ok(#[trigger] s.push(x)[k]),
        fold_attrs(s.push(x)) == apply_attr(fold_attrs(s), x),
{
    lemma_fold_push(s, x);
    assert forall|k: int| 0 <= k < s.push(x).len() implies attr_ok(#[trigger] s.push(x)[k]) by {
        if k < s.len() {
            assert(s.push(x)[k] == s[k]);
        }
    }
}

/// The attributes that `attrs_of` writes can be written, and give back the
/// attributes they were made from.
proof fn lemma_attrs_of(a: AttrsSpec)
    ensures
        attrs_of(a).len() > 0,
        forall|k: int| 0 <= k < attrs_of(a).len() ==> attr_ok(#[trigger] attrs_of(a)[k]),
        fold_attrs(attrs_of(a)) == a,
{
    let s1 = seq![Attr::Type(a.kind)];
    assert(s1.drop_last() =~= Seq::<Attr>::empty());
    assert(fold_attrs(Seq::<Attr>::empty()) == default_attrs());
    assert(fold_attrs(s1) == apply_attr(default_attrs(), Attr::Type(a.kind)));
    let c = push_flag(s1, a, ObjSymbolFlag::Common);
    let w = push_flag(c, a, ObjSymbolFlag::Weak);
    let g = push_flag(w, a, ObjSymbolFlag::Global);
    let s2 = push_flag(g, a, ObjSymbolFlag::Local);
    lemma_push_flag(s1, a, ObjSymbolFlag::Common);
    lemma_push_flag(c, a, ObjSymbolFlag::Weak);
    lemma_push_flag(w, a, ObjSymbolFlag::Global);
    lemma_push_flag(g, a, ObjSymbolFlag::Local);
    let s3 = match a.size {
        Some(n) => s2.push(Attr::Size(n)),
        None => s2,
    };
    if let Some(n) = a.size {
        lemma_push_ok(s2, Attr::Size(n));
    }
    let s4 = if a.data != ObjDataKind::Unknown {
        s3.push(Attr::Data(a.data))
    } else {
        s3
    };
    if a.data != ObjDataKind::Unknown {
        lemma_push_ok(s3, Attr::Data(a.data));
    }
    let s5 = if a.hidden {
        s4.push(Attr::Hidden)
    } else {
        s4
    };
    if a.hidden {
        lemma_push_ok(s4, Attr::Hidden);
    }
    lemma_push_ok(s5, Attr::Align(a.align));
    assert(fold_attrs(s2).flags =~= a.flags) by {
        assert(fold_attrs(s1).flags =~= Set::<ObjSymbolFlag>::empty());
        assert forall|f: ObjSymbolFlag| fold_attrs(s2).flags.contains(f) == a.flags.contains(f) by {
            match f {
                ObjSymbolFlag::Common => {},
                ObjSymbolFlag::Weak => {},
                ObjSymbolFlag::Global => {},
                ObjSymbolFlag::Local => {},
            }
        }
    }
}

/// A symbol that is read has a name, section and address that can be
/// written.
proof fn lemma_symbol_line_read_ok(s: Seq<char>, i: int)
    ensures
        spec_symbol_line(s, i) matches Some((sym, _)) ==> {
            &&& is_name(sym.name)
            &&& (sym.section matches Some(sec) ==> is_section_name(sec))
            &&& is_address(sym.addr)
        },
{
    if let Some((sym, _)) = spec_symbol_line(s, i) {
        let a = scan(s, i, CharClass::Whitespace);
        let b = scan(s, a, CharClass::SymbolNameChar);
        let c = scan(s, b, CharClass::Whitespace);
        let d = scan(s, c + 1, CharClass::Whitespace);
        let sec_end = scan(s, d, CharClass::SectionNameChar);
        let has_section = sec_end > d && sec_end < s.len() && s[sec_end] == ':';
        let a0 = if has_section {
            sec_end + 1
        } else {
            d
        };
        let a1 = scan(s, a0, CharClass::AddressChar);
        lemma_scan_bounds(s, i, CharClass::Whitespace);
        lemma_scan_bounds(s, a, CharClass::SymbolNameChar);
        lemma_scan_bounds(s, b, CharClass::Whitespace);
        lemma_scan_bounds(s, c + 1, CharClass::Whitespace);
        lemma_scan_bounds(s, d, CharClass::SectionNameChar);
        lemma_scan_bounds(s, a0, CharClass::AddressChar);
        assert forall|k: int| 0 <= k < sym.name.len() implies in_class(
            CharClass::SymbolNameChar,
            #[trigger] sym.name[k],
        ) by {
            assert(sym.name[k] == s[a + k]);
        }
        if has_section {
            assert forall|k: int| 0 <= k < sec_end - d implies in_class(
                CharClass::SectionNameChar,
                #[trigger] s.subrange(d, sec_end)[k],
            ) by {
                assert(s.subrange(d, sec_end)[k] == s[d + k]);
            }
        }
        assert forall|k: int| 0 <= k < sym.addr.len() implies in_class(
            CharClass::AddressChar,
            #[trigger] sym.addr[k],
        ) by {
            assert(sym.addr[k] == s[a0 + k]);
        }
    }
}

proof fn lemma_symbol_lines_read_ok(s: Seq<char>, i: int)
    ensures
        forall|k: int|
            0 <= k < spec_symbol_lines(s, i).0.len() ==> {
                let sym = #[trigger] spec_symbol_lines(s, i).0[k];
                &&& is_name(sym.name)
                &&& (sym.section matches Some(sec) ==> is_section_name(sec))
                &&& is_address(sym.addr)
            },
    decreases s.len() - i,
{
    if let Some((sym, j)) = spec_symbol_line(s, i) {
        lemma_symbol_line_progress(s, i);
        lemma_symbol_line_read_ok(s, i);
        lemma_symbol_lines_read_ok(s, j);
        let rest = spec_symbol_lines(s, j).0;
        assert forall|k: int| 0 <= k < (seq![sym] + rest).len() implies {
            let x = #[trigger] (seq![sym] + rest)[k];
            &&& is_name(x.name)
            &&& (x.section matches Some(sec) ==> is_section_name(sec))
            &&& is_address(x.addr)
        } by {
            if k > 0 {
                assert((seq![sym] + rest)[k] == rest[k - 1]);
            }
        }
    }
}

/// Whatever is read from a `symbols.txt` can be written in the layout, each
/// symbol on a line of its own with its attributes spelled out, and what the
/// layout writes for it is read back as the same symbols.
pub proof fn law_symbols_read_is_writable(s: Seq<char>)
    ensures
        spec_symbols(s) matches Some(syms) ==> symbols_ok(lines_of(syms)) && spec_symbols(
            symbols_text(lines_of(syms)),
        ) == Some(syms),
{
    if let Some(syms) = spec_symbols(s) {
        let lines = lines_of(syms);
        lemma_symbol_lines_read_ok(s, 0);
        assert forall|k: int| 0 <= k < lines.len() implies line_ok(#[trigger] lines[k]) by {
            lemma_attrs_of(syms[k].attrs);
        }
        assert forall|k: int|
            0 < k < lines.len() && lines[k - 1].attrs.len() == 0 implies !has_at(
            #[trigger] lines[k].name,
            0,
            comment_start(),
        ) by {
            lemma_attrs_of(syms[k - 1].attrs);
        }
        assert(read_lines(lines) =~= syms) by {
            assert forall|k: int| 0 <= k < syms.len() implies read_lines(lines)[k] == syms[k] by {
                lemma_attrs_of(syms[k].attrs);
            }
        }
        law_symbols_layout_roundtrip(lines);
    }
}

} // verus!
