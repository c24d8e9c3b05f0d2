//! The layout in which a `splits.txt` is written, and the law that a file
//! written in it is read back as the value it was written from.
use vstd::prelude::*;

use crate::splits::parser::{
    align_key, end_key, path_end, sections_header, spec_file, spec_file_list, spec_more_files,
    spec_more_sections, spec_more_splits, spec_section, spec_section_list, spec_sections,
    spec_split, spec_split_list, spec_splits, start_key, type_key, lemma_section_progress,
    lemma_split_progress, lemma_file_progress, lemma_more_splits_ge,
};
use crate::splits::{FileSpec, SectionSpec, SplitSpec, SplitsSpec};
use crate::util::parser::{
    has_at, in_class, is_ascii_whitespace, is_whitespace, lemma_has_at_char, lemma_has_at_concat,
    lemma_has_at_index, lemma_scan, lemma_scan_bounds, lemma_scan_ge, lemma_scan_word, scan,
    CharClass,
};
use crate::util::parsing::{
    digit_value, law_number_text_roundtrip, lemma_digit_is_alnum, lemma_radix_text, radix_text,
    spec_parse_dec_or_hex, NumberError,
};

verus! {

/// `n` in decimal.
pub open spec fn decimal(n: u32) -> Seq<char> {
    radix_text(n as nat, 10)
}

/// A value that can stand as a field of a line: not empty, and without ASCII
/// whitespace.
pub open spec fn is_field(w: Seq<char>) -> bool {
    w.len() > 0 && forall|k: int| 0 <= k < w.len() ==> !is_ascii_whitespace(#[trigger] w[k])
}

/// A character that a file's path can hold: anything but `:` and ASCII
/// whitespace.
pub open spec fn is_path_char(c: char) -> bool {
    c != ':' && !(c == ' ' || c == '\t' || c == '\n' || c == '\x0C' || c == '\r')
}

/// A path that can head a file: not empty, without `:` and ASCII whitespace,
/// and not starting with whitespace.
pub open spec fn is_path(p: Seq<char>) -> bool {
    &&& p.len() > 0
    &&& !is_whitespace(p[0])
    &&& forall|k: int| 0 <= k < p.len() ==> is_path_char(#[trigger] p[k])
}

/// A section whose name and type can be written as fields.
pub open spec fn section_ok(sec: SectionSpec) -> bool {
    is_field(sec.name) && is_field(sec.kind)
}

/// A range whose section name can be written as a field.
pub open spec fn split_ok(sp: SplitSpec) -> bool {
    is_field(sp.section)
}

/// A file whose path and ranges can be written.
pub open spec fn file_ok(f: FileSpec) -> bool {
    is_path(f.path) && forall|k: int| 0 <= k < f.splits.len() ==> split_ok(#[trigger] f.splits[k])
}

/// The values that the layout can write.
pub open spec fn splits_ok(v: SplitsSpec) -> bool {
    &&& forall|k: int| 0 <= k < v.sections.len() ==> section_ok(#[trigger] v.sections[k])
    &&& forall|k: int| 0 <= k < v.files.len() ==> file_ok(#[trigger] v.files[k])
}

/// `\t<name> type:<kind> align:<align>`
pub open spec fn section_line(sec: SectionSpec) -> Seq<char> {
    seq!['\t'] + sec.name + seq![' '] + type_key() + sec.kind + seq![' '] + align_key() + decimal(
        sec.align,
    )
}

/// `\t<section> start:<start> end:<end>`
pub open spec fn split_line(sp: SplitSpec) -> Seq<char> {
    seq!['\t'] + sp.section + seq![' '] + start_key() + decimal(sp.start) + seq![' '] + end_key()
        + decimal(sp.end)
}

/// Each section line after a line feed.
pub open spec fn more_sections_text(secs: Seq<SectionSpec>) -> Seq<char>
    decreases secs.len(),
{
    if secs.len() == 0 {
        seq![]
    } else {
        seq!['\n'] + section_line(secs[0]) + more_sections_text(secs.drop_first())
    }
}

/// The section lines, one per line.
pub open spec fn sections_text(secs: Seq<SectionSpec>) -> Seq<char> {
    if secs.len() == 0 {
        seq![]
    } else {
        section_line(secs[0]) + more_sections_text(secs.drop_first())
    }
}

/// Each split line after a line feed.
pub open spec fn more_splits_text(sps: Seq<SplitSpec>) -> Seq<char>
    decreases sps.len(),
{
    if sps.len() == 0 {
        seq![]
    } else {
        seq!['\n'] + split_line(sps[0]) + more_splits_text(sps.drop_first())
    }
}

/// `<path>:` on a line, then the split lines.
pub open spec fn file_text(f: FileSpec) -> Seq<char> {
    f.path + path_end() + if f.splits.len() == 0 {
        seq![]
    } else {
        split_line(f.splits[0]) + more_splits_text(f.splits.drop_first())
    }
}

/// Two line feeds: the end of a line and an empty line.
pub open spec fn blank_line() -> Seq<char> {
    seq!['\n', '\n']
}

/// Each file after an empty line.
pub open spec fn files_text(files: Seq<FileSpec>) -> Seq<char>
    decreases files.len(),
{
    if files.len() == 0 {
        seq![]
    } else {
        blank_line() + file_text(files[0]) + files_text(files.drop_first())
    }
}

/// A whole `splits.txt` in the layout: `Sections:`, the section lines, then
/// each file after an empty line.
pub open spec fn splits_text(v: SplitsSpec) -> Seq<char> {
    sections_header() + sections_text(v.sections) + files_text(v.files)
}

proof fn lemma_decimal(n: u32)
    ensures
        decimal(n).len() > 0,
        forall|k: int|
            0 <= k < decimal(n).len() ==> ('0' <= #[trigger] decimal(n)[k] <= '9' || 'a' <= decimal(
                n,
            )[k] <= 'z' || 'A' <= decimal(n)[k] <= 'Z'),
{
    lemma_radix_text(n as nat, 10);
    assert forall|k: int| 0 <= k < decimal(n).len() implies ('0' <= #[trigger] decimal(n)[k] <= '9'
        || 'a' <= decimal(n)[k] <= 'z' || 'A' <= decimal(n)[k] <= 'Z') by {
        lemma_digit_is_alnum(decimal(n)[k], 10);
    }
}

/// A section line that is followed by ASCII whitespace or by the end of the
/// text is read as the section it was written from.
proof fn lemma_read_section_line(s: Seq<char>, i: int, sec: SectionSpec)
    requires
        section_ok(sec),
        has_at(s, i, section_line(sec)),
        i + section_line(sec).len() < s.len() ==> is_ascii_whitespace(
            s[i + section_line(sec).len()],
        ),
    ensures
        spec_section(s, i) == Some((sec, i + section_line(sec).len())),
{
    let digits = decimal(sec.align);
    let l1 = seq!['\t'] + sec.name;
    let l2 = l1 + seq![' '];
    let l3 = l2 + type_key();
    let l4 = l3 + sec.kind;
    let l5 = l4 + seq![' '];
    let l6 = l5 + align_key();
    lemma_has_at_concat(s, i, l6, digits);
    lemma_has_at_concat(s, i, l5, align_key());
    lemma_has_at_concat(s, i, l4, seq![' ']);
    lemma_has_at_concat(s, i, l3, sec.kind);
    lemma_has_at_concat(s, i, l2, type_key());
    lemma_has_at_concat(s, i, l1, seq![' ']);
    lemma_has_at_concat(s, i, seq!['\t'], sec.name);
    let n1 = i + 1 + sec.name.len();
    let t0 = n1 + 6;
    let t1 = t0 + sec.kind.len();
    let a0 = t1 + 7;
    lemma_has_at_char(s, i, '\t');
    lemma_has_at_char(s, n1, ' ');
    lemma_has_at_char(s, t1, ' ');
    lemma_has_at_index(s, n1 + 1, type_key(), 0);
    lemma_scan_word(s, i + 1, sec.name, CharClass::NotAsciiWhitespace);
    lemma_scan_word(s, n1, seq![' '], CharClass::Space);
    lemma_scan_word(s, t0, sec.kind, CharClass::NotAsciiWhitespace);
    lemma_decimal(sec.align);
    assert forall|k: int| 0 <= k < digits.len() implies in_class(
        CharClass::NotAsciiWhitespace,
        #[trigger] digits[k],
    ) by {}
    lemma_scan_word(s, a0, digits, CharClass::NotAsciiWhitespace);
    law_number_text_roundtrip(sec.align);
}

/// A split line that is followed by ASCII whitespace or by the end of the
/// text is read as the split it was written from.
proof fn lemma_read_split_line(s: Seq<char>, i: int, sp: SplitSpec)
    requires
        split_ok(sp),
        has_at(s, i, split_line(sp)),
        i + split_line(sp).len() < s.len() ==> is_ascii_whitespace(s[i + split_line(sp).len()]),
    ensures
        spec_split(s, i) == Some((sp, i + split_line(sp).len())),
{
    let ds = decimal(sp.start);
    let de = decimal(sp.end);
    let l1 = seq!['\t'] + sp.section;
    let l2 = l1 + seq![' '];
    let l3 = l2 + start_key();
    let l4 = l3 + ds;
    let l5 = l4 + seq![' '];
    let l6 = l5 + end_key();
    lemma_has_at_concat(s, i, l6, de);
    lemma_has_at_concat(s, i, l5, end_key());
    lemma_has_at_concat(s, i, l4, seq![' ']);
    lemma_has_at_concat(s, i, l3, ds);
    lemma_has_at_concat(s, i, l2, start_key());
    lemma_has_at_concat(s, i, l1, seq![' ']);
    lemma_has_at_concat(s, i, seq!['\t'], sp.section);
    let n1 = i + 1 + sp.section.len();
    let b0 = n1 + 7;
    let b1 = b0 + ds.len();
    let e0 = b1 + 5;
    lemma_has_at_char(s, i, '\t');
    lemma_has_at_char(s, n1, ' ');
    lemma_has_at_char(s, b1, ' ');
    lemma_has_at_index(s, n1 + 1, start_key(), 0);
    lemma_scan_word(s, i + 1, sp.section, CharClass::NotAsciiWhitespace);
    lemma_scan_word(s, n1, seq![' '], CharClass::Space);
    lemma_decimal(sp.start);
    lemma_decimal(sp.end);
    assert forall|k: int| 0 <= k < ds.len() implies in_class(
        CharClass::NotAsciiWhitespace,
        #[trigger] ds[k],
    ) by {}
    assert forall|k: int| 0 <= k < de.len() implies in_class(
        CharClass::NotAsciiWhitespace,
        #[trigger] de[k],
    ) by {}
    lemma_scan_word(s, b0, ds, CharClass::NotAsciiWhitespace);
    lemma_scan_word(s, e0, de, CharClass::NotAsciiWhitespace);
    law_number_text_roundtrip(sp.start);
    law_number_text_roundtrip(sp.end);
}

/// At `e` a list of tab-led lines has ended: the text ends, or a line feed
/// comes that is not followed by a tab.
pub open spec fn ends_list(s: Seq<char>, e: int) -> bool {
    ||| e == s.len()
    ||| (0 <= e < s.len() && s[e] == '\n' && (e + 1 < s.len() ==> s[e + 1] != '\t'))
}

proof fn lemma_read_more_sections(s: Seq<char>, i: int, secs: Seq<SectionSpec>)
    requires
        forall|k: int| 0 <= k < secs.len() ==> section_ok(#[trigger] secs[k]),
        has_at(s, i, more_sections_text(secs)),
        ends_list(s, i + more_sections_text(secs).len()),
    ensures
        spec_more_sections(s, i) == (secs, i + more_sections_text(secs).len()),
    decreases secs.len(),
{
    if secs.len() == 0 {
        assert(secs =~= Seq::<SectionSpec>::empty());
    } else {
        let line = section_line(secs[0]);
        let rest = secs.drop_first();
        let j = i + 1 + line.len();
        lemma_has_at_concat(s, i, seq!['\n'] + line, more_sections_text(rest));
        lemma_has_at_concat(s, i, seq!['\n'], line);
        lemma_has_at_char(s, i, '\n');
        assert forall|k: int| 0 <= k < rest.len() implies section_ok(#[trigger] rest[k]) by {
            assert(rest[k] == secs[k + 1]);
        }
        if rest.len() > 0 {
            lemma_has_at_index(s, j, more_sections_text(rest), 0);
        }
        lemma_read_section_line(s, i + 1, secs[0]);
        lemma_read_more_sections(s, j, rest);
        assert(seq![secs[0]] + rest =~= secs);
    }
}

proof fn lemma_read_sections(s: Seq<char>, i: int, secs: Seq<SectionSpec>)
    requires
        forall|k: int| 0 <= k < secs.len() ==> section_ok(#[trigger] secs[k]),
        has_at(s, i, sections_text(secs)),
        ends_list(s, i + sections_text(secs).len()),
    ensures
        spec_section_list(s, i) == (secs, i + sections_text(secs).len()),
{
    if secs.len() == 0 {
        assert(secs =~= Seq::<SectionSpec>::empty());
    } else {
        let line = section_line(secs[0]);
        let rest = secs.drop_first();
        let j = i + line.len();
        lemma_has_at_concat(s, i, line, more_sections_text(rest));
        assert forall|k: int| 0 <= k < rest.len() implies section_ok(#[trigger] rest[k]) by {
            assert(rest[k] == secs[k + 1]);
        }
        if rest.len() > 0 {
            lemma_has_at_index(s, j, more_sections_text(rest), 0);
        }
        lemma_read_section_line(s, i, secs[0]);
        lemma_read_more_sections(s, j, rest);
        assert(seq![secs[0]] + rest =~= secs);
    }
}

proof fn lemma_read_more_splits(s: Seq<char>, i: int, sps: Seq<SplitSpec>)
    requires
        forall|k: int| 0 <= k < sps.len() ==> split_ok(#[trigger] sps[k]),
        has_at(s, i, more_splits_text(sps)),
        ends_list(s, i + more_splits_text(sps).len()),
    ensures
        spec_more_splits(s, i) == (sps, i + more_splits_text(sps).len()),
    decreases sps.len(),
{
    if sps.len() == 0 {
        assert(sps =~= Seq::<SplitSpec>::empty());
    } else {
        let line = split_line(sps[0]);
        let rest = sps.drop_first();
        let j = i + 1 + line.len();
        lemma_has_at_concat(s, i, seq!['\n'] + line, more_splits_text(rest));
        lemma_has_at_concat(s, i, seq!['\n'], line);
        lemma_has_at_char(s, i, '\n');
        assert forall|k: int| 0 <= k < rest.len() implies split_ok(#[trigger] rest[k]) by {
            assert(rest[k] == sps[k + 1]);
        }
        if rest.len() > 0 {
            lemma_has_at_index(s, j, more_splits_text(rest), 0);
        }
        lemma_read_split_line(s, i + 1, sps[0]);
        lemma_read_more_splits(s, j, rest);
        assert(seq![sps[0]] + rest =~= sps);
    }
}

/// A file written in the layout, followed by an empty line or by the end of
/// the text, is read as the file it was written from.
proof fn lemma_read_file(s: Seq<char>, i: int, f: FileSpec)
    requires
        file_ok(f),
        has_at(s, i, file_text(f)),
        ends_list(s, i + file_text(f).len()),
    ensures
        spec_file(s, i) == Some((f, i + file_text(f).len())),
{
    let head = f.path + path_end();
    let body = if f.splits.len() == 0 {
        seq![]
    } else {
        split_line(f.splits[0]) + more_splits_text(f.splits.drop_first())
    };
    let p1 = i + f.path.len();
    let j = p1 + 2;
    lemma_has_at_concat(s, i, head, body);
    lemma_has_at_concat(s, i, f.path, path_end());
    lemma_has_at_index(s, p1, path_end(), 0);
    lemma_scan_word(s, i, f.path, CharClass::PathChar);
    if f.splits.len() == 0 {
        assert(f.splits =~= Seq::<SplitSpec>::empty());
    } else {
        let line = split_line(f.splits[0]);
        let rest = f.splits.drop_first();
        lemma_has_at_concat(s, j, line, more_splits_text(rest));
        assert forall|k: int| 0 <= k < rest.len() implies split_ok(#[trigger] rest[k]) by {
            assert(rest[k] == f.splits[k + 1]);
        }
        if rest.len() > 0 {
            lemma_has_at_index(s, j + line.len(), more_splits_text(rest), 0);
        }
        lemma_read_split_line(s, j, f.splits[0]);
        lemma_read_more_splits(s, j + line.len(), rest);
        assert(seq![f.splits[0]] + rest =~= f.splits);
    }
}

proof fn lemma_read_more_files(s: Seq<char>, i: int, files: Seq<FileSpec>)
    requires
        0 <= i,
        forall|k: int| 0 <= k < files.len() ==> file_ok(#[trigger] files[k]),
        has_at(s, i, files_text(files)),
        i + files_text(files).len() == s.len(),
    ensures
        spec_more_files(s, i) == (files, s.len() as int),
    decreases files.len(),
{
    if files.len() == 0 {
        assert(files =~= Seq::<FileSpec>::empty());
        lemma_scan_word(s, i, seq![], CharClass::Whitespace);
        lemma_scan_word(s, i, seq![], CharClass::PathChar);
    } else {
        let ft = file_text(files[0]);
        let rest = files.drop_first();
        let j = i + 2;
        let e = j + ft.len();
        lemma_has_at_concat(s, i, blank_line() + ft, files_text(rest));
        lemma_has_at_concat(s, i, blank_line(), ft);
        lemma_has_at_index(s, j, ft, 0);
        assert(ft[0] == files[0].path[0]);
        assert forall|k: int| 0 <= k < 2 implies in_class(
            CharClass::Whitespace,
            #[trigger] blank_line()[k],
        ) by {}
        lemma_scan_word(s, i, blank_line(), CharClass::Whitespace);
        assert forall|k: int| 0 <= k < rest.len() implies file_ok(#[trigger] rest[k]) by {
            assert(rest[k] == files[k + 1]);
        }
        if rest.len() > 0 {
            lemma_has_at_index(s, e, files_text(rest), 0);
            lemma_has_at_index(s, e, files_text(rest), 1);
        }
        lemma_read_file(s, j, files[0]);
        lemma_read_more_files(s, e, rest);
        assert(seq![files[0]] + rest =~= files);
    }
}

/// After the sections, the file list starts past the whitespace, and reads
/// what `spec_more_files` reads when a file is found there.
proof fn lemma_file_list_start(s: Seq<char>, i: int)
    ensures
        spec_file(s, scan(s, i, CharClass::Whitespace)) is Some ==> spec_file_list(
            s,
            scan(s, i, CharClass::Whitespace),
        ) == spec_more_files(s, i),
{
}

proof fn lemma_layout_parts(v: SplitsSpec)
    requires
        splits_ok(v),
    ensures
        has_at(splits_text(v), 10, sections_text(v.sections)),
        has_at(splits_text(v), 10 + sections_text(v.sections).len() as int, files_text(v.files)),
        splits_text(v).len() == 10 + sections_text(v.sections).len() + files_text(v.files).len(),
{
    let s = splits_text(v);
    let st = sections_text(v.sections);
    let ft = files_text(v.files);
    assert(s.subrange(0, s.len() as int) =~= s);
    lemma_has_at_concat(s, 0, sections_header() + st, ft);
    lemma_has_at_concat(s, 0, sections_header(), st);
}

proof fn lemma_layout_sections(v: SplitsSpec)
    requires
        splits_ok(v),
    ensures
        spec_sections(splits_text(v), 0) == Some(
            (v.sections, 10 + sections_text(v.sections).len() as int),
        ),
{
    let s = splits_text(v);
    let st = sections_text(v.sections);
    let ft = files_text(v.files);
    let i = 10 + st.len() as int;
    lemma_layout_parts(v);
    assert(s.subrange(0, s.len() as int) =~= s);
    lemma_has_at_concat(s, 0, sections_header() + st, ft);
    lemma_has_at_concat(s, 0, sections_header(), st);
    if v.files.len() > 0 {
        lemma_has_at_index(s, i, ft, 0);
        lemma_has_at_index(s, i, ft, 1);
    }
    lemma_read_sections(s, 10, v.sections);
}

/// The whole text is read once the sections end at `i` and the files from
/// `i` run to its end.
proof fn lemma_splits_from_parts(
    s: Seq<char>,
    i: int,
    secs: Seq<SectionSpec>,
    files: Seq<FileSpec>,
)
    requires
        0 <= i <= s.len(),
        spec_sections(s, 0) == Some((secs, i)),
        spec_more_files(s, i) == (files, s.len() as int),
        files.len() == 0 ==> i == s.len(),
    ensures
        spec_splits(s) == Some(SplitsSpec { sections: secs, files }),
{
    assert(scan(s, s.len() as int, CharClass::Whitespace) == s.len());
    if files.len() == 0 {
        assert(scan(s, s.len() as int, CharClass::PathChar) == s.len());
    } else {
        lemma_file_list_start(s, i);
    }
}

/// Every value that the layout can write is read back from what it writes:
/// the sections and the files, with their paths and splits, in order.
pub proof fn law_splits_layout_roundtrip(v: SplitsSpec)
    requires
        splits_ok(v),
    ensures
        spec_splits(splits_text(v)) == Some(v),
{
    let s = splits_text(v);
    let i = 10 + sections_text(v.sections).len() as int;
    lemma_layout_parts(v);
    lemma_layout_sections(v);
    lemma_read_more_files(s, i, v.files);
    if v.files.len() == 0 {
        assert(files_text(v.files).len() == 0);
    }
    lemma_splits_from_parts(s, i, v.sections, v.files);
}

/// A run of characters of `class` that starts at `i` is, as a piece of text,
/// made of characters of `class`.
proof fn lemma_run(s: Seq<char>, i: int, class: CharClass)
    requires
        0 <= i <= s.len(),
    ensures
        forall|k: int|
            0 <= k < s.subrange(i, scan(s, i, class)).len() ==> in_class(
                class,
                #[trigger] s.subrange(i, scan(s, i, class))[k],
            ),
{
    lemma_scan(s, i, class);
    let e = scan(s, i, class);
    assert forall|k: int| 0 <= k < s.subrange(i, e).len() implies in_class(
        class,
        #[trigger] s.subrange(i, e)[k],
    ) by {
        assert(s.subrange(i, e)[k] == s[i + k]);
    }
}

/// A section that is read can be written.
proof fn lemma_section_read_ok(s: Seq<char>, i: int)
    ensures
        spec_section(s, i) matches Some((sec, _)) ==> section_ok(sec),
{
    if let Some((sec, _)) = spec_section(s, i) {
        let n1 = scan(s, i + 1, CharClass::NotAsciiWhitespace);
        let w = scan(s, n1, CharClass::Space);
        lemma_run(s, i + 1, CharClass::NotAsciiWhitespace);
        lemma_run(s, w + 5, CharClass::NotAsciiWhitespace);
    }
}

/// A range that is read can be written.
proof fn lemma_split_read_ok(s: Seq<char>, i: int)
    ensures
        spec_split(s, i) matches Some((sp, _)) ==> split_ok(sp),
{
    if let Some((sp, _)) = spec_split(s, i) {
        lemma_run(s, i + 1, CharClass::NotAsciiWhitespace);
    }
}

proof fn lemma_more_sections_read_ok(s: Seq<char>, i: int)
    ensures
        forall|k: int|
            0 <= k < spec_more_sections(s, i).0.len() ==> section_ok(
                #[trigger] spec_more_sections(s, i).0[k],
            ),
    decreases s.len() - i,
{
    if 0 <= i < s.len() && s[i] == '\n' {
        if let Some((sec, j)) = spec_section(s, i + 1) {
            lemma_section_progress(s, i + 1);
            lemma_section_read_ok(s, i + 1);
            lemma_more_sections_read_ok(s, j);
            let rest = spec_more_sections(s, j).0;
            assert forall|k: int| 0 <= k < (seq![sec] + rest).len() implies section_ok(
                #[trigger] (seq![sec] + rest)[k],
            ) by {
                if k > 0 {
                    assert((seq![sec] + rest)[k] == rest[k - 1]);
                }
            }
        }
    }
}

proof fn lemma_more_splits_read_ok(s: Seq<char>, i: int)
    ensures
        forall|k: int|
            0 <= k < spec_more_splits(s, i).0.len() ==> split_ok(
                #[trigger] spec_more_splits(s, i).0[k],
            ),
    decreases s.len() - i,
{
    if 0 <= i < s.len() && s[i] == '\n' {
        if let Some((sp, j)) = spec_split(s, i + 1) {
            lemma_split_progress(s, i + 1);
            lemma_split_read_ok(s, i + 1);
            lemma_more_splits_read_ok(s, j);
            let rest = spec_more_splits(s, j).0;
            assert forall|k: int| 0 <= k < (seq![sp] + rest).len() implies split_ok(
                #[trigger] (seq![sp] + rest)[k],
            ) by {
                if k > 0 {
                    assert((seq![sp] + rest)[k] == rest[k - 1]);
                }
            }
        }
    }
}

/// A file that is read where no whitespace stands can be written.
proof fn lemma_file_read_ok(s: Seq<char>, i: int)
    requires
        0 <= i < s.len() ==> !is_whitespace(s[i]),
    ensures
        spec_file(s, i) matches Some((f, _)) ==> file_ok(f),
{
    if let Some((f, _)) = spec_file(s, i) {
        let p1 = scan(s, i, CharClass::PathChar);
        lemma_scan(s, i, CharClass::PathChar);
        lemma_run(s, i, CharClass::PathChar);
        assert(f.path[0] == s[i]);
        let q = p1 + 2;
        lemma_split_read_ok(s, q);
        if let Some((sp, j)) = spec_split(s, q) {
            lemma_split_progress(s, q);
            lemma_more_splits_read_ok(s, j);
            let rest = spec_more_splits(s, j).0;
            assert forall|k: int| 0 <= k < (seq![sp] + rest).len() implies split_ok(
                #[trigger] (seq![sp] + rest)[k],
            ) by {
                if k > 0 {
                    assert((seq![sp] + rest)[k] == rest[k - 1]);
                }
            }
        }
    }
}

proof fn lemma_more_files_read_ok(s: Seq<char>, i: int)
    ensures
        forall|k: int|
            0 <= k < spec_more_files(s, i).0.len() ==> file_ok(#[trigger] spec_more_files(s, i).0[k]),
    decreases s.len() - i,
{
    let w = scan(s, i, CharClass::Whitespace);
    if 0 <= i <= s.len() {
        lemma_scan(s, i, CharClass::Whitespace);
    }
    lemma_file_read_ok(s, w);
    if let Some((f, j)) = spec_file(s, w) {
        lemma_scan_ge(s, i, CharClass::Whitespace);
        lemma_file_progress(s, w);
        lemma_more_files_read_ok(s, j);
        let rest = spec_more_files(s, j).0;
        assert forall|k: int| 0 <= k < (seq![f] + rest).len() implies file_ok(
            #[trigger] (seq![f] + rest)[k],
        ) by {
            if k > 0 {
                assert((seq![f] + rest)[k] == rest[k - 1]);
            }
        }
    }
}

/// Whatever is read from a `splits.txt` can be written in the layout, and
/// what the layout writes for it is read back as the same value: reading the
/// layout of what was read changes nothing.
pub proof fn law_splits_read_is_writable(s: Seq<char>)
    ensures
        spec_splits(s) matches Some(v) ==> splits_ok(v) && spec_splits(splits_text(v)) == Some(v),
{
    if let Some(v) = spec_splits(s) {
        let (_, i) = spec_sections(s, 0)->0;
        lemma_section_read_ok(s, 10);
        if let Some((sec, j)) = spec_section(s, 10) {
            lemma_section_progress(s, 10);
            lemma_more_sections_read_ok(s, j);
            let rest = spec_more_sections(s, j).0;
            assert forall|k: int| 0 <= k < (seq![sec] + rest).len() implies section_ok(
                #[trigger] (seq![sec] + rest)[k],
            ) by {
                if k > 0 {
                    assert((seq![sec] + rest)[k] == rest[k - 1]);
                }
            }
        }
        let w = scan(s, i, CharClass::Whitespace);
        if 0 <= i <= s.len() {
            lemma_scan(s, i, CharClass::Whitespace);
        }
        lemma_file_read_ok(s, w);
        if let Some((f, j)) = spec_file(s, w) {
            lemma_more_files_read_ok(s, j);
            let rest = spec_more_files(s, j).0;
            assert forall|k: int| 0 <= k < (seq![f] + rest).len() implies file_ok(
                #[trigger] (seq![f] + rest)[k],
            ) by {
                if k > 0 {
                    assert((seq![f] + rest)[k] == rest[k - 1]);
                }
            }
        }
        law_splits_layout_roundtrip(v);
    }
}

/// `k` spaces.
pub open spec fn spaces(k: nat) -> Seq<char> {
    Seq::new(k, |_j: int| ' ')
}

/// A section line as a reader takes it: a tab, the name, one or more
/// spaces, `type:` and the type, one space, `align:` and the alignment text.
pub open spec fn section_form(name: Seq<char>, gap: nat, kind: Seq<char>, x: Seq<char>) -> Seq<char> {
    seq!['\t'] + name + spaces(gap) + type_key() + kind + seq![' '] + align_key() + x
}

/// A split line as a reader takes it: a tab, the section name, one or more
/// spaces, `start:` and the start text, one space, `end:` and the end text.
pub open spec fn split_form(section: Seq<char>, gap: nat, x: Seq<char>, y: Seq<char>) -> Seq<char> {
    seq!['\t'] + section + spaces(gap) + start_key() + x + seq![' '] + end_key() + y
}

/// Where the parts of a section line stand in it.
proof fn lemma_section_form_parts(name: Seq<char>, gap: nat, kind: Seq<char>, x: Seq<char>)
    ensures
        ({
            let s = section_form(name, gap, kind, x);
            let n1: int = 1 + name.len() as int;
            let w: int = n1 + gap;
            let t1: int = w + 5 + kind.len();
            &&& s.len() == t1 + 7 + x.len()
            &&& s[0] == '\t'
            &&& has_at(s, 1, name)
            &&& has_at(s, n1, spaces(gap))
            &&& has_at(s, w, type_key())
            &&& has_at(s, w + 5, kind)
            &&& s[t1] == ' '
            &&& has_at(s, t1 + 1, align_key())
            &&& has_at(s, t1 + 7, x)
        }),
{
    let s = section_form(name, gap, kind, x);
    let l1 = seq!['\t'] + name;
    let l2 = l1 + spaces(gap);
    let l3 = l2 + type_key();
    let l4 = l3 + kind;
    let l5 = l4 + seq![' '];
    let l6 = l5 + align_key();
    assert(has_at(s, 0, s)) by {
        assert(s.subrange(0, s.len() as int) =~= s);
    }
    lemma_has_at_concat(s, 0, l6, x);
    lemma_has_at_concat(s, 0, l5, align_key());
    lemma_has_at_concat(s, 0, l4, seq![' ']);
    lemma_has_at_concat(s, 0, l3, kind);
    lemma_has_at_concat(s, 0, l2, type_key());
    lemma_has_at_concat(s, 0, l1, spaces(gap));
    lemma_has_at_concat(s, 0, seq!['\t'], name);
    lemma_has_at_char(s, 0, '\t');
    lemma_has_at_char(s, l4.len() as int, ' ');
}

/// A section line read on its own: with a name, a type and an alignment text
/// that are fields and at least one space after the name, it is the section
/// with that name, that type and the alignment that the text reads as, and
/// it is refused when the text is not a number.
pub proof fn law_section_line_read(name: Seq<char>, gap: nat, kind: Seq<char>, x: Seq<char>)
    requires
        is_field(name),
        gap >= 1,
        is_field(kind),
        is_field(x),
    ensures
        spec_section(section_form(name, gap, kind, x), 0) == match spec_parse_dec_or_hex(x) {
            Ok(a) => Some(
                (
                    SectionSpec { name, kind, align: a },
                    section_form(name, gap, kind, x).len() as int,
                ),
            ),
            Err(_) => None,
        },
{
    let s = section_form(name, gap, kind, x);
    let n1: int = 1 + name.len() as int;
    let w: int = n1 + gap;
    let t1: int = w + 5 + kind.len();
    lemma_section_form_parts(name, gap, kind, x);
    lemma_has_at_index(s, n1, spaces(gap), 0);
    lemma_has_at_index(s, w, type_key(), 0);
    assert(s[w] == 't');
    assert forall|k: int| 0 <= k < spaces(gap).len() implies in_class(CharClass::Space, #[trigger] spaces(gap)[k]) by {}
    lemma_scan_word(s, 1, name, CharClass::NotAsciiWhitespace);
    lemma_scan_word(s, n1, spaces(gap), CharClass::Space);
    lemma_scan_word(s, w + 5, kind, CharClass::NotAsciiWhitespace);
    lemma_scan_word(s, t1 + 7, x, CharClass::NotAsciiWhitespace);
    assert(s.subrange(1, n1) == name);
    assert(s.subrange(w + 5, t1) == kind);
    assert(s.subrange(t1 + 7, s.len() as int) == x);
}

/// A section line read on its own as a whole has that shape: its name and
/// type are fields, and its alignment is what a field after ` align:` reads
/// as.
pub proof fn law_section_line_shape(s: Seq<char>)
    requires
        spec_section(s, 0) matches Some((_, e)) && e == s.len(),
    ensures
        spec_section(s, 0) matches Some((sec, _)) ==> exists|gap: nat, x: Seq<char>|
            {
                &&& gap >= 1
                &&& is_field(sec.name)
                &&& is_field(sec.kind)
                &&& is_field(x)
                &&& s == section_form(sec.name, gap, sec.kind, x)
                &&& spec_parse_dec_or_hex(x) == Ok::<u32, NumberError>(sec.align)
            },
{
    let (sec, _) = spec_section(s, 0)->0;
    let n1 = scan(s, 1, CharClass::NotAsciiWhitespace);
    let w = scan(s, n1, CharClass::Space);
    let t1 = scan(s, w + 5, CharClass::NotAsciiWhitespace);
    let a1 = scan(s, t1 + 7, CharClass::NotAsciiWhitespace);
    lemma_run(s, 1, CharClass::NotAsciiWhitespace);
    lemma_run(s, n1, CharClass::Space);
    lemma_run(s, w + 5, CharClass::NotAsciiWhitespace);
    lemma_run(s, t1 + 7, CharClass::NotAsciiWhitespace);
    let gap = (w - n1) as nat;
    let x = s.subrange(t1 + 7, a1);
    assert(s.subrange(n1, w) =~= spaces(gap));
    assert(s.subrange(w, w + 5) =~= type_key());
    assert(s.subrange(t1 + 1, t1 + 7) =~= align_key());
    assert(s =~= section_form(sec.name, gap, sec.kind, x));
}

/// Where the parts of a split line stand in it.
proof fn lemma_split_form_parts(section: Seq<char>, gap: nat, x: Seq<char>, y: Seq<char>)
    ensures
        ({
            let s = split_form(section, gap, x, y);
            let n1: int = 1 + section.len() as int;
            let w: int = n1 + gap;
            let b1: int = w + 6 + x.len();
            &&& s.len() == b1 + 5 + y.len()
            &&& s[0] == '\t'
            &&& has_at(s, 1, section)
            &&& has_at(s, n1, spaces(gap))
            &&& has_at(s, w, start_key())
            &&& has_at(s, w + 6, x)
            &&& s[b1] == ' '
            &&& has_at(s, b1 + 1, end_key())
            &&& has_at(s, b1 + 5, y)
        }),
{
    let s = split_form(section, gap, x, y);
    let l1 = seq!['\t'] + section;
    let l2 = l1 + spaces(gap);
    let l3 = l2 + start_key();
    let l4 = l3 + x;
    let l5 = l4 + seq![' '];
    let l6 = l5 + end_key();
    assert(has_at(s, 0, s)) by {
        assert(s.subrange(0, s.len() as int) =~= s);
    }
    lemma_has_at_concat(s, 0, l6, y);
    lemma_has_at_concat(s, 0, l5, end_key());
    lemma_has_at_concat(s, 0, l4, seq![' ']);
    lemma_has_at_concat(s, 0, l3, x);
    lemma_has_at_concat(s, 0, l2, start_key());
    lemma_has_at_concat(s, 0, l1, spaces(gap));
    lemma_has_at_concat(s, 0, seq!['\t'], section);
    lemma_has_at_char(s, 0, '\t');
    lemma_has_at_char(s, l4.len() as int, ' ');
}

/// How a reader scans the parts of a split line.
#[verifier::rlimit(40)]
proof fn lemma_split_form_scans(section: Seq<char>, gap: nat, x: Seq<char>, y: Seq<char>)
    requires
        is_field(section),
        gap >= 1,
        is_field(x),
        is_field(y),
    ensures
        ({
            let s = split_form(section, gap, x, y);
            let n1: int = 1 + section.len() as int;
            let w: int = n1 + gap;
            let b1: int = w + 6 + x.len();
            &&& s[0] == '\t'
            &&& scan(s, 1, CharClass::NotAsciiWhitespace) == n1
            &&& scan(s, n1, CharClass::Space) == w
            &&& has_at(s, w, start_key())
            &&& scan(s, w + 6, CharClass::NotAsciiWhitespace) == b1
            &&& b1 < s.len() && s[b1] == ' '
            &&& has_at(s, b1 + 1, end_key())
            &&& scan(s, b1 + 5, CharClass::NotAsciiWhitespace) == s.len()
            &&& s.subrange(1, n1) == section
            &&& s.subrange(w + 6, b1) == x
            &&& s.subrange(b1 + 5, s.len() as int) == y
        }),
{
    let s = split_form(section, gap, x, y);
    let n1: int = 1 + section.len() as int;
    let w: int = n1 + gap;
    let b1: int = w + 6 + x.len();
    lemma_split_form_parts(section, gap, x, y);
    lemma_has_at_index(s, n1, spaces(gap), 0);
    lemma_has_at_index(s, w, start_key(), 0);
    assert forall|k: int| 0 <= k < spaces(gap).len() implies in_class(CharClass::Space, #[trigger] spaces(gap)[k]) by {}
    lemma_scan_word(s, 1, section, CharClass::NotAsciiWhitespace);
    lemma_scan_word(s, n1, spaces(gap), CharClass::Space);
    lemma_scan_word(s, w + 6, x, CharClass::NotAsciiWhitespace);
    lemma_scan_word(s, b1 + 5, y, CharClass::NotAsciiWhitespace);
}

/// A split line read on its own: with a section name, a start text and an
/// end text that are fields and at least one space after the name, it is
/// the range of that section from the number that the start text reads as
/// to the one that the end text reads as, and it is refused when either text
/// is not a number.
pub proof fn law_split_line_read(section: Seq<char>, gap: nat, x: Seq<char>, y: Seq<char>)
    requires
        is_field(section),
        gap >= 1,
        is_field(x),
        is_field(y),
    ensures
        spec_split(split_form(section, gap, x, y), 0) == match (
            spec_parse_dec_or_hex(x),
            spec_parse_dec_or_hex(y),
        ) {
            (Ok(a), Ok(b)) => Some(
                (SplitSpec { section, start: a, end: b }, split_form(section, gap, x, y).len() as int),
            ),
            _ => None,
        },
{
    lemma_split_form_scans(section, gap, x, y);
}

/// A split line read on its own as a whole has that shape: its section name
/// is a field, and its start and end are what fields after ` start:` and
/// ` end:` read as.
pub proof fn law_split_line_shape(s: Seq<char>)
    requires
        spec_split(s, 0) matches Some((_, e)) && e == s.len(),
    ensures
        spec_split(s, 0) matches Some((sp, _)) ==> exists|gap: nat, x: Seq<char>, y: Seq<char>|
            {
                &&& gap >= 1
                &&& is_field(sp.section)
                &&& is_field(x)
                &&& is_field(y)
                &&& s == split_form(sp.section, gap, x, y)
                &&& spec_parse_dec_or_hex(x) == Ok::<u32, NumberError>(sp.start)
                &&& spec_parse_dec_or_hex(y) == Ok::<u32, NumberError>(sp.end)
            },
{
    let (sp, _) = spec_split(s, 0)->0;
    let n1 = scan(s, 1, CharClass::NotAsciiWhitespace);
    let w = scan(s, n1, CharClass::Space);
    let b1 = scan(s, w + 6, CharClass::NotAsciiWhitespace);
    let e1 = scan(s, b1 + 5, CharClass::NotAsciiWhitespace);
    lemma_run(s, 1, CharClass::NotAsciiWhitespace);
    lemma_run(s, n1, CharClass::Space);
    lemma_run(s, w + 6, CharClass::NotAsciiWhitespace);
    lemma_run(s, b1 + 5, CharClass::NotAsciiWhitespace);
    let gap = (w - n1) as nat;
    let x = s.subrange(w + 6, b1);
    let y = s.subrange(b1 + 5, e1);
    assert(s.subrange(n1, w) =~= spaces(gap));
    assert(s.subrange(w, w + 6) =~= start_key());
    assert(s.subrange(b1 + 1, b1 + 5) =~= end_key());
    assert(s =~= split_form(sp.section, gap, x, y));
}

/// A run that `scan` finds inside a piece of text that stands at `i` of `s`
/// is found at the same place in `s`, as long as it ends inside the piece or
/// the piece is followed by a character that ends the run.
proof fn lemma_scan_local(s: Seq<char>, i: int, l: Seq<char>, j: int, class: CharClass)
    requires
        has_at(s, i, l),
        0 <= j <= l.len(),
        scan(l, j, class) == l.len() && i + l.len() < s.len() ==> !in_class(class, s[i + l.len()]),
    ensures
        scan(s, i + j, class) == i + scan(l, j, class),
    decreases l.len() - j,
{
    if j < l.len() {
        lemma_has_at_index(s, i, l, j);
        if in_class(class, l[j]) {
            lemma_scan_local(s, i, l, j + 1, class);
        }
    }
}

/// `w` stands at `a` of a piece that stands at `i` of `s` exactly when it
/// stands at `i + a` of `s`, as long as it fits in the piece.
proof fn lemma_has_at_local(s: Seq<char>, i: int, l: Seq<char>, a: int, w: Seq<char>)
    requires
        has_at(s, i, l),
        0 <= a,
        a + w.len() <= l.len(),
    ensures
        has_at(l, a, w) == has_at(s, i + a, w),
        l.subrange(a, a + w.len()) == s.subrange(i + a, i + a + w.len()),
{
    assert(l.subrange(a, a + w.len()) =~= s.subrange(i + a, i + a + w.len())) by {
        assert forall|k: int| 0 <= k < w.len() implies #[trigger] l.subrange(a, a + w.len())[k]
            == s.subrange(i + a, i + a + w.len())[k] by {
            lemma_has_at_index(s, i, l, a + k);
        }
    }
}

/// The range that a split line reads as on its own is what it reads as
/// inside a text, where it is followed by a line feed or the end.
proof fn lemma_split_local(s: Seq<char>, i: int, l: Seq<char>)
    requires
        0 <= i,
        has_at(s, i, l),
        spec_split(l, 0) matches Some((_, e)) && e == l.len(),
        i + l.len() < s.len() ==> s[i + l.len()] == '\n',
    ensures
        spec_split(s, i) == (match spec_split(l, 0) {
            Some((sp, _)) => Some((sp, i + l.len())),
            None => None,
        }),
{
    let n1 = scan(l, 1, CharClass::NotAsciiWhitespace);
    let w = scan(l, n1, CharClass::Space);
    let b1 = scan(l, w + 6, CharClass::NotAsciiWhitespace);
    let e1 = scan(l, b1 + 5, CharClass::NotAsciiWhitespace);
    lemma_scan_bounds(l, 1, CharClass::NotAsciiWhitespace);
    lemma_scan_bounds(l, n1, CharClass::Space);
    lemma_scan_bounds(l, w + 6, CharClass::NotAsciiWhitespace);
    lemma_has_at_index(s, i, l, 0);
    lemma_scan_local(s, i, l, 1, CharClass::NotAsciiWhitespace);
    lemma_scan_local(s, i, l, n1, CharClass::Space);
    lemma_has_at_local(s, i, l, w, start_key());
    lemma_scan_local(s, i, l, w + 6, CharClass::NotAsciiWhitespace);
    lemma_has_at_index(s, i, l, b1);
    lemma_has_at_local(s, i, l, b1 + 1, end_key());
    lemma_scan_local(s, i, l, b1 + 5, CharClass::NotAsciiWhitespace);
    lemma_has_at_local(s, i, l, 1, l.subrange(1, n1));
    lemma_has_at_local(s, i, l, w + 6, l.subrange(w + 6, b1));
    lemma_has_at_local(s, i, l, b1 + 5, l.subrange(b1 + 5, e1));
    assert(l.subrange(1, n1).len() == n1 - 1);
    assert(l.subrange(1, 1 + (n1 - 1)) == l.subrange(1, n1));
}

/// Each line after a line feed.
pub open spec fn more_lines(ls: Seq<Seq<char>>) -> Seq<char>
    decreases ls.len(),
{
    if ls.len() == 0 {
        seq![]
    } else {
        seq!['\n'] + ls[0] + more_lines(ls.drop_first())
    }
}

/// The lines joined by line feeds.
pub open spec fn joined_lines(ls: Seq<Seq<char>>) -> Seq<char> {
    if ls.len() == 0 {
        seq![]
    } else {
        ls[0] + more_lines(ls.drop_first())
    }
}

/// A file block as a reader takes it: the path, `:` and a line feed, then
/// the split lines joined by line feeds.
pub open spec fn file_form(path: Seq<char>, ls: Seq<Seq<char>>) -> Seq<char> {
    path + path_end() + joined_lines(ls)
}

/// `l` is read on its own as a whole split line.
pub open spec fn is_split_line(l: Seq<char>) -> bool {
    spec_split(l, 0) matches Some((_, e)) && e == l.len()
}

/// The range that a split line reads as on its own.
pub open spec fn split_of(l: Seq<char>) -> SplitSpec {
    match spec_split(l, 0) {
        Some((sp, _)) => sp,
        None => SplitSpec { section: seq![], start: 0, end: 0 },
    }
}

proof fn lemma_read_more_lines(s: Seq<char>, i: int, ls: Seq<Seq<char>>)
    requires
        0 <= i,
        forall|k: int| 0 <= k < ls.len() ==> is_split_line(#[trigger] ls[k]),
        has_at(s, i, more_lines(ls)),
        i + more_lines(ls).len() == s.len(),
    ensures
        spec_more_splits(s, i) == (ls.map_values(|l: Seq<char>| split_of(l)), s.len() as int),
    decreases ls.len(),
{
    if ls.len() == 0 {
        assert(ls.map_values(|l: Seq<char>| split_of(l)) =~= Seq::<SplitSpec>::empty());
    } else {
        let rest = ls.drop_first();
        let l = ls[0];
        let j = i + 1 + l.len();
        lemma_has_at_concat(s, i, seq!['\n'] + l, more_lines(rest));
        lemma_has_at_concat(s, i, seq!['\n'], l);
        lemma_has_at_char(s, i, '\n');
        if rest.len() > 0 {
            lemma_has_at_index(s, j, more_lines(rest), 0);
        }
        assert(is_split_line(l));
        lemma_split_local(s, i + 1, l);
        assert forall|k: int| 0 <= k < rest.len() implies is_split_line(#[trigger] rest[k]) by {
            assert(rest[k] == ls[k + 1]);
        }
        lemma_read_more_lines(s, j, rest);
        assert(seq![split_of(l)] + rest.map_values(|l: Seq<char>| split_of(l)) =~= ls.map_values(
            |l: Seq<char>| split_of(l),
        ));
    }
}

proof fn lemma_read_joined_lines(s: Seq<char>, i: int, ls: Seq<Seq<char>>)
    requires
        0 <= i,
        forall|k: int| 0 <= k < ls.len() ==> is_split_line(#[trigger] ls[k]),
        has_at(s, i, joined_lines(ls)),
        i + joined_lines(ls).len() == s.len(),
    ensures
        spec_split_list(s, i) == (ls.map_values(|l: Seq<char>| split_of(l)), s.len() as int),
{
    if ls.len() == 0 {
        assert(ls.map_values(|l: Seq<char>| split_of(l)) =~= Seq::<SplitSpec>::empty());
    } else {
        let l = ls[0];
        let rest = ls.drop_first();
        lemma_has_at_concat(s, i, l, more_lines(rest));
        if rest.len() > 0 {
            lemma_has_at_index(s, i + l.len(), more_lines(rest), 0);
        }
        lemma_split_local(s, i, l);
        assert forall|k: int| 0 <= k < rest.len() implies is_split_line(#[trigger] rest[k]) by {
            assert(rest[k] == ls[k + 1]);
        }
        lemma_read_more_lines(s, i + l.len(), rest);
        assert(seq![split_of(l)] + rest.map_values(|l: Seq<char>| split_of(l)) =~= ls.map_values(
            |l: Seq<char>| split_of(l),
        ));
    }
}

proof fn lemma_file_form_head(path: Seq<char>, ls: Seq<Seq<char>>)
    requires
        path.len() > 0,
        forall|k: int| 0 <= k < path.len() ==> is_path_char(#[trigger] path[k]),
    ensures
        ({
            let s = file_form(path, ls);
            &&& scan(s, 0, CharClass::PathChar) == path.len()
            &&& has_at(s, path.len() as int, path_end())
            &&& s.subrange(0, path.len() as int) == path
            &&& has_at(s, path.len() as int + 2, joined_lines(ls))
            &&& s.len() == path.len() + 2 + joined_lines(ls).len()
        }),
{
    let s = file_form(path, ls);
    let p1 = path.len() as int;
    assert(has_at(s, 0, s)) by {
        assert(s.subrange(0, s.len() as int) =~= s);
    }
    lemma_has_at_concat(s, 0, path + path_end(), joined_lines(ls));
    lemma_has_at_concat(s, 0, path, path_end());
    lemma_has_at_index(s, p1, path_end(), 0);
    lemma_scan_word(s, 0, path, CharClass::PathChar);
}

/// A file block read on its own: a path without `:` and ASCII whitespace,
/// `:` and a line feed, and lines each of which is read on its own as a
/// whole split line, joined by line feeds, is the file with that path and,
/// in order, the ranges that its lines read as.
pub proof fn law_file_read(path: Seq<char>, ls: Seq<Seq<char>>)
    requires
        path.len() > 0,
        forall|k: int| 0 <= k < path.len() ==> is_path_char(#[trigger] path[k]),
        forall|k: int| 0 <= k < ls.len() ==> is_split_line(#[trigger] ls[k]),
    ensures
        spec_file(file_form(path, ls), 0) == Some(
            (
                FileSpec { path, splits: ls.map_values(|l: Seq<char>| split_of(l)) },
                file_form(path, ls).len() as int,
            ),
        ),
{
    lemma_file_form_head(path, ls);
    lemma_read_joined_lines(file_form(path, ls), path.len() as int + 2, ls);
}

/// A split line read inside a text, where it is followed by a line feed or
/// the end, is read the same on its own.
proof fn lemma_split_unlocal(s: Seq<char>, i: int)
    requires
        0 <= i,
        spec_split(s, i) matches Some((_, e)) && (e < s.len() ==> s[e] == '\n'),
    ensures
        spec_split(s, i) matches Some((sp, e)) && is_split_line(s.subrange(i, e)) && split_of(
            s.subrange(i, e),
        ) == sp,
{
    let (sp, e) = spec_split(s, i)->0;
    let l = s.subrange(i, e);
    lemma_split_progress(s, i);
    assert(has_at(s, i, l));
    let n1 = scan(s, i + 1, CharClass::NotAsciiWhitespace);
    let w = scan(s, n1, CharClass::Space);
    let b1 = scan(s, w + 6, CharClass::NotAsciiWhitespace);
    lemma_scan_bounds(s, i + 1, CharClass::NotAsciiWhitespace);
    lemma_scan_bounds(s, n1, CharClass::Space);
    lemma_scan_bounds(s, w + 6, CharClass::NotAsciiWhitespace);
    lemma_scan_bounds(s, b1 + 5, CharClass::NotAsciiWhitespace);
    lemma_scan_local(s, i, l, 1, CharClass::NotAsciiWhitespace);
    lemma_scan_local(s, i, l, n1 - i, CharClass::Space);
    lemma_has_at_local(s, i, l, w - i, start_key());
    lemma_scan_local(s, i, l, w - i + 6, CharClass::NotAsciiWhitespace);
    lemma_has_at_local(s, i, l, b1 - i + 1, end_key());
    lemma_scan_local(s, i, l, b1 - i + 5, CharClass::NotAsciiWhitespace);
    assert(l[0] == s[i]);
    assert(l[b1 - i] == s[b1]);
    assert(l.subrange(1, n1 - i) =~= s.subrange(i + 1, n1));
    assert(l.subrange(w - i + 6, b1 - i) =~= s.subrange(w + 6, b1));
    assert(l.subrange(b1 - i + 5, e - i) =~= s.subrange(b1 + 5, e));
}

/// The split lines that follow at `i`, each after a line feed, when they
/// take up the rest of the text: the lines that they are, each read on its
/// own as a whole split line.
proof fn lemma_more_splits_lines(s: Seq<char>, i: int) -> (ls: Seq<Seq<char>>)
    requires
        0 <= i <= s.len(),
        spec_more_splits(s, i).1 == s.len(),
    ensures
        forall|k: int| 0 <= k < ls.len() ==> is_split_line(#[trigger] ls[k]),
        has_at(s, i, more_lines(ls)),
        i + more_lines(ls).len() == s.len(),
        ls.map_values(|l: Seq<char>| split_of(l)) == spec_more_splits(s, i).0,
    decreases s.len() - i,
{
    if 0 <= i < s.len() && s[i] == '\n' && spec_split(s, i + 1) is Some {
        let (sp, j) = spec_split(s, i + 1)->0;
        lemma_split_progress(s, i + 1);
        assert(spec_more_splits(s, j).1 == s.len());
        if j < s.len() {
            if s[j] != '\n' {
                assert(spec_more_splits(s, j).1 == j);
            }
            assert(s[j] == '\n');
        }
        lemma_split_unlocal(s, i + 1);
        let l = s.subrange(i + 1, j);
        let rest = lemma_more_splits_lines(s, j);
        let ls = seq![l] + rest;
        assert(ls.drop_first() =~= rest);
        assert forall|k: int| 0 <= k < ls.len() implies is_split_line(#[trigger] ls[k]) by {
            if k > 0 {
                assert(ls[k] == rest[k - 1]);
            }
        }
        assert(more_lines(ls) == seq!['\n'] + l + more_lines(rest));
        assert(s.subrange(i, s.len() as int) =~= more_lines(ls));
        assert(ls.map_values(|l: Seq<char>| split_of(l)) =~= seq![sp] + rest.map_values(
            |l: Seq<char>| split_of(l),
        ));
        ls
    } else {
        let ls = Seq::<Seq<char>>::empty();
        assert(ls.map_values(|l: Seq<char>| split_of(l)) =~= Seq::<SplitSpec>::empty());
        assert(s.subrange(i, i) =~= more_lines(ls));
        ls
    }
}

/// A file block read on its own as a whole has that shape: a path without
/// `:` and ASCII whitespace, `:` and a line feed, then lines joined by line
/// feeds, each read on its own as a whole split line, and the file's ranges
/// are what they read as, in order.
#[verifier::rlimit(50)]
#[verifier::spinoff_prover]
pub proof fn law_file_shape(s: Seq<char>)
    requires
        spec_file(s, 0) matches Some((_, e)) && e == s.len(),
    ensures
        spec_file(s, 0) matches Some((f, _)) ==> exists|ls: Seq<Seq<char>>|
            {
                &&& f.path.len() > 0
                &&& forall|k: int| 0 <= k < f.path.len() ==> is_path_char(#[trigger] f.path[k])
                &&& forall|k: int| 0 <= k < ls.len() ==> is_split_line(#[trigger] ls[k])
                &&& s == file_form(f.path, ls)
                &&& f.splits == ls.map_values(|l: Seq<char>| split_of(l))
            },
{
    let (f, _) = spec_file(s, 0)->0;
    let p1 = scan(s, 0, CharClass::PathChar);
    lemma_run(s, 0, CharClass::PathChar);
    let q = p1 + 2;
    let ls = if spec_split(s, q) is Some {
        let (sp, j) = spec_split(s, q)->0;
        lemma_split_progress(s, q);
        lemma_more_splits_ge(s, j);
        if j < s.len() {
            assert(s[j] == '\n');
        }
        lemma_split_unlocal(s, q);
        let l = s.subrange(q, j);
        let rest = lemma_more_splits_lines(s, j);
        let ls = seq![l] + rest;
        assert(ls.drop_first() =~= rest);
        assert forall|k: int| 0 <= k < ls.len() implies is_split_line(#[trigger] ls[k]) by {
            if k > 0 {
                assert(ls[k] == rest[k - 1]);
            }
        }
        assert(s.subrange(q, s.len() as int) =~= joined_lines(ls));
        assert(ls.map_values(|l: Seq<char>| split_of(l)) =~= seq![sp] + rest.map_values(
            |l: Seq<char>| split_of(l),
        ));
        ls
    } else {
        let ls = Seq::<Seq<char>>::empty();
        assert(ls.map_values(|l: Seq<char>| split_of(l)) =~= Seq::<SplitSpec>::empty());
        ls
    };
    assert(s.subrange(p1, q) =~= path_end());
    assert(s =~= file_form(f.path, ls));
}

} // verus!
