use vstd::prelude::*;

use crate::splits::{File, FileSpec, Section, SectionSpec, Split, SplitSpec, Splits, SplitsSpec};
use crate::util::parser::{
    has_at, lemma_scan, lemma_scan_ge, literal_at, scan, take_until_space1, take_while,
    take_while1, CharClass,
};
use crate::util::parsing::{
    failure_within, kept, kept_further, parse_dec_or_hex_chars, Failure, unexpected_at, spec_parse_dec_or_hex, within, ParseError,
    NumberError, ParseErrorReason,
};
use crate::util::text::Text;

verus! {

/// The line that opens the list of sections.
pub open spec fn sections_header() -> Seq<char> {
    seq!['S', 'e', 'c', 't', 'i', 'o', 'n', 's', ':', '\n']
}

/// The key of the type of a section.
pub open spec fn type_key() -> Seq<char> {
    seq!['t', 'y', 'p', 'e', ':']
}

/// The key of the alignment of a section.
pub open spec fn align_key() -> Seq<char> {
    seq!['a', 'l', 'i', 'g', 'n', ':']
}

/// The key of the first address of a range.
pub open spec fn start_key() -> Seq<char> {
    seq!['s', 't', 'a', 'r', 't', ':']
}

/// The key of the address just past a range.
pub open spec fn end_key() -> Seq<char> {
    seq!['e', 'n', 'd', ':']
}

/// What ends the line that names a file.
pub open spec fn path_end() -> Seq<char> {
    seq![':', '\n']
}

/// A section line at `i`: a tab, the name (a run without ASCII whitespace),
/// one or more spaces, `type:` and the type, one space, `align:` and the
/// alignment as a number. The line ends where the alignment does.
pub open spec fn spec_section(s: Seq<char>, i: int) -> Option<(SectionSpec, int)> {
    let n1 = scan(s, i + 1, CharClass::NotAsciiWhitespace);
    let w = scan(s, n1, CharClass::Space);
    let t1 = scan(s, w + 5, CharClass::NotAsciiWhitespace);
    let a1 = scan(s, t1 + 7, CharClass::NotAsciiWhitespace);
    if 0 <= i < s.len() && s[i] == '\t' && n1 > i + 1 && w > n1 && has_at(s, w, type_key()) && t1
        > w + 5 && t1 < s.len() && s[t1] == ' ' && has_at(s, t1 + 1, align_key()) && a1 > t1 + 7 {
        match spec_parse_dec_or_hex(s.subrange(t1 + 7, a1)) {
            Ok(align) => Some(
                (
                    SectionSpec {
                        name: s.subrange(i + 1, n1),
                        kind: s.subrange(w + 5, t1),
                        align,
                    },
                    a1,
                ),
            ),
            Err(_) => None,
        }
    } else {
        None
    }
}

/// A split line at `i`: a tab, the section name, one or more spaces, `start:`
/// and a number, one space, `end:` and a number.
pub open spec fn spec_split(s: Seq<char>, i: int) -> Option<(SplitSpec, int)> {
    let n1 = scan(s, i + 1, CharClass::NotAsciiWhitespace);
    let w = scan(s, n1, CharClass::Space);
    let b1 = scan(s, w + 6, CharClass::NotAsciiWhitespace);
    let e1 = scan(s, b1 + 5, CharClass::NotAsciiWhitespace);
    if 0 <= i < s.len() && s[i] == '\t' && n1 > i + 1 && w > n1 && has_at(s, w, start_key()) && b1
        > w + 6 && b1 < s.len() && s[b1] == ' ' && has_at(s, b1 + 1, end_key()) && e1 > b1 + 5 {
        match (
            spec_parse_dec_or_hex(s.subrange(w + 6, b1)),
            spec_parse_dec_or_hex(s.subrange(b1 + 5, e1)),
        ) {
            (Ok(start), Ok(end)) => Some(
                (SplitSpec { section: s.subrange(i + 1, n1), start, end }, e1),
            ),
            _ => None,
        }
    } else {
        None
    }
}

/// A section line that is read takes at least one character.
pub proof fn lemma_section_progress(s: Seq<char>, i: int)
    ensures
        spec_section(s, i) matches Some((_, j)) ==> i < j <= s.len(),
{
    if let Some((_, j)) = spec_section(s, i) {
        let n1 = scan(s, i + 1, CharClass::NotAsciiWhitespace);
        let w = scan(s, n1, CharClass::Space);
        let t1 = scan(s, w + 5, CharClass::NotAsciiWhitespace);
        lemma_scan(s, t1 + 7, CharClass::NotAsciiWhitespace);
    }
}

/// A range line that is read takes at least one character.
pub proof fn lemma_split_progress(s: Seq<char>, i: int)
    ensures
        spec_split(s, i) matches Some((_, j)) ==> i < j <= s.len(),
{
    if let Some((_, j)) = spec_split(s, i) {
        let n1 = scan(s, i + 1, CharClass::NotAsciiWhitespace);
        let w = scan(s, n1, CharClass::Space);
        let b1 = scan(s, w + 6, CharClass::NotAsciiWhitespace);
        lemma_scan(s, b1 + 5, CharClass::NotAsciiWhitespace);
    }
}

/// The sections that follow at `i`, each after a line feed, as many as can be
/// read; and where the last one ends.
pub open spec fn spec_more_sections(s: Seq<char>, i: int) -> (Seq<SectionSpec>, int)
    decreases s.len() - i,
{
    if 0 <= i < s.len() && s[i] == '\n' {
        match spec_section(s, i + 1) {
            Some((sec, j)) => {
                proof {
                    lemma_section_progress(s, i + 1);
                }
                let (rest, e) = spec_more_sections(s, j);
                (seq![sec] + rest, e)
            },
            None => (seq![], i),
        }
    } else {
        (seq![], i)
    }
}

/// Section lines separated by line feeds, possibly none.
pub open spec fn spec_section_list(s: Seq<char>, i: int) -> (Seq<SectionSpec>, int) {
    match spec_section(s, i) {
        Some((sec, j)) => {
            let (rest, e) = spec_more_sections(s, j);
            (seq![sec] + rest, e)
        },
        None => (seq![], i),
    }
}

/// `Sections:` on a line of its own, then the section lines.
pub open spec fn spec_sections(s: Seq<char>, i: int) -> Option<(Seq<SectionSpec>, int)> {
    if has_at(s, i, sections_header()) {
        Some(spec_section_list(s, i + 10))
    } else {
        None
    }
}

/// The splits that follow at `i`, each after a line feed.
pub open spec fn spec_more_splits(s: Seq<char>, i: int) -> (Seq<SplitSpec>, int)
    decreases s.len() - i,
{
    if 0 <= i < s.len() && s[i] == '\n' {
        match spec_split(s, i + 1) {
            Some((sp, j)) => {
                proof {
                    lemma_split_progress(s, i + 1);
                }
                let (rest, e) = spec_more_splits(s, j);
                (seq![sp] + rest, e)
            },
            None => (seq![], i),
        }
    } else {
        (seq![], i)
    }
}

/// Split lines separated by line feeds, possibly none.
pub open spec fn spec_split_list(s: Seq<char>, i: int) -> (Seq<SplitSpec>, int) {
    match spec_split(s, i) {
        Some((sp, j)) => {
            let (rest, e) = spec_more_splits(s, j);
            (seq![sp] + rest, e)
        },
        None => (seq![], i),
    }
}

/// A file at `i`: its path (a run without `:` and ASCII whitespace), `:` and a
/// line feed, then its split lines.
pub open spec fn spec_file(s: Seq<char>, i: int) -> Option<(FileSpec, int)> {
    let p1 = scan(s, i, CharClass::PathChar);
    if 0 <= i && p1 > i && has_at(s, p1, path_end()) {
        let (splits, e) = spec_split_list(s, p1 + 2);
        Some((FileSpec { path: s.subrange(i, p1), splits }, e))
    } else {
        None
    }
}

/// Reading further ranges stays within the text.
pub proof fn lemma_more_splits_ge(s: Seq<char>, i: int)
    ensures
        spec_more_splits(s, i).1 >= i,
        0 <= i <= s.len() ==> spec_more_splits(s, i).1 <= s.len(),
    decreases s.len() - i,
{
    if 0 <= i < s.len() && s[i] == '\n' {
        if let Some((sp, j)) = spec_split(s, i + 1) {
            lemma_split_progress(s, i + 1);
            lemma_more_splits_ge(s, j);
        }
    }
}

/// A file that is read takes at least one character.
pub proof fn lemma_file_progress(s: Seq<char>, i: int)
    ensures
        spec_file(s, i) matches Some((_, j)) ==> i < j <= s.len(),
{
    let p1 = scan(s, i, CharClass::PathChar);
    lemma_more_splits_ge(s, p1 + 2);
    if let Some((sp, j)) = spec_split(s, p1 + 2) {
        lemma_split_progress(s, p1 + 2);
        lemma_more_splits_ge(s, j);
    }
}

/// The files that follow at `i`, each after any amount of whitespace.
pub open spec fn spec_more_files(s: Seq<char>, i: int) -> (Seq<FileSpec>, int)
    decreases s.len() - i,
{
    let w = scan(s, i, CharClass::Whitespace);
    match spec_file(s, w) {
        Some((f, j)) => {
            proof {
                lemma_scan_ge(s, i, CharClass::Whitespace);
                lemma_file_progress(s, w);
            }
            let (rest, e) = spec_more_files(s, j);
            (seq![f] + rest, e)
        },
        None => (seq![], i),
    }
}

/// Files separated by whitespace, possibly none.
pub open spec fn spec_file_list(s: Seq<char>, i: int) -> (Seq<FileSpec>, int) {
    match spec_file(s, i) {
        Some((f, j)) => {
            let (rest, e) = spec_more_files(s, j);
            (seq![f] + rest, e)
        },
        None => (seq![], i),
    }
}

/// A whole `splits.txt`: the sections, whitespace, the files, whitespace, and
/// nothing more.
pub open spec fn spec_splits(s: Seq<char>) -> Option<SplitsSpec> {
    match spec_sections(s, 0) {
        Some((sections, i)) => {
            let (files, k) = spec_file_list(s, scan(s, i, CharClass::Whitespace));
            if scan(s, k, CharClass::Whitespace) == s.len() {
                Some(SplitsSpec { sections, files })
            } else {
                None
            }
        },
        None => None,
    }
}

/// Where reading a `splits.txt` stops: at the start when the text does not
/// open with `Sections:`, otherwise at the first character after the
/// sections, the files and the whitespace around them.
pub open spec fn splits_stop(s: Seq<char>) -> int {
    match spec_sections(s, 0) {
        Some((_, i)) => scan(
            s,
            spec_file_list(s, scan(s, i, CharClass::Whitespace)).1,
            CharClass::Whitespace,
        ),
        None => 0,
    }
}

/// The failure that a section line at `i` reports when it is not read: the
/// first place where it leaves the shape of a section line, as unexpected
/// input there, or, when only the alignment is wrong, the failure of reading
/// the alignment as a number, over the alignment text.
pub open spec fn section_failure(s: Seq<char>, i: int) -> ParseError {
    let n1 = scan(s, i + 1, CharClass::NotAsciiWhitespace);
    let w = scan(s, n1, CharClass::Space);
    let t1 = scan(s, w + 5, CharClass::NotAsciiWhitespace);
    let a1 = scan(s, t1 + 7, CharClass::NotAsciiWhitespace);
    if !(0 <= i < s.len() && s[i] == '\t') {
        unexpected_at(s, i)
    } else if n1 == i + 1 {
        unexpected_at(s, i + 1)
    } else if w == n1 || !has_at(s, w, type_key()) {
        unexpected_at(s, w)
    } else if t1 == w + 5 {
        unexpected_at(s, w + 5)
    } else if !(t1 < s.len() && s[t1] == ' ') {
        unexpected_at(s, t1)
    } else if !has_at(s, t1 + 1, align_key()) {
        unexpected_at(s, t1 + 1)
    } else if a1 == t1 + 7 {
        unexpected_at(s, t1 + 7)
    } else {
        number_failure(s, t1 + 7, a1)
    }
}

/// The failure of reading `s[start..end]` as a number, over that text.
pub open spec fn number_failure(s: Seq<char>, start: int, end: int) -> ParseError {
    ParseError {
        start: start as usize,
        end: end as usize,
        reason: ParseErrorReason::Number(
            match spec_parse_dec_or_hex(s.subrange(start, end)) {
                Err(e) => e,
                Ok(_) => NumberError::Empty,
            },
        ),
    }
}

/// The failure that a split line at `i` reports when it is not read: the
/// first place where it leaves the shape of a split line, as unexpected
/// input there, or the failure of reading the start or the end as a number,
/// over its text, whichever comes first.
pub open spec fn split_failure(s: Seq<char>, i: int) -> ParseError {
    let n1 = scan(s, i + 1, CharClass::NotAsciiWhitespace);
    let w = scan(s, n1, CharClass::Space);
    let b1 = scan(s, w + 6, CharClass::NotAsciiWhitespace);
    let e1 = scan(s, b1 + 5, CharClass::NotAsciiWhitespace);
    if !(0 <= i < s.len() && s[i] == '\t') {
        unexpected_at(s, i)
    } else if n1 == i + 1 {
        unexpected_at(s, i + 1)
    } else if w == n1 || !has_at(s, w, start_key()) {
        unexpected_at(s, w)
    } else if b1 == w + 6 {
        unexpected_at(s, w + 6)
    } else if spec_parse_dec_or_hex(s.subrange(w + 6, b1)) is Err {
        number_failure(s, w + 6, b1)
    } else if !(b1 < s.len() && s[b1] == ' ') {
        unexpected_at(s, b1)
    } else if !has_at(s, b1 + 1, end_key()) {
        unexpected_at(s, b1 + 1)
    } else if e1 == b1 + 5 {
        unexpected_at(s, b1 + 5)
    } else {
        number_failure(s, b1 + 5, e1)
    }
}

/// The failure kept after reading the sections that follow at `i`, each
/// after a line feed, with `b` kept before: the one of the first section line
/// that is not read, when it starts further on.
pub open spec fn more_sections_failure(b: Failure, s: Seq<char>, i: int) -> Failure
    decreases s.len() - i,
{
    if 0 <= i < s.len() && s[i] == '\n' {
        match spec_section(s, i + 1) {
            Some((_, j)) => {
                proof {
                    lemma_section_progress(s, i + 1);
                }
                more_sections_failure(b, s, j)
            },
            None => kept(b, section_failure(s, i + 1)),
        }
    } else {
        b
    }
}

/// The failure kept after reading section lines at `i`.
pub open spec fn section_list_failure(b: Failure, s: Seq<char>, i: int) -> Failure {
    match spec_section(s, i) {
        Some((_, j)) => more_sections_failure(b, s, j),
        None => kept(b, section_failure(s, i)),
    }
}

/// The failure kept after reading `Sections:` and the section lines at `i`.
pub open spec fn sections_failure(b: Failure, s: Seq<char>, i: int) -> Failure {
    if has_at(s, i, sections_header()) {
        section_list_failure(b, s, i + 10)
    } else {
        kept(b, unexpected_at(s, i))
    }
}

/// The failure kept after reading the split lines that follow at `i`.
pub open spec fn more_splits_failure(b: Failure, s: Seq<char>, i: int) -> Failure
    decreases s.len() - i,
{
    if 0 <= i < s.len() && s[i] == '\n' {
        match spec_split(s, i + 1) {
            Some((_, j)) => {
                proof {
                    lemma_split_progress(s, i + 1);
                }
                more_splits_failure(b, s, j)
            },
            None => kept(b, split_failure(s, i + 1)),
        }
    } else {
        b
    }
}

/// The failure kept after reading split lines at `i`.
pub open spec fn split_list_failure(b: Failure, s: Seq<char>, i: int) -> Failure {
    match spec_split(s, i) {
        Some((_, j)) => more_splits_failure(b, s, j),
        None => kept(b, split_failure(s, i)),
    }
}

/// The failure kept after reading a file at `i`: unexpected input where the
/// path or its `:` and line feed should be, or what its split lines leave.
pub open spec fn file_failure(b: Failure, s: Seq<char>, i: int) -> Failure {
    let p1 = scan(s, i, CharClass::PathChar);
    if p1 == i {
        kept(b, unexpected_at(s, i))
    } else if !has_at(s, p1, path_end()) {
        kept(b, unexpected_at(s, p1))
    } else {
        split_list_failure(b, s, p1 + 2)
    }
}

/// The failure kept after reading the files that follow at `i`, each after
/// any amount of whitespace.
pub open spec fn more_files_failure(b: Failure, s: Seq<char>, i: int) -> Failure
    decreases s.len() - i,
{
    let w = scan(s, i, CharClass::Whitespace);
    let b2 = file_failure(b, s, w);
    match spec_file(s, w) {
        Some((_, j)) => {
            proof {
                lemma_scan_ge(s, i, CharClass::Whitespace);
                lemma_file_progress(s, w);
            }
            more_files_failure(b2, s, j)
        },
        None => b2,
    }
}

/// The failure kept after reading files at `i`.
pub open spec fn file_list_failure(b: Failure, s: Seq<char>, i: int) -> Failure {
    let b2 = file_failure(b, s, i);
    match spec_file(s, i) {
        Some((_, j)) => more_files_failure(b2, s, j),
        None => b2,
    }
}

/// The failure that a `splits.txt` that is not read reports: of all the
/// places where reading stopped short, the first one that lies furthest on,
/// with why it stopped there; last comes what stands after the files.
pub open spec fn splits_failure(s: Seq<char>) -> Failure {
    let b1 = sections_failure(None, s, 0);
    match spec_sections(s, 0) {
        None => b1,
        Some((_, i)) => {
            let j = scan(s, i, CharClass::Whitespace);
            let b2 = file_list_failure(b1, s, j);
            kept(b2, unexpected_at(s, scan(s, spec_file_list(s, j).1, CharClass::Whitespace)))
        },
    }
}

/// Keeps `e` as the reported failure when it got further than the one kept.
fn note(best: &mut Failure, e: ParseError)
    ensures
        *final(best) == kept(*old(best), e),
{
    let replace = match best {
        Some(b) => e.start > b.start,
        None => true,
    };
    if replace {
        *best = Some(e);
    }
}

/// A failure at `pos`: the text does not have the expected shape there.
fn unexpected(s: &[char], pos: usize) -> (res: ParseError)
    requires
        pos <= s@.len(),
    ensures
        res == unexpected_at(s@, pos as int),
        within(res, s@.len() as int),
{
    let end = if pos < s.len() {
        pos + 1
    } else {
        pos
    };
    ParseError { start: pos, end, reason: ParseErrorReason::Unexpected }
}

/// Reads a section line at `i`.
pub fn section(text: &Text, i: usize, best: &mut Failure) -> (res: Option<(Section, usize)>)
    requires
        text.wf(),
        i <= text@.len(),
    ensures
        kept_further(*old(best), *final(best), text@.len() as int),
        match res {
            Some((sec, j)) => spec_section(text@, i as int) == Some((sec.deep_view(), j as int)) && i
                < j <= text@.len() && *final(best) == *old(best),
            None => spec_section(text@, i as int) is None && *final(best) == kept(
                *old(best),
                section_failure(text@, i as int),
            ),
        },
{
    let s = text.chars().as_slice();
    if i >= s.len() || s[i] != '\t' {
        note(best, unexpected(s, i));
        return None;
    }
    let n1 = match take_until_space1(s, i + 1) {
        Some(e) => e,
        None => {
            note(best, unexpected(s, i + 1));
            return None;
        },
    };
    let w = take_while(s, n1, CharClass::Space);
    if w == n1 {
        note(best, unexpected(s, w));
        return None;
    }
    if !literal_at(s, w, &['t', 'y', 'p', 'e', ':']) {
        note(best, unexpected(s, w));
        return None;
    }
    assert(has_at(s@, w as int, type_key()));
    let t1 = match take_until_space1(s, w + 5) {
        Some(e) => e,
        None => {
            note(best, unexpected(s, w + 5));
            return None;
        },
    };
    if !(t1 < s.len() && s[t1] == ' ') {
        note(best, unexpected(s, t1));
        return None;
    }
    if !literal_at(s, t1 + 1, &['a', 'l', 'i', 'g', 'n', ':']) {
        note(best, unexpected(s, t1 + 1));
        return None;
    }
    let a1 = match take_until_space1(s, t1 + 7) {
        Some(e) => e,
        None => {
            note(best, unexpected(s, t1 + 7));
            return None;
        },
    };
    match parse_dec_or_hex_chars(s, t1 + 7, a1) {
        Ok(align) => {
            let name = text.slice(i + 1, n1).to_owned();
            let kind = text.slice(w + 5, t1).to_owned();
            Some((Section { name, kind, align }, a1))
        },
        Err(e) => {
            note(best, ParseError { start: t1 + 7, end: a1, reason: ParseErrorReason::Number(e) });
            None
        },
    }
}


/// Reads a split line at `i`.
pub fn split(text: &Text, i: usize, best: &mut Failure) -> (res: Option<(Split, usize)>)
    requires
        text.wf(),
        i <= text@.len(),
    ensures
        kept_further(*old(best), *final(best), text@.len() as int),
        match res {
            Some((sp, j)) => spec_split(text@, i as int) == Some((sp.deep_view(), j as int)) && i < j
                <= text@.len() && *final(best) == *old(best),
            None => spec_split(text@, i as int) is None && *final(best) == kept(
                *old(best),
                split_failure(text@, i as int),
            ),
        },
{
    let s = text.chars().as_slice();
    if i >= s.len() || s[i] != '\t' {
        note(best, unexpected(s, i));
        return None;
    }
    let n1 = match take_until_space1(s, i + 1) {
        Some(e) => e,
        None => {
            note(best, unexpected(s, i + 1));
            return None;
        },
    };
    let w = take_while(s, n1, CharClass::Space);
    if w == n1 {
        note(best, unexpected(s, w));
        return None;
    }
    if !literal_at(s, w, &['s', 't', 'a', 'r', 't', ':']) {
        note(best, unexpected(s, w));
        return None;
    }
    let b1 = match take_until_space1(s, w + 6) {
        Some(e) => e,
        None => {
            note(best, unexpected(s, w + 6));
            return None;
        },
    };
    let start = match parse_dec_or_hex_chars(s, w + 6, b1) {
        Ok(v) => v,
        Err(e) => {
            note(best, ParseError { start: w + 6, end: b1, reason: ParseErrorReason::Number(e) });
            return None;
        },
    };
    if !(b1 < s.len() && s[b1] == ' ') {
        note(best, unexpected(s, b1));
        return None;
    }
    if !literal_at(s, b1 + 1, &['e', 'n', 'd', ':']) {
        note(best, unexpected(s, b1 + 1));
        return None;
    }
    let e1 = match take_until_space1(s, b1 + 5) {
        Some(e) => e,
        None => {
            note(best, unexpected(s, b1 + 5));
            return None;
        },
    };
    let end = match parse_dec_or_hex_chars(s, b1 + 5, e1) {
        Ok(v) => v,
        Err(e) => {
            note(best, ParseError { start: b1 + 5, end: e1, reason: ParseErrorReason::Number(e) });
            return None;
        },
    };
    let section = text.slice(i + 1, n1).to_owned();
    Some((Split { section, start, end }, e1))
}

/// Reads section lines separated by line feeds, as many as there are.
pub fn section_list(text: &Text, i: usize, best: &mut Failure) -> (res: (Vec<Section>, usize))
    requires
        text.wf(),
        i <= text@.len(),
    ensures
        kept_further(*old(best), *final(best), text@.len() as int),
        (res.0.deep_view(), res.1 as int) == spec_section_list(text@, i as int),
        res.1 <= text@.len(),
        *final(best) == section_list_failure(*old(best), text@, i as int),
{
    let s = text.chars().as_slice();
    let n = s.len();
    let mut out: Vec<Section> = Vec::new();
    let mut pos: usize;
    match section(text, i, best) {
        None => {
            assert(out.deep_view() =~= Seq::<SectionSpec>::empty());
            return (out, i);
        },
        Some((sec, j)) => {
            let ghost v = sec.deep_view();
            out.push(sec);
            assert(out.deep_view() =~= seq![v]);
            proof {
                lemma_section_progress(text@, i as int);
            }
            pos = j;
        },
    }
    loop
        invariant
            kept_further(*old(best), *best, text@.len() as int),
            text.wf(),
            s@ == text@,
            n == s@.len(),
            i < pos <= s@.len(),
            section_list_failure(*old(best), text@, i as int) == more_sections_failure(
                *best,
                text@,
                pos as int,
            ),
            spec_section_list(text@, i as int) == (
                out.deep_view() + spec_more_sections(text@, pos as int).0,
                spec_more_sections(text@, pos as int).1,
            ),
        decreases s@.len() - pos,
    {
        if pos < n && s[pos] == '\n' {
            match section(text, pos + 1, best) {
                Some((sec, j)) => {
                    let ghost prev = out.deep_view();
                    let ghost v = sec.deep_view();
                    let ghost rest = spec_more_sections(text@, j as int).0;
                    out.push(sec);
                    assert(out.deep_view() =~= prev.push(v));
                    assert(prev + (seq![v] + rest) =~= prev.push(v) + rest);
                    pos = j;
                },
                None => {
                    assert(out.deep_view() + Seq::<SectionSpec>::empty() =~= out.deep_view());
                    return (out, pos);
                },
            }
        } else {
            assert(out.deep_view() + Seq::<SectionSpec>::empty() =~= out.deep_view());
            return (out, pos);
        }
    }
}

/// Reads `Sections:` on a line of its own and the section lines after it.
pub fn sections(text: &Text, i: usize, best: &mut Failure) -> (res: Option<(Vec<Section>, usize)>)
    requires
        text.wf(),
        i <= text@.len(),
    ensures
        kept_further(*old(best), *final(best), text@.len() as int),
        match res {
            Some((secs, j)) => spec_sections(text@, i as int) == Some((secs.deep_view(), j as int))
                && j <= text@.len(),
            None => spec_sections(text@, i as int) is None,
        },
        *final(best) == sections_failure(*old(best), text@, i as int),
{
    let s = text.chars().as_slice();
    let n = s.len();
    if !literal_at(s, i, &['S', 'e', 'c', 't', 'i', 'o', 'n', 's', ':', '\n']) {
        note(best, unexpected(s, i));
        return None;
    }
    let (secs, j) = section_list(text, i + 10, best);
    Some((secs, j))
}

/// Reads split lines separated by line feeds, as many as there are.
pub fn split_list(text: &Text, i: usize, best: &mut Failure) -> (res: (Vec<Split>, usize))
    requires
        text.wf(),
        i <= text@.len(),
    ensures
        kept_further(*old(best), *final(best), text@.len() as int),
        (res.0.deep_view(), res.1 as int) == spec_split_list(text@, i as int),
        i <= res.1 <= text@.len(),
        *final(best) == split_list_failure(*old(best), text@, i as int),
{
    let s = text.chars().as_slice();
    let n = s.len();
    let mut out: Vec<Split> = Vec::new();
    let mut pos: usize;
    match split(text, i, best) {
        None => {
            assert(out.deep_view() =~= Seq::<SplitSpec>::empty());
            return (out, i);
        },
        Some((sp, j)) => {
            let ghost v = sp.deep_view();
            out.push(sp);
            assert(out.deep_view() =~= seq![v]);
            pos = j;
        },
    }
    loop
        invariant
            kept_further(*old(best), *best, text@.len() as int),
            text.wf(),
            s@ == text@,
            n == s@.len(),
            i <= pos <= s@.len(),
            split_list_failure(*old(best), text@, i as int) == more_splits_failure(
                *best,
                text@,
                pos as int,
            ),
            spec_split_list(text@, i as int) == (
                out.deep_view() + spec_more_splits(text@, pos as int).0,
                spec_more_splits(text@, pos as int).1,
            ),
        decreases s@.len() - pos,
    {
        if pos < n && s[pos] == '\n' {
            match split(text, pos + 1, best) {
                Some((sp, j)) => {
                    let ghost prev = out.deep_view();
                    let ghost v = sp.deep_view();
                    let ghost rest = spec_more_splits(text@, j as int).0;
                    out.push(sp);
                    assert(out.deep_view() =~= prev.push(v));
                    assert(prev + (seq![v] + rest) =~= prev.push(v) + rest);
                    pos = j;
                },
                None => {
                    assert(out.deep_view() + Seq::<SplitSpec>::empty() =~= out.deep_view());
                    return (out, pos);
                },
            }
        } else {
            assert(out.deep_view() + Seq::<SplitSpec>::empty() =~= out.deep_view());
            return (out, pos);
        }
    }
}

/// Reads a file at `i`: its path, `:` and a line feed, then its split lines.
pub fn file(text: &Text, i: usize, best: &mut Failure) -> (res: Option<(File, usize)>)
    requires
        text.wf(),
        i <= text@.len(),
    ensures
        kept_further(*old(best), *final(best), text@.len() as int),
        match res {
            Some((f, j)) => spec_file(text@, i as int) == Some((f.deep_view(), j as int)) && i < j
                <= text@.len(),
            None => spec_file(text@, i as int) is None,
        },
        *final(best) == file_failure(*old(best), text@, i as int),
{
    let s = text.chars().as_slice();
    let n = s.len();
    let p1 = match take_while1(s, i, CharClass::PathChar) {
        Some(e) => e,
        None => {
            note(best, unexpected(s, i));
            return None;
        },
    };
    if !literal_at(s, p1, &[':', '\n']) {
        note(best, unexpected(s, p1));
        return None;
    }
    let (splits, e) = split_list(text, p1 + 2, best);
    let path = text.slice(i, p1).to_owned();
    Some((File { path, splits }, e))
}

/// Reads files separated by whitespace, as many as there are.
pub fn file_list(text: &Text, i: usize, best: &mut Failure) -> (res: (Vec<File>, usize))
    requires
        text.wf(),
        i <= text@.len(),
    ensures
        kept_further(*old(best), *final(best), text@.len() as int),
        (res.0.deep_view(), res.1 as int) == spec_file_list(text@, i as int),
        res.1 <= text@.len(),
        *final(best) == file_list_failure(*old(best), text@, i as int),
{
    let s = text.chars().as_slice();
    let n = s.len();
    let mut out: Vec<File> = Vec::new();
    let mut pos: usize;
    match file(text, i, best) {
        None => {
            assert(out.deep_view() =~= Seq::<FileSpec>::empty());
            return (out, i);
        },
        Some((f, j)) => {
            let ghost v = f.deep_view();
            out.push(f);
            assert(out.deep_view() =~= seq![v]);
            pos = j;
        },
    }
    loop
        invariant
            kept_further(*old(best), *best, text@.len() as int),
            text.wf(),
            s@ == text@,
            n == s@.len(),
            pos <= s@.len(),
            file_list_failure(*old(best), text@, i as int) == more_files_failure(
                *best,
                text@,
                pos as int,
            ),
            spec_file_list(text@, i as int) == (
                out.deep_view() + spec_more_files(text@, pos as int).0,
                spec_more_files(text@, pos as int).1,
            ),
        decreases s@.len() - pos,
    {
        let w = take_while(s, pos, CharClass::Whitespace);
        match file(text, w, best) {
            Some((f, j)) => {
                let ghost prev = out.deep_view();
                let ghost v = f.deep_view();
                let ghost rest = spec_more_files(text@, j as int).0;
                out.push(f);
                assert(out.deep_view() =~= prev.push(v));
                assert(prev + (seq![v] + rest) =~= prev.push(v) + rest);
                pos = j;
            },
            None => {
                assert(out.deep_view() + Seq::<FileSpec>::empty() =~= out.deep_view());
                return (out, pos);
            },
        }
    }
}

/// Reads a whole `splits.txt`: the sections, the files, and whitespace
/// around and between them. On failure the single error says where reading
/// got furthest and why it stopped there.
pub fn splits(input: &str) -> (res: Result<Splits, Vec<ParseError>>)
    ensures
        match res {
            Ok(v) => spec_splits(input@) == Some(v.deep_view()),
            Err(errs) => {
                &&& spec_splits(input@) is None
                &&& errs@.len() == 1
                &&& within(errs@[0], input@.len() as int)
                &&& errs@[0].start >= splits_stop(input@)
                &&& splits_failure(input@) == Some(errs@[0])
            },
        },
{
    let text = Text::new(input);
    let s = text.chars().as_slice();
    let mut best: Failure = None;
    match sections(&text, 0, &mut best) {
        None => {
            let mut errs = Vec::new();
            errs.push(best.unwrap());
            Err(errs)
        },
        Some((sections, i)) => {
            let j = take_while(s, i, CharClass::Whitespace);
            let (files, k) = file_list(&text, j, &mut best);
            let e = take_while(s, k, CharClass::Whitespace);
            if e == s.len() {
                Ok(Splits { sections, files })
            } else {
                note(&mut best, unexpected(s, e));
                let mut errs = Vec::new();
                errs.push(best.unwrap());
                Err(errs)
            }
        },
    }
}

} // verus!
