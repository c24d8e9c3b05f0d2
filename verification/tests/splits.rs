use dtk_pal::splits::parser::section;
use dtk_pal::util::parsing::ParseError;
use dtk_pal::util::text::Text;
use dtk_pal::splits;
use dtk_pal::util::parsing::{NumberError, ParseErrorReason};

const SAMPLE: &str = "Sections:\n\t.init       type:code align:4\n\t.text       type:code align:0x20\n\t.bss        type:bss align:32\n\nsrc/main.c:\n\t.text       start:0x80003100 end:0x80003200\n\t.bss        start:0x80400000 end:0x80400010\n\nsrc/util.cpp:\n\t.text       start:0x80003200 end:0x80003300\n";

#[test]
fn reads_sections_and_files() {
    let s = splits::parser(SAMPLE).unwrap();
    assert_eq!(s.sections.len(), 3);
    assert_eq!(s.sections[0].name, ".init");
    assert_eq!(s.sections[0].kind, "code");
    assert_eq!(s.sections[0].align, 4);
    assert_eq!(s.sections[1].align, 0x20);
    assert_eq!(s.sections[2].kind, "bss");
    assert_eq!(s.files.len(), 2);
    assert_eq!(s.files[0].path, "src/main.c");
    assert_eq!(s.files[0].splits.len(), 2);
    assert_eq!(s.files[0].splits[0].section, ".text");
    assert_eq!(s.files[0].splits[0].start, 0x80003100);
    assert_eq!(s.files[0].splits[0].end, 0x80003200);
    assert_eq!(s.files[0].splits[1].section, ".bss");
    assert_eq!(s.files[1].path, "src/util.cpp");
    assert_eq!(s.files[1].splits[0].end, 0x80003300);
}

#[test]
fn header_alone_is_empty() {
    let s = splits::parser("Sections:\n").unwrap();
    assert!(s.sections.is_empty());
    assert!(s.files.is_empty());
}

#[test]
fn file_without_splits() {
    let s = splits::parser("Sections:\n\t.text type:code align:4\n\nempty.c:\n").unwrap();
    assert_eq!(s.files.len(), 1);
    assert_eq!(s.files[0].path, "empty.c");
    assert!(s.files[0].splits.is_empty());
}

#[test]
fn files_may_follow_each_other_directly() {
    let s = splits::parser("Sections:\n\na.c:\n\t.text start:1 end:2\nb.c:\n\t.data start:3 end:4").unwrap();
    assert_eq!(s.files.len(), 2);
    assert_eq!(s.files[1].path, "b.c");
    assert_eq!(s.files[1].splits[0].start, 3);
}

#[test]
fn missing_header_is_refused() {
    let errs = splits::parser("\t.text type:code align:4\n").unwrap_err();
    assert_eq!(errs.len(), 1);
    assert_eq!(errs[0].start, 0);
    assert_eq!(errs[0].reason, ParseErrorReason::Unexpected);
}

#[test]
fn bad_alignment_is_reported_where_it_stands() {
    let input = "Sections:\n\t.text type:code align:0xZZ\n";
    let errs = splits::parser(input).unwrap_err();
    assert_eq!(errs.len(), 1);
    assert_eq!(errs[0].reason, ParseErrorReason::Number(NumberError::InvalidDigit));
    assert_eq!(errs[0].start, input.find("0xZZ").unwrap());
    assert_eq!(errs[0].end, errs[0].start + 4);
}

#[test]
fn split_end_that_overflows_is_refused() {
    let errs = splits::parser("Sections:\n\na.c:\n\t.text start:1 end:4294967296\n").unwrap_err();
    assert_eq!(errs[0].reason, ParseErrorReason::Number(NumberError::PosOverflow));
}

#[test]
fn trailing_text_is_refused() {
    assert!(splits::parser("Sections:\n\t.text type:code align:4 extra\n").is_err());
    assert!(splits::parser("Sections:\n\na.c\n").is_err());
}

#[test]
fn tabs_and_two_spaces_between_fields() {
    assert!(splits::parser("Sections:\n\t.text\ttype:code align:4\n").is_err());
    assert!(splits::parser("Sections:\n\t.text type:code  align:4\n").is_err());
}

/// The fields of a value, for comparing two reads.
fn fields(s: &splits::Splits) -> (Vec<(String, String, u32)>, Vec<(String, Vec<(String, u32, u32)>)>) {
    let secs = s.sections.iter().map(|x| (x.name.clone(), x.kind.clone(), x.align)).collect();
    let files = s
        .files
        .iter()
        .map(|f| (f.path.clone(), f.splits.iter().map(|x| (x.section.clone(), x.start, x.end)).collect()))
        .collect();
    (secs, files)
}

#[test]
fn splits_layout_of_what_was_read_reads_back_the_same() {
    let read = splits::parser(SAMPLE).unwrap();
    let layout = "Sections:\n\t.init type:code align:4\n\t.text type:code align:32\n\t.bss type:bss align:32\n\nsrc/main.c:\n\t.text start:2147496192 end:2147496448\n\t.bss start:2151677952 end:2151677968\n\nsrc/util.cpp:\n\t.text start:2147496448 end:2147496704";
    let again = splits::parser(layout).unwrap();
    assert_eq!(fields(&read), fields(&again));
}

#[test]
fn section_reader_reports_the_alignment_failure() {
    let line = "\t.text type:code align:four";
    let text = Text::new(line);
    let mut best = None;
    assert!(section(&text, 0, &mut best).is_none());
    let at = line.find("four").unwrap();
    assert_eq!(best, Some(ParseError { start: at, end: at + 4, reason: ParseErrorReason::Number(NumberError::InvalidDigit) }));
}
