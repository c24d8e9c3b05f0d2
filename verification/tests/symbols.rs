use dtk_pal::symbols::parser::{attr, key_value_attr};
use dtk_pal::util::parsing::ParseError;
use dtk_pal::util::text::Text;
use dtk_pal::symbols::{self, Attr, Attrs, ObjDataKind, ObjSymbolFlag, ObjSymbolFlags, ObjSymbolKind, NameKind, UnknownName};
use dtk_pal::util::parsing::{NumberError, ParseErrorReason};

const SAMPLE: &str = "main = .text:0x80003100; // type:function size:0x40 scope:global align:4\nbuffer = .bss:0x80400000; // type:object size:0x100 scope:local data:4byte hidden\nlbl_1 = 0x80001234;\n";

#[test]
fn reads_each_line() {
    let syms = symbols::parser(SAMPLE).unwrap();
    assert_eq!(syms.len(), 3);

    assert_eq!(syms[0].name(), "main");
    assert_eq!(syms[0].section(), Some(".text"));
    assert_eq!(syms[0].addr(), "0x80003100");
    let a = syms[0].attrs();
    assert_eq!(a.kind(), ObjSymbolKind::Function);
    assert_eq!(a.size(), Some(0x40));
    assert_eq!(a.flags().to_vec(), vec![ObjSymbolFlag::Global]);
    assert_eq!(a.align(), 4);
    assert_eq!(a.data(), ObjDataKind::Unknown);
    assert!(!a.hidden());

    let b = syms[1].attrs();
    assert_eq!(b.kind(), ObjSymbolKind::Object);
    assert_eq!(b.data(), ObjDataKind::Byte4);
    assert!(b.hidden());
    assert_eq!(b.flags().to_vec(), vec![ObjSymbolFlag::Local]);

    assert_eq!(syms[2].name(), "lbl_1");
    assert_eq!(syms[2].section(), None);
    assert_eq!(syms[2].addr(), "0x80001234");
    let c = syms[2].attrs();
    assert_eq!(c.kind(), ObjSymbolKind::Unknown);
    assert_eq!(c.size(), None);
    assert_eq!(c.align(), 0);
    assert!(c.flags().to_vec().is_empty());
}

#[test]
fn empty_text_has_no_symbols() {
    assert!(symbols::parser("").unwrap().is_empty());
}

#[test]
fn last_line_may_lack_a_line_feed() {
    let syms = symbols::parser("a = 1;\nb = .data:2;").unwrap();
    assert_eq!(syms.len(), 2);
    assert_eq!(syms[1].section(), Some(".data"));
}

#[test]
fn spacing_around_the_equals_sign_is_free() {
    let syms = symbols::parser("  a=b:0x1;//hidden\n").unwrap();
    assert_eq!(syms[0].name(), "a");
    assert_eq!(syms[0].section(), Some("b"));
    assert!(syms[0].attrs().hidden());
}

#[test]
fn later_attributes_win_and_scopes_accumulate() {
    let syms = symbols::parser("a = 0x1; // type:object type:function size:1 size:2 scope:weak scope:global align:8 align:16 data:byte data:short\n").unwrap();
    let a = syms[0].attrs();
    assert_eq!(a.kind(), ObjSymbolKind::Function);
    assert_eq!(a.size(), Some(2));
    assert_eq!(a.align(), 16);
    assert_eq!(a.data(), ObjDataKind::Short);
    assert_eq!(a.flags().to_vec(), vec![ObjSymbolFlag::Weak, ObjSymbolFlag::Global]);
}

#[test]
fn empty_comment_gives_default_attributes() {
    let syms = symbols::parser("a = 0x1; //\n").unwrap();
    assert_eq!(syms[0].attrs().kind(), ObjSymbolKind::Unknown);
}

#[test]
fn crlf_line_ends() {
    assert_eq!(symbols::parser("a = 0x1;\r\nb = 0x2;\r\n").unwrap().len(), 2);
    assert!(symbols::parser("a = 0x1; // type:function\r\n").is_err());
}

#[test]
fn blank_line_at_the_end_is_refused() {
    assert!(symbols::parser("a = 0x1;\n\n").is_err());
    assert!(symbols::parser("a = 0x1;\n\nb = 0x2;\n").is_ok());
}

#[test]
fn name_starting_with_comment_marker_after_plain_line_is_refused() {
    assert!(symbols::parser("a = 0x1;\n//b = 0x2;\n").is_err());
    assert!(symbols::parser("//b = 0x2;\n").is_ok());
}

#[test]
fn unicode_names_are_sliced_by_characters() {
    let syms = symbols::parser("caf\u{e9}_\u{3042} = .text:0x10; // size:3\n").unwrap();
    assert_eq!(syms[0].name(), "caf\u{e9}_\u{3042}");
    assert_eq!(syms[0].addr(), "0x10");
}

#[test]
fn unknown_kind_is_reported() {
    let errs = symbols::parser("a = 0x1; // type:thing\n").unwrap_err();
    assert_eq!(errs.len(), 1);
    assert_eq!(errs[0].reason, ParseErrorReason::UnknownSymbolKind("thing".to_string()));
    assert_eq!(errs[0].start, 12);
}

#[test]
fn unknown_scope_is_reported() {
    let errs = symbols::parser("a = 0x1; // scope:nowhere\n").unwrap_err();
    assert_eq!(errs[0].reason, ParseErrorReason::UnknownSymbolScope("nowhere".to_string()));
}

#[test]
fn unknown_data_kind_is_reported() {
    let errs = symbols::parser("a = 0x1; // data:3byte\n").unwrap_err();
    assert_eq!(errs[0].reason, ParseErrorReason::UnknownDataKind("3byte".to_string()));
}

#[test]
fn unknown_attribute_is_reported() {
    let errs = symbols::parser("a = 0x1; // colour:red\n").unwrap_err();
    assert_eq!(errs[0].reason, ParseErrorReason::UnknownAttribute("colour".to_string()));
    let errs = symbols::parser("a = 0x1; // shown\n").unwrap_err();
    assert_eq!(errs[0].reason, ParseErrorReason::UnknownAttribute("shown".to_string()));
}

#[test]
fn bad_size_is_reported() {
    let errs = symbols::parser("a = 0x1; // size:0x\n").unwrap_err();
    assert_eq!(errs[0].reason, ParseErrorReason::Number(NumberError::Empty));
}

#[test]
fn missing_semicolon_is_refused() {
    let errs = symbols::parser("a = 0x1\n").unwrap_err();
    assert_eq!(errs[0].reason, ParseErrorReason::Unexpected);
    assert_eq!(errs[0].start, 7);
}

#[test]
fn kind_names() {
    assert_eq!(ObjSymbolKind::from_str("label"), Ok(ObjSymbolKind::Unknown));
    assert_eq!(ObjSymbolKind::from_str("function"), Ok(ObjSymbolKind::Function));
    assert_eq!(ObjSymbolKind::from_str("object"), Ok(ObjSymbolKind::Object));
    assert_eq!(ObjSymbolKind::from_str("section"), Ok(ObjSymbolKind::Section));
    assert_eq!(ObjSymbolKind::from_str("Function"), Err(UnknownName { kind: NameKind::SymbolKind, name: "Function".to_string() }));
}

#[test]
fn scope_names() {
    assert_eq!(ObjSymbolFlag::from_str("common"), Ok(ObjSymbolFlag::Common));
    assert_eq!(ObjSymbolFlag::from_str("weak"), Ok(ObjSymbolFlag::Weak));
    assert_eq!(ObjSymbolFlag::from_str("global"), Ok(ObjSymbolFlag::Global));
    assert_eq!(ObjSymbolFlag::from_str("local"), Ok(ObjSymbolFlag::Local));
    assert_eq!(ObjSymbolFlag::from_str(""), Err(UnknownName { kind: NameKind::SymbolScope, name: String::new() }));
}

#[test]
fn data_kind_names() {
    let table = [
        ("byte", ObjDataKind::Byte),
        ("2byte", ObjDataKind::Byte2),
        ("4byte", ObjDataKind::Byte4),
        ("8byte", ObjDataKind::Byte8),
        ("float", ObjDataKind::Float),
        ("double", ObjDataKind::Double),
        ("string", ObjDataKind::String),
        ("sjis", ObjDataKind::ShiftJIS),
        ("wstring", ObjDataKind::String16),
        ("string_table", ObjDataKind::StringTable),
        ("sjis_table", ObjDataKind::ShiftJISTable),
        ("wstring_table", ObjDataKind::String16Table),
        ("int", ObjDataKind::Int),
        ("short", ObjDataKind::Short),
    ];
    for (name, kind) in table {
        assert_eq!(ObjDataKind::from_str(name), Ok(kind));
    }
    assert_eq!(ObjDataKind::from_str("unknown"), Err(UnknownName { kind: NameKind::DataKind, name: "unknown".to_string() }));
}

#[test]
fn flag_set_operations() {
    let mut f = ObjSymbolFlags::new();
    assert!(!f.contains(ObjSymbolFlag::Weak));
    f.insert(ObjSymbolFlag::Local);
    f.insert(ObjSymbolFlag::Common);
    f.insert(ObjSymbolFlag::Local);
    assert!(f.contains(ObjSymbolFlag::Local));
    assert!(f.contains(ObjSymbolFlag::Common));
    assert!(!f.contains(ObjSymbolFlag::Global));
    assert_eq!(f.to_vec(), vec![ObjSymbolFlag::Common, ObjSymbolFlag::Local]);
}

#[test]
fn applying_attributes() {
    let mut a = Attrs::default();
    a.apply(Attr::Size(4));
    a.apply(Attr::Type(ObjSymbolKind::Section));
    a.apply(Attr::Size(8));
    a.apply(Attr::Flag(ObjSymbolFlag::Weak));
    a.apply(Attr::Hidden);
    a.apply(Attr::Align(2));
    a.apply(Attr::Data(ObjDataKind::Double));
    assert_eq!(a.size(), Some(8));
    assert_eq!(a.kind(), ObjSymbolKind::Section);
    assert_eq!(a.flags().to_vec(), vec![ObjSymbolFlag::Weak]);
    assert!(a.hidden());
    assert_eq!(a.align(), 2);
    assert_eq!(a.data(), ObjDataKind::Double);
    assert_eq!(ObjSymbolKind::default(), ObjSymbolKind::Unknown);
    assert_eq!(ObjDataKind::default(), ObjDataKind::Unknown);
}

/// The fields of each symbol, for comparing two reads.
fn symbol_fields(text: &str) -> Vec<(String, Option<String>, String, ObjSymbolKind, Vec<ObjSymbolFlag>, Option<u32>, ObjDataKind, bool, u32)> {
    symbols::parser(text)
        .unwrap()
        .iter()
        .map(|s| {
            let a = s.attrs();
            (
                s.name().to_string(),
                s.section().map(|x| x.to_string()),
                s.addr().to_string(),
                a.kind(),
                a.flags().to_vec(),
                a.size(),
                a.data(),
                a.hidden(),
                a.align(),
            )
        })
        .collect()
}

#[test]
fn symbols_layout_of_what_was_read_reads_back_the_same() {
    let input = "  //a=.text:0x10;//align:0\n//b = 0x20; // scope:global type:object scope:weak size:0x8 size:4\nc = .bss:0x30;//hidden data:byte";
    let layout = "//a = .text:0x10; // type:label align:0\n//b = 0x20; // type:object scope:weak scope:global size:4 align:0\nc = .bss:0x30; // type:label data:byte hidden align:0\n";
    assert_eq!(symbol_fields(input), symbol_fields(layout));
    assert_eq!(symbol_fields(layout).len(), 3);
}

#[test]
fn unknown_key_is_reported_by_the_attribute_reader() {
    let text = Text::new("x foo:1");
    let mut best = None;
    assert!(key_value_attr(&text, 2, &mut best).is_none());
    assert_eq!(best, Some(ParseError { start: 2, end: 7, reason: ParseErrorReason::UnknownAttribute("foo".to_string()) }));
}

#[test]
fn unknown_key_at_the_start_is_reported() {
    let text = Text::new("foo:1");
    let mut best = None;
    assert!(key_value_attr(&text, 0, &mut best).is_none());
    assert_eq!(best, Some(ParseError { start: 0, end: 5, reason: ParseErrorReason::UnknownAttribute("foo".to_string()) }));
}

#[test]
fn first_failure_at_a_position_is_kept() {
    let text = Text::new("foo:1");
    let mut best = None;
    assert!(attr(&text, 0, &mut best).is_none());
    assert_eq!(best, Some(ParseError { start: 0, end: 5, reason: ParseErrorReason::UnknownAttribute("foo".to_string()) }));
}

#[test]
fn unknown_name_messages() {
    assert_eq!(ObjDataKind::from_str("Byte").unwrap_err().message(), "unknown obj data type: \"Byte\"");
    assert_eq!(ObjSymbolKind::from_str("lbl").unwrap_err().message(), format!("unknown symbol kind: {:?}", "lbl"));
    assert_eq!(ObjSymbolFlag::from_str("Global").unwrap_err().message(), "unknown symbol scope: \"Global\"");
    assert_eq!(ObjSymbolFlag::from_str("a\"b").unwrap_err().message(), format!("unknown symbol scope: {:?}", "a\"b"));
}

#[test]
fn reason_messages() {
    let errs = symbols::parser("a = 1; // foo:1\n").unwrap_err();
    assert_eq!(errs[0].reason.message(), "unknown attribute: \"foo\"");
    let errs = symbols::parser("a = 1; // size:zz\n").unwrap_err();
    assert_eq!(errs[0].reason.message(), "invalid digit found in string");
    let errs = symbols::parser("a = 1; // data:Byte\n").unwrap_err();
    assert_eq!(errs[0].reason.message(), "unknown obj data type: \"Byte\"");
    assert_eq!(ParseErrorReason::Unexpected.message(), "unexpected input");
}
