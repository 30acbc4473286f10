//! Style sheet, declaration tokenizer, selector and stream tests.

use simplecss::sheet::{self, Error as SheetError, TextPos};
use simplecss::{DeclarationTokenizer, Error, ErrorPos, Stream, StyleSheet};

#[test]
fn sheet_two_equal_rules_keep_order() {
    let sheet = StyleSheet::parse("p { color: red; }\np { color: red; }");
    assert_eq!(sheet.rules.len(), 2);
    for rule in &sheet.rules {
        assert_eq!(rule.selector.to_text(), b"p".as_slice());
        assert_eq!(rule.declarations.len(), 1);
        assert_eq!(rule.declarations[0].name, b"color".as_slice());
        assert_eq!(rule.declarations[0].value, b"red".as_slice());
        assert!(!rule.declarations[0].important);
    }
}

#[test]
fn sheet_skips_at_rule() {
    let sheet = StyleSheet::parse("@import url(x.css); p { color: red; }");
    assert_eq!(sheet.rules.len(), 1);
    assert_eq!(sheet.rules[0].selector.to_text(), b"p".as_slice());
    assert_eq!(sheet.rules[0].declarations[0].name, b"color".as_slice());
    assert_eq!(sheet.rules[0].declarations[0].value, b"red".as_slice());
}

#[test]
fn sheet_skips_at_rule_with_block() {
    let sheet = StyleSheet::parse("@media print { a { b: c; } } p { color: red; }");
    assert_eq!(sheet.rules.len(), 1);
    assert_eq!(sheet.rules[0].selector.to_text(), b"p".as_slice());
}

#[test]
fn sheet_empty_body_rule_vanishes() {
    let sheet = StyleSheet::parse("p {}");
    assert_eq!(sheet.rules.len(), 0);
    let sheet = StyleSheet::parse("p { } q { color: red; }");
    assert_eq!(sheet.rules.len(), 1);
    assert_eq!(sheet.rules[0].selector.to_text(), b"q".as_slice());
}

#[test]
fn sheet_sorts_by_specificity_stably() {
    let sheet = StyleSheet::parse("i{a:b} .c{a:b} #d{a:b} j{a:b}");
    let texts: Vec<&[u8]> = sheet.rules.iter().map(|r| r.selector.to_text()).collect();
    assert_eq!(
        texts,
        vec![b"i".as_slice(), b"j".as_slice(), b".c".as_slice(), b"#d".as_slice()]
    );
}

#[test]
fn sheet_selector_group_shares_block() {
    let sheet = StyleSheet::parse("h1, h2 { color: red; }");
    assert_eq!(sheet.rules.len(), 2);
    assert_eq!(sheet.rules[0].selector.to_text(), b"h1".as_slice());
    assert_eq!(sheet.rules[1].selector.to_text(), b"h2".as_slice());
    assert_eq!(sheet.rules[0].declarations, sheet.rules[1].declarations);
}

#[test]
fn sheet_important_with_spaces() {
    let sheet = StyleSheet::parse("* { color: white ! important; }");
    assert_eq!(sheet.rules.len(), 1);
    assert_eq!(sheet.rules[0].declarations[0].value, b"white".as_slice());
    assert!(sheet.rules[0].declarations[0].important);
}

#[test]
fn sheet_parse_more_accumulates() {
    let mut sheet = StyleSheet::parse("p { color: red; }");
    sheet.parse_more("i { color: blue; }");
    assert_eq!(sheet.rules.len(), 2);
    let texts: Vec<&[u8]> = sheet.rules.iter().map(|r| r.selector.to_text()).collect();
    assert_eq!(texts, vec![b"p".as_slice(), b"i".as_slice()]);
}

#[test]
fn sheet_render_format() {
    let sheet = StyleSheet::parse("p{color:red}");
    assert_eq!(sheet.render(), b"p { color:red; }".to_vec());
    let sheet = StyleSheet::parse("p{a:b} q{c:d !important}");
    assert_eq!(sheet.render(), b"p { a:b; }\nq { c:d !important; }".to_vec());
}

#[test]
fn sheet_render_round_trip() {
    let sheet = StyleSheet::parse("div , p { color : red ; border: 1em solid blue }");
    let rendered = String::from_utf8(sheet.render()).unwrap();
    let again = StyleSheet::parse(&rendered);
    assert_eq!(sheet.rules.len(), again.rules.len());
    for (a, b) in sheet.rules.iter().zip(again.rules.iter()) {
        assert_eq!(a.selector.to_text(), b.selector.to_text());
        assert_eq!(a.selector.specificity(), b.selector.specificity());
        assert_eq!(a.declarations, b.declarations);
    }
    // rendering the re-parsed sheet reproduces the text exactly
    assert_eq!(again.render(), rendered.as_bytes().to_vec());
}

#[test]
fn sheet_malformed_statement_degrades() {
    let sheet = StyleSheet::parse("% % % p { color: red; }");
    // the malformed prefix is skipped up to the block; nothing valid remains
    // of its group, and the following rule parses on a fresh statement
    assert!(sheet.rules.len() <= 1);
    let sheet = StyleSheet::parse("p { color: } q { color: red; }");
    assert_eq!(sheet.rules.len(), 1);
    assert_eq!(sheet.rules[0].selector.to_text(), b"q".as_slice());
}

#[test]
fn declaration_tokenizer_doc_example() {
    let mut t = DeclarationTokenizer::from("background: url(\"img.png\"); color:red !important");
    let d = t.next().unwrap();
    assert_eq!(d.name, b"background".as_slice());
    assert_eq!(d.value, b"url(\"img.png\")".as_slice());
    assert!(!d.important);
    let d = t.next().unwrap();
    assert_eq!(d.name, b"color".as_slice());
    assert_eq!(d.value, b"red".as_slice());
    assert!(d.important);
    assert!(t.next().is_none());
}

#[test]
fn declaration_tokenizer_simple() {
    let mut t = DeclarationTokenizer::from("color: red;");
    let d = t.next().unwrap();
    assert_eq!(d.name, b"color".as_slice());
    assert_eq!(d.value, b"red".as_slice());
    assert!(!d.important);
    assert!(t.next().is_none());
}

#[test]
fn declaration_tokenizer_trims_value() {
    let mut t = DeclarationTokenizer::from("border :  1em  solid  blue  ; ");
    let d = t.next().unwrap();
    assert_eq!(d.name, b"border".as_slice());
    assert_eq!(d.value, b"1em  solid  blue".as_slice());
    assert!(t.next().is_none());
}

#[test]
fn declaration_tokenizer_stops_permanently() {
    let mut t = DeclarationTokenizer::from("a:b; $%; c:d;");
    let d = t.next().unwrap();
    assert_eq!(d.name, b"a".as_slice());
    assert_eq!(d.value, b"b".as_slice());
    assert!(t.next().is_none());
    assert!(t.next().is_none());
}

#[test]
fn declaration_tokenizer_leading_star_hack() {
    let mut t = DeclarationTokenizer::from("*color: red;");
    let d = t.next().unwrap();
    assert_eq!(d.name, b"color".as_slice());
    assert_eq!(d.value, b"red".as_slice());
}

#[test]
fn consume_declaration_invalid_value() {
    // the error carries the position where the value should have begun
    let mut s = Stream::new(b"color: ;");
    let e = sheet::consume_declaration(&mut s).unwrap_err();
    assert_eq!(e, SheetError::InvalidValue(TextPos::new(1, 8)));
}

#[test]
fn consume_declaration_invalid_byte() {
    let mut s = Stream::new(b"color red;");
    let e = sheet::consume_declaration(&mut s).unwrap_err();
    assert_eq!(
        e,
        SheetError::InvalidByte { expected: b':', actual: b'r', pos: TextPos::new(1, 7) }
    );
}

#[test]
fn consume_declaration_invalid_ident() {
    let mut s = Stream::new(b": red;");
    let e = sheet::consume_declaration(&mut s).unwrap_err();
    assert!(matches!(e, SheetError::InvalidIdent(_)));
}

#[test]
fn consume_declaration_invalid_comment() {
    let mut s = Stream::new(b"/* no close");
    let e = sheet::consume_declaration(&mut s).unwrap_err();
    assert!(matches!(e, SheetError::InvalidComment(_)));
}

#[test]
fn block_skip_is_symmetric() {
    // after skipping the well-nested block, the stream stands on the byte
    // immediately following the outer closing brace
    let text = b"{a{b}c} rest";
    let mut s = Stream::new(text);
    sheet::consume_block(&mut s);
    assert_eq!(s.pos(), 7);

    let text = b"{{{}{}}}x";
    let mut s = Stream::new(text);
    sheet::consume_block(&mut s);
    assert_eq!(s.pos(), 8);
}

#[test]
fn selector_specificity_counts() {
    let (sel, used) = simplecss::selector::parse(b"div.cls#id { color: red }");
    let sel = sel.unwrap();
    assert_eq!(used, 11);
    assert_eq!(sel.to_text(), b"div.cls#id".as_slice());
    assert_eq!(sel.specificity(), (1u64 << 32) + (1u64 << 16) + 1);

    let (sel, _) = simplecss::selector::parse(b"div div");
    assert_eq!(sel.unwrap().specificity(), 2);

    let (sel, _) = simplecss::selector::parse(b":lang(fr)");
    assert_eq!(sel.unwrap().specificity(), 1u64 << 16);

    let (sel, _) = simplecss::selector::parse(b"  , rest");
    assert!(sel.is_none());
}

#[test]
fn stream_positions() {
    let mut s = Stream::new(b"ab\ncd");
    assert!(s.advance(4).is_ok());
    assert_eq!(s.gen_error_pos(), ErrorPos::new(2, 2));
    assert!(!s.at_end());
    assert_eq!(s.curr_char().unwrap(), b'd');
}

#[test]
fn stream_invalid_advance() {
    let mut s = Stream::new(b"abc");
    let e = s.advance(5).unwrap_err();
    assert_eq!(
        e,
        Error::InvalidAdvance { expected: 5, total: 3, pos: ErrorPos::new(1, 1) }
    );
    assert_eq!(s.pos(), 0);
}

#[test]
fn stream_length_to() {
    let s = Stream::new(b"abc;def");
    assert_eq!(s.length_to(b';').unwrap(), 3);
    assert_eq!(s.length_to_either(b";x").unwrap(), 3);
    assert!(matches!(s.length_to(b'!').unwrap_err(), Error::UnexpectedEndOfStream(_)));
}

#[test]
fn stream_bound_reports_absolute_positions() {
    let text = "xxxx# div1";
    let mut t = simplecss::Tokenizer::new_bound(text, 4, text.len());
    assert_eq!(t.parse_next().unwrap_err(), Error::UnknownToken(ErrorPos::new(1, 6)));
}

#[test]
fn error_pos_new() {
    let p = ErrorPos::new(3, 9);
    assert_eq!(p.row, 3);
    assert_eq!(p.col, 9);
    let tp = TextPos::new(2, 5);
    assert_eq!(tp.row, 2);
    assert_eq!(tp.col, 5);
}

#[test]
fn consume_declaration_end_of_stream() {
    let mut s = Stream::new(b"color");
    let e = sheet::consume_declaration(&mut s).unwrap_err();
    assert_eq!(e, SheetError::UnexpectedEndOfStream);
}

#[test]
fn stream_column_at_line_start() {
    // the first byte of a line is column 1: the distance from the newline
    let mut s = Stream::new(b"ab\ncd");
    assert!(s.advance(3).is_ok());
    assert_eq!(s.gen_error_pos(), ErrorPos::new(2, 1));
}

#[test]
fn consume_at_rule_landing_positions() {
    // a `;` ends the prelude and is consumed
    let mut s = Stream::new(b"@media foo; rest");
    assert!(s.advance(1).is_ok());
    assert!(sheet::consume_at_rule(&mut s).is_ok());
    assert_eq!(s.pos(), 11);

    // a `{` opens a body that is skipped whole, nested braces included
    let mut s = Stream::new(b"@x { a { } } y");
    assert!(s.advance(1).is_ok());
    assert!(sheet::consume_at_rule(&mut s).is_ok());
    assert_eq!(s.pos(), 12);

    // no keyword after the `@`
    let mut s = Stream::new(b"@; x");
    assert!(s.advance(1).is_ok());
    assert!(matches!(
        sheet::consume_at_rule(&mut s).unwrap_err(),
        SheetError::InvalidIdent(_)
    ));

    // the prelude never ends
    let mut s = Stream::new(b"@media foo");
    assert!(s.advance(1).is_ok());
    assert_eq!(
        sheet::consume_at_rule(&mut s).unwrap_err(),
        SheetError::UnexpectedEndOfStream
    );
}

#[test]
fn declaration_tokenizer_none_is_permanent() {
    // after None the stream has ended for good
    let mut t = DeclarationTokenizer::from("a:b;");
    assert!(t.next().is_some());
    assert!(t.next().is_none());
    assert!(t.next().is_none());
    assert_eq!(t.stream.pos(), t.stream.slice_tail().len() + t.stream.pos());
}
