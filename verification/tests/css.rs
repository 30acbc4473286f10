//! Tokenizer tests: token sequences, error kinds and exact error positions.

use simplecss::{Combinator, Error, ErrorPos, Token, Tokenizer};

fn tokens(text: &str) -> Vec<Token<'_>> {
    let mut t = Tokenizer::new(text);
    let mut out = Vec::new();
    loop {
        let tok = t.parse_next().unwrap();
        if tok == Token::EndOfStream {
            return out;
        }
        out.push(tok);
    }
}

fn assert_block_red(t: &mut Tokenizer) {
    assert_eq!(t.parse_next().unwrap(), Token::BlockStart);
    assert_eq!(
        t.parse_next().unwrap(),
        Token::Declaration(b"color".as_slice(), b"red".as_slice())
    );
    assert_eq!(t.parse_next().unwrap(), Token::BlockEnd);
    assert_eq!(t.parse_next().unwrap(), Token::EndOfStream);
}

#[test]
fn selectors_1() {
    let mut t = Tokenizer::new("* { color: red }");
    assert_eq!(t.parse_next().unwrap(), Token::UniversalSelector);
    assert_block_red(&mut t);
}

#[test]
fn selectors_2() {
    let mut t = Tokenizer::new("p { color: red }");
    assert_eq!(t.parse_next().unwrap(), Token::TypeSelector(b"p".as_slice()));
    assert_block_red(&mut t);
}

#[test]
fn selectors_3() {
    let mut t = Tokenizer::new(":first-child { color: red }");
    assert_eq!(
        t.parse_next().unwrap(),
        Token::PseudoClass { selector: b"first-child".as_slice(), value: None }
    );
    assert_block_red(&mut t);
}

#[test]
fn selectors_4() {
    let mut t = Tokenizer::new(":lang(fr) { color: red }");
    assert_eq!(
        t.parse_next().unwrap(),
        Token::PseudoClass { selector: b"lang".as_slice(), value: Some(b"fr".as_slice()) }
    );
    assert_block_red(&mut t);
}

#[test]
fn selectors_6() {
    let mut t = Tokenizer::new(".cls { color: red }");
    assert_eq!(t.parse_next().unwrap(), Token::ClassSelector(b"cls".as_slice()));
    assert_block_red(&mut t);
}

#[test]
fn selectors_7() {
    let mut t = Tokenizer::new("#p2 { color: red }");
    assert_eq!(t.parse_next().unwrap(), Token::IdSelector(b"p2".as_slice()));
    assert_block_red(&mut t);
}

#[test]
fn selectors_8() {
    let mut t = Tokenizer::new("#p2{color:red}");
    assert_eq!(t.parse_next().unwrap(), Token::IdSelector(b"p2".as_slice()));
    assert_block_red(&mut t);
}

#[test]
fn selectors_9() {
    let mut t = Tokenizer::new(" div { color:red }");
    assert_eq!(t.parse_next().unwrap(), Token::TypeSelector(b"div".as_slice()));
    assert_block_red(&mut t);
}

#[test]
fn complex_selectors_1() {
    let mut t = Tokenizer::new("h1 p { color: red; }");
    assert_eq!(t.parse_next().unwrap(), Token::TypeSelector(b"h1".as_slice()));
    assert_eq!(t.parse_next().unwrap(), Token::Combinator(Combinator::Space));
    assert_eq!(t.parse_next().unwrap(), Token::TypeSelector(b"p".as_slice()));
    assert_block_red(&mut t);
}

#[test]
fn complex_selectors_3() {
    let mut t = Tokenizer::new("[rel=\"author\"], [rel=\"alternate\"] { color: red; }");
    assert_eq!(
        t.parse_next().unwrap(),
        Token::AttributeSelector(b"rel=\"author\"".as_slice())
    );
    assert_eq!(t.parse_next().unwrap(), Token::Comma);
    assert_eq!(
        t.parse_next().unwrap(),
        Token::AttributeSelector(b"rel=\"alternate\"".as_slice())
    );
    assert_block_red(&mut t);
}

#[test]
fn complex_selectors_4() {
    let mut t = Tokenizer::new("div:after, div:before { color: red; }");
    assert_eq!(t.parse_next().unwrap(), Token::TypeSelector(b"div".as_slice()));
    assert_eq!(
        t.parse_next().unwrap(),
        Token::PseudoClass { selector: b"after".as_slice(), value: None }
    );
    assert_eq!(t.parse_next().unwrap(), Token::Comma);
    assert_eq!(t.parse_next().unwrap(), Token::TypeSelector(b"div".as_slice()));
    assert_eq!(
        t.parse_next().unwrap(),
        Token::PseudoClass { selector: b"before".as_slice(), value: None }
    );
    assert_block_red(&mut t);
}

#[test]
fn complex_selectors_8() {
    let mut t = Tokenizer::new("div>h1 { color: red; }");
    assert_eq!(t.parse_next().unwrap(), Token::TypeSelector(b"div".as_slice()));
    assert_eq!(t.parse_next().unwrap(), Token::Combinator(Combinator::GreaterThan));
    assert_eq!(t.parse_next().unwrap(), Token::TypeSelector(b"h1".as_slice()));
    assert_block_red(&mut t);
}

#[test]
fn complex_selectors_9() {
    let mut t = Tokenizer::new("div > h1 { color: red; }");
    assert_eq!(t.parse_next().unwrap(), Token::TypeSelector(b"div".as_slice()));
    assert_eq!(t.parse_next().unwrap(), Token::Combinator(Combinator::GreaterThan));
    assert_eq!(t.parse_next().unwrap(), Token::TypeSelector(b"h1".as_slice()));
    assert_block_red(&mut t);
}

#[test]
fn complex_selectors_10() {
    let mut t = Tokenizer::new("div+h1 { color: red; }");
    assert_eq!(t.parse_next().unwrap(), Token::TypeSelector(b"div".as_slice()));
    assert_eq!(t.parse_next().unwrap(), Token::Combinator(Combinator::Plus));
    assert_eq!(t.parse_next().unwrap(), Token::TypeSelector(b"h1".as_slice()));
    assert_block_red(&mut t);
}

#[test]
fn complex_selectors_13() {
    let mut t = Tokenizer::new("#div1\n+\np { color: red; }");
    assert_eq!(t.parse_next().unwrap(), Token::IdSelector(b"div1".as_slice()));
    assert_eq!(t.parse_next().unwrap(), Token::Combinator(Combinator::Plus));
    assert_eq!(t.parse_next().unwrap(), Token::TypeSelector(b"p".as_slice()));
    assert_block_red(&mut t);
}

#[test]
fn complex_selectors_16() {
    let mut t = Tokenizer::new("div * em { color: red; }");
    assert_eq!(t.parse_next().unwrap(), Token::TypeSelector(b"div".as_slice()));
    assert_eq!(t.parse_next().unwrap(), Token::UniversalSelector);
    assert_eq!(t.parse_next().unwrap(), Token::TypeSelector(b"em".as_slice()));
    assert_block_red(&mut t);
}

#[test]
fn complex_selectors_20() {
    let mut t = Tokenizer::new("input[type=\"radio\"]:focus + label { color: red; }");
    assert_eq!(t.parse_next().unwrap(), Token::TypeSelector(b"input".as_slice()));
    assert_eq!(
        t.parse_next().unwrap(),
        Token::AttributeSelector(b"type=\"radio\"".as_slice())
    );
    assert_eq!(
        t.parse_next().unwrap(),
        Token::PseudoClass { selector: b"focus".as_slice(), value: None }
    );
    assert_eq!(t.parse_next().unwrap(), Token::Combinator(Combinator::Plus));
    assert_eq!(t.parse_next().unwrap(), Token::TypeSelector(b"label".as_slice()));
    assert_block_red(&mut t);
}

#[test]
fn blocks_1() {
    let toks = tokens("p { color: red; }\np { color: red; }");
    assert_eq!(
        toks,
        vec![
            Token::TypeSelector(b"p".as_slice()),
            Token::BlockStart,
            Token::Declaration(b"color".as_slice(), b"red".as_slice()),
            Token::BlockEnd,
            Token::TypeSelector(b"p".as_slice()),
            Token::BlockStart,
            Token::Declaration(b"color".as_slice(), b"red".as_slice()),
            Token::BlockEnd,
        ]
    );
}

#[test]
fn blocks_5() {
    let toks = tokens("p{}");
    assert_eq!(
        toks,
        vec![Token::TypeSelector(b"p".as_slice()), Token::BlockStart, Token::BlockEnd]
    );
}

#[test]
fn declarations_1() {
    let vec = vec![
        "p {color:red}",
        "p {color:red;}",
        "p {color:red }",
        "p { color: red; }",
        "p { color : red ; }",
        "p {  color  :  red  ;  } ",
        "p { color : red ; }",
    ];

    for css in vec {
        let mut t = Tokenizer::new(css);
        assert_eq!(t.parse_next().unwrap(), Token::TypeSelector(b"p".as_slice()));
        assert_eq!(t.parse_next().unwrap(), Token::BlockStart);
        assert_eq!(
            t.parse_next().unwrap(),
            Token::Declaration(b"color".as_slice(), b"red".as_slice())
        );
        assert_eq!(t.parse_next().unwrap(), Token::BlockEnd);
        assert_eq!(t.parse_next().unwrap(), Token::EndOfStream);
    }
}

#[test]
fn declarations_2() {
    let toks = tokens("p { color:red;;;;color:red; }");
    assert_eq!(
        toks,
        vec![
            Token::TypeSelector(b"p".as_slice()),
            Token::BlockStart,
            Token::Declaration(b"color".as_slice(), b"red".as_slice()),
            Token::Declaration(b"color".as_slice(), b"red".as_slice()),
            Token::BlockEnd,
        ]
    );
}

#[test]
fn declarations_3() {
    let toks = tokens("* {list-style-image: url(\"img.png\");}");
    assert_eq!(
        toks,
        vec![
            Token::UniversalSelector,
            Token::BlockStart,
            Token::Declaration(b"list-style-image".as_slice(), b"url(\"img.png\")".as_slice()),
            Token::BlockEnd,
        ]
    );
}

#[test]
fn declarations_4() {
    let toks = tokens("* { color: white ! important; }");
    assert_eq!(
        toks,
        vec![
            Token::UniversalSelector,
            Token::BlockStart,
            Token::Declaration(b"color".as_slice(), b"white ! important".as_slice()),
            Token::BlockEnd,
        ]
    );
}

#[test]
fn declarations_5() {
    let toks = tokens(
        "* { border: 1em solid blue; background: navy url(support/diamond.png) -2em -2em no-repeat }",
    );
    assert_eq!(
        toks,
        vec![
            Token::UniversalSelector,
            Token::BlockStart,
            Token::Declaration(b"border".as_slice(), b"1em solid blue".as_slice()),
            Token::Declaration(
                b"background".as_slice(),
                b"navy url(support/diamond.png) -2em -2em no-repeat".as_slice()
            ),
            Token::BlockEnd,
        ]
    );
}

#[test]
fn declarations_6() {
    let toks = tokens("* {stroke-width:2}");
    assert_eq!(
        toks,
        vec![
            Token::UniversalSelector,
            Token::BlockStart,
            Token::Declaration(b"stroke-width".as_slice(), b"2".as_slice()),
            Token::BlockEnd,
        ]
    );
}

#[test]
fn comment_1() {
    let toks = tokens("/* .test { color: green ! important; } */\n    * { color: red; }");
    assert_eq!(
        toks,
        vec![
            Token::UniversalSelector,
            Token::BlockStart,
            Token::Declaration(b"color".as_slice(), b"red".as_slice()),
            Token::BlockEnd,
        ]
    );
}

#[test]
fn comment_3() {
    let toks = tokens("p /* comment */ div { color:red }");
    assert_eq!(
        toks,
        vec![
            Token::TypeSelector(b"p".as_slice()),
            Token::Combinator(Combinator::Space),
            Token::TypeSelector(b"div".as_slice()),
            Token::BlockStart,
            Token::Declaration(b"color".as_slice(), b"red".as_slice()),
            Token::BlockEnd,
        ]
    );
}

#[test]
fn comment_6() {
    let toks = tokens("div { /* *\\/*/color: red; }");
    assert_eq!(
        toks,
        vec![
            Token::TypeSelector(b"div".as_slice()),
            Token::BlockStart,
            Token::Declaration(b"color".as_slice(), b"red".as_slice()),
            Token::BlockEnd,
        ]
    );
}

#[test]
fn comment_7() {
    let toks = tokens(
        "/*Comment*/div/*Comment*/\n{\n  /*Comment*/color/*Comment*/: /*Comment*/red;\n  /*Comment*/\n}/*Comment*/",
    );
    assert_eq!(
        toks,
        vec![
            Token::TypeSelector(b"div".as_slice()),
            Token::BlockStart,
            Token::Declaration(b"color".as_slice(), b"red".as_slice()),
            Token::BlockEnd,
        ]
    );
}

#[test]
fn comment_8() {
    let toks = tokens(" /*\n   * Comment\n   */\n  div\n {\n    color : red\n }");
    assert_eq!(
        toks,
        vec![
            Token::TypeSelector(b"div".as_slice()),
            Token::BlockStart,
            Token::Declaration(b"color".as_slice(), b"red".as_slice()),
            Token::BlockEnd,
        ]
    );
}

#[test]
fn invalid_2() {
    let mut t = Tokenizer::new("# div1");
    assert_eq!(t.parse_next().unwrap_err(), Error::UnknownToken(ErrorPos::new(1, 2)));
}

#[test]
fn invalid_5() {
    let mut t = Tokenizer::new("div { {color: red;} }");
    assert_eq!(t.parse_next().unwrap(), Token::TypeSelector(b"div".as_slice()));
    assert_eq!(t.parse_next().unwrap(), Token::BlockStart);
    assert_eq!(t.parse_next().unwrap_err(), Error::UnknownToken(ErrorPos::new(1, 7)));
}

#[test]
fn invalid_6() {
    let mut t = Tokenizer::new("div { (color: red;) }");
    assert_eq!(t.parse_next().unwrap(), Token::TypeSelector(b"div".as_slice()));
    assert_eq!(t.parse_next().unwrap(), Token::BlockStart);
    assert_eq!(t.parse_next().unwrap_err(), Error::UnknownToken(ErrorPos::new(1, 7)));
}

#[test]
fn invalid_7() {
    let mut t = Tokenizer::new("div { [color: red;] }");
    assert_eq!(t.parse_next().unwrap(), Token::TypeSelector(b"div".as_slice()));
    assert_eq!(t.parse_next().unwrap(), Token::BlockStart);
    assert_eq!(t.parse_next().unwrap_err(), Error::UnknownToken(ErrorPos::new(1, 7)));
}

#[test]
fn invalid_8() {
    let mut t = Tokenizer::new("div { color: }");
    assert_eq!(t.parse_next().unwrap(), Token::TypeSelector(b"div".as_slice()));
    assert_eq!(t.parse_next().unwrap(), Token::BlockStart);
    assert_eq!(t.parse_next().unwrap_err(), Error::UnknownToken(ErrorPos::new(1, 14)));
}

#[test]
fn invalid_9() {
    let mut t = Tokenizer::new("div");
    assert_eq!(t.parse_next().unwrap(), Token::TypeSelector(b"div".as_slice()));
    assert_eq!(t.parse_next().unwrap(), Token::EndOfStream);
}

#[test]
fn invalid_10() {
    let mut t = Tokenizer::new("div { /\\*;color: green;*/ }");
    assert_eq!(t.parse_next().unwrap(), Token::TypeSelector(b"div".as_slice()));
    assert_eq!(t.parse_next().unwrap(), Token::BlockStart);
    assert_eq!(t.parse_next().unwrap_err(), Error::UnknownToken(ErrorPos::new(1, 8)));
}

#[test]
fn invalid_11() {
    let mut t = Tokenizer::new("div { /*\\*/*/color: red; }");
    assert_eq!(t.parse_next().unwrap(), Token::TypeSelector(b"div".as_slice()));
    assert_eq!(t.parse_next().unwrap(), Token::BlockStart);
    assert_eq!(t.parse_next().unwrap_err(), Error::UnknownToken(ErrorPos::new(1, 12)));
}

#[test]
fn invalid_12() {
    let mut t = Tokenizer::new(".平和 { color: red; }");
    assert_eq!(t.parse_next().unwrap_err(), Error::UnknownToken(ErrorPos::new(1, 2)));
}

#[test]
fn invalid_14() {
    let mut t = Tokenizer::new(
        "div\n{\n    \"this is a string]}\"\"[{\\\"'\";  /*should be parsed as a string but be ignored*/\n    {{}}[]'';                     /*should be parsed as nested blocks and a string but be ignored*/\n    color: green;\n}",
    );
    assert_eq!(t.parse_next().unwrap(), Token::TypeSelector(b"div".as_slice()));
    assert_eq!(t.parse_next().unwrap(), Token::BlockStart);
    assert_eq!(t.parse_next().unwrap_err(), Error::UnknownToken(ErrorPos::new(3, 5)));
}

#[test]
fn invalid_17() {
    let mut t = Tokenizer::new(" ");
    assert_eq!(t.parse_next().unwrap(), Token::EndOfStream);
}

#[test]
fn invalid_18() {
    let mut t = Tokenizer::new("div > >");
    assert_eq!(t.parse_next().unwrap(), Token::TypeSelector(b"div".as_slice()));
    assert_eq!(t.parse_next().unwrap(), Token::Combinator(Combinator::GreaterThan));
    assert_eq!(t.parse_next().unwrap_err(), Error::UnknownToken(ErrorPos::new(1, 7)));
}

#[test]
fn at_rule_tokens() {
    let toks = tokens("@media print");
    assert_eq!(
        toks,
        vec![Token::AtRule(b"media".as_slice()), Token::AtStr(b"print".as_slice())]
    );
}

#[test]
fn declaration_str_before_nested_block() {
    let mut t = Tokenizer::new("div { abc {| }");
    assert_eq!(t.parse_next().unwrap(), Token::TypeSelector(b"div".as_slice()));
    assert_eq!(t.parse_next().unwrap(), Token::BlockStart);
    assert_eq!(t.parse_next().unwrap(), Token::DeclarationStr(b"abc".as_slice()));
}

#[test]
fn double_pseudo_class() {
    let mut t = Tokenizer::new("::before { color: red }");
    assert_eq!(
        t.parse_next().unwrap(),
        Token::DoublePseudoClass { selector: b"before".as_slice(), value: None }
    );
    assert_block_red(&mut t);
}

// inserting a comment at any whitespace-legal position between tokens leaves
// the token sequence unchanged
#[test]
fn comment_transparency() {
    let plain = tokens("div > p { color : red ; }");
    let commented = tokens("/*a*/div/*b*/ > /*c*/p/*d*/ { /*e*/color/*f*/: red ; /*g*/}");
    assert_eq!(plain, commented);
}

// trailing selector whitespace runs the stream out while the scanner looks
// for what the space joins
#[test]
fn trailing_space_after_selector() {
    let mut t = Tokenizer::new("div ");
    assert_eq!(t.parse_next().unwrap(), Token::TypeSelector(b"div".as_slice()));
    assert!(matches!(
        t.parse_next().unwrap_err(),
        Error::UnexpectedEndOfStream(_)
    ));
}
