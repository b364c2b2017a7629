use maud_parse::ops::{Diag, Escape, Fatal, Op};
use maud_parse::parse::parse;
use maud_parse::tokens::{Delim, Lit, Token};

fn chars(s: &str) -> Vec<char> {
    s.chars().collect()
}

fn ident(s: &str) -> Token {
    Token::Ident(chars(s))
}

fn lit_str(s: &str) -> Token {
    Token::Literal(Lit::Str(chars(s)))
}

fn brace(ts: Vec<Token>) -> Token {
    Token::Group(Delim::Brace, ts)
}

fn paren(ts: Vec<Token>) -> Token {
    Token::Group(Delim::Paren, ts)
}

fn bracket(ts: Vec<Token>) -> Token {
    Token::Group(Delim::Bracket, ts)
}

fn ok_ops(input: Vec<Token>) -> Vec<Op> {
    let p = parse(&input).expect("parse should succeed");
    assert!(p.diags.is_empty(), "unexpected diagnostics: {:?}", p.diags);
    p.ops
}

#[test]
fn empty_template() {
    let p = parse(&vec![]).expect("empty input parses");
    assert!(p.ops.is_empty());
    assert!(p.diags.is_empty());
}

#[test]
fn string_literal_text() {
    let ops = ok_ops(vec![lit_str("abc")]);
    assert_eq!(ops, vec![Op::AppendText(chars("abc"), Escape::Escape)]);
}

#[test]
fn char_literal_text() {
    let ops = ok_ops(vec![Token::Literal(Lit::Char('x'))]);
    assert_eq!(ops, vec![Op::AppendText(chars("x"), Escape::Escape)]);
}

#[test]
fn int_literal_text() {
    let ops = ok_ops(vec![Token::Literal(Lit::Int(42))]);
    assert_eq!(ops, vec![Op::AppendText(chars("42"), Escape::Escape)]);
}

#[test]
fn int_literal_zero_and_max() {
    let ops = ok_ops(vec![Token::Literal(Lit::Int(0)), Token::Literal(Lit::Int(u64::MAX))]);
    assert_eq!(
        ops,
        vec![
            Op::AppendText(chars("0"), Escape::Escape),
            Op::AppendText(chars("18446744073709551615"), Escape::Escape),
        ]
    );
}

#[test]
fn float_literal_text() {
    let ops = ok_ops(vec![Token::Literal(Lit::Float(chars("3.14")))]);
    assert_eq!(ops, vec![Op::AppendText(chars("3.14"), Escape::Escape)]);
}

#[test]
fn bool_literal_text() {
    let ops = ok_ops(vec![Token::Literal(Lit::Bool(true)), Token::Literal(Lit::Bool(false))]);
    assert_eq!(
        ops,
        vec![
            Op::AppendText(chars("true"), Escape::Escape),
            Op::AppendText(chars("false"), Escape::Escape),
        ]
    );
}

#[test]
fn binary_literal_rejected() {
    let p = parse(&vec![Token::Literal(Lit::ByteStr)]).expect("recoverable");
    assert!(p.ops.is_empty());
    assert_eq!(p.diags, vec![Diag::CannotSpliceBinary]);
    assert_eq!(Diag::CannotSpliceBinary.message(), "cannot splice binary data");
}

#[test]
fn byte_literal_rejected_with_minus_too() {
    let p = parse(&vec![Token::Minus, Token::Literal(Lit::Byte)]).expect("recoverable");
    assert!(p.ops.is_empty());
    assert_eq!(p.diags, vec![Diag::CannotSpliceBinary]);
}

#[test]
fn minus_prefixes_int() {
    let ops = ok_ops(vec![Token::Minus, Token::Literal(Lit::Int(5))]);
    assert_eq!(ops, vec![Op::AppendText(chars("-5"), Escape::Escape)]);
}

#[test]
fn minus_prefixes_any_kind() {
    let ops = ok_ops(vec![
        Token::Minus,
        lit_str("a"),
        Token::Minus,
        Token::Literal(Lit::Bool(true)),
        Token::Minus,
        Token::Literal(Lit::Float(chars("1.5"))),
    ]);
    assert_eq!(
        ops,
        vec![
            Op::AppendText(chars("-a"), Escape::Escape),
            Op::AppendText(chars("-true"), Escape::Escape),
            Op::AppendText(chars("-1.5"), Escape::Escape),
        ]
    );
}

#[test]
fn literal_only_round_trip() {
    let ops = ok_ops(vec![
        lit_str("a"),
        Token::Literal(Lit::Char('b')),
        Token::Literal(Lit::Int(7)),
        Token::Literal(Lit::Bool(true)),
    ]);
    let mut text = String::new();
    for op in &ops {
        match op {
            Op::AppendText(t, Escape::Escape) => text.extend(t.iter()),
            other => panic!("unexpected operation: {:?}", other),
        }
    }
    assert_eq!(text, "ab7true");
}

#[test]
fn semicolons_are_skipped() {
    let ops = ok_ops(vec![Token::Semi, lit_str("a"), Token::Semi]);
    assert_eq!(ops, vec![Op::AppendText(chars("a"), Escape::Escape)]);
}

#[test]
fn escaped_splice() {
    let ops = ok_ops(vec![Token::Dollar, ident("name")]);
    assert_eq!(ops, vec![Op::AppendExpr(vec![ident("name")], Escape::Escape)]);
}

#[test]
fn pass_through_splice() {
    let ops = ok_ops(vec![Token::Dollar, Token::Dollar, ident("name")]);
    assert_eq!(ops, vec![Op::AppendExpr(vec![ident("name")], Escape::PassThru)]);
}

#[test]
fn splice_chain_captured_contiguously() {
    let ops = ok_ops(vec![
        Token::Dollar,
        ident("a"),
        Token::Dot,
        ident("b"),
        Token::Dot,
        ident("c"),
        paren(vec![]),
        bracket(vec![Token::Literal(Lit::Int(0))]),
        Token::Semi,
    ]);
    assert_eq!(
        ops,
        vec![Op::AppendExpr(
            vec![
                ident("a"),
                Token::Dot,
                ident("b"),
                Token::Dot,
                ident("c"),
                paren(vec![]),
                bracket(vec![Token::Literal(Lit::Int(0))]),
            ],
            Escape::Escape,
        )]
    );
}

#[test]
fn splice_stops_at_first_non_matching_token() {
    let ops = ok_ops(vec![Token::Dollar, ident("a"), brace(vec![lit_str("x")])]);
    assert_eq!(
        ops,
        vec![
            Op::AppendExpr(vec![ident("a")], Escape::Escape),
            Op::Block(vec![Op::AppendText(chars("x"), Escape::Escape)]),
        ]
    );
}

#[test]
fn empty_splice_is_fatal() {
    let e = parse(&vec![Token::Dollar]).expect_err("splice without expression");
    assert_eq!(e.fatal, Fatal::ExpectedSpliceExpr);
    assert_eq!(e.fatal.message(), "expected expression for this splice");
}

#[test]
fn block_groups_units() {
    let ops = ok_ops(vec![brace(vec![lit_str("a"), lit_str("b")])]);
    assert_eq!(
        ops,
        vec![Op::Block(vec![
            Op::AppendText(chars("a"), Escape::Escape),
            Op::AppendText(chars("b"), Escape::Escape),
        ])]
    );
}

#[test]
fn element_with_body_emits_matching_tags() {
    let ops = ok_ops(vec![ident("p"), lit_str("hi")]);
    assert_eq!(
        ops,
        vec![
            Op::OpenTagStart(chars("p")),
            Op::OpenTagEnd,
            Op::AppendText(chars("hi"), Escape::Escape),
            Op::CloseTag(chars("p")),
        ]
    );
}

#[test]
fn element_block_body() {
    let ops = ok_ops(vec![
        ident("p"),
        brace(vec![lit_str("hi "), Token::Dollar, ident("name"), lit_str("!")]),
    ]);
    assert_eq!(
        ops,
        vec![
            Op::OpenTagStart(chars("p")),
            Op::OpenTagEnd,
            Op::Block(vec![
                Op::AppendText(chars("hi "), Escape::Escape),
                Op::AppendExpr(vec![ident("name")], Escape::Escape),
                Op::AppendText(chars("!"), Escape::Escape),
            ]),
            Op::CloseTag(chars("p")),
        ]
    );
}

#[test]
fn self_closing_element_emits_no_close() {
    let ops = ok_ops(vec![ident("br"), Token::Slash]);
    assert_eq!(ops, vec![Op::OpenTagStart(chars("br")), Op::OpenTagEnd]);
}

#[test]
fn void_element_without_slash_or_body_is_flagged() {
    let input = vec![
        ident("input"),
        ident("type"),
        Token::Equals,
        lit_str("checkbox"),
        ident("checked"),
        Token::Question,
    ];
    let p = parse(&input).expect("recoverable");
    assert_eq!(
        p.ops,
        vec![
            Op::OpenTagStart(chars("input")),
            Op::AttrStart(chars("type")),
            Op::AppendText(chars("checkbox"), Escape::Escape),
            Op::AttrEnd,
            Op::AttrEmpty(chars("checked")),
            Op::OpenTagEnd,
            Op::CloseTag(chars("input")),
        ]
    );
    assert_eq!(p.diags, vec![Diag::UnexpectedEndOfBlock]);
    assert_eq!(Diag::UnexpectedEndOfBlock.message(), "unexpected end of block");
}

#[test]
fn attribute_value_splice() {
    let ops = ok_ops(vec![
        ident("a"),
        ident("href"),
        Token::Equals,
        Token::Dollar,
        ident("url"),
        Token::Slash,
    ]);
    assert_eq!(
        ops,
        vec![
            Op::OpenTagStart(chars("a")),
            Op::AttrStart(chars("href")),
            Op::AppendExpr(vec![ident("url")], Escape::Escape),
            Op::AttrEnd,
            Op::OpenTagEnd,
        ]
    );
}

#[test]
fn empty_attribute_unconditional() {
    let ops = ok_ops(vec![ident("input"), ident("checked"), Token::Question, Token::Slash]);
    assert_eq!(
        ops,
        vec![
            Op::OpenTagStart(chars("input")),
            Op::AttrEmpty(chars("checked")),
            Op::OpenTagEnd,
        ]
    );
}

#[test]
fn toggled_attribute_strips_parens() {
    let ops = ok_ops(vec![
        ident("input"),
        ident("checked"),
        Token::Question,
        Token::Equals,
        paren(vec![ident("on")]),
        Token::Slash,
    ]);
    assert_eq!(
        ops,
        vec![
            Op::OpenTagStart(chars("input")),
            Op::If(vec![ident("on")], vec![Op::AttrEmpty(chars("checked"))], None),
            Op::OpenTagEnd,
        ]
    );
}

#[test]
fn toggled_attribute_strips_one_paren_layer_only() {
    let ops = ok_ops(vec![
        ident("input"),
        ident("checked"),
        Token::Question,
        Token::Equals,
        paren(vec![paren(vec![ident("on")])]),
        Token::Slash,
    ]);
    assert_eq!(
        ops,
        vec![
            Op::OpenTagStart(chars("input")),
            Op::If(
                vec![paren(vec![ident("on")])],
                vec![Op::AttrEmpty(chars("checked"))],
                None,
            ),
            Op::OpenTagEnd,
        ]
    );
}

#[test]
fn element_inside_attribute_value_rejected() {
    let input = vec![ident("a"), ident("x"), Token::Equals, ident("p"), Token::Slash];
    let p = parse(&input).expect("recoverable");
    assert_eq!(
        p.ops,
        vec![
            Op::OpenTagStart(chars("a")),
            Op::AttrStart(chars("x")),
            Op::AttrEnd,
            Op::OpenTagEnd,
        ]
    );
    assert_eq!(p.diags, vec![Diag::UnexpectedElement]);
    assert_eq!(Diag::UnexpectedElement.message(), "unexpected element, you silly bumpkin");
}

#[test]
fn if_without_else() {
    let ops = ok_ops(vec![
        Token::Dollar,
        ident("if"),
        ident("c"),
        brace(vec![lit_str("a")]),
    ]);
    assert_eq!(
        ops,
        vec![Op::If(
            vec![ident("c")],
            vec![Op::AppendText(chars("a"), Escape::Escape)],
            None,
        )]
    );
}

#[test]
fn if_else_if_else_chain_nests_one_level_per_link() {
    let ops = ok_ops(vec![
        Token::Dollar,
        ident("if"),
        ident("c"),
        brace(vec![lit_str("a")]),
        Token::Dollar,
        ident("else"),
        ident("if"),
        ident("d"),
        brace(vec![lit_str("b")]),
        Token::Dollar,
        ident("else"),
        brace(vec![lit_str("e")]),
    ]);
    assert_eq!(
        ops,
        vec![Op::If(
            vec![ident("c")],
            vec![Op::AppendText(chars("a"), Escape::Escape)],
            Some(vec![Op::If(
                vec![ident("d")],
                vec![Op::AppendText(chars("b"), Escape::Escape)],
                Some(vec![Op::AppendText(chars("e"), Escape::Escape)]),
            )]),
        )]
    );
}

#[test]
fn if_with_terminal_else() {
    let ops = ok_ops(vec![
        Token::Dollar,
        ident("if"),
        ident("c"),
        brace(vec![lit_str("a")]),
        Token::Dollar,
        ident("else"),
        brace(vec![lit_str("b")]),
    ]);
    assert_eq!(
        ops,
        vec![Op::If(
            vec![ident("c")],
            vec![Op::AppendText(chars("a"), Escape::Escape)],
            Some(vec![Op::AppendText(chars("b"), Escape::Escape)]),
        )]
    );
}

#[test]
fn if_without_body_is_fatal() {
    let e = parse(&vec![Token::Dollar, ident("if"), ident("c")]).expect_err("no body");
    assert_eq!(e.fatal, Fatal::ExpectedIfBody);
    assert_eq!(e.fatal.message(), "expected body for this `if`");
}

#[test]
fn invalid_else_is_fatal() {
    let e = parse(&vec![
        Token::Dollar,
        ident("if"),
        ident("c"),
        brace(vec![lit_str("a")]),
        Token::Dollar,
        ident("else"),
        ident("x"),
    ])
    .expect_err("bad else");
    assert_eq!(e.fatal, Fatal::InvalidElseSyntax);
    assert_eq!(e.fatal.message(), "invalid syntax");
}

#[test]
fn invalid_syntax_stops_with_diagnostic() {
    let p = parse(&vec![Token::Dot, lit_str("a")]).expect("recoverable");
    assert!(p.ops.is_empty());
    assert_eq!(p.diags, vec![Diag::InvalidSyntax]);
    assert_eq!(Diag::InvalidSyntax.message(), "invalid syntax");
}

#[test]
fn lit_to_string_matches_parse() {
    let r = maud_parse::text::lit_to_string(&Lit::Int(907), false).expect("int has text");
    assert_eq!(r, chars("907"));
    let r = maud_parse::text::lit_to_string(&Lit::Str(chars("x&y")), true).expect("text");
    assert_eq!(r, chars("-x&y"));
    assert!(maud_parse::text::lit_to_string(&Lit::ByteStr, false).is_none());
    assert!(maud_parse::text::lit_to_string(&Lit::Byte, true).is_none());
}
