//! The transaction compiler on source text. The Rust parser reads expressions and
//! statements; the compiler itself works on the result.

use blop_db::compiler::ast::{
    Binding, BinaryOp, Block, Expr, ExprKind, LetStmt, Literal, Member, Stmt, Suffix, UnaryOp,
};
use blop_db::compiler::bytecode::{encode, pool_index, Instruction};
use blop_db::compiler::compile::program::{
    compile, compile_source, CaptureValue, SourceError, Template,
};
use blop_db::compiler::error::CALL_SITE;
use blop_db::compiler::syntax::{
    find_declarations, starts_initializer, Delimiter, Program, Token, TokenKind,
};
use blop_db::compiler::types::Type;
use blop_db::bind::{bind_template, BuildError};
use blop_db::vm::transaction_tables;
use proc_macro2::{Group, Ident, Punct, Spacing, Span, TokenStream, TokenTree};
use quote::ToTokens;
use syn::parse::{ParseStream, Parser};

fn token(kind: TokenKind) -> Token {
    Token { span: 0, kind }
}

fn tree(tree: TokenTree) -> Token {
    token(match tree {
        TokenTree::Group(group) => {
            let delimiter = match group.delimiter() {
                proc_macro2::Delimiter::Parenthesis => Delimiter::Parenthesis,
                proc_macro2::Delimiter::Brace => Delimiter::Brace,
                proc_macro2::Delimiter::Bracket => Delimiter::Bracket,
                proc_macro2::Delimiter::None => Delimiter::Invisible,
            };
            TokenKind::Group(delimiter, tokens(group.stream()))
        }
        TokenTree::Ident(ident) => TokenKind::Ident(ident.to_string()),
        TokenTree::Punct(punct) => {
            TokenKind::Punct(punct.as_char(), punct.spacing() == Spacing::Joint)
        }
        TokenTree::Literal(literal) => {
            let text = literal.to_string();
            match syn::parse_str::<syn::LitInt>(&text) {
                Ok(integer) => TokenKind::Integer(text, integer.base10_parse().ok()),
                Err(_) => TokenKind::Literal(text),
            }
        }
    })
}

fn tokens(stream: TokenStream) -> Vec<Token> {
    stream.into_iter().map(tree).collect()
}

/// The tokens of a list of declarations, each initializer as one expression.
fn declarations(stream: TokenStream, count: &mut usize) -> syn::Result<Vec<Token>> {
    let parser = |input: ParseStream<'_>| {
        input.parse::<syn::Expr>()?;
        input.parse::<TokenStream>()
    };
    let trees: Vec<TokenTree> = stream.clone().into_iter().collect();
    let all = tokens(stream);
    let starts: Vec<bool> = (0..trees.len()).map(|at| starts_initializer(&all, at)).collect();
    let mut out = Vec::new();
    let mut rest = all.into_iter();
    let mut at = 0;
    while let Some(next) = rest.next() {
        out.push(next);
        at += 1;
        if starts[at - 1] {
            let remaining = parser.parse2(trees[at..].iter().cloned().collect())?;
            out.push(token(TokenKind::Expression(*count)));
            *count += 1;
            let end = trees.len() - remaining.into_iter().count();
            rest.by_ref().take(end - at).for_each(drop);
            at = end;
        }
    }
    Ok(out)
}

/// The tokens of a program.
fn program_tokens(stream: TokenStream) -> syn::Result<Vec<Token>> {
    let trees: Vec<TokenTree> = stream.clone().into_iter().collect();
    let mut out = tokens(stream);
    let mut count = 0;
    for group in find_declarations(&out) {
        if let TokenTree::Group(source) = &trees[group] {
            let inner = declarations(source.stream(), &mut count)?;
            out[group] = token(TokenKind::Group(Delimiter::Brace, inner));
        }
    }
    Ok(out)
}

fn stream(tokens: &[Token]) -> TokenStream {
    tokens
        .iter()
        .map(|token| match &token.kind {
            TokenKind::Ident(name) => {
                TokenTree::Ident(match name.strip_prefix("r#") {
                    Some(raw) => Ident::new_raw(raw, Span::call_site()),
                    None => Ident::new(name, Span::call_site()),
                })
            }
            TokenKind::Punct(c, joint) => TokenTree::Punct(Punct::new(
                *c,
                if *joint {
                    Spacing::Joint
                } else {
                    Spacing::Alone
                },
            )),
            TokenKind::Integer(text, _) | TokenKind::Literal(text) => {
                TokenTree::Literal(text.parse().unwrap())
            }
            TokenKind::Group(delimiter, inner) => {
                let delimiter = match delimiter {
                    Delimiter::Parenthesis => proc_macro2::Delimiter::Parenthesis,
                    Delimiter::Brace => proc_macro2::Delimiter::Brace,
                    Delimiter::Bracket => proc_macro2::Delimiter::Bracket,
                    Delimiter::Invisible => proc_macro2::Delimiter::None,
                };
                TokenTree::Group(Group::new(delimiter, stream(inner)))
            }
            TokenKind::Expression(_) => unreachable!("a body holds no initializer"),
        })
        .collect()
}

fn operator(op: &syn::BinOp) -> Option<(BinaryOp, bool)> {
    Some(match op {
        syn::BinOp::Add(_) => (BinaryOp::Add, false),
        syn::BinOp::Sub(_) => (BinaryOp::Sub, false),
        syn::BinOp::Mul(_) => (BinaryOp::Mul, false),
        syn::BinOp::Div(_) => (BinaryOp::Div, false),
        syn::BinOp::Rem(_) => (BinaryOp::Rem, false),
        syn::BinOp::And(_) => (BinaryOp::And, false),
        syn::BinOp::Or(_) => (BinaryOp::Or, false),
        syn::BinOp::BitAnd(_) => (BinaryOp::BitAnd, false),
        syn::BinOp::BitOr(_) => (BinaryOp::BitOr, false),
        syn::BinOp::BitXor(_) => (BinaryOp::BitXor, false),
        syn::BinOp::Shl(_) => (BinaryOp::Shl, false),
        syn::BinOp::Shr(_) => (BinaryOp::Shr, false),
        syn::BinOp::Eq(_) => (BinaryOp::Equal, false),
        syn::BinOp::Ne(_) => (BinaryOp::NotEqual, false),
        syn::BinOp::Lt(_) => (BinaryOp::Less, false),
        syn::BinOp::Le(_) => (BinaryOp::LessEqual, false),
        syn::BinOp::Gt(_) => (BinaryOp::Greater, false),
        syn::BinOp::Ge(_) => (BinaryOp::GreaterEqual, false),
        syn::BinOp::AddAssign(_) => (BinaryOp::Add, true),
        syn::BinOp::SubAssign(_) => (BinaryOp::Sub, true),
        syn::BinOp::MulAssign(_) => (BinaryOp::Mul, true),
        syn::BinOp::DivAssign(_) => (BinaryOp::Div, true),
        syn::BinOp::RemAssign(_) => (BinaryOp::Rem, true),
        syn::BinOp::BitAndAssign(_) => (BinaryOp::BitAnd, true),
        syn::BinOp::BitOrAssign(_) => (BinaryOp::BitOr, true),
        syn::BinOp::BitXorAssign(_) => (BinaryOp::BitXor, true),
        syn::BinOp::ShlAssign(_) => (BinaryOp::Shl, true),
        syn::BinOp::ShrAssign(_) => (BinaryOp::Shr, true),
        _ => return None,
    })
}

fn literal(literal: &syn::Lit) -> Literal {
    match literal {
        syn::Lit::Bool(value) => Literal::Bool(value.value),
        syn::Lit::Int(value) => Literal::Int(
            value.base10_parse().ok(),
            match value.suffix() {
                "" => Suffix::Absent,
                "i64" => Suffix::I64,
                "u64" => Suffix::U64,
                "u32" => Suffix::U32,
                "u16" => Suffix::U16,
                _ => Suffix::Other,
            },
        ),
        syn::Lit::Str(value) => Literal::Str(value.value()),
        syn::Lit::ByteStr(value) => Literal::ByteStr(value.value()),
        _ => Literal::Other,
    }
}

fn boxed(source: &syn::Expr) -> Box<Expr> {
    Box::new(expression(source))
}

fn expression(source: &syn::Expr) -> Expr {
    let kind = match source {
        syn::Expr::Paren(paren) => ExprKind::Paren(boxed(&paren.expr)),
        syn::Expr::Group(group) => ExprKind::Paren(boxed(&group.expr)),
        syn::Expr::Path(path) => match path.path.get_ident() {
            Some(name) if path.qself.is_none() => ExprKind::Name(name.to_string()),
            _ => ExprKind::Path,
        },
        syn::Expr::Lit(value) => ExprKind::Literal(literal(&value.lit)),
        syn::Expr::Unary(unary) => ExprKind::Unary(
            match unary.op {
                syn::UnOp::Neg(_) => UnaryOp::Neg,
                syn::UnOp::Not(_) => UnaryOp::Not,
                _ => UnaryOp::Other,
            },
            boxed(&unary.expr),
        ),
        syn::Expr::Binary(binary) => match operator(&binary.op) {
            Some((op, false)) => {
                ExprKind::Binary(op, boxed(&binary.left), boxed(&binary.right))
            }
            Some((op, true)) => {
                ExprKind::Assign(Some(op), boxed(&binary.left), boxed(&binary.right))
            }
            None => ExprKind::Other,
        },
        syn::Expr::Index(index) => ExprKind::Index(boxed(&index.expr), boxed(&index.index)),
        syn::Expr::Tuple(tuple) => ExprKind::Tuple(tuple.elems.iter().map(expression).collect()),
        syn::Expr::Field(field) => ExprKind::Field(
            boxed(&field.base),
            match &field.member {
                syn::Member::Unnamed(index) => Member::Index(index.index),
                syn::Member::Named(_) => Member::Named,
            },
        ),
        syn::Expr::Call(call) => ExprKind::Call(
            boxed(&call.func),
            call.args.iter().map(expression).collect(),
        ),
        syn::Expr::Assign(assign) => {
            ExprKind::Assign(None, boxed(&assign.left), boxed(&assign.right))
        }
        syn::Expr::If(branch) => ExprKind::If(
            boxed(&branch.cond),
            block(&branch.then_branch),
            branch
                .else_branch
                .as_ref()
                .map(|(_, alternative)| boxed(alternative)),
        ),
        syn::Expr::Block(inner) if inner.label.is_none() => ExprKind::Block(block(&inner.block)),
        syn::Expr::Return(value) => {
            ExprKind::Return(value.expr.as_ref().map(|value| boxed(value)))
        }
        _ => ExprKind::Other,
    };
    Expr { span: 0, kind }
}

fn statement(source: &syn::Stmt) -> Stmt {
    match source {
        syn::Stmt::Local(local) => {
            let (pattern, annotation) = match &local.pat {
                syn::Pat::Type(typed) => {
                    (&*typed.pat, Some(tokens(typed.ty.to_token_stream())))
                }
                pattern => (pattern, None),
            };
            let binding = match pattern {
                syn::Pat::Ident(name) => Some(Binding {
                    span: 0,
                    name: name.ident.to_string(),
                    mutable: name.mutability.is_some(),
                    refined: name.by_ref.is_some() || name.subpat.is_some(),
                }),
                _ => None,
            };
            Stmt::Let(LetStmt {
                span: 0,
                pattern: 0,
                binding,
                annotation,
                init: local.init.as_ref().map(|init| expression(&init.expr)),
                diverges: local
                    .init
                    .as_ref()
                    .is_some_and(|init| init.diverge.is_some()),
            })
        }
        syn::Stmt::Expr(value, _) => Stmt::Expr(expression(value)),
        _ => Stmt::Other(0),
    }
}

fn block(source: &syn::Block) -> Block {
    Block {
        span: 0,
        stmts: source.stmts.iter().map(statement).collect(),
    }
}

fn check(source: &str) -> Result<Template, String> {
    let read = source
        .parse::<TokenStream>()
        .map_err(|error| error.to_string())?;
    let read = program_tokens(read).map_err(|error| error.to_string())?;
    match compile_source(&read, CALL_SITE, statements) {
        Ok((_, template)) => Ok(template),
        Err(SourceError::Read(error)) => Err(error.to_string()),
        Err(SourceError::Compile(error)) => Err(error.message()),
    }
}

/// The statements of a body.
fn statements(body: &Vec<Token>) -> syn::Result<Block> {
    let body = TokenTree::Group(Group::new(proc_macro2::Delimiter::Brace, stream(body))).into();
    Ok(block(&syn::parse2::<syn::Block>(body)?))
}

#[test]
fn rejects_unsupported_computation_and_implicit_captures() {
    for (source, diagnostic) in [
        ("return outside;", "external values must be declared"),
        ("return $outside;", "unknown capture"),
        ("return $1;", "expected a capture name"),
        ("loop {}", "unsupported VM expression"),
        ("while true {}", "unsupported VM expression"),
        ("for x in 0..2 {}", "unsupported VM expression"),
        (
            "return arbitrary_rust_function();",
            "Rust function calls are not allowed",
        ),
        ("return std::time::Instant::now();", "expected a VM name"),
        ("println!(\"hello\");", "Rust items and macros cannot run"),
        ("fn helper() {}", "Rust items and macros cannot run"),
        ("return 1 as u64;", "unsupported VM expression"),
        (
            "let x = if true { 1 } else { 2 };",
            "unsupported VM expression",
        ),
    ] {
        let error = check(source).unwrap_err();
        assert!(error.contains(diagnostic), "{source}: {error}");
    }
}

#[test]
fn rejects_invalid_types_bindings_and_control_flow() {
    for (source, diagnostic) in [
        ("captures { unbounded: u64 = 1 }", "reserved VM keyword"),
        ("captures { abort: i64 = 1 }", "reserved VM keyword"),
        ("let unbounded = 1;", "reserved VM keyword"),
        ("let abort = 1;", "reserved VM keyword"),
        (
            "tables { unbounded: u64 => i64 = 1 }",
            "reserved VM keyword",
        ),
        ("#[cfg(any())] let x = 1;", "attributes are not supported"),
        ("#[allow(unused)] return;", "attributes are not supported"),
        ("if 1 { abort; }", "VM type mismatch"),
        ("require(1);", "VM type mismatch"),
        ("require();", "require(condition"),
        ("abort(4294967296);", "unsigned integer literal"),
        ("let code = 1; abort(code);", "unsigned integer literal"),
        ("-> u64 { return -1; }", "VM type mismatch"),
        ("return 1u64 + 1i64;", "VM type mismatch"),
        ("return true + false;", "invalid VM operands"),
        (
            "return bit_and(true, false);",
            "bitwise intrinsics require integers",
        ),
        ("return 1u32;", "only i64 and u64"),
        ("return 9223372036854775808;", "number too large"),
        ("return -9223372036854775809;", "outside i64"),
        ("return (1,).1;", "tuple field index out of bounds"),
        ("let x; return x;", "must be initialized"),
        ("let x = 1; x = 2;", "immutable local"),
        ("captures { x: i64 = 1 } x = 2;", "immutable local"),
        ("if true { let x = 1; } return x;", "unknown VM local"),
        ("captures { x: i64 = 1, x: i64 = 2 }", "duplicate capture"),
        ("let mut x = 1; x = true;", "VM type mismatch"),
        ("-> i64 { if true { return 1; } }", "not every path"),
        (
            "if true { return 1; } else { return false; }",
            "VM type mismatch",
        ),
        ("-> i64 { return; }", "return requires a value"),
        ("return; return;", "unreachable VM statement"),
        ("abort; require(true);", "unreachable VM statement"),
        (
            "if true { return; } else { abort; } return;",
            "unreachable VM statement",
        ),
    ] {
        let error = check(source).unwrap_err();
        assert!(error.contains(diagnostic), "{source}: {error}");
    }
}

#[test]
fn rejects_invalid_schemas_and_scan_operands() {
    for (source, diagnostic) in [
        (
            "captures { x: rows<u64, i64, 1> = value }",
            "Rows in a schema/capture",
        ),
        (
            "-> (rows<u64, i64, 1>,) { abort; }",
            "Rows in a schema/capture",
        ),
        (
            "captures { x: bytes<16777213> = value }",
            "exceeds ISA 1 bounds",
        ),
        ("tables { t: bytes<512> => i64 = 1 }", "key schema exceeds"),
        (
            "tables { t: u64 => rows<u64, i64, 1> = 1 }",
            "Rows in a schema/capture",
        ),
        ("return missing[0];", "unknown table"),
        (
            "tables { t: u64 => i64 = 1 } t[true] = 1;",
            "VM type mismatch",
        ),
        (
            "tables { t: u64 => i64 = 1 } insert(t[1], true);",
            "VM type mismatch",
        ),
        (
            "tables { t: u64 => i64 = 1 } scan_bounded(t, unbounded, unbounded, 1, 1, 1);",
            "cannot be inclusive",
        ),
        (
            "tables { t: u64 => i64 = 1 } scan_bounded(t, 0, 1, 4, 1, 1);",
            "unsigned integer literal",
        ),
        (
            "tables { t: u64 => i64 = 1 } scan_bounded(t, 0, 1, 0, 65536, 1);",
            "unsigned integer literal",
        ),
        (
            "tables { t: u64 => i64 = 1 } let n = 1; scan_bounded(t, 0, 1, 0, n, 1);",
            "unsigned integer literal",
        ),
        (
            "tables { t: u64 => i64 = 1 } let r = scan_bounded(t, 0, 1, 0, 1, 1); return r == r;",
            "invalid VM operands",
        ),
    ] {
        let error = check(source).unwrap_err();
        assert!(error.contains(diagnostic), "{source}: {error}");
    }
}

#[test]
fn enforces_type_depth_tuple_arity_and_pool_limits() {
    let nested = |count| format!("{}u64{}", "(".repeat(count), ",)".repeat(count));
    check(&format!("-> {} {{ abort; }}", nested(15))).unwrap();
    assert!(check(&format!("-> {} {{ abort; }}", nested(16))).is_err());
    check(&format!("return ({});", "0,".repeat(256))).unwrap();
    assert!(check(&format!("return ({});", "0,".repeat(257))).is_err());
    assert_eq!(pool_index(65_534, CALL_SITE).unwrap(), 65_534);
    assert!(pool_index(65_535, CALL_SITE).is_err());
    check("tables { t: bytes<511> => i64 = 1 } abort;").unwrap();
}

#[test]
fn accepts_opcode_aliases_and_rust_like_operator_precedence() {
    check(
        "captures { u: u64 = 2, s: i64 = -1, b: bool = true } {
        add_checked(u, 1); sub_checked(u, 1); mul_checked(u, 1);
        div_checked(u, 1); rem_checked(u, 1); neg_checked(s);
        eq(u, 1); lt(u, 1); le(u, 1); gt(u, 1); ge(u, 1);
        bool_not(b); bit_not(u); bit_and(u, 1); bit_or(u, 1); bit_xor(u, 1);
        require(b == (u > 1) || !b && 1 + 2 * 3 != 7);
        return;
    }",
    )
    .unwrap();
}

#[test]
fn compiles_the_smallest_program_to_its_exact_container() {
    // `return 42u64;`: one constant, one register and two instructions.
    let template = check("return 42u64;").unwrap();
    let expected: Vec<u8> = "42 4c 4f 50 56 4d 30 31 01 00 00 00 4f 00 00 00
        01 00 00 00 00 00 01 00 02 00 00 00 00 00 00 00
        03 00 00 00 01 00 03
        03 00 00 00 01 00 03
        03 00 00 00 01 00 03 08 00 00 00 2a 00 00 00 00 00 00 00
        01 00 04 00 00 00 00 00
        64 00 02 00 00 00"
        .split_ascii_whitespace()
        .map(|byte| u8::from_str_radix(byte, 16).unwrap())
        .collect();
    assert_eq!(expected.len(), 79);
    let transaction = template.bind(&vec![], &[]).unwrap();
    assert_eq!(transaction.program_bytes(), expected);
    assert_eq!(transaction.argument_bytes(), [0; 4]);
}

#[test]
fn initializers_need_no_space_behind_the_equals_sign() {
    let apart = check("captures { a: i64 = -5, b: bool = !true } tables { t: u64 => u64 = 1 } return a;");
    let close = check("captures { a: i64 =-5, b: bool =!true } tables { t: u64 => u64 =1 } return a;");
    assert_eq!(apart.unwrap(), close.unwrap());
}

#[test]
fn only_leading_sections_with_braces_hold_declarations() {
    let places = |source: &str| find_declarations(&tokens(source.parse().unwrap()));
    assert_eq!(places("captures { a: u64 = 1 } tables { t: u64 => u64 = 1 } return a;"), [1, 3]);
    assert_eq!(places("tables { t: u64 => u64 = 1 } return t[0];"), [1]);
    assert_eq!(places("captures { a: u64 = 1 } return a;"), [1]);
    assert_eq!(places("captures (a) tables { t: u64 => u64 = 1 }"), []);
    assert_eq!(places("return 1u64; tables { t: u64 => u64 = 1 }"), []);
    let starts = |source: &str| {
        let all = tokens(source.parse().unwrap());
        (0..all.len()).filter(|at| starts_initializer(&all, *at)).collect::<Vec<_>>()
    };
    assert_eq!(starts("a : i64 =-5"), [3]);
    assert_eq!(starts("t : u64 => u64 = 1"), [6]);
}

#[test]
fn a_source_is_compiled_from_the_body_that_its_tokens_spell() {
    let source = tokens("captures {} return 1u64;".parse().unwrap());
    // The reader is given what stands behind the sections, and its answer decides.
    let read = |body: &Vec<Token>| {
        assert_eq!(*body, tokens("return 1u64;".parse().unwrap()));
        statements(&tokens("return 2u64;".parse().unwrap()))
    };
    let (program, template) = compile_source(&source, CALL_SITE, read).unwrap();
    assert_eq!(template, check("return 2u64;").unwrap());
    assert_eq!(program, Program::parse(&source, CALL_SITE).unwrap());
    assert_eq!(template, compile(&program, &statements(&tokens("return 2u64;".parse().unwrap())).unwrap()).unwrap());
    // What the reader refuses is refused.
    assert_eq!(
        compile_source(&source, CALL_SITE, |_: &Vec<Token>| Err(7)),
        Err(SourceError::Read(7)),
    );
    // A program that cannot be read has no body to hand on.
    let ended = tokens("captures".parse().unwrap());
    let refused = compile_source(&ended, CALL_SITE, |_: &Vec<Token>| -> Result<Block, ()> {
        panic!("there is no body")
    });
    assert!(matches!(refused, Err(SourceError::Compile(_))));
}

#[test]
fn bound_programs_name_their_tables_in_ascending_order() {
    let template = check(
        "captures { request: u64 = 1, fail: bool = false, note: string<8> = \"x\" }
        tables { data: u64 => u64 = 1, requests: u64 => (u64, u64) = 2 }
        if exists(requests[request]) {
            let saved = requests[request];
            require(saved.0 == 7u64, 90);
            return saved.1;
        }
        let result = data[0] + request;
        data[0] = result;
        requests[request] = (7u64, result);
        require(!fail, 91);
        return result;",
    )
    .unwrap();
    let values = vec![
        CaptureValue::U64(5),
        CaptureValue::Bool(true),
        CaptureValue::String("ab".to_string()),
    ];
    let transaction = template.bind(&values, &[40, 7]).unwrap();
    assert_eq!(
        transaction_tables(transaction.program_bytes()),
        Ok(vec![7, 40])
    );
    assert_eq!(
        transaction.argument_bytes(),
        [
            3, 0, 0, 0, 8, 0, 0, 0, 5, 0, 0, 0, 0, 0, 0, 0, 1, 0, 0, 0, 1, 6, 0, 0, 0, 2, 0, 0, 0,
            b'a', b'b'
        ]
    );
    assert_eq!(
        template.bind(&values, &[7, 7]),
        Err(BuildError::DuplicateTableId(7))
    );
    let long = vec![
        CaptureValue::U64(5),
        CaptureValue::Bool(true),
        CaptureValue::String("123456789".to_string()),
    ];
    assert_eq!(
        template.bind(&long, &[40, 7]),
        Err(BuildError::BoundExceeded {
            max_bytes: 8,
            actual_bytes: 9
        })
    );
}

#[test]
fn diagnostics_write_types_out() {
    for (source, text) in [
        (
            "-> (u64, bytes<4>) { return true; }",
            "VM type mismatch: expected Tuple([U64, Bytes(4)]), found Bool",
        ),
        (
            "tables { t: u64 => i64 = 1 } let r = scan_bounded(t, 0, 1, 0, 3, 1); return r == r;",
            "invalid VM operands: Rows(U64, I64, 3) and Rows(U64, I64, 3)",
        ),
        ("return sha256(1, 2);", "sha256 requires 1 operands"),
        (
            "abort(4294967296);",
            "expected an unsigned integer literal no greater than 4294967295",
        ),
    ] {
        assert_eq!(check(source).unwrap_err(), text);
    }
}

#[test]
fn keywords_are_no_names_and_ended_input_is_told() {
    for (source, text) in [
        (
            "captures { fn: u64 = 1 } return 1;",
            "expected identifier, found keyword `fn`",
        ),
        (
            "tables { _: u64 => i64 = 1 } return 1;",
            "expected identifier, found keyword `_`",
        ),
        ("-> struct { return 1; }", "expected identifier, found keyword `struct`"),
        ("->", "unexpected end of input, expected identifier"),
        ("captures", "unexpected end of input, expected curly braces"),
        ("-> bytes<", "unexpected end of input, expected integer literal"),
        ("-> bytes<-1> { return 1; }", "invalid digit found in string"),
        ("-> bytes", "expected `<`"),
    ] {
        assert_eq!(check(source).err().unwrap(), text, "{source}");
    }
    assert!(check("captures { r#fn: u64 = 1 } return $r#fn;").is_ok());
    // A block inside the braces of a body is a scope of its own.
    assert!(check("{ { let a = 1; } return 1; }").is_ok());
}

#[test]
fn any_container_lists_its_table_operands_and_binds() {
    let instruction = |operands: Vec<u8>, table| Instruction {
        opcode: 0x40,
        operands,
        table,
    };
    let instructions = vec![
        instruction(vec![1, 0, 9, 9, 2, 0], Some((2, 1))),
        instruction(vec![3], None),
        instruction(vec![9, 9, 7, 0, 9, 9], Some((4, 0))),
    ];
    let encoded = encode(&Type::Unit, &vec![], &vec![], 2, &vec![], &instructions).unwrap();
    let length = encoded.bytes.len();
    let code = length - (10 + 5 + 10);
    assert_eq!(encoded.patches, vec![(code + 6, 1), (code + 15 + 8, 0)]);
    assert_eq!(
        encoded.bytes[12..16],
        u32::try_from(length).unwrap().to_le_bytes()
    );
    for ids in [[5, 9], [9, 5], [1, u64::MAX - 1]] {
        let bound = bind_template(
            &encoded.bytes,
            encoded.table_offset,
            &encoded.patches,
            &ids,
            vec![0; 4],
        )
        .unwrap();
        let program = bound.program_bytes();
        let slot = |id: u64| u16::from(ids.iter().any(|other| *other < id)).to_le_bytes();
        assert_eq!(program[code + 6..code + 8], slot(ids[1]));
        assert_eq!(program[code + 23..code + 25], slot(ids[0]));
    }
}
