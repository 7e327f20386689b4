//! Declarations of a transaction program, read from token trees.
//!
//! A program is an optional `captures { name: type = expression, .. }`
//! section, an optional `tables { name: key => value = expression, .. }`
//! section, an optional `-> type`, and a body. The initializers are Rust
//! expressions; they arrive as single tokens.

use super::error;
use super::error::{CompileError, Fault, Problem, Reason, Span};
use super::types;
use super::types::{key_size, validate_type, Shape, Type, INVALID_TYPE};
use crate::external::same_text;
use vstd::prelude::*;

verus! {

/// The brackets around a group of tokens.
#[derive(Clone, Copy, Debug, PartialEq, Eq, Structural)]
pub enum Delimiter {
    Parenthesis,
    Brace,
    Bracket,
    Invisible,
}

/// One token tree of a program.
#[derive(Debug, PartialEq, Eq)]
pub struct Token {
    pub span: Span,
    pub kind: TokenKind,
}

#[derive(Debug, PartialEq, Eq)]
pub enum TokenKind {
    Ident(String),
    /// A punctuation character, and whether another follows without a space.
    Punct(char, bool),
    /// An integer literal: its text, and its value where that fits.
    Integer(String, Option<u64>),
    /// Any other literal, by its text.
    Literal(String),
    Group(Delimiter, Vec<Token>),
    /// A complete Rust expression, known to the caller by its number.
    Expression(usize),
}

/// The model of a token tree.
pub struct Tree {
    pub span: Span,
    pub kind: TreeKind,
}

pub enum TreeKind {
    Ident(Seq<char>),
    Punct(char, bool),
    Integer(Seq<char>, Option<u64>),
    Literal(Seq<char>),
    Group(Delimiter, Seq<Tree>),
    Expression(usize),
}

impl Token {
    pub open spec fn view(self) -> Tree
        decreases self,
    {
        Tree {
            span: self.span,
            kind: match self.kind {
                TokenKind::Ident(name) => TreeKind::Ident(name@),
                TokenKind::Punct(c, joint) => TreeKind::Punct(c, joint),
                TokenKind::Integer(text, value) => TreeKind::Integer(text@, value),
                TokenKind::Literal(text) => TreeKind::Literal(text@),
                TokenKind::Group(delimiter, tokens) => TreeKind::Group(
                    delimiter,
                    Seq::new(
                        tokens@.len(),
                        |i: int|
                            if 0 <= i < tokens@.len() {
                                tokens@[i].view()
                            } else {
                                arbitrary()
                            },
                    ),
                ),
                TokenKind::Expression(n) => TreeKind::Expression(n),
            },
        }
    }
}

/// The models of `tokens`.
pub open spec fn trees(tokens: Seq<Token>) -> Seq<Tree> {
    tokens.map_values(|t: Token| t@)
}

/// The model of a group holds the models of its tokens.
pub proof fn lemma_group_view(token: Token)
    requires
        token.kind is Group,
    ensures
        token@.kind == TreeKind::Group(token.kind->Group_0, trees(token.kind->Group_1@)),
{
    assert(token@.kind->Group_1 =~= trees(token.kind->Group_1@));
}

/// A captured Rust value.
#[derive(Debug, PartialEq, Eq)]
pub struct Capture {
    pub span: Span,
    pub name: String,
    pub ty: Type,
    /// The number of the initializing expression.
    pub value: usize,
}

/// A declared table.
#[derive(Debug, PartialEq, Eq)]
pub struct Table {
    pub span: Span,
    pub name: String,
    pub key: Type,
    pub value: Type,
    /// The number of the expression that gives the table ID.
    pub id: usize,
}

/// The declarations and the body of a transaction program.
#[derive(Debug, PartialEq, Eq)]
pub struct Program {
    pub captures: Vec<Capture>,
    pub tables: Vec<Table>,
    pub result: Option<Type>,
    /// The statements of the body, with `$name` written `__capture(name)`.
    pub body: Vec<Token>,
}

/// The model of a [`Capture`].
pub struct CaptureModel {
    pub span: Span,
    pub name: Seq<char>,
    pub ty: Shape,
    pub value: usize,
}

/// The model of a [`Table`].
pub struct TableModel {
    pub span: Span,
    pub name: Seq<char>,
    pub key: Shape,
    pub value: Shape,
    pub id: usize,
}

/// The model of a [`Program`].
#[verifier::ext_equal]
pub struct ProgramModel {
    pub captures: Seq<CaptureModel>,
    pub tables: Seq<TableModel>,
    pub result: Option<Shape>,
    pub body: Seq<Tree>,
}

impl Capture {
    pub open spec fn view(self) -> CaptureModel {
        CaptureModel { span: self.span, name: self.name@, ty: self.ty@, value: self.value }
    }
}

impl Table {
    pub open spec fn view(self) -> TableModel {
        TableModel {
            span: self.span,
            name: self.name@,
            key: self.key@,
            value: self.value@,
            id: self.id,
        }
    }
}

/// The models of `captures`.
pub open spec fn capture_models(captures: Seq<Capture>) -> Seq<CaptureModel> {
    captures.map_values(|c: Capture| c@)
}

/// The models of `tables`.
pub open spec fn table_models(tables: Seq<Table>) -> Seq<TableModel> {
    tables.map_values(|t: Table| t@)
}

/// The model of an optional type.
pub open spec fn option_shape(ty: Option<Type>) -> Option<Shape> {
    match ty {
        Some(ty) => Some(ty@),
        None => None,
    }
}

impl Program {
    pub open spec fn view(self) -> ProgramModel {
        ProgramModel {
            captures: capture_models(self.captures@),
            tables: table_models(self.tables@),
            result: option_shape(self.result),
            body: trees(self.body@),
        }
    }
}

// ---- Tokens -------------------------------------------------------------

/// The span of the token at `at`, or `scope` at the end.
pub open spec fn span_at(tokens: Seq<Token>, at: int, scope: Span) -> Span {
    if 0 <= at < tokens.len() {
        tokens[at].span
    } else {
        scope
    }
}

/// Whether the token at `at` is the punctuation character `c`.
pub open spec fn is_punct(tokens: Seq<Token>, at: int, c: char) -> bool {
    &&& 0 <= at < tokens.len()
    &&& tokens[at].kind matches TokenKind::Punct(d, _)
    &&& d == c
}

/// Whether the tokens from `at` are `c` and `d` without a space between.
pub open spec fn is_punct2(tokens: Seq<Token>, at: int, c: char, d: char) -> bool {
    &&& 0 <= at < tokens.len()
    &&& tokens[at].kind matches TokenKind::Punct(x, joint)
    &&& x == c
    &&& joint
    &&& is_punct(tokens, at + 1, d)
}

/// The name at `at`, if there is one.
pub open spec fn ident_at(tokens: Seq<Token>, at: int) -> Option<Seq<char>> {
    if 0 <= at < tokens.len() {
        match tokens[at].kind {
            TokenKind::Ident(name) => Some(name@),
            _ => None,
        }
    } else {
        None
    }
}

/// The span of the token at `at`, or `scope` at the end.
fn span_of(tokens: &Vec<Token>, at: usize, scope: Span) -> (span: Span)
    ensures
        span == span_at(tokens@, at as int, scope),
{
    if at < tokens.len() {
        tokens[at].span
    } else {
        scope
    }
}

fn at_punct(tokens: &Vec<Token>, at: usize, c: char) -> (found: bool)
    ensures
        found == is_punct(tokens@, at as int, c),
{
    if at < tokens.len() {
        match &tokens[at].kind {
            TokenKind::Punct(d, _) => *d == c,
            _ => false,
        }
    } else {
        false
    }
}

fn at_punct2(tokens: &Vec<Token>, at: usize, c: char, d: char) -> (found: bool)
    ensures
        found == is_punct2(tokens@, at as int, c, d),
{
    if at < tokens.len() {
        match &tokens[at].kind {
            TokenKind::Punct(x, joint) => *x == c && *joint && at_punct(tokens, at + 1, d),
            _ => false,
        }
    } else {
        false
    }
}

/// Whether the token at `at` is the name `name`.
fn keyword(tokens: &Vec<Token>, at: usize, name: &str) -> (found: bool)
    ensures
        found == (ident_at(tokens@, at as int) == Some(name@)),
{
    if at < tokens.len() {
        match &tokens[at].kind {
            TokenKind::Ident(found) => same_text(found.as_str(), name),
            _ => false,
        }
    } else {
        false
    }
}

/// What is expected at `at` is not there.
pub open spec fn missing(tokens: Seq<Token>, at: int, scope: Span, text: &'static str) -> Fault {
    if 0 <= at < tokens.len() {
        error::fault(tokens[at].span, text)
    } else {
        Fault { span: scope, reason: Reason::Ended(text) }
    }
}

/// Report that what is expected at `at` is not there.
fn absent(tokens: &Vec<Token>, at: usize, scope: Span, text: &'static str) -> (error: CompileError)
    ensures
        error@ == missing(tokens@, at as int, scope, text),
{
    if at < tokens.len() {
        CompileError::rule(tokens[at].span, text)
    } else {
        CompileError { span: scope, problem: Problem::Ended(text) }
    }
}

/// Whether Rust keeps a word for itself, so that it cannot be a name.
pub open spec fn rust_keyword(name: Seq<char>) -> bool {
    ||| name == "_"@
    ||| name == "abstract"@
    ||| name == "as"@
    ||| name == "async"@
    ||| name == "await"@
    ||| name == "become"@
    ||| name == "box"@
    ||| name == "break"@
    ||| name == "const"@
    ||| name == "continue"@
    ||| name == "crate"@
    ||| name == "do"@
    ||| name == "dyn"@
    ||| name == "else"@
    ||| name == "enum"@
    ||| name == "extern"@
    ||| name == "false"@
    ||| name == "final"@
    ||| name == "fn"@
    ||| name == "for"@
    ||| name == "if"@
    ||| name == "impl"@
    ||| name == "in"@
    ||| name == "let"@
    ||| name == "loop"@
    ||| name == "macro"@
    ||| name == "match"@
    ||| name == "mod"@
    ||| name == "move"@
    ||| name == "mut"@
    ||| name == "override"@
    ||| name == "priv"@
    ||| name == "pub"@
    ||| name == "ref"@
    ||| name == "return"@
    ||| name == "Self"@
    ||| name == "self"@
    ||| name == "static"@
    ||| name == "struct"@
    ||| name == "super"@
    ||| name == "trait"@
    ||| name == "true"@
    ||| name == "try"@
    ||| name == "type"@
    ||| name == "typeof"@
    ||| name == "unsafe"@
    ||| name == "unsized"@
    ||| name == "use"@
    ||| name == "virtual"@
    ||| name == "where"@
    ||| name == "while"@
    ||| name == "yield"@
}

/// Whether Rust keeps a word for itself.
fn is_rust_keyword(name: &str) -> (found: bool)
    ensures
        found == rust_keyword(name@),
{
    same_text(name, "_")
        || same_text(name, "abstract")
        || same_text(name, "as")
        || same_text(name, "async")
        || same_text(name, "await")
        || same_text(name, "become")
        || same_text(name, "box")
        || same_text(name, "break")
        || same_text(name, "const")
        || same_text(name, "continue")
        || same_text(name, "crate")
        || same_text(name, "do")
        || same_text(name, "dyn")
        || same_text(name, "else")
        || same_text(name, "enum")
        || same_text(name, "extern")
        || same_text(name, "false")
        || same_text(name, "final")
        || same_text(name, "fn")
        || same_text(name, "for")
        || same_text(name, "if")
        || same_text(name, "impl")
        || same_text(name, "in")
        || same_text(name, "let")
        || same_text(name, "loop")
        || same_text(name, "macro")
        || same_text(name, "match")
        || same_text(name, "mod")
        || same_text(name, "move")
        || same_text(name, "mut")
        || same_text(name, "override")
        || same_text(name, "priv")
        || same_text(name, "pub")
        || same_text(name, "ref")
        || same_text(name, "return")
        || same_text(name, "Self")
        || same_text(name, "self")
        || same_text(name, "static")
        || same_text(name, "struct")
        || same_text(name, "super")
        || same_text(name, "trait")
        || same_text(name, "true")
        || same_text(name, "try")
        || same_text(name, "type")
        || same_text(name, "typeof")
        || same_text(name, "unsafe")
        || same_text(name, "unsized")
        || same_text(name, "use")
        || same_text(name, "virtual")
        || same_text(name, "where")
        || same_text(name, "while")
        || same_text(name, "yield")
}

// ---- Types --------------------------------------------------------------

/// The bound at `at`: an integer literal that fits `u32`.
pub open spec fn bound_at(tokens: Seq<Token>, at: int, scope: Span) -> Result<u32, Fault> {
    if 0 <= at < tokens.len() {
        match tokens[at].kind {
            TokenKind::Integer(_, Some(n)) => if n <= u32::MAX {
                Ok(n as u32)
            } else {
                Err(error::fault(tokens[at].span, "number too large to fit in target type"))
            },
            TokenKind::Integer(_, None) => Err(
                error::fault(tokens[at].span, "number too large to fit in target type"),
            ),
            TokenKind::Punct('-', _) => if at + 1 < tokens.len() && tokens[at + 1].kind is Integer {
                Err(error::fault(tokens[at].span, "invalid digit found in string"))
            } else {
                Err(error::fault(tokens[at].span, "expected integer literal"))
            },
            _ => Err(error::fault(tokens[at].span, "expected integer literal")),
        }
    } else {
        Err(missing(tokens, at, scope, "expected integer literal"))
    }
}

/// A type and the position behind it, or the first rule that is broken.
pub type Parsed = Result<(Shape, int), Fault>;

/// What follows a type that was read at `at`: it must keep the limits.
pub open spec fn checked(parsed: Parsed, span: Span) -> Parsed {
    match parsed {
        Ok((shape, next)) => if types::valid_type(shape, true) {
            Ok((shape, next))
        } else {
            Err(error::fault(span, INVALID_TYPE))
        },
        Err(e) => Err(e),
    }
}

/// The type at `at`, `depth` levels deep.
pub open spec fn type_at(tokens: Seq<Token>, at: int, depth: int, scope: Span) -> Parsed
    decreases tokens, tokens.len() - at, 1nat,
{
    let span = span_at(tokens, at, scope);
    if depth > 16 {
        Err(error::fault(span, "VM types may nest at most 16 levels"))
    } else {
        checked(unchecked_type_at(tokens, at, depth, scope), span)
    }
}

/// The type at `at`, before its limits are checked.
pub open spec fn unchecked_type_at(tokens: Seq<Token>, at: int, depth: int, scope: Span) -> Parsed
    decreases tokens, tokens.len() - at, 0nat,
{
    if !(0 <= at < tokens.len()) {
        Err(missing(tokens, at, scope, "expected identifier"))
    } else {
        match tokens[at].kind {
            TokenKind::Group(Delimiter::Parenthesis, inner) => if inner@.len() == 0 {
                Ok((Shape::Unit, at + 1))
            } else {
                match fields_at(inner@, 0, depth + 1, tokens[at].span) {
                    Ok(fields) => Ok((Shape::Tuple(fields), at + 1)),
                    Err(e) => Err(e),
                }
            },
            TokenKind::Ident(name) => if rust_keyword(name@) {
                Err(Fault { span: tokens[at].span, reason: Reason::Keyword(name@) })
            } else {
                named_type_at(tokens, at, name@, depth, scope)
            },
            _ => Err(error::fault(tokens[at].span, "expected identifier")),
        }
    }
}

/// The type named `name` at `at`, with its angle brackets where it has them.
pub open spec fn named_type_at(
    tokens: Seq<Token>,
    at: int,
    name: Seq<char>,
    depth: int,
    scope: Span,
) -> Parsed
    decreases tokens, tokens.len() - at - 1, 2nat,
{
    if !(0 <= at < tokens.len()) {
        Err(missing(tokens, at, scope, "expected identifier"))
    } else if name == "bool"@ {
        Ok((Shape::Bool, at + 1))
    } else if name == "i64"@ {
        Ok((Shape::I64, at + 1))
    } else if name == "u64"@ {
        Ok((Shape::U64, at + 1))
    } else if name == "bytes"@ || name == "string"@ {
        if !is_punct(tokens, at + 1, '<') {
            Err(error::fault(span_at(tokens, at + 1, scope), "expected `<`"))
        } else {
            match bound_at(tokens, at + 2, scope) {
                Err(e) => Err(e),
                Ok(bound) => if !is_punct(tokens, at + 3, '>') {
                    Err(error::fault(span_at(tokens, at + 3, scope), "expected `>`"))
                } else if name == "bytes"@ {
                    Ok((Shape::Bytes(bound), at + 4))
                } else {
                    Ok((Shape::String(bound), at + 4))
                },
            }
        }
    } else if name == "tuple"@ {
        if !is_punct(tokens, at + 1, '<') {
            Err(error::fault(span_at(tokens, at + 1, scope), "expected `<`"))
        } else if !is_punct(tokens, at + 2, '>') {
            Err(error::fault(span_at(tokens, at + 2, scope), "expected `>`"))
        } else {
            Ok((Shape::Tuple(Seq::empty()), at + 3))
        }
    } else if name == "rows"@ {
        if !is_punct(tokens, at + 1, '<') {
            Err(error::fault(span_at(tokens, at + 1, scope), "expected `<`"))
        } else {
            match type_at(tokens, at + 2, depth + 1, scope) {
                Err(e) => Err(e),
                Ok((key, after_key)) => if !is_punct(tokens, after_key, ',') {
                    Err(error::fault(span_at(tokens, after_key, scope), "expected `,`"))
                } else if after_key < at {
                    // Never taken: a type ends behind where it began.
                    arbitrary()
                } else {
                    match type_at(tokens, after_key + 1, depth + 1, scope) {
                        Err(e) => Err(e),
                        Ok((value, after_value)) => if !is_punct(tokens, after_value, ',') {
                            Err(error::fault(span_at(tokens, after_value, scope), "expected `,`"))
                        } else {
                            match bound_at(tokens, after_value + 1, scope) {
                                Err(e) => Err(e),
                                Ok(bound) => if !is_punct(tokens, after_value + 2, '>') {
                                    Err(
                                        error::fault(
                                            span_at(tokens, after_value + 2, scope),
                                            "expected `>`",
                                        ),
                                    )
                                } else {
                                    Ok(
                                        (
                                            Shape::Rows(Box::new(key), Box::new(value), bound),
                                            after_value + 3,
                                        ),
                                    )
                                },
                            }
                        },
                    }
                },
            }
        }
    } else {
        Err(error::fault(tokens[at].span, "unsupported VM type"))
    }
}

/// The tuple fields from `at` to the end of `tokens`. A comma must follow the
/// first; one may follow the last.
pub open spec fn fields_at(tokens: Seq<Token>, at: int, depth: int, scope: Span) -> Result<
    Seq<Shape>,
    Fault,
>
    decreases tokens, tokens.len() - at, 2nat,
{
    if at >= tokens.len() {
        Ok(Seq::empty())
    } else {
        match type_at(tokens, at, depth, scope) {
            Err(e) => Err(e),
            Ok((field, next)) => if next >= tokens.len() && at != 0 {
                Ok(seq![field])
            } else if !is_punct(tokens, next, ',') {
                Err(error::fault(span_at(tokens, next, scope), "expected `,`"))
            } else if next < at {
                // Never taken: a type ends behind where it began.
                arbitrary()
            } else {
                match fields_at(tokens, next + 1, depth, scope) {
                    Err(e) => Err(e),
                    Ok(rest) => Ok(seq![field] + rest),
                }
            },
        }
    }
}

/// A type that was read ends behind where it began.
pub proof fn lemma_type_advances(tokens: Seq<Token>, at: int, depth: int, scope: Span)
    requires
        0 <= at,
    ensures
        type_at(tokens, at, depth, scope) matches Ok((_, next)) ==> at < next <= tokens.len(),
    decreases tokens.len() - at,
{
    if 0 <= at < tokens.len() && tokens[at].kind is Ident && depth <= 16 {
        let name = tokens[at].kind->Ident_0@;
        if name == "rows"@ && is_punct(tokens, at + 1, '<') {
            lemma_type_advances(tokens, at + 2, depth + 1, scope);
            if let Ok((_, after_key)) = type_at(tokens, at + 2, depth + 1, scope) {
                if is_punct(tokens, after_key, ',') {
                    lemma_type_advances(tokens, after_key + 1, depth + 1, scope);
                }
            }
        }
    }
}

/// Read the type at `at`.
pub fn parse_type(tokens: &Vec<Token>, at: usize, scope: Span) -> (parsed: Result<
    (Type, usize),
    CompileError,
>)
    ensures
        match parsed {
            Ok((ty, next)) => type_at(tokens@, at as int, 1, scope) == Ok::<(Shape, int), Fault>(
                (ty@, next as int),
            ),
            Err(e) => type_at(tokens@, at as int, 1, scope) == Err::<(Shape, int), Fault>(e@),
        },
        parsed matches Ok((_, next)) ==> at < next <= tokens@.len(),
{
    parse_type_at_depth(tokens, at, 1, scope)
}

/// Read the bound at `at`.
fn parse_bound(tokens: &Vec<Token>, at: usize, scope: Span) -> (bound: Result<u32, CompileError>)
    ensures
        match bound {
            Ok(n) => bound_at(tokens@, at as int, scope) == Ok::<u32, Fault>(n),
            Err(e) => bound_at(tokens@, at as int, scope) == Err::<u32, Fault>(e@),
        },
        bound is Ok ==> at < tokens@.len(),
{
    let count: usize = tokens.len();
    if at >= count {
        return Err(absent(tokens, at, scope, "expected integer literal"));
    }
    match &tokens[at].kind {
        TokenKind::Integer(_, Some(n)) => {
            if *n <= u32::MAX as u64 {
                Ok(*n as u32)
            } else {
                Err(CompileError::rule(tokens[at].span, "number too large to fit in target type"))
            }
        },
        TokenKind::Integer(_, None) => {
            Err(CompileError::rule(tokens[at].span, "number too large to fit in target type"))
        },
        TokenKind::Punct('-', _) => {
            if at + 1 < count {
                if let TokenKind::Integer(_, _) = &tokens[at + 1].kind {
                    return Err(
                        CompileError::rule(tokens[at].span, "invalid digit found in string"),
                    );
                }
            }
            Err(CompileError::rule(tokens[at].span, "expected integer literal"))
        },
        _ => Err(CompileError::rule(tokens[at].span, "expected integer literal")),
    }
}

/// Require the punctuation character `c` at `at`.
fn expect(
    tokens: &Vec<Token>,
    at: usize,
    c: char,
    text: &'static str,
    scope: Span,
) -> (found: Result<(), CompileError>)
    ensures
        match found {
            Ok(()) => is_punct(tokens@, at as int, c),
            Err(e) => !is_punct(tokens@, at as int, c) && e@ == error::fault(
                span_at(tokens@, at as int, scope),
                text,
            ),
        },
{
    if at_punct(tokens, at, c) {
        Ok(())
    } else {
        Err(CompileError::rule(span_of(tokens, at, scope), text))
    }
}

/// Read the type at `at`, `depth` levels deep.
fn parse_type_at_depth(tokens: &Vec<Token>, at: usize, depth: u8, scope: Span) -> (parsed: Result<
    (Type, usize),
    CompileError,
>)
    requires
        depth <= 17,
    ensures
        match parsed {
            Ok((ty, next)) => type_at(tokens@, at as int, depth as int, scope) == Ok::<
                (Shape, int),
                Fault,
            >((ty@, next as int)),
            Err(e) => type_at(tokens@, at as int, depth as int, scope) == Err::<
                (Shape, int),
                Fault,
            >(e@),
        },
        parsed matches Ok((_, next)) ==> at < next <= tokens@.len(),
    decreases tokens@, tokens@.len() - at, 1nat,
{
    proof {
        lemma_type_advances(tokens@, at as int, depth as int, scope);
    }
    let span: Span = span_of(tokens, at, scope);
    if depth > 16 {
        return Err(CompileError::rule(span, "VM types may nest at most 16 levels"));
    }
    if at >= tokens.len() {
        return Err(absent(tokens, at, scope, "expected identifier"));
    }
    let (ty, next): (Type, usize) = match &tokens[at].kind {
        TokenKind::Group(Delimiter::Parenthesis, inner) => {
            if inner.len() == 0 {
                (Type::Unit, at + 1)
            } else {
                assert(decreases_to!(tokens@ => tokens@[at as int]));
                assert(decreases_to!(tokens@[at as int] => tokens@[at as int].kind));
                assert(decreases_to!(tokens@[at as int].kind => tokens@[at as int].kind->Group_1));
                let fields = parse_fields(inner, depth + 1, span)?;
                proof {
                    types::lemma_tuple_view(fields);
                }
                (Type::Tuple(fields), at + 1)
            }
        },
        TokenKind::Ident(name) => {
            if is_rust_keyword(name.as_str()) {
                return Err(CompileError { span, problem: Problem::Keyword(name.clone()) });
            }
            parse_named_type(tokens, at, name, depth, scope)?
        },
        _ => {
            return Err(CompileError::rule(span, "expected identifier"));
        },
    };
    validate_type(&ty, true, span)?;
    Ok((ty, next))
}

/// Read the type named `name` at `at`.
fn parse_named_type(
    tokens: &Vec<Token>,
    at: usize,
    name: &String,
    depth: u8,
    scope: Span,
) -> (parsed: Result<(Type, usize), CompileError>)
    requires
        depth <= 16,
        at < tokens@.len(),
        tokens@[at as int].kind == TokenKind::Ident(*name),
    ensures
        match parsed {
            Ok((ty, next)) => named_type_at(tokens@, at as int, name@, depth as int, scope) == Ok::<
                (Shape, int),
                Fault,
            >((ty@, next as int)),
            Err(e) => named_type_at(tokens@, at as int, name@, depth as int, scope) == Err::<
                (Shape, int),
                Fault,
            >(e@),
        },
        parsed matches Ok((_, next)) ==> at < next <= tokens@.len(),
    decreases tokens@, tokens@.len() - at - 1, 2nat,
{
    let name = name.as_str();
    let count: usize = tokens.len();
    assert(at < count);
    if same_text(name, "bool") {
        return Ok((Type::Bool, at + 1));
    }
    if same_text(name, "i64") {
        return Ok((Type::I64, at + 1));
    }
    if same_text(name, "u64") {
        return Ok((Type::U64, at + 1));
    }
    if same_text(name, "bytes") || same_text(name, "string") {
        expect(tokens, at + 1, '<', "expected `<`", scope)?;
        let bound: u32 = parse_bound(tokens, at + 2, scope)?;
        expect(tokens, at + 3, '>', "expected `>`", scope)?;
        let ty = if same_text(name, "bytes") {
            Type::Bytes(bound)
        } else {
            Type::String(bound)
        };
        return Ok((ty, at + 4));
    }
    if same_text(name, "tuple") {
        expect(tokens, at + 1, '<', "expected `<`", scope)?;
        expect(tokens, at + 2, '>', "expected `>`", scope)?;
        let fields: Vec<Type> = Vec::new();
        proof {
            types::lemma_tuple_view(fields);
            assert(types::shapes(fields@) =~= Seq::empty());
        }
        return Ok((Type::Tuple(fields), at + 3));
    }
    if same_text(name, "rows") {
        expect(tokens, at + 1, '<', "expected `<`", scope)?;
        let (key, after_key) = parse_type_at_depth(tokens, at + 2, depth + 1, scope)?;
        expect(tokens, after_key, ',', "expected `,`", scope)?;
        let (value, after_value) = parse_type_at_depth(tokens, after_key + 1, depth + 1, scope)?;
        expect(tokens, after_value, ',', "expected `,`", scope)?;
        let bound: u32 = parse_bound(tokens, after_value + 1, scope)?;
        expect(tokens, after_value + 2, '>', "expected `>`", scope)?;
        return Ok((Type::Rows(Box::new(key), Box::new(value), bound), after_value + 3));
    }
    Err(CompileError::rule(tokens[at].span, "unsupported VM type"))
}

/// Read the tuple fields in `tokens`.
fn parse_fields(tokens: &Vec<Token>, depth: u8, scope: Span) -> (parsed: Result<
    Vec<Type>,
    CompileError,
>)
    requires
        depth <= 17,
    ensures
        match parsed {
            Ok(fields) => fields_at(tokens@, 0, depth as int, scope) == Ok::<Seq<Shape>, Fault>(
                types::shapes(fields@),
            ),
            Err(e) => fields_at(tokens@, 0, depth as int, scope) == Err::<Seq<Shape>, Fault>(e@),
        },
    decreases tokens@, tokens@.len(), 2nat,
{
    let mut fields: Vec<Type> = Vec::new();
    let mut at: usize = 0;
    let ghost whole = fields_at(tokens@, 0, depth as int, scope);
    while at < tokens.len()
        invariant
            depth <= 17,
            at <= tokens@.len(),
            whole == fields_at(tokens@, 0, depth as int, scope),
            match fields_at(tokens@, at as int, depth as int, scope) {
                Ok(rest) => whole == Ok::<Seq<Shape>, Fault>(types::shapes(fields@) + rest),
                Err(e) => whole == Err::<Seq<Shape>, Fault>(e),
            },
        decreases tokens@.len() - at,
    {
        let (field, next) = parse_type_at_depth(tokens, at, depth, scope)?;
        let ghost done = types::shapes(fields@);
        fields.push(field);
        assert(types::shapes(fields@) =~= done + seq![field@]);
        if next >= tokens.len() && at != 0 {
            return Ok(fields);
        }
        expect(tokens, next, ',', "expected `,`", scope)?;
        at = next + 1;
        proof {
            if let Ok(rest) = fields_at(tokens@, at as int, depth as int, scope) {
                assert(types::shapes(fields@) + rest =~= done + (seq![field@] + rest));
            }
        }
    }
    assert(types::shapes(fields@) + Seq::empty() =~= types::shapes(fields@));
    Ok(fields)
}

// ---- Names --------------------------------------------------------------

pub const RESERVED_NAME: &'static str = "reserved VM keyword cannot be used as a binding name";

/// `name` without the `r#` marks in front of it.
pub open spec fn unraw(name: Seq<char>) -> Seq<char>
    decreases name.len(),
{
    if name.len() >= 2 && name[0] == 'r' && name[1] == '#' {
        unraw(name.subrange(2, name.len() as int))
    } else {
        name
    }
}

/// Whether `name` is a keyword of the language that no binding may have.
pub open spec fn reserved(name: Seq<char>) -> bool {
    unraw(name) == "abort"@ || unraw(name) == "unbounded"@
}

/// Check that `name` may be bound.
pub fn validate_name(name: &str, span: Span) -> (valid: Result<(), CompileError>)
    ensures
        match valid {
            Ok(()) => !reserved(name@),
            Err(e) => reserved(name@) && e@ == error::fault(span, RESERVED_NAME),
        },
{
    let mut rest: &str = name;
    let mut count: usize = rest.unicode_len();
    while count >= 2 && rest.get_char(0) == 'r' && rest.get_char(1) == '#'
        invariant
            unraw(rest@) == unraw(name@),
            count == rest@.len(),
        decreases count,
    {
        let next = rest.substring_char(2, count);
        rest = next;
        count = rest.unicode_len();
    }
    if same_text(rest, "abort") || same_text(rest, "unbounded") {
        Err(CompileError::rule(span, RESERVED_NAME))
    } else {
        Ok(())
    }
}

/// Whether a capture or a table already has the name `name`.
pub open spec fn declared(
    captures: Seq<CaptureModel>,
    tables: Seq<TableModel>,
    name: Seq<char>,
) -> bool {
    ||| exists|i: int| 0 <= i < captures.len() && #[trigger] captures[i].name == name
    ||| exists|i: int| 0 <= i < tables.len() && #[trigger] tables[i].name == name
}

/// Whether a capture or a table already has the name `name`.
fn is_declared(captures: &Vec<Capture>, tables: &Vec<Table>, name: &String) -> (found: bool)
    ensures
        found == declared(capture_models(captures@), table_models(tables@), name@),
{
    let ghost c = capture_models(captures@);
    let ghost t = table_models(tables@);
    let mut i: usize = 0;
    while i < captures.len()
        invariant
            c == capture_models(captures@),
            i <= captures@.len(),
            forall|k: int| 0 <= k < i ==> (#[trigger] c[k]).name != name@,
        decreases captures@.len() - i,
    {
        if same_text(captures[i].name.as_str(), name.as_str()) {
            assert(c[i as int].name == name@);
            return true;
        }
        i += 1;
    }
    let mut j: usize = 0;
    while j < tables.len()
        invariant
            t == table_models(tables@),
            j <= tables@.len(),
            forall|k: int| 0 <= k < j ==> (#[trigger] t[k]).name != name@,
        decreases tables@.len() - j,
    {
        if same_text(tables[j].name.as_str(), name.as_str()) {
            assert(t[j as int].name == name@);
            return true;
        }
        j += 1;
    }
    false
}

/// The name declared at `at`: neither a keyword, reserved nor declared before,
/// and with a colon behind it.
pub open spec fn name_at(
    tokens: Seq<Token>,
    at: int,
    scope: Span,
    captures: Seq<CaptureModel>,
    tables: Seq<TableModel>,
) -> Result<Seq<char>, Fault> {
    let span = span_at(tokens, at, scope);
    match ident_at(tokens, at) {
        None => Err(error::fault(span, "expected identifier")),
        Some(name) => if rust_keyword(name) {
            Err(Fault { span, reason: Reason::Keyword(name) })
        } else if reserved(name) {
            Err(error::fault(span, RESERVED_NAME))
        } else if declared(captures, tables, name) {
            Err(error::fault(span, "duplicate capture or table name"))
        } else if !is_punct(tokens, at + 1, ':') {
            Err(error::fault(span_at(tokens, at + 1, scope), "expected `:`"))
        } else {
            Ok(name)
        },
    }
}

/// Read the name declared at `at`.
fn unique_name(
    tokens: &Vec<Token>,
    at: usize,
    scope: Span,
    captures: &Vec<Capture>,
    tables: &Vec<Table>,
) -> (name: Result<String, CompileError>)
    requires
        at < tokens@.len(),
    ensures
        match name {
            Ok(name) => name_at(
                tokens@,
                at as int,
                scope,
                capture_models(captures@),
                table_models(tables@),
            ) == Ok::<Seq<char>, Fault>(name@),
            Err(e) => name_at(
                tokens@,
                at as int,
                scope,
                capture_models(captures@),
                table_models(tables@),
            ) == Err::<Seq<char>, Fault>(e@),
        },
        name is Ok ==> at + 1 < tokens@.len(),
{
    let count: usize = tokens.len();
    let span: Span = tokens[at].span;
    match &tokens[at].kind {
        TokenKind::Ident(name) => {
            if is_rust_keyword(name.as_str()) {
                return Err(CompileError { span, problem: Problem::Keyword(name.clone()) });
            }
            validate_name(name.as_str(), span)?;
            if is_declared(captures, tables, name) {
                return Err(CompileError::rule(span, "duplicate capture or table name"));
            }
            assert(at < count);
            expect(tokens, at + 1, ':', "expected `:`", scope)?;
            Ok(name.clone())
        },
        _ => Err(CompileError::rule(span, "expected identifier")),
    }
}

/// The initializer at `at`: an equals sign and an expression.
pub open spec fn initializer_at(tokens: Seq<Token>, at: int, scope: Span) -> Result<usize, Fault> {
    if !is_punct(tokens, at, '=') {
        Err(error::fault(span_at(tokens, at, scope), "expected `=`"))
    } else if at + 1 < tokens.len() && tokens[at + 1].kind is Expression {
        Ok(tokens[at + 1].kind->Expression_0)
    } else {
        Err(missing(tokens, at + 1, scope, "expected an expression"))
    }
}

/// Read the initializer at `at`.
fn parse_initializer(tokens: &Vec<Token>, at: usize, scope: Span) -> (value: Result<
    usize,
    CompileError,
>)
    ensures
        match value {
            Ok(n) => initializer_at(tokens@, at as int, scope) == Ok::<usize, Fault>(n),
            Err(e) => initializer_at(tokens@, at as int, scope) == Err::<usize, Fault>(e@),
        },
        value is Ok ==> at + 1 < tokens@.len(),
{
    let count: usize = tokens.len();
    expect(tokens, at, '=', "expected `=`", scope)?;
    assert(at < count);
    if at + 1 < count {
        if let TokenKind::Expression(n) = &tokens[at + 1].kind {
            return Ok(*n);
        }
    }
    Err(absent(tokens, at + 1, scope, "expected an expression"))
}

// ---- Sections -----------------------------------------------------------

/// The capture at `at` and the position behind it.
pub open spec fn capture_at(
    tokens: Seq<Token>,
    at: int,
    scope: Span,
    captures: Seq<CaptureModel>,
) -> Result<(CaptureModel, int), Fault> {
    let span = span_at(tokens, at, scope);
    match name_at(tokens, at, scope, captures, Seq::empty()) {
        Err(e) => Err(e),
        Ok(name) => match type_at(tokens, at + 2, 1, scope) {
            Err(e) => Err(e),
            Ok((ty, next)) => if !types::valid_type(ty, false) {
                Err(error::fault(span, INVALID_TYPE))
            } else {
                match initializer_at(tokens, next, scope) {
                    Err(e) => Err(e),
                    Ok(value) => Ok((CaptureModel { span, name, ty, value }, next + 2)),
                }
            },
        },
    }
}

/// The captures from `at`, behind those of `captures`.
pub open spec fn captures_at(
    tokens: Seq<Token>,
    at: int,
    scope: Span,
    captures: Seq<CaptureModel>,
) -> Result<Seq<CaptureModel>, Fault>
    decreases tokens.len() - at,
{
    if at >= tokens.len() {
        Ok(captures)
    } else {
        match capture_at(tokens, at, scope, captures) {
            Err(e) => Err(e),
            Ok((capture, next)) => if next >= tokens.len() {
                Ok(captures.push(capture))
            } else if !is_punct(tokens, next, ',') {
                Err(error::fault(span_at(tokens, next, scope), "expected `,`"))
            } else if next < at {
                // Never taken: a capture ends behind where it began.
                arbitrary()
            } else {
                captures_at(tokens, next + 1, scope, captures.push(capture))
            },
        }
    }
}

/// The table at `at` and the position behind it.
pub open spec fn table_at(
    tokens: Seq<Token>,
    at: int,
    scope: Span,
    captures: Seq<CaptureModel>,
    tables: Seq<TableModel>,
) -> Result<(TableModel, int), Fault> {
    let span = span_at(tokens, at, scope);
    match name_at(tokens, at, scope, captures, tables) {
        Err(e) => Err(e),
        Ok(name) => match type_at(tokens, at + 2, 1, scope) {
            Err(e) => Err(e),
            Ok((key, arrow)) => if !is_punct2(tokens, arrow, '=', '>') {
                Err(error::fault(span_at(tokens, arrow, scope), "expected `=>`"))
            } else {
                match type_at(tokens, arrow + 2, 1, scope) {
                    Err(e) => Err(e),
                    Ok((value, next)) => if !types::valid_type(key, false) || !types::valid_type(
                        value,
                        false,
                    ) {
                        Err(error::fault(span, INVALID_TYPE))
                    } else if types::key_extent(key) > 1024 {
                        Err(error::fault(span, "table key schema exceeds 1024 bytes"))
                    } else {
                        match initializer_at(tokens, next, scope) {
                            Err(e) => Err(e),
                            Ok(id) => Ok((TableModel { span, name, key, value, id }, next + 2)),
                        }
                    },
                }
            },
        },
    }
}

/// The tables from `at`, behind those of `tables`.
pub open spec fn tables_at(
    tokens: Seq<Token>,
    at: int,
    scope: Span,
    captures: Seq<CaptureModel>,
    tables: Seq<TableModel>,
) -> Result<Seq<TableModel>, Fault>
    decreases tokens.len() - at,
{
    if at >= tokens.len() {
        Ok(tables)
    } else {
        match table_at(tokens, at, scope, captures, tables) {
            Err(e) => Err(e),
            Ok((table, next)) => if next >= tokens.len() {
                Ok(tables.push(table))
            } else if !is_punct(tokens, next, ',') {
                Err(error::fault(span_at(tokens, next, scope), "expected `,`"))
            } else if next < at {
                // Never taken: a table ends behind where it began.
                arbitrary()
            } else {
                tables_at(tokens, next + 1, scope, captures, tables.push(table))
            },
        }
    }
}

/// Read the captures in `tokens`.
fn parse_captures(tokens: &Vec<Token>, scope: Span) -> (parsed: Result<Vec<Capture>, CompileError>)
    ensures
        match parsed {
            Ok(captures) => captures_at(tokens@, 0, scope, Seq::empty()) == Ok::<
                Seq<CaptureModel>,
                Fault,
            >(capture_models(captures@)),
            Err(e) => captures_at(tokens@, 0, scope, Seq::empty()) == Err::<
                Seq<CaptureModel>,
                Fault,
            >(e@),
        },
{
    let mut captures: Vec<Capture> = Vec::new();
    let tables: Vec<Table> = Vec::new();
    let mut at: usize = 0;
    proof {
        assert(capture_models(captures@) =~= Seq::empty());
        assert(table_models(tables@) =~= Seq::empty());
    }
    let count: usize = tokens.len();
    while at < count
        invariant
            count == tokens@.len(),
            at <= tokens@.len(),
            table_models(tables@) == Seq::<TableModel>::empty(),
            captures_at(tokens@, 0, scope, Seq::empty()) == captures_at(
                tokens@,
                at as int,
                scope,
                capture_models(captures@),
            ),
        decreases tokens@.len() - at,
    {
        let span: Span = tokens[at].span;
        let name = unique_name(tokens, at, scope, &captures, &tables)?;
        let (ty, next) = parse_type(tokens, at + 2, scope)?;
        validate_type(&ty, false, span)?;
        let value: usize = parse_initializer(tokens, next, scope)?;
        let ghost before = capture_models(captures@);
        captures.push(Capture { span, name, ty, value });
        assert(capture_models(captures@) =~= before.push(captures@.last()@));
        if next + 2 >= count {
            return Ok(captures);
        }
        expect(tokens, next + 2, ',', "expected `,`", scope)?;
        at = next + 3;
    }
    Ok(captures)
}

/// A type that may be a value has a bounded key.
pub proof fn lemma_key_extent(shape: Shape, depth: int)
    requires
        types::within(shape, depth, false),
    ensures
        types::key_extent(shape) <= 2 * types::max_size(shape),
    decreases shape,
{
    if let Shape::Tuple(fields) = shape {
        assert forall|i: int| 0 <= i < fields.len() implies types::key_extent(#[trigger] fields[i])
            <= 2 * types::max_size(fields[i]) by {
            lemma_key_extent(fields[i], depth + 1);
        }
        lemma_key_extents(fields, fields.len());
    }
}

proof fn lemma_key_extents(fields: Seq<Shape>, n: nat)
    requires
        n <= fields.len(),
        forall|i: int|
            0 <= i < fields.len() ==> types::key_extent(#[trigger] fields[i]) <= 2
                * types::max_size(fields[i]),
    ensures
        types::key_extents(fields, n) <= 2 * types::max_sizes(fields, n),
    decreases n,
{
    if n > 0 {
        lemma_key_extents(fields, (n - 1) as nat);
    }
}

/// Read the tables in `tokens`.
fn parse_tables(tokens: &Vec<Token>, scope: Span, captures: &Vec<Capture>) -> (parsed: Result<
    Vec<Table>,
    CompileError,
>)
    ensures
        match parsed {
            Ok(tables) => tables_at(
                tokens@,
                0,
                scope,
                capture_models(captures@),
                Seq::empty(),
            ) == Ok::<Seq<TableModel>, Fault>(table_models(tables@)),
            Err(e) => tables_at(
                tokens@,
                0,
                scope,
                capture_models(captures@),
                Seq::empty(),
            ) == Err::<Seq<TableModel>, Fault>(e@),
        },
{
    let mut tables: Vec<Table> = Vec::new();
    let mut at: usize = 0;
    proof {
        assert(table_models(tables@) =~= Seq::empty());
    }
    let ghost known = capture_models(captures@);
    let count: usize = tokens.len();
    while at < count
        invariant
            count == tokens@.len(),
            at <= tokens@.len(),
            known == capture_models(captures@),
            tables_at(tokens@, 0, scope, known, Seq::empty()) == tables_at(
                tokens@,
                at as int,
                scope,
                known,
                table_models(tables@),
            ),
        decreases tokens@.len() - at,
    {
        let span: Span = tokens[at].span;
        let name = unique_name(tokens, at, scope, captures, &tables)?;
        let (key, arrow) = parse_type(tokens, at + 2, scope)?;
        if !at_punct2(tokens, arrow, '=', '>') {
            return Err(CompileError::rule(span_of(tokens, arrow, scope), "expected `=>`"));
        }
        let (value, next) = parse_type(tokens, arrow + 2, scope)?;
        validate_type(&key, false, span)?;
        validate_type(&value, false, span)?;
        proof {
            lemma_key_extent(key@, 1);
        }
        if key_size(&key) > 1024 {
            return Err(CompileError::rule(span, "table key schema exceeds 1024 bytes"));
        }
        let id: usize = parse_initializer(tokens, next, scope)?;
        let ghost before = table_models(tables@);
        tables.push(Table { span, name, key, value, id });
        assert(table_models(tables@) =~= before.push(tables@.last()@));
        if next + 2 >= count {
            return Ok(tables);
        }
        expect(tokens, next + 2, ',', "expected `,`", scope)?;
        at = next + 3;
    }
    Ok(tables)
}

// ---- Body ---------------------------------------------------------------

/// Whether a capture has the name `name`.
pub open spec fn captured(captures: Seq<CaptureModel>, name: Seq<char>) -> bool {
    declared(captures, Seq::empty(), name)
}

/// The two tokens that stand for `$name`.
pub open spec fn marker(span: Span, name: Seq<char>) -> Seq<Tree> {
    seq![
        Tree { span, kind: TreeKind::Ident("__capture"@) },
        Tree {
            span,
            kind: TreeKind::Group(
                Delimiter::Parenthesis,
                seq![Tree { span, kind: TreeKind::Ident(name) }],
            ),
        },
    ]
}

/// The tokens from `at`, at every depth, with each `$name` of a capture
/// replaced by a call that names it. Attributes are not allowed.
pub open spec fn stripped(tokens: Seq<Token>, at: int, captures: Seq<CaptureModel>) -> Result<
    Seq<Tree>,
    Fault,
>
    decreases tokens, tokens.len() - at,
{
    if !(0 <= at < tokens.len()) {
        Ok(Seq::empty())
    } else if is_punct(tokens, at, '#') {
        Err(error::fault(tokens[at].span, "attributes are not supported in VM programs"))
    } else if is_punct(tokens, at, '$') {
        match ident_at(tokens, at + 1) {
            None => Err(error::fault(tokens[at].span, "expected a capture name after `$`")),
            Some(name) => if !captured(captures, name) {
                Err(error::fault(tokens[at + 1].span, "unknown capture"))
            } else {
                match stripped(tokens, at + 2, captures) {
                    Err(e) => Err(e),
                    Ok(rest) => Ok(marker(tokens[at + 1].span, name) + rest),
                }
            },
        }
    } else {
        match stripped_tree(tokens[at], captures) {
            Err(e) => Err(e),
            Ok(tree) => match stripped(tokens, at + 1, captures) {
                Err(e) => Err(e),
                Ok(rest) => Ok(seq![tree] + rest),
            },
        }
    }
}

/// One token with the capture marks inside it replaced.
pub open spec fn stripped_tree(token: Token, captures: Seq<CaptureModel>) -> Result<Tree, Fault>
    decreases token, 0int,
{
    match token.kind {
        TokenKind::Group(delimiter, inner) => match stripped(inner@, 0, captures) {
            Err(e) => Err(e),
            Ok(trees) => Ok(Tree { span: token.span, kind: TreeKind::Group(delimiter, trees) }),
        },
        _ => Ok(token@),
    }
}

/// Replace the capture marks in one token.
fn strip_token(token: &Token, captures: &Vec<Capture>) -> (result: Result<Token, CompileError>)
    ensures
        match result {
            Ok(tree) => stripped_tree(*token, capture_models(captures@)) == Ok::<Tree, Fault>(
                tree@,
            ),
            Err(e) => stripped_tree(*token, capture_models(captures@)) == Err::<Tree, Fault>(e@),
        },
    decreases token, 0int,
{
    let kind = match &token.kind {
        TokenKind::Ident(name) => TokenKind::Ident(name.clone()),
        TokenKind::Punct(c, joint) => TokenKind::Punct(*c, *joint),
        TokenKind::Integer(text, value) => TokenKind::Integer(text.clone(), *value),
        TokenKind::Literal(text) => TokenKind::Literal(text.clone()),
        TokenKind::Group(delimiter, inner) => {
            assert(decreases_to!(token => token.kind));
            assert(decreases_to!(token.kind => token.kind->Group_1));
            TokenKind::Group(*delimiter, strip_capture_markers(inner, captures)?)
        },
        TokenKind::Expression(n) => TokenKind::Expression(*n),
    };
    let tree = Token { span: token.span, kind };
    proof {
        if tree.kind is Group {
            lemma_group_view(tree);
        }
    }
    Ok(tree)
}

/// Replace each `$name` in `tokens`.
fn strip_capture_markers(tokens: &Vec<Token>, captures: &Vec<Capture>) -> (result: Result<
    Vec<Token>,
    CompileError,
>)
    ensures
        match result {
            Ok(out) => stripped(tokens@, 0, capture_models(captures@)) == Ok::<Seq<Tree>, Fault>(
                trees(out@),
            ),
            Err(e) => stripped(tokens@, 0, capture_models(captures@)) == Err::<Seq<Tree>, Fault>(
                e@,
            ),
        },
    decreases tokens@, 1int,
{
    strip_from(tokens, 0, captures)
}

/// Replace each `$name` in `tokens` from `start` on.
fn strip_from(tokens: &Vec<Token>, start: usize, captures: &Vec<Capture>) -> (result: Result<
    Vec<Token>,
    CompileError,
>)
    requires
        start <= tokens@.len(),
    ensures
        match result {
            Ok(out) => stripped(tokens@, start as int, capture_models(captures@)) == Ok::<
                Seq<Tree>,
                Fault,
            >(trees(out@)),
            Err(e) => stripped(tokens@, start as int, capture_models(captures@)) == Err::<
                Seq<Tree>,
                Fault,
            >(e@),
        },
    decreases tokens@, 0int,
{
    let ghost known = capture_models(captures@);
    let ghost whole = stripped(tokens@, start as int, known);
    let no_tables: Vec<Table> = Vec::new();
    proof {
        assert(table_models(no_tables@) =~= Seq::empty());
    }
    let mut out: Vec<Token> = Vec::new();
    let mut at: usize = start;
    let count: usize = tokens.len();
    proof {
        if let Ok(rest) = whole {
            assert(trees(out@) + rest =~= rest);
        }
    }
    while at < count
        invariant
            count == tokens@.len(),
            start <= at <= tokens@.len(),
            known == capture_models(captures@),
            whole == stripped(tokens@, start as int, known),
            table_models(no_tables@) == Seq::<TableModel>::empty(),
            match stripped(tokens@, at as int, known) {
                Ok(rest) => whole == Ok::<Seq<Tree>, Fault>(trees(out@) + rest),
                Err(e) => whole == Err::<Seq<Tree>, Fault>(e),
            },
        decreases tokens@.len() - at,
    {
        let span: Span = tokens[at].span;
        let ghost done = trees(out@);
        if at_punct(tokens, at, '#') {
            return Err(CompileError::rule(span, "attributes are not supported in VM programs"));
        }
        if at_punct(tokens, at, '$') {
            if at + 1 >= count {
                return Err(CompileError::rule(span, "expected a capture name after `$`"));
            }
            let name = match &tokens[at + 1].kind {
                TokenKind::Ident(name) => name,
                _ => {
                    return Err(CompileError::rule(span, "expected a capture name after `$`"));
                },
            };
            let name_span: Span = tokens[at + 1].span;
            if !is_declared(captures, &no_tables, name) {
                return Err(CompileError::rule(name_span, "unknown capture"));
            }
            let mut inner: Vec<Token> = Vec::new();
            inner.push(Token { span: name_span, kind: TokenKind::Ident(name.clone()) });
            let call = Token {
                span: name_span,
                kind: TokenKind::Ident("__capture".to_owned()),
            };
            let group = Token {
                span: name_span,
                kind: TokenKind::Group(Delimiter::Parenthesis, inner),
            };
            proof {
                lemma_group_view(group);
                assert(trees(inner@) =~= seq![
                    Tree { span: name_span, kind: TreeKind::Ident(name@) },
                ]);
            }
            out.push(call);
            out.push(group);
            proof {
                assert(trees(out@) =~= done + marker(name_span, name@));
                if let Ok(rest) = stripped(tokens@, at + 2, known) {
                    assert(trees(out@) + rest =~= done + (marker(name_span, name@) + rest));
                }
            }
            at += 2;
        } else {
            assert(decreases_to!(tokens@ => tokens@[at as int]));
            let token = strip_token(&tokens[at], captures)?;
            let ghost tree = token@;
            out.push(token);
            proof {
                assert(trees(out@) =~= done + seq![tree]);
                if let Ok(rest) = stripped(tokens@, at + 1, known) {
                    assert(trees(out@) + rest =~= done + (seq![tree] + rest));
                }
            }
            at += 1;
        }
    }
    assert(trees(out@) + Seq::empty() =~= trees(out@));
    Ok(out)
}

// ---- Programs -----------------------------------------------------------

/// The tokens of the section `word` at `at`, where there is one.
pub open spec fn section_at(tokens: Seq<Token>, at: int, word: Seq<char>, scope: Span) -> Result<
    Option<Seq<Token>>,
    Fault,
> {
    if ident_at(tokens, at) != Some(word) {
        Ok(None)
    } else if at + 1 < tokens.len() && (tokens[at + 1].kind matches TokenKind::Group(d, _)
        && d == Delimiter::Brace) {
        Ok(Some(tokens[at + 1].kind->Group_1@))
    } else {
        Err(missing(tokens, at + 1, scope, "expected curly braces"))
    }
}

/// The declared captures, and where they end.
pub open spec fn capture_section(tokens: Seq<Token>, scope: Span) -> Result<
    (Seq<CaptureModel>, int),
    Fault,
> {
    match section_at(tokens, 0, "captures"@, scope) {
        Err(e) => Err(e),
        Ok(None) => Ok((Seq::empty(), 0)),
        Ok(Some(inner)) => match captures_at(inner, 0, tokens[1].span, Seq::empty()) {
            Err(e) => Err(e),
            Ok(captures) => Ok((captures, 2)),
        },
    }
}

/// The declared tables, and where they end.
pub open spec fn table_section(
    tokens: Seq<Token>,
    at: int,
    scope: Span,
    captures: Seq<CaptureModel>,
) -> Result<(Seq<TableModel>, int), Fault> {
    match section_at(tokens, at, "tables"@, scope) {
        Err(e) => Err(e),
        Ok(None) => Ok((Seq::empty(), at)),
        Ok(Some(inner)) => match tables_at(
            inner,
            0,
            tokens[at + 1].span,
            captures,
            Seq::empty(),
        ) {
            Err(e) => Err(e),
            Ok(tables) => Ok((tables, at + 2)),
        },
    }
}

/// The declared result type, and where it ends.
pub open spec fn result_section(tokens: Seq<Token>, at: int, scope: Span) -> Result<
    (Option<Shape>, int),
    Fault,
> {
    if is_punct2(tokens, at, '-', '>') {
        match type_at(tokens, at + 2, 1, scope) {
            Err(e) => Err(e),
            Ok((ty, next)) => Ok((Some(ty), next)),
        }
    } else {
        Ok((None, at))
    }
}

/// The statements of a body: what is in its braces, where braces are all
/// there is, and the tokens themselves otherwise.
pub open spec fn statements(body: Seq<Tree>) -> Seq<Tree> {
    if body.len() == 1 && (body[0].kind matches TreeKind::Group(d, _) && d == Delimiter::Brace) {
        body[0].kind->Group_1
    } else {
        body
    }
}

/// The program that `tokens` spell, or the first rule that they break.
pub open spec fn program_of(tokens: Seq<Token>, scope: Span) -> Result<ProgramModel, Fault> {
    match capture_section(tokens, scope) {
        Err(e) => Err(e),
        Ok((captures, a)) => match table_section(tokens, a, scope, captures) {
            Err(e) => Err(e),
            Ok((tables, b)) => match result_section(tokens, b, scope) {
                Err(e) => Err(e),
                Ok((result, c)) => match stripped(tokens, c, captures) {
                    Err(e) => Err(e),
                    Ok(body) => Ok(
                        ProgramModel { captures, tables, result, body: statements(body) },
                    ),
                },
            },
        },
    }
}

/// The tokens of the section `word` at `at`, where there is one.
fn parse_section<'a>(
    tokens: &'a Vec<Token>,
    at: usize,
    word: &str,
    scope: Span,
) -> (section: Result<Option<&'a Vec<Token>>, CompileError>)
    ensures
        match section {
            Ok(None) => section_at(tokens@, at as int, word@, scope) == Ok::<
                Option<Seq<Token>>,
                Fault,
            >(None),
            Ok(Some(inner)) => section_at(tokens@, at as int, word@, scope) == Ok::<
                Option<Seq<Token>>,
                Fault,
            >(Some(inner@)),
            Err(e) => section_at(tokens@, at as int, word@, scope) == Err::<
                Option<Seq<Token>>,
                Fault,
            >(e@),
        },
        section matches Ok(Some(_)) ==> at + 1 < tokens@.len(),
{
    let count: usize = tokens.len();
    if !keyword(tokens, at, word) {
        return Ok(None);
    }
    assert(at < count);
    if at + 1 < count {
        if let TokenKind::Group(delimiter, inner) = &tokens[at + 1].kind {
            if *delimiter == Delimiter::Brace {
                return Ok(Some(inner));
            }
        }
    }
    Err(absent(tokens, at + 1, scope, "expected curly braces"))
}

/// Whether the section `word` stands at `at`, with its braces.
pub open spec fn section_stands(tokens: Seq<Token>, at: int, word: Seq<char>) -> bool {
    section_at(tokens, at, word, error::CALL_SITE) matches Ok(Some(_))
}

/// Which tokens are the braces around the declared captures and tables.
pub open spec fn declaration_groups(tokens: Seq<Token>) -> Seq<int> {
    let captures = section_stands(tokens, 0, "captures"@);
    let at: int = if captures {
        2
    } else {
        0
    };
    (if captures {
        seq![1int]
    } else {
        Seq::empty()
    }) + (if section_stands(tokens, at, "tables"@) {
        seq![at + 1]
    } else {
        Seq::empty()
    })
}

/// Which tokens are the braces around the declared captures and tables: only in
/// these do Rust expressions stand as single tokens.
pub fn find_declarations(tokens: &Vec<Token>) -> (groups: Vec<usize>)
    ensures
        groups@.map_values(|i: usize| i as int) == declaration_groups(tokens@),
        forall|k: int| 0 <= k < groups@.len() ==> (#[trigger] groups@[k]) < tokens@.len(),
{
    let mut groups: Vec<usize> = Vec::new();
    let mut at: usize = 0;
    if let Ok(Some(_)) = parse_section(tokens, 0, "captures", error::CALL_SITE) {
        groups.push(1);
        at = 2;
    }
    if let Ok(Some(_)) = parse_section(tokens, at, "tables", error::CALL_SITE) {
        groups.push(at + 1);
    }
    assert(groups@.map_values(|i: usize| i as int) =~= declaration_groups(tokens@));
    groups
}

/// Whether a Rust expression follows the token at `at` of some declarations: it
/// is an equals sign, and not the first half of `=>`.
pub fn starts_initializer(tokens: &Vec<Token>, at: usize) -> (starts: bool)
    ensures
        starts == (is_punct(tokens@, at as int, '=') && !is_punct2(tokens@, at as int, '=', '>')),
{
    at_punct(tokens, at, '=') && !at_punct2(tokens, at, '=', '>')
}

/// Take the statements out of the braces around a body.
fn unbraced(body: Vec<Token>) -> (out: Vec<Token>)
    ensures
        trees(out@) == statements(trees(body@)),
{
    let braced = body.len() == 1 && match &body[0].kind {
        TokenKind::Group(delimiter, _) => *delimiter == Delimiter::Brace,
        _ => false,
    };
    let ghost before = body@;
    proof {
        if before.len() == 1 {
            assert(trees(before)[0] == before[0]@);
            if before[0].kind is Group {
                lemma_group_view(before[0]);
            }
        }
    }
    if braced {
        let mut body = body;
        let token = body.swap_remove(0);
        if let TokenKind::Group(_, inner) = token.kind {
            return inner;
        }
        return body;
    }
    body
}

impl Program {
    /// Read a program from its tokens.
    pub fn parse(tokens: &Vec<Token>, scope: Span) -> (parsed: Result<Program, CompileError>)
        ensures
            match parsed {
                Ok(program) => program_of(tokens@, scope) == Ok::<ProgramModel, Fault>(program@),
                Err(e) => program_of(tokens@, scope) == Err::<ProgramModel, Fault>(e@),
            },
    {
        let mut at: usize = 0;
        let mut captures: Vec<Capture> = Vec::new();
        assert(capture_models(captures@) =~= Seq::empty());
        if let Some(inner) = parse_section(tokens, at, "captures", scope)? {
            captures = parse_captures(inner, tokens[at + 1].span)?;
            at += 2;
        }
        assert(capture_section(tokens@, scope) == Ok::<(Seq<CaptureModel>, int), Fault>(
            (capture_models(captures@), at as int),
        ));
        let mut tables: Vec<Table> = Vec::new();
        assert(table_models(tables@) =~= Seq::empty());
        let ghost start = at as int;
        if let Some(inner) = parse_section(tokens, at, "tables", scope)? {
            tables = parse_tables(inner, tokens[at + 1].span, &captures)?;
            at += 2;
        }
        assert(table_section(tokens@, start, scope, capture_models(captures@)) == Ok::<
            (Seq<TableModel>, int),
            Fault,
        >((table_models(tables@), at as int)));
        let mut result: Option<Type> = None;
        if at_punct2(tokens, at, '-', '>') {
            let (ty, next) = parse_type(tokens, at + 2, scope)?;
            result = Some(ty);
            at = next;
        }
        let body = strip_from(tokens, at, &captures)?;
        let body = unbraced(body);
        let program = Program { captures, tables, result, body };
        assert(program_of(tokens@, scope)->Ok_0 =~= program@);
        Ok(program)
    }
}

} // verus!
