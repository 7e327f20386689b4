//! How types and declarations are spelled, and that they are read as spelled.

use super::error::{Fault, Span};
use super::syntax;
use super::syntax::{
    CaptureModel, Delimiter, ProgramModel, TableModel, Token, TokenKind, Tree, TreeKind,
};
use super::types;
use super::types::Shape;
use vstd::prelude::*;

verus! {

// ---- Types ---------------------------------------------------------------

/// How many tokens a type takes.
pub open spec fn width(ty: Shape) -> int
    decreases ty,
{
    match ty {
        Shape::Unit | Shape::Bool | Shape::I64 | Shape::U64 => 1,
        Shape::Bytes(_) | Shape::String(_) => 4,
        Shape::Tuple(fields) => if fields.len() == 0 {
            3
        } else {
            1
        },
        Shape::Rows(key, value, _) => width(*key) + width(*value) + 6,
    }
}

/// Whether the token at `at` is the word `word`.
pub open spec fn says(tokens: Seq<Token>, at: int, word: Seq<char>) -> bool {
    &&& 0 <= at < tokens.len()
    &&& tokens[at].kind matches TokenKind::Ident(name) && name@ == word
}

/// Whether the token at `at` is the number `n`.
pub open spec fn counts(tokens: Seq<Token>, at: int, n: u32) -> bool {
    &&& 0 <= at < tokens.len()
    &&& tokens[at].kind matches TokenKind::Integer(_, value) && value == Some(n as u64)
}

/// Whether a type is spelled at `at`: `()`, `bool`, `i64`, `u64`, `bytes<n>`,
/// `string<n>`, `tuple<>`, `(a, b)`, or `rows<key, value, n>`.
pub open spec fn spelled(tokens: Seq<Token>, at: int, ty: Shape) -> bool
    decreases ty, 0int,
{
    match ty {
        Shape::Unit => 0 <= at < tokens.len() && (tokens[at].kind matches TokenKind::Group(
            delimiter,
            inner,
        ) && delimiter == Delimiter::Parenthesis && inner@.len() == 0),
        Shape::Bool => says(tokens, at, "bool"@),
        Shape::I64 => says(tokens, at, "i64"@),
        Shape::U64 => says(tokens, at, "u64"@),
        Shape::Bytes(n) => says(tokens, at, "bytes"@) && syntax::is_punct(tokens, at + 1, '<')
            && counts(tokens, at + 2, n) && syntax::is_punct(tokens, at + 3, '>'),
        Shape::String(n) => says(tokens, at, "string"@) && syntax::is_punct(tokens, at + 1, '<')
            && counts(tokens, at + 2, n) && syntax::is_punct(tokens, at + 3, '>'),
        Shape::Tuple(fields) => if fields.len() == 0 {
            says(tokens, at, "tuple"@) && syntax::is_punct(tokens, at + 1, '<')
                && syntax::is_punct(tokens, at + 2, '>')
        } else {
            0 <= at < tokens.len() && (tokens[at].kind matches TokenKind::Group(delimiter, inner)
                && delimiter == Delimiter::Parenthesis && spelled_fields(inner@, 0, fields, 0))
        },
        Shape::Rows(key, value, n) => says(tokens, at, "rows"@) && syntax::is_punct(
            tokens,
            at + 1,
            '<',
        ) && spelled(tokens, at + 2, *key) && syntax::is_punct(tokens, at + 2 + width(*key), ',')
            && spelled(tokens, at + 3 + width(*key), *value) && syntax::is_punct(
            tokens,
            at + 3 + width(*key) + width(*value),
            ',',
        ) && counts(tokens, at + 4 + width(*key) + width(*value), n) && syntax::is_punct(
            tokens,
            at + 5 + width(*key) + width(*value),
            '>',
        ),
    }
}

/// Whether the fields from the `i`-th on are spelled from `at` to the end, with a
/// comma behind each; behind the last of several there may be none.
pub open spec fn spelled_fields(tokens: Seq<Token>, at: int, fields: Seq<Shape>, i: int) -> bool
    decreases fields, fields.len() - i,
{
    if !(0 <= i < fields.len()) {
        at == tokens.len()
    } else {
        let next = at + width(fields[i]);
        spelled(tokens, at, fields[i]) && (if i > 0 && i == fields.len() - 1 && next
            == tokens.len() {
            true
        } else {
            syntax::is_punct(tokens, next, ',') && spelled_fields(tokens, next + 1, fields, i + 1)
        })
    }
}

proof fn lemma_width(ty: Shape)
    ensures
        width(ty) >= 1,
    decreases ty,
{
    if let Shape::Rows(key, value, _) = ty {
        lemma_width(*key);
        lemma_width(*value);
    }
}

/// The words of types are different, and no keywords.
#[verifier::rlimit(60)]
proof fn lemma_words()
    ensures
        !syntax::rust_keyword("bool"@),
        !syntax::rust_keyword("i64"@),
        !syntax::rust_keyword("u64"@),
        !syntax::rust_keyword("bytes"@),
        !syntax::rust_keyword("string"@),
        !syntax::rust_keyword("tuple"@),
        !syntax::rust_keyword("rows"@),
        "bool"@ != "i64"@,
        "bool"@ != "u64"@,
        "bool"@ != "bytes"@,
        "bool"@ != "string"@,
        "bool"@ != "tuple"@,
        "bool"@ != "rows"@,
        "i64"@ != "u64"@,
        "i64"@ != "bytes"@,
        "i64"@ != "string"@,
        "i64"@ != "tuple"@,
        "i64"@ != "rows"@,
        "u64"@ != "bytes"@,
        "u64"@ != "string"@,
        "u64"@ != "tuple"@,
        "u64"@ != "rows"@,
        "bytes"@ != "string"@,
        "bytes"@ != "tuple"@,
        "bytes"@ != "rows"@,
        "string"@ != "tuple"@,
        "string"@ != "rows"@,
        "tuple"@ != "rows"@,
{
    reveal_strlit("bool");
    reveal_strlit("i64");
    reveal_strlit("u64");
    reveal_strlit("bytes");
    reveal_strlit("string");
    reveal_strlit("tuple");
    reveal_strlit("rows");
    reveal_strlit("_");
    reveal_strlit("abstract");
    reveal_strlit("as");
    reveal_strlit("async");
    reveal_strlit("await");
    reveal_strlit("become");
    reveal_strlit("box");
    reveal_strlit("break");
    reveal_strlit("const");
    reveal_strlit("continue");
    reveal_strlit("crate");
    reveal_strlit("do");
    reveal_strlit("dyn");
    reveal_strlit("else");
    reveal_strlit("enum");
    reveal_strlit("extern");
    reveal_strlit("false");
    reveal_strlit("final");
    reveal_strlit("fn");
    reveal_strlit("for");
    reveal_strlit("if");
    reveal_strlit("impl");
    reveal_strlit("in");
    reveal_strlit("let");
    reveal_strlit("loop");
    reveal_strlit("macro");
    reveal_strlit("match");
    reveal_strlit("mod");
    reveal_strlit("move");
    reveal_strlit("mut");
    reveal_strlit("override");
    reveal_strlit("priv");
    reveal_strlit("pub");
    reveal_strlit("ref");
    reveal_strlit("return");
    reveal_strlit("Self");
    reveal_strlit("self");
    reveal_strlit("static");
    reveal_strlit("struct");
    reveal_strlit("super");
    reveal_strlit("trait");
    reveal_strlit("true");
    reveal_strlit("try");
    reveal_strlit("type");
    reveal_strlit("typeof");
    reveal_strlit("unsafe");
    reveal_strlit("unsized");
    reveal_strlit("use");
    reveal_strlit("virtual");
    reveal_strlit("where");
    reveal_strlit("while");
    reveal_strlit("yield");
    assert("bool"@[0] == 'b' && "bool"@[1] == 'o' && "bool"@[2] == 'o' && "bool"@[3] == 'l');
    assert("i64"@[0] == 'i' && "i64"@[1] == '6' && "i64"@[2] == '4');
    assert("u64"@[0] == 'u' && "u64"@[1] == '6' && "u64"@[2] == '4');
    assert("bytes"@[0] == 'b' && "bytes"@[1] == 'y' && "bytes"@[2] == 't' && "bytes"@[3] == 'e'
        && "bytes"@[4] == 's');
    assert("string"@[0] == 's' && "string"@[1] == 't' && "string"@[2] == 'r'
        && "string"@[3] == 'i' && "string"@[4] == 'n' && "string"@[5] == 'g');
    assert("tuple"@[0] == 't' && "tuple"@[1] == 'u' && "tuple"@[2] == 'p' && "tuple"@[3] == 'l'
        && "tuple"@[4] == 'e');
    assert("rows"@[0] == 'r' && "rows"@[1] == 'o' && "rows"@[2] == 'w' && "rows"@[3] == 's');
}

/// A type that was read is spelled where it was read.
proof fn lemma_read_type(tokens: Seq<Token>, at: int, depth: int, scope: Span)
    requires
        0 <= at,
    ensures
        syntax::type_at(tokens, at, depth, scope) matches Ok((ty, next)) ==> spelled(
            tokens,
            at,
            ty,
        ) && next == at + width(ty),
    decreases tokens, tokens.len() - at, 1nat,
{
    if at < tokens.len() && depth <= 16 {
        match tokens[at].kind {
            TokenKind::Group(delimiter, inner) => {
                if delimiter == Delimiter::Parenthesis && inner@.len() > 0 {
                    assert(decreases_to!(tokens => tokens[at]));
                    lemma_read_fields(
                        inner@,
                        0,
                        depth + 1,
                        tokens[at].span,
                        Seq::empty(),
                    );
                    if let Ok(fields) = syntax::fields_at(
                        inner@,
                        0,
                        depth + 1,
                        tokens[at].span,
                    ) {
                        assert(Seq::<Shape>::empty() + fields =~= fields);
                    }
                }
            },
            TokenKind::Ident(name) => {
                if name@ == "rows"@ && syntax::is_punct(tokens, at + 1, '<') {
                    lemma_read_type(tokens, at + 2, depth + 1, scope);
                    if let Ok((key, after)) = syntax::type_at(tokens, at + 2, depth + 1, scope) {
                        lemma_width(key);
                        if syntax::is_punct(tokens, after, ',') {
                            lemma_read_type(tokens, after + 1, depth + 1, scope);
                        }
                    }
                }
            },
            _ => {},
        }
    }
}

/// Fields that were read behind others are spelled where they were read.
proof fn lemma_read_fields(
    tokens: Seq<Token>,
    at: int,
    depth: int,
    scope: Span,
    before: Seq<Shape>,
)
    requires
        0 <= at,
        at == 0 <==> before.len() == 0,
        at <= tokens.len(),
    ensures
        syntax::fields_at(tokens, at, depth, scope) matches Ok(fields) ==> spelled_fields(
            tokens,
            at,
            before + fields,
            before.len() as int,
        ) && (at < tokens.len() ==> fields.len() > 0),
    decreases tokens, tokens.len() - at, 2nat,
{
    if at < tokens.len() {
        lemma_read_type(tokens, at, depth, scope);
        if let Ok((field, next)) = syntax::type_at(tokens, at, depth, scope) {
            lemma_width(field);
            syntax::lemma_type_advances(tokens, at, depth, scope);
            if next >= tokens.len() && at != 0 {
                let all = before + seq![field];
                assert(all[before.len() as int] == field);
            } else if syntax::is_punct(tokens, next, ',') {
                lemma_read_fields(tokens, next + 1, depth, scope, before.push(field));
                if let Ok(rest) = syntax::fields_at(tokens, next + 1, depth, scope) {
                    assert(before.push(field) + rest =~= before + (seq![field] + rest));
                    let all = before + (seq![field] + rest);
                    assert(all[before.len() as int] == field);
                }
            }
        }
    } else {
        assert(before + Seq::<Shape>::empty() =~= before);
    }
}

/// A type that was read is the one that is spelled there, and it ends with its
/// last token.
pub proof fn read_types_are_spelled(tokens: Seq<Token>, at: int, scope: Span)
    requires
        0 <= at,
    ensures
        syntax::type_at(tokens, at, 1, scope) matches Ok((ty, next)) ==> spelled(tokens, at, ty)
            && next == at + width(ty) && types::valid_type(ty, true),
{
    lemma_read_type(tokens, at, 1, scope);
}

/// A part of a type keeps the limits that the type keeps.
proof fn lemma_part_valid(ty: Shape, depth: int, deeper: int)
    requires
        types::within(ty, deeper, false) || types::within(ty, deeper, true),
        depth <= deeper,
    ensures
        types::within(ty, depth, true),
        types::within(ty, deeper, false) ==> types::within(ty, depth, false),
    decreases ty,
{
    match ty {
        Shape::Tuple(fields) => {
            assert forall|i: int| 0 <= i < fields.len() implies types::within(
                #[trigger] fields[i],
                depth + 1,
                false,
            ) by {
                assert(types::within(fields[i], deeper + 1, false));
                lemma_part_valid(fields[i], depth + 1, deeper + 1);
            }
        },
        Shape::Rows(key, value, _) => {
            lemma_part_valid(*key, depth + 1, deeper + 1);
            lemma_part_valid(*value, depth + 1, deeper + 1);
        },
        _ => {},
    }
}

/// The description of a field is a part of that of its tuple.
proof fn lemma_nodes(fields: Seq<Shape>, n: nat, i: int)
    requires
        0 <= i < n <= fields.len(),
    ensures
        types::node(fields[i]).len() <= types::nodes(fields, n).len(),
    decreases n,
{
    if i < n - 1 {
        lemma_nodes(fields, (n - 1) as nat, i);
    }
}

/// A spelled type begins with a token.
proof fn lemma_begins(tokens: Seq<Token>, at: int, ty: Shape)
    requires
        spelled(tokens, at, ty),
    ensures
        0 <= at < tokens.len(),
{
}

proof fn lemma_fields_begin(tokens: Seq<Token>, fields: Seq<Shape>)
    requires
        spelled_fields(tokens, 0, fields, 0),
        fields.len() > 0,
    ensures
        tokens.len() > 0,
{
    lemma_begins(tokens, 0, fields[0]);
}

/// A spelled type is read as it is spelled.
#[verifier::rlimit(60)]
proof fn lemma_spelled_type(tokens: Seq<Token>, at: int, ty: Shape, depth: int, scope: Span)
    requires
        1 <= depth,
        types::within(ty, depth, true),
        types::descriptor(ty).len() <= types::DESCRIPTOR_LIMIT,
        spelled(tokens, at, ty),
    ensures
        syntax::type_at(tokens, at, depth, scope) == Ok::<(Shape, int), Fault>(
            (ty, at + width(ty)),
        ),
    decreases ty, 0int,
{
    broadcast use crate::bytes::group_le;

    lemma_words();
    lemma_part_valid(ty, 1, depth);
    match ty {
        Shape::Tuple(fields) => {
            if fields.len() > 0 {
                let inner = tokens[at].kind->Group_1@;
                lemma_spelled_fields(inner, 0, fields, 0, depth + 1, tokens[at].span);
                assert(fields.skip(0) =~= fields);
                lemma_fields_begin(inner, fields);
            } else {
                assert(fields =~= Seq::empty());
            }
        },
        Shape::Rows(key, value, n) => {
            assert(types::within(*key, depth + 1, false));
            assert(types::within(*value, depth + 1, false));
            lemma_part_valid(*key, depth + 1, depth + 1);
            lemma_part_valid(*value, depth + 1, depth + 1);
            lemma_width(*key);
            lemma_spelled_type(tokens, at + 2, *key, depth + 1, scope);
            lemma_spelled_type(tokens, at + 3 + width(*key), *value, depth + 1, scope);
        },
        _ => {},
    }
}

/// Spelled fields are read as they are spelled.
proof fn lemma_spelled_fields(
    tokens: Seq<Token>,
    at: int,
    fields: Seq<Shape>,
    i: int,
    depth: int,
    scope: Span,
)
    requires
        1 <= depth,
        0 <= i <= fields.len(),
        0 <= at,
        at == 0 <==> i == 0,
        fields.len() > 0,
        forall|k: int| 0 <= k < fields.len() ==> types::within(#[trigger] fields[k], depth, false),
        types::nodes(fields, fields.len()).len() + 2 <= types::DESCRIPTOR_LIMIT,
        spelled_fields(tokens, at, fields, i),
    ensures
        syntax::fields_at(tokens, at, depth, scope) == Ok::<Seq<Shape>, Fault>(fields.skip(i)),
    decreases fields, fields.len() - i,
{
    if i < fields.len() {
        lemma_nodes(fields, fields.len(), i);
        assert(types::within(fields[i], depth, false));
        lemma_part_valid(fields[i], depth, depth);
        lemma_spelled_type(tokens, at, fields[i], depth, scope);
        lemma_width(fields[i]);
        syntax::lemma_type_advances(tokens, at, depth, scope);
        let next = at + width(fields[i]);
        if i > 0 && i == fields.len() - 1 && next == tokens.len() {
            assert(fields.skip(i) =~= seq![fields[i]]);
        } else {
            lemma_spelled_fields(tokens, next + 1, fields, i + 1, depth, scope);
            assert(fields.skip(i) =~= seq![fields[i]] + fields.skip(i + 1));
        }
    } else {
        assert(fields.skip(i) =~= Seq::empty());
    }
}

/// Every usable type that is spelled is read as it is spelled, whatever follows.
pub proof fn spelled_types_are_read(tokens: Seq<Token>, at: int, ty: Shape, scope: Span)
    requires
        types::valid_type(ty, true),
        spelled(tokens, at, ty),
    ensures
        syntax::type_at(tokens, at, 1, scope) == Ok::<(Shape, int), Fault>((ty, at + width(ty))),
{
    lemma_spelled_type(tokens, at, ty, 1, scope);
}

// ---- Declarations --------------------------------------------------------

/// Whether a name can be declared behind some captures and tables.
pub open spec fn free(
    name: Seq<char>,
    captures: Seq<CaptureModel>,
    tables: Seq<TableModel>,
) -> bool {
    &&& !syntax::rust_keyword(name)
    &&& !syntax::reserved(name)
    &&& forall|i: int| #![trigger captures[i]] 0 <= i < captures.len() ==> captures[i].name != name
    &&& forall|i: int| #![trigger tables[i]] 0 <= i < tables.len() ==> tables[i].name != name
}

/// Whether the token at `at` is the expression `n`.
pub open spec fn initializes(tokens: Seq<Token>, at: int, n: usize) -> bool {
    &&& syntax::is_punct(tokens, at, '=')
    &&& at + 1 < tokens.len()
    &&& tokens[at + 1].kind == TokenKind::Expression(n)
}

/// Whether `name: type = expression` stands at `at`.
pub open spec fn spelled_capture(tokens: Seq<Token>, at: int, c: CaptureModel) -> bool {
    &&& says(tokens, at, c.name)
    &&& tokens[at].span == c.span
    &&& syntax::is_punct(tokens, at + 1, ':')
    &&& spelled(tokens, at + 2, c.ty)
    &&& initializes(tokens, at + 2 + width(c.ty), c.value)
}

/// Whether `name: key => value = expression` stands at `at`.
pub open spec fn spelled_table(tokens: Seq<Token>, at: int, t: TableModel) -> bool {
    &&& says(tokens, at, t.name)
    &&& tokens[at].span == t.span
    &&& syntax::is_punct(tokens, at + 1, ':')
    &&& spelled(tokens, at + 2, t.key)
    &&& syntax::is_punct2(tokens, at + 2 + width(t.key), '=', '>')
    &&& spelled(tokens, at + 4 + width(t.key), t.value)
    &&& initializes(tokens, at + 4 + width(t.key) + width(t.value), t.id)
}

/// A capture is read exactly as it is spelled, if its name is free and its type
/// may be captured.
pub proof fn captures_are_read_as_spelled(
    tokens: Seq<Token>,
    at: int,
    scope: Span,
    captures: Seq<CaptureModel>,
    c: CaptureModel,
    next: int,
)
    requires
        0 <= at < tokens.len(),
    ensures
        syntax::capture_at(tokens, at, scope, captures) == Ok::<(CaptureModel, int), Fault>(
            (c, next),
        ) <==> spelled_capture(tokens, at, c) && free(c.name, captures, Seq::empty())
            && types::valid_type(c.ty, false) && next == at + 4 + width(c.ty),
{
    let read = syntax::capture_at(tokens, at, scope, captures);
    lemma_read_type(tokens, at + 2, 1, scope);
    if spelled(tokens, at + 2, c.ty) && types::valid_type(c.ty, false) {
        lemma_part_valid(c.ty, 1, 1);
        lemma_spelled_type(tokens, at + 2, c.ty, 1, scope);
    }
    let none = Seq::<TableModel>::empty();
    assert(says(tokens, at, c.name) ==> (syntax::declared(captures, none, c.name) <==> !(forall|
        i: int,
    |
        #![trigger captures[i]]
        0 <= i < captures.len() ==> captures[i].name != c.name)));
}

/// A table is read exactly as it is spelled, with the type of its keys before
/// that of its values, if its name is free, its types may be stored and its
/// keys are short enough.
pub proof fn tables_are_read_as_spelled(
    tokens: Seq<Token>,
    at: int,
    scope: Span,
    captures: Seq<CaptureModel>,
    tables: Seq<TableModel>,
    t: TableModel,
    next: int,
)
    requires
        0 <= at < tokens.len(),
    ensures
        syntax::table_at(tokens, at, scope, captures, tables) == Ok::<(TableModel, int), Fault>(
            (t, next),
        ) <==> spelled_table(tokens, at, t) && free(t.name, captures, tables)
            && types::valid_type(t.key, false) && types::valid_type(t.value, false)
            && types::key_extent(t.key) <= 1024 && next == at + 6 + width(t.key) + width(t.value),
{
    lemma_read_type(tokens, at + 2, 1, scope);
    if let Ok((key, arrow)) = syntax::type_at(tokens, at + 2, 1, scope) {
        lemma_width(key);
        lemma_read_type(tokens, arrow + 2, 1, scope);
    }
    if spelled(tokens, at + 2, t.key) && types::valid_type(t.key, false) {
        lemma_part_valid(t.key, 1, 1);
        lemma_spelled_type(tokens, at + 2, t.key, 1, scope);
        if spelled(tokens, at + 4 + width(t.key), t.value) && types::valid_type(t.value, false) {
            lemma_part_valid(t.value, 1, 1);
            lemma_spelled_type(tokens, at + 4 + width(t.key), t.value, 1, scope);
        }
    }
}

/// Whether the captures from the `i`-th on are spelled from `at` to the end, with
/// commas between them; one may follow the last.
pub open spec fn spelled_captures(
    tokens: Seq<Token>,
    at: int,
    list: Seq<CaptureModel>,
    i: int,
) -> bool
    decreases list.len() - i,
{
    if !(0 <= i < list.len()) {
        at == tokens.len()
    } else {
        let next = at + 4 + width(list[i].ty);
        spelled_capture(tokens, at, list[i]) && (if next == tokens.len() {
            i == list.len() - 1
        } else {
            syntax::is_punct(tokens, next, ',') && spelled_captures(tokens, next + 1, list, i + 1)
        })
    }
}

/// Whether the captures may be declared one behind the other.
pub open spec fn allowed_captures(list: Seq<CaptureModel>, i: int) -> bool {
    forall|k: int|
        #![trigger list[k]]
        i <= k < list.len() ==> free(list[k].name, list.take(k), Seq::empty())
            && types::valid_type(list[k].ty, false)
}

proof fn lemma_captures_behind(
    tokens: Seq<Token>,
    at: int,
    scope: Span,
    before: Seq<CaptureModel>,
)
    requires
        0 <= at,
    ensures
        syntax::captures_at(tokens, at, scope, before) matches Ok(list) ==> before.len()
            <= list.len() && list.take(before.len() as int) == before,
    decreases tokens.len() - at,
{
    if at < tokens.len() {
        if let Ok((one, next)) = syntax::capture_at(tokens, at, scope, before) {
            captures_are_read_as_spelled(tokens, at, scope, before, one, next);
            lemma_width(one.ty);
            let longer = before.push(one);
            assert(longer.take(before.len() as int) =~= before);
            if next < tokens.len() && syntax::is_punct(tokens, next, ',') {
                lemma_captures_behind(tokens, next + 1, scope, longer);
                if let Ok(list) = syntax::captures_at(
                    tokens,
                    next + 1,
                    scope,
                    longer,
                ) {
                    assert(list.take(before.len() as int) =~= list.take(
                        longer.len() as int,
                    ).take(before.len() as int));
                }
            }
        }
    } else {
        assert(before.take(before.len() as int) =~= before);
    }
}

proof fn lemma_captures(
    tokens: Seq<Token>,
    at: int,
    scope: Span,
    list: Seq<CaptureModel>,
    i: int,
)
    requires
        0 <= at <= tokens.len(),
        0 <= i <= list.len(),
    ensures
        syntax::captures_at(tokens, at, scope, list.take(i)) == Ok::<
            Seq<CaptureModel>,
            Fault,
        >(list) <==> spelled_captures(tokens, at, list, i) && allowed_captures(list, i),
    decreases tokens.len() - at,
{
    let before = list.take(i);
    let read = syntax::captures_at(tokens, at, scope, before);
    if at == tokens.len() {
        assert(before == list <==> i == list.len()) by {
            if i == list.len() {
                assert(before =~= list);
            }
        }
        if i < list.len() && spelled_capture(tokens, at, list[i]) {
            assert(false);
        }
    } else if i == list.len() {
        if let Ok((one, next)) = syntax::capture_at(tokens, at, scope, before) {
            let longer = before.push(one);
            captures_are_read_as_spelled(tokens, at, scope, before, one, next);
            lemma_width(one.ty);
            if next < tokens.len() && syntax::is_punct(tokens, next, ',') {
                lemma_captures_behind(tokens, next + 1, scope, longer);
            }
        }
    } else {
        let one = list[i];
        let next = at + 4 + width(list[i].ty);
        let longer = list.take(i + 1);
        assert(before.push(one) =~= longer);
        captures_are_read_as_spelled(tokens, at, scope, before, one, next);
        lemma_width(one.ty);
        let here = syntax::capture_at(tokens, at, scope, before);
        assert(allowed_captures(list, i) <==> allowed_captures(list, i + 1) && free(
            one.name,
            list.take(i),
            Seq::empty(),
        ) && types::valid_type(one.ty, false));
        if here == Ok::<(CaptureModel, int), Fault>((one, next)) {
            if next == tokens.len() {
                assert(longer == list <==> i == list.len() - 1) by {
                    if i == list.len() - 1 {
                        assert(longer =~= list);
                    }
                }
            } else if syntax::is_punct(tokens, next, ',') {
                lemma_captures(tokens, next + 1, scope, list, i + 1);
            }
        } else if let Ok((other, after)) = here {
            let others = before.push(other);
            captures_are_read_as_spelled(tokens, at, scope, before, other, after);
            lemma_width(other.ty);
            if after < tokens.len() && syntax::is_punct(tokens, after, ',') {
                lemma_captures_behind(tokens, after + 1, scope, others);
            }
            if read == Ok::<Seq<CaptureModel>, Fault>(list) {
                assert(list.take(i + 1)[i] == others[i]);
                assert(other == one);
                assert(false);
            }
        }
    }
}

/// Whether the tables from the `i`-th on are spelled from `at` to the end, with
/// commas between them; one may follow the last.
pub open spec fn spelled_tables(tokens: Seq<Token>, at: int, list: Seq<TableModel>, i: int) -> bool
    decreases list.len() - i,
{
    if !(0 <= i < list.len()) {
        at == tokens.len()
    } else {
        let next = at + 6 + width(list[i].key) + width(list[i].value);
        spelled_table(tokens, at, list[i]) && (if next == tokens.len() {
            i == list.len() - 1
        } else {
            syntax::is_punct(tokens, next, ',') && spelled_tables(tokens, next + 1, list, i + 1)
        })
    }
}

/// Whether the tables may be declared one behind the other.
pub open spec fn allowed_tables(
    captures: Seq<CaptureModel>,
    list: Seq<TableModel>,
    i: int,
) -> bool {
    forall|k: int|
        #![trigger list[k]]
        i <= k < list.len() ==> free(list[k].name, captures, list.take(k)) && types::valid_type(
            list[k].key,
            false,
        ) && types::valid_type(list[k].value, false) && types::key_extent(list[k].key) <= 1024
}

proof fn lemma_tables_behind(
    tokens: Seq<Token>,
    at: int,
    scope: Span,
    captures: Seq<CaptureModel>,
    before: Seq<TableModel>,
)
    requires
        0 <= at,
    ensures
        syntax::tables_at(tokens, at, scope, captures, before) matches Ok(list) ==> before.len()
            <= list.len() && list.take(before.len() as int) == before,
    decreases tokens.len() - at,
{
    if at < tokens.len() {
        if let Ok((one, next)) = syntax::table_at(tokens, at, scope, captures, before) {
            tables_are_read_as_spelled(tokens, at, scope, captures, before, one, next);
            lemma_width(one.key);
            lemma_width(one.value);
            let longer = before.push(one);
            assert(longer.take(before.len() as int) =~= before);
            if next < tokens.len() && syntax::is_punct(tokens, next, ',') {
                lemma_tables_behind(tokens, next + 1, scope, captures, longer);
                if let Ok(list) = syntax::tables_at(
                    tokens,
                    next + 1,
                    scope,
                    captures,
                    longer,
                ) {
                    assert(list.take(before.len() as int) =~= list.take(
                        longer.len() as int,
                    ).take(before.len() as int));
                }
            }
        }
    } else {
        assert(before.take(before.len() as int) =~= before);
    }
}

proof fn lemma_tables(
    tokens: Seq<Token>,
    at: int,
    scope: Span,
    captures: Seq<CaptureModel>,
    list: Seq<TableModel>,
    i: int,
)
    requires
        0 <= at <= tokens.len(),
        0 <= i <= list.len(),
    ensures
        syntax::tables_at(tokens, at, scope, captures, list.take(i)) == Ok::<
            Seq<TableModel>,
            Fault,
        >(list) <==> spelled_tables(tokens, at, list, i) && allowed_tables(captures, list, i),
    decreases tokens.len() - at,
{
    let before = list.take(i);
    let read = syntax::tables_at(tokens, at, scope, captures, before);
    if at == tokens.len() {
        assert(before == list <==> i == list.len()) by {
            if i == list.len() {
                assert(before =~= list);
            }
        }
        if i < list.len() && spelled_table(tokens, at, list[i]) {
            assert(false);
        }
    } else if i == list.len() {
        if let Ok((one, next)) = syntax::table_at(tokens, at, scope, captures, before) {
            let longer = before.push(one);
            tables_are_read_as_spelled(tokens, at, scope, captures, before, one, next);
            lemma_width(one.key);
            lemma_width(one.value);
            if next < tokens.len() && syntax::is_punct(tokens, next, ',') {
                lemma_tables_behind(tokens, next + 1, scope, captures, longer);
            }
        }
    } else {
        let one = list[i];
        let next = at + 6 + width(list[i].key) + width(list[i].value);
        let longer = list.take(i + 1);
        assert(before.push(one) =~= longer);
        tables_are_read_as_spelled(tokens, at, scope, captures, before, one, next);
        lemma_width(one.key);
        lemma_width(one.value);
        let here = syntax::table_at(tokens, at, scope, captures, before);
        assert(allowed_tables(captures, list, i) <==> allowed_tables(captures, list, i + 1) && free(
            one.name,
            captures,
            list.take(i),
        ) && types::valid_type(one.key, false) && types::valid_type(one.value, false)
            && types::key_extent(one.key) <= 1024);
        if here == Ok::<(TableModel, int), Fault>((one, next)) {
            if next == tokens.len() {
                assert(longer == list <==> i == list.len() - 1) by {
                    if i == list.len() - 1 {
                        assert(longer =~= list);
                    }
                }
            } else if syntax::is_punct(tokens, next, ',') {
                lemma_tables(tokens, next + 1, scope, captures, list, i + 1);
            }
        } else if let Ok((other, after)) = here {
            let others = before.push(other);
            tables_are_read_as_spelled(tokens, at, scope, captures, before, other, after);
            lemma_width(other.key);
            lemma_width(other.value);
            if after < tokens.len() && syntax::is_punct(tokens, after, ',') {
                lemma_tables_behind(tokens, after + 1, scope, captures, others);
            }
            if read == Ok::<Seq<TableModel>, Fault>(list) {
                assert(list.take(i + 1)[i] == others[i]);
                assert(other == one);
                assert(false);
            }
        }
    }
}

/// A list of captures is read exactly as it is spelled, in order.
pub proof fn capture_lists_are_read_as_spelled(
    tokens: Seq<Token>,
    scope: Span,
    list: Seq<CaptureModel>,
)
    ensures
        syntax::captures_at(tokens, 0, scope, Seq::empty()) == Ok::<Seq<CaptureModel>, Fault>(list)
            <==> spelled_captures(tokens, 0, list, 0) && allowed_captures(list, 0),
{
    lemma_captures(tokens, 0, scope, list, 0);
    assert(list.take(0) =~= Seq::empty());
}

/// A list of tables is read exactly as it is spelled, in order.
pub proof fn table_lists_are_read_as_spelled(
    tokens: Seq<Token>,
    scope: Span,
    captures: Seq<CaptureModel>,
    list: Seq<TableModel>,
)
    ensures
        syntax::tables_at(tokens, 0, scope, captures, Seq::empty()) == Ok::<
            Seq<TableModel>,
            Fault,
        >(list) <==> spelled_tables(tokens, 0, list, 0) && allowed_tables(captures, list, 0),
{
    lemma_tables(tokens, 0, scope, captures, list, 0);
    assert(list.take(0) =~= Seq::empty());
}

// ---- Bodies --------------------------------------------------------------

/// Whether a token holds no capture mark and no attribute, at any depth.
pub open spec fn unmarked(token: Token) -> bool
    decreases token,
{
    match token.kind {
        TokenKind::Punct(c, _) => c != '$' && c != '#',
        TokenKind::Group(_, inner) => forall|i: int|
            0 <= i < inner@.len() ==> unmarked(#[trigger] inner@[i]),
        _ => true,
    }
}

proof fn lemma_unmarked(tokens: Seq<Token>, at: int, captures: Seq<CaptureModel>)
    requires
        0 <= at <= tokens.len(),
        forall|i: int| at <= i < tokens.len() ==> unmarked(#[trigger] tokens[i]),
    ensures
        syntax::stripped(tokens, at, captures) == Ok::<Seq<Tree>, Fault>(
            syntax::trees(tokens.skip(at)),
        ),
    decreases tokens, tokens.len() - at,
{
    if at < tokens.len() {
        let token = tokens[at];
        assert(unmarked(token));
        if let TokenKind::Group(delimiter, inner) = token.kind {
            assert(decreases_to!(tokens => tokens[at]));
            lemma_unmarked(inner@, 0, captures);
            assert(inner@.skip(0) =~= inner@);
            syntax::lemma_group_view(token);
        }
        assert(syntax::stripped_tree(token, captures) == Ok::<Tree, Fault>(token@));
        lemma_unmarked(tokens, at + 1, captures);
        assert(syntax::trees(tokens.skip(at)) =~= seq![token@] + syntax::trees(
            tokens.skip(at + 1),
        ));
    } else {
        assert(syntax::trees(tokens.skip(at)) =~= Seq::empty());
    }
}

/// A body that marks no capture is kept as it is, token by token.
pub proof fn unmarked_bodies_are_kept(tokens: Seq<Token>, captures: Seq<CaptureModel>)
    requires
        forall|i: int| 0 <= i < tokens.len() ==> unmarked(#[trigger] tokens[i]),
    ensures
        syntax::stripped(tokens, 0, captures) == Ok::<Seq<Tree>, Fault>(syntax::trees(tokens)),
{
    lemma_unmarked(tokens, 0, captures);
    assert(tokens.skip(0) =~= tokens);
}

/// A mark on a declared capture is replaced by a call that names it, and what
/// follows is read on; a mark on anything else is refused.
pub proof fn marked_captures_are_called(tokens: Seq<Token>, at: int, captures: Seq<CaptureModel>)
    requires
        0 <= at,
        syntax::is_punct(tokens, at, '$'),
    ensures
        syntax::stripped(tokens, at, captures) matches Ok(trees) ==> exists|i: int|
            0 <= i < captures.len() && says(tokens, at + 1, #[trigger] captures[i].name),
        forall|i: int|
            0 <= i < captures.len() && says(tokens, at + 1, #[trigger] captures[i].name)
                && syntax::stripped(tokens, at + 2, captures) is Ok ==> {
                let rest = syntax::stripped(tokens, at + 2, captures)->Ok_0;
                let trees = syntax::stripped(tokens, at, captures)->Ok_0;
                &&& syntax::stripped(tokens, at, captures) is Ok
                &&& trees.len() == 2 + rest.len()
                &&& trees[0].kind == TreeKind::Ident("__capture"@)
                &&& trees[1].kind is Group
                &&& trees[1].kind->Group_0 == Delimiter::Parenthesis
                &&& trees[1].kind->Group_1.len() == 1
                &&& trees[1].kind->Group_1[0].kind == TreeKind::Ident(captures[i].name)
                &&& trees.skip(2) == rest
            },
{
    if let Ok(rest) = syntax::stripped(tokens, at + 2, captures) {
        let name = syntax::ident_at(tokens, at + 1)->0;
        assert((syntax::marker(tokens[at + 1].span, name) + rest).skip(2) =~= rest);
    }
}

// ---- Programs ------------------------------------------------------------

/// Whether the word at `at` begins a section in braces.
pub open spec fn section(tokens: Seq<Token>, at: int, word: Seq<char>) -> bool {
    &&& says(tokens, at, word)
    &&& at + 1 < tokens.len()
    &&& tokens[at + 1].kind matches TokenKind::Group(delimiter, _) && delimiter == Delimiter::Brace
}

/// The tokens of the section at `at`.
pub open spec fn section_tokens(tokens: Seq<Token>, at: int) -> Seq<Token> {
    tokens[at + 1].kind->Group_1@
}

/// A program is read as it is spelled: captures, tables and the type of the
/// result, each where it is given, and the body behind them.
pub proof fn programs_are_read_as_spelled(
    tokens: Seq<Token>,
    scope: Span,
    captures: Seq<CaptureModel>,
    tables: Seq<TableModel>,
    result: Option<Shape>,
    a: int,
    b: int,
    c: int,
)
    requires
        if says(tokens, 0, "captures"@) {
            section(tokens, 0, "captures"@) && a == 2 && spelled_captures(
                section_tokens(tokens, 0),
                0,
                captures,
                0,
            ) && allowed_captures(captures, 0)
        } else {
            a == 0 && captures.len() == 0
        },
        if says(tokens, a, "tables"@) {
            section(tokens, a, "tables"@) && b == a + 2 && spelled_tables(
                section_tokens(tokens, a),
                0,
                tables,
                0,
            ) && allowed_tables(captures, tables, 0)
        } else {
            b == a && tables.len() == 0
        },
        match result {
            Some(ty) => syntax::is_punct2(tokens, b, '-', '>') && spelled(tokens, b + 2, ty)
                && types::valid_type(ty, true) && c == b + 2 + width(ty),
            None => !syntax::is_punct2(tokens, b, '-', '>') && c == b,
        },
        c <= tokens.len(),
        forall|i: int| c <= i < tokens.len() ==> unmarked(#[trigger] tokens[i]),
    ensures
        syntax::program_of(tokens, scope) == Ok::<ProgramModel, Fault>(
            ProgramModel {
                captures,
                tables,
                result,
                body: syntax::statements(syntax::trees(tokens.skip(c))),
            },
        ),
{
    assert(captures.len() == 0 ==> captures =~= Seq::empty());
    assert(tables.len() == 0 ==> tables =~= Seq::empty());
    if says(tokens, 0, "captures"@) {
        capture_lists_are_read_as_spelled(section_tokens(tokens, 0), tokens[1].span, captures);
    }
    if says(tokens, a, "tables"@) {
        table_lists_are_read_as_spelled(
            section_tokens(tokens, a),
            tokens[a + 1].span,
            captures,
            tables,
        );
    }
    if let Some(ty) = result {
        lemma_width(ty);
        spelled_types_are_read(tokens, b + 2, ty, scope);
    }
    lemma_unmarked(tokens, c, captures);
}

} // verus!
