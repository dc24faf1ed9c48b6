//! The declaration parser. It walks the tokens of one file and commits to a
//! declaration only where a marker stands:
//!
//! * `#[tsync]`, directly followed by `struct Name { field: Type, .. }` or
//!   `enum Name { Variant(Type), .. }`, each with an optional `pub`, declares
//!   a serializable type;
//! * `#[get("/path")]` (or `post`, `put`, `patch`, `delete`), directly
//!   followed by `fn name(param: Path<Type>, param: Query<Type>,
//!   param: Json<Type>) -> Type`, with an optional `pub` and `async`,
//!   declares a route.
//!
//! A type is a name, or one of `Vec<T>`, `Option<T>`, `HashMap<K, V>` and
//! `BTreeMap<K, V>`. Everything that follows no marker is skipped.

use vstd::prelude::*;
use crate::bytes::{is_word, text};
use crate::lexer::{
    tokenize, tokens, Lexeme, LexemeView, Token, TokenView, COLON, COMMA, GREATER, HASH, LBRACE,
    LBRACKET, LESS, LPAREN, MINUS, RBRACE, RBRACKET, RPAREN,
};
use crate::model::{
    views, Field, FieldView, Kind, Method, RouteDecl, RouteDeclView, SourceUnit, SourceUnitView,
    SyncError, SyncErrorView, TypeDecl, TypeDeclView, TypeRef, TypeRefView,
};

verus! {

/// The token at `p` is the punctuation byte `b`.
pub open spec fn is_punct(t: Seq<TokenView>, p: int, b: u8) -> bool {
    0 <= p < t.len() && t[p].lexeme == LexemeView::Punct(b)
}

/// The token at `p` is the identifier `w`.
pub open spec fn is_ident(t: Seq<TokenView>, p: int, w: Seq<u8>) -> bool {
    0 <= p < t.len() && t[p].lexeme == LexemeView::Ident(w)
}

/// The identifier at `p`, if the token there is one.
pub open spec fn ident_at(t: Seq<TokenView>, p: int) -> Option<Seq<u8>> {
    if 0 <= p < t.len() {
        match t[p].lexeme {
            LexemeView::Ident(w) => Some(w),
            _ => None,
        }
    } else {
        None
    }
}

/// The string literal at `p`, if the token there is one.
pub open spec fn text_at(t: Seq<TokenView>, p: int) -> Option<Seq<u8>> {
    if 0 <= p < t.len() {
        match t[p].lexeme {
            LexemeView::Text(w) => Some(w),
            _ => None,
        }
    } else {
        None
    }
}

/// `p`, or the position after it where the identifier `w` stands at `p`.
pub open spec fn after_word(t: Seq<TokenView>, p: int, w: Seq<u8>) -> int {
    if is_ident(t, p, w) {
        p + 1
    } else {
        p
    }
}

/// The type that starts at `p`, with the position after it.
pub open spec fn type_at(t: Seq<TokenView>, p: int) -> Option<(TypeRefView, int)>
    decreases t.len() - p,
{
    match ident_at(t, p) {
        None => None,
        Some(w) => if !is_punct(t, p + 1, LESS) {
            Some((TypeRefView::NamedType(w), p + 1))
        } else if w == text("Vec") || w == text("Option") {
            match type_at(t, p + 2) {
                Some((a, q)) => if is_punct(t, q, GREATER) {
                    if w == text("Vec") {
                        Some((TypeRefView::List(Box::new(a)), q + 1))
                    } else {
                        Some((TypeRefView::Optional(Box::new(a)), q + 1))
                    }
                } else {
                    None
                },
                None => None,
            }
        } else if w == text("HashMap") || w == text("BTreeMap") {
            match type_at(t, p + 2) {
                Some((k, q)) => if q > p && is_punct(t, q, COMMA) {
                    match type_at(t, q + 1) {
                        Some((v, r)) => if is_punct(t, r, GREATER) {
                            Some((TypeRefView::MapOf(Box::new(k), Box::new(v)), r + 1))
                        } else {
                            None
                        },
                        None => None,
                    }
                } else {
                    None
                },
                None => None,
            }
        } else {
            None
        },
    }
}

/// A type is at least one token long and ends inside the tokens; so the
/// test `q > p` in `type_at` fails nowhere.
pub proof fn lemma_type_at(t: Seq<TokenView>, p: int)
    ensures
        type_at(t, p) matches Some((_, q)) ==> 0 <= p < q <= t.len(),
    decreases t.len() - p,
{
    if ident_at(t, p) is Some && is_punct(t, p + 1, LESS) {
        lemma_type_at(t, p + 2);
        match type_at(t, p + 2) {
            Some((_, q)) => {
                if q < t.len() {
                    lemma_type_at(t, q + 1);
                }
            },
            None => {},
        }
    }
}

/// The member called `name` with the declared type `ty`: a type `Option<T>`
/// makes the member optional, of type `T`.
pub open spec fn member(name: Seq<u8>, ty: TypeRefView) -> FieldView {
    match ty {
        TypeRefView::Optional(inner) => FieldView { name, ty: *inner, optional: true },
        _ => FieldView { name, ty, optional: false },
    }
}

/// The field (`name: Type`) or variant (`Name(Type)`) that starts at `p`,
/// with the position after it.
pub open spec fn field_at(t: Seq<TokenView>, p: int, kind: Kind) -> Option<(FieldView, int)> {
    let a = after_word(t, p, text("pub"));
    match ident_at(t, a) {
        None => None,
        Some(name) => match kind {
            Kind::Product => if is_punct(t, a + 1, COLON) {
                match type_at(t, a + 2) {
                    Some((ty, q)) => Some((member(name, ty), q)),
                    None => None,
                }
            } else {
                None
            },
            Kind::Sum => if is_punct(t, a + 1, LPAREN) {
                match type_at(t, a + 2) {
                    Some((ty, q)) => if is_punct(t, q, RPAREN) {
                        Some((member(name, ty), q + 1))
                    } else {
                        None
                    },
                    None => None,
                }
            } else {
                None
            },
        },
    }
}

/// A member is at least one token long and ends inside the tokens.
pub proof fn lemma_field_at(t: Seq<TokenView>, p: int, kind: Kind)
    ensures
        field_at(t, p, kind) matches Some((_, q)) ==> 0 <= p < q <= t.len(),
{
    lemma_type_at(t, after_word(t, p, text("pub")) + 2);
}

/// The members from `p` up to the closing brace, after those in `acc`, with
/// the position after the brace. Members are separated by commas; the last
/// may be followed by one.
pub open spec fn fields_from(t: Seq<TokenView>, p: int, kind: Kind, acc: Seq<FieldView>) -> Option<
    (Seq<FieldView>, int),
>
    decreases t.len() - p,
{
    if is_punct(t, p, RBRACE) {
        Some((acc, p + 1))
    } else {
        match field_at(t, p, kind) {
            None => None,
            Some((f, q)) => if is_punct(t, q, COMMA) {
                proof {
                    lemma_field_at(t, p, kind);
                }
                fields_from(t, q + 1, kind, acc.push(f))
            } else if is_punct(t, q, RBRACE) {
                Some((acc.push(f), q + 1))
            } else {
                None
            },
        }
    }
}

/// A type marker, `#[tsync]`, stands at `p`.
pub open spec fn type_marker(t: Seq<TokenView>, p: int) -> bool {
    is_punct(t, p, HASH) && is_punct(t, p + 1, LBRACKET) && is_ident(t, p + 2, text("tsync"))
        && is_punct(t, p + 3, RBRACKET)
}

/// The type declaration that follows the marker at `p`.
pub open spec fn decl_at(t: Seq<TokenView>, p: int, file: Seq<u8>) -> Option<TypeDeclView> {
    let a = after_word(t, p + 4, text("pub"));
    if is_ident(t, a, text("struct")) || is_ident(t, a, text("enum")) {
        let kind = if is_ident(t, a, text("struct")) {
            Kind::Product
        } else {
            Kind::Sum
        };
        match ident_at(t, a + 1) {
            None => None,
            Some(name) => if is_punct(t, a + 2, LBRACE) {
                match fields_from(t, a + 3, kind, Seq::empty()) {
                    Some((fields, _)) => Some(TypeDeclView { name, kind, fields, file }),
                    None => None,
                }
            } else {
                None
            },
        }
    } else {
        None
    }
}

/// The HTTP method that the marker word `w` stands for.
pub open spec fn method_of(w: Seq<u8>) -> Option<Method> {
    if w == text("get") {
        Some(Method::Get)
    } else if w == text("post") {
        Some(Method::Post)
    } else if w == text("put") {
        Some(Method::Put)
    } else if w == text("patch") {
        Some(Method::Patch)
    } else if w == text("delete") {
        Some(Method::Delete)
    } else {
        None
    }
}

/// A route marker, `#[get(` or that of another method, stands at `p`.
pub open spec fn route_marker(t: Seq<TokenView>, p: int) -> bool {
    is_punct(t, p, HASH) && is_punct(t, p + 1, LBRACKET) && (ident_at(t, p + 2) matches Some(w)
        && method_of(w) is Some) && is_punct(t, p + 3, LPAREN)
}

/// The parameters of a handler, by the part of the request they come from.
#[derive(Debug, PartialEq, Eq)]
pub struct Params {
    pub path: Vec<Field>,
    pub query: Vec<Field>,
    pub body: Option<TypeRef>,
}

/// The parameters of a handler as a mathematical value.
pub struct ParamsView {
    pub path: Seq<FieldView>,
    pub query: Seq<FieldView>,
    pub body: Option<TypeRefView>,
}

impl View for Params {
    type V = ParamsView;

    open spec fn view(&self) -> ParamsView {
        ParamsView {
            path: views(self.path@),
            query: views(self.query@),
            body: match self.body {
                Some(t) => Some(t@),
                None => None,
            },
        }
    }
}

/// The parameters in `acc` and after them the parameter that starts at `p`
/// (`name: Path<Type>`, `name: Query<Type>` or `name: Json<Type>`), with the
/// position after it. A handler has one body at most.
pub open spec fn param_at(t: Seq<TokenView>, p: int, acc: ParamsView) -> Option<(ParamsView, int)> {
    match (ident_at(t, p), ident_at(t, p + 2)) {
        (Some(name), Some(w)) => if is_punct(t, p + 1, COLON) && is_punct(t, p + 3, LESS) {
            match type_at(t, p + 4) {
                Some((ty, q)) => if !is_punct(t, q, GREATER) {
                    None
                } else if w == text("Path") {
                    Some(
                        (
                            ParamsView {
                                path: acc.path.push(FieldView { name, ty, optional: false }),
                                ..acc
                            },
                            q + 1,
                        ),
                    )
                } else if w == text("Query") {
                    Some((ParamsView { query: acc.query.push(member(name, ty)), ..acc }, q + 1))
                } else if w == text("Json") && acc.body is None {
                    Some((ParamsView { body: Some(ty), ..acc }, q + 1))
                } else {
                    None
                },
                None => None,
            }
        } else {
            None
        },
        _ => None,
    }
}

/// A parameter is at least one token long and ends inside the tokens.
pub proof fn lemma_param_at(t: Seq<TokenView>, p: int, acc: ParamsView)
    ensures
        param_at(t, p, acc) matches Some((_, q)) ==> 0 <= p < q <= t.len(),
{
    lemma_type_at(t, p + 4);
}

/// The parameters from `p` up to the closing parenthesis, after those in
/// `acc`, with the position after the parenthesis.
pub open spec fn params_from(t: Seq<TokenView>, p: int, acc: ParamsView) -> Option<
    (ParamsView, int),
>
    decreases t.len() - p,
{
    if is_punct(t, p, RPAREN) {
        Some((acc, p + 1))
    } else {
        match param_at(t, p, acc) {
            None => None,
            Some((next, q)) => if is_punct(t, q, COMMA) {
                proof {
                    lemma_param_at(t, p, acc);
                }
                params_from(t, q + 1, next)
            } else if is_punct(t, q, RPAREN) {
                Some((next, q + 1))
            } else {
                None
            },
        }
    }
}

/// The route declaration that the marker at `p` opens.
pub open spec fn route_at(t: Seq<TokenView>, p: int, file: Seq<u8>) -> Option<RouteDeclView> {
    let a = after_word(t, after_word(t, p + 7, text("pub")), text("async"));
    match (ident_at(t, p + 2), text_at(t, p + 4), ident_at(t, a + 1)) {
        (Some(w), Some(path), Some(name)) => if method_of(w) is Some && is_punct(t, p + 5, RPAREN)
            && is_punct(t, p + 6, RBRACKET) && is_ident(t, a, text("fn")) && is_punct(
            t,
            a + 2,
            LPAREN,
        ) {
            match params_from(
                t,
                a + 3,
                ParamsView { path: Seq::empty(), query: Seq::empty(), body: None },
            ) {
                Some((params, q)) => if is_punct(t, q, MINUS) && is_punct(t, q + 1, GREATER) {
                    match type_at(t, q + 2) {
                        Some((response, _)) => Some(
                            RouteDeclView {
                                method: method_of(w)->0,
                                path,
                                name,
                                path_params: params.path,
                                query_params: params.query,
                                body: params.body,
                                response,
                                file,
                            },
                        ),
                        None => None,
                    }
                } else {
                    None
                },
                None => None,
            }
        } else {
            None
        },
        _ => None,
    }
}

/// The declarations of one file: types and routes, each in the order of
/// their markers.
#[derive(Debug, PartialEq, Eq)]
pub struct Parsed {
    pub types: Vec<TypeDecl>,
    pub routes: Vec<RouteDecl>,
}

/// The declarations of one file as a mathematical value.
pub struct ParsedView {
    pub types: Seq<TypeDeclView>,
    pub routes: Seq<RouteDeclView>,
}

impl View for Parsed {
    type V = ParsedView;

    open spec fn view(&self) -> ParsedView {
        ParsedView { types: views(self.types@), routes: views(self.routes@) }
    }
}

/// Where a marker stands at `p`, a declaration of the expected shape
/// follows it.
pub open spec fn well_formed_at(t: Seq<TokenView>, p: int, file: Seq<u8>) -> bool {
    &&& type_marker(t, p) ==> decl_at(t, p, file) is Some
    &&& route_marker(t, p) ==> route_at(t, p, file) is Some
}

/// The declarations whose markers stand below position `n`, or the offset
/// of the first marker below `n` that no declaration follows.
pub open spec fn parsed_upto(t: Seq<TokenView>, file: Seq<u8>, n: int) -> Result<ParsedView, int>
    decreases n,
{
    if n <= 0 {
        Ok(ParsedView { types: Seq::empty(), routes: Seq::empty() })
    } else {
        match parsed_upto(t, file, n - 1) {
            Err(offset) => Err(offset),
            Ok(acc) => if type_marker(t, n - 1) {
                match decl_at(t, n - 1, file) {
                    Some(d) => Ok(ParsedView { types: acc.types.push(d), ..acc }),
                    None => Err(t[n - 1].offset),
                }
            } else if route_marker(t, n - 1) {
                match route_at(t, n - 1, file) {
                    Some(r) => Ok(ParsedView { routes: acc.routes.push(r), ..acc }),
                    None => Err(t[n - 1].offset),
                }
            } else {
                Ok(acc)
            },
        }
    }
}

/// A marker that no declaration follows fails the whole file.
pub proof fn lemma_parsed_upto_fails(t: Seq<TokenView>, file: Seq<u8>, n: int, m: int)
    requires
        n <= m,
        parsed_upto(t, file, n) is Err,
    ensures
        parsed_upto(t, file, m) == parsed_upto(t, file, n),
    decreases m - n,
{
    if n < m {
        lemma_parsed_upto_fails(t, file, n, m - 1);
    }
}

/// Parsing fails exactly where a marker is not followed by a declaration of
/// the expected shape, with the offset of the first such marker. Tokens
/// among which no marker stands give no declaration and no error.
pub proof fn lemma_parsed_upto(t: Seq<TokenView>, file: Seq<u8>, n: int)
    requires
        0 <= n <= t.len(),
    ensures
        match parsed_upto(t, file, n) {
            Ok(p) => (forall|k: int| 0 <= k < n ==> well_formed_at(t, k, file)) && ((forall|k: int|
                0 <= k < n ==> !type_marker(t, k)) ==> p.types.len() == 0) && ((forall|k: int|
                0 <= k < n ==> !route_marker(t, k)) ==> p.routes.len() == 0),
            Err(offset) => exists|k: int|
                0 <= k < n && t[k].offset == offset && !well_formed_at(t, k, file) && forall|l: int|
                    0 <= l < k ==> well_formed_at(t, l, file),
        },
    decreases n,
{
    if n > 0 {
        lemma_parsed_upto(t, file, n - 1);
        if parsed_upto(t, file, n - 1) is Ok && parsed_upto(t, file, n) is Err {
            assert(!well_formed_at(t, n - 1, file));
        }
    }
}

/// What parsing the tokens `t` of the file `file` gives.
pub open spec fn parsed_tokens(t: Seq<TokenView>, file: Seq<u8>) -> Result<ParsedView, int> {
    parsed_upto(t, file, t.len() as int)
}

/// What parsing a source unit gives.
pub open spec fn parsed(unit: SourceUnitView) -> Result<ParsedView, SyncErrorView> {
    match parsed_tokens(tokens(unit.text), unit.path) {
        Ok(p) => Ok(p),
        Err(offset) => Err(SyncErrorView::MalformedDeclaration { file: unit.path, offset }),
    }
}

fn punct_at(toks: &Vec<Token>, p: usize, b: u8) -> (r: bool)
    ensures
        r == is_punct(views(toks@), p as int, b),
{
    if p < toks.len() {
        match &toks[p].lexeme {
            Lexeme::Punct(c) => *c == b,
            _ => false,
        }
    } else {
        false
    }
}

fn word_at(toks: &Vec<Token>, p: usize, w: &str) -> (r: bool)
    ensures
        r == is_ident(views(toks@), p as int, text(w)),
{
    if p < toks.len() {
        match &toks[p].lexeme {
            Lexeme::Ident(v) => is_word(v.as_slice(), w),
            _ => false,
        }
    } else {
        false
    }
}

fn skip_word(toks: &Vec<Token>, p: usize, w: &str) -> (r: usize)
    requires
        p <= toks.len(),
    ensures
        r == after_word(views(toks@), p as int, text(w)),
        p <= r <= toks.len(),
{
    if word_at(toks, p, w) {
        p + 1
    } else {
        p
    }
}

fn name_at(toks: &Vec<Token>, p: usize) -> (r: Option<Vec<u8>>)
    ensures
        match r {
            Some(n) => ident_at(views(toks@), p as int) == Some(n@) && p < toks.len(),
            None => ident_at(views(toks@), p as int) is None,
        },
{
    if p < toks.len() {
        match &toks[p].lexeme {
            Lexeme::Ident(v) => Some(v.clone()),
            _ => None,
        }
    } else {
        None
    }
}

fn literal_at(toks: &Vec<Token>, p: usize) -> (r: Option<Vec<u8>>)
    ensures
        match r {
            Some(n) => text_at(views(toks@), p as int) == Some(n@) && p < toks.len(),
            None => text_at(views(toks@), p as int) is None,
        },
{
    if p < toks.len() {
        match &toks[p].lexeme {
            Lexeme::Text(v) => Some(v.clone()),
            _ => None,
        }
    } else {
        None
    }
}

/// Parses the type that starts at `p`.
pub fn parse_type(toks: &Vec<Token>, p: usize) -> (r: Option<(TypeRef, usize)>)
    ensures
        match r {
            Some((ty, q)) => type_at(views(toks@), p as int) == Some((ty@, q as int)) && p < q
                <= toks.len(),
            None => type_at(views(toks@), p as int) is None,
        },
    decreases toks.len() - p,
{
    let name = match name_at(toks, p) {
        Some(n) => n,
        None => { return None; },
    };
    if !punct_at(toks, p + 1, LESS) {
        return Some((TypeRef::NamedType(name), p + 1));
    }
    let list = is_word(name.as_slice(), "Vec");
    if list || is_word(name.as_slice(), "Option") {
        match parse_type(toks, p + 2) {
            Some((a, q)) => {
                if punct_at(toks, q, GREATER) {
                    if list {
                        Some((TypeRef::List(Box::new(a)), q + 1))
                    } else {
                        Some((TypeRef::Optional(Box::new(a)), q + 1))
                    }
                } else {
                    None
                }
            },
            None => None,
        }
    } else if is_word(name.as_slice(), "HashMap") || is_word(name.as_slice(), "BTreeMap") {
        match parse_type(toks, p + 2) {
            Some((k, q)) => {
                if punct_at(toks, q, COMMA) {
                    match parse_type(toks, q + 1) {
                        Some((v, r)) => {
                            if punct_at(toks, r, GREATER) {
                                Some((TypeRef::MapOf(Box::new(k), Box::new(v)), r + 1))
                            } else {
                                None
                            }
                        },
                        None => None,
                    }
                } else {
                    None
                }
            },
            None => None,
        }
    } else {
        None
    }
}

/// Builds a member from its name and its declared type.
pub fn make_member(name: Vec<u8>, ty: TypeRef) -> (r: Field)
    ensures
        r@ == member(name@, ty@),
{
    match ty {
        TypeRef::Optional(inner) => Field { name, ty: *inner, optional: true },
        other => Field { name, ty: other, optional: false },
    }
}

/// Parses the field or variant that starts at `p`.
pub fn parse_field(toks: &Vec<Token>, p: usize, kind: Kind) -> (r: Option<(Field, usize)>)
    ensures
        match r {
            Some((f, q)) => field_at(views(toks@), p as int, kind) == Some((f@, q as int)) && p < q
                <= toks.len(),
            None => field_at(views(toks@), p as int, kind) is None,
        },
{
    if p >= toks.len() {
        return None;
    }
    let a = skip_word(toks, p, "pub");
    let name = match name_at(toks, a) {
        Some(n) => n,
        None => { return None; },
    };
    match kind {
        Kind::Product => {
            if !punct_at(toks, a + 1, COLON) {
                return None;
            }
            match parse_type(toks, a + 2) {
                Some((ty, q)) => Some((make_member(name, ty), q)),
                None => None,
            }
        },
        Kind::Sum => {
            if !punct_at(toks, a + 1, LPAREN) {
                return None;
            }
            match parse_type(toks, a + 2) {
                Some((ty, q)) => {
                    if punct_at(toks, q, RPAREN) {
                        Some((make_member(name, ty), q + 1))
                    } else {
                        None
                    }
                },
                None => None,
            }
        },
    }
}

/// Parses the members from `start` up to the closing brace.
pub fn parse_fields(toks: &Vec<Token>, start: usize, kind: Kind) -> (r: Option<(Vec<Field>, usize)>)
    ensures
        match r {
            Some((fs, q)) => fields_from(views(toks@), start as int, kind, Seq::empty()) == Some(
                (views(fs@), q as int),
            ) && q <= toks.len(),
            None => fields_from(views(toks@), start as int, kind, Seq::empty()) is None,
        },
{
    if start >= toks.len() {
        return None;
    }
    let ghost t = views(toks@);
    let mut acc: Vec<Field> = Vec::new();
    let mut p: usize = start;
    assert(views(acc@) =~= Seq::<FieldView>::empty());
    loop
        invariant
            t == views(toks@),
            p <= toks.len(),
            fields_from(t, start as int, kind, Seq::empty()) == fields_from(
                t,
                p as int,
                kind,
                views(acc@),
            ),
        decreases toks.len() - p,
    {
        if punct_at(toks, p, RBRACE) {
            return Some((acc, p + 1));
        }
        match parse_field(toks, p, kind) {
            None => { return None; },
            Some((f, q)) => {
                let ghost grown = views(acc@).push(f@);
                if punct_at(toks, q, COMMA) {
                    acc.push(f);
                    assert(views(acc@) =~= grown);
                    p = q + 1;
                } else if punct_at(toks, q, RBRACE) {
                    acc.push(f);
                    assert(views(acc@) =~= grown);
                    return Some((acc, q + 1));
                } else {
                    return None;
                }
            },
        }
    }
}

fn type_marker_at(toks: &Vec<Token>, p: usize) -> (r: bool)
    requires
        p < toks.len(),
    ensures
        r == type_marker(views(toks@), p as int),
        r ==> p + 4 <= toks.len(),
{
    punct_at(toks, p, HASH) && punct_at(toks, p + 1, LBRACKET) && word_at(toks, p + 2, "tsync")
        && punct_at(toks, p + 3, RBRACKET)
}

/// Parses the type declaration that follows the marker at `p`.
pub fn parse_decl(toks: &Vec<Token>, p: usize, file: &Vec<u8>) -> (r: Option<TypeDecl>)
    ensures
        match r {
            Some(d) => decl_at(views(toks@), p as int, file@) == Some(d@),
            None => decl_at(views(toks@), p as int, file@) is None,
        },
{
    if p >= toks.len() || toks.len() - p < 5 {
        return None;
    }
    let a = skip_word(toks, p + 4, "pub");
    let kind = if word_at(toks, a, "struct") {
        Kind::Product
    } else if word_at(toks, a, "enum") {
        Kind::Sum
    } else {
        return None;
    };
    let name = match name_at(toks, a + 1) {
        Some(n) => n,
        None => { return None; },
    };
    if !punct_at(toks, a + 2, LBRACE) {
        return None;
    }
    match parse_fields(toks, a + 3, kind) {
        Some((fields, _)) => Some(TypeDecl { name, kind, fields, file: file.clone() }),
        None => None,
    }
}

/// The HTTP method that a marker word stands for.
pub fn method_for(w: &[u8]) -> (r: Option<Method>)
    ensures
        r == method_of(w@),
{
    if is_word(w, "get") {
        Some(Method::Get)
    } else if is_word(w, "post") {
        Some(Method::Post)
    } else if is_word(w, "put") {
        Some(Method::Put)
    } else if is_word(w, "patch") {
        Some(Method::Patch)
    } else if is_word(w, "delete") {
        Some(Method::Delete)
    } else {
        None
    }
}

fn route_marker_at(toks: &Vec<Token>, p: usize) -> (r: bool)
    requires
        p < toks.len(),
    ensures
        r == route_marker(views(toks@), p as int),
        r ==> p + 4 <= toks.len(),
{
    if punct_at(toks, p, HASH) && punct_at(toks, p + 1, LBRACKET) {
        match name_at(toks, p + 2) {
            Some(w) => method_for(w.as_slice()).is_some() && punct_at(toks, p + 3, LPAREN),
            None => false,
        }
    } else {
        false
    }
}

/// Parses the parameter that starts at `p` and adds it to `acc`.
pub fn parse_param(toks: &Vec<Token>, p: usize, acc: Params) -> (r: Option<(Params, usize)>)
    ensures
        match r {
            Some((next, q)) => param_at(views(toks@), p as int, acc@) == Some((next@, q as int))
                && p < q <= toks.len(),
            None => param_at(views(toks@), p as int, acc@) is None,
        },
{
    let name = match name_at(toks, p) {
        Some(n) => n,
        None => { return None; },
    };
    if !punct_at(toks, p + 1, COLON) {
        return None;
    }
    let w = match name_at(toks, p + 2) {
        Some(n) => n,
        None => { return None; },
    };
    if !punct_at(toks, p + 3, LESS) {
        return None;
    }
    let (ty, q) = match parse_type(toks, p + 4) {
        Some(found) => found,
        None => { return None; },
    };
    if !punct_at(toks, q, GREATER) {
        return None;
    }
    let mut acc = acc;
    if is_word(w.as_slice(), "Path") {
        let ghost grown = views(acc.path@).push(FieldView { name: name@, ty: ty@, optional: false });
        acc.path.push(Field { name, ty, optional: false });
        assert(views(acc.path@) =~= grown);
        Some((acc, q + 1))
    } else if is_word(w.as_slice(), "Query") {
        let ghost grown = views(acc.query@).push(member(name@, ty@));
        acc.query.push(make_member(name, ty));
        assert(views(acc.query@) =~= grown);
        Some((acc, q + 1))
    } else if is_word(w.as_slice(), "Json") && acc.body.is_none() {
        acc.body = Some(ty);
        Some((acc, q + 1))
    } else {
        None
    }
}

/// Parses the parameters from `start` up to the closing parenthesis.
pub fn parse_params(toks: &Vec<Token>, start: usize) -> (r: Option<(Params, usize)>)
    ensures
        match r {
            Some((params, q)) => params_from(
                views(toks@),
                start as int,
                ParamsView { path: Seq::empty(), query: Seq::empty(), body: None },
            ) == Some((params@, q as int)) && q <= toks.len(),
            None => params_from(
                views(toks@),
                start as int,
                ParamsView { path: Seq::empty(), query: Seq::empty(), body: None },
            ) is None,
        },
{
    if start >= toks.len() {
        return None;
    }
    let ghost t = views(toks@);
    let ghost none = ParamsView { path: Seq::empty(), query: Seq::empty(), body: None };
    let mut acc = Params { path: Vec::new(), query: Vec::new(), body: None };
    let mut p: usize = start;
    assert(acc@.path =~= none.path && acc@.query =~= none.query);
    loop
        invariant
            t == views(toks@),
            none == (ParamsView { path: Seq::empty(), query: Seq::empty(), body: None }),
            p <= toks.len(),
            params_from(t, start as int, none) == params_from(t, p as int, acc@),
        decreases toks.len() - p,
    {
        if punct_at(toks, p, RPAREN) {
            return Some((acc, p + 1));
        }
        match parse_param(toks, p, acc) {
            None => { return None; },
            Some((next, q)) => {
                if punct_at(toks, q, COMMA) {
                    acc = next;
                    p = q + 1;
                } else if punct_at(toks, q, RPAREN) {
                    return Some((next, q + 1));
                } else {
                    return None;
                }
            },
        }
    }
}

/// Parses the route declaration that the marker at `p` opens.
pub fn parse_route(toks: &Vec<Token>, p: usize, file: &Vec<u8>) -> (r: Option<RouteDecl>)
    ensures
        match r {
            Some(d) => route_at(views(toks@), p as int, file@) == Some(d@),
            None => route_at(views(toks@), p as int, file@) is None,
        },
{
    if p >= toks.len() || toks.len() - p < 7 {
        return None;
    }
    let method = match name_at(toks, p + 2) {
        Some(w) => match method_for(w.as_slice()) {
            Some(m) => m,
            None => { return None; },
        },
        None => { return None; },
    };
    let path = match literal_at(toks, p + 4) {
        Some(s) => s,
        None => { return None; },
    };
    if !(punct_at(toks, p + 5, RPAREN) && punct_at(toks, p + 6, RBRACKET)) {
        return None;
    }
    let a0 = skip_word(toks, p + 7, "pub");
    let a = skip_word(toks, a0, "async");
    if !word_at(toks, a, "fn") {
        return None;
    }
    let name = match name_at(toks, a + 1) {
        Some(n) => n,
        None => { return None; },
    };
    if !punct_at(toks, a + 2, LPAREN) {
        return None;
    }
    let (params, q) = match parse_params(toks, a + 3) {
        Some(found) => found,
        None => { return None; },
    };
    if !(punct_at(toks, q, MINUS) && punct_at(toks, q + 1, GREATER)) {
        return None;
    }
    match parse_type(toks, q + 2) {
        Some((response, _)) => Some(
            RouteDecl {
                method,
                path,
                name,
                path_params: params.path,
                query_params: params.query,
                body: params.body,
                response,
                file: file.clone(),
            },
        ),
        None => None,
    }
}

/// Collects the declarations that the markers among `toks` open.
pub fn parse_tokens(toks: &Vec<Token>, file: &Vec<u8>) -> (r: Result<Parsed, SyncError>)
    ensures
        match r {
            Ok(p) => parsed_tokens(views(toks@), file@) == Ok::<ParsedView, int>(p@),
            Err(e) => parsed_tokens(views(toks@), file@) matches Err(offset) && e@
                == (SyncErrorView::MalformedDeclaration { file: file@, offset }),
        },
        r is Ok <==> forall|k: int| 0 <= k < toks.len() ==> well_formed_at(views(toks@), k, file@),
{
    let ghost t = views(toks@);
    let mut acc = Parsed { types: Vec::new(), routes: Vec::new() };
    let mut n: usize = 0;
    assert(acc@.types =~= Seq::<TypeDeclView>::empty() && acc@.routes =~= Seq::<
        RouteDeclView,
    >::empty());
    while n < toks.len()
        invariant
            t == views(toks@),
            n <= toks.len(),
            parsed_upto(t, file@, n as int) == Ok::<ParsedView, int>(acc@),
        decreases toks.len() - n,
    {
        if type_marker_at(toks, n) {
            match parse_decl(toks, n, file) {
                Some(d) => {
                    let ghost grown = acc@.types.push(d@);
                    acc.types.push(d);
                    assert(acc@.types =~= grown);
                },
                None => {
                    proof {
                        lemma_parsed_upto_fails(t, file@, n + 1, t.len() as int);
                        lemma_parsed_upto(t, file@, t.len() as int);
                    }
                    return Err(
                        SyncError::MalformedDeclaration {
                            file: file.clone(),
                            offset: toks[n].offset,
                        },
                    );
                },
            }
        } else if route_marker_at(toks, n) {
            match parse_route(toks, n, file) {
                Some(d) => {
                    let ghost grown = acc@.routes.push(d@);
                    acc.routes.push(d);
                    assert(acc@.routes =~= grown);
                },
                None => {
                    proof {
                        lemma_parsed_upto_fails(t, file@, n + 1, t.len() as int);
                        lemma_parsed_upto(t, file@, t.len() as int);
                    }
                    return Err(
                        SyncError::MalformedDeclaration {
                            file: file.clone(),
                            offset: toks[n].offset,
                        },
                    );
                },
            }
        }
        n += 1;
    }
    proof {
        lemma_parsed_upto(t, file@, t.len() as int);
    }
    Ok(acc)
}

/// Parses one source unit into the declarations that its markers open.
pub fn parse_source(unit: &SourceUnit) -> (r: Result<Parsed, SyncError>)
    ensures
        match r {
            Ok(p) => parsed(unit@) == Ok::<ParsedView, SyncErrorView>(p@),
            Err(e) => parsed(unit@) == Err::<ParsedView, SyncErrorView>(e@),
        },
{
    let toks = tokenize(unit.text.as_slice());
    parse_tokens(&toks, &unit.path)
}

} // verus!
