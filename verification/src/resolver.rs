//! The type resolver: builds the symbol table from the declarations of all
//! files, refuses duplicate names, and turns every name in a member's type
//! into a primitive or a reference to a declared type.

use vstd::prelude::*;
use crate::bytes::{is_word, same_bytes, text};
use crate::model::{
    views, Field, FieldView, Primitive, SyncError, SyncErrorView, TypeDecl, TypeDeclView, TypeRef,
    TypeRefView,
};

verus! {

/// The primitive that a name stands for, if it is the name of one.
pub open spec fn primitive_of(name: Seq<u8>) -> Option<Primitive> {
    if name == text("bool") {
        Some(Primitive::Bool)
    } else if name == text("String") || name == text("str") || name == text("char") {
        Some(Primitive::Text)
    } else if name == text("i128") || name == text("u128") {
        Some(Primitive::Wide)
    } else if name == text("i8") || name == text("i16") || name == text("i32") || name == text(
        "i64",
    ) || name == text("isize") || name == text("u8") || name == text("u16") || name == text("u32")
        || name == text("u64") || name == text("usize") || name == text("f32") || name == text(
        "f64",
    ) {
        Some(Primitive::Number)
    } else {
        None
    }
}

/// The names of the declarations, in order.
pub open spec fn names_of(decls: Seq<TypeDeclView>) -> Seq<Seq<u8>> {
    Seq::new(decls.len(), |i: int| decls[i].name)
}

/// The least index from `from` on at which `name` stands in `names`.
pub open spec fn find_from(names: Seq<Seq<u8>>, name: Seq<u8>, from: int) -> Option<int>
    decreases names.len() - from,
{
    if from >= names.len() {
        None
    } else if names[from] == name {
        Some(from)
    } else {
        find_from(names, name, from + 1)
    }
}

/// A search finds the least index at which the name stands, and finds
/// nothing only where the name stands nowhere.
pub proof fn lemma_find_from(names: Seq<Seq<u8>>, name: Seq<u8>, from: int)
    requires
        0 <= from,
    ensures
        match find_from(names, name, from) {
            Some(i) => from <= i < names.len() && names[i] == name && forall|k: int|
                from <= k < i ==> names[k] != name,
            None => forall|k: int| from <= k < names.len() ==> names[k] != name,
        },
    decreases names.len() - from,
{
    if from < names.len() && names[from] != name {
        lemma_find_from(names, name, from + 1);
    }
}

/// No two declarations have the same name.
pub open spec fn distinct_names(names: Seq<Seq<u8>>) -> bool {
    forall|i: int, j: int| 0 <= i < j < names.len() ==> names[i] != names[j]
}

/// The first declaration below `n` whose name an earlier one has, with the
/// first of those earlier ones: `(earlier, later)`.
pub open spec fn duplicate_upto(names: Seq<Seq<u8>>, n: int) -> Option<(int, int)>
    decreases n,
{
    if n <= 0 {
        None
    } else {
        match duplicate_upto(names, n - 1) {
            Some(found) => Some(found),
            None => match find_from(names.take(n - 1), names[n - 1], 0) {
                Some(i) => Some((i, n - 1)),
                None => None,
            },
        }
    }
}

/// There is a duplicate below `n` exactly if two names below `n` are equal;
/// the one reported is the first.
pub proof fn lemma_duplicate_upto(names: Seq<Seq<u8>>, n: int)
    requires
        0 <= n <= names.len(),
    ensures
        match duplicate_upto(names, n) {
            Some((i, j)) => 0 <= i < j < n && names[i] == names[j] && distinct_names(
                names.take(j),
            ) && forall|k: int| 0 <= k < i ==> names[k] != names[j],
            None => distinct_names(names.take(n)),
        },
    decreases n,
{
    if n > 0 {
        lemma_duplicate_upto(names, n - 1);
        if duplicate_upto(names, n - 1) is None {
            lemma_find_from(names.take(n - 1), names[n - 1], 0);
            if let Some(i) = find_from(names.take(n - 1), names[n - 1], 0) {
                assert(names.take(n - 1)[i] == names[i]);
                assert forall|k: int| 0 <= k < i implies #[trigger] names[k] != names[n - 1] by {
                    assert(names.take(n - 1)[k] == names[k]);
                }
            }
            if find_from(names.take(n - 1), names[n - 1], 0) is None {
                assert forall|i: int, j: int| 0 <= i < j < n implies names.take(n)[i]
                    != names.take(n)[j] by {
                    if j < n - 1 {
                        assert(names.take(n - 1)[i] != names.take(n - 1)[j]);
                    } else {
                        assert(names.take(n - 1)[i] != names[n - 1]);
                    }
                }
            }
        }
    }
}

/// What resolving the names in `ty` gives: a primitive for the name of one,
/// a reference for a name in `names`, and otherwise the first name, from
/// left to right, that is neither.
pub open spec fn resolve_type(names: Seq<Seq<u8>>, ty: TypeRefView) -> Result<
    TypeRefView,
    Seq<u8>,
>
    decreases ty,
{
    match ty {
        TypeRefView::Primitive(p) => Ok(TypeRefView::Primitive(p)),
        TypeRefView::NamedType(n) => match primitive_of(n) {
            Some(p) => Ok(TypeRefView::Primitive(p)),
            None => if names.contains(n) {
                Ok(TypeRefView::NamedType(n))
            } else {
                Err(n)
            },
        },
        TypeRefView::List(a) => match resolve_type(names, *a) {
            Ok(r) => Ok(TypeRefView::List(Box::new(r))),
            Err(n) => Err(n),
        },
        TypeRefView::Optional(a) => match resolve_type(names, *a) {
            Ok(r) => Ok(TypeRefView::Optional(Box::new(r))),
            Err(n) => Err(n),
        },
        TypeRefView::MapOf(k, v) => match resolve_type(names, *k) {
            Err(n) => Err(n),
            Ok(rk) => match resolve_type(names, *v) {
                Ok(rv) => Ok(TypeRefView::MapOf(Box::new(rk), Box::new(rv))),
                Err(n) => Err(n),
            },
        },
    }
}

/// Every named type in `ty` is one of `names`.
pub open spec fn closed_type(names: Seq<Seq<u8>>, ty: TypeRefView) -> bool
    decreases ty,
{
    match ty {
        TypeRefView::Primitive(_) => true,
        TypeRefView::NamedType(n) => names.contains(n),
        TypeRefView::List(a) => closed_type(names, *a),
        TypeRefView::Optional(a) => closed_type(names, *a),
        TypeRefView::MapOf(k, v) => closed_type(names, *k) && closed_type(names, *v),
    }
}

/// Every name in `ty` is that of a primitive or one of `names`.
pub open spec fn known_type(names: Seq<Seq<u8>>, ty: TypeRefView) -> bool
    decreases ty,
{
    match ty {
        TypeRefView::Primitive(_) => true,
        TypeRefView::NamedType(n) => primitive_of(n) is Some || names.contains(n),
        TypeRefView::List(a) => known_type(names, *a),
        TypeRefView::Optional(a) => known_type(names, *a),
        TypeRefView::MapOf(k, v) => known_type(names, *k) && known_type(names, *v),
    }
}

/// Whether `name` stands in `ty`.
pub open spec fn mentions(ty: TypeRefView, name: Seq<u8>) -> bool
    decreases ty,
{
    match ty {
        TypeRefView::Primitive(_) => false,
        TypeRefView::NamedType(n) => n == name,
        TypeRefView::List(a) => mentions(*a, name),
        TypeRefView::Optional(a) => mentions(*a, name),
        TypeRefView::MapOf(k, v) => mentions(*k, name) || mentions(*v, name),
    }
}

/// A name that stands in a type closed over `names` is one of `names`.
pub proof fn lemma_closed_mentions(names: Seq<Seq<u8>>, ty: TypeRefView, name: Seq<u8>)
    requires
        closed_type(names, ty),
        mentions(ty, name),
    ensures
        names.contains(name),
    decreases ty,
{
    match ty {
        TypeRefView::Primitive(_) => {},
        TypeRefView::NamedType(_) => {},
        TypeRefView::List(a) => lemma_closed_mentions(names, *a, name),
        TypeRefView::Optional(a) => lemma_closed_mentions(names, *a, name),
        TypeRefView::MapOf(k, v) => {
            if mentions(*k, name) {
                lemma_closed_mentions(names, *k, name);
            } else {
                lemma_closed_mentions(names, *v, name);
            }
        },
    }
}

/// Resolution succeeds exactly on the types whose names are all known, and
/// then gives a type closed over `names`; where it fails, the name it gives
/// stands in the type and is neither a primitive's nor one of `names`.
pub proof fn lemma_resolve_type(names: Seq<Seq<u8>>, ty: TypeRefView)
    ensures
        match resolve_type(names, ty) {
            Ok(r) => known_type(names, ty) && closed_type(names, r),
            Err(n) => !known_type(names, ty) && mentions(ty, n) && primitive_of(n) is None
                && !names.contains(n),
        },
    decreases ty,
{
    match ty {
        TypeRefView::Primitive(_) => {},
        TypeRefView::NamedType(_) => {},
        TypeRefView::List(a) => lemma_resolve_type(names, *a),
        TypeRefView::Optional(a) => lemma_resolve_type(names, *a),
        TypeRefView::MapOf(k, v) => {
            lemma_resolve_type(names, *k);
            lemma_resolve_type(names, *v);
        },
    }
}

/// The first `n` members with their types resolved, or the name of the
/// first member below `n` whose type does not resolve, with the name that
/// is unknown: `(member, name)`.
pub open spec fn resolve_members(names: Seq<Seq<u8>>, fields: Seq<FieldView>, n: int) -> Result<
    Seq<FieldView>,
    (Seq<u8>, Seq<u8>),
>
    decreases n,
{
    if n <= 0 {
        Ok(Seq::empty())
    } else {
        match resolve_members(names, fields, n - 1) {
            Err(e) => Err(e),
            Ok(acc) => match resolve_type(names, fields[n - 1].ty) {
                Ok(ty) => Ok(acc.push(FieldView { ty, ..fields[n - 1] })),
                Err(name) => Err((fields[n - 1].name, name)),
            },
        }
    }
}

/// The members resolve exactly where each of their types does, one for
/// one; the error is that of the first member whose type does not.
pub proof fn lemma_resolve_members(names: Seq<Seq<u8>>, fields: Seq<FieldView>, n: int)
    requires
        0 <= n <= fields.len(),
    ensures
        match resolve_members(names, fields, n) {
            Ok(r) => r.len() == n && forall|k: int|
                0 <= k < n ==> (#[trigger] r[k]).name == fields[k].name && r[k].optional
                    == fields[k].optional && resolve_type(names, fields[k].ty) == Ok::<
                    TypeRefView,
                    Seq<u8>,
                >(r[k].ty) && closed_type(names, r[k].ty),
            Err((member, name)) => exists|k: int|
                0 <= k < n && fields[k].name == member && resolve_type(names, fields[k].ty) == Err::<
                    TypeRefView,
                    Seq<u8>,
                >(name) && forall|l: int|
                    0 <= l < k ==> resolve_type(names, (#[trigger] fields[l]).ty) is Ok,
        },
    decreases n,
{
    if n > 0 {
        lemma_resolve_members(names, fields, n - 1);
        lemma_resolve_type(names, fields[n - 1].ty);
        match resolve_members(names, fields, n - 1) {
            Ok(acc) => {
                if resolve_type(names, fields[n - 1].ty) is Err {
                    assert forall|l: int| 0 <= l < n - 1 implies resolve_type(
                        names,
                        (#[trigger] fields[l]).ty,
                    ) is Ok by {
                        assert(acc[l].name == fields[l].name);
                    }
                }
            },
            Err(_) => {},
        }
    }
}

/// The declaration `d` with the types of its members resolved, or the
/// error that names the first member whose type does not resolve.
pub open spec fn resolve_decl(names: Seq<Seq<u8>>, d: TypeDeclView) -> Result<
    TypeDeclView,
    SyncErrorView,
> {
    match resolve_members(names, d.fields, d.fields.len() as int) {
        Ok(fields) => Ok(TypeDeclView { fields, ..d }),
        Err((field, name)) => Err(
            SyncErrorView::UnknownType { name, file: d.file, owner: d.name, field },
        ),
    }
}

/// The first `n` declarations resolved, or the error of the first below `n`
/// that does not resolve.
pub open spec fn resolve_decls(names: Seq<Seq<u8>>, raw: Seq<TypeDeclView>, n: int) -> Result<
    Seq<TypeDeclView>,
    SyncErrorView,
>
    decreases n,
{
    if n <= 0 {
        Ok(Seq::empty())
    } else {
        match resolve_decls(names, raw, n - 1) {
            Err(e) => Err(e),
            Ok(acc) => match resolve_decl(names, raw[n - 1]) {
                Ok(d) => Ok(acc.push(d)),
                Err(e) => Err(e),
            },
        }
    }
}

/// The symbol table of the declarations `raw`: the declarations in their
/// order, resolved; or the first duplicate; or, where no name is declared
/// twice, the first member with an unknown type.
pub open spec fn resolved_table(raw: Seq<TypeDeclView>) -> Result<Seq<TypeDeclView>, SyncErrorView> {
    match duplicate_upto(names_of(raw), raw.len() as int) {
        Some((i, j)) => Err(
            SyncErrorView::DuplicateType {
                name: raw[j].name,
                first_file: raw[i].file,
                file: raw[j].file,
            },
        ),
        None => resolve_decls(names_of(raw), raw, raw.len() as int),
    }
}

/// The members of every declaration have types closed over the declared
/// names.
pub open spec fn closed_decls(decls: Seq<TypeDeclView>) -> bool {
    forall|i: int, k: int|
        0 <= i < decls.len() && 0 <= k < decls[i].fields.len() ==> closed_type(
            names_of(decls),
            #[trigger] decls[i].fields[k].ty,
        )
}

/// What holds of a symbol table: names are unique and every reference
/// leads to a declaration.
pub open spec fn resolved(decls: Seq<TypeDeclView>) -> bool {
    distinct_names(names_of(decls)) && closed_decls(decls)
}

/// The members of every declaration have types whose names are all known.
pub open spec fn known_decls(raw: Seq<TypeDeclView>) -> bool {
    forall|i: int, k: int|
        0 <= i < raw.len() && 0 <= k < raw[i].fields.len() ==> known_type(
            names_of(raw),
            #[trigger] raw[i].fields[k].ty,
        )
}

/// The declarations resolve exactly where each of them does, one for one;
/// the error is that of the first that does not.
pub proof fn lemma_resolve_decls(names: Seq<Seq<u8>>, raw: Seq<TypeDeclView>, n: int)
    requires
        0 <= n <= raw.len(),
    ensures
        match resolve_decls(names, raw, n) {
            Ok(r) => r.len() == n && forall|i: int|
                0 <= i < n ==> resolve_decl(names, raw[i]) == Ok::<TypeDeclView, SyncErrorView>(
                    #[trigger] r[i],
                ),
            Err(e) => exists|i: int|
                0 <= i < n && resolve_decl(names, raw[i]) == Err::<TypeDeclView, SyncErrorView>(e)
                    && forall|l: int| 0 <= l < i ==> resolve_decl(names, #[trigger] raw[l]) is Ok,
        },
    decreases n,
{
    if n > 0 {
        lemma_resolve_decls(names, raw, n - 1);
        match resolve_decls(names, raw, n - 1) {
            Ok(acc) => {
                if resolve_decl(names, raw[n - 1]) is Err {
                    assert forall|l: int| 0 <= l < n - 1 implies resolve_decl(
                        names,
                        #[trigger] raw[l],
                    ) is Ok by {
                        assert(resolve_decl(names, raw[l]) == Ok::<TypeDeclView, SyncErrorView>(
                            acc[l],
                        ));
                    }
                }
            },
            Err(_) => {},
        }
    }
}

/// Resolution gives a table exactly where no name is declared twice and
/// every name in a member's type is known. The table then holds the
/// declarations in their order, under their names, and is closed. A name
/// declared twice gives `DuplicateType`; otherwise a member with an unknown
/// name gives `UnknownType`, and the name it reports is neither a
/// primitive's nor declared.
pub proof fn lemma_resolved_table(raw: Seq<TypeDeclView>)
    ensures
        match resolved_table(raw) {
            Ok(t) => distinct_names(names_of(raw)) && known_decls(raw) && resolved(t) && names_of(t)
                == names_of(raw),
            Err(SyncErrorView::DuplicateType { name, .. }) => !distinct_names(names_of(raw))
                && names_of(raw).contains(name),
            Err(SyncErrorView::UnknownType { name, owner, .. }) => distinct_names(names_of(raw))
                && !known_decls(raw) && names_of(raw).contains(owner) && primitive_of(name) is None
                && !names_of(raw).contains(name),
            Err(_) => false,
        },
{
    let names = names_of(raw);
    lemma_duplicate_upto(names, raw.len() as int);
    assert(names.take(raw.len() as int) =~= names);
    match duplicate_upto(names, raw.len() as int) {
        Some((i, j)) => {
            assert(names[j] == raw[j].name);
        },
        None => {
            lemma_resolve_decls(names, raw, raw.len() as int);
            match resolve_decls(names, raw, raw.len() as int) {
                Ok(t) => {
                    assert(names_of(t) =~= names) by {
                        assert forall|i: int| 0 <= i < t.len() implies t[i].name == raw[i].name by {
                            assert(resolve_decl(names, raw[i]) == Ok::<
                                TypeDeclView,
                                SyncErrorView,
                            >(t[i]));
                        }
                    }
                    assert forall|i: int, k: int|
                        0 <= i < raw.len() && 0 <= k < raw[i].fields.len() implies known_type(
                        names,
                        #[trigger] raw[i].fields[k].ty,
                    ) by {
                        assert(resolve_decl(names, raw[i]) == Ok::<TypeDeclView, SyncErrorView>(
                            t[i],
                        ));
                        lemma_resolve_members(names, raw[i].fields, raw[i].fields.len() as int);
                        lemma_resolve_type(names, raw[i].fields[k].ty);
                        assert(resolve_type(names, raw[i].fields[k].ty) == Ok::<
                            TypeRefView,
                            Seq<u8>,
                        >(t[i].fields[k].ty));
                    }
                    assert forall|i: int, k: int|
                        0 <= i < t.len() && 0 <= k < t[i].fields.len() implies closed_type(
                        names_of(t),
                        #[trigger] t[i].fields[k].ty,
                    ) by {
                        assert(resolve_decl(names, raw[i]) == Ok::<TypeDeclView, SyncErrorView>(
                            t[i],
                        ));
                        lemma_resolve_members(names, raw[i].fields, raw[i].fields.len() as int);
                    }
                },
                Err(e) => {
                    let i = choose|i: int|
                        0 <= i < raw.len() && resolve_decl(names, raw[i]) == Err::<
                            TypeDeclView,
                            SyncErrorView,
                        >(e);
                    lemma_resolve_members(names, raw[i].fields, raw[i].fields.len() as int);
                    let (member, name) = resolve_members(
                        names,
                        raw[i].fields,
                        raw[i].fields.len() as int,
                    )->Err_0;
                    let k = choose|k: int|
                        0 <= k < raw[i].fields.len() && raw[i].fields[k].name == member
                            && resolve_type(names, raw[i].fields[k].ty) == Err::<
                            TypeRefView,
                            Seq<u8>,
                        >(name);
                    lemma_resolve_type(names, raw[i].fields[k].ty);
                    assert(names[i] == raw[i].name);
                },
            }
        },
    }
}

/// The symbol table: every declared type, by name.
#[derive(Debug, PartialEq, Eq)]
pub struct SymbolTable {
    decls: Vec<TypeDecl>,
}

impl View for SymbolTable {
    type V = Seq<TypeDeclView>;

    closed spec fn view(&self) -> Seq<TypeDeclView> {
        views(self.decls@)
    }
}

/// The primitive that a name stands for.
pub fn primitive_for(name: &[u8]) -> (r: Option<Primitive>)
    ensures
        r == primitive_of(name@),
{
    if is_word(name, "bool") {
        Some(Primitive::Bool)
    } else if is_word(name, "String") || is_word(name, "str") || is_word(name, "char") {
        Some(Primitive::Text)
    } else if is_word(name, "i128") || is_word(name, "u128") {
        Some(Primitive::Wide)
    } else if is_word(name, "i8") || is_word(name, "i16") || is_word(name, "i32") || is_word(
        name,
        "i64",
    ) || is_word(name, "isize") || is_word(name, "u8") || is_word(name, "u16") || is_word(
        name,
        "u32",
    ) || is_word(name, "u64") || is_word(name, "usize") || is_word(name, "f32") || is_word(
        name,
        "f64",
    ) {
        Some(Primitive::Number)
    } else {
        None
    }
}

/// The least index below `limit` of a declaration called `name`.
pub fn find_below(decls: &Vec<TypeDecl>, limit: usize, name: &[u8]) -> (r: Option<usize>)
    requires
        limit <= decls.len(),
    ensures
        match r {
            Some(i) => find_from(names_of(views(decls@)).take(limit as int), name@, 0) == Some(
                i as int,
            ) && i < limit,
            None => find_from(names_of(views(decls@)).take(limit as int), name@, 0) is None,
        },
{
    let ghost names = names_of(views(decls@)).take(limit as int);
    let mut i: usize = 0;
    while i < limit
        invariant
            i <= limit <= decls.len(),
            names == names_of(views(decls@)).take(limit as int),
            find_from(names, name@, 0) == find_from(names, name@, i as int),
        decreases limit - i,
    {
        if same_bytes(decls[i].name.as_slice(), name) {
            return Some(i);
        }
        i += 1;
    }
    None
}

/// Resolves the names in `ty` against the declarations `decls`.
pub fn resolve_in(decls: &Vec<TypeDecl>, ty: &TypeRef) -> (r: Result<TypeRef, Vec<u8>>)
    ensures
        match r {
            Ok(t) => resolve_type(names_of(views(decls@)), ty@) == Ok::<TypeRefView, Seq<u8>>(t@),
            Err(n) => resolve_type(names_of(views(decls@)), ty@) == Err::<TypeRefView, Seq<u8>>(n@),
        },
    decreases ty,
{
    let ghost names = names_of(views(decls@));
    match ty {
        TypeRef::Primitive(p) => Ok(TypeRef::Primitive(*p)),
        TypeRef::NamedType(n) => match primitive_for(n.as_slice()) {
            Some(p) => Ok(TypeRef::Primitive(p)),
            None => {
                proof {
                    lemma_find_from(names.take(decls.len() as int), n@, 0);
                    assert(names.take(decls.len() as int) =~= names);
                }
                match find_below(decls, decls.len(), n.as_slice()) {
                    Some(_) => Ok(TypeRef::NamedType(n.clone())),
                    None => Err(n.clone()),
                }
            },
        },
        TypeRef::List(a) => match resolve_in(decls, a) {
            Ok(t) => Ok(TypeRef::List(Box::new(t))),
            Err(n) => Err(n),
        },
        TypeRef::Optional(a) => match resolve_in(decls, a) {
            Ok(t) => Ok(TypeRef::Optional(Box::new(t))),
            Err(n) => Err(n),
        },
        TypeRef::MapOf(k, v) => match resolve_in(decls, k) {
            Err(n) => Err(n),
            Ok(rk) => match resolve_in(decls, v) {
                Ok(rv) => Ok(TypeRef::MapOf(Box::new(rk), Box::new(rv))),
                Err(n) => Err(n),
            },
        },
    }
}

/// Resolves the types of `fields` against the declarations `decls`. An
/// error holds the member's name, then the unknown name.
pub fn resolve_members_in(decls: &Vec<TypeDecl>, fields: &Vec<Field>) -> (r: Result<
    Vec<Field>,
    (Vec<u8>, Vec<u8>),
>)
    ensures
        match r {
            Ok(out) => resolve_members(
                names_of(views(decls@)),
                views(fields@),
                fields.len() as int,
            ) == Ok::<Seq<FieldView>, (Seq<u8>, Seq<u8>)>(views(out@)),
            Err((member, name)) => resolve_members(
                names_of(views(decls@)),
                views(fields@),
                fields.len() as int,
            ) == Err::<Seq<FieldView>, (Seq<u8>, Seq<u8>)>((member@, name@)),
        },
{
    let ghost names = names_of(views(decls@));
    let mut out: Vec<Field> = Vec::new();
    let mut i: usize = 0;
    assert(views(out@) =~= Seq::<FieldView>::empty());
    while i < fields.len()
        invariant
            i <= fields.len(),
            names == names_of(views(decls@)),
            resolve_members(names, views(fields@), i as int) == Ok::<
                Seq<FieldView>,
                (Seq<u8>, Seq<u8>),
            >(views(out@)),
        decreases fields.len() - i,
    {
        let f = &fields[i];
        match resolve_in(decls, &f.ty) {
            Ok(ty) => {
                let ghost grown = views(out@).push(FieldView { ty: ty@, ..f@ });
                out.push(Field { name: f.name.clone(), ty, optional: f.optional });
                assert(views(out@) =~= grown);
            },
            Err(name) => {
                proof {
                    lemma_resolve_members_fails(names, views(fields@), i + 1, fields.len() as int);
                }
                return Err((f.name.clone(), name));
            },
        }
        i += 1;
    }
    Ok(out)
}

impl SymbolTable {
    #[verifier::type_invariant]
    closed spec fn inv(&self) -> bool {
        resolved(views(self.decls@))
    }

    /// Names are unique and every reference leads to a declaration. This
    /// holds of every symbol table.
    pub open spec fn wf(&self) -> bool {
        resolved(self@)
    }

    /// Builds the symbol table of the declarations `raw`, the declarations
    /// of all files in the order of the files.
    pub fn build(raw: &Vec<TypeDecl>) -> (r: Result<SymbolTable, SyncError>)
        ensures
            match r {
                Ok(t) => resolved_table(views(raw@)) == Ok::<Seq<TypeDeclView>, SyncErrorView>(t@)
                    && t.wf(),
                Err(e) => resolved_table(views(raw@)) == Err::<Seq<TypeDeclView>, SyncErrorView>(
                    e@,
                ),
            },
            r is Ok <==> distinct_names(names_of(views(raw@))) && known_decls(views(raw@)),
            r matches Err(SyncError::DuplicateType { .. }) <==> !distinct_names(
                names_of(views(raw@)),
            ),
            r matches Err(SyncError::UnknownType { .. }) <==> distinct_names(
                names_of(views(raw@)),
            ) && !known_decls(views(raw@)),
    {
        let ghost rawv = views(raw@);
        let ghost names = names_of(rawv);
        let mut j: usize = 0;
        while j < raw.len()
            invariant
                j <= raw.len(),
                rawv == views(raw@),
                names == names_of(rawv),
                duplicate_upto(names, j as int) is None,
            decreases raw.len() - j,
        {
            match find_below(raw, j, raw[j].name.as_slice()) {
                Some(i) => {
                    proof {
                        lemma_duplicate_found(names, j + 1, raw.len() as int);
                        lemma_resolved_table(rawv);
                    }
                    return Err(
                        SyncError::DuplicateType {
                            name: raw[j].name.clone(),
                            first_file: raw[i].file.clone(),
                            file: raw[j].file.clone(),
                        },
                    );
                },
                None => {},
            }
            j += 1;
        }
        let mut out: Vec<TypeDecl> = Vec::new();
        let mut i: usize = 0;
        assert(views(out@) =~= Seq::<TypeDeclView>::empty());
        while i < raw.len()
            invariant
                i <= raw.len(),
                rawv == views(raw@),
                names == names_of(rawv),
                duplicate_upto(names, raw.len() as int) is None,
                resolve_decls(names, rawv, i as int) == Ok::<Seq<TypeDeclView>, SyncErrorView>(
                    views(out@),
                ),
            decreases raw.len() - i,
        {
            let d = &raw[i];
            assert(rawv[i as int] == d@);
            match resolve_members_in(raw, &d.fields) {
                Ok(fields) => {
                    let ghost grown = views(out@).push(TypeDeclView { fields: views(fields@), ..d@ });
                    out.push(
                        TypeDecl { name: d.name.clone(), kind: d.kind, fields, file: d.file.clone() },
                    );
                    assert(views(out@) =~= grown);
                },
                Err((field, name)) => {
                    proof {
                        lemma_resolve_decls_fails(names, rawv, i + 1, raw.len() as int);
                        lemma_resolved_table(rawv);
                    }
                    return Err(
                        SyncError::UnknownType {
                            name,
                            file: d.file.clone(),
                            owner: d.name.clone(),
                            field,
                        },
                    );
                },
            }
            i += 1;
        }
        proof {
            lemma_resolved_table(rawv);
        }
        Ok(SymbolTable { decls: out })
    }

    /// The declarations, in the order in which they were given.
    pub fn decls(&self) -> (r: &Vec<TypeDecl>)
        ensures
            views(r@) == self@,
            self.wf(),
    {
        proof {
            use_type_invariant(self);
        }
        &self.decls
    }

    /// The number of declared types.
    pub fn len(&self) -> (r: usize)
        ensures
            r == self@.len(),
    {
        self.decls.len()
    }

    /// The index of the declaration called `name`, if there is one.
    pub fn find(&self, name: &[u8]) -> (r: Option<usize>)
        ensures
            match r {
                Some(i) => i < self@.len() && self@[i as int].name == name@ && forall|k: int|
                    0 <= k < self@.len() && self@[k].name == name@ ==> k == i,
                None => !names_of(self@).contains(name@),
            },
    {
        proof {
            use_type_invariant(self);
            lemma_find_from(names_of(self@).take(self@.len() as int), name@, 0);
            assert(names_of(self@).take(self@.len() as int) =~= names_of(self@));
        }
        let r = find_below(&self.decls, self.decls.len(), name);
        proof {
            if let Some(i) = r {
                assert forall|k: int| 0 <= k < self@.len() && self@[k].name == name@ implies k
                    == i by {
                    assert(names_of(self@)[k] == names_of(self@)[i as int]);
                }
            }
        }
        r
    }

    /// Resolves the names in `ty` against this table.
    pub fn resolve(&self, ty: &TypeRef) -> (r: Result<TypeRef, Vec<u8>>)
        ensures
            match r {
                Ok(t) => resolve_type(names_of(self@), ty@) == Ok::<TypeRefView, Seq<u8>>(t@),
                Err(n) => resolve_type(names_of(self@), ty@) == Err::<TypeRefView, Seq<u8>>(n@),
            },
    {
        resolve_in(&self.decls, ty)
    }

    /// Resolves the types of `fields` against this table.
    pub fn resolve_members(&self, fields: &Vec<Field>) -> (r: Result<Vec<Field>, (Vec<u8>, Vec<u8>)>)
        ensures
            match r {
                Ok(out) => resolve_members(names_of(self@), views(fields@), fields.len() as int)
                    == Ok::<Seq<FieldView>, (Seq<u8>, Seq<u8>)>(views(out@)),
                Err((member, name)) => resolve_members(
                    names_of(self@),
                    views(fields@),
                    fields.len() as int,
                ) == Err::<Seq<FieldView>, (Seq<u8>, Seq<u8>)>((member@, name@)),
            },
    {
        resolve_members_in(&self.decls, fields)
    }
}

/// A duplicate below `n` is the duplicate below every later bound.
pub proof fn lemma_duplicate_found(names: Seq<Seq<u8>>, n: int, m: int)
    requires
        n <= m,
        duplicate_upto(names, n) is Some,
    ensures
        duplicate_upto(names, m) == duplicate_upto(names, n),
    decreases m - n,
{
    if n < m {
        lemma_duplicate_found(names, n, m - 1);
    }
}

/// A member that does not resolve fails every later bound.
pub proof fn lemma_resolve_members_fails(
    names: Seq<Seq<u8>>,
    fields: Seq<FieldView>,
    n: int,
    m: int,
)
    requires
        n <= m,
        resolve_members(names, fields, n) is Err,
    ensures
        resolve_members(names, fields, m) == resolve_members(names, fields, n),
    decreases m - n,
{
    if n < m {
        lemma_resolve_members_fails(names, fields, n, m - 1);
    }
}

/// A declaration that does not resolve fails every later bound.
pub proof fn lemma_resolve_decls_fails(
    names: Seq<Seq<u8>>,
    raw: Seq<TypeDeclView>,
    n: int,
    m: int,
)
    requires
        n <= m,
        resolve_decls(names, raw, n) is Err,
    ensures
        resolve_decls(names, raw, m) == resolve_decls(names, raw, n),
    decreases m - n,
{
    if n < m {
        lemma_resolve_decls_fails(names, raw, n, m - 1);
    }
}

} // verus!
