//! The data model shared by every phase: type references, type and route
//! declarations, source units, and the mathematical view of each.

use vstd::prelude::*;

verus! {

/// The views of the items of a sequence, in order.
pub open spec fn views<T: View>(s: Seq<T>) -> Seq<T::V> {
    Seq::new(s.len(), |i: int| s[i]@)
}

/// The primitive kinds of the wire format. `Wide` stands for the 128-bit
/// integers, which are recognised but have no rendering.
#[derive(Clone, Copy, Debug, PartialEq, Eq, Structural)]
pub enum Primitive {
    Bool,
    Number,
    Text,
    Wide,
}

/// Whether a declaration is a product (struct) or a sum (enum).
#[derive(Clone, Copy, Debug, PartialEq, Eq, Structural)]
pub enum Kind {
    Product,
    Sum,
}

/// HTTP methods, in the alphabetical order of their upper-case names.
#[derive(Clone, Copy, Debug, PartialEq, Eq, Structural)]
pub enum Method {
    Delete,
    Get,
    Patch,
    Post,
    Put,
}

/// A canonical reference to a type.
#[derive(Debug, PartialEq, Eq)]
pub enum TypeRef {
    Primitive(Primitive),
    NamedType(Vec<u8>),
    List(Box<TypeRef>),
    Optional(Box<TypeRef>),
    MapOf(Box<TypeRef>, Box<TypeRef>),
}

/// A type reference as a mathematical value: names are byte sequences.
pub enum TypeRefView {
    Primitive(Primitive),
    NamedType(Seq<u8>),
    List(Box<TypeRefView>),
    Optional(Box<TypeRefView>),
    MapOf(Box<TypeRefView>, Box<TypeRefView>),
}

impl View for TypeRef {
    type V = TypeRefView;

    open spec fn view(&self) -> TypeRefView
        decreases self,
    {
        match self {
            TypeRef::Primitive(p) => TypeRefView::Primitive(*p),
            TypeRef::NamedType(n) => TypeRefView::NamedType(n@),
            TypeRef::List(t) => TypeRefView::List(Box::new((**t).view())),
            TypeRef::Optional(t) => TypeRefView::Optional(Box::new((**t).view())),
            TypeRef::MapOf(k, v) => TypeRefView::MapOf(Box::new((**k).view()), Box::new((**v).view())),
        }
    }
}

/// A named, typed member: a field of a product, a variant of a sum, or a
/// parameter of a route.
#[derive(Debug, PartialEq, Eq)]
pub struct Field {
    pub name: Vec<u8>,
    pub ty: TypeRef,
    pub optional: bool,
}

/// A member as a mathematical value.
pub struct FieldView {
    pub name: Seq<u8>,
    pub ty: TypeRefView,
    pub optional: bool,
}

impl View for Field {
    type V = FieldView;

    open spec fn view(&self) -> FieldView {
        FieldView { name: self.name@, ty: self.ty@, optional: self.optional }
    }
}

/// One declared serializable type.
#[derive(Debug, PartialEq, Eq)]
pub struct TypeDecl {
    pub name: Vec<u8>,
    pub kind: Kind,
    pub fields: Vec<Field>,
    pub file: Vec<u8>,
}

/// A type declaration as a mathematical value.
pub struct TypeDeclView {
    pub name: Seq<u8>,
    pub kind: Kind,
    pub fields: Seq<FieldView>,
    pub file: Seq<u8>,
}

impl View for TypeDecl {
    type V = TypeDeclView;

    open spec fn view(&self) -> TypeDeclView {
        TypeDeclView {
            name: self.name@,
            kind: self.kind,
            fields: views(self.fields@),
            file: self.file@,
        }
    }
}

/// One declared HTTP handler.
#[derive(Debug, PartialEq, Eq)]
pub struct RouteDecl {
    pub method: Method,
    pub path: Vec<u8>,
    pub name: Vec<u8>,
    pub path_params: Vec<Field>,
    pub query_params: Vec<Field>,
    pub body: Option<TypeRef>,
    pub response: TypeRef,
    pub file: Vec<u8>,
}

/// A route declaration as a mathematical value.
pub struct RouteDeclView {
    pub method: Method,
    pub path: Seq<u8>,
    pub name: Seq<u8>,
    pub path_params: Seq<FieldView>,
    pub query_params: Seq<FieldView>,
    pub body: Option<TypeRefView>,
    pub response: TypeRefView,
    pub file: Seq<u8>,
}

impl View for RouteDecl {
    type V = RouteDeclView;

    open spec fn view(&self) -> RouteDeclView {
        RouteDeclView {
            method: self.method,
            path: self.path@,
            name: self.name@,
            path_params: views(self.path_params@),
            query_params: views(self.query_params@),
            body: match self.body {
                Some(t) => Some(t@),
                None => None,
            },
            response: self.response@,
            file: self.file@,
        }
    }
}

/// The text of one source file, with the path it was read from.
#[derive(Debug, PartialEq, Eq)]
pub struct SourceUnit {
    pub path: Vec<u8>,
    pub text: Vec<u8>,
}

/// A source unit as a mathematical value.
pub struct SourceUnitView {
    pub path: Seq<u8>,
    pub text: Seq<u8>,
}

impl View for SourceUnit {
    type V = SourceUnitView;

    open spec fn view(&self) -> SourceUnitView {
        SourceUnitView { path: self.path@, text: self.text@ }
    }
}

/// Every way in which a run can fail, with what locates the offending
/// declaration.
#[derive(Debug, PartialEq, Eq)]
pub enum SyncError {
    /// An input path does not exist.
    NotFound { path: Vec<u8> },
    /// The input paths hold no source file.
    EmptyInput,
    /// A marker at byte `offset` of `file` is not followed by a declaration
    /// of the expected shape.
    MalformedDeclaration { file: Vec<u8>, offset: usize },
    /// The type `name` is declared in `first_file` and again in `file`.
    DuplicateType { name: Vec<u8>, first_file: Vec<u8>, file: Vec<u8> },
    /// The member `field` of `owner`, declared in `file`, refers to the
    /// undeclared type `name`.
    UnknownType { name: Vec<u8>, file: Vec<u8>, owner: Vec<u8>, field: Vec<u8> },
    /// The path template of the handler `owner` and its path parameters
    /// disagree on `param`.
    PathParamMismatch { file: Vec<u8>, owner: Vec<u8>, param: Vec<u8> },
    /// A second handler, `owner`, answers `method` on `path`.
    DuplicateRoute { method: Method, path: Vec<u8>, file: Vec<u8>, owner: Vec<u8> },
    /// The member `field` of `owner` has a primitive type without a
    /// rendering.
    UnsupportedType { file: Vec<u8>, owner: Vec<u8>, field: Vec<u8> },
}

/// An error as a mathematical value.
pub enum SyncErrorView {
    NotFound { path: Seq<u8> },
    EmptyInput,
    MalformedDeclaration { file: Seq<u8>, offset: int },
    DuplicateType { name: Seq<u8>, first_file: Seq<u8>, file: Seq<u8> },
    UnknownType { name: Seq<u8>, file: Seq<u8>, owner: Seq<u8>, field: Seq<u8> },
    PathParamMismatch { file: Seq<u8>, owner: Seq<u8>, param: Seq<u8> },
    DuplicateRoute { method: Method, path: Seq<u8>, file: Seq<u8>, owner: Seq<u8> },
    UnsupportedType { file: Seq<u8>, owner: Seq<u8>, field: Seq<u8> },
}

impl View for SyncError {
    type V = SyncErrorView;

    open spec fn view(&self) -> SyncErrorView {
        match self {
            SyncError::NotFound { path } => SyncErrorView::NotFound { path: path@ },
            SyncError::EmptyInput => SyncErrorView::EmptyInput,
            SyncError::MalformedDeclaration { file, offset } => SyncErrorView::MalformedDeclaration {
                file: file@,
                offset: *offset as int,
            },
            SyncError::DuplicateType { name, first_file, file } => SyncErrorView::DuplicateType {
                name: name@,
                first_file: first_file@,
                file: file@,
            },
            SyncError::UnknownType { name, file, owner, field } => SyncErrorView::UnknownType {
                name: name@,
                file: file@,
                owner: owner@,
                field: field@,
            },
            SyncError::PathParamMismatch { file, owner, param } => SyncErrorView::PathParamMismatch {
                file: file@,
                owner: owner@,
                param: param@,
            },
            SyncError::DuplicateRoute { method, path, file, owner } => SyncErrorView::DuplicateRoute {
                method: *method,
                path: path@,
                file: file@,
                owner: owner@,
            },
            SyncError::UnsupportedType { file, owner, field } => SyncErrorView::UnsupportedType {
                file: file@,
                owner: owner@,
                field: field@,
            },
        }
    }
}

/// Copies a type reference.
pub fn copy_type(t: &TypeRef) -> (r: TypeRef)
    ensures
        r@ == t@,
    decreases t,
{
    match t {
        TypeRef::Primitive(p) => TypeRef::Primitive(*p),
        TypeRef::NamedType(n) => TypeRef::NamedType(n.clone()),
        TypeRef::List(a) => TypeRef::List(Box::new(copy_type(a))),
        TypeRef::Optional(a) => TypeRef::Optional(Box::new(copy_type(a))),
        TypeRef::MapOf(k, v) => TypeRef::MapOf(Box::new(copy_type(k)), Box::new(copy_type(v))),
    }
}

/// Copies a sequence of members.
pub fn copy_fields(fields: &Vec<Field>) -> (r: Vec<Field>)
    ensures
        views(r@) == views(fields@),
{
    let mut out: Vec<Field> = Vec::new();
    let mut i: usize = 0;
    while i < fields.len()
        invariant
            i <= fields@.len(),
            out@.len() == i,
            forall|k: int| 0 <= k < i ==> out@[k]@ == fields@[k]@,
        decreases fields@.len() - i,
    {
        out.push(fields[i].clone());
        i += 1;
    }
    assert(views(out@) =~= views(fields@));
    out
}

impl Clone for TypeRef {
    fn clone(&self) -> (r: Self)
        ensures
            r@ == self@,
    {
        copy_type(self)
    }
}

impl Clone for Field {
    fn clone(&self) -> (r: Self)
        ensures
            r@ == self@,
    {
        Field { name: self.name.clone(), ty: copy_type(&self.ty), optional: self.optional }
    }
}

impl Clone for TypeDecl {
    fn clone(&self) -> (r: Self)
        ensures
            r@ == self@,
    {
        TypeDecl {
            name: self.name.clone(),
            kind: self.kind,
            fields: copy_fields(&self.fields),
            file: self.file.clone(),
        }
    }
}

impl Clone for RouteDecl {
    fn clone(&self) -> (r: Self)
        ensures
            r@ == self@,
    {
        RouteDecl {
            method: self.method,
            path: self.path.clone(),
            name: self.name.clone(),
            path_params: copy_fields(&self.path_params),
            query_params: copy_fields(&self.query_params),
            body: match &self.body {
                Some(t) => Some(copy_type(t)),
                None => None,
            },
            response: copy_type(&self.response),
            file: self.file.clone(),
        }
    }
}

impl Clone for SourceUnit {
    fn clone(&self) -> (r: Self)
        ensures
            r@ == self@,
    {
        SourceUnit { path: self.path.clone(), text: self.text.clone() }
    }
}

impl Clone for SyncError {
    fn clone(&self) -> (r: Self)
        ensures
            r@ == self@,
    {
        match self {
            SyncError::NotFound { path } => SyncError::NotFound { path: path.clone() },
            SyncError::EmptyInput => SyncError::EmptyInput,
            SyncError::MalformedDeclaration { file, offset } => SyncError::MalformedDeclaration {
                file: file.clone(),
                offset: *offset,
            },
            SyncError::DuplicateType { name, first_file, file } => SyncError::DuplicateType {
                name: name.clone(),
                first_file: first_file.clone(),
                file: file.clone(),
            },
            SyncError::UnknownType { name, file, owner, field } => SyncError::UnknownType {
                name: name.clone(),
                file: file.clone(),
                owner: owner.clone(),
                field: field.clone(),
            },
            SyncError::PathParamMismatch { file, owner, param } => SyncError::PathParamMismatch {
                file: file.clone(),
                owner: owner.clone(),
                param: param.clone(),
            },
            SyncError::DuplicateRoute { method, path, file, owner } => SyncError::DuplicateRoute {
                method: *method,
                path: path.clone(),
                file: file.clone(),
                owner: owner.clone(),
            },
            SyncError::UnsupportedType { file, owner, field } => SyncError::UnsupportedType {
                file: file.clone(),
                owner: owner.clone(),
                field: field.clone(),
            },
        }
    }
}

} // verus!
