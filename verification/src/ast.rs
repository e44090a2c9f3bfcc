//! Syntax tree of a tsrust module, with its specification views.
use vstd::prelude::*;

verus! {

/// A range `start..end` of byte offsets into the source.
#[derive(Debug, Clone, Copy, PartialEq, Eq)]
pub struct Span {
    pub start: usize,
    pub end: usize,
}

#[derive(Debug, Clone)]
pub struct Module {
    pub items: Vec<Item>,
}

#[derive(Debug, Clone)]
pub enum Item {
    Import(ImportDecl),
    ExportStar(ExportStar),
    ReExport(ReExportDecl),
    ExportedFn(FnDecl),
    Fn(FnDecl),
    ExportedArrow(ArrowDecl),
    VarArrow(VarArrowDecl),
    ReExportLocal(ExportLocal),
}

#[derive(Debug, Clone)]
pub struct ImportDecl {
    pub items: Vec<ImportItem>,
    pub from: String,
    pub span: Span,
}

#[derive(Debug, Clone)]
pub enum ImportItem {
    Simple(String),
    Aliased { name: String, alias: String },
    /// A nested group such as `bar::{Baz, qux as q}`.
    Nested { path: String },
    Star,
    StarAs(String),
}

#[derive(Debug, Clone)]
pub struct ExportStar {
    pub from: String,
    pub span: Span,
}

#[derive(Debug, Clone)]
pub struct ReExportDecl {
    pub items: Vec<String>,
    pub from: String,
    pub span: Span,
}

#[derive(Debug, Clone)]
pub struct ExportLocal {
    pub items: Vec<String>,
    pub span: Span,
}

#[derive(Debug, Clone)]
pub struct FnDecl {
    pub exported: bool,
    pub name: String,
    pub params: Vec<Param>,
    pub ret: Option<TypeExpr>,
    /// The body without its outer braces.
    pub body_src: String,
    pub span: Span,
}

#[derive(Debug, Clone)]
pub struct ArrowDecl {
    pub name: String,
    pub params: Vec<Param>,
    pub ret: TypeExpr,
    pub body: ArrowBody,
    pub is_exported: bool,
    pub is_move: bool,
    pub span: Span,
}

#[derive(Debug, Clone)]
pub struct VarArrowDecl {
    pub name: String,
    pub params: Vec<Param>,
    pub ret: TypeExpr,
    pub body: ArrowBody,
    pub is_move: bool,
    pub span: Span,
}

#[derive(Debug, Clone)]
pub enum ArrowBody {
    /// A block body without its braces.
    Block(String),
    /// An inline expression body.
    Expr(String),
}

#[derive(Debug, Clone)]
pub struct TypeExpr {
    pub text: String,
}

#[derive(Debug, Clone)]
pub enum ParamKind {
    Normal,
    Optional,
    Defaulted(String),
}

#[derive(Debug, Clone)]
pub struct Param {
    pub name: String,
    /// The inner type text, without `Option<>`.
    pub ty: String,
    pub kind: ParamKind,
    pub span: Span,
}

// ----- specification values -----

pub enum SpecParamKind {
    Normal,
    Optional,
    Defaulted(Seq<char>),
}

pub struct SpecParam {
    pub name: Seq<char>,
    pub ty: Seq<char>,
    pub kind: SpecParamKind,
    pub span: Span,
}

pub enum SpecImportItem {
    Simple(Seq<char>),
    Aliased { name: Seq<char>, alias: Seq<char> },
    Nested { path: Seq<char> },
    Star,
    StarAs(Seq<char>),
}

pub enum SpecArrowBody {
    Block(Seq<char>),
    Expr(Seq<char>),
}

pub struct SpecFnDecl {
    pub exported: bool,
    pub name: Seq<char>,
    pub params: Seq<SpecParam>,
    pub ret: Option<Seq<char>>,
    pub body_src: Seq<char>,
    pub span: Span,
}

pub struct SpecArrowDecl {
    pub name: Seq<char>,
    pub params: Seq<SpecParam>,
    pub ret: Seq<char>,
    pub body: SpecArrowBody,
    pub is_exported: bool,
    pub is_move: bool,
    pub span: Span,
}

pub enum SpecItem {
    Import { items: Seq<SpecImportItem>, from: Seq<char>, span: Span },
    ExportStar { from: Seq<char>, span: Span },
    ReExport { items: Seq<Seq<char>>, from: Seq<char>, span: Span },
    ExportedFn(SpecFnDecl),
    Fn(SpecFnDecl),
    ExportedArrow(SpecArrowDecl),
    VarArrow { name: Seq<char>, params: Seq<SpecParam>, ret: Seq<char>, body: SpecArrowBody, is_move: bool, span: Span },
    ReExportLocal { items: Seq<Seq<char>>, span: Span },
}

impl View for ParamKind {
    type V = SpecParamKind;

    open spec fn view(&self) -> SpecParamKind {
        match self {
            ParamKind::Normal => SpecParamKind::Normal,
            ParamKind::Optional => SpecParamKind::Optional,
            ParamKind::Defaulted(d) => SpecParamKind::Defaulted(d@),
        }
    }
}

impl View for Param {
    type V = SpecParam;

    open spec fn view(&self) -> SpecParam {
        SpecParam { name: self.name@, ty: self.ty@, kind: self.kind@, span: self.span }
    }
}

pub open spec fn params_view(v: Seq<Param>) -> Seq<SpecParam> {
    v.map_values(|p: Param| p@)
}

pub open spec fn strings_view(v: Seq<String>) -> Seq<Seq<char>> {
    v.map_values(|s: String| s@)
}

impl View for ImportItem {
    type V = SpecImportItem;

    open spec fn view(&self) -> SpecImportItem {
        match self {
            ImportItem::Simple(s) => SpecImportItem::Simple(s@),
            ImportItem::Aliased { name, alias } => SpecImportItem::Aliased { name: name@, alias: alias@ },
            ImportItem::Nested { path } => SpecImportItem::Nested { path: path@ },
            ImportItem::Star => SpecImportItem::Star,
            ImportItem::StarAs(s) => SpecImportItem::StarAs(s@),
        }
    }
}

pub open spec fn import_items_view(v: Seq<ImportItem>) -> Seq<SpecImportItem> {
    v.map_values(|i: ImportItem| i@)
}

impl View for ArrowBody {
    type V = SpecArrowBody;

    open spec fn view(&self) -> SpecArrowBody {
        match self {
            ArrowBody::Block(s) => SpecArrowBody::Block(s@),
            ArrowBody::Expr(s) => SpecArrowBody::Expr(s@),
        }
    }
}

impl View for FnDecl {
    type V = SpecFnDecl;

    open spec fn view(&self) -> SpecFnDecl {
        SpecFnDecl {
            exported: self.exported,
            name: self.name@,
            params: params_view(self.params@),
            ret: match self.ret {
                Some(t) => Some(t.text@),
                None => None,
            },
            body_src: self.body_src@,
            span: self.span,
        }
    }
}

impl View for ArrowDecl {
    type V = SpecArrowDecl;

    open spec fn view(&self) -> SpecArrowDecl {
        SpecArrowDecl {
            name: self.name@,
            params: params_view(self.params@),
            ret: self.ret.text@,
            body: self.body@,
            is_exported: self.is_exported,
            is_move: self.is_move,
            span: self.span,
        }
    }
}

impl View for Item {
    type V = SpecItem;

    open spec fn view(&self) -> SpecItem {
        match self {
            Item::Import(d) => SpecItem::Import {
                items: import_items_view(d.items@),
                from: d.from@,
                span: d.span,
            },
            Item::ExportStar(e) => SpecItem::ExportStar { from: e.from@, span: e.span },
            Item::ReExport(r) => SpecItem::ReExport { items: strings_view(r.items@), from: r.from@, span: r.span },
            Item::ExportedFn(f) => SpecItem::ExportedFn(f@),
            Item::Fn(f) => SpecItem::Fn(f@),
            Item::ExportedArrow(a) => SpecItem::ExportedArrow(a@),
            Item::VarArrow(v) => SpecItem::VarArrow {
                name: v.name@,
                params: params_view(v.params@),
                ret: v.ret.text@,
                body: v.body@,
                is_move: v.is_move,
                span: v.span,
            },
            Item::ReExportLocal(e) => SpecItem::ReExportLocal { items: strings_view(e.items@), span: e.span },
        }
    }
}

pub open spec fn items_view(v: Seq<Item>) -> Seq<SpecItem> {
    v.map_values(|i: Item| i@)
}

} // verus!
