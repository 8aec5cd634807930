//! AST for the Message Format Types (`.mft`) declaration language, with
//! byte-offset [`Span`]s attached to every node.
use vstd::prelude::*;

verus! {

/// A byte-offset range into the `.mft` source text. Offsets are `u16`:
/// registry files are small, and sources longer than `u16::MAX` bytes are
/// rejected, so the casts in [`Span::new`] do not truncate there.
#[derive(Debug, Clone, Copy, PartialEq, Eq, Structural)]
pub struct Span {
    pub start: u16,
    pub end: u16,
}

impl Span {
    pub fn new(start: usize, end: usize) -> (r: Span)
        ensures
            r.start == start as u16,
            r.end == end as u16,
    {
        Span { start: start as u16, end: end as u16 }
    }
}

/// An identifier (a type/trait/field/option name), with its span.
#[derive(Debug)]
pub struct Ident {
    pub span: Span,
    pub name: String,
}

/// A parsed `.mft` document: an ordered list of top-level declarations.
#[derive(Debug)]
pub struct Document {
    pub declarations: Vec<Declaration>,
}

#[derive(Debug)]
pub enum Declaration {
    Trait(TraitDecl),
    Type(TypeDecl),
    Fn(FnDecl),
}

#[derive(Debug)]
pub struct TraitDecl {
    pub span: Span,
    pub name: Ident,
    /// Associated members; each member `bound` must denote a trait.
    pub members: Vec<MemberDecl>,
    /// `needs` constraints: requirements on implementers, never provisions.
    pub needs: Vec<Needs>,
}

#[derive(Debug)]
pub struct MemberDecl {
    pub span: Span,
    pub name: Ident,
    pub bound: Bound,
}

/// A trait's `needs` constraint. Structurally like [`Impl`], but its members
/// are bounds the implementer must satisfy, not values provided here.
#[derive(Debug)]
pub struct Needs {
    pub span: Span,
    pub when: Option<WhenClause>,
    pub trait_: Ident,
    pub members: Vec<MemberBinding>,
}

#[derive(Debug)]
pub struct TypeDecl {
    pub span: Span,
    pub name: Ident,
    pub fields: Vec<FieldDecl>,
    pub impls: Vec<Impl>,
}

#[derive(Debug)]
pub struct FieldDecl {
    pub span: Span,
    pub name: Ident,
    pub bound: Bound,
}

/// A type's trait implementation (a provision), optionally guarded by `when`.
#[derive(Debug)]
pub struct Impl {
    pub span: Span,
    pub when: Option<WhenClause>,
    pub trait_: Ident,
    pub members: Vec<MemberBinding>,
}

#[derive(Debug)]
pub struct WhenClause {
    pub span: Span,
    /// The bound the surrounding value must satisfy for the clause to apply.
    pub bound: Bound,
}

#[derive(Debug)]
pub struct MemberBinding {
    pub span: Span,
    pub name: Ident,
    pub value: Bound,
}

#[derive(Debug)]
pub struct FnDecl {
    pub span: Span,
    pub name: Ident,
    /// The operand bound.
    pub operand: Bound,
    pub options: Vec<OptionDecl>,
    pub returns: Bound,
}

#[derive(Debug)]
pub struct OptionDecl {
    pub span: Span,
    pub name: Ident,
    /// `@ $var` capture, making the option's value available to `returns`.
    pub binding: Option<Ident>,
    pub bound: Bound,
    /// `= literal` default applied when the option is omitted.
    pub default: Option<Bound>,
}

#[derive(Debug)]
pub enum Bound {
    Ref(RefBound),
    Literal(LiteralBound),
    Union(UnionBound),
    Structured(StructuralBound),
    FieldRef(FieldRefBound),
    VarRef(VarRefBound),
}

impl Bound {
    /// The span that a bound stands at.
    pub open spec fn spec_span(&self) -> Span {
        match self {
            Bound::Ref(b) => b.span,
            Bound::Literal(b) => b.span,
            Bound::Union(b) => b.span,
            Bound::Structured(b) => b.span,
            Bound::FieldRef(b) => b.span,
            Bound::VarRef(b) => b.span,
        }
    }

    pub fn span(&self) -> (r: Span)
        ensures
            r == self.spec_span(),
    {
        match self {
            Bound::Ref(b) => b.span,
            Bound::Literal(b) => b.span,
            Bound::Union(b) => b.span,
            Bound::Structured(b) => b.span,
            Bound::FieldRef(b) => b.span,
            Bound::VarRef(b) => b.span,
        }
    }
}

/// A reference to a named type or trait (`AnyString`, `ToNumber`).
#[derive(Debug)]
pub struct RefBound {
    pub span: Span,
    pub name: String,
}

/// A literal type (`"foo"`).
#[derive(Debug)]
pub struct LiteralBound {
    pub span: Span,
    pub value: String,
}

/// `A | B | C`.
#[derive(Debug)]
pub struct UnionBound {
    pub span: Span,
    pub options: Vec<Bound>,
}

/// `Base { matchers, .. }`, where `base` is a named type or trait.
#[derive(Debug)]
pub struct StructuralBound {
    pub span: Span,
    pub base: Ident,
    pub fields: Vec<FieldMatcher>,
    /// Whether `..` (match all remaining fields) is present.
    pub rest: bool,
}

/// `.field`: references a field of the surrounding type / member of the trait.
#[derive(Debug)]
pub struct FieldRefBound {
    pub span: Span,
    pub field: String,
}

/// `$name`: references a variable bound earlier in the same `fn` signature.
#[derive(Debug)]
pub struct VarRefBound {
    pub span: Span,
    pub name: String,
}

#[derive(Debug)]
pub struct FieldMatcher {
    pub span: Span,
    pub name: Ident,
    /// `@ $var` capture, if present.
    pub binding: Option<Ident>,
    /// `: bound` constraint, if present.
    pub bound: Option<Bound>,
}

} // verus!
