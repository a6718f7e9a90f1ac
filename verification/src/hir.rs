//! The program tree that the ownership checker consumes, together with the
//! ownership facts attached to it by the upstream type checker.
//!
//! The tree is already type-checked: every variable reference carries the
//! verdict "is its type move-only" (`is_mut`), and every call carries the
//! per-argument ownership classification of its resolved signature.

use vstd::prelude::*;

verus! {

/// A source position: the place a diagnostic points at.
#[derive(Debug, Clone, Copy, PartialEq, Eq, Structural)]
pub struct Location {
    pub line: u32,
    pub col: u32,
}

/// Whether a scope segment is public (serialized with `.`) or private
/// (serialized with `::`).
#[derive(Debug, Clone, Copy, PartialEq, Eq, Structural)]
pub enum Visibility {
    Public,
    Private,
}

/// The ownership context threaded through the traversal: is the expression's
/// value being consumed (`Owned`) or merely read (`Referenced`)?
#[derive(Debug, Clone, Copy, PartialEq, Eq, Structural)]
pub enum Ownership {
    Owned,
    Referenced,
}

/// The per-argument ownership classification of a call's resolved signature.
#[derive(Debug, Clone)]
pub enum ArgsOwnership {
    /// A structured signature: an optional receiver ownership, one ownership
    /// per required positional parameter, one per defaulted parameter.
    Args {
        self_: Option<Ownership>,
        non_defaults: Vec<Ownership>,
        defaults: Vec<Ownership>,
    },
    /// A variadic signature: one ownership applied to every argument.
    VarArgs(Ownership),
}

/// The wrapper kinds a borrowed value can come in.
#[derive(Debug, Clone, Copy, PartialEq, Eq, Hash, Structural)]
pub enum WrapperKind {
    Ref,
    Rc,
    Box,
}

/// The left-hand pattern of a variable definition: a single name, or a
/// destructuring pattern producing several names.
#[derive(Debug, Clone)]
pub enum VarPattern {
    Ident(String),
    Tuple(Vec<String>),
}

/// The signature of a definition: a variable (possibly destructured) or a
/// subroutine, each with the definition's visibility.
#[derive(Debug, Clone)]
pub enum Signature {
    Var { pat: VarPattern, vis: Visibility },
    Subr { name: String, vis: Visibility },
}

/// A variable reference, local (private) or public, with the type checker's
/// verdict on whether its type is move-only.
#[derive(Debug, Clone)]
pub struct VarRef {
    pub name: String,
    pub loc: Location,
    /// True when the referenced binding's type is intrinsically mutable /
    /// move-only, so that consuming it is a move.
    pub is_mut: bool,
}

/// A definition: a signature and the block of statements of its body.
#[derive(Debug)]
pub struct Def {
    pub sig: Signature,
    pub body: Vec<Expr>,
}

/// A call with its resolved per-argument ownership classification.
#[derive(Debug)]
pub struct Call {
    /// The callee (for method calls: the receiver).
    pub obj: Box<Expr>,
    pub args_ownership: ArgsOwnership,
    pub pos_args: Vec<Expr>,
    pub kw_args: Vec<Expr>,
}

/// An anonymous function; `id` is the unique identifier the compiler gave it,
/// used to synthesize its private scope name.
#[derive(Debug)]
pub struct Lambda {
    pub id: usize,
    pub body: Vec<Expr>,
}

/// An expression of the intermediate representation: exactly the kinds the
/// ownership pass dispatches on.
#[derive(Debug)]
pub enum Expr {
    Def(Def),
    /// A reference to a private binding.
    Local(VarRef),
    /// A reference to a public binding.
    Public(VarRef),
    /// Attribute access `obj.field`: only the object is ownership-checked.
    Attr(Box<Expr>),
    Call(Call),
    BinOp(Box<Expr>, Box<Expr>),
    UnaryOp(Box<Expr>),
    /// A plain sequence literal: its elements.
    Array(Vec<Expr>),
    /// A plain tuple literal: its elements.
    Tuple(Vec<Expr>),
    /// A plain mapping literal: its value expressions (keys are never
    /// ownership-checked).
    Dict(Vec<Expr>),
    /// A record literal: its field definitions, checked in the current scope.
    Record(Vec<Def>),
    Lambda(Lambda),
    /// Every other expression kind (literals and the like): no ownership
    /// effect.
    Lit,
}

/// A whole program: the module's name and its top-level statements.
#[derive(Debug)]
pub struct HIR {
    pub name: String,
    pub module: Vec<Expr>,
}

/// A use-after-move diagnostic: the binding, the illegal re-use site, the
/// original move site, and the scope path at which the violation was found.
#[derive(Debug, Clone)]
pub struct OwnershipError {
    pub name: String,
    pub loc: Location,
    pub moved_loc: Location,
    pub scope_path: String,
}

} // verus!
