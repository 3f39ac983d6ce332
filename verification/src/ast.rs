//! The code that a `bitfield!` declaration expands to.

use vstd::prelude::*;

verus! {

/// A scalar type of the generated code.
#[derive(Debug, Clone, Copy, PartialEq, Eq, Structural)]
pub enum Scalar {
    Bool,
    U8,
    U16,
    U32,
    U64,
    Usize,
}

/// A type of the generated code.
#[derive(Debug, Clone, Copy, PartialEq, Eq, Structural)]
pub enum Ty {
    Scalar(Scalar),
    /// `[element; length]`
    Array(Scalar, usize),
}

/// A binary operator of the generated code.
#[derive(Debug, Clone, Copy, PartialEq, Eq, Structural)]
pub enum BinOp {
    Shl,
    Shr,
    BitAnd,
    BitOr,
    Div,
    Ne,
}

/// An expression of the generated code.
#[derive(Debug, PartialEq, Eq)]
pub enum Expr {
    /// An integer literal of the given type.
    Lit(u64, Scalar),
    /// `self.data[index]`
    Byte(Box<Expr>),
    /// The parameter `value` of a setter.
    Value,
    /// `!operand`
    Not(Box<Expr>),
    /// `operand as type`
    Cast(Box<Expr>, Scalar),
    /// `left op right`
    Binary(BinOp, Box<Expr>, Box<Expr>),
    /// `[element, ..]`
    Array(Vec<Expr>),
}

/// A statement of the generated code.
#[derive(Debug, PartialEq, Eq)]
pub enum Stmt {
    /// `self.data[index] = expr;`
    Assign(Expr, Expr),
    /// `self.data[index] op= expr;`
    AssignOp(BinOp, Expr, Expr),
    /// `if condition { then } else { otherwise }`
    If(Expr, Box<Stmt>, Box<Stmt>),
    /// `{ stmt; .. }`
    Block(Vec<Stmt>),
    /// `{ let value = value[i]; stmt }`
    WithElement(usize, Box<Stmt>),
}

/// A keyword that can stand in front of a generated item.
#[derive(Debug, Clone, Copy, PartialEq, Eq, Structural)]
pub enum Keyword {
    Pub,
}

/// An attribute of a generated item.
#[derive(Debug, PartialEq, Eq)]
pub enum Attribute {
    /// `#[inline]`
    Inline,
    /// `#[doc = "text"]`
    Doc(String),
    /// The outer attribute of the declaration that has this number.
    Outer(usize),
}

impl Clone for Attribute {
    fn clone(&self) -> (copy: Self)
        ensures
            copy == *self,
    {
        match self {
            Attribute::Inline => Attribute::Inline,
            Attribute::Doc(text) => Attribute::Doc(text.clone()),
            Attribute::Outer(number) => Attribute::Outer(*number),
        }
    }
}

/// The signature and the body of a generated method.
#[derive(Debug, PartialEq, Eq)]
pub enum Method {
    /// `fn name(data: [u8; length]) -> Struct { Struct { data: data } }`
    New(usize),
    /// `fn name(&self) -> type { expr }`
    Getter(Ty, Expr),
    /// `fn name(&mut self, value: type) { stmt }`
    Setter(Ty, Stmt),
}

/// A method inside an `impl` block.
#[derive(Debug, PartialEq, Eq)]
pub struct ImplItem {
    pub attrs: Vec<Attribute>,
    pub visibility: Option<Keyword>,
    pub name: String,
    pub method: Method,
}

/// A generated item.
#[derive(Debug, PartialEq, Eq)]
pub enum Item {
    /// `struct name { data: [u8; length] }`, or `struct name { }` where the length is `None`.
    Struct {
        attrs: Vec<Attribute>,
        visibility: Option<Keyword>,
        name: String,
        data_length: Option<usize>,
    },
    /// `impl name { impl_items }`
    Impl { name: String, impl_items: Vec<ImplItem> },
}

} // verus!
