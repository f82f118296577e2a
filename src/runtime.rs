use vstd::prelude::*;

verus! {

// Values and instructions of the runtime that consumes the tree. The parser never
// builds them; they are the shapes that it hands its output on to.

/// A compiled function: its instructions.
#[derive(Debug, PartialEq)]
pub struct Fn {
    pub bytecode: Vec<Op>,
}

#[derive(Debug, PartialEq)]
pub struct Bytes(pub Vec<u8>);

#[derive(Debug, PartialEq)]
pub struct Int(pub i128);

#[derive(Debug, PartialEq)]
pub struct Str(pub String);

#[derive(Debug, PartialEq)]
pub struct Tuple(pub Vec<Variant>);

#[derive(Debug, PartialEq)]
pub struct Array(pub Vec<Variant>);

#[derive(Debug, PartialEq)]
pub struct Struct(pub Box<StructInstance>);

/// A value of a struct type: its type, and one value per field.
#[derive(Debug, PartialEq)]
pub struct StructInstance {
    pub fields: Type,
    pub values: Vec<Variant>,
}

/// A struct type: its fields, in order.
#[derive(Debug, PartialEq)]
pub struct Type {
    pub field: Vec<Field>,
}

#[derive(Debug, PartialEq)]
pub struct Field {
    pub name: String,
}

/// Any runtime value.
#[derive(Debug, PartialEq)]
pub enum Variant {
    Fn(Fn),
    Int(Int),
    Float(Int),
    BigInt(Bytes),
    Bytes(Bytes),
    Str(Str),
    Array(Array),
    Struct(Struct),
}

/// An instruction.
#[derive(Clone, Copy, Debug, PartialEq, Eq, Structural)]
pub enum Op {
    Add,
    Sub,
    Mul,
    Div,
    Shl,
    Shr,
    Shra,
    Index,
    Dot,
    Call,
    Success,
    Failure,
    Fn,
    Int,
    Bytes,
    Str,
    Array,
    Tuple,
    Dict,
    Loc,
}

} // verus!
