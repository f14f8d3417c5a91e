//! Structured descriptors for ABI parameter types.

use vstd::prelude::*;

verus! {

broadcast use vstd::std_specs::vec::group_vec_axioms;

/// A parsed ABI type: the shape a value must take, with numeric widths.
#[derive(Debug, PartialEq, Eq)]
pub enum TypeDescriptor {
    Bool,
    /// Unsigned integer of the given bit width.
    Uint(u32),
    /// Signed integer of the given bit width.
    Int(u32),
    /// 20-byte account address.
    Address,
    /// Byte string of the given fixed length.
    FixedBytes(usize),
    /// Byte string of variable length.
    Bytes,
    /// Text of variable length.
    Str,
    /// Variable-length array of one element type.
    Array(Box<TypeDescriptor>),
    /// Fixed-length array of one element type.
    FixedArray(Box<TypeDescriptor>, usize),
    /// Heterogeneous tuple.
    Tuple(Vec<TypeDescriptor>),
}

/// Well-formedness: integer widths are whole bytes within a word, fixed byte
/// strings fit a word, and components are themselves well formed.
pub open spec fn type_wf(t: TypeDescriptor) -> bool
    decreases t,
{
    match t {
        TypeDescriptor::Uint(b) => 8 <= b <= 256 && b % 8 == 0,
        TypeDescriptor::Int(b) => 8 <= b <= 256 && b % 8 == 0,
        TypeDescriptor::FixedBytes(n) => 1 <= n <= 32,
        TypeDescriptor::Array(e) => type_wf(*e),
        TypeDescriptor::FixedArray(e, n) => type_wf(*e),
        TypeDescriptor::Tuple(es) => forall|i: int|
            0 <= i < es@.len() ==> type_wf(#[trigger] es@[i]),
        _ => true,
    }
}

/// A type is dynamic when its encoded size depends on the value: byte
/// strings, text, variable arrays, and any composite holding one of those.
pub open spec fn type_dynamic(t: TypeDescriptor) -> bool
    decreases t,
{
    match t {
        TypeDescriptor::Bytes => true,
        TypeDescriptor::Str => true,
        TypeDescriptor::Array(_) => true,
        TypeDescriptor::FixedArray(e, n) => type_dynamic(*e),
        TypeDescriptor::Tuple(es) => exists|i: int|
            0 <= i < es@.len() && type_dynamic(#[trigger] es@[i]),
        _ => false,
    }
}

impl TypeDescriptor {
    /// Whether this descriptor's encoding is dynamically sized.
    pub fn is_dynamic(&self) -> (r: bool)
        ensures
            r == type_dynamic(*self),
        decreases *self,
    {
        match self {
            TypeDescriptor::Bytes => true,
            TypeDescriptor::Str => true,
            TypeDescriptor::Array(_) => true,
            TypeDescriptor::FixedArray(e, _) => e.is_dynamic(),
            TypeDescriptor::Tuple(es) => any_type_dynamic(es),
            _ => false,
        }
    }

    /// Whether this descriptor is well formed.
    pub fn is_wf(&self) -> (r: bool)
        ensures
            r == type_wf(*self),
        decreases *self,
    {
        match self {
            TypeDescriptor::Uint(b) => 8 <= *b && *b <= 256 && *b % 8 == 0,
            TypeDescriptor::Int(b) => 8 <= *b && *b <= 256 && *b % 8 == 0,
            TypeDescriptor::FixedBytes(n) => 1 <= *n && *n <= 32,
            TypeDescriptor::Array(e) => e.is_wf(),
            TypeDescriptor::FixedArray(e, _) => e.is_wf(),
            TypeDescriptor::Tuple(es) => all_types_wf(es),
            _ => true,
        }
    }
}

fn any_type_dynamic(es: &Vec<TypeDescriptor>) -> (r: bool)
    ensures
        r == exists|i: int| 0 <= i < es@.len() && type_dynamic(#[trigger] es@[i]),
    decreases es@,
{
    let mut i: usize = 0;
    let n = es.len();
    let mut found: bool = false;
    while i < n
        invariant
            0 <= i <= n,
            n == es@.len(),
            found <==> exists|j: int| 0 <= j < i && type_dynamic(#[trigger] es@[j]),
        decreases n - i,
    {
        if es[i].is_dynamic() {
            found = true;
        }
        i = i + 1;
    }
    found
}

fn all_types_wf(es: &Vec<TypeDescriptor>) -> (r: bool)
    ensures
        r == forall|i: int| 0 <= i < es@.len() ==> type_wf(#[trigger] es@[i]),
    decreases es@,
{
    let mut i: usize = 0;
    let n = es.len();
    let mut all: bool = true;
    while i < n
        invariant
            0 <= i <= n,
            n == es@.len(),
            all <==> forall|j: int| 0 <= j < i ==> type_wf(#[trigger] es@[j]),
        decreases n - i,
    {
        if !es[i].is_wf() {
            all = false;
        }
        i = i + 1;
    }
    all
}

} // verus!
