//! The values a binding can hold.
use vstd::prelude::*;

verus! {

/// The mathematical content of a bound value.
pub enum Value {
    Int(int),
    Uint(nat),
    Bool(bool),
    Text(Seq<char>),
}

/// A bound value. The grammar only produces `Uint` so far; the other variants
/// are kept for the literals the grammar may grow.
#[derive(Debug, Clone, PartialEq, Eq)]
pub enum VarType {
    Int(i64),
    Uint(u64),
    Bool(bool),
    String(String),
}

impl View for VarType {
    type V = Value;

    open spec fn view(&self) -> Value {
        match self {
            VarType::Int(n) => Value::Int(*n as int),
            VarType::Uint(n) => Value::Uint(*n as nat),
            VarType::Bool(b) => Value::Bool(*b),
            VarType::String(s) => Value::Text(s@),
        }
    }
}

/// A binding as the contracts see it: the identifier's characters and the value.
pub type Binding = (Seq<char>, Value);

/// The view of one recorded pair.
pub open spec fn binding_of(entry: (String, VarType)) -> Binding {
    (entry.0@, entry.1@)
}

/// The view of a table of recorded pairs, in insertion order.
pub open spec fn table_of(entries: Seq<(String, VarType)>) -> Seq<Binding> {
    Seq::new(entries.len(), |i: int| binding_of(entries[i]))
}

} // verus!
