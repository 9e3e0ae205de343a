//! The values of the Burn language.

use vstd::prelude::*;
use crate::lang::special::{StaticSpecial, RcSpecial};
use crate::lang::type_::{TypeUnion, TypeIntersection};

verus! {

/// A Burn value.
pub enum Value {
    Nothing,
    Boolean(bool),
    Integer(i64),
    /// A float, by the bits of its IEEE 754 double.
    Float(u64),
    String(crate::lang::string::String),
    /// The function with this index in the machine's heap.
    Function(usize),
    TypeUnion(Box<TypeUnion>),
    TypeIntersection(Box<TypeIntersection>),
    /// The module with this index among the machine's modules.
    Module(usize),
    StaticSpecial(StaticSpecial),
    RcSpecial(Box<RcSpecial>),
}

impl Value {
    /// An equal value: copies of its parts, the same function or module.
    pub fn copy(&self) -> (v: Value)
        ensures
            v == *self,
        decreases *self,
    {
        match self {
            Value::Nothing => Value::Nothing,
            Value::Boolean(b) => Value::Boolean(*b),
            Value::Integer(i) => Value::Integer(*i),
            Value::Float(bits) => Value::Float(*bits),
            Value::String(s) => Value::String(s.duplicate()),
            Value::Function(f) => Value::Function(*f),
            Value::TypeUnion(u) => Value::TypeUnion(Box::new(TypeUnion { left: u.left.copy(), right: u.right.copy() })),
            Value::TypeIntersection(t) => Value::TypeIntersection(
                Box::new(TypeIntersection { left: t.left.copy(), right: t.right.copy() }),
            ),
            Value::Module(m) => Value::Module(*m),
            Value::StaticSpecial(s) => Value::StaticSpecial(*s),
            Value::RcSpecial(r) => Value::RcSpecial(Box::new(
                match &**r {
                    RcSpecial::TypeError { message } => RcSpecial::TypeError { message: message.duplicate() },
                    RcSpecial::ArgumentError { message } => RcSpecial::ArgumentError { message: message.duplicate() },
                },
            )),
        }
    }
}

} // verus!
