//! Special values: the built-in types and the errors that the language
//! throws, which behave like values of their own kind.

use vstd::prelude::*;
use vstd::string::*;
use crate::lang::value::Value;
use crate::lang::identifier::Identifier;
use crate::builtin::burn::errors::{is_type_error, is_argument_error, is_type_error_value, is_argument_error_value};
use crate::builtin::burn::implicit::{
    is_boolean,
    is_integer,
    is_float,
    is_number,
    is_string,
    is_type,
    is_boolean_value,
    is_integer_value,
    is_float_value,
    is_number_value,
    is_string_value,
    is_type_value,
};
use crate::builtin::burn::types::{is_throwable, is_throwable_value};

verus! {

/// What a special value does with a name asked of it: it has no methods.
pub fn static_has_no_methods(name: Identifier) -> (r: bool)
    ensures
        !r,
{
    false
}

/// Which values a static special admits when it is used as a type.
#[derive(Clone, Copy, Debug, PartialEq, Eq)]
pub enum TypeTest {
    /// The special is not a type.
    NotAType,
    TypeError,
    ArgumentError,
    Boolean,
    Integer,
    Float,
    Number,
    String,
    Type,
    Throwable,
}

/// Whether `value` passes the type test `test`.
pub open spec fn passes(test: TypeTest, value: Value) -> bool {
    match test {
        TypeTest::NotAType => false,
        TypeTest::TypeError => is_type_error_value(value),
        TypeTest::ArgumentError => is_argument_error_value(value),
        TypeTest::Boolean => is_boolean_value(value),
        TypeTest::Integer => is_integer_value(value),
        TypeTest::Float => is_float_value(value),
        TypeTest::Number => is_number_value(value),
        TypeTest::String => is_string_value(value),
        TypeTest::Type => is_type_value(value),
        TypeTest::Throwable => is_throwable_value(value),
    }
}

/// What a static special is: its name, and the values it admits as a type.
#[derive(Clone, Copy)]
pub struct StaticSpecialDef {
    pub repr: &'static str,
    pub type_test: TypeTest,
}

/// A special value of which there is one, fixed, instance.
#[derive(Clone, Copy)]
pub struct StaticSpecial {
    def: StaticSpecialDef,
}

impl StaticSpecial {
    pub closed spec fn definition(self) -> StaticSpecialDef {
        self.def
    }

    pub fn new(def: StaticSpecialDef) -> (s: StaticSpecial)
        ensures
            s.definition() == def,
    {
        StaticSpecial { def }
    }

    pub fn repr(self) -> (r: std::string::String)
        ensures
            r@ == self.definition().repr@,
    {
        std::string::String::from_str(self.def.repr)
    }

    pub fn is_truthy(self) -> (r: bool)
        ensures
            r,
    {
        true
    }

    pub fn is_type(self) -> (r: bool)
        ensures
            r == (self.definition().type_test != TypeTest::NotAType),
    {
        match self.def.type_test {
            TypeTest::NotAType => false,
            _ => true,
        }
    }

    /// Whether `value` is of this type.
    pub fn type_test(self, value: &Value) -> (r: bool)
        requires
            self.definition().type_test != TypeTest::NotAType,
        ensures
            r == passes(self.definition().type_test, *value),
    {
        match self.def.type_test {
            TypeTest::NotAType => false,
            TypeTest::TypeError => is_type_error(value),
            TypeTest::ArgumentError => is_argument_error(value),
            TypeTest::Boolean => is_boolean(value),
            TypeTest::Integer => is_integer(value),
            TypeTest::Float => is_float(value),
            TypeTest::Number => is_number(value),
            TypeTest::String => is_string(value),
            TypeTest::Type => is_type(value),
            TypeTest::Throwable => is_throwable(value),
        }
    }

    pub fn is_throwable(self) -> (r: bool)
        ensures
            !r,
    {
        false
    }
}

/// What every special value can tell of itself.
pub trait Special {
    fn repr(&self) -> std::string::String;

    fn to_string(&self) -> std::string::String;

    fn is_truthy(&self) -> bool;

    fn is_type(&self) -> bool;

    fn is_throwable(&self) -> bool;
}

/// A special value made at run time: an error that carries a message.
pub enum RcSpecial {
    TypeError { message: crate::lang::string::String },
    ArgumentError { message: crate::lang::string::String },
}

/// The text of `special` in a program's own notation.
pub open spec fn rc_repr(special: RcSpecial) -> Seq<char> {
    match special {
        RcSpecial::TypeError { .. } => "<TypeError>"@,
        RcSpecial::ArgumentError { .. } => "<ArgumentError>"@,
    }
}

/// The text of `special` when it is printed.
pub open spec fn rc_to_string(special: RcSpecial) -> Seq<char> {
    match special {
        RcSpecial::TypeError { message } => "TypeError: "@ + message@,
        RcSpecial::ArgumentError { message } => "ArgumentError: "@ + message@,
    }
}

impl Special for RcSpecial {
    fn repr(&self) -> (r: std::string::String)
        ensures
            r@ == rc_repr(*self),
    {
        match self {
            RcSpecial::TypeError { .. } => std::string::String::from_str("<TypeError>"),
            RcSpecial::ArgumentError { .. } => std::string::String::from_str("<ArgumentError>"),
        }
    }

    fn to_string(&self) -> (r: std::string::String)
        ensures
            r@ == rc_to_string(*self),
    {
        match self {
            RcSpecial::TypeError { message } => {
                let mut r = std::string::String::from_str("TypeError: ");
                r.append(message.get_value());
                r
            },
            RcSpecial::ArgumentError { message } => {
                let mut r = std::string::String::from_str("ArgumentError: ");
                r.append(message.get_value());
                r
            },
        }
    }

    fn is_truthy(&self) -> (r: bool)
        ensures
            r,
    {
        true
    }

    fn is_type(&self) -> (r: bool)
        ensures
            !r,
    {
        false
    }

    fn is_throwable(&self) -> (r: bool)
        ensures
            r,
    {
        true
    }
}

} // verus!
