//! What the operators of the language do with values. An operation that
//! fails gives the value it throws, a type error.

use vstd::prelude::*;
use vstd::string::*;
use vstd::utf8::*;
use crate::lang::value::Value;
use crate::lang::special::{RcSpecial, Special, rc_repr, rc_to_string};
use crate::lang::type_::{TypeUnion, TypeIntersection};
use crate::builtin::burn::errors::create_type_error;
use crate::builtin::burn::implicit::{is_type, is_type_value};
use crate::parse::literal::push_char;

verus! {

// TRUTH AND TEXT //////////////////////////////////////////////////////////////////////////////////

/// Whether `value` counts as true: nothing, false, zero (either float zero
/// included) and the empty string do not; every other value does.
pub open spec fn truthy(value: Value) -> bool {
    match value {
        Value::Nothing => false,
        Value::Boolean(b) => b,
        Value::Integer(i) => i != 0,
        Value::Float(bits) => bits & 0x7fff_ffff_ffff_ffffu64 != 0,
        Value::String(s) => s@.len() > 0,
        _ => true,
    }
}

proof fn lemma_encode_empty(cs: Seq<char>)
    ensures
        (encode_utf8(cs).len() > 0) == (cs.len() > 0),
{
    if cs.len() > 0 {
        char_is_scalar(cs[0]);
        let v = cs[0] as u32;
        assert(encode_scalar(v).len() >= 1);
    }
}

pub fn is_truthy(value: &Value) -> (r: bool)
    ensures
        r == truthy(*value),
{
    match value {
        Value::Nothing => false,
        Value::Boolean(b) => *b,
        Value::Integer(i) => *i != 0,
        Value::Float(bits) => *bits & 0x7fff_ffff_ffff_ffffu64 != 0,
        Value::String(s) => {
            proof {
                lemma_encode_empty(s@);
            }
            s.len() > 0
        },
        Value::Function(..) | Value::TypeUnion(..) | Value::TypeIntersection(..) | Value::Module(..) => true,
        Value::StaticSpecial(special) => special.is_truthy(),
        Value::RcSpecial(r) => r.is_truthy(),
    }
}

/// The text of `value` in a program's own notation: the name of its kind.
pub open spec fn repr_of(value: Value) -> Seq<char> {
    match value {
        Value::Nothing => "<Nothing>"@,
        Value::Boolean(..) => "<Boolean>"@,
        Value::Integer(..) => "<Integer>"@,
        Value::Float(..) => "<Float>"@,
        Value::String(..) => "<String>"@,
        Value::Function(..) => "<Function>"@,
        Value::TypeUnion(..) => "<Type>"@,
        Value::TypeIntersection(..) => "<Type>"@,
        Value::Module(..) => "<Module>"@,
        Value::StaticSpecial(s) => s.definition().repr@,
        Value::RcSpecial(r) => rc_repr(*r),
    }
}

pub fn repr(value: &Value) -> (r: std::string::String)
    ensures
        r@ == repr_of(*value),
{
    match value {
        Value::Nothing => std::string::String::from_str("<Nothing>"),
        Value::Boolean(..) => std::string::String::from_str("<Boolean>"),
        Value::Integer(..) => std::string::String::from_str("<Integer>"),
        Value::Float(..) => std::string::String::from_str("<Float>"),
        Value::String(..) => std::string::String::from_str("<String>"),
        Value::Function(..) => std::string::String::from_str("<Function>"),
        Value::TypeUnion(..) | Value::TypeIntersection(..) => std::string::String::from_str("<Type>"),
        Value::Module(..) => std::string::String::from_str("<Module>"),
        Value::StaticSpecial(special) => special.repr(),
        Value::RcSpecial(r) => r.repr(),
    }
}

/// The character of decimal digit `d`.
pub open spec fn digit_char(d: int) -> char {
    if d == 0 {
        '0'
    } else if d == 1 {
        '1'
    } else if d == 2 {
        '2'
    } else if d == 3 {
        '3'
    } else if d == 4 {
        '4'
    } else if d == 5 {
        '5'
    } else if d == 6 {
        '6'
    } else if d == 7 {
        '7'
    } else if d == 8 {
        '8'
    } else {
        '9'
    }
}

/// The decimal digits of `n`, without leading zeros.
pub open spec fn digits(n: nat) -> Seq<char>
    decreases n,
{
    if n < 10 {
        seq![digit_char(n as int)]
    } else {
        digits(n / 10).push(digit_char((n % 10) as int))
    }
}

/// The decimal notation of `n`: a `-` before the digits of a negative number.
pub open spec fn decimal(n: int) -> Seq<char> {
    if n < 0 {
        seq!['-'] + digits((-n) as nat)
    } else {
        digits(n as nat)
    }
}

fn digit_character(d: u64) -> (c: char)
    requires
        d < 10,
    ensures
        c == digit_char(d as int),
{
    match d {
        0 => '0',
        1 => '1',
        2 => '2',
        3 => '3',
        4 => '4',
        5 => '5',
        6 => '6',
        7 => '7',
        8 => '8',
        _ => '9',
    }
}

/// Appends the decimal digits of `n` to `s`.
fn push_digits(s: &mut std::string::String, n: u64)
    ensures
        final(s)@ == old(s)@ + digits(n as nat),
    decreases n,
{
    if n >= 10 {
        push_digits(s, n / 10);
    }
    push_char(s, digit_character(n % 10));
    proof {
        if n >= 10 {
            assert(old(s)@ + digits((n / 10) as nat) + seq![digit_char((n % 10) as int)] =~= old(s)@ + digits(n as nat));
        } else {
            assert(old(s)@ + seq![digit_char((n % 10) as int)] =~= old(s)@ + digits(n as nat));
        }
    }
}

/// The decimal notation of `i`.
pub fn format_integer(i: i64) -> (s: std::string::String)
    ensures
        s@ == decimal(i as int),
{
    let mut s = std::string::String::new();
    if i < 0 {
        push_char(&mut s, '-');
        let magnitude: u64 = (-(i + 1)) as u64 + 1;
        push_digits(&mut s, magnitude);
        proof {
            assert(s@ =~= seq!['-'] + digits((-i) as nat));
        }
    } else {
        push_digits(&mut s, i as u64);
        proof {
            assert(s@ =~= digits(i as nat));
        }
    }
    s
}

/// The text of `value` when it is printed. (A float is written by the code
/// around the library, which has floating point.)
pub open spec fn text_of(value: Value) -> Seq<char>
    recommends
        !(value is Float),
{
    match value {
        Value::Nothing => "nothing"@,
        Value::Boolean(b) => if b {
            "true"@
        } else {
            "false"@
        },
        Value::Integer(i) => decimal(i as int),
        Value::String(s) => s@,
        Value::StaticSpecial(s) => s.definition().repr@,
        Value::RcSpecial(r) => rc_to_string(*r),
        _ => repr_of(value),
    }
}

pub fn to_string(value: &Value) -> (r: std::string::String)
    requires
        !(*value is Float),
    ensures
        r@ == text_of(*value),
{
    match value {
        Value::Nothing => std::string::String::from_str("nothing"),
        Value::Boolean(b) => if *b {
            std::string::String::from_str("true")
        } else {
            std::string::String::from_str("false")
        },
        Value::Integer(i) => format_integer(*i),
        Value::String(s) => std::string::String::from_str(s.get_value()),
        Value::StaticSpecial(special) => special.repr(),
        Value::RcSpecial(r) => r.to_string(),
        _ => repr(value),
    }
}

// OPERATORS ///////////////////////////////////////////////////////////////////////////////////////

/// `error` is a type error that says `message`.
pub open spec fn is_type_error_saying(error: Value, message: Seq<char>) -> bool {
    error matches Value::RcSpecial(r) && *r matches RcSpecial::TypeError { message: m } && m@ == message
}

/// Both operands are numbers and one of them is a float: arithmetic in
/// floating point, which the code around the library does.
pub open spec fn float_arithmetic(left: Value, right: Value) -> bool {
    (left is Integer || left is Float) && (right is Integer || right is Float) && (left is Float || right is Float)
}

/// The type error of an operation on two values: `what` followed by the
/// kinds of the two values.
fn operation_error(what: &str, left: &Value, right: &Value) -> (error: Value)
    ensures
        is_type_error_saying(error, what@ + repr_of(*left) + " and "@ + repr_of(*right)),
{
    let mut message = std::string::String::from_str(what);
    let l = repr(left);
    let r = repr(right);
    message.append(l.as_str());
    message.append(" and ");
    message.append(r.as_str());
    create_type_error(message)
}

/// The text of `a` followed by the text of `b`.
fn concatenate(a: &crate::lang::string::String, b: &crate::lang::string::String) -> (s: crate::lang::string::String)
    ensures
        s@ == a@ + b@,
{
    let mut text = std::string::String::from_str(a.get_value());
    text.append(b.get_value());
    crate::lang::string::String::new(text)
}

/// `left + right`: the sum of two integers (wrapping on overflow), the
/// concatenation of two strings, or the intersection of two types; a type
/// error for any other operands, which are not coerced.
pub fn add(left: Value, right: Value) -> (r: Result<Value, Value>)
    requires
        !float_arithmetic(left, right),
    ensures
        match (left, right) {
            (Value::Integer(l), Value::Integer(i)) => r == Ok::<Value, Value>(Value::Integer(l.wrapping_add(i))),
            (Value::String(a), Value::String(b)) => r matches Ok(Value::String(t)) && t@ == a@ + b@,
            _ => if is_type_value(left) && is_type_value(right) {
                r matches Ok(Value::TypeIntersection(t)) && t.left == left && t.right == right
            } else {
                r matches Err(e) && is_type_error_saying(e, "Can't add "@ + repr_of(left) + " and "@ + repr_of(right))
            },
        },
{
    match (&left, &right) {
        (Value::Integer(l), Value::Integer(r)) => {
            return Ok(Value::Integer(l.wrapping_add(*r)));
        },
        (Value::String(a), Value::String(b)) => {
            return Ok(Value::String(concatenate(a, b)));
        },
        _ => {},
    }
    if is_type(&left) && is_type(&right) {
        Ok(Value::TypeIntersection(Box::new(TypeIntersection { left, right })))
    } else {
        Err(operation_error("Can't add ", &left, &right))
    }
}

/// `left - right`: the difference of two integers (wrapping on overflow); a
/// type error for operands that are not numbers.
pub fn subtract(left: &Value, right: &Value) -> (r: Result<Value, Value>)
    requires
        !float_arithmetic(*left, *right),
    ensures
        match (*left, *right) {
            (Value::Integer(l), Value::Integer(i)) => r == Ok::<Value, Value>(Value::Integer(l.wrapping_sub(i))),
            _ => r matches Err(e) && is_type_error_saying(e, "Can't subtract "@ + repr_of(*left) + " and "@ + repr_of(*right)),
        },
{
    match (left, right) {
        (Value::Integer(l), Value::Integer(r)) => Ok(Value::Integer(l.wrapping_sub(*r))),
        _ => Err(operation_error("Can't subtract ", left, right)),
    }
}

/// `left * right`: not supported for any values yet.
pub fn multiply(left: &Value, right: &Value) -> (r: Result<Value, Value>)
    ensures
        r matches Err(e) && is_type_error_saying(e, "Can't multiply "@ + repr_of(*left) + " and "@ + repr_of(*right)),
{
    Err(operation_error("Can't multiply ", left, right))
}

/// `left / right`: not supported for any values yet.
pub fn divide(left: &Value, right: &Value) -> (r: Result<Value, Value>)
    ensures
        r matches Err(e) && is_type_error_saying(e, "Can't divide "@ + repr_of(*left) + " and "@ + repr_of(*right)),
{
    Err(operation_error("Can't divide ", left, right))
}

/// `left | right`: the union of two types.
pub fn union(left: Value, right: Value) -> (r: Result<Value, Value>)
    ensures
        !is_type_value(left) ==> (r matches Err(e) && is_type_error_saying(e,
            "Can't create type union: "@ + repr_of(left) + " is not a type"@)),
        is_type_value(left) && !is_type_value(right) ==> (r matches Err(e) && is_type_error_saying(e,
            "Can't create type union: "@ + repr_of(right) + " is not a type"@)),
        is_type_value(left) && is_type_value(right) ==> (r matches Ok(Value::TypeUnion(u)) && u.left == left && u.right == right),
{
    if !is_type(&left) {
        return Err(not_a_type_error("Can't create type union: ", &left));
    }
    if !is_type(&right) {
        return Err(not_a_type_error("Can't create type union: ", &right));
    }
    Ok(Value::TypeUnion(Box::new(TypeUnion::new(left, right))))
}

/// The type error for a value used as a type that is not one.
fn not_a_type_error(what: &str, value: &Value) -> (error: Value)
    ensures
        is_type_error_saying(error, what@ + repr_of(*value) + " is not a type"@),
{
    let mut message = std::string::String::from_str(what);
    let r = repr(value);
    message.append(r.as_str());
    message.append(" is not a type");
    create_type_error(message)
}

/// The type error for a value used as a type that is not one.
fn is_not_a_type_error(value: &Value) -> (error: Value)
    ensures
        is_type_error_saying(error, repr_of(*value) + " is not a type"@),
{
    let mut message = repr(value);
    message.append(" is not a type");
    create_type_error(message)
}

/// What `value is type_` gives: `Ok(b)` when `type_` is a type (a union is
/// tried left first, then right), or `Err` with the notation of the first
/// operand found not to be a type.
pub open spec fn is_outcome(value: Value, type_: Value) -> Result<bool, Seq<char>>
    decreases type_,
{
    match type_ {
        Value::TypeUnion(u) => match is_outcome(value, u.left) {
            Ok(false) => is_outcome(value, u.right),
            other => other,
        },
        Value::StaticSpecial(s) => if s.definition().type_test != crate::lang::special::TypeTest::NotAType {
            Ok(crate::lang::special::passes(s.definition().type_test, value))
        } else {
            Err(repr_of(type_))
        },
        _ => Err(repr_of(type_)),
    }
}

/// `value is type_`: whether `value` is of type `type_`.
pub fn is(value: &Value, type_: &Value) -> (r: Result<Value, Value>)
    ensures
        match is_outcome(*value, *type_) {
            Ok(b) => r == Ok::<Value, Value>(Value::Boolean(b)),
            Err(t) => r matches Err(e) && is_type_error_saying(e, t + " is not a type"@),
        },
    decreases *type_,
{
    match type_ {
        Value::TypeUnion(u) => {
            let first = is(value, &u.left);
            proof {
                assert(is_outcome(*value, *type_) == match is_outcome(*value, u.left) {
                    Ok(false) => is_outcome(*value, u.right),
                    other => other,
                });
            }
            match first {
                Ok(Value::Boolean(false)) => is(value, &u.right),
                other => other,
            }
        },
        Value::StaticSpecial(special) => {
            if special.is_type() {
                Ok(Value::Boolean(special.type_test(value)))
            } else {
                Err(is_not_a_type_error(type_))
            }
        },
        Value::RcSpecial(r) => {
            proof {
                assert(!is_type_value(*type_));
            }
            if r.is_type() {
                Ok(Value::Boolean(false))
            } else {
                Err(is_not_a_type_error(type_))
            }
        },
        _ => Err(is_not_a_type_error(type_)),
    }
}

/// The type error of a comparison: no values can be compared yet.
fn comparison_error(left: &Value, right: &Value) -> (error: Value)
    ensures
        is_type_error_saying(error, "Can't compare "@ + repr_of(*left) + " and "@ + repr_of(*right)),
{
    operation_error("Can't compare ", left, right)
}

/// `left == right`: not supported for any values yet.
pub fn eq(left: &Value, right: &Value) -> (r: Result<Value, Value>)
    ensures
        r matches Err(e) && is_type_error_saying(e, "Can't compare "@ + repr_of(*left) + " and "@ + repr_of(*right)),
{
    Err(comparison_error(left, right))
}

/// `left != right`: not supported for any values yet.
pub fn neq(left: &Value, right: &Value) -> (r: Result<Value, Value>)
    ensures
        r matches Err(e) && is_type_error_saying(e, "Can't compare "@ + repr_of(*left) + " and "@ + repr_of(*right)),
{
    Err(comparison_error(left, right))
}

/// `left < right`: not supported for any values yet.
pub fn lt(left: &Value, right: &Value) -> (r: Result<Value, Value>)
    ensures
        r matches Err(e) && is_type_error_saying(e, "Can't compare "@ + repr_of(*left) + " and "@ + repr_of(*right)),
{
    Err(comparison_error(left, right))
}

/// `left > right`: not supported for any values yet.
pub fn gt(left: &Value, right: &Value) -> (r: Result<Value, Value>)
    ensures
        r matches Err(e) && is_type_error_saying(e, "Can't compare "@ + repr_of(*left) + " and "@ + repr_of(*right)),
{
    Err(comparison_error(left, right))
}

/// `left <= right`: not supported for any values yet.
pub fn lt_eq(left: &Value, right: &Value) -> (r: Result<Value, Value>)
    ensures
        r matches Err(e) && is_type_error_saying(e, "Can't compare "@ + repr_of(*left) + " and "@ + repr_of(*right)),
{
    Err(comparison_error(left, right))
}

/// `left >= right`: not supported for any values yet.
pub fn gt_eq(left: &Value, right: &Value) -> (r: Result<Value, Value>)
    ensures
        r matches Err(e) && is_type_error_saying(e, "Can't compare "@ + repr_of(*left) + " and "@ + repr_of(*right)),
{
    Err(comparison_error(left, right))
}


/// `value is (A | B)`: a value is of a union exactly when it is of one of its
/// members. When both members are types, the union answers whether the value
/// is of `A` or of `B`; a value of `A` is of the union whatever `B` is; when
/// `A` is not a type, the union fails as `A` does.
pub proof fn lemma_union_is_either(value: Value, union_: Value)
    requires
        union_ is TypeUnion,
    ensures
        ({
            let a = is_outcome(value, union_->TypeUnion_0.left);
            let b = is_outcome(value, union_->TypeUnion_0.right);
            &&& a is Ok && b is Ok ==> is_outcome(value, union_) == Ok::<bool, Seq<char>>(a->Ok_0 || b->Ok_0)
            &&& a == Ok::<bool, Seq<char>>(true) ==> is_outcome(value, union_) == Ok::<bool, Seq<char>>(true)
            &&& a is Err ==> is_outcome(value, union_) == a
        }),
{
}

} // verus!
