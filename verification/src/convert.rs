//! Conversions of Rust values into document values.

use vstd::prelude::*;

use crate::error::{Error, ErrorKind, Result};
use crate::value::{int_in_range, int_value, Value, ValueView};

verus! {

/// What a conversion gives: the value, or an `InvalidData` error where
/// `expected` is `None`.
pub open spec fn converted(r: Result<Value>, expected: Option<ValueView>) -> bool {
    match expected {
        Some(x) => r matches Ok(v) && v@ == x,
        None => r matches Err(e) && e.spec_kind() == ErrorKind::InvalidData,
    }
}

/// An integer's document value, where it is in range.
pub open spec fn int_value_of(value: int) -> Option<ValueView> {
    if int_in_range(value) {
        Some(int_value(value))
    } else {
        None
    }
}

/// Converts a Rust value into a document value.
pub trait IntoValue: Sized {
    /// The document value of `self`, or `None` where it has none.
    spec fn value_of(&self) -> Option<ValueView>;

    /// The document value of `self`.
    fn into_value(self) -> (r: Result<Value>)
        ensures
            converted(r, self.value_of()),
    ;
}

/// The document value of `value`.
pub fn into_value<T: IntoValue>(value: T) -> (r: Result<Value>)
    ensures
        converted(r, value.value_of()),
{
    value.into_value()
}

/// Converts a non-negative literal, unsuffixed integers taken as `u128`.
pub trait PositiveLiteralIntoValue {
    /// The document value of the literal, or `None` where it has none.
    spec fn positive_literal_value(&self) -> Option<ValueView>;

    /// The document value of the literal.
    fn positive_literal_into_value(self) -> (r: Result<Value>)
        ensures
            converted(r, self.positive_literal_value()),
    ;
}

/// Converts a negative literal, unsuffixed integers taken as `i128`.
pub trait NegativeLiteralIntoValue {
    /// The document value of the literal, or `None` where it has none.
    spec fn negative_literal_value(&self) -> Option<ValueView>;

    /// The document value of the literal.
    fn negative_literal_into_value(self) -> (r: Result<Value>)
        ensures
            converted(r, self.negative_literal_value()),
    ;
}

/// An integer as a document value: `InvalidData` out of `-2^64..2^64`.
fn int_into_value(value: i128) -> (r: Result<Value>)
    ensures
        match r {
            Ok(v) => int_in_range(value as int) && v@ == int_value(value as int),
            Err(e) => !int_in_range(value as int) && e.spec_kind() == ErrorKind::InvalidData,
        },
{
    Value::integer(value)
}

impl IntoValue for Value {
    open spec fn value_of(&self) -> Option<ValueView> {
        Some(self@)
    }

    fn into_value(self) -> (r: Result<Value>)
        ensures
            r matches Ok(v) && v@ == self@,
    {
        Ok(self)
    }
}

impl IntoValue for &Value {
    open spec fn value_of(&self) -> Option<ValueView> {
        Some((*self)@)
    }

    fn into_value(self) -> (r: Result<Value>)
        ensures
            r matches Ok(v) && v@ == self@,
    {
        Ok(self.duplicate())
    }
}

impl IntoValue for bool {
    open spec fn value_of(&self) -> Option<ValueView> {
        Some(ValueView::Bool(*self))
    }

    fn into_value(self) -> (r: Result<Value>)
        ensures
            r matches Ok(v) && v@ == ValueView::Bool(self),
    {
        Value::bool(self)
    }
}

impl IntoValue for i8 {
    open spec fn value_of(&self) -> Option<ValueView> {
        int_value_of(*self as int)
    }

    fn into_value(self) -> (r: Result<Value>)
        ensures
            r matches Ok(v) && v@ == int_value(self as int),
    {
        int_into_value(self as i128)
    }
}

impl IntoValue for i16 {
    open spec fn value_of(&self) -> Option<ValueView> {
        int_value_of(*self as int)
    }

    fn into_value(self) -> (r: Result<Value>)
        ensures
            r matches Ok(v) && v@ == int_value(self as int),
    {
        int_into_value(self as i128)
    }
}

impl IntoValue for i32 {
    open spec fn value_of(&self) -> Option<ValueView> {
        int_value_of(*self as int)
    }

    fn into_value(self) -> (r: Result<Value>)
        ensures
            r matches Ok(v) && v@ == int_value(self as int),
    {
        int_into_value(self as i128)
    }
}

impl IntoValue for i64 {
    open spec fn value_of(&self) -> Option<ValueView> {
        int_value_of(*self as int)
    }

    fn into_value(self) -> (r: Result<Value>)
        ensures
            r matches Ok(v) && v@ == int_value(self as int),
    {
        int_into_value(self as i128)
    }
}

impl IntoValue for isize {
    open spec fn value_of(&self) -> Option<ValueView> {
        int_value_of(*self as int)
    }

    fn into_value(self) -> (r: Result<Value>)
        ensures
            r matches Ok(v) && v@ == int_value(self as int),
    {
        int_into_value(self as i128)
    }
}

impl IntoValue for i128 {
    open spec fn value_of(&self) -> Option<ValueView> {
        int_value_of(*self as int)
    }

    fn into_value(self) -> (r: Result<Value>)
        ensures
            match r {
                Ok(v) => int_in_range(self as int) && v@ == int_value(self as int),
                Err(e) => !int_in_range(self as int) && e.spec_kind() == ErrorKind::InvalidData,
            },
    {
        int_into_value(self)
    }
}

impl IntoValue for u8 {
    open spec fn value_of(&self) -> Option<ValueView> {
        int_value_of(*self as int)
    }

    fn into_value(self) -> (r: Result<Value>)
        ensures
            r matches Ok(v) && v@ == int_value(self as int),
    {
        int_into_value(self as i128)
    }
}

impl IntoValue for u16 {
    open spec fn value_of(&self) -> Option<ValueView> {
        int_value_of(*self as int)
    }

    fn into_value(self) -> (r: Result<Value>)
        ensures
            r matches Ok(v) && v@ == int_value(self as int),
    {
        int_into_value(self as i128)
    }
}

impl IntoValue for u32 {
    open spec fn value_of(&self) -> Option<ValueView> {
        int_value_of(*self as int)
    }

    fn into_value(self) -> (r: Result<Value>)
        ensures
            r matches Ok(v) && v@ == int_value(self as int),
    {
        int_into_value(self as i128)
    }
}

impl IntoValue for u64 {
    open spec fn value_of(&self) -> Option<ValueView> {
        int_value_of(*self as int)
    }

    fn into_value(self) -> (r: Result<Value>)
        ensures
            r matches Ok(v) && v@ == int_value(self as int),
    {
        int_into_value(self as i128)
    }
}

impl IntoValue for usize {
    open spec fn value_of(&self) -> Option<ValueView> {
        int_value_of(*self as int)
    }

    fn into_value(self) -> (r: Result<Value>)
        ensures
            r matches Ok(v) && v@ == int_value(self as int),
    {
        int_into_value(self as i128)
    }
}

impl IntoValue for u128 {
    open spec fn value_of(&self) -> Option<ValueView> {
        int_value_of(*self as int)
    }

    fn into_value(self) -> (r: Result<Value>)
        ensures
            match r {
                Ok(v) => int_in_range(self as int) && v@ == int_value(self as int),
                Err(e) => !int_in_range(self as int) && e.spec_kind() == ErrorKind::InvalidData,
            },
    {
        if self > 0x7fff_ffff_ffff_ffff_ffff_ffff_ffff_ffffu128 {
            return Err(Error::new(ErrorKind::InvalidData, "integer value out of range"));
        }
        int_into_value(self as i128)
    }
}

impl IntoValue for String {
    open spec fn value_of(&self) -> Option<ValueView> {
        Some(ValueView::TStr(self@))
    }

    fn into_value(self) -> (r: Result<Value>)
        ensures
            r matches Ok(v) && v@ == ValueView::TStr(self@),
    {
        Value::tstr(self)
    }
}

impl IntoValue for &String {
    open spec fn value_of(&self) -> Option<ValueView> {
        Some(ValueView::TStr((*self)@))
    }

    fn into_value(self) -> (r: Result<Value>)
        ensures
            r matches Ok(v) && v@ == ValueView::TStr(self@),
    {
        Value::tstr(self.clone())
    }
}

impl IntoValue for &str {
    open spec fn value_of(&self) -> Option<ValueView> {
        Some(ValueView::TStr((*self)@))
    }

    fn into_value(self) -> (r: Result<Value>)
        ensures
            r matches Ok(v) && v@ == ValueView::TStr(self@),
    {
        Value::tstr(self.to_string())
    }
}

impl IntoValue for Vec<u8> {
    open spec fn value_of(&self) -> Option<ValueView> {
        Some(ValueView::BStr(self@))
    }

    fn into_value(self) -> (r: Result<Value>)
        ensures
            r matches Ok(v) && v@ == ValueView::BStr(self@),
    {
        Value::bstr(self)
    }
}

impl IntoValue for &Vec<u8> {
    open spec fn value_of(&self) -> Option<ValueView> {
        Some(ValueView::BStr((*self)@))
    }

    fn into_value(self) -> (r: Result<Value>)
        ensures
            r matches Ok(v) && v@ == ValueView::BStr(self@),
    {
        Value::bstr(vstd::slice::slice_to_vec(self.as_slice()))
    }
}

impl IntoValue for &[u8] {
    open spec fn value_of(&self) -> Option<ValueView> {
        Some(ValueView::BStr((*self)@))
    }

    fn into_value(self) -> (r: Result<Value>)
        ensures
            r matches Ok(v) && v@ == ValueView::BStr(self@),
    {
        Value::bstr(vstd::slice::slice_to_vec(self))
    }
}

impl<const N: usize> IntoValue for [u8; N] {
    open spec fn value_of(&self) -> Option<ValueView> {
        Some(ValueView::BStr(self@))
    }

    fn into_value(self) -> (r: Result<Value>)
        ensures
            r matches Ok(v) && v@ == ValueView::BStr(self@),
    {
        Value::bstr(vstd::slice::slice_to_vec(self.as_slice()))
    }
}

impl<const N: usize> IntoValue for &[u8; N] {
    open spec fn value_of(&self) -> Option<ValueView> {
        Some(ValueView::BStr((*self)@))
    }

    fn into_value(self) -> (r: Result<Value>)
        ensures
            r matches Ok(v) && v@ == ValueView::BStr(self@),
    {
        Value::bstr(vstd::slice::slice_to_vec(self.as_slice()))
    }
}

impl PositiveLiteralIntoValue for &u128 {
    open spec fn positive_literal_value(&self) -> Option<ValueView> {
        int_value_of(**self as int)
    }

    fn positive_literal_into_value(self) -> (r: Result<Value>)
        ensures
            match r {
                Ok(v) => int_in_range(*self as int) && v@ == int_value(*self as int),
                Err(e) => !int_in_range(*self as int) && e.spec_kind() == ErrorKind::InvalidData,
            },
    {
        (*self).into_value()
    }
}

impl<T: Copy + IntoValue> PositiveLiteralIntoValue for &&T {
    open spec fn positive_literal_value(&self) -> Option<ValueView> {
        (**self).value_of()
    }

    fn positive_literal_into_value(self) -> Result<Value> {
        (**self).into_value()
    }
}

impl PositiveLiteralIntoValue for &&str {
    open spec fn positive_literal_value(&self) -> Option<ValueView> {
        Some(ValueView::TStr((***self)@))
    }

    fn positive_literal_into_value(self) -> (r: Result<Value>)
        ensures
            r matches Ok(v) && v@ == ValueView::TStr((**self)@),
    {
        Value::tstr((**self).to_string())
    }
}

impl NegativeLiteralIntoValue for &i128 {
    open spec fn negative_literal_value(&self) -> Option<ValueView> {
        int_value_of(**self as int)
    }

    fn negative_literal_into_value(self) -> (r: Result<Value>)
        ensures
            match r {
                Ok(v) => int_in_range(*self as int) && v@ == int_value(*self as int),
                Err(e) => !int_in_range(*self as int) && e.spec_kind() == ErrorKind::InvalidData,
            },
    {
        (*self).into_value()
    }
}

impl<T: Copy + IntoValue> NegativeLiteralIntoValue for &&T {
    open spec fn negative_literal_value(&self) -> Option<ValueView> {
        (**self).value_of()
    }

    fn negative_literal_into_value(self) -> Result<Value> {
        (**self).into_value()
    }
}

} // verus!
