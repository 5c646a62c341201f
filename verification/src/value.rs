use vstd::prelude::*;
use crate::error::StoreError;

verus! {

/// The value of a store. Stores of different types live in one graph, so a
/// value carries its type as a tag, and a typed read checks the tag.
#[derive(Debug, PartialEq, Eq)]
pub enum Value {
    Bool(bool),
    Int(i64),
    Text(String),
}

impl Clone for Value {
    fn clone(&self) -> (copy: Self)
        ensures
            copy == *self,
    {
        match self {
            Value::Bool(b) => Value::Bool(*b),
            Value::Int(i) => Value::Int(*i),
            Value::Text(s) => Value::Text(s.clone()),
        }
    }
}

impl Value {
    /// The boolean in this value; `TypeMismatch` if it holds another type.
    pub fn as_bool(&self) -> (r: Result<bool, StoreError>)
        ensures
            r == (match *self {
                Value::Bool(b) => Ok::<bool, StoreError>(b),
                _ => Err(StoreError::TypeMismatch),
            }),
    {
        match self {
            Value::Bool(b) => Ok(*b),
            _ => Err(StoreError::TypeMismatch),
        }
    }

    /// The integer in this value; `TypeMismatch` if it holds another type.
    pub fn as_int(&self) -> (r: Result<i64, StoreError>)
        ensures
            r == (match *self {
                Value::Int(i) => Ok::<i64, StoreError>(i),
                _ => Err(StoreError::TypeMismatch),
            }),
    {
        match self {
            Value::Int(i) => Ok(*i),
            _ => Err(StoreError::TypeMismatch),
        }
    }

    /// The text in this value; `TypeMismatch` if it holds another type.
    pub fn as_text(&self) -> (r: Result<&String, StoreError>)
        ensures
            r == (match *self {
                Value::Text(s) => Ok::<&String, StoreError>(&s),
                _ => Err(StoreError::TypeMismatch),
            }),
    {
        match self {
            Value::Text(s) => Ok(s),
            _ => Err(StoreError::TypeMismatch),
        }
    }
}

} // verus!
