//! Keys and values of the store, and their mathematical models.

use vstd::prelude::*;
use vstd::slice::slice_to_vec;

verus! {

/// A key: a text or an integer. `Text("5")` and `Integer(5)` are different keys.
#[derive(Debug, Clone, PartialEq, Eq, Hash)]
pub enum Key {
    Text(String),
    Integer(i64),
}

/// The mathematical model of a [`Key`].
pub enum KeyModel {
    Text(Seq<char>),
    Integer(i64),
}

impl View for Key {
    type V = KeyModel;

    open spec fn view(&self) -> KeyModel {
        match self {
            Key::Text(s) => KeyModel::Text(s@),
            Key::Integer(i) => KeyModel::Integer(*i),
        }
    }
}

/// A value owned by the caller.
#[derive(Debug, Clone, PartialEq)]
pub enum OwnedValue {
    Integer(i64),
    Bool(bool),
    Text(String),
    Blob(Vec<u8>),
}

/// A value that borrows its text or bytes from the store's log.
#[derive(Debug, PartialEq)]
pub enum BorrowedValue<'a> {
    Integer(i64),
    Bool(bool),
    Text(&'a str),
    Blob(&'a [u8]),
}

/// The mathematical model of a value, owned or borrowed.
pub enum ValueModel {
    Integer(i64),
    Bool(bool),
    Text(Seq<char>),
    Blob(Seq<u8>),
}

impl View for OwnedValue {
    type V = ValueModel;

    open spec fn view(&self) -> ValueModel {
        match self {
            OwnedValue::Integer(x) => ValueModel::Integer(*x),
            OwnedValue::Bool(b) => ValueModel::Bool(*b),
            OwnedValue::Text(s) => ValueModel::Text(s@),
            OwnedValue::Blob(v) => ValueModel::Blob(v@),
        }
    }
}

impl<'a> View for BorrowedValue<'a> {
    type V = ValueModel;

    open spec fn view(&self) -> ValueModel {
        match self {
            BorrowedValue::Integer(x) => ValueModel::Integer(*x),
            BorrowedValue::Bool(b) => ValueModel::Bool(*b),
            BorrowedValue::Text(s) => ValueModel::Text(s@),
            BorrowedValue::Blob(b) => ValueModel::Blob(b@),
        }
    }
}

impl<'a> BorrowedValue<'a> {
    /// Copies the borrowed text or bytes into an owned value of the same kind.
    pub fn to_owned(&self) -> (owned: OwnedValue)
        ensures
            owned@ == self@,
    {
        match self {
            BorrowedValue::Integer(x) => OwnedValue::Integer(*x),
            BorrowedValue::Bool(b) => OwnedValue::Bool(*b),
            BorrowedValue::Text(s) => {
                let text: &str = *s;
                OwnedValue::Text(text.to_owned())
            },
            BorrowedValue::Blob(bytes) => OwnedValue::Blob(slice_to_vec(*bytes)),
        }
    }
}

} // verus!

