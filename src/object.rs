use vstd::prelude::*;

verus! {

/// Identifier of an object in one document's store: an object number and a
/// generation number.
#[derive(Clone, Copy, Debug, PartialEq, Eq, Structural)]
pub struct ObjectId {
    pub num: u32,
    pub gen: u16,
}

/// How a string object is written out.
#[derive(Clone, Copy, Debug, PartialEq, Eq, Structural)]
pub enum StringFormat {
    Literal,
    Hexadecimal,
}

/// One key and its value in a dictionary; keys are names, held as bytes.
pub type Entry = (Vec<u8>, Object);

/// A value of the document's object graph.
///
/// `Real` holds the IEEE-754 bit pattern of a single-precision number: the
/// library never computes with it, it only carries it.
#[derive(Debug)]
pub enum Object {
    Null,
    Boolean(bool),
    Integer(i64),
    Real(u32),
    Name(Vec<u8>),
    String(Vec<u8>, StringFormat),
    Array(Vec<Object>),
    Dictionary(Vec<Entry>),
    Stream(Vec<Entry>, Vec<u8>),
    Reference(ObjectId),
}

/// The failures of the document operations.
#[derive(Clone, Copy, Debug, PartialEq, Eq, Structural)]
pub enum PdfError {
    LoadFailure,
    EmptyInput,
    InvalidSyntax,
    RangeOutOfBounds,
    NoPagesSelected,
    EncodeFailure,
}

pub fn copy_bytes(v: &Vec<u8>) -> (r: Vec<u8>)
    ensures
        r@ == v@,
{
    let mut r: Vec<u8> = Vec::new();
    let mut i: usize = 0;
    while i < v.len()
        invariant
            i <= v.len(),
            r@ == v@.subrange(0, i as int),
        decreases v.len() - i,
    {
        r.push(v[i]);
        i += 1;
        assert(r@ =~= v@.subrange(0, i as int));
    }
    assert(r@ =~= v@);
    r
}

} // verus!
