use vstd::prelude::*;

verus! {

/// The name `Parent`.
pub open spec fn parent_name() -> Seq<u8> {
    seq![80u8, 97, 114, 101, 110, 116]
}

/// The name `Type`.
pub open spec fn kind_name() -> Seq<u8> {
    seq![84u8, 121, 112, 101]
}

/// The name `Pages`.
pub open spec fn pages_name() -> Seq<u8> {
    seq![80u8, 97, 103, 101, 115]
}

/// The name `Kids`.
pub open spec fn kids_name() -> Seq<u8> {
    seq![75u8, 105, 100, 115]
}

/// The name `Count`.
pub open spec fn count_name() -> Seq<u8> {
    seq![67u8, 111, 117, 110, 116]
}

/// The name `Catalog`.
pub open spec fn catalog_name() -> Seq<u8> {
    seq![67u8, 97, 116, 97, 108, 111, 103]
}

/// The name `Root`.
pub open spec fn root_name() -> Seq<u8> {
    seq![82u8, 111, 111, 116]
}

pub fn parent_key() -> (r: Vec<u8>)
    ensures
        r@ == parent_name(),
{
    let r = vec![80u8, 97, 114, 101, 110, 116];
    assert(r@ =~= parent_name());
    r
}

pub fn type_key() -> (r: Vec<u8>)
    ensures
        r@ == kind_name(),
{
    let r = vec![84u8, 121, 112, 101];
    assert(r@ =~= kind_name());
    r
}

pub fn pages_key() -> (r: Vec<u8>)
    ensures
        r@ == pages_name(),
{
    let r = vec![80u8, 97, 103, 101, 115];
    assert(r@ =~= pages_name());
    r
}

pub fn kids_key() -> (r: Vec<u8>)
    ensures
        r@ == kids_name(),
{
    let r = vec![75u8, 105, 100, 115];
    assert(r@ =~= kids_name());
    r
}

pub fn count_key() -> (r: Vec<u8>)
    ensures
        r@ == count_name(),
{
    let r = vec![67u8, 111, 117, 110, 116];
    assert(r@ =~= count_name());
    r
}

pub fn catalog_key() -> (r: Vec<u8>)
    ensures
        r@ == catalog_name(),
{
    let r = vec![67u8, 97, 116, 97, 108, 111, 103];
    assert(r@ =~= catalog_name());
    r
}

pub fn root_key() -> (r: Vec<u8>)
    ensures
        r@ == root_name(),
{
    let r = vec![82u8, 111, 111, 116];
    assert(r@ =~= root_name());
    r
}

/// Whether two names are the same bytes.
pub fn same_name(a: &Vec<u8>, b: &Vec<u8>) -> (r: bool)
    ensures
        r == (a@ == b@),
{
    if a.len() != b.len() {
        return false;
    }
    let mut i: usize = 0;
    while i < a.len()
        invariant
            a.len() == b.len(),
            i <= a.len(),
            forall|j: int| 0 <= j < i ==> a@[j] == b@[j],
        decreases a.len() - i,
    {
        if a[i] != b[i] {
            return false;
        }
        i += 1;
    }
    assert(a@ =~= b@);
    true
}

} // verus!
