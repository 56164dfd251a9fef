use vstd::prelude::*;

verus! {

/// A borrowed path of child indices from the roots down to a node.
pub type TreeIdentifier<'a> = &'a [usize];

/// An owned path of child indices from the roots down to a node.
pub type TreeIdentifierVec = Vec<usize>;

/// The parent of `id` in the model: the path without its last index.
/// The empty path is its own parent.
pub open spec fn parent_of(id: Seq<usize>) -> Seq<usize> {
    if id.len() == 0 {
        id
    } else {
        id.drop_last()
    }
}

/// Splits an identifier into the identifier of its parent and its last index.
/// On the empty identifier it returns the empty identifier and no index.
pub fn get_without_leaf(identifier: &[usize]) -> (r: (Vec<usize>, Option<usize>))
    ensures
        r.0@ == parent_of(identifier@),
        identifier@.len() == 0 ==> r.1.is_none(),
        identifier@.len() > 0 ==> r.1 == Some(identifier@.last()),
{
    let n = identifier.len();
    let mut head: Vec<usize> = Vec::new();
    if n == 0 {
        return (head, None);
    }
    let mut i: usize = 0;
    while i + 1 < n
        invariant
            n == identifier@.len(),
            n > 0,
            i < n,
            head@ == identifier@.subrange(0, i as int),
        decreases n - i,
    {
        head.push(identifier[i]);
        i += 1;
    }
    assert(head@ == identifier@.drop_last());
    (head, Some(identifier[n - 1]))
}

/// Whether two identifiers hold the same path.
pub fn same_identifier(a: &[usize], b: &[usize]) -> (r: bool)
    ensures
        r == (a@ == b@),
{
    if a.len() != b.len() {
        return false;
    }
    let mut i: usize = 0;
    while i < a.len()
        invariant
            a@.len() == b@.len(),
            i <= a@.len(),
            forall|j: int| 0 <= j < i ==> a@[j] == b@[j],
        decreases a@.len() - i,
    {
        if a[i] != b[i] {
            return false;
        }
        i += 1;
    }
    assert(a@ =~= b@);
    true
}

/// A copy of an identifier.
pub fn copy_identifier(a: &[usize]) -> (r: Vec<usize>)
    ensures
        r@ == a@,
{
    let mut r: Vec<usize> = Vec::new();
    let mut i: usize = 0;
    while i < a.len()
        invariant
            i <= a@.len(),
            r@ == a@.subrange(0, i as int),
        decreases a@.len() - i,
    {
        r.push(a[i]);
        i += 1;
    }
    assert(r@ =~= a@);
    r
}

} // verus!
