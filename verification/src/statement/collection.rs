use vstd::prelude::*;
use super::statement::{Statement, copy_vec, seq_model, seq_equals};
use super::model::seq_eq;
use vstd::std_specs::iter::IteratorSpec;

verus! {

/// An ordered run of items, owned (`Vec`) or borrowed (a slice).
#[derive(Debug, Clone)]
pub struct Collection<T> {
    pub items: T,
}

/// An owned sequence of statements.
pub type Sequence = Collection<Vec<Statement>>;

impl<S> Collection<Vec<S>> {
    /// An iterator over the items, in order.
    pub fn iter(&self) -> (r: std::slice::Iter<'_, S>)
        ensures
            IteratorSpec::remaining(&r) == self.items@.as_ref(),
    {
        broadcast use vstd::std_specs::slice::axiom_spec_slice_iter;
        self.items.as_slice().iter()
    }

    /// The items before `index` and the items from `index` on.
    pub fn split_at(&self, index: usize) -> (r: (Collection<&[S]>, Collection<&[S]>))
        requires
            index <= self.items@.len(),
        ensures
            r.0.items@ == self.items@.subrange(0, index as int),
            r.1.items@ == self.items@.subrange(index as int, self.items@.len() as int),
    {
        let (a, b) = self.items.as_slice().split_at(index);
        (Collection { items: a }, Collection { items: b })
    }

    /// The number of items.
    pub fn len(&self) -> (r: usize)
        ensures
            r == self.items@.len(),
    {
        self.items.len()
    }
}

impl<'a, S> Collection<&'a [S]> {
    /// An iterator over the items, in order.
    pub fn iter(&self) -> (r: std::slice::Iter<'a, S>)
        ensures
            IteratorSpec::remaining(&r) == self.items@.as_ref(),
    {
        broadcast use vstd::std_specs::slice::axiom_spec_slice_iter;
        self.items.iter()
    }

    /// The items before `index` and the items from `index` on.
    pub fn split_at(&self, index: usize) -> (r: (Collection<&'a [S]>, Collection<&'a [S]>))
        requires
            index <= self.items@.len(),
        ensures
            r.0.items@ == self.items@.subrange(0, index as int),
            r.1.items@ == self.items@.subrange(index as int, self.items@.len() as int),
    {
        let (a, b) = self.items.split_at(index);
        (Collection { items: a }, Collection { items: b })
    }

    /// The number of items.
    pub fn len(&self) -> (r: usize)
        ensures
            r == self.items@.len(),
    {
        self.items.len()
    }
}

impl Collection<Vec<Statement>> {
    /// A sequence holding `items`.
    pub fn new(items: Vec<Statement>) -> (r: Self)
        ensures
            r.items == items,
    {
        Collection { items }
    }

    /// The same items, borrowed.
    pub fn as_ref(&self) -> (r: Collection<&[Statement]>)
        ensures
            r.items@ == self.items@,
    {
        Collection { items: self.items.as_slice() }
    }
}

impl<'a> Collection<&'a [Statement]> {
    /// An owned sequence with copies of the items.
    pub fn to_vec(&self) -> (r: Sequence)
        ensures
            seq_model(r.items@) == seq_model(self.items@),
    {
        Collection { items: copy_slice(self.items) }
    }
}

/// Copies of the statements of a slice, in order.
pub(crate) fn copy_slice(v: &[Statement]) -> (r: Vec<Statement>)
    ensures
        seq_model(r@) == seq_model(v@),
{
    let mut r: Vec<Statement> = Vec::new();
    let mut i: usize = 0;
    while i < v.len()
        invariant
            i <= v@.len(),
            r@.len() == i,
            forall|j: int| 0 <= j < i ==> #[trigger] r@[j]@ == v@[j]@,
        decreases v@.len() - i,
    {
        r.push(v[i].copy());
        i = i + 1;
    }
    proof {
        super::statement::lemma_seq_model(r@);
        super::statement::lemma_seq_model(v@);
        assert forall|j: int| 0 <= j < v@.len() implies seq_model(r@)[j] == seq_model(v@)[j] by {
            assert(r@[j]@ == v@[j]@);
        }
        assert(seq_model(r@) =~= seq_model(v@));
    }
    r
}

impl<S> std::ops::Index<usize> for Collection<Vec<S>> {
    type Output = S;

    fn index(&self, index: usize) -> (r: &S)
        ensures
            *r == self.items@[index as int],
    {
        &self.items[index]
    }
}

impl<S> vstd::std_specs::core::IndexSpecImpl<usize> for Collection<Vec<S>> {
    open spec fn index_req(&self, index: &usize) -> bool {
        *index < self.items@.len()
    }
}

impl<'a, S> std::ops::Index<usize> for Collection<&'a [S]> {
    type Output = S;

    fn index(&self, index: usize) -> (r: &S)
        ensures
            *r == self.items@[index as int],
    {
        &self.items[index]
    }
}

impl<'a, S> vstd::std_specs::core::IndexSpecImpl<usize> for Collection<&'a [S]> {
    open spec fn index_req(&self, index: &usize) -> bool {
        *index < self.items@.len()
    }
}

impl Default for Collection<Vec<Statement>> {
    fn default() -> (r: Self)
        ensures
            r.items@ == Seq::<Statement>::empty(),
    {
        Collection { items: Vec::new() }
    }
}

/// An ordered list; when `ispiped` holds, its last item stands for the tail.
#[derive(Debug, Clone)]
pub struct List {
    pub items: Sequence,
    pub ispiped: bool,
}

/// An unordered list; when `ispiped` holds, its last item stands for the rest.
#[derive(Debug, Clone)]
pub struct UList {
    pub items: Sequence,
    pub ispiped: bool,
}

/// An object literal: its fields and whether it is piped.
#[derive(Debug)]
pub struct Object(pub (Sequence, bool));

impl Clone for Object {
    fn clone(&self) -> (r: Self)
        ensures
            Statement::Object(r)@ == Statement::Object(*self)@,
    {
        Object((Collection { items: copy_vec(&self.0.0.items) }, self.0.1))
    }
}

/// Sequences are equal when their items are, position by position.
impl PartialEq for Collection<Vec<Statement>> {
    fn eq(&self, other: &Self) -> (r: bool) {
        seq_equals(self.items.as_slice(), other.items.as_slice())
    }
}

impl vstd::std_specs::cmp::PartialEqSpecImpl for Collection<Vec<Statement>> {
    open spec fn obeys_eq_spec() -> bool {
        true
    }

    open spec fn eq_spec(&self, other: &Self) -> bool {
        seq_eq(seq_model(self.items@), seq_model(other.items@))
    }
}

/// Borrowed runs are equal when their items are, position by position.
impl<'a> PartialEq for Collection<&'a [Statement]> {
    fn eq(&self, other: &Self) -> (r: bool) {
        seq_equals(self.items, other.items)
    }
}

impl<'a> vstd::std_specs::cmp::PartialEqSpecImpl for Collection<&'a [Statement]> {
    open spec fn obeys_eq_spec() -> bool {
        true
    }

    open spec fn eq_spec(&self, other: &Self) -> bool {
        seq_eq(seq_model(self.items@), seq_model(other.items@))
    }
}

/// Lists are equal when their items are and both are piped or neither is.
impl PartialEq for List {
    fn eq(&self, other: &List) -> (r: bool) {
        seq_equals(self.items.items.as_slice(), other.items.items.as_slice()) && self.ispiped == other.ispiped
    }
}

impl vstd::std_specs::cmp::PartialEqSpecImpl for List {
    open spec fn obeys_eq_spec() -> bool {
        true
    }

    open spec fn eq_spec(&self, other: &List) -> bool {
        seq_eq(seq_model(self.items.items@), seq_model(other.items.items@)) && self.ispiped == other.ispiped
    }
}

/// Unordered lists are equal when their items are, in the same order, and both are
/// piped or neither is.
impl PartialEq for UList {
    fn eq(&self, other: &UList) -> (r: bool) {
        seq_equals(self.items.items.as_slice(), other.items.items.as_slice()) && self.ispiped == other.ispiped
    }
}

impl vstd::std_specs::cmp::PartialEqSpecImpl for UList {
    open spec fn obeys_eq_spec() -> bool {
        true
    }

    open spec fn eq_spec(&self, other: &UList) -> bool {
        seq_eq(seq_model(self.items.items@), seq_model(other.items.items@)) && self.ispiped == other.ispiped
    }
}

/// Objects are equal when their fields are and both are piped or neither is.
impl PartialEq for Object {
    fn eq(&self, other: &Object) -> (r: bool) {
        seq_equals(self.0.0.items.as_slice(), other.0.0.items.as_slice()) && self.0.1 == other.0.1
    }
}

impl vstd::std_specs::cmp::PartialEqSpecImpl for Object {
    open spec fn obeys_eq_spec() -> bool {
        true
    }

    open spec fn eq_spec(&self, other: &Object) -> bool {
        seq_eq(seq_model((self.0).0.items@), seq_model((other.0).0.items@)) && (self.0).1 == (other.0).1
    }
}

} // verus!
