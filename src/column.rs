use vstd::prelude::*;

verus! {

/// A column of values, one per row, in row order.
pub struct Col<T: 'static>(pub Vec<T>);

impl<T> Col<T> {
    /// An empty column.
    pub fn new() -> (r: Col<T>)
        ensures
            r.0@.len() == 0,
    {
        Col(Vec::new())
    }

    /// A column that holds the given values, in order.
    pub fn from_vec(v: Vec<T>) -> (r: Col<T>)
        ensures
            r.0@ == v@,
    {
        Col(v)
    }

    /// The number of rows.
    pub fn len(&self) -> (r: usize)
        ensures
            r == self.0@.len(),
    {
        self.0.len()
    }

    /// The values, in row order.
    pub fn iter(&self) -> (r: std::slice::Iter<'_, T>)
        ensures
            vstd::std_specs::slice::into_iter_elts(r) == self.0@,
    {
        proof {
            broadcast use vstd::std_specs::slice::axiom_spec_slice_iter;
        }
        self.0.as_slice().iter()
    }
}

} // verus!
