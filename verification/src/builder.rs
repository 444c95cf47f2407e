//! Turning the parts of a scheme, as read, into the parts of a scene.
use vstd::prelude::*;
use vstd::std_specs::convert::FromSpec;

verus! {

/// A list whose items are converted one by one into another type.
pub struct VecInto<T>(pub Vec<T>);

impl<T> VecInto<T> {
    /// The list with each item converted by `From`, in the same order.
    pub fn into_vec<B: From<T>>(self) -> (r: Vec<B>)
        ensures
            r@.len() == self.0@.len(),
            forall|i: int| 0 <= i < r@.len() ==> call_ensures(B::from, (self.0@[i],), #[trigger] r@[i]),
            B::obeys_from_spec() ==> forall|i: int| 0 <= i < r@.len() ==> r@[i] == B::from_spec(#[trigger] self.0@[i]),
    {
        let VecInto(contents) = self;
        let ghost items = contents@;
        let mut out: Vec<B> = Vec::new();
        for t in it: contents.into_iter()
            invariant
                it.seq() == items,
                out@.len() == it.index(),
                forall|k: int| 0 <= k < out@.len() ==> call_ensures(B::from, (items[k],), #[trigger] out@[k]),
                B::obeys_from_spec() ==> forall|k: int| 0 <= k < out@.len() ==> out@[k] == B::from_spec(#[trigger] items[k]),
        {
            out.push(B::from(t));
        }
        out
    }
}

}
