use vstd::prelude::*;

verus! {

/// The planning service: answers a planning problem with a plan.
#[derive(Default, Clone, Copy, Debug)]
pub struct UpfService {}

} // verus!
