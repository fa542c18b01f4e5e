use vstd::prelude::*;

verus! {

/// The settings page's state; it holds no option yet.
#[derive(Clone, Default, Debug)]
pub struct Settings {}

} // verus!
