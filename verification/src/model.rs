//! The shapes of the networks behind the policies. The networks themselves
//! are built outside this library; what is here is the arithmetic that
//! sizes their layers.

pub mod layer_sizes;
