//! Dimensions, and what is configured of them.

use vstd::prelude::*;

verus! {

/// A dimension of a world.
#[derive(Debug, Clone, PartialEq, Eq)]
pub enum Dimension {
    Overworld,
    Nether,
    End,
    /// A custom dimension's resource key.
    Custom(String),
}

impl Dimension {
    /// A copy of the dimension.
    pub fn copied(&self) -> (r: Dimension)
        ensures
            r == *self,
    {
        match self {
            Dimension::Overworld => Dimension::Overworld,
            Dimension::Nether => Dimension::Nether,
            Dimension::End => Dimension::End,
            Dimension::Custom(key) => Dimension::Custom(key.clone()),
        }
    }
}

/// What `dimension_config.txt` says of a dimension.
#[derive(Debug, Clone)]
pub struct DimensionConfig {
    /// The vanilla dimension that the dimension behaves like, as a resource
    /// key.
    pub dimension_type_id: Option<String>,
}

} // verus!
