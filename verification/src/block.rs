//! The semantic content layer above the markup vocabulary: a block is a
//! meaningful unit of content that renders itself through the
//! intermediate representation.

use vstd::prelude::*;

verus! {

/// A semantic unit of content. Outer layers implement this to compose
/// vocabulary elements into larger meaningful pieces.
pub trait Block {
    fn get_attr(&self);

    fn get_chids(&self);

    fn accept(&self);

    fn build(&self);
}

} // verus!
