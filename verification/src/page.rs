//! The document layer above blocks: a page collects blocks into one
//! complete output document.

use vstd::prelude::*;

verus! {

/// A complete output document. Outer layers implement this to assemble
/// blocks into a finished document.
pub trait Page {
    fn build(&self);

    fn accept(&self);
}

} // verus!
