//! Plugin namespaces. A `Library` is a handle to a dynamically loaded
//! library; loading itself is platform work that the surrounding program
//! performs, so the handle carries no state here.

use vstd::prelude::*;

verus! {

/// A handle to a loaded plugin library, paired by the surrounding program
/// with the namespace its values are pulled from.
pub struct Library;

} // verus!
