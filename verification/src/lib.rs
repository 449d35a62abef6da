//! Backend of a level-script compiler for a game whose levels are built from
//! placed objects addressed through four fixed-capacity integer identifier
//! namespaces.  The backend owns the trigger-graph intermediate
//! representation and its optimizer, the level-document codec, and the
//! merge/linking stage that splices freshly generated objects into a
//! user-authored level without disturbing pre-existing content.

use vstd::prelude::*;

pub mod cond;
pub mod codec;
pub mod frame;
pub mod ids;
pub mod ir;
pub mod merge;
pub mod optimize;
pub mod obj;
pub mod sim;
pub mod text;

verus! {

/// Failures surfaced by the backend pipeline.  Every failure is detected as
/// close as possible to its cause and returned to the build driver; none is
/// retried inside the library.
#[derive(Clone, Copy, PartialEq, Eq, Structural, Debug)]
pub enum BackendError {
    /// A container or payload is malformed and cannot be decoded.
    InvalidFormat,
    /// The requested level name is absent from the document.
    NotFound,
    /// An identifier namespace has no fresh identifiers left.
    CapacityExceeded,
    /// Generated code references an identifier no unit exposes.
    UnresolvedReference,
}

} // verus!
