//! Kernel of a similarity-search index over sketches of sequence data.
//!
//! An index holds items that can be compared ([`Comparable`]) and filters
//! them against a query ([`Index`]). The items here are signatures
//! ([`Signature`]) and handles to signatures that are read from storage
//! when first needed ([`SigStore`]). A search policy ([`JaccardSearch`])
//! scores a match and decides, against a threshold that the branches of a
//! traversal share, whether it is good enough.
//!
//! Numbers come in two kinds. A [`Ratio`] is an overlap before it is
//! divided out, exact in its two counts. A [`Score`] is a binary64 number
//! by its bit pattern; order and division on scores are integer arithmetic
//! and are proved against their definitions in [`score`] and [`rounding`].

mod lazy;
pub mod comparable;
pub mod error;
pub mod index;
pub mod rounding;
pub mod score;
pub mod search;
pub mod sigstore;
pub mod sketch;
mod threshold;

pub use comparable::Comparable;
pub use error::Error;
pub use index::{Index, LinearIndex};
pub use score::{Ratio, Score};
pub use search::{JaccardSearch, SearchType};
pub use sigstore::{DatasetInfo, SigStore, Storage};
pub use sketch::{MinHash, Signature, Sketch};
