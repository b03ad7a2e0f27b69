//! A text-editing buffer built on a piece table.
//!
//! The document is never copied on an edit. It is described by an ordered
//! list of pieces, each naming a contiguous run of code points in one of two
//! stores: the text as it was loaded, which never changes, and an
//! append-only store that receives every inserted text. Positions and
//! lengths count Unicode scalar values throughout.

pub mod error;
pub mod laws;
pub mod locator;
pub mod model;
pub mod piece;
pub mod span;
pub mod store;
pub mod table;
pub mod text;

pub use error::EditError;
pub use locator::locate;
pub use model::{Edit, Model};
pub use piece::Piece;
pub use span::{Source, Span};
pub use store::Stores;
pub use table::PieceTable;
