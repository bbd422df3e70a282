pub mod codec;
pub mod compare;
pub mod diff;
pub mod index;
pub mod patch;
pub mod window;

pub use codec::{DecodeError, Op};
pub use diff::make_diff;
pub use patch::{apply_patch, PatchError};
