//! Tag bookkeeping for folders of images: the tag-file format, the search
//! language over tags, and the state machine of the tagging application.
pub mod text_util;

pub use text_util::is_valid_tag;
pub mod tag;
pub mod entry;
pub mod metadata;
pub mod metadata_laws;
pub mod compress;
pub mod search;
pub mod search_laws;
pub mod state;
pub mod state_laws;
pub mod count_laws;
pub mod collection_laws;
