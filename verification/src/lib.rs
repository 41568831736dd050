//! Scraping of the GitHub trending pages into plain records, with the
//! text handling, element selection and cache framing that it rests on.

pub mod cache;
pub mod css;
pub mod dom;
pub mod text;
pub mod trending;

pub use cache::{FileName, CACHE_DEV_FILE, CACHE_REPO_FILE};
pub use trending::{Collaborator, Developer, Repository, UserDataType};
