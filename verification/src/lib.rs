pub mod matching;
pub mod process;
pub mod query;
pub mod sorting;
pub mod text;
pub mod util;
