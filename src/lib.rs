pub mod data;
pub mod extract;
pub mod matcher;
pub mod text;
pub mod util;
