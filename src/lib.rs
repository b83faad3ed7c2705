pub mod conditions;
pub mod parsing;
mod text;
pub mod utils;
pub mod windows;
