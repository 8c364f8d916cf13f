pub mod error;
pub mod fetch;
pub mod key;
pub mod locale;
pub mod merge;
pub mod parse;
pub mod plural;
pub mod raw;
pub mod resolve;
pub mod scan;
pub mod text;
pub mod value;
