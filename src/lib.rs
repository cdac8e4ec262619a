pub mod net;
pub mod term;
pub mod parse;
pub mod encode;
pub mod decode;
pub mod eval;
