use vstd::prelude::*;

pub mod chunks;
pub mod delay;
pub mod lexer;
pub mod noise;
pub mod program;
pub mod text;
pub mod wav;
