pub mod fprocessing;
pub mod hash;
pub mod lexem;
