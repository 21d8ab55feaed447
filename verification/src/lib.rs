pub mod parallel;
pub mod shortint;
pub mod radix;
pub mod server_key;
pub mod radix_ops;
pub mod radix_arith;
pub mod div_mod;
pub mod division_lemmas;
pub mod long_division;
pub mod division_laws;
