pub mod number_pairing;
pub mod number_pairing_problem;
pub mod util;

pub use number_pairing::NumberPairing;
pub use util::make_line;
