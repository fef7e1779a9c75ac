pub mod alphabet;
pub mod perm;
pub mod pairs;
pub mod plugboard;
pub mod reflector;
pub mod rotor;
pub mod machine;
pub mod text;
pub mod random;
pub mod laws;
pub mod odometer;
pub mod trace;

pub use alphabet::{get_char_digit, letter_of, EnigmaError};
pub use machine::Enigma;
pub use plugboard::Plugboard;
pub use reflector::Reflector;
pub use rotor::Rotor;
