//! What holds of the library as a whole.
pub mod choice;
pub mod decode;
pub mod fixed;
pub mod forward;
pub mod ideal;
pub mod launches;
pub mod layout;
pub mod levels;
pub mod outputs;
pub mod products;
pub mod ranges;
pub mod rotation;
pub mod routine;
pub mod shares;
pub mod signs;
pub mod streams;
pub mod symmetric;
pub mod transform;
