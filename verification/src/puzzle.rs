pub mod cube2x2;
pub mod cube3x3;

pub use cube2x2::Cube2x2;
pub use cube3x3::Cube3x3;
