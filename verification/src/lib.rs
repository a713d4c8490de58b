//! A JSON serializer core that writes a tagged value tree straight into a
//! fixed-capacity buffer, with every function's behaviour stated as a
//! contract and proved.

pub mod buffer;
pub mod encoding;
pub mod escape;
pub mod fast_str;
pub mod grammar;
pub mod laws;
pub mod model;
pub mod text;
pub mod token;
pub mod unescape;
pub mod validity;
pub mod value;

pub use buffer::TachyonBuffer;
pub use fast_str::FastStr;
pub use model::BufferView;
pub use value::TachyonObject;
pub use value::TachyonPair;
pub use value::TachyonValue;
