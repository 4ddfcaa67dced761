//! The data of the virtual machine: values and the heap of arrays.

pub mod array;
pub mod value;

pub use self::array::Array;
pub use self::value::{Data, Type, Value};
