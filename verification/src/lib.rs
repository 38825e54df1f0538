//! A relational task system: values, relations and the driver that runs tasks on them.

pub mod bytes;
pub mod driver;
pub mod kernel;
pub mod protocol;
pub mod relation_value;
pub mod table;
pub mod text;
pub mod tuple;
pub mod value;
pub mod value_codec;
pub mod value_laws;
