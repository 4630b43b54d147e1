pub mod arena;
pub mod gc;
pub mod heap;
pub mod laws;
pub mod machine;
pub mod model;
pub mod print;
pub mod stdlib;
pub mod value;
