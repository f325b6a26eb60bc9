pub mod bounds;
pub mod lang;
pub mod model;
pub mod state;
