pub mod grpc;
pub mod model;
pub mod sat;
pub mod solver;
pub mod validator;
