pub mod assembly;
pub mod configure;
pub mod functions;
