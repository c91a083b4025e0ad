pub mod types;
pub mod instance_manager;
pub mod error;
pub mod validation;
pub mod project_loader;
pub mod time;
