pub mod resource_status;
pub mod safety;
