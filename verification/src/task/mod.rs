pub mod scheduling;
