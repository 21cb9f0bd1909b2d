//! State kept by the difficulty skills between objects.
pub mod aim;
pub mod reading;
pub mod strain;
