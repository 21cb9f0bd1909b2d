//! Neighbour selections of the difficulty evaluators.
pub mod agility;
pub mod aim;
pub mod flow_aim;
pub mod reading;
pub mod snap_aim;

pub use agility::AgilityEvaluator;
pub use aim::AimEvaluator;
pub use flow_aim::FlowAimEvaluator;
pub use snap_aim::SnapAimEvaluator;
