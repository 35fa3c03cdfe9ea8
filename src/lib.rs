pub mod model_checker;
pub mod die_hard;
pub mod money_transfer;
