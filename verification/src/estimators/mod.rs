pub mod cost;
pub mod decelerating;
pub mod fixed_speed;
