pub mod apm;
pub mod mixer;
