//! Adaptive brightness, dimming and colour temperature from ambient light and screen contents.

pub mod als;
pub mod brightness;
pub mod config;
pub mod control;
pub mod double;
pub mod double_laws;
pub mod frame;
pub mod gamma;
pub mod predictor;
pub mod text;
pub mod text_laws;
