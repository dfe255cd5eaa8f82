pub mod camera;
pub mod graphics;
