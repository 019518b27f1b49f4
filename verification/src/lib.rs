pub mod shader_objects;
pub mod ignore;
pub mod names;
pub mod substitute;
