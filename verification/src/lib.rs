pub mod arena;
pub mod bvh;
pub mod color;
pub mod geom;
pub mod mesh;
pub mod reader;
pub mod render;
pub mod skybox;
pub mod tokenize;
