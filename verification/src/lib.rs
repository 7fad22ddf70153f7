//! Entity-relationship diagrams for infrahub GraphQL schemas.

pub mod error;
pub mod order;
pub mod parse;
pub mod sdl;
pub mod text;
pub mod dedup;
pub mod render;
pub mod dot;
pub mod mermaid;
pub mod plantuml;
pub mod d2;
pub mod filter;
pub mod json;
