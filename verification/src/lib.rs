//! Parametric CAD: sketches with constraints, and the history of features
//! that is built from them.
//!
//! Numbers are of a type that the caller chooses. The library builds formulas
//! over them ([`expr`]) and lets the caller evaluate and compare ([`arith`]);
//! contracts speak of the real numbers that the formulas stand for.
pub mod arith;
pub mod constraint;
pub mod dimension;
pub mod document;
pub mod drawing;
pub mod editor;
pub mod expr;
pub mod geometry;
pub mod ids;
pub mod input;
pub mod laws;
pub mod lowering;
pub mod measure;
pub mod mesh;
pub mod panels;
pub mod persist;
pub mod profiles;
pub mod query;
pub mod rebuild;
pub mod rings;
pub mod scene;
pub mod session;
pub mod sketch;
pub mod slots;
pub mod solver;
pub mod text;
pub mod union_find;
