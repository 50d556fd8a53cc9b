//! What the operations are for: laws that relate what goes into them to what
//! comes out.
pub mod drawing;
pub mod files;
pub mod formulas;
pub mod history;
pub mod interaction;
pub mod labels;
pub mod meshes;
pub mod modelling;
pub mod outlines;
pub mod panels;
pub mod picking;
pub(crate) mod reals;
pub mod sketching;
pub mod solving;
pub mod viewing;
