//! What the operations of the library are for, stated over what goes in and what
//! comes out.

pub mod annotation;
pub mod browsing;
pub mod clusters;
pub mod commanding;
pub mod keeping;
pub mod lists;
pub mod manifests;
pub mod migration;
pub mod noticing;
pub mod precheck;
pub mod presets;
pub mod records;
pub mod restoration;
pub mod scanning;
pub mod settings;
pub mod system;
pub mod telling;
pub mod texts;
pub mod totals;
pub mod unlinking;
pub mod volume;
pub mod walking;
