//! Skill registries and bundled skills: searching, merging and deduplicating
//! skill catalogs, planning the provisioning of the bundled skills, and the
//! decisions of the desktop shell.

pub mod text;
pub mod skill;
pub mod category;
pub mod registry;
pub mod bundled;
pub mod catalog;
pub mod desktop;
