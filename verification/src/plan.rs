//! The generation plan: entities and their field templates.
//!
//! A plan arrives from an outside collaborator already shaped; the
//! engine only reads it.

use vstd::prelude::*;
use crate::generator::FieldTemplate;

verus! {

/// One named generation unit, mapped to exactly one target table.
#[derive(Debug, Clone)]
pub struct EntityTemplate {
    pub entity_name: String,
    pub target_table: String,
    pub fields: Vec<FieldTemplate>,
}

/// The full plan driving one run.  The theme is informational; pool
/// contents arrive separately, already materialized.
#[derive(Debug, Clone)]
pub struct ArchitecturalPlan {
    pub theme: String,
    pub entity_templates: Vec<EntityTemplate>,
}

} // verus!
