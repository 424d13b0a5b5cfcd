//! An in-memory, schema-typed element tree: elements, character data,
//! identifiable paths, references and file membership, with verified contracts.
//!
//! The model keeps its elements in an arena (`AutosarModel::elements`, the root at
//! index 0) and hands out `Element` handles. Parent links and file memberships are
//! indices, never ownership. Every operation keeps the model invariant
//! (`AutosarModel::wf`): links stay in range and ranked, content lists point back at
//! their live children without repeats, and no two named, reachable elements share a
//! path.
//!
//! - `schema`: the schema service, a table of element types.
//! - `paths`: the path and ancestry model over parent links.
//! - `model`: the model, its invariant, and the verified mutations.
//! - `element`: the operations on one element, through its handle.
//! - `laws`: properties that relate several operations.
mod chardata;
mod element;
mod error;
mod laws;
mod model;
mod paths;
mod schema;

pub use chardata::{CharacterData, CharacterDataKind, ContentType};
pub use error::AutosarDataError;
pub use schema::{find_sub_element, AttributeSpec, ElementType, Schema, SubElementSpec, TypeSpec};
pub use model::{find_attribute, contains_index, Attribute, ArxmlFile, AutosarModel, Element, ElementContent, ElementData};
pub use laws::{lemma_elements_mode_has_no_character_data, lemma_path_round_trip, lemma_reference_round_trip, lemma_removed_unreachable, lemma_sibling_names_unique};
