use vstd::prelude::*;

verus! {

/// Every way in which an operation on the model can fail.
#[derive(Clone, Copy, Debug, PartialEq, Eq, Structural)]
pub enum AutosarDataError {
    /// The schema does not allow this element here, or its cardinality is used up.
    InvalidStructure,
    /// Another identifiable element already has the resulting path.
    DuplicateItemName,
    /// A position lies outside the content of the element.
    InvalidPosition,
    /// A value does not have the kind that the schema declares.
    TypeMismatch,
    /// A string could not be read as the kind that the schema declares.
    ParseError,
    /// The element has no item name, or a name was given to a type that takes none.
    NotIdentifiable,
    /// An identifiable element must be created with an item name.
    ItemNameRequired,
    /// The element is not reachable from the model's root.
    PathResolutionFailed,
    /// A reference is unset, dangling, or points at a type it may not point at.
    InvalidReference,
    /// An element would become its own ancestor.
    CycleDetected,
    /// The element was removed, or is the root, or is not a child of the element.
    DetachedElement,
    /// The file does not belong to this model.
    InvalidFile,
}

} // verus!
