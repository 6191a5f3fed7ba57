//! Visualization model: a tree of elements joined by connectors.

use vstd::prelude::*;

verus! {

/// Error returned when a handle does not refer to a live visualization entity.
#[derive(Clone, Copy, PartialEq, Eq, Debug, Default, Structural)]
pub struct InvalidHandle;

/// Error returned when an element cannot be placed under a parent.
#[derive(Clone, Copy, PartialEq, Eq, Debug, Structural)]
pub enum ParentAssignmentError {
    /// A handle did not refer to a live entity.
    InvalidHandle(InvalidHandle),
    /// The operation was rejected because it would create a cycle.
    StructureViolation,
}

impl From<InvalidHandle> for ParentAssignmentError {
    fn from(value: InvalidHandle) -> (r: Self) {
        ParentAssignmentError::InvalidHandle(value)
    }
}

impl vstd::std_specs::convert::FromSpecImpl<InvalidHandle> for ParentAssignmentError {
    open spec fn obeys_from_spec() -> bool {
        true
    }

    open spec fn from_spec(v: InvalidHandle) -> Self {
        ParentAssignmentError::InvalidHandle(v)
    }
}

impl InvalidHandle {
    /// Text that describes the error.
    pub fn message(&self) -> (r: String)
        ensures
            r@ == "invalid visualization entity handle"@,
    {
        String::from_str("invalid visualization entity handle")
    }
}

impl ParentAssignmentError {
    /// Text that describes the error.
    pub fn message(&self) -> (r: String)
        ensures
            self is InvalidHandle ==> r@ == "invalid visualization entity handle"@,
            self is StructureViolation ==> r@
                == "visualization tree operation was rejected because it would create a cycle"@,
    {
        match self {
            ParentAssignmentError::InvalidHandle(h) => h.message(),
            ParentAssignmentError::StructureViolation => String::from_str(
                "visualization tree operation was rejected because it would create a cycle",
            ),
        }
    }
}

/// Handle to a visualization entity.
pub trait VisHandle: Clone {

}

impl<T: Clone> VisHandle for T {

}

/// Entity that carries named string attributes.
pub trait AttributeMap {
    /// Reads an attribute, if it is set.
    fn get_attribute(&self, name: &str) -> Option<&str>;

    /// Sets an attribute, or removes it when `value` is `None`.
    fn set_attribute(&mut self, name: &str, value: Option<&str>);
}

/// Element of a visualization tree.
pub trait VisElement: AttributeMap {
    /// Handle type that refers to elements.
    type Handle: VisHandle;

    /// Places the element under a parent, or detaches it.
    fn insert_into(&mut self, parent: Option<&Self::Handle>) -> Result<(), ParentAssignmentError>;
}

/// End of a connector.
pub trait VisPin: AttributeMap {
    /// Handle type that refers to elements.
    type Handle: VisHandle;

    /// Attaches the pin to an element, or detaches it.
    fn attach_to(&mut self, target: Option<&Self::Handle>) -> Result<(), InvalidHandle>;
}

/// Connector between two elements, with a pin at each end.
pub trait VisConnector: AttributeMap {
    /// Handle type that refers to elements.
    type Handle: VisHandle;

    /// Reference to one of the connector's pins.
    type PinRef<'a>: VisPin<Handle = Self::Handle> + 'a where Self: 'a;

    /// The pin at the start of the connector.
    fn start_mut(&mut self) -> Self::PinRef<'_>;

    /// The pin at the end of the connector.
    fn end_mut(&mut self) -> Self::PinRef<'_>;
}

/// Container of a visualization tree and its connectors.
pub trait VisTree {
    /// Handle type that refers to elements.
    type ElementHandle: VisHandle;

    /// Handle type that refers to connectors.
    type ConnectorHandle: VisHandle;

    /// Reference to an element.
    type ElementRef<'a>: VisElement<Handle = Self::ElementHandle> + 'a where Self: 'a;

    /// Reference to a connector.
    type ConnectorRef<'a>: VisConnector<Handle = Self::ElementHandle> + 'a where Self: 'a;

    /// Sets the root element, or removes it.
    fn set_root(&mut self, handle: Option<&Self::ElementHandle>) -> Result<(), InvalidHandle>;

    /// Creates a new element with a tag name.
    fn add_element(&mut self, tag_name: &str) -> Self::ElementHandle;

    /// Creates a new connector.
    fn add_connector(&mut self) -> Self::ConnectorHandle;

    /// Accesses an element by its handle.
    fn get_element(&mut self, handle: &Self::ElementHandle) -> Result<Self::ElementRef<'_>, InvalidHandle>;

    /// Accesses a connector by its handle.
    fn get_connector(&mut self, handle: &Self::ConnectorHandle) -> Result<Self::ConnectorRef<'_>, InvalidHandle>;
}

} // verus!
