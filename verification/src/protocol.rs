//! What the subsystem asks of its host, and what the host answers.

use vstd::prelude::*;
use crate::expression::{EntityId, Expr, Expression};
use crate::matrix::Matrix;

verus! {

/// Why the resolution of an entity's transform failed.
#[derive(Clone, Copy, Debug, PartialEq, Eq, Structural)]
pub enum ResolveError {
    /// The entity has no readable `transform` property.
    PropertyNotFound,
    /// A reference could not be resolved to a concrete entity and property.
    ReferenceResolution,
    /// A value, or the payload of a `mul` node, could not be read as what it
    /// has to be.
    TypeCoercion,
    /// The resolved matrix could not be written back to the document.
    WriteBack,
    /// An entity's transform refers, directly or through other entities, to
    /// itself.
    Cycle,
    /// The host answered with an event that does not fit the request.
    UnexpectedEvent,
}

/// Why the host could not turn an expression into a matrix.
#[derive(Clone, Copy, Debug, PartialEq, Eq, Structural)]
pub enum CoerceError {
    /// A reference inside the expression could not be resolved.
    Dependency,
    /// The expression's value is not a matrix.
    TypeMismatch,
}

/// How the resolution of one entity ended.
#[derive(Clone, Copy, Debug, PartialEq, Eq)]
pub struct Outcome {
    pub entity: EntityId,
    pub result: Result<Matrix, ResolveError>,
}

/// The one thing the host has to do next.
#[derive(Debug, PartialEq, Eq)]
pub enum Request<L> {
    /// Read the `transform` property of `entity`; answer with
    /// [`Event::Property`].
    ReadTransform { entity: EntityId },
    /// Resolve `reference`, found in a property of `owner`, to the entity it
    /// names; answer with [`Event::Target`].
    Locate { owner: EntityId, reference: L },
    /// Resolve what `expression`, found in a property of `owner`, depends on
    /// and coerce it to a matrix; answer with [`Event::Coerced`].
    Coerce { owner: EntityId, expression: L },
    /// Multiply `left` by `right`; answer with [`Event::Product`].
    Multiply { left: Matrix, right: Matrix },
    /// Store `value` as the `transformed` property of `entity`; answer with
    /// [`Event::Written`].
    WriteBack { entity: EntityId, value: Matrix },
    /// Nothing is left to do. `outcomes` lists, in the order in which they
    /// were asked for, the entities whose resolution was requested and how
    /// each ended.
    Done { outcomes: Vec<Outcome> },
}

/// Mathematical form of a [`Request`].
pub enum RequestView<L> {
    ReadTransform { entity: EntityId },
    Locate { owner: EntityId, reference: L },
    Coerce { owner: EntityId, expression: L },
    Multiply { left: Matrix, right: Matrix },
    WriteBack { entity: EntityId, value: Matrix },
    Done { outcomes: Seq<Outcome> },
}

impl<L> View for Request<L> {
    type V = RequestView<L>;

    open spec fn view(&self) -> RequestView<L> {
        match self {
            Request::ReadTransform { entity } => RequestView::ReadTransform { entity: *entity },
            Request::Locate { owner, reference } => RequestView::Locate {
                owner: *owner,
                reference: *reference,
            },
            Request::Coerce { owner, expression } => RequestView::Coerce {
                owner: *owner,
                expression: *expression,
            },
            Request::Multiply { left, right } => RequestView::Multiply {
                left: *left,
                right: *right,
            },
            Request::WriteBack { entity, value } => RequestView::WriteBack {
                entity: *entity,
                value: *value,
            },
            Request::Done { outcomes } => RequestView::Done { outcomes: outcomes@ },
        }
    }
}

/// The host's answer to a [`Request`].
#[derive(Debug, PartialEq, Eq)]
pub enum Event<L> {
    /// The `transform` property that was read, or `None` if the entity has
    /// none that can be read.
    Property(Option<Expression<L>>),
    /// The entity that a reference names, or `None` if it names none.
    Target(Option<EntityId>),
    /// The matrix that an expression was coerced to.
    Coerced(Result<Matrix, CoerceError>),
    /// The product of two matrices.
    Product(Matrix),
    /// Whether the write succeeded.
    Written(bool),
}

/// Mathematical form of an [`Event`].
pub enum EventView<L> {
    Property(Option<Expr<L>>),
    Target(Option<EntityId>),
    Coerced(Result<Matrix, CoerceError>),
    Product(Matrix),
    Written(bool),
}

impl<L> View for Event<L> {
    type V = EventView<L>;

    open spec fn view(&self) -> EventView<L> {
        match self {
            Event::Property(Some(e)) => EventView::Property(Some(e@)),
            Event::Property(None) => EventView::Property(None),
            Event::Target(t) => EventView::Target(*t),
            Event::Coerced(r) => EventView::Coerced(*r),
            Event::Product(m) => EventView::Product(*m),
            Event::Written(ok) => EventView::Written(*ok),
        }
    }
}

/// The answer that the subsystem is waiting for.
#[derive(Clone, Copy, Debug, PartialEq, Eq, Structural)]
pub enum Awaiting {
    /// No request is outstanding.
    Nothing,
    /// The `transform` property of `entity`.
    Property { entity: EntityId },
    /// The target of a reference found in a property of `owner`.
    Target { owner: EntityId },
    /// The matrix of an expression found in a property of `owner`.
    Coerced { owner: EntityId },
    /// The product of `left` and `right`.
    Product { left: Matrix, right: Matrix },
    /// The confirmation that `value` was stored for `entity`.
    Written { entity: EntityId, value: Matrix },
}

/// A property of an entity, as named in a change notification.
#[derive(Debug, PartialEq, Eq)]
pub struct PropRef {
    pub entity_id: EntityId,
    pub property_key: String,
}

} // verus!
