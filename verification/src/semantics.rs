//! What resolution means, stated without the subsystem's stack.
//!
//! A host is modelled by its answers: a function from the document and a
//! request to the answer and the document afterwards. Resolution and
//! evaluation are then ordinary recursive functions that ask the host as
//! they go. The recursion is bounded by `fuel`, the number of nested entities
//! whose `transform` may be read; `None` means that the bound was reached.

use vstd::prelude::*;
use crate::expression::{EntityId, Expr};
use crate::matrix::Matrix;
use crate::model::{mul_tag, transform_key};
use crate::protocol::{CoerceError, EventView, Outcome, RequestView, ResolveError};

verus! {

/// The host: its answer to each request, and what the document is afterwards.
#[verifier::reject_recursive_types(H)]
#[verifier::reject_recursive_types(L)]
pub struct Host<H, L> {
    pub answer: spec_fn(H, RequestView<L>) -> (EventView<L>, H),
}

/// The document together with the transforms that are remembered.
pub struct World<H> {
    pub document: H,
    pub cache: Map<EntityId, Matrix>,
}

/// The world made of `document` and `cache`.
pub open spec fn bind<H>(document: H, cache: Map<EntityId, Matrix>) -> World<H> {
    World { document, cache }
}

impl<H, L> Host<H, L> {
    /// The host's answer to `request` and the world afterwards.
    pub open spec fn ask(self, world: World<H>, request: RequestView<L>) -> (
        EventView<L>,
        World<H>,
    ) {
        let (event, document) = (self.answer)(world.document, request);
        (event, World { document, ..world })
    }

    /// The matrix of `expression`, found in a property of `owner`, while the
    /// entities in `visiting` are being resolved.
    pub open spec fn evaluate(
        self,
        world: World<H>,
        visiting: Set<EntityId>,
        owner: EntityId,
        expression: Expr<L>,
        fuel: nat,
    ) -> Option<(World<H>, Result<Matrix, ResolveError>)>
        decreases fuel, 1nat, expression,
    {
        match expression {
            Expr::Composite { tag, items: Some(items), source } if tag == mul_tag() => self.fold(
                world,
                visiting,
                owner,
                Matrix::spec_identity(),
                items,
                fuel,
            ),
            Expr::Composite { tag, items: None, source } if tag == mul_tag() => Some(
                (world, Err(ResolveError::TypeCoercion)),
            ),
            Expr::Reference { key, source } if key == transform_key() => {
                let (event, located) = self.ask(
                    world,
                    RequestView::Locate { owner, reference: source },
                );
                match event {
                    EventView::Target(Some(entity)) => self.resolve(
                        located,
                        visiting,
                        entity,
                        fuel,
                    ),
                    EventView::Target(None) => Some(
                        (located, Err(ResolveError::ReferenceResolution)),
                    ),
                    _ => Some((located, Err(ResolveError::UnexpectedEvent))),
                }
            },
            Expr::Composite { source, .. } | Expr::Reference { source, .. } | Expr::Value {
                source,
            } => {
                let (event, coerced) = self.ask(
                    world,
                    RequestView::Coerce { owner, expression: source },
                );
                match event {
                    EventView::Coerced(Ok(value)) => Some((coerced, Ok(value))),
                    EventView::Coerced(Err(CoerceError::Dependency)) => Some(
                        (coerced, Err(ResolveError::ReferenceResolution)),
                    ),
                    EventView::Coerced(Err(CoerceError::TypeMismatch)) => Some(
                        (coerced, Err(ResolveError::TypeCoercion)),
                    ),
                    _ => Some((coerced, Err(ResolveError::UnexpectedEvent))),
                }
            },
        }
    }

    /// `product` multiplied from the right by the matrix of each of `items`,
    /// in order.
    pub open spec fn fold(
        self,
        world: World<H>,
        visiting: Set<EntityId>,
        owner: EntityId,
        product: Matrix,
        items: Seq<Expr<L>>,
        fuel: nat,
    ) -> Option<(World<H>, Result<Matrix, ResolveError>)>
        decreases fuel, 1nat, items,
    {
        if items.len() == 0 {
            Some((world, Ok(product)))
        } else {
            match self.evaluate(world, visiting, owner, items[0], fuel) {
                None => None,
                Some((evaluated, Err(error))) => Some((evaluated, Err(error))),
                Some((evaluated, Ok(value))) => {
                    let (event, multiplied) = self.ask(
                        evaluated,
                        RequestView::Multiply { left: product, right: value },
                    );
                    match event {
                        EventView::Product(next) => self.fold(
                            multiplied,
                            visiting,
                            owner,
                            next,
                            items.drop_first(),
                            fuel,
                        ),
                        _ => Some((multiplied, Err(ResolveError::UnexpectedEvent))),
                    }
                },
            }
        }
    }

    /// The transform of `entity`: the remembered one if there is one, else
    /// the matrix of the entity's `transform` property, which is then written
    /// back and remembered.
    pub open spec fn resolve(
        self,
        world: World<H>,
        visiting: Set<EntityId>,
        entity: EntityId,
        fuel: nat,
    ) -> Option<(World<H>, Result<Matrix, ResolveError>)>
        decreases fuel, 0nat, world,
    {
        if world.cache.contains_key(entity) {
            Some((world, Ok(world.cache[entity])))
        } else if visiting.contains(entity) {
            Some((world, Err(ResolveError::Cycle)))
        } else if fuel == 0 {
            None
        } else {
            let (event, read) = self.ask(world, RequestView::ReadTransform { entity });
            match event {
                EventView::Property(Some(expression)) => match self.evaluate(
                    read,
                    visiting.insert(entity),
                    entity,
                    expression,
                    (fuel - 1) as nat,
                ) {
                    None => None,
                    Some((evaluated, Err(error))) => Some((evaluated, Err(error))),
                    Some((evaluated, Ok(value))) => {
                        let (event, written) = self.ask(
                            evaluated,
                            RequestView::WriteBack { entity, value },
                        );
                        match event {
                            EventView::Written(true) => Some(
                                (
                                    World {
                                        cache: written.cache.insert(entity, value),
                                        ..written
                                    },
                                    Ok(value),
                                ),
                            ),
                            EventView::Written(false) => Some(
                                (written, Err(ResolveError::WriteBack)),
                            ),
                            _ => Some((written, Err(ResolveError::UnexpectedEvent))),
                        }
                    },
                },
                EventView::Property(None) => Some((read, Err(ResolveError::PropertyNotFound))),
                _ => Some((read, Err(ResolveError::UnexpectedEvent))),
            }
        }
    }

    /// The transforms of `entities`, resolved one after the other.
    pub open spec fn resolve_all(self, world: World<H>, entities: Seq<EntityId>, fuel: nat) -> Option<
        (World<H>, Seq<Outcome>),
    >
        decreases entities.len(),
    {
        if entities.len() == 0 {
            Some((world, Seq::empty()))
        } else {
            match self.resolve(world, Set::empty(), entities[0], fuel) {
                None => None,
                Some((resolved, result)) => match self.resolve_all(
                    resolved,
                    entities.drop_first(),
                    fuel,
                ) {
                    None => None,
                    Some((last, outcomes)) => Some(
                        (last, seq![Outcome { entity: entities[0], result }] + outcomes),
                    ),
                },
            }
        }
    }
}

} // verus!
