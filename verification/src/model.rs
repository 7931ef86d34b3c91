//! The subsystem as a transition system over mathematical values.
//!
//! Every executable operation of the subsystem is specified as one of the
//! functions below applied to the view of the subsystem.

use vstd::prelude::*;
use crate::expression::{EntityId, Expr};
use crate::matrix::Matrix;
use crate::protocol::{Awaiting, CoerceError, EventView, Outcome, PropRef, RequestView, ResolveError};

verus! {

/// The tag of the composition node.
pub open spec fn mul_tag() -> Seq<char> {
    "mul"@
}

/// The key of the property that the subsystem resolves.
pub open spec fn transform_key() -> Seq<char> {
    "transform"@
}

/// The entities whose `transform` property occurs in `refs`, in order.
pub open spec fn transform_entities(refs: Seq<PropRef>) -> Seq<EntityId>
    decreases refs.len(),
{
    if refs.len() == 0 {
        Seq::empty()
    } else {
        let rest = transform_entities(refs.drop_last());
        if refs.last().property_key@ == transform_key() {
            rest.push(refs.last().entity_id)
        } else {
            rest
        }
    }
}

/// Work that waits for the value of a sub-expression.
pub enum FrameView<L> {
    /// The transform of `entity` is being resolved: its expression is being
    /// evaluated, or its value is being written back.
    Resolving { entity: EntityId },
    /// A `mul` node found in a property of `owner` is being folded: `product`
    /// is the product of the items evaluated so far, `pending` holds the items
    /// that follow the one being evaluated.
    Composing { owner: EntityId, product: Matrix, pending: Seq<Expr<L>> },
}

impl<L> FrameView<L> {
    /// The entity in whose property the frame's expression was found.
    pub open spec fn owner(self) -> EntityId {
        match self {
            FrameView::Resolving { entity } => entity,
            FrameView::Composing { owner, .. } => owner,
        }
    }
}

/// The state of the subsystem.
pub struct State<L> {
    /// The resolved transform of each entity that has one.
    pub cache: Map<EntityId, Matrix>,
    /// The work in progress, outermost first.
    pub stack: Seq<FrameView<L>>,
    /// The answer that the subsystem is waiting for.
    pub awaiting: Awaiting,
    /// The entities still to be resolved once the stack is empty.
    pub queue: Seq<EntityId>,
    /// How the resolutions that were asked for have ended so far.
    pub outcomes: Seq<Outcome>,
}

impl<L> State<L> {
    /// The state of a new subsystem.
    pub open spec fn initial() -> State<L> {
        State {
            cache: Map::empty(),
            stack: Seq::empty(),
            awaiting: Awaiting::Nothing,
            queue: Seq::empty(),
            outcomes: Seq::empty(),
        }
    }

    /// The state with `awaiting` for the answer that it waits for.
    pub open spec fn expecting(self, awaiting: Awaiting) -> State<L> {
        State { awaiting, ..self }
    }

    /// The state with `frame` on top of the stack.
    pub open spec fn pushing(self, frame: FrameView<L>) -> State<L> {
        State { stack: self.stack.push(frame), ..self }
    }

    /// The state without the frame on top of the stack.
    pub open spec fn popping(self) -> State<L> {
        State { stack: self.stack.drop_last(), ..self }
    }

    /// The state with `cache` for its cache.
    pub open spec fn remembering(self, cache: Map<EntityId, Matrix>) -> State<L> {
        State { cache, ..self }
    }

    /// No request is outstanding.
    pub open spec fn idle(self) -> bool {
        self.awaiting is Nothing
    }

    /// The stack is in order: the outermost frame resolves an entity, no
    /// entity is resolved twice at once, none of them has a cached
    /// transform, and every `mul` node belongs to the entity of the frame
    /// below it.
    pub open spec fn stacked(self) -> bool {
        &&& self.stack.len() > 0 ==> self.stack[0] is Resolving
        &&& forall|i: int|
            0 <= i < self.stack.len() && (#[trigger] self.stack[i]) is Resolving
                ==> !self.cache.contains_key(self.stack[i]->entity)
        &&& forall|i: int, j: int|
            0 <= i < j < self.stack.len() && (#[trigger] self.stack[i]) is Resolving && (
            #[trigger] self.stack[j]) is Resolving ==> self.stack[i]->entity
                != self.stack[j]->entity
        &&& forall|i: int|
            0 < i < self.stack.len() && (#[trigger] self.stack[i]) is Composing
                ==> self.stack[i]->owner == self.stack[i - 1].owner()
    }

    /// The outstanding request is the one that the innermost frame needs.
    pub open spec fn expected(self) -> bool {
        match self.awaiting {
            Awaiting::Nothing => self.stack.len() == 0,
            Awaiting::Property { entity } => self.stack.len() > 0 && self.stack.last() == (
            FrameView::<L>::Resolving { entity }),
            Awaiting::Target { owner } => self.stack.len() > 0 && self.stack.last().owner()
                == owner,
            Awaiting::Coerced { owner } => self.stack.len() > 0 && self.stack.last().owner()
                == owner,
            Awaiting::Product { left, right } => self.stack.len() > 0
                && self.stack.last() is Composing && self.stack.last()->product == left,
            Awaiting::Written { entity, value } => self.stack.len() > 0 && self.stack.last() == (
            FrameView::<L>::Resolving { entity }),
        }
    }

    /// The invariant of the subsystem.
    pub open spec fn wf(self) -> bool {
        &&& self.stacked()
        &&& self.expected()
        &&& self.idle() ==> self.queue.len() == 0 && self.outcomes.len() == 0
    }

    /// The transform of `entity` is being resolved.
    pub open spec fn resolving(self, entity: EntityId) -> bool {
        exists|i: int|
            0 <= i < self.stack.len() && self.stack[i] == (FrameView::<L>::Resolving { entity })
    }

    /// The entities whose transform is being resolved.
    pub open spec fn visiting(self) -> Set<EntityId> {
        Set::new(|entity: EntityId| self.resolving(entity))
    }

    /// Takes up the queued entities until one needs the host: an entity with
    /// a cached transform ends at once with that transform.
    pub open spec fn advance(self) -> (State<L>, RequestView<L>)
        decreases self.queue.len(),
    {
        if self.queue.len() == 0 {
            (
                State { awaiting: Awaiting::Nothing, outcomes: Seq::empty(), ..self },
                RequestView::Done { outcomes: self.outcomes },
            )
        } else {
            let entity = self.queue[0];
            let rest = State { queue: self.queue.drop_first(), ..self };
            if self.cache.contains_key(entity) {
                State {
                    outcomes: self.outcomes.push(
                        Outcome { entity, result: Ok(self.cache[entity]) },
                    ),
                    ..rest
                }.advance()
            } else {
                (
                    State {
                        stack: seq![FrameView::Resolving { entity }],
                        awaiting: Awaiting::Property { entity },
                        ..rest
                    },
                    RequestView::ReadTransform { entity },
                )
            }
        }
    }

    /// Gives up the resolution in progress with `error` and goes on with the
    /// queue. The cache stays as it is.
    pub open spec fn fail(self, error: ResolveError) -> (State<L>, RequestView<L>) {
        let outcomes = if self.stack.len() > 0 && self.stack[0] is Resolving {
            self.outcomes.push(Outcome { entity: self.stack[0]->entity, result: Err(error) })
        } else {
            self.outcomes
        };
        State { stack: Seq::empty(), outcomes, ..self }.advance()
    }

    /// Hands `value` to the innermost frame: a `mul` node multiplies its
    /// product by it, an entity writes it back.
    pub open spec fn deliver(self, value: Matrix) -> (State<L>, RequestView<L>) {
        if self.stack.len() == 0 {
            self.fail(ResolveError::UnexpectedEvent)
        } else {
            match self.stack.last() {
                FrameView::Resolving { entity } => (
                    State { awaiting: Awaiting::Written { entity, value }, ..self },
                    RequestView::WriteBack { entity, value },
                ),
                FrameView::Composing { owner, product, pending } => (
                    State { awaiting: Awaiting::Product { left: product, right: value }, ..self },
                    RequestView::Multiply { left: product, right: value },
                ),
            }
        }
    }

    /// Starts the evaluation of `expression`, found in a property of `owner`.
    pub open spec fn start(self, owner: EntityId, expression: Expr<L>) -> (State<L>, RequestView<L>)
        decreases expression,
    {
        match expression {
            Expr::Composite { tag, items: Some(items), source } if tag == mul_tag() => {
                if items.len() == 0 {
                    self.deliver(Matrix::spec_identity())
                } else {
                    State {
                        stack: self.stack.push(
                            FrameView::Composing {
                                owner,
                                product: Matrix::spec_identity(),
                                pending: items.drop_first(),
                            },
                        ),
                        ..self
                    }.start(owner, items[0])
                }
            },
            Expr::Composite { tag, items: None, source } if tag == mul_tag() => self.fail(
                ResolveError::TypeCoercion,
            ),
            Expr::Reference { key, source } if key == transform_key() => (
                State { awaiting: Awaiting::Target { owner }, ..self },
                RequestView::Locate { owner, reference: source },
            ),
            Expr::Composite { source, .. } | Expr::Reference { source, .. } | Expr::Value {
                source,
            } => (
                State { awaiting: Awaiting::Coerced { owner }, ..self },
                RequestView::Coerce { owner, expression: source },
            ),
        }
    }

    /// Turns to the transform of `entity`, which a reference named: a cached
    /// transform is used as it is, an entity that is already being resolved
    /// is a cycle, and any other entity is resolved now.
    pub open spec fn enter(self, entity: EntityId) -> (State<L>, RequestView<L>) {
        if self.cache.contains_key(entity) {
            self.deliver(self.cache[entity])
        } else if self.resolving(entity) {
            self.fail(ResolveError::Cycle)
        } else {
            (
                State {
                    stack: self.stack.push(FrameView::Resolving { entity }),
                    awaiting: Awaiting::Property { entity },
                    ..self
                },
                RequestView::ReadTransform { entity },
            )
        }
    }

    /// Takes `product` as the new product of the innermost `mul` node and goes
    /// on with the node's next item; after the last item the product is the
    /// node's value.
    pub open spec fn compose(self, product: Matrix) -> (State<L>, RequestView<L>) {
        if self.stack.len() > 0 && self.stack.last() is Composing {
            let owner = self.stack.last()->owner;
            let pending = self.stack.last()->pending;
            if pending.len() == 0 {
                State { stack: self.stack.drop_last(), ..self }.deliver(product)
            } else {
                State {
                    stack: self.stack.drop_last().push(
                        FrameView::Composing { owner, product, pending: pending.drop_first() },
                    ),
                    ..self
                }.start(owner, pending[0])
            }
        } else {
            self.fail(ResolveError::UnexpectedEvent)
        }
    }

    /// Records `value`, which was written back, as the transform of `entity`,
    /// and hands it on.
    pub open spec fn settle(self, entity: EntityId, value: Matrix) -> (State<L>, RequestView<L>) {
        if self.stack.len() == 0 {
            self.fail(ResolveError::UnexpectedEvent)
        } else {
            let settled = State {
                cache: self.cache.insert(entity, value),
                stack: self.stack.drop_last(),
                ..self
            };
            if settled.stack.len() == 0 {
                State {
                    outcomes: settled.outcomes.push(Outcome { entity, result: Ok(value) }),
                    ..settled
                }.advance()
            } else {
                settled.deliver(value)
            }
        }
    }

    /// The subsystem's reaction to the host's answer.
    pub open spec fn resume(self, event: EventView<L>) -> (State<L>, RequestView<L>) {
        match (self.awaiting, event) {
            (Awaiting::Nothing, _) => (self, RequestView::Done { outcomes: Seq::empty() }),
            (Awaiting::Property { entity }, EventView::Property(Some(expression))) => self.start(
                entity,
                expression,
            ),
            (Awaiting::Property { .. }, EventView::Property(None)) => self.fail(
                ResolveError::PropertyNotFound,
            ),
            (Awaiting::Target { .. }, EventView::Target(Some(entity))) => self.enter(entity),
            (Awaiting::Target { .. }, EventView::Target(None)) => self.fail(
                ResolveError::ReferenceResolution,
            ),
            (Awaiting::Coerced { .. }, EventView::Coerced(Ok(value))) => self.deliver(value),
            (Awaiting::Coerced { .. }, EventView::Coerced(Err(CoerceError::Dependency))) => self.fail(
                ResolveError::ReferenceResolution,
            ),
            (
                Awaiting::Coerced { .. },
                EventView::Coerced(Err(CoerceError::TypeMismatch)),
            ) => self.fail(ResolveError::TypeCoercion),
            (Awaiting::Product { .. }, EventView::Product(product)) => self.compose(product),
            (Awaiting::Written { entity, value }, EventView::Written(true)) => self.settle(
                entity,
                value,
            ),
            (Awaiting::Written { .. }, EventView::Written(false)) => self.fail(
                ResolveError::WriteBack,
            ),
            _ => self.fail(ResolveError::UnexpectedEvent),
        }
    }

    /// Resolves the transform of `entity`.
    pub open spec fn get_entity_transform(self, entity: EntityId) -> (State<L>, RequestView<L>) {
        State { queue: seq![entity], ..self }.advance()
    }

    /// Forgets the transform of every entity whose `transform` property
    /// occurs in `refs`, then resolves each of them again, in order.
    pub open spec fn on_property_value_change(self, refs: Seq<PropRef>) -> (
        State<L>,
        RequestView<L>,
    ) {
        let entities = transform_entities(refs);
        State {
            cache: self.cache.remove_keys(entities.to_set()),
            queue: entities,
            ..self
        }.advance()
    }
}

} // verus!
