//! Every transition keeps the subsystem's invariant.

use vstd::prelude::*;
use crate::expression::{EntityId, Expr};
use crate::matrix::Matrix;
use crate::model::{mul_tag, transform_entities, FrameView, State};
use crate::protocol::{Awaiting, CoerceError, EventView, Outcome, PropRef, ResolveError};

verus! {

/// Taking up the queue with an empty stack ends in a state that satisfies
/// the invariant.
pub proof fn lemma_advance_wf<L>(s: State<L>)
    requires
        s.stack.len() == 0,
    ensures
        s.advance().0.wf(),
    decreases s.queue.len(),
{
    if s.queue.len() > 0 {
        let entity = s.queue[0];
        if s.cache.contains_key(entity) {
            lemma_advance_wf(
                State {
                    queue: s.queue.drop_first(),
                    outcomes: s.outcomes.push(
                        Outcome { entity, result: Ok(s.cache[entity]) },
                    ),
                    ..s
                },
            );
        }
    }
}

/// Giving up ends in a state that satisfies the invariant.
pub proof fn lemma_fail_wf<L>(s: State<L>, error: ResolveError)
    ensures
        s.fail(error).0.wf(),
{
    let outcomes = if s.stack.len() > 0 && s.stack[0] is Resolving {
        s.outcomes.push(Outcome { entity: s.stack[0]->entity, result: Err(error) })
    } else {
        s.outcomes
    };
    lemma_advance_wf(State { stack: Seq::empty(), outcomes, ..s });
}

/// Handing a value to an orderly stack ends in a state that satisfies the
/// invariant.
pub proof fn lemma_deliver_wf<L>(s: State<L>, value: Matrix)
    requires
        s.stacked(),
    ensures
        s.deliver(value).0.wf(),
{
    if s.stack.len() == 0 {
        lemma_fail_wf(s, ResolveError::UnexpectedEvent);
    }
}

/// Starting an expression of the innermost frame's entity ends in a state
/// that satisfies the invariant.
pub proof fn lemma_start_wf<L>(s: State<L>, owner: EntityId, expression: Expr<L>)
    requires
        s.stacked(),
        s.stack.len() > 0,
        s.stack.last().owner() == owner,
    ensures
        s.start(owner, expression).0.wf(),
    decreases expression,
{
    match expression {
        Expr::Composite { tag, items: Some(items), source } if tag == mul_tag() => {
            if items.len() == 0 {
                lemma_deliver_wf(s, Matrix::spec_identity());
            } else {
                let next = State {
                    stack: s.stack.push(
                        FrameView::Composing {
                            owner,
                            product: Matrix::spec_identity(),
                            pending: items.drop_first(),
                        },
                    ),
                    ..s
                };
                assert(next.stacked()) by {
                    assert forall|i: int| 0 <= i < s.stack.len() implies next.stack[i]
                        == s.stack[i] by {}
                }
                lemma_start_wf(next, owner, items[0]);
            }
        },
        Expr::Composite { tag, items: None, source } if tag == mul_tag() => {
            lemma_fail_wf(s, ResolveError::TypeCoercion);
        },
        _ => {},
    }
}

/// Turning to a referenced entity ends in a state that satisfies the
/// invariant.
pub proof fn lemma_enter_wf<L>(s: State<L>, entity: EntityId)
    requires
        s.stacked(),
        s.stack.len() > 0,
    ensures
        s.enter(entity).0.wf(),
{
    if s.cache.contains_key(entity) {
        lemma_deliver_wf(s, s.cache[entity]);
    } else if s.resolving(entity) {
        lemma_fail_wf(s, ResolveError::Cycle);
    } else {
        let next = s.enter(entity).0;
        assert forall|i: int| 0 <= i < s.stack.len() implies next.stack[i] == s.stack[i] by {}
        assert forall|i: int| 0 <= i < s.stack.len() && (#[trigger] s.stack[i]) is Resolving
            implies s.stack[i]->entity != entity by {
            if s.stack[i]->entity == entity {
                assert(s.stack[i] == (FrameView::<L>::Resolving { entity }));
            }
        }
    }
}

/// Taking a product ends in a state that satisfies the invariant.
pub proof fn lemma_compose_wf<L>(s: State<L>, product: Matrix)
    requires
        s.stacked(),
    ensures
        s.compose(product).0.wf(),
{
    if s.stack.len() > 0 && s.stack.last() is Composing {
        let owner = s.stack.last()->owner;
        let pending = s.stack.last()->pending;
        let below = State { stack: s.stack.drop_last(), ..s };
        assert(below.stacked()) by {
            assert forall|i: int| 0 <= i < below.stack.len() implies below.stack[i]
                == s.stack[i] by {}
        }
        if pending.len() == 0 {
            lemma_deliver_wf(below, product);
        } else {
            let next = State {
                stack: below.stack.push(
                    FrameView::Composing { owner, product, pending: pending.drop_first() },
                ),
                ..s
            };
            assert(next.stacked()) by {
                assert forall|i: int| 0 <= i < below.stack.len() implies next.stack[i]
                    == s.stack[i] by {}
                assert(s.stack[s.stack.len() - 1] is Composing);
            }
            lemma_start_wf(next, owner, pending[0]);
        }
    } else {
        lemma_fail_wf(s, ResolveError::UnexpectedEvent);
    }
}

/// Recording a written transform ends in a state that satisfies the
/// invariant.
pub proof fn lemma_settle_wf<L>(s: State<L>, entity: EntityId, value: Matrix)
    requires
        s.stacked(),
        s.stack.len() > 0 ==> s.stack.last() == (FrameView::<L>::Resolving { entity }),
    ensures
        s.settle(entity, value).0.wf(),
{
    if s.stack.len() == 0 {
        lemma_fail_wf(s, ResolveError::UnexpectedEvent);
    } else {
        let settled = State {
            cache: s.cache.insert(entity, value),
            stack: s.stack.drop_last(),
            ..s
        };
        assert forall|i: int| 0 <= i < settled.stack.len() implies settled.stack[i]
            == s.stack[i] by {}
        if settled.stack.len() == 0 {
            lemma_advance_wf(
                State {
                    outcomes: settled.outcomes.push(
                        Outcome { entity, result: Ok(value) },
                    ),
                    ..settled
                },
            );
        } else {
            assert(settled.stacked()) by {
                assert(s.stack[s.stack.len() - 1] is Resolving);
            }
            lemma_deliver_wf(settled, value);
        }
    }
}

/// Every answer of the host leaves the invariant in place.
pub proof fn lemma_resume_wf<L>(s: State<L>, event: EventView<L>)
    requires
        s.wf(),
    ensures
        s.resume(event).0.wf(),
{
    lemma_fail_wf(s, ResolveError::UnexpectedEvent);
    match (s.awaiting, event) {
        (Awaiting::Nothing, _) => {},
        (Awaiting::Property { entity }, EventView::Property(Some(expression))) => {
            lemma_start_wf(s, entity, expression);
        },
        (Awaiting::Property { .. }, EventView::Property(None)) => {
            lemma_fail_wf(s, ResolveError::PropertyNotFound);
        },
        (Awaiting::Target { .. }, EventView::Target(Some(entity))) => {
            lemma_enter_wf(s, entity);
        },
        (Awaiting::Target { .. }, EventView::Target(None)) => {
            lemma_fail_wf(s, ResolveError::ReferenceResolution);
        },
        (Awaiting::Coerced { .. }, EventView::Coerced(Ok(value))) => {
            lemma_deliver_wf(s, value);
        },
        (Awaiting::Coerced { .. }, EventView::Coerced(Err(CoerceError::Dependency))) => {
            lemma_fail_wf(s, ResolveError::ReferenceResolution);
        },
        (Awaiting::Coerced { .. }, EventView::Coerced(Err(CoerceError::TypeMismatch))) => {
            lemma_fail_wf(s, ResolveError::TypeCoercion);
        },
        (Awaiting::Product { .. }, EventView::Product(product)) => {
            lemma_compose_wf(s, product);
        },
        (Awaiting::Written { entity, value }, EventView::Written(true)) => {
            lemma_settle_wf(s, entity, value);
        },
        (Awaiting::Written { .. }, EventView::Written(false)) => {
            lemma_fail_wf(s, ResolveError::WriteBack);
        },
        _ => {},
    }
}

/// Asking for an entity's transform leaves the invariant in place.
pub proof fn lemma_get_entity_transform_wf<L>(s: State<L>, entity: EntityId)
    requires
        s.wf(),
        s.idle(),
    ensures
        s.get_entity_transform(entity).0.wf(),
{
    lemma_advance_wf(State { queue: seq![entity], ..s });
}

/// A change notification leaves the invariant in place.
pub proof fn lemma_on_property_value_change_wf<L>(s: State<L>, refs: Seq<PropRef>)
    requires
        s.wf(),
        s.idle(),
    ensures
        s.on_property_value_change(refs).0.wf(),
{
    let entities = transform_entities(refs);
    lemma_advance_wf(
        State { cache: s.cache.remove_keys(entities.to_set()), queue: entities, ..s },
    );
}

} // verus!
