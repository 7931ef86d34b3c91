//! What holds of every resolution, whatever the host answers.

use vstd::prelude::*;
use crate::expression::{EntityId, Expr};
use crate::matrix::Matrix;
use crate::model::{mul_tag, transform_entities, transform_key, State};
use crate::protocol::{EventView, Outcome, PropRef, RequestView, ResolveError};
use crate::refinement::{
    exchange, lemma_get_entity_transform, lemma_on_property_value_change, rest,
};
use crate::semantics::{bind, Host, World};

verus! {

/// From `before` to `after` nothing was forgotten or changed in the cache,
/// and none of the entities in `visiting` was added to it.
pub open spec fn grows<H>(before: World<H>, visiting: Set<EntityId>, after: World<H>) -> bool {
    &&& forall|entity: EntityId| #[trigger]
        before.cache.contains_key(entity) ==> after.cache.contains_key(entity)
            && after.cache[entity] == before.cache[entity]
    &&& forall|entity: EntityId|
        visiting.contains(entity) && #[trigger] after.cache.contains_key(entity)
            ==> before.cache.contains_key(entity)
}

/// What grows twice has grown.
pub proof fn lemma_grows_twice<H>(
    first: World<H>,
    visiting: Set<EntityId>,
    second: World<H>,
    third: World<H>,
    last: World<H>,
)
    requires
        grows(first, visiting, second),
        third.cache == second.cache,
        grows(third, visiting, last),
    ensures
        grows(first, visiting, last),
{
    assert forall|entity: EntityId| #[trigger]
        first.cache.contains_key(entity) implies last.cache.contains_key(entity)
        && last.cache[entity] == first.cache[entity] by {
        assert(second.cache.contains_key(entity));
        assert(third.cache.contains_key(entity));
    }
    assert forall|entity: EntityId|
        visiting.contains(entity) && #[trigger] last.cache.contains_key(
            entity,
        ) implies first.cache.contains_key(entity) by {
        assert(third.cache.contains_key(entity));
        assert(second.cache.contains_key(entity));
    }
}

/// Evaluation only adds to the cache, and nothing for an entity that is
/// being resolved.
pub proof fn lemma_evaluate_grows<H, L>(
    host: Host<H, L>,
    world: World<H>,
    visiting: Set<EntityId>,
    owner: EntityId,
    expression: Expr<L>,
    fuel: nat,
)
    requires
        host.evaluate(world, visiting, owner, expression, fuel).is_some(),
    ensures
        grows(world, visiting, host.evaluate(world, visiting, owner, expression, fuel).unwrap().0),
    decreases fuel, 1nat, expression,
{
    match expression {
        Expr::Composite { tag, items, source } => {
            if tag == mul_tag() && items.is_some() {
                lemma_fold_grows(
                    host,
                    world,
                    visiting,
                    owner,
                    Matrix::spec_identity(),
                    items.unwrap(),
                    fuel,
                );
            }
        },
        Expr::Reference { key, source } => {
            if key == transform_key() {
                let (event, located) = host.ask(
                    world,
                    RequestView::Locate { owner, reference: source },
                );
                match event {
                    EventView::Target(Some(entity)) => {
                        lemma_resolve_grows(host, located, visiting, entity, fuel);
                    },
                    _ => {},
                }
            }
        },
        Expr::Value { source } => {},
    }
}

/// Folding only adds to the cache, and nothing for an entity that is being
/// resolved.
pub proof fn lemma_fold_grows<H, L>(
    host: Host<H, L>,
    world: World<H>,
    visiting: Set<EntityId>,
    owner: EntityId,
    product: Matrix,
    items: Seq<Expr<L>>,
    fuel: nat,
)
    requires
        host.fold(world, visiting, owner, product, items, fuel).is_some(),
    ensures
        grows(world, visiting, host.fold(world, visiting, owner, product, items, fuel).unwrap().0),
    decreases fuel, 1nat, items,
{
    if items.len() > 0 {
        lemma_evaluate_grows(host, world, visiting, owner, items[0], fuel);
        let (evaluated, result) = host.evaluate(world, visiting, owner, items[0], fuel).unwrap();
        match result {
            Ok(value) => {
                let (event, multiplied) = host.ask(
                    evaluated,
                    RequestView::Multiply { left: product, right: value },
                );
                match event {
                    EventView::Product(next) => {
                        lemma_fold_grows(
                            host,
                            multiplied,
                            visiting,
                            owner,
                            next,
                            items.drop_first(),
                            fuel,
                        );
                        lemma_grows_twice(
                            world,
                            visiting,
                            evaluated,
                            multiplied,
                            host.fold(
                                multiplied,
                                visiting,
                                owner,
                                next,
                                items.drop_first(),
                                fuel,
                            ).unwrap().0,
                        );
                    },
                    _ => {},
                }
            },
            Err(_) => {},
        }
    }
}

/// Resolution only adds to the cache, and nothing for an entity that is
/// being resolved.
pub proof fn lemma_resolve_grows<H, L>(
    host: Host<H, L>,
    world: World<H>,
    visiting: Set<EntityId>,
    entity: EntityId,
    fuel: nat,
)
    requires
        host.resolve(world, visiting, entity, fuel).is_some(),
    ensures
        grows(world, visiting, host.resolve(world, visiting, entity, fuel).unwrap().0),
    decreases fuel, 0nat, world,
{
    if !world.cache.contains_key(entity) && !visiting.contains(entity) {
        let (event, read) = host.ask(world, RequestView::ReadTransform { entity });
        match event {
            EventView::Property(Some(expression)) => {
                lemma_evaluate_grows(
                    host,
                    read,
                    visiting.insert(entity),
                    entity,
                    expression,
                    (fuel - 1) as nat,
                );
                let evaluated = host.evaluate(
                    read,
                    visiting.insert(entity),
                    entity,
                    expression,
                    (fuel - 1) as nat,
                ).unwrap().0;
                let last = host.resolve(world, visiting, entity, fuel).unwrap().0;
                assert(!evaluated.cache.contains_key(entity)) by {
                    assert(visiting.insert(entity).contains(entity));
                }
                assert forall|other: EntityId| #[trigger]
                    world.cache.contains_key(other) implies last.cache.contains_key(other)
                    && last.cache[other] == world.cache[other] by {
                    assert(read.cache.contains_key(other));
                    assert(evaluated.cache.contains_key(other));
                }
                assert forall|other: EntityId|
                    visiting.contains(other) && #[trigger] last.cache.contains_key(
                        other,
                    ) implies world.cache.contains_key(other) by {
                    assert(visiting.insert(entity).contains(other));
                    assert(evaluated.cache.contains_key(other));
                    assert(read.cache.contains_key(other));
                }
            },
            _ => {},
        }
    }
}

/// A `mul` node without items is the identity matrix, and the host is not
/// asked for anything.
pub proof fn law_composition_identity<H, L>(
    host: Host<H, L>,
    world: World<H>,
    visiting: Set<EntityId>,
    owner: EntityId,
    source: L,
    fuel: nat,
)
    ensures
        host.evaluate(
            world,
            visiting,
            owner,
            Expr::Composite { tag: mul_tag(), items: Some(Seq::empty()), source },
            fuel,
        ) == Some((world, Ok::<Matrix, ResolveError>(Matrix::spec_identity()))),
{
    assert(host.fold(
        world,
        visiting,
        owner,
        Matrix::spec_identity(),
        Seq::<Expr<L>>::empty(),
        fuel,
    ) == Some((world, Ok::<Matrix, ResolveError>(Matrix::spec_identity()))));
}

/// A `mul` node over two items is the identity matrix multiplied by the
/// first item's matrix, and that product multiplied by the second item's
/// matrix: the item that comes first stands on the left.
pub proof fn law_composition_order<H, L>(
    host: Host<H, L>,
    world: World<H>,
    visiting: Set<EntityId>,
    owner: EntityId,
    source: L,
    first: Expr<L>,
    second: Expr<L>,
    fuel: nat,
    after_first: World<H>,
    left: Matrix,
    after_second: World<H>,
    right: Matrix,
)
    requires
        host.evaluate(world, visiting, owner, first, fuel) == Some(
            (after_first, Ok::<Matrix, ResolveError>(left)),
        ),
        host.ask(
            after_first,
            RequestView::Multiply { left: Matrix::spec_identity(), right: left },
        ).0 is Product,
        host.evaluate(
            host.ask(
                after_first,
                RequestView::Multiply { left: Matrix::spec_identity(), right: left },
            ).1,
            visiting,
            owner,
            second,
            fuel,
        ) == Some((after_second, Ok::<Matrix, ResolveError>(right))),
    ensures
        ({
            let once = host.ask(
                after_first,
                RequestView::Multiply { left: Matrix::spec_identity(), right: left },
            ).0->Product_0;
            let (event, last) = host.ask(
                after_second,
                RequestView::Multiply { left: once, right },
            );
            host.evaluate(
                world,
                visiting,
                owner,
                Expr::Composite { tag: mul_tag(), items: Some(seq![first, second]), source },
                fuel,
            ) == Some(
                (
                    last,
                    match event {
                        EventView::Product(twice) => Ok::<Matrix, ResolveError>(twice),
                        _ => Err(ResolveError::UnexpectedEvent),
                    },
                ),
            )
        }),
{
    let items = seq![first, second];
    let (answer, multiplied) = host.ask(
        after_first,
        RequestView::Multiply { left: Matrix::spec_identity(), right: left },
    );
    let once = answer->Product_0;
    let (event, last) = host.ask(after_second, RequestView::Multiply { left: once, right });
    assert(items.drop_first() =~= seq![second]);
    assert(seq![second].drop_first() =~= Seq::<Expr<L>>::empty());
    assert(items[0] == first);
    assert(seq![second][0] == second);
    if event is Product {
        assert(host.fold(last, visiting, owner, event->Product_0, Seq::empty(), fuel) == Some(
            (last, Ok::<Matrix, ResolveError>(event->Product_0)),
        ));
    }
    assert(host.fold(multiplied, visiting, owner, once, seq![second], fuel) == Some(
        (
            last,
            match event {
                EventView::Product(twice) => Ok::<Matrix, ResolveError>(twice),
                _ => Err(ResolveError::UnexpectedEvent),
            },
        ),
    ));
    assert(host.fold(world, visiting, owner, Matrix::spec_identity(), items, fuel) == Some(
        (
            last,
            match event {
                EventView::Product(twice) => Ok::<Matrix, ResolveError>(twice),
                _ => Err(ResolveError::UnexpectedEvent),
            },
        ),
    ));
}

/// A transform that was resolved is remembered.
pub proof fn law_resolved_is_remembered<H, L>(
    host: Host<H, L>,
    world: World<H>,
    visiting: Set<EntityId>,
    entity: EntityId,
    fuel: nat,
)
    requires
        host.resolve(world, visiting, entity, fuel).is_some(),
        host.resolve(world, visiting, entity, fuel).unwrap().1.is_ok(),
    ensures
        ({
            let (resolved, result) = host.resolve(world, visiting, entity, fuel).unwrap();
            resolved.cache.contains_key(entity) && resolved.cache[entity] == result.unwrap()
        }),
{
}

/// A remembered transform is served as it is: the host is not asked for
/// anything, so nothing is evaluated again.
pub proof fn law_remembered_is_served<H, L>(
    host: Host<H, L>,
    world: World<H>,
    visiting: Set<EntityId>,
    entity: EntityId,
    fuel: nat,
)
    requires
        world.cache.contains_key(entity),
    ensures
        host.resolve(world, visiting, entity, fuel) == Some(
            (world, Ok::<Matrix, ResolveError>(world.cache[entity])),
        ),
{
}

/// Memoization across entities: once the transform of an entity has been
/// resolved, be it through a reference in the transform of another entity,
/// whatever is evaluated afterwards leaves it remembered, and a later
/// resolution of that entity is served from the cache.
pub proof fn law_memoization<H, L>(
    host: Host<H, L>,
    world: World<H>,
    visiting: Set<EntityId>,
    entity: EntityId,
    fuel: nat,
    later_visiting: Set<EntityId>,
    later_owner: EntityId,
    later: Expr<L>,
    later_fuel: nat,
    last_visiting: Set<EntityId>,
    last_fuel: nat,
)
    requires
        host.resolve(world, visiting, entity, fuel).is_some(),
        host.resolve(world, visiting, entity, fuel).unwrap().1.is_ok(),
        host.evaluate(
            host.resolve(world, visiting, entity, fuel).unwrap().0,
            later_visiting,
            later_owner,
            later,
            later_fuel,
        ).is_some(),
    ensures
        ({
            let (resolved, result) = host.resolve(world, visiting, entity, fuel).unwrap();
            let last = host.evaluate(
                resolved,
                later_visiting,
                later_owner,
                later,
                later_fuel,
            ).unwrap().0;
            host.resolve(last, last_visiting, entity, last_fuel) == Some((last, result))
        }),
{
    let (resolved, result) = host.resolve(world, visiting, entity, fuel).unwrap();
    law_resolved_is_remembered(host, world, visiting, entity, fuel);
    lemma_evaluate_grows(host, resolved, later_visiting, later_owner, later, later_fuel);
    let last = host.evaluate(resolved, later_visiting, later_owner, later, later_fuel).unwrap().0;
    assert(resolved.cache.contains_key(entity));
    law_remembered_is_served(host, last, last_visiting, entity, last_fuel);
}

/// A failed resolution is not remembered: the entity has no transform in
/// the cache afterwards, so that the next resolution starts by reading the
/// entity's property again.
pub proof fn law_error_is_not_remembered<H, L>(
    host: Host<H, L>,
    world: World<H>,
    visiting: Set<EntityId>,
    entity: EntityId,
    fuel: nat,
    s: State<L>,
)
    requires
        host.resolve(world, visiting, entity, fuel).is_some(),
        host.resolve(world, visiting, entity, fuel).unwrap().1.is_err(),
        s.wf(),
        s.idle(),
        s.cache == host.resolve(world, visiting, entity, fuel).unwrap().0.cache,
    ensures
        !host.resolve(world, visiting, entity, fuel).unwrap().0.cache.contains_key(entity),
        s.get_entity_transform(entity).1 == (RequestView::<L>::ReadTransform { entity }),
{
    if !world.cache.contains_key(entity) && !visiting.contains(entity) {
        let (event, read) = host.ask(world, RequestView::ReadTransform { entity });
        match event {
            EventView::Property(Some(expression)) => {
                lemma_evaluate_grows(
                    host,
                    read,
                    visiting.insert(entity),
                    entity,
                    expression,
                    (fuel - 1) as nat,
                );
                assert(visiting.insert(entity).contains(entity));
            },
            _ => {},
        }
    }
    let t = State { queue: seq![entity], ..s };
    assert(t.queue[0] == entity);
    assert(s.get_entity_transform(entity) == t.advance());
}

/// A reference that leads back to an entity that is being resolved is
/// reported as a cycle, and the host is not asked for anything.
pub proof fn law_cycle_is_reported<H, L>(
    host: Host<H, L>,
    world: World<H>,
    visiting: Set<EntityId>,
    entity: EntityId,
    fuel: nat,
)
    requires
        visiting.contains(entity),
        !world.cache.contains_key(entity),
    ensures
        host.resolve(world, visiting, entity, fuel) == Some(
            (world, Err::<Matrix, ResolveError>(ResolveError::Cycle)),
        ),
{
}

/// A transform is remembered for an entity that has none yet: while the
/// subsystem waits for the confirmation of a write, the cache has no entry
/// for the entity that was written.
pub proof fn law_insertion_is_fresh<L>(s: State<L>)
    requires
        s.wf(),
        (s.awaiting is Written),
    ensures
        !s.cache.contains_key(s.awaiting->Written_entity),
{
    assert(s.stack[s.stack.len() - 1] is Resolving);
}

/// Asked for a transform that it remembers, the subsystem answers at once
/// and stays as it is: the document is not read.
pub proof fn law_hit<L>(s: State<L>, entity: EntityId)
    requires
        s.wf(),
        s.idle(),
        s.cache.contains_key(entity),
    ensures
        s.get_entity_transform(entity) == (
            s,
            RequestView::<L>::Done {
                outcomes: seq![Outcome { entity, result: Ok(s.cache[entity]) }],
            },
        ),
{
    let t = State { queue: seq![entity], ..s };
    let outcome = Outcome { entity, result: Ok(s.cache[entity]) };
    let u = State { queue: t.queue.drop_first(), outcomes: s.outcomes.push(outcome), ..s };
    assert(t.queue[0] == entity);
    assert(t.advance() == u.advance());
    assert(u.queue =~= Seq::empty());
    assert(s.queue =~= Seq::empty());
    assert(s.outcomes =~= Seq::empty());
    assert(u.outcomes =~= seq![outcome]);
}

/// The `transformed` property of `entity` in `document`, as `transformed`
/// reads it.
pub open spec fn property<H>(
    transformed: spec_fn(H, EntityId) -> Option<Matrix>,
    document: H,
    entity: EntityId,
) -> Option<Matrix> {
    transformed(document, entity)
}

/// The document after the host has answered `request`.
pub open spec fn answered<H, L>(host: Host<H, L>, document: H, request: RequestView<L>) -> H {
    (host.answer)(document, request).1
}

/// What the `transformed` property of `entity` is after `request` in a
/// document that keeps what is written: the value of a write that the host
/// confirmed, and what it was before after anything else.
pub open spec fn kept<H, L>(
    host: Host<H, L>,
    transformed: spec_fn(H, EntityId) -> Option<Matrix>,
    document: H,
    request: RequestView<L>,
    entity: EntityId,
) -> Option<Matrix> {
    match request {
        RequestView::WriteBack { entity: written, value } if written == entity && (host.answer)(
            document,
            request,
        ).0 == EventView::<L>::Written(true) => Some(value),
        _ => transformed(document, entity),
    }
}

/// The host's document keeps what is written to it: the `transformed`
/// property of an entity changes only by a write that the host confirms,
/// and is then what was written.
pub open spec fn keeps<H, L>(
    host: Host<H, L>,
    transformed: spec_fn(H, EntityId) -> Option<Matrix>,
) -> bool {
    forall|document: H, request: RequestView<L>, entity: EntityId|
        #[trigger] property(transformed, answered(host, document, request), entity) == kept(
            host,
            transformed,
            document,
            request,
            entity,
        )
}

/// Every remembered transform is the `transformed` property of its entity.
pub open spec fn coherent<H>(
    transformed: spec_fn(H, EntityId) -> Option<Matrix>,
    world: World<H>,
) -> bool {
    forall|entity: EntityId| #[trigger]
        world.cache.contains_key(entity) ==> property(transformed, world.document, entity) == Some(
            world.cache[entity],
        )
}

/// A request that is no write leaves the world coherent.
pub proof fn lemma_ask_coherent<H, L>(
    host: Host<H, L>,
    transformed: spec_fn(H, EntityId) -> Option<Matrix>,
    world: World<H>,
    request: RequestView<L>,
)
    requires
        keeps(host, transformed),
        coherent(transformed, world),
        !(request is WriteBack),
    ensures
        coherent(transformed, host.ask(world, request).1),
{
    let after = host.ask(world, request).1;
    assert forall|entity: EntityId| #[trigger] after.cache.contains_key(entity) implies property(
        transformed,
        after.document,
        entity,
    ) == Some(after.cache[entity]) by {
        assert(world.cache.contains_key(entity));
        assert(after.document == answered(host, world.document, request));
        assert(property(transformed, answered(host, world.document, request), entity) == kept(
            host,
            transformed,
            world.document,
            request,
            entity,
        ));
    }
}

/// Evaluation leaves the world coherent.
pub proof fn lemma_evaluate_coherent<H, L>(
    host: Host<H, L>,
    transformed: spec_fn(H, EntityId) -> Option<Matrix>,
    world: World<H>,
    visiting: Set<EntityId>,
    owner: EntityId,
    expression: Expr<L>,
    fuel: nat,
)
    requires
        keeps(host, transformed),
        coherent(transformed, world),
        host.evaluate(world, visiting, owner, expression, fuel).is_some(),
    ensures
        coherent(
            transformed,
            host.evaluate(world, visiting, owner, expression, fuel).unwrap().0,
        ),
    decreases fuel, 1nat, expression,
{
    match expression {
        Expr::Composite { tag, items, source } => {
            if tag == mul_tag() {
                if items.is_some() {
                    lemma_fold_coherent(
                        host,
                        transformed,
                        world,
                        visiting,
                        owner,
                        Matrix::spec_identity(),
                        items.unwrap(),
                        fuel,
                    );
                }
            } else {
                lemma_ask_coherent(
                    host,
                    transformed,
                    world,
                    RequestView::Coerce { owner, expression: source },
                );
            }
        },
        Expr::Reference { key, source } => {
            if key == transform_key() {
                let request = RequestView::Locate { owner, reference: source };
                lemma_ask_coherent(host, transformed, world, request);
                let (event, located) = host.ask(world, request);
                match event {
                    EventView::Target(Some(entity)) => {
                        lemma_resolve_coherent(host, transformed, located, visiting, entity, fuel);
                    },
                    _ => {},
                }
            } else {
                lemma_ask_coherent(
                    host,
                    transformed,
                    world,
                    RequestView::Coerce { owner, expression: source },
                );
            }
        },
        Expr::Value { source } => {
            lemma_ask_coherent(
                host,
                transformed,
                world,
                RequestView::Coerce { owner, expression: source },
            );
        },
    }
}

/// Folding leaves the world coherent.
pub proof fn lemma_fold_coherent<H, L>(
    host: Host<H, L>,
    transformed: spec_fn(H, EntityId) -> Option<Matrix>,
    world: World<H>,
    visiting: Set<EntityId>,
    owner: EntityId,
    product: Matrix,
    items: Seq<Expr<L>>,
    fuel: nat,
)
    requires
        keeps(host, transformed),
        coherent(transformed, world),
        host.fold(world, visiting, owner, product, items, fuel).is_some(),
    ensures
        coherent(
            transformed,
            host.fold(world, visiting, owner, product, items, fuel).unwrap().0,
        ),
    decreases fuel, 1nat, items,
{
    if items.len() > 0 {
        lemma_evaluate_coherent(host, transformed, world, visiting, owner, items[0], fuel);
        let (evaluated, result) = host.evaluate(world, visiting, owner, items[0], fuel).unwrap();
        match result {
            Ok(value) => {
                let request = RequestView::Multiply { left: product, right: value };
                lemma_ask_coherent(host, transformed, evaluated, request);
                let (event, multiplied) = host.ask(evaluated, request);
                match event {
                    EventView::Product(next) => {
                        lemma_fold_coherent(
                            host,
                            transformed,
                            multiplied,
                            visiting,
                            owner,
                            next,
                            items.drop_first(),
                            fuel,
                        );
                    },
                    _ => {},
                }
            },
            Err(_) => {},
        }
    }
}

/// Resolution leaves the world coherent, and what it returns is the
/// `transformed` property of the entity.
pub proof fn lemma_resolve_coherent<H, L>(
    host: Host<H, L>,
    transformed: spec_fn(H, EntityId) -> Option<Matrix>,
    world: World<H>,
    visiting: Set<EntityId>,
    entity: EntityId,
    fuel: nat,
)
    requires
        keeps(host, transformed),
        coherent(transformed, world),
        host.resolve(world, visiting, entity, fuel).is_some(),
    ensures
        coherent(transformed, host.resolve(world, visiting, entity, fuel).unwrap().0),
    decreases fuel, 0nat, world,
{
    if !world.cache.contains_key(entity) && !visiting.contains(entity) {
        let request = RequestView::ReadTransform { entity };
        lemma_ask_coherent(host, transformed, world, request);
        let (event, read) = host.ask(world, request);
        match event {
            EventView::Property(Some(expression)) => {
                lemma_evaluate_coherent(
                    host,
                    transformed,
                    read,
                    visiting.insert(entity),
                    entity,
                    expression,
                    (fuel - 1) as nat,
                );
                let (evaluated, result) = host.evaluate(
                    read,
                    visiting.insert(entity),
                    entity,
                    expression,
                    (fuel - 1) as nat,
                ).unwrap();
                match result {
                    Ok(value) => {
                        let write = RequestView::WriteBack { entity, value };
                        let (answer, written) = host.ask(evaluated, write);
                        let last = host.resolve(world, visiting, entity, fuel).unwrap().0;
                        assert(written.document == answered(host, evaluated.document, write));
                        assert forall|other: EntityId| #[trigger]
                            last.cache.contains_key(other) implies property(
                            transformed,
                            last.document,
                            other,
                        ) == Some(last.cache[other]) by {
                            assert(property(
                                transformed,
                                answered(host, evaluated.document, write),
                                other,
                            ) == kept(host, transformed, evaluated.document, write, other));
                            if other != entity || answer != EventView::<L>::Written(true) {
                                assert(evaluated.cache.contains_key(other));
                            }
                        }
                    },
                    Err(_) => {},
                }
            },
            _ => {},
        }
    }
}

/// Write-back consistency: in a document that keeps what is written, and
/// in which every remembered transform is its entity's `transformed`
/// property, a successful resolution returns the entity's `transformed`
/// property, and every remembered transform still is its entity's.
pub proof fn law_written_back<H, L>(
    host: Host<H, L>,
    transformed: spec_fn(H, EntityId) -> Option<Matrix>,
    world: World<H>,
    visiting: Set<EntityId>,
    entity: EntityId,
    fuel: nat,
)
    requires
        keeps(host, transformed),
        coherent(transformed, world),
        host.resolve(world, visiting, entity, fuel).is_some(),
        host.resolve(world, visiting, entity, fuel).unwrap().1.is_ok(),
    ensures
        ({
            let (resolved, result) = host.resolve(world, visiting, entity, fuel).unwrap();
            &&& transformed(resolved.document, entity) == Some(result.unwrap())
            &&& coherent(transformed, resolved)
        }),
{
    lemma_resolve_coherent(host, transformed, world, visiting, entity, fuel);
    law_resolved_is_remembered(host, world, visiting, entity, fuel);
    let (resolved, result) = host.resolve(world, visiting, entity, fuel).unwrap();
    assert(resolved.cache.contains_key(entity));
}

/// Resolving one entity after the other only adds to the cache.
pub proof fn lemma_resolve_all_grows<H, L>(
    host: Host<H, L>,
    world: World<H>,
    entities: Seq<EntityId>,
    fuel: nat,
)
    requires
        host.resolve_all(world, entities, fuel).is_some(),
    ensures
        grows(world, Set::empty(), host.resolve_all(world, entities, fuel).unwrap().0),
        host.resolve_all(world, entities, fuel).unwrap().1.len() == entities.len(),
    decreases entities.len(),
{
    if entities.len() > 0 {
        lemma_resolve_grows(host, world, Set::empty(), entities[0], fuel);
        let resolved = host.resolve(world, Set::empty(), entities[0], fuel).unwrap().0;
        lemma_resolve_all_grows(host, resolved, entities.drop_first(), fuel);
        lemma_grows_twice(
            world,
            Set::empty(),
            resolved,
            resolved,
            host.resolve_all(resolved, entities.drop_first(), fuel).unwrap().0,
        );
    }
}

/// Of entities resolved one after the other, each has its outcome at its
/// place, and each that was resolved is remembered at the end.
pub proof fn lemma_resolve_all_remembers<H, L>(
    host: Host<H, L>,
    world: World<H>,
    entities: Seq<EntityId>,
    fuel: nat,
    i: int,
)
    requires
        host.resolve_all(world, entities, fuel).is_some(),
        0 <= i < entities.len(),
    ensures
        ({
            let (last, outcomes) = host.resolve_all(world, entities, fuel).unwrap();
            &&& outcomes.len() == entities.len()
            &&& outcomes[i].entity == entities[i]
            &&& outcomes[i].result.is_ok() ==> last.cache.contains_key(entities[i])
                && last.cache[entities[i]] == outcomes[i].result.unwrap()
        }),
    decreases entities.len(),
{
    lemma_resolve_all_grows(host, world, entities, fuel);
    let (resolved, result) = host.resolve(world, Set::empty(), entities[0], fuel).unwrap();
    let rest = entities.drop_first();
    lemma_resolve_all_grows(host, resolved, rest, fuel);
    let (last, outcomes) = host.resolve_all(resolved, rest, fuel).unwrap();
    if i == 0 {
        if result.is_ok() {
            law_resolved_is_remembered(host, world, Set::empty(), entities[0], fuel);
            assert(resolved.cache.contains_key(entities[0]));
        }
    } else {
        lemma_resolve_all_remembers(host, resolved, rest, fuel, i - 1);
        assert(rest[i - 1] == entities[i]);
    }
}

/// Batch invalidation: a notification forgets the transform of every
/// entity that it names before it reads the property of the first of them.
pub proof fn law_notification_forgets_first<L>(s: State<L>, refs: Seq<PropRef>)
    requires
        s.wf(),
        s.idle(),
        transform_entities(refs).len() > 0,
    ensures
        ({
            let entities = transform_entities(refs);
            let (next, request) = s.on_property_value_change(refs);
            &&& request == (RequestView::<L>::ReadTransform { entity: entities[0] })
            &&& next.cache == s.cache.remove_keys(entities.to_set())
            &&& next.queue == entities.drop_first()
            &&& forall|i: int| 0 <= i < entities.len() ==> !next.cache.contains_key(entities[i])
        }),
{
    let entities = transform_entities(refs);
    assert(entities.to_set().contains(entities[0]));
    assert forall|i: int| 0 <= i < entities.len() implies entities.to_set().contains(
        entities[i],
    ) by {}
}

/// Cache coherence, first half: what a notification leads to does not
/// depend on what was remembered for the entities that it names.
pub proof fn law_notification_ignores_stale<L>(
    s: State<L>,
    refs: Seq<PropRef>,
    other: Map<EntityId, Matrix>,
)
    requires
        s.cache.remove_keys(transform_entities(refs).to_set()) == other.remove_keys(
            transform_entities(refs).to_set(),
        ),
    ensures
        s.on_property_value_change(refs) == s.remembering(other).on_property_value_change(refs),
{
}

/// Cache coherence, second half: served by the host after a notification,
/// the subsystem reports for each named entity the transform that the
/// semantics give for it in the document as it is then, with nothing
/// remembered for the named entities; and a transform that it has reported
/// is the one that it serves afterwards, at once and without reading the
/// document.
pub proof fn law_notified_is_served<H, L>(
    host: Host<H, L>,
    document: H,
    s: State<L>,
    refs: Seq<PropRef>,
    fuel: nat,
    i: int,
) -> (rounds: nat)
    requires
        s.wf(),
        s.idle(),
        0 <= i < transform_entities(refs).len(),
        host.resolve_all(
            bind(document, s.cache.remove_keys(transform_entities(refs).to_set())),
            transform_entities(refs),
            fuel,
        ).is_some(),
    ensures
        ({
            let entities = transform_entities(refs);
            let (world, outcomes) = host.resolve_all(
                bind(document, s.cache.remove_keys(entities.to_set())),
                entities,
                fuel,
            ).unwrap();
            let end = host.run(exchange(document, s.on_property_value_change(refs)), rounds);
            &&& end == rest::<H, L>(world.document, world.cache, outcomes)
            &&& outcomes.len() == entities.len()
            &&& outcomes[i].entity == entities[i]
            &&& outcomes[i].result.is_ok() ==> end.state.get_entity_transform(entities[i]) == (
                end.state,
                RequestView::<L>::Done { outcomes: seq![outcomes[i]] },
            )
        }),
{
    let entities = transform_entities(refs);
    let start = bind(document, s.cache.remove_keys(entities.to_set()));
    lemma_resolve_all_remembers(host, start, entities, fuel, i);
    let (world, outcomes) = host.resolve_all(start, entities, fuel).unwrap();
    let rounds = lemma_on_property_value_change(host, document, s, refs, fuel);
    let end = host.run(exchange(document, s.on_property_value_change(refs)), rounds);
    if outcomes[i].result.is_ok() {
        law_hit(end.state, entities[i]);
    }
    rounds
}

/// Write-back consistency of the subsystem: in a document that keeps what
/// is written, and in which every remembered transform is its entity's
/// `transformed` property, the subsystem, served by the host, ends a
/// successful resolution with the returned matrix as the entity's
/// `transformed` property, and every remembered transform still is its
/// entity's.
pub proof fn law_write_back_consistency<H, L>(
    host: Host<H, L>,
    transformed: spec_fn(H, EntityId) -> Option<Matrix>,
    document: H,
    s: State<L>,
    entity: EntityId,
    fuel: nat,
) -> (rounds: nat)
    requires
        s.wf(),
        s.idle(),
        keeps(host, transformed),
        coherent(transformed, bind(document, s.cache)),
        host.resolve(bind(document, s.cache), Set::empty(), entity, fuel).is_some(),
        host.resolve(bind(document, s.cache), Set::empty(), entity, fuel).unwrap().1.is_ok(),
    ensures
        ({
            let result = host.resolve(
                bind(document, s.cache),
                Set::empty(),
                entity,
                fuel,
            ).unwrap().1;
            let end = host.run(exchange(document, s.get_entity_transform(entity)), rounds);
            &&& end.request == (RequestView::<L>::Done { outcomes: seq![Outcome { entity, result }] })
            &&& transformed(end.document, entity) == Some(result.unwrap())
            &&& coherent(transformed, bind(end.document, end.state.cache))
        }),
{
    law_written_back(host, transformed, bind(document, s.cache), Set::empty(), entity, fuel);
    lemma_get_entity_transform(host, document, s, entity, fuel)
}

/// Error non-caching of the subsystem: served by the host through a
/// resolution that fails, the subsystem reports the error, remembers
/// nothing for the entity, and starts the next resolution of the entity by
/// reading its property again.
pub proof fn law_failure_leaves_no_entry<H, L>(
    host: Host<H, L>,
    document: H,
    s: State<L>,
    entity: EntityId,
    fuel: nat,
) -> (rounds: nat)
    requires
        s.wf(),
        s.idle(),
        host.resolve(bind(document, s.cache), Set::empty(), entity, fuel).is_some(),
        host.resolve(bind(document, s.cache), Set::empty(), entity, fuel).unwrap().1.is_err(),
    ensures
        ({
            let result = host.resolve(
                bind(document, s.cache),
                Set::empty(),
                entity,
                fuel,
            ).unwrap().1;
            let end = host.run(exchange(document, s.get_entity_transform(entity)), rounds);
            &&& end.request == (RequestView::<L>::Done { outcomes: seq![Outcome { entity, result }] })
            &&& end.state.idle()
            &&& !end.state.cache.contains_key(entity)
            &&& end.state.get_entity_transform(entity).1 == (RequestView::<L>::ReadTransform {
                entity,
            })
        }),
{
    let rounds = lemma_get_entity_transform(host, document, s, entity, fuel);
    let end = host.run(exchange(document, s.get_entity_transform(entity)), rounds);
    law_error_is_not_remembered(
        host,
        bind(document, s.cache),
        Set::empty(),
        entity,
        fuel,
        end.state,
    );
    rounds
}

} // verus!
