//! The subsystem, served by a host, computes what the semantics say.

use vstd::prelude::*;
use crate::expression::{EntityId, Expr};
use crate::matrix::Matrix;
use crate::model::{mul_tag, transform_entities, transform_key, FrameView, State};
use crate::protocol::{
    Awaiting, CoerceError, EventView, Outcome, PropRef, RequestView, ResolveError,
};
use crate::semantics::{bind, Host, World};

verus! {

/// A moment in the conversation between the subsystem and its host: the
/// document, the subsystem's state, and the request that the host is about to
/// answer.
pub struct Exchange<H, L> {
    pub document: H,
    pub state: State<L>,
    pub request: RequestView<L>,
}

/// The moment at which the subsystem has just made `turn`.
pub open spec fn exchange<H, L>(document: H, turn: (State<L>, RequestView<L>)) -> Exchange<H, L> {
    Exchange { document, state: turn.0, request: turn.1 }
}

impl<H, L> Host<H, L> {
    /// One round: the host answers the request, the subsystem takes the
    /// answer.
    pub open spec fn serve(self, x: Exchange<H, L>) -> Exchange<H, L> {
        let (event, document) = (self.answer)(x.document, x.request);
        exchange(document, x.state.resume(event))
    }

    /// `rounds` rounds, one after the other.
    pub open spec fn run(self, x: Exchange<H, L>, rounds: nat) -> Exchange<H, L>
        decreases rounds,
    {
        if rounds == 0 {
            x
        } else {
            self.run(self.serve(x), (rounds - 1) as nat)
        }
    }
}

/// Running `a` rounds and then `b` rounds is running `a + b` rounds.
pub proof fn lemma_run_add<H, L>(host: Host<H, L>, x: Exchange<H, L>, a: nat, b: nat)
    ensures
        host.run(x, a + b) == host.run(host.run(x, a), b),
    decreases a,
{
    if a > 0 {
        lemma_run_add(host, host.serve(x), (a - 1) as nat, b);
    }
}

/// What the subsystem does, with the stack of `s`, once the expression that
/// it was evaluating has ended in `result`: it hands a matrix to the
/// innermost frame and gives up on an error.
pub open spec fn conclude<L>(
    s: State<L>,
    cache: Map<EntityId, Matrix>,
    result: Result<Matrix, ResolveError>,
) -> (State<L>, RequestView<L>) {
    let t = State { cache, awaiting: Awaiting::Nothing, ..s };
    match result {
        Ok(value) => t.deliver(value),
        Err(error) => t.fail(error),
    }
}

/// What the subsystem does, with the stack of `s`, once the resolution of
/// `entity` has ended in `result`: the outermost resolution is an outcome,
/// an inner one is the value of a reference.
pub open spec fn finish<L>(
    s: State<L>,
    entity: EntityId,
    cache: Map<EntityId, Matrix>,
    result: Result<Matrix, ResolveError>,
) -> (State<L>, RequestView<L>) {
    if s.stack.len() == 0 {
        State {
            cache,
            awaiting: Awaiting::Nothing,
            outcomes: s.outcomes.push(Outcome { entity, result }),
            ..s
        }.advance()
    } else {
        conclude(s, cache, result)
    }
}

/// What `advance` does is the same whatever the subsystem was waiting for.
pub proof fn lemma_advance_awaiting<L>(s: State<L>, awaiting: Awaiting)
    ensures
        s.expecting(awaiting).advance() == s.advance(),
    decreases s.queue.len(),
{
    if s.queue.len() > 0 {
        let entity = s.queue[0];
        if s.cache.contains_key(entity) {
            let next = State {
                queue: s.queue.drop_first(),
                outcomes: s.outcomes.push(Outcome { entity, result: Ok(s.cache[entity]) }),
                ..s
            };
            lemma_advance_awaiting(next, awaiting);
        }
    }
}

/// What `fail` does is the same whatever the subsystem was waiting for.
pub proof fn lemma_fail_awaiting<L>(s: State<L>, awaiting: Awaiting, error: ResolveError)
    ensures
        s.expecting(awaiting).fail(error) == s.fail(error),
{
    let outcomes = if s.stack.len() > 0 && s.stack[0] is Resolving {
        s.outcomes.push(Outcome { entity: s.stack[0]->entity, result: Err(error) })
    } else {
        s.outcomes
    };
    lemma_advance_awaiting(State { stack: Seq::empty(), outcomes, ..s }, awaiting);
}

/// What `conclude` does depends on the stack, the queue and the outcomes
/// only.
pub proof fn lemma_conclude_awaiting<L>(
    s: State<L>,
    awaiting: Awaiting,
    cache: Map<EntityId, Matrix>,
    stale: Map<EntityId, Matrix>,
    result: Result<Matrix, ResolveError>,
)
    ensures
        conclude(s.expecting(awaiting).remembering(stale), cache, result) == conclude(
            s,
            cache,
            result,
        ),
{
}

/// With `cache` for its cache, `s` delivers and fails as `conclude` says.
pub proof fn lemma_conclude_here<L>(s: State<L>, result: Result<Matrix, ResolveError>)
    requires
        s.stack.len() > 0,
    ensures
        conclude(s, s.cache, result) == (match result {
            Ok(value) => s.deliver(value),
            Err(error) => s.fail(error),
        }),
{
    match result {
        Ok(value) => {},
        Err(error) => {
            lemma_fail_awaiting(s, Awaiting::Nothing, error);
        },
    }
}

/// A `mul` node on top of the stack adds nothing to the entities that are
/// being resolved.
pub proof fn lemma_visiting_composing<L>(s: State<L>, frame: FrameView<L>)
    requires
        (frame is Composing),
    ensures
        s.pushing(frame).visiting() == s.visiting(),
{
    let t = State { stack: s.stack.push(frame), ..s };
    assert forall|entity: EntityId| t.resolving(entity) == s.resolving(entity) by {
        if t.resolving(entity) {
            let i = choose|i: int|
                0 <= i < t.stack.len() && t.stack[i] == (FrameView::<L>::Resolving { entity });
            assert(s.stack[i] == (FrameView::<L>::Resolving { entity }));
        }
        if s.resolving(entity) {
            let i = choose|i: int|
                0 <= i < s.stack.len() && s.stack[i] == (FrameView::<L>::Resolving { entity });
            assert(t.stack[i] == (FrameView::<L>::Resolving { entity }));
        }
    }
    assert(t.visiting() =~= s.visiting());
}

/// An entity on top of the stack is one more entity that is being resolved.
pub proof fn lemma_visiting_resolving<L>(s: State<L>, entity: EntityId)
    ensures
        s.pushing(FrameView::Resolving { entity }).visiting() == s.visiting().insert(entity),
{
    let t = State { stack: s.stack.push(FrameView::Resolving { entity }), ..s };
    assert forall|other: EntityId| t.resolving(other) == (s.resolving(other) || other == entity) by {
        if t.resolving(other) {
            let i = choose|i: int|
                0 <= i < t.stack.len() && t.stack[i] == (FrameView::<L>::Resolving { entity: other });
            if i < s.stack.len() {
                assert(s.stack[i] == (FrameView::<L>::Resolving { entity: other }));
            }
        }
        if s.resolving(other) {
            let i = choose|i: int|
                0 <= i < s.stack.len() && s.stack[i] == (FrameView::<L>::Resolving { entity: other });
            assert(t.stack[i] == (FrameView::<L>::Resolving { entity: other }));
        }
        if other == entity {
            assert(t.stack[s.stack.len() as int] == (FrameView::<L>::Resolving { entity: other }));
        }
    }
    assert(t.visiting() =~= s.visiting().insert(entity));
}

/// The moment at which the evaluation that `s` was waiting for has ended
/// as `ended` says.
pub open spec fn evaluated<H, L>(
    s: State<L>,
    ended: (World<H>, Result<Matrix, ResolveError>),
) -> Exchange<H, L> {
    exchange(ended.0.document, conclude(s, ended.0.cache, ended.1))
}

/// The moment at which the resolution of `entity` that `s` was waiting for
/// has ended as `ended` says.
pub open spec fn resolved<H, L>(
    s: State<L>,
    entity: EntityId,
    ended: (World<H>, Result<Matrix, ResolveError>),
) -> Exchange<H, L> {
    exchange(ended.0.document, finish(s, entity, ended.0.cache, ended.1))
}

/// One round is one answer.
pub proof fn lemma_run_one<H, L>(host: Host<H, L>, x: Exchange<H, L>)
    ensures
        host.run(x, 1) == host.serve(x),
{
    assert(host.run(host.serve(x), 0) == host.serve(x));
}

/// Giving up does the same with and without the frames above the outermost
/// one.
pub proof fn lemma_fail_popping<L>(s: State<L>, error: ResolveError)
    requires
        s.stack.len() >= 2,
    ensures
        s.fail(error) == s.popping().fail(error),
{
}

/// The host's answer to a request for coercion is taken as the semantics
/// say.
pub proof fn lemma_coerce<H, L>(
    host: Host<H, L>,
    document: H,
    s: State<L>,
    owner: EntityId,
    source: L,
    ended: (World<H>, Result<Matrix, ResolveError>),
)
    requires
        s.stack.len() > 0,
        ({
            let (event, coerced) = host.ask(
                bind(document, s.cache),
                RequestView::Coerce { owner, expression: source },
            );
            ended == (match event {
                EventView::Coerced(Ok(value)) => (coerced, Ok::<Matrix, ResolveError>(value)),
                EventView::Coerced(Err(CoerceError::Dependency)) => (
                    coerced,
                    Err(ResolveError::ReferenceResolution),
                ),
                EventView::Coerced(Err(CoerceError::TypeMismatch)) => (
                    coerced,
                    Err(ResolveError::TypeCoercion),
                ),
                _ => (coerced, Err(ResolveError::UnexpectedEvent)),
            })
        }),
    ensures
        host.run(
            exchange(
                document,
                (
                    s.expecting(Awaiting::Coerced { owner }),
                    RequestView::Coerce { owner, expression: source },
                ),
            ),
            1,
        ) == evaluated(s, ended),
{
    let waiting = s.expecting(Awaiting::Coerced { owner });
    let x = exchange(document, (waiting, RequestView::Coerce { owner, expression: source }));
    lemma_run_one(host, x);
    let (event, after) = (host.answer)(document, RequestView::Coerce { owner, expression: source });
    lemma_conclude_here(waiting, ended.1);
    lemma_conclude_awaiting(s, Awaiting::Coerced { owner }, s.cache, s.cache, ended.1);
    assert(waiting.remembering(s.cache) == waiting);
}

/// Evaluation: from the moment at which the subsystem starts on an
/// expression, the host's answers lead it, after `rounds` rounds, to the
/// moment at which it goes on with the matrix, or gives up with the error,
/// that the semantics give for the expression.
pub proof fn lemma_evaluate<H, L>(
    host: Host<H, L>,
    document: H,
    s: State<L>,
    owner: EntityId,
    expression: Expr<L>,
    fuel: nat,
) -> (rounds: nat)
    requires
        s.stack.len() > 0,
        host.evaluate(bind(document, s.cache), s.visiting(), owner, expression, fuel).is_some(),
    ensures
        host.run(exchange(document, s.start(owner, expression)), rounds) == evaluated(
            s,
            host.evaluate(bind(document, s.cache), s.visiting(), owner, expression, fuel).unwrap(),
        ),
    decreases fuel, 2nat, expression,
{
    let world = bind(document, s.cache);
    let ended = host.evaluate(world, s.visiting(), owner, expression, fuel).unwrap();
    match expression {
        Expr::Composite { tag, items, source } => {
            if tag == mul_tag() {
                match items {
                    Some(items) => {
                        if items.len() == 0 {
                            lemma_conclude_here(s, Ok(Matrix::spec_identity()));
                            0
                        } else {
                            let frame = FrameView::Composing {
                                owner,
                                product: Matrix::spec_identity(),
                                pending: items.drop_first(),
                            };
                            let t = s.pushing(frame);
                            lemma_visiting_composing(s, frame);
                            assert(t.popping() == s) by {
                                assert(t.stack.drop_last() =~= s.stack);
                            }
                            lemma_fold(host, document, t, owner, Matrix::spec_identity(), items, fuel)
                        }
                    },
                    None => {
                        lemma_conclude_here(s, Err(ResolveError::TypeCoercion));
                        0
                    },
                }
            } else {
                lemma_coerce(host, document, s, owner, source, ended);
                1
            }
        },
        Expr::Reference { key, source } => {
            if key == transform_key() {
                let waiting = s.expecting(Awaiting::Target { owner });
                let request = RequestView::Locate { owner, reference: source };
                let x = exchange(document, (waiting, request));
                lemma_run_one(host, x);
                let (event, located) = (host.answer)(document, request);
                match event {
                    EventView::Target(Some(entity)) => {
                        assert(waiting.visiting() == s.visiting());
                        let n = lemma_resolve(host, located, waiting, entity, fuel);
                        lemma_run_add(host, x, 1, n);
                        lemma_conclude_awaiting(
                            s,
                            Awaiting::Target { owner },
                            ended.0.cache,
                            s.cache,
                            ended.1,
                        );
                        assert(waiting.remembering(s.cache) == waiting);
                        1 + n
                    },
                    EventView::Target(None) => {
                        lemma_fail_awaiting(
                            s,
                            Awaiting::Target { owner },
                            ResolveError::ReferenceResolution,
                        );
                        lemma_conclude_here(s, Err(ResolveError::ReferenceResolution));
                        1
                    },
                    _ => {
                        lemma_fail_awaiting(
                            s,
                            Awaiting::Target { owner },
                            ResolveError::UnexpectedEvent,
                        );
                        lemma_conclude_here(s, Err(ResolveError::UnexpectedEvent));
                        1
                    },
                }
            } else {
                lemma_coerce(host, document, s, owner, source, ended);
                1
            }
        },
        Expr::Value { source } => {
            lemma_coerce(host, document, s, owner, source, ended);
            1
        },
    }
}

/// Folding: from the moment at which the subsystem starts on the first of
/// the items that are left of a `mul` node, the host's answers lead it to
/// the moment at which it goes on with the product, or gives up with the
/// error, that the semantics give for the node.
pub proof fn lemma_fold<H, L>(
    host: Host<H, L>,
    document: H,
    t: State<L>,
    owner: EntityId,
    product: Matrix,
    items: Seq<Expr<L>>,
    fuel: nat,
) -> (rounds: nat)
    requires
        t.stack.len() >= 2,
        items.len() > 0,
        t.stack.last() == (FrameView::Composing { owner, product, pending: items.drop_first() }),
        host.fold(bind(document, t.cache), t.visiting(), owner, product, items, fuel).is_some(),
    ensures
        host.run(exchange(document, t.start(owner, items[0])), rounds) == evaluated(
            t.popping(),
            host.fold(bind(document, t.cache), t.visiting(), owner, product, items, fuel).unwrap(),
        ),
    decreases fuel, 2nat, items,
{
    let x = exchange(document, t.start(owner, items[0]));
    let n = lemma_evaluate(host, document, t, owner, items[0], fuel);
    let (first, result) = host.evaluate(
        bind(document, t.cache),
        t.visiting(),
        owner,
        items[0],
        fuel,
    ).unwrap();
    let below = t.popping();
    match result {
        Err(error) => {
            let failing = State { cache: first.cache, awaiting: Awaiting::Nothing, ..t };
            lemma_fail_popping(failing, error);
            assert(failing.popping() == State {
                cache: first.cache,
                awaiting: Awaiting::Nothing,
                ..below
            });
            assert(host.fold(bind(document, t.cache), t.visiting(), owner, product, items, fuel)
                == Some((first, Err::<Matrix, ResolveError>(error))));
            n
        },
        Ok(value) => {
            let request = RequestView::Multiply { left: product, right: value };
            let waiting = t.remembering(first.cache).expecting(
                Awaiting::Product { left: product, right: value },
            );
            let y = exchange(first.document, (waiting, request));
            assert(host.run(x, n) == y);
            lemma_run_one(host, y);
            lemma_run_add(host, x, n, 1);
            let (event, multiplied) = (host.answer)(first.document, request);
            match event {
                EventView::Product(next) => {
                    let pending = items.drop_first();
                    if pending.len() == 0 {
                        assert(waiting.popping() == below.remembering(first.cache).expecting(
                            Awaiting::Product { left: product, right: value },
                        ));
                        lemma_conclude_awaiting(
                            below,
                            Awaiting::Product { left: product, right: value },
                            first.cache,
                            first.cache,
                            Ok(next),
                        );
                        lemma_conclude_here(waiting.popping(), Ok(next));
                        assert(host.fold(
                            bind(multiplied, first.cache),
                            t.visiting(),
                            owner,
                            next,
                            pending,
                            fuel,
                        ) == Some((bind(multiplied, first.cache), Ok::<Matrix, ResolveError>(next))));
                        assert(host.fold(
                            bind(document, t.cache),
                            t.visiting(),
                            owner,
                            product,
                            items,
                            fuel,
                        ) == Some((bind(multiplied, first.cache), Ok::<Matrix, ResolveError>(next))));
                        n + 1
                    } else {
                        let frame = FrameView::Composing {
                            owner,
                            product: next,
                            pending: pending.drop_first(),
                        };
                        let u = waiting.popping().pushing(frame);
                        assert(u.popping() == waiting.popping()) by {
                            assert(u.stack.drop_last() =~= waiting.popping().stack);
                        }
                        assert(t == below.pushing(t.stack.last())) by {
                            assert(t.stack =~= below.stack.push(t.stack.last()));
                        }
                        lemma_visiting_composing(below, t.stack.last());
                        lemma_visiting_composing(waiting.popping(), frame);
                        assert(waiting.popping().visiting() == below.visiting());
                        let m = lemma_fold(host, multiplied, u, owner, next, pending, fuel);
                        lemma_run_add(host, x, n + 1, m);
                        let ended = host.fold(
                            bind(multiplied, u.cache),
                            u.visiting(),
                            owner,
                            next,
                            pending,
                            fuel,
                        ).unwrap();
                        lemma_conclude_awaiting(
                            below,
                            Awaiting::Product { left: product, right: value },
                            ended.0.cache,
                            first.cache,
                            ended.1,
                        );
                        assert(host.fold(
                            bind(document, t.cache),
                            t.visiting(),
                            owner,
                            product,
                            items,
                            fuel,
                        ) == Some(ended));
                        n + 1 + m
                    }
                },
                _ => {
                    lemma_fail_popping(waiting, ResolveError::UnexpectedEvent);
                    lemma_fail_awaiting(
                        below.remembering(first.cache),
                        Awaiting::Product { left: product, right: value },
                        ResolveError::UnexpectedEvent,
                    );
                    lemma_fail_awaiting(
                        below.remembering(first.cache),
                        Awaiting::Nothing,
                        ResolveError::UnexpectedEvent,
                    );
                    assert(host.fold(
                        bind(document, t.cache),
                        t.visiting(),
                        owner,
                        product,
                        items,
                        fuel,
                    ) == Some(
                        (
                            bind(multiplied, first.cache),
                            Err::<Matrix, ResolveError>(ResolveError::UnexpectedEvent),
                        ),
                    ));
                    n + 1
                },
            }
        },
    }
}

/// Following a reference: from the moment at which the subsystem turns to
/// the entity that a reference names, the host's answers lead it to the
/// moment at which it goes on with the transform, or gives up with the
/// error, that the semantics give for the entity.
pub proof fn lemma_resolve<H, L>(
    host: Host<H, L>,
    document: H,
    s: State<L>,
    entity: EntityId,
    fuel: nat,
) -> (rounds: nat)
    requires
        s.stack.len() > 0,
        host.resolve(bind(document, s.cache), s.visiting(), entity, fuel).is_some(),
    ensures
        host.run(exchange(document, s.enter(entity)), rounds) == evaluated(
            s,
            host.resolve(bind(document, s.cache), s.visiting(), entity, fuel).unwrap(),
        ),
    decreases fuel, 1nat, s,
{
    if s.cache.contains_key(entity) {
        lemma_conclude_here(s, Ok(s.cache[entity]));
        0
    } else if s.resolving(entity) {
        lemma_conclude_here(s, Err(ResolveError::Cycle));
        0
    } else {
        lemma_read(host, document, s, entity, fuel)
    }
}

/// Resolving: from the moment at which the subsystem asks for the
/// `transform` property of an entity, the host's answers lead it to the
/// moment at which the resolution has ended as the semantics say.
pub proof fn lemma_read<H, L>(
    host: Host<H, L>,
    document: H,
    s: State<L>,
    entity: EntityId,
    fuel: nat,
) -> (rounds: nat)
    requires
        !s.cache.contains_key(entity),
        !s.resolving(entity),
        host.resolve(bind(document, s.cache), s.visiting(), entity, fuel).is_some(),
    ensures
        host.run(
            exchange(
                document,
                (
                    s.pushing(FrameView::Resolving { entity }).expecting(
                        Awaiting::Property { entity },
                    ),
                    RequestView::ReadTransform { entity },
                ),
            ),
            rounds,
        ) == resolved(
            s,
            entity,
            host.resolve(bind(document, s.cache), s.visiting(), entity, fuel).unwrap(),
        ),
    decreases fuel, 0nat, s,
{
    let frame = FrameView::Resolving { entity };
    let reading = s.pushing(frame).expecting(Awaiting::Property { entity });
    let request = RequestView::ReadTransform { entity };
    let x = exchange(document, (reading, request));
    lemma_run_one(host, x);
    lemma_visiting_resolving(s, entity);
    assert(reading.visiting() == s.visiting().insert(entity));
    assert(reading.popping() == s.expecting(Awaiting::Property { entity })) by {
        assert(reading.stack.drop_last() =~= s.stack);
    }
    let (event, read) = (host.answer)(document, request);
    match event {
        EventView::Property(Some(expression)) => {
            let n = lemma_evaluate(host, read, reading, entity, expression, (fuel - 1) as nat);
            lemma_run_add(host, x, 1, n);
            let (evaluated, result) = host.evaluate(
                bind(read, s.cache),
                reading.visiting(),
                entity,
                expression,
                (fuel - 1) as nat,
            ).unwrap();
            match result {
                Err(error) => {
                    lemma_gives_up(s, reading, entity, evaluated.cache, error);
                    1 + n
                },
                Ok(value) => {
                    let writing = reading.remembering(evaluated.cache).expecting(
                        Awaiting::Written { entity, value },
                    );
                    let write = RequestView::WriteBack { entity, value };
                    let y = exchange(evaluated.document, (writing, write));
                    assert(host.run(x, 1 + n) == y);
                    lemma_run_one(host, y);
                    lemma_run_add(host, x, 1 + n, 1);
                    let (answer, written) = (host.answer)(evaluated.document, write);
                    match answer {
                        EventView::Written(true) => {
                            let cache = evaluated.cache.insert(entity, value);
                            assert(writing.stack.drop_last() =~= s.stack);
                            if s.stack.len() == 0 {
                                lemma_advance_awaiting(
                                    State {
                                        cache,
                                        awaiting: Awaiting::Nothing,
                                        outcomes: s.outcomes.push(
                                            Outcome { entity, result: Ok(value) },
                                        ),
                                        ..s
                                    },
                                    Awaiting::Written { entity, value },
                                );
                            } else {
                                lemma_conclude_awaiting(
                                    s,
                                    Awaiting::Written { entity, value },
                                    cache,
                                    cache,
                                    Ok(value),
                                );
                                lemma_conclude_here(
                                    s.expecting(Awaiting::Written { entity, value }).remembering(
                                        cache,
                                    ),
                                    Ok(value),
                                );
                            }
                            2 + n
                        },
                        EventView::Written(false) => {
                            lemma_gives_up(s, writing, entity, evaluated.cache, ResolveError::WriteBack);
                            2 + n
                        },
                        _ => {
                            lemma_gives_up(
                                s,
                                writing,
                                entity,
                                evaluated.cache,
                                ResolveError::UnexpectedEvent,
                            );
                            2 + n
                        },
                    }
                },
            }
        },
        EventView::Property(None) => {
            lemma_gives_up(s, reading, entity, s.cache, ResolveError::PropertyNotFound);
            1
        },
        _ => {
            lemma_gives_up(s, reading, entity, s.cache, ResolveError::UnexpectedEvent);
            1
        },
    }
}

/// Giving up while `entity` is on top of the stack of `s` ends the
/// resolution of `entity` with the error.
pub proof fn lemma_gives_up<L>(
    s: State<L>,
    above: State<L>,
    entity: EntityId,
    cache: Map<EntityId, Matrix>,
    error: ResolveError,
)
    requires
        above.stack == s.stack.push(FrameView::Resolving { entity }),
        above.queue == s.queue,
        above.outcomes == s.outcomes,
    ensures
        above.remembering(cache).fail(error) == finish(s, entity, cache, Err(error)),
        conclude(above, cache, Err(error)) == finish(s, entity, cache, Err(error)),
{
    let failing = above.remembering(cache);
    lemma_fail_awaiting(failing, Awaiting::Nothing, error);
    assert(failing.expecting(Awaiting::Nothing) == State {
        cache,
        awaiting: Awaiting::Nothing,
        ..above
    });
    if s.stack.len() == 0 {
        let outcomes = s.outcomes.push(Outcome { entity, result: Err(error) });
        let cleared = State { stack: Seq::empty(), outcomes, ..failing };
        assert(s.stack =~= Seq::empty());
        lemma_advance_awaiting(
            State { cache, awaiting: Awaiting::Nothing, outcomes, ..s },
            above.awaiting,
        );
        assert(cleared == State { cache, awaiting: Awaiting::Nothing, outcomes, ..s }.expecting(
            above.awaiting,
        ));
    } else {
        assert(failing.stack[0] == s.stack[0]);
        let outcomes = if s.stack[0] is Resolving {
            s.outcomes.push(Outcome { entity: s.stack[0]->entity, result: Err(error) })
        } else {
            s.outcomes
        };
        let lower = State { cache, awaiting: Awaiting::Nothing, ..s };
        lemma_advance_awaiting(
            State { stack: Seq::empty(), outcomes, ..lower },
            above.awaiting,
        );
        assert(State { stack: Seq::empty(), outcomes, ..failing } == State {
            stack: Seq::empty(),
            outcomes,
            ..lower
        }.expecting(above.awaiting));
    }
}

/// The moment at which nothing is left to do: the subsystem rests with
/// `cache` for its cache and has reported `outcomes`.
pub open spec fn rest<H, L>(
    document: H,
    cache: Map<EntityId, Matrix>,
    outcomes: Seq<Outcome>,
) -> Exchange<H, L> {
    Exchange {
        document,
        state: State {
            cache,
            stack: Seq::empty(),
            awaiting: Awaiting::Nothing,
            queue: Seq::empty(),
            outcomes: Seq::empty(),
        },
        request: RequestView::Done { outcomes },
    }
}

/// The moment at which the resolutions that were asked for have ended as
/// `ended` says, after those that had ended `before`.
pub open spec fn reported<H, L>(before: Seq<Outcome>, ended: (World<H>, Seq<Outcome>)) -> Exchange<
    H,
    L,
> {
    rest(ended.0.document, ended.0.cache, before + ended.1)
}

/// The queue: from the moment at which the subsystem takes up its queue, the
/// host's answers lead it to the moment at which it rests, having reported
/// for each queued entity what the semantics give for it.
pub proof fn lemma_advance<H, L>(host: Host<H, L>, document: H, t: State<L>, fuel: nat) -> (rounds:
    nat)
    requires
        t.stack.len() == 0,
        host.resolve_all(bind(document, t.cache), t.queue, fuel).is_some(),
    ensures
        host.run(exchange(document, t.advance()), rounds) == reported::<H, L>(
            t.outcomes,
            host.resolve_all(bind(document, t.cache), t.queue, fuel).unwrap(),
        ),
    decreases t.queue.len(),
{
    let world = bind(document, t.cache);
    assert(t.stack =~= Seq::empty());
    if t.queue.len() == 0 {
        assert(t.queue =~= Seq::empty());
        assert(t.outcomes + Seq::<Outcome>::empty() =~= t.outcomes);
        0
    } else {
        let entity = t.queue[0];
        let s = State { queue: t.queue.drop_first(), ..t };
        assert(s.visiting() =~= Set::<EntityId>::empty());
        let (resolved, result) = host.resolve(world, Set::empty(), entity, fuel).unwrap();
        let (last, outcomes) = host.resolve_all(resolved, t.queue.drop_first(), fuel).unwrap();
        let outcome = Outcome { entity, result };
        assert((t.outcomes.push(outcome)) + outcomes =~= t.outcomes + (seq![outcome] + outcomes));
        if t.cache.contains_key(entity) {
            lemma_advance(host, document, State { outcomes: t.outcomes.push(outcome), ..s }, fuel)
        } else {
            let n = lemma_read(host, document, s, entity, fuel);
            let reading = s.pushing(FrameView::Resolving { entity }).expecting(
                Awaiting::Property { entity },
            );
            assert(reading.stack =~= seq![FrameView::Resolving { entity }]);
            let x = exchange(document, (reading, RequestView::ReadTransform { entity }));
            assert(x == exchange(document, t.advance()));
            let next = State {
                cache: resolved.cache,
                awaiting: Awaiting::Nothing,
                outcomes: t.outcomes.push(outcome),
                ..s
            };
            assert(host.run(x, n) == exchange(resolved.document, next.advance()));
            let m = lemma_advance(host, resolved.document, next, fuel);
            lemma_run_add(host, x, n, m);
            n + m
        }
    }
}

/// Resolution is correct: asked for the transform of `entity`, the subsystem
/// is led by the host's answers to report what the semantics give for the
/// entity, and to remember what the semantics remember.
pub proof fn lemma_get_entity_transform<H, L>(
    host: Host<H, L>,
    document: H,
    s: State<L>,
    entity: EntityId,
    fuel: nat,
) -> (rounds: nat)
    requires
        s.wf(),
        s.idle(),
        host.resolve(bind(document, s.cache), Set::empty(), entity, fuel).is_some(),
    ensures
        ({
            let (world, result) = host.resolve(
                bind(document, s.cache),
                Set::empty(),
                entity,
                fuel,
            ).unwrap();
            &&& host.run(exchange(document, s.get_entity_transform(entity)), rounds) == rest::<H, L>(
                world.document,
                world.cache,
                seq![Outcome { entity, result }],
            )
            &&& host.run(exchange(document, s.get_entity_transform(entity)), rounds).state
                == s.remembering(world.cache)
        }),
{
    let t = State { queue: seq![entity], ..s };
    let (world, result) = host.resolve(bind(document, s.cache), Set::empty(), entity, fuel).unwrap();
    assert(t.queue.drop_first() =~= Seq::empty());
    assert(host.resolve_all(world, Seq::empty(), fuel) == Some((world, Seq::<Outcome>::empty())));
    assert(host.resolve_all(bind(document, t.cache), t.queue, fuel) == Some(
        (world, seq![Outcome { entity, result }] + Seq::<Outcome>::empty()),
    ));
    assert(s.stack =~= Seq::empty());
    assert(s.queue =~= Seq::empty());
    assert(s.outcomes =~= Seq::empty());
    assert(t.outcomes + (seq![Outcome { entity, result }] + Seq::<Outcome>::empty())
        =~= seq![Outcome { entity, result }]);
    lemma_advance(host, document, t, fuel)
}

/// Notification is correct: told that properties changed, the subsystem
/// forgets the transform of every entity whose `transform` property is
/// among them and is then led by the host's answers to report, for each of
/// them in order, what the semantics give for it.
pub proof fn lemma_on_property_value_change<H, L>(
    host: Host<H, L>,
    document: H,
    s: State<L>,
    refs: Seq<PropRef>,
    fuel: nat,
) -> (rounds: nat)
    requires
        s.wf(),
        s.idle(),
        host.resolve_all(
            bind(document, s.cache.remove_keys(transform_entities(refs).to_set())),
            transform_entities(refs),
            fuel,
        ).is_some(),
    ensures
        ({
            let (world, outcomes) = host.resolve_all(
                bind(document, s.cache.remove_keys(transform_entities(refs).to_set())),
                transform_entities(refs),
                fuel,
            ).unwrap();
            &&& host.run(exchange(document, s.on_property_value_change(refs)), rounds) == rest::<
                H,
                L,
            >(world.document, world.cache, outcomes)
            &&& host.run(exchange(document, s.on_property_value_change(refs)), rounds).state
                == s.remembering(world.cache)
        }),
{
    let entities = transform_entities(refs);
    let t = State { cache: s.cache.remove_keys(entities.to_set()), queue: entities, ..s };
    let (world, outcomes) = host.resolve_all(bind(document, t.cache), entities, fuel).unwrap();
    assert(s.stack =~= Seq::empty());
    assert(s.queue =~= Seq::empty());
    assert(s.outcomes =~= Seq::empty());
    assert(t.outcomes + outcomes =~= outcomes);
    lemma_advance(host, document, t, fuel)
}

} // verus!
