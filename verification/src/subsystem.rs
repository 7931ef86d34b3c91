//! The transform subsystem: a cache of resolved transforms and the work in
//! progress on the transforms that are not resolved yet.

use std::collections::HashMap;
use vstd::prelude::*;
use crate::expression::{lemma_view_items, lemma_views_drop_first, views, EntityId, Expression};
use crate::matrix::Matrix;
use crate::model::{transform_entities, FrameView, State};
use crate::protocol::{Awaiting, CoerceError, Event, Outcome, PropRef, Request, ResolveError};
use crate::wellformed::{
    lemma_get_entity_transform_wf, lemma_on_property_value_change_wf, lemma_resume_wf,
};

verus! {

/// Work that waits for the value of a sub-expression; see
/// [`FrameView`] for what the frames mean.
enum Frame<L> {
    Resolving { entity: EntityId },
    Composing { owner: EntityId, product: Matrix, pending: Vec<Expression<L>> },
}

impl<L> View for Frame<L> {
    type V = FrameView<L>;

    closed spec fn view(&self) -> FrameView<L> {
        match self {
            Frame::Resolving { entity } => FrameView::Resolving { entity: *entity },
            Frame::Composing { owner, product, pending } => FrameView::Composing {
                owner: *owner,
                product: *product,
                pending: views(pending@),
            },
        }
    }
}

spec fn frames<L>(s: Seq<Frame<L>>) -> Seq<FrameView<L>> {
    Seq::new(s.len(), |i: int| s[i]@)
}

/// Whether `text` reads `literal`.
fn reads(text: &String, literal: &str) -> (r: bool)
    ensures
        r == (text@ == literal@),
{
    let owned: String = literal.to_owned();
    *text == owned
}

/// Resolves the `transform` property of entities to matrices and remembers
/// the results.
pub struct TransformSubSystem<L> {
    cached_transforms: HashMap<EntityId, Matrix>,
    stack: Vec<Frame<L>>,
    awaiting: Awaiting,
    queue: Vec<EntityId>,
    outcomes: Vec<Outcome>,
}

impl<L> View for TransformSubSystem<L> {
    type V = State<L>;

    closed spec fn view(&self) -> State<L> {
        State {
            cache: self.cached_transforms@,
            stack: frames(self.stack@),
            awaiting: self.awaiting,
            queue: self.queue@,
            outcomes: self.outcomes@,
        }
    }
}

impl<L> TransformSubSystem<L> {
    /// A subsystem that has resolved nothing yet.
    pub fn new() -> (subsystem: TransformSubSystem<L>)
        ensures
            subsystem@ == State::<L>::initial(),
            subsystem@.wf(),
    {
        let subsystem = TransformSubSystem {
            cached_transforms: HashMap::new(),
            stack: Vec::new(),
            awaiting: Awaiting::Nothing,
            queue: Vec::new(),
            outcomes: Vec::new(),
        };
        assert(subsystem@.stack =~= Seq::empty());
        subsystem
    }

    /// Whether no request is outstanding.
    pub fn is_idle(&self) -> (idle: bool)
        ensures
            idle == self@.idle(),
    {
        match self.awaiting {
            Awaiting::Nothing => true,
            _ => false,
        }
    }

    /// The remembered transform of `entity`, if there is one.
    pub fn cached(&self, entity: EntityId) -> (value: Option<Matrix>)
        ensures
            value == if self@.cache.contains_key(entity) {
                Some(self@.cache[entity])
            } else {
                None
            },
    {
        match self.cached_transforms.get(&entity) {
            Some(value) => Some(*value),
            None => None,
        }
    }

    /// Takes up the queued entities until one needs the host.
    fn advance(&mut self) -> (request: Request<L>)
        ensures
            (final(self)@, request@) == old(self)@.advance(),
    {
        loop
            invariant
                self@.advance() == old(self)@.advance(),
            decreases self.queue.len(),
        {
            if self.queue.len() == 0 {
                let mut outcomes: Vec<Outcome> = Vec::new();
                std::mem::swap(&mut outcomes, &mut self.outcomes);
                self.awaiting = Awaiting::Nothing;
                return Request::Done { outcomes };
            }
            let ghost queued = self.queue@;
            let entity = self.queue.remove(0);
            assert(self.queue@ =~= queued.drop_first());
            match self.cached_transforms.get(&entity) {
                Some(value) => {
                    let value = *value;
                    self.outcomes.push(Outcome { entity, result: Ok(value) });
                },
                None => {
                    self.stack.clear();
                    self.stack.push(Frame::Resolving { entity });
                    self.awaiting = Awaiting::Property { entity };
                    assert(self@.stack =~= seq![FrameView::Resolving { entity }]);
                    return Request::ReadTransform { entity };
                },
            }
        }
    }

    /// Gives up the resolution in progress and goes on with the queue.
    fn fail(&mut self, error: ResolveError) -> (request: Request<L>)
        ensures
            (final(self)@, request@) == old(self)@.fail(error),
    {
        if self.stack.len() > 0 {
            match &self.stack[0] {
                Frame::Resolving { entity } => {
                    let entity = *entity;
                    self.outcomes.push(Outcome { entity, result: Err(error) });
                },
                _ => {},
            }
        }
        self.stack.clear();
        assert(self@.stack =~= Seq::empty());
        self.advance()
    }

    /// Hands `value` to the innermost frame.
    fn deliver(&mut self, value: Matrix) -> (request: Request<L>)
        ensures
            (final(self)@, request@) == old(self)@.deliver(value),
    {
        let depth = self.stack.len();
        if depth == 0 {
            return self.fail(ResolveError::UnexpectedEvent);
        }
        match &self.stack[depth - 1] {
            Frame::Resolving { entity } => {
                let entity = *entity;
                self.awaiting = Awaiting::Written { entity, value };
                Request::WriteBack { entity, value }
            },
            Frame::Composing { product, .. } => {
                let left = *product;
                self.awaiting = Awaiting::Product { left, right: value };
                Request::Multiply { left, right: value }
            },
        }
    }

    /// Starts the evaluation of `expression`, found in a property of `owner`.
    fn start(&mut self, owner: EntityId, expression: Expression<L>) -> (request: Request<L>)
        ensures
            (final(self)@, request@) == old(self)@.start(owner, expression@),
        decreases expression,
    {
        proof {
            lemma_view_items(expression);
        }
        match expression {
            Expression::Composite { tag, items, source } => {
                if reads(&tag, "mul") {
                    match items {
                        Some(mut items) => {
                            if items.len() == 0 {
                                self.deliver(Matrix::identity())
                            } else {
                                proof {
                                    lemma_views_drop_first(items@);
                                }
                                let first = items.remove(0);
                                self.stack.push(
                                    Frame::Composing {
                                        owner,
                                        product: Matrix::identity(),
                                        pending: items,
                                    },
                                );
                                assert(self@.stack =~= old(self)@.stack.push(self.stack@.last()@));
                                self.start(owner, first)
                            }
                        },
                        None => self.fail(ResolveError::TypeCoercion),
                    }
                } else {
                    self.awaiting = Awaiting::Coerced { owner };
                    Request::Coerce { owner, expression: source }
                }
            },
            Expression::Reference { key, source } => {
                if reads(&key, "transform") {
                    self.awaiting = Awaiting::Target { owner };
                    Request::Locate { owner, reference: source }
                } else {
                    self.awaiting = Awaiting::Coerced { owner };
                    Request::Coerce { owner, expression: source }
                }
            },
            Expression::Value { source } => {
                self.awaiting = Awaiting::Coerced { owner };
                Request::Coerce { owner, expression: source }
            },
        }
    }

    /// Whether the transform of `entity` is being resolved.
    fn is_resolving(&self, entity: EntityId) -> (found: bool)
        ensures
            found == self@.resolving(entity),
    {
        let mut i: usize = 0;
        while i < self.stack.len()
            invariant
                i <= self.stack.len(),
                forall|j: int|
                    0 <= j < i ==> self@.stack[j] != (FrameView::<L>::Resolving { entity }),
            decreases self.stack.len() - i,
        {
            match &self.stack[i] {
                Frame::Resolving { entity: other } => {
                    if *other == entity {
                        assert(self@.stack[i as int] == (FrameView::<L>::Resolving { entity }));
                        return true;
                    }
                },
                _ => {},
            }
            i += 1;
        }
        false
    }

    /// Turns to the transform of `entity`, which a reference named.
    fn enter(&mut self, entity: EntityId) -> (request: Request<L>)
        ensures
            (final(self)@, request@) == old(self)@.enter(entity),
    {
        let cached = self.cached(entity);
        match cached {
            Some(value) => self.deliver(value),
            None => {
                if self.is_resolving(entity) {
                    self.fail(ResolveError::Cycle)
                } else {
                    self.stack.push(Frame::Resolving { entity });
                    self.awaiting = Awaiting::Property { entity };
                    assert(self@.stack =~= old(self)@.stack.push(FrameView::Resolving { entity }));
                    Request::ReadTransform { entity }
                }
            },
        }
    }

    /// Takes `product` as the product of the innermost `mul` node and goes on
    /// with the node's next item.
    fn compose(&mut self, product: Matrix) -> (request: Request<L>)
        ensures
            (final(self)@, request@) == old(self)@.compose(product),
    {
        match self.stack.pop() {
            Some(Frame::Composing { owner, product: _, pending }) => {
                let mut pending = pending;
                assert(self@.stack =~= old(self)@.stack.drop_last());
                if pending.len() == 0 {
                    self.deliver(product)
                } else {
                    proof {
                        lemma_views_drop_first(pending@);
                    }
                    let next = pending.remove(0);
                    self.stack.push(Frame::Composing { owner, product, pending });
                    assert(self@.stack =~= old(self)@.stack.drop_last().push(self.stack@.last()@));
                    self.start(owner, next)
                }
            },
            Some(frame) => {
                self.stack.push(frame);
                assert(self@.stack =~= old(self)@.stack);
                self.fail(ResolveError::UnexpectedEvent)
            },
            None => {
                assert(self@.stack =~= old(self)@.stack);
                self.fail(ResolveError::UnexpectedEvent)
            },
        }
    }

    /// Remembers `value`, which was written back, as the transform of
    /// `entity`, and hands it on.
    fn settle(&mut self, entity: EntityId, value: Matrix) -> (request: Request<L>)
        ensures
            (final(self)@, request@) == old(self)@.settle(entity, value),
    {
        if self.stack.len() == 0 {
            return self.fail(ResolveError::UnexpectedEvent);
        }
        self.stack.pop();
        self.cached_transforms.insert(entity, value);
        assert(self@.stack =~= old(self)@.stack.drop_last());
        if self.stack.len() == 0 {
            self.outcomes.push(Outcome { entity, result: Ok(value) });
            self.advance()
        } else {
            self.deliver(value)
        }
    }

    /// Takes the host's answer to the outstanding request and returns the
    /// next request.
    pub fn resume(&mut self, event: Event<L>) -> (request: Request<L>)
        ensures
            (final(self)@, request@) == old(self)@.resume(event@),
            old(self)@.wf() ==> final(self)@.wf(),
    {
        proof {
            if self@.wf() {
                lemma_resume_wf(self@, event@);
            }
        }
        match self.awaiting {
            Awaiting::Nothing => Request::Done { outcomes: Vec::new() },
            Awaiting::Property { entity } => match event {
                Event::Property(Some(expression)) => self.start(entity, expression),
                Event::Property(None) => self.fail(ResolveError::PropertyNotFound),
                _ => self.fail(ResolveError::UnexpectedEvent),
            },
            Awaiting::Target { .. } => match event {
                Event::Target(Some(entity)) => self.enter(entity),
                Event::Target(None) => self.fail(ResolveError::ReferenceResolution),
                _ => self.fail(ResolveError::UnexpectedEvent),
            },
            Awaiting::Coerced { .. } => match event {
                Event::Coerced(Ok(value)) => self.deliver(value),
                Event::Coerced(Err(CoerceError::Dependency)) => self.fail(
                    ResolveError::ReferenceResolution,
                ),
                Event::Coerced(Err(CoerceError::TypeMismatch)) => self.fail(
                    ResolveError::TypeCoercion,
                ),
                _ => self.fail(ResolveError::UnexpectedEvent),
            },
            Awaiting::Product { .. } => match event {
                Event::Product(product) => self.compose(product),
                _ => self.fail(ResolveError::UnexpectedEvent),
            },
            Awaiting::Written { entity, value } => match event {
                Event::Written(true) => self.settle(entity, value),
                Event::Written(false) => self.fail(ResolveError::WriteBack),
                _ => self.fail(ResolveError::UnexpectedEvent),
            },
        }
    }

    /// Resolves the transform of the entity `entity_id`. The transform comes
    /// back as the entity's outcome in the final [`Request::Done`].
    pub fn get_entity_transform(&mut self, entity_id: EntityId) -> (request: Request<L>)
        requires
            old(self)@.idle(),
        ensures
            (final(self)@, request@) == old(self)@.get_entity_transform(entity_id),
            old(self)@.wf() ==> final(self)@.wf(),
    {
        proof {
            if self@.wf() {
                lemma_get_entity_transform_wf(self@, entity_id);
            }
        }
        self.queue.clear();
        self.queue.push(entity_id);
        assert(self@.queue =~= seq![entity_id]);
        self.advance()
    }

    /// Forgets the transform of every entity whose `transform` property is
    /// among `prop_refs`, then resolves each of them again, in order.
    pub fn on_property_value_change(&mut self, prop_refs: &Vec<PropRef>) -> (request: Request<L>)
        requires
            old(self)@.idle(),
        ensures
            (final(self)@, request@) == old(self)@.on_property_value_change(prop_refs@),
            old(self)@.wf() ==> final(self)@.wf(),
    {
        proof {
            if self@.wf() {
                lemma_on_property_value_change_wf(self@, prop_refs@);
            }
        }
        self.queue.clear();
        let mut i: usize = 0;
        while i < prop_refs.len()
            invariant
                i <= prop_refs.len(),
                self.queue@ == transform_entities(prop_refs@.take(i as int)),
                self@.cache == old(self)@.cache.remove_keys(self.queue@.to_set()),
                self@.stack == old(self)@.stack,
                self@.awaiting == old(self)@.awaiting,
                self@.outcomes == old(self)@.outcomes,
            decreases prop_refs.len() - i,
        {
            assert(prop_refs@.take(i + 1).drop_last() =~= prop_refs@.take(i as int));
            if reads(&prop_refs[i].property_key, "transform") {
                let entity = prop_refs[i].entity_id;
                let ghost queued = self.queue@;
                self.cached_transforms.remove(&entity);
                self.queue.push(entity);
                proof {
                    queued.lemma_push_to_set_commute(entity);
                    assert(self@.cache =~= old(self)@.cache.remove_keys(self.queue@.to_set()));
                }
            }
            i += 1;
        }
        assert(prop_refs@.take(i as int) =~= prop_refs@);
        self.advance()
    }
}

} // verus!
