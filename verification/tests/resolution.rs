use std::collections::HashMap;

use cgmath::{Deg, Matrix4, SquareMatrix, Vector3};
use transform_subsystem::expression::{EntityId, Expression};
use transform_subsystem::matrix::{Column, Matrix};
use transform_subsystem::protocol::{CoerceError, Event, Outcome, PropRef, Request, ResolveError};
use transform_subsystem::subsystem::TransformSubSystem;

/// An expression as the test document stores it.
#[derive(Clone, Debug, PartialEq)]
enum Node {
    Typed(String, Box<Node>),
    Array(Vec<Node>),
    Dependency(Path, String),
    Literal(Matrix4<f32>),
    Text(String),
}

/// How a dependency names its entity.
#[derive(Clone, Debug, PartialEq)]
enum Path {
    Entity(EntityId),
    Dangling,
}

/// The expression that the subsystem is given for a stored node.
fn expression(node: &Node) -> Expression<Node> {
    match node {
        Node::Typed(tag, data) => Expression::Composite {
            tag: tag.clone(),
            items: match &**data {
                Node::Array(items) => Some(items.iter().map(expression).collect()),
                _ => None,
            },
            source: node.clone(),
        },
        Node::Dependency(_, key) => Expression::Reference { key: key.clone(), source: node.clone() },
        _ => Expression::Value { source: node.clone() },
    }
}

fn column(x: f32, y: f32, z: f32, w: f32) -> Column {
    Column { x: x.to_bits(), y: y.to_bits(), z: z.to_bits(), w: w.to_bits() }
}

fn pack(m: Matrix4<f32>) -> Matrix {
    Matrix {
        x: column(m.x.x, m.x.y, m.x.z, m.x.w),
        y: column(m.y.x, m.y.y, m.y.z, m.y.w),
        z: column(m.z.x, m.z.y, m.z.z, m.z.w),
        w: column(m.w.x, m.w.y, m.w.z, m.w.w),
    }
}

fn unpack(m: Matrix) -> Matrix4<f32> {
    Matrix4::new(
        f32::from_bits(m.x.x), f32::from_bits(m.x.y), f32::from_bits(m.x.z), f32::from_bits(m.x.w),
        f32::from_bits(m.y.x), f32::from_bits(m.y.y), f32::from_bits(m.y.z), f32::from_bits(m.y.w),
        f32::from_bits(m.z.x), f32::from_bits(m.z.y), f32::from_bits(m.z.z), f32::from_bits(m.z.w),
        f32::from_bits(m.w.x), f32::from_bits(m.w.y), f32::from_bits(m.w.z), f32::from_bits(m.w.w),
    )
}

fn literal(m: Matrix4<f32>) -> Node {
    Node::Literal(m)
}

fn mul(items: Vec<Node>) -> Node {
    Node::Typed("mul".to_string(), Box::new(Node::Array(items)))
}

fn transform_of(entity: EntityId) -> Node {
    Node::Dependency(Path::Entity(entity), "transform".to_string())
}

fn typed(tag: &str, data: Node) -> Node {
    Node::Typed(tag.to_string(), Box::new(data))
}

fn dependency(entity: EntityId, key: &str) -> Node {
    Node::Dependency(Path::Entity(entity), key.to_string())
}

fn dangling(key: &str) -> Node {
    Node::Dependency(Path::Dangling, key.to_string())
}

fn changed(entity: EntityId, key: &str) -> PropRef {
    PropRef { entity_id: entity, property_key: key.to_string() }
}

/// A document in memory that records what was asked of it.
struct Document {
    transforms: HashMap<EntityId, Node>,
    transformed: HashMap<EntityId, Matrix>,
    read_only: bool,
    reads: Vec<EntityId>,
    products: Vec<(Matrix, Matrix)>,
}

impl Document {
    fn new() -> Document {
        Document {
            transforms: HashMap::new(),
            transformed: HashMap::new(),
            read_only: false,
            reads: Vec::new(),
            products: Vec::new(),
        }
    }

    fn answer(&mut self, request: Request<Node>) -> Result<Event<Node>, Vec<Outcome>> {
        match request {
            Request::ReadTransform { entity } => {
                self.reads.push(entity);
                Ok(Event::Property(self.transforms.get(&entity).map(expression)))
            }
            Request::Locate { reference, .. } => Ok(Event::Target(match reference {
                Node::Dependency(Path::Entity(entity), _) => Some(entity),
                _ => None,
            })),
            Request::Coerce { expression, .. } => Ok(Event::Coerced(match expression {
                Node::Literal(m) => Ok(pack(m)),
                Node::Dependency(Path::Entity(entity), key) if key == "transformed" => {
                    match self.transformed.get(&entity) {
                        Some(m) => Ok(*m),
                        None => Err(CoerceError::Dependency),
                    }
                }
                Node::Dependency(..) => Err(CoerceError::Dependency),
                _ => Err(CoerceError::TypeMismatch),
            })),
            Request::Multiply { left, right } => {
                self.products.push((left, right));
                Ok(Event::Product(pack(unpack(left) * unpack(right))))
            }
            Request::WriteBack { entity, value } => {
                if self.read_only {
                    Ok(Event::Written(false))
                } else {
                    self.transformed.insert(entity, value);
                    Ok(Event::Written(true))
                }
            }
            Request::Done { outcomes } => Err(outcomes),
        }
    }

    fn run(&mut self, subsystem: &mut TransformSubSystem<Node>, first: Request<Node>) -> Vec<Outcome> {
        let mut request = first;
        loop {
            match self.answer(request) {
                Ok(event) => request = subsystem.resume(event),
                Err(outcomes) => return outcomes,
            }
        }
    }

    fn resolve(&mut self, subsystem: &mut TransformSubSystem<Node>, entity: EntityId) -> Result<Matrix, ResolveError> {
        assert!(subsystem.is_idle());
        let first = subsystem.get_entity_transform(entity);
        let outcomes = self.run(subsystem, first);
        assert_eq!(outcomes.len(), 1);
        assert_eq!(outcomes[0].entity, entity);
        outcomes[0].result
    }

    fn notify(&mut self, subsystem: &mut TransformSubSystem<Node>, refs: Vec<PropRef>) -> Vec<Outcome> {
        assert!(subsystem.is_idle());
        let first = subsystem.on_property_value_change(&refs);
        self.run(subsystem, first)
    }
}

fn translation(x: f32, y: f32, z: f32) -> Matrix4<f32> {
    Matrix4::from_translation(Vector3::new(x, y, z))
}

fn rotation_x() -> Matrix4<f32> {
    Matrix4::from_angle_x(Deg(90.0f32))
}

fn rotation_y() -> Matrix4<f32> {
    Matrix4::from_angle_y(Deg(90.0f32))
}

fn unit() -> Matrix4<f32> {
    Matrix4::<f32>::identity()
}

#[test]
fn identity_has_the_cells_of_the_unit_matrix() {
    assert_eq!(Matrix::identity(), pack(unit()));
    assert_eq!(unpack(Matrix::identity()), unit());
    assert_eq!(Matrix::identity().x.x, 0x3F80_0000);
    assert_eq!(Matrix::identity().y.x, 0);
    assert_eq!(Matrix::identity().w.w, 1.0f32.to_bits());
}

#[test]
fn a_new_subsystem_is_idle_and_remembers_nothing() {
    let subsystem: TransformSubSystem<Node> = TransformSubSystem::new();
    assert!(subsystem.is_idle());
    assert_eq!(subsystem.cached(1), None);
}

#[test]
fn empty_mul_is_identity() {
    let mut document = Document::new();
    document.transforms.insert(1, mul(vec![]));
    let mut subsystem = TransformSubSystem::new();
    let value = document.resolve(&mut subsystem, 1);
    assert_eq!(value, Ok(Matrix::identity()));
    assert!(document.products.is_empty());
    assert_eq!(document.transformed.get(&1), Some(&Matrix::identity()));
}

#[test]
fn mul_multiplies_in_sequence_order() {
    let a = rotation_x();
    let b = rotation_y();
    assert_ne!(a * b, b * a);
    let mut document = Document::new();
    document.transforms.insert(1, mul(vec![literal(a), literal(b)]));
    let mut subsystem = TransformSubSystem::new();
    let value = document.resolve(&mut subsystem, 1).unwrap();
    assert_eq!(value, pack((unit() * a) * b));
    assert_ne!(value, pack((unit() * b) * a));
    assert_eq!(
        document.products,
        vec![(Matrix::identity(), pack(a)), (pack(unit() * a), pack(b))]
    );
}

#[test]
fn nested_mul_folds_the_inner_node_first() {
    let a = rotation_x();
    let b = translation(1.0, 2.0, 3.0);
    let c = rotation_y();
    let mut document = Document::new();
    document.transforms.insert(1, mul(vec![literal(a), mul(vec![literal(b), literal(c)])]));
    let mut subsystem = TransformSubSystem::new();
    let value = document.resolve(&mut subsystem, 1).unwrap();
    let inner = (unit() * b) * c;
    assert_eq!(value, pack((unit() * a) * inner));
    assert_eq!(
        document.products,
        vec![
            (Matrix::identity(), pack(a)),
            (Matrix::identity(), pack(b)),
            (pack(unit() * b), pack(c)),
            (pack(unit() * a), pack(inner)),
        ]
    );
}

#[test]
fn empty_mul_inside_mul_is_multiplied_as_identity() {
    let a = translation(4.0, 5.0, 6.0);
    let mut document = Document::new();
    document.transforms.insert(1, mul(vec![literal(a), mul(vec![])]));
    let mut subsystem = TransformSubSystem::new();
    let value = document.resolve(&mut subsystem, 1).unwrap();
    assert_eq!(value, pack((unit() * a) * unit()));
    assert_eq!(
        document.products,
        vec![(Matrix::identity(), pack(a)), (pack(unit() * a), Matrix::identity())]
    );
}

#[test]
fn end_to_end_example() {
    let t1 = translation(1.0, 2.0, 3.0);
    let t2 = translation(10.0, 0.0, -4.0);
    let mut document = Document::new();
    document.transforms.insert(1, literal(t1));
    document.transforms.insert(2, mul(vec![transform_of(1), literal(t2)]));
    let mut subsystem = TransformSubSystem::new();
    let b = document.resolve(&mut subsystem, 2).unwrap();
    assert_eq!(unpack(b), t1 * t2);
    assert_eq!(unpack(b), translation(11.0, 2.0, -1.0));
    assert_eq!(document.reads, vec![2, 1]);
    let a = document.resolve(&mut subsystem, 1).unwrap();
    assert_eq!(a, pack(t1));
    assert_eq!(document.reads, vec![2, 1]);
    assert_eq!(document.transformed.get(&1), Some(&pack(t1)));
    assert_eq!(document.transformed.get(&2), Some(&b));
}

#[test]
fn a_literal_is_coerced_written_back_and_remembered() {
    let t = translation(7.0, 8.0, 9.0);
    let mut document = Document::new();
    document.transforms.insert(5, literal(t));
    let mut subsystem = TransformSubSystem::new();
    assert_eq!(document.resolve(&mut subsystem, 5), Ok(pack(t)));
    assert_eq!(document.transformed.get(&5), Some(&pack(t)));
    assert_eq!(subsystem.cached(5), Some(pack(t)));
    assert!(document.products.is_empty());
    assert!(subsystem.is_idle());
}

#[test]
fn write_back_holds_what_resolution_returns() {
    let mut document = Document::new();
    document.transforms.insert(1, mul(vec![literal(rotation_x()), literal(rotation_y())]));
    document.transforms.insert(2, mul(vec![transform_of(1), literal(translation(1.0, 0.0, 0.0))]));
    let mut subsystem = TransformSubSystem::new();
    let two = document.resolve(&mut subsystem, 2).unwrap();
    assert_eq!(document.transformed.get(&2), Some(&two));
    let one = document.resolve(&mut subsystem, 1).unwrap();
    assert_eq!(document.transformed.get(&1), Some(&one));
    assert_eq!(document.transformed.len(), 2);
}

#[test]
fn a_remembered_transform_is_served_until_a_change_is_notified() {
    let old = translation(1.0, 0.0, 0.0);
    let new = translation(0.0, 1.0, 0.0);
    let mut document = Document::new();
    document.transforms.insert(1, literal(old));
    let mut subsystem = TransformSubSystem::new();
    assert_eq!(document.resolve(&mut subsystem, 1), Ok(pack(old)));
    document.transforms.insert(1, literal(new));
    assert_eq!(document.resolve(&mut subsystem, 1), Ok(pack(old)));
    assert_eq!(document.reads, vec![1]);
    let outcomes = document.notify(&mut subsystem, vec![changed(1, "transform")]);
    assert_eq!(outcomes, vec![Outcome { entity: 1, result: Ok(pack(new)) }]);
    assert_eq!(document.reads, vec![1, 1]);
    assert_eq!(document.resolve(&mut subsystem, 1), Ok(pack(new)));
    assert_eq!(document.reads, vec![1, 1]);
    assert_eq!(document.transformed.get(&1), Some(&pack(new)));
}

#[test]
fn a_referenced_transform_is_evaluated_once() {
    let y = translation(2.0, 0.0, 0.0);
    let mut document = Document::new();
    document.transforms.insert(1, mul(vec![transform_of(2), transform_of(2)]));
    document.transforms.insert(2, literal(y));
    let mut subsystem = TransformSubSystem::new();
    let x = document.resolve(&mut subsystem, 1).unwrap();
    assert_eq!(x, pack((unit() * y) * y));
    assert_eq!(document.reads, vec![1, 2]);
    assert_eq!(subsystem.cached(2), Some(pack(y)));
    assert_eq!(document.resolve(&mut subsystem, 2), Ok(pack(y)));
    assert_eq!(document.reads, vec![1, 2]);
    let outcomes = document.notify(&mut subsystem, vec![changed(2, "transform")]);
    assert_eq!(outcomes, vec![Outcome { entity: 2, result: Ok(pack(y)) }]);
    assert_eq!(document.reads, vec![1, 2, 2]);
}

#[test]
fn a_batch_forgets_every_named_entity_before_it_resolves_any() {
    let old_y = translation(1.0, 0.0, 0.0);
    let new_y = translation(0.0, 0.0, 5.0);
    let t = rotation_x();
    let mut document = Document::new();
    document.transforms.insert(1, mul(vec![transform_of(2), literal(t)]));
    document.transforms.insert(2, literal(old_y));
    let mut subsystem = TransformSubSystem::new();
    assert_eq!(document.resolve(&mut subsystem, 1), Ok(pack((unit() * old_y) * t)));
    document.transforms.insert(2, literal(new_y));
    let outcomes = document.notify(
        &mut subsystem,
        vec![changed(1, "transform"), changed(2, "transform")],
    );
    assert_eq!(
        outcomes,
        vec![
            Outcome { entity: 1, result: Ok(pack((unit() * new_y) * t)) },
            Outcome { entity: 2, result: Ok(pack(new_y)) },
        ]
    );
    assert_eq!(document.reads, vec![1, 2, 1, 2]);
    assert_eq!(document.resolve(&mut subsystem, 1), Ok(pack((unit() * new_y) * t)));
    assert_eq!(document.transformed.get(&1), Some(&pack((unit() * new_y) * t)));
    assert_eq!(document.transformed.get(&2), Some(&pack(new_y)));
}

#[test]
fn a_notification_acts_on_the_transform_key_only() {
    let t = translation(1.0, 1.0, 1.0);
    let mut document = Document::new();
    document.transforms.insert(1, literal(t));
    document.transforms.insert(2, literal(t));
    let mut subsystem = TransformSubSystem::new();
    assert_eq!(document.resolve(&mut subsystem, 1), Ok(pack(t)));
    let outcomes = document.notify(
        &mut subsystem,
        vec![changed(1, "color"), changed(2, "transformed"), changed(1, "Transform")],
    );
    assert_eq!(outcomes, vec![]);
    assert_eq!(document.reads, vec![1]);
    assert_eq!(subsystem.cached(1), Some(pack(t)));
    assert_eq!(subsystem.cached(2), None);
    assert_eq!(document.notify(&mut subsystem, vec![]), vec![]);
}

#[test]
fn a_notification_resolves_in_the_order_of_the_batch() {
    let mut document = Document::new();
    document.transforms.insert(3, literal(translation(3.0, 0.0, 0.0)));
    document.transforms.insert(1, literal(translation(1.0, 0.0, 0.0)));
    let mut subsystem = TransformSubSystem::new();
    let outcomes = document.notify(
        &mut subsystem,
        vec![changed(3, "transform"), changed(9, "mesh"), changed(1, "transform"), changed(3, "transform")],
    );
    assert_eq!(
        outcomes,
        vec![
            Outcome { entity: 3, result: Ok(pack(translation(3.0, 0.0, 0.0))) },
            Outcome { entity: 1, result: Ok(pack(translation(1.0, 0.0, 0.0))) },
            Outcome { entity: 3, result: Ok(pack(translation(3.0, 0.0, 0.0))) },
        ]
    );
    assert_eq!(document.reads, vec![3, 1]);
}

#[test]
fn a_failure_in_a_batch_does_not_stop_the_batch() {
    let t = translation(0.0, 2.0, 0.0);
    let mut document = Document::new();
    document.transforms.insert(2, literal(t));
    let mut subsystem = TransformSubSystem::new();
    let outcomes = document.notify(
        &mut subsystem,
        vec![changed(1, "transform"), changed(2, "transform")],
    );
    assert_eq!(
        outcomes,
        vec![
            Outcome { entity: 1, result: Err(ResolveError::PropertyNotFound) },
            Outcome { entity: 2, result: Ok(pack(t)) },
        ]
    );
    assert_eq!(subsystem.cached(1), None);
    assert_eq!(subsystem.cached(2), Some(pack(t)));
    assert!(subsystem.is_idle());
}

#[test]
fn a_failed_resolution_is_not_remembered_and_is_tried_again() {
    let t = translation(1.0, 2.0, 3.0);
    let mut document = Document::new();
    document.transforms.insert(1, mul(vec![literal(t), dangling("transform")]));
    let mut subsystem = TransformSubSystem::new();
    assert_eq!(document.resolve(&mut subsystem, 1), Err(ResolveError::ReferenceResolution));
    assert_eq!(subsystem.cached(1), None);
    assert_eq!(document.transformed.get(&1), None);
    assert_eq!(document.reads, vec![1]);
    assert_eq!(document.resolve(&mut subsystem, 1), Err(ResolveError::ReferenceResolution));
    assert_eq!(document.reads, vec![1, 1]);
    document.transforms.insert(1, mul(vec![literal(t)]));
    assert_eq!(document.resolve(&mut subsystem, 1), Ok(pack(unit() * t)));
    assert_eq!(document.reads, vec![1, 1, 1]);
    assert_eq!(subsystem.cached(1), Some(pack(unit() * t)));
}

#[test]
fn an_inner_success_stays_remembered_when_the_outer_resolution_fails() {
    let y = translation(2.0, 2.0, 2.0);
    let mut document = Document::new();
    document.transforms.insert(1, mul(vec![transform_of(2), Node::Text("north".to_string())]));
    document.transforms.insert(2, literal(y));
    let mut subsystem = TransformSubSystem::new();
    assert_eq!(document.resolve(&mut subsystem, 1), Err(ResolveError::TypeCoercion));
    assert_eq!(subsystem.cached(1), None);
    assert_eq!(subsystem.cached(2), Some(pack(y)));
    assert_eq!(document.transformed.get(&2), Some(&pack(y)));
    assert_eq!(document.transformed.get(&1), None);
}

#[test]
fn a_missing_property_is_property_not_found() {
    let mut document = Document::new();
    let mut subsystem = TransformSubSystem::new();
    assert_eq!(document.resolve(&mut subsystem, 4), Err(ResolveError::PropertyNotFound));
    assert_eq!(subsystem.cached(4), None);
}

#[test]
fn a_missing_property_behind_a_reference_is_property_not_found() {
    let mut document = Document::new();
    document.transforms.insert(1, transform_of(2));
    let mut subsystem = TransformSubSystem::new();
    assert_eq!(document.resolve(&mut subsystem, 1), Err(ResolveError::PropertyNotFound));
    assert_eq!(document.reads, vec![1, 2]);
    assert_eq!(subsystem.cached(1), None);
    assert_eq!(subsystem.cached(2), None);
}

#[test]
fn an_unresolvable_dependency_is_reference_resolution() {
    let mut document = Document::new();
    document.transforms.insert(1, dangling("position"));
    let mut subsystem = TransformSubSystem::new();
    assert_eq!(document.resolve(&mut subsystem, 1), Err(ResolveError::ReferenceResolution));
}

#[test]
fn a_value_that_is_no_matrix_is_type_coercion() {
    let mut document = Document::new();
    document.transforms.insert(1, Node::Text("up".to_string()));
    let mut subsystem = TransformSubSystem::new();
    assert_eq!(document.resolve(&mut subsystem, 1), Err(ResolveError::TypeCoercion));
}

#[test]
fn mul_over_something_that_is_no_sequence_is_type_coercion() {
    let mut document = Document::new();
    document.transforms.insert(1, typed("mul", literal(unit())));
    let mut subsystem = TransformSubSystem::new();
    assert_eq!(document.resolve(&mut subsystem, 1), Err(ResolveError::TypeCoercion));
    assert!(document.products.is_empty());
    assert_eq!(subsystem.cached(1), None);
}

#[test]
fn a_refused_write_is_write_back_and_is_not_remembered() {
    let t = translation(1.0, 0.0, 0.0);
    let mut document = Document::new();
    document.transforms.insert(1, literal(t));
    document.read_only = true;
    let mut subsystem = TransformSubSystem::new();
    assert_eq!(document.resolve(&mut subsystem, 1), Err(ResolveError::WriteBack));
    assert_eq!(subsystem.cached(1), None);
    document.read_only = false;
    assert_eq!(document.resolve(&mut subsystem, 1), Ok(pack(t)));
    assert_eq!(document.transformed.get(&1), Some(&pack(t)));
}

#[test]
fn a_transform_that_refers_to_itself_is_a_cycle() {
    let mut document = Document::new();
    document.transforms.insert(1, mul(vec![transform_of(1)]));
    let mut subsystem = TransformSubSystem::new();
    assert_eq!(document.resolve(&mut subsystem, 1), Err(ResolveError::Cycle));
    assert_eq!(document.reads, vec![1]);
    assert_eq!(subsystem.cached(1), None);
    assert!(subsystem.is_idle());
}

#[test]
fn transforms_that_refer_to_each_other_are_a_cycle() {
    let mut document = Document::new();
    document.transforms.insert(1, transform_of(2));
    document.transforms.insert(2, mul(vec![literal(unit()), transform_of(3)]));
    document.transforms.insert(3, transform_of(1));
    let mut subsystem = TransformSubSystem::new();
    assert_eq!(document.resolve(&mut subsystem, 1), Err(ResolveError::Cycle));
    assert_eq!(document.reads, vec![1, 2, 3]);
    assert_eq!(subsystem.cached(1), None);
    assert_eq!(subsystem.cached(2), None);
    assert_eq!(subsystem.cached(3), None);
    assert!(document.transformed.is_empty());
}

#[test]
fn a_composite_with_another_tag_is_left_to_the_host() {
    let t = translation(3.0, 4.0, 5.0);
    let mut document = Document::new();
    let node = typed("translate", Node::Array(vec![literal(t)]));
    document.transforms.insert(1, node.clone());
    let mut subsystem: TransformSubSystem<Node> = TransformSubSystem::new();
    let first = subsystem.get_entity_transform(1);
    assert_eq!(first, Request::ReadTransform { entity: 1 });
    let second = subsystem.resume(document.answer(first).unwrap());
    assert_eq!(second, Request::Coerce { owner: 1, expression: node });
    let third = subsystem.resume(Event::Coerced(Ok(pack(t))));
    assert_eq!(third, Request::WriteBack { entity: 1, value: pack(t) });
}

#[test]
fn a_reference_to_another_property_is_left_to_the_host() {
    let y = translation(0.0, 9.0, 0.0);
    let mut document = Document::new();
    document.transforms.insert(2, literal(y));
    document.transforms.insert(1, dependency(2, "transformed"));
    let mut subsystem = TransformSubSystem::new();
    assert_eq!(document.resolve(&mut subsystem, 1), Err(ResolveError::ReferenceResolution));
    assert_eq!(document.reads, vec![1]);
    assert_eq!(document.resolve(&mut subsystem, 2), Ok(pack(y)));
    assert_eq!(document.resolve(&mut subsystem, 1), Ok(pack(y)));
    assert_eq!(document.reads, vec![1, 2, 1]);
}

#[test]
fn the_owner_of_a_referenced_expression_is_the_referenced_entity() {
    let t = translation(1.0, 1.0, 0.0);
    let mut document = Document::new();
    document.transforms.insert(1, mul(vec![transform_of(2), literal(t)]));
    document.transforms.insert(2, literal(t));
    let mut subsystem: TransformSubSystem<Node> = TransformSubSystem::new();
    let mut request = subsystem.get_entity_transform(1);
    let mut asked = Vec::new();
    loop {
        match &request {
            Request::Locate { owner, .. } => asked.push(("locate", *owner)),
            Request::Coerce { owner, .. } => asked.push(("coerce", *owner)),
            Request::ReadTransform { entity } => asked.push(("read", *entity)),
            Request::WriteBack { entity, .. } => asked.push(("write", *entity)),
            Request::Multiply { .. } => asked.push(("multiply", 0)),
            Request::Done { .. } => break,
        }
        request = subsystem.resume(document.answer(request).unwrap());
    }
    assert_eq!(
        asked,
        vec![
            ("read", 1),
            ("locate", 1),
            ("read", 2),
            ("coerce", 2),
            ("write", 2),
            ("multiply", 0),
            ("coerce", 1),
            ("multiply", 0),
            ("write", 1),
        ]
    );
}

/// Resolution written as plain recursion over a document, to compare with.
struct Direct {
    transforms: HashMap<EntityId, Node>,
    transformed: HashMap<EntityId, Matrix>,
    cache: HashMap<EntityId, Matrix>,
}

impl Direct {
    fn resolve(&mut self, visiting: &mut Vec<EntityId>, entity: EntityId) -> Result<Matrix, ResolveError> {
        if let Some(value) = self.cache.get(&entity) {
            return Ok(*value);
        }
        if visiting.contains(&entity) {
            return Err(ResolveError::Cycle);
        }
        let node = match self.transforms.get(&entity) {
            Some(node) => node.clone(),
            None => return Err(ResolveError::PropertyNotFound),
        };
        visiting.push(entity);
        let value = self.evaluate(visiting, &node);
        visiting.pop();
        let value = value?;
        self.transformed.insert(entity, value);
        self.cache.insert(entity, value);
        Ok(value)
    }

    fn evaluate(&mut self, visiting: &mut Vec<EntityId>, node: &Node) -> Result<Matrix, ResolveError> {
        match node {
            Node::Typed(tag, data) if tag == "mul" => match &**data {
                Node::Array(items) => {
                    let mut product = unit();
                    for item in items {
                        let value = self.evaluate(visiting, item)?;
                        product = product * unpack(value);
                    }
                    Ok(pack(product))
                }
                _ => Err(ResolveError::TypeCoercion),
            },
            Node::Dependency(path, key) if key == "transform" => match path {
                Path::Entity(entity) => self.resolve(visiting, *entity),
                Path::Dangling => Err(ResolveError::ReferenceResolution),
            },
            Node::Literal(m) => Ok(pack(*m)),
            Node::Dependency(Path::Entity(entity), key) if key == "transformed" => {
                self.transformed.get(entity).copied().ok_or(ResolveError::ReferenceResolution)
            }
            Node::Dependency(..) => Err(ResolveError::ReferenceResolution),
            _ => Err(ResolveError::TypeCoercion),
        }
    }
}

/// A small generator of numbers, the same on every run.
struct Numbers(u64);

impl Numbers {
    fn next(&mut self, bound: u64) -> u64 {
        self.0 = self.0.wrapping_mul(6364136223846793005).wrapping_add(1442695040888963407);
        (self.0 >> 33) % bound
    }
}

fn some_node(numbers: &mut Numbers, entities: u64, depth: u32) -> Node {
    match numbers.next(if depth == 0 { 6 } else { 8 }) {
        0 => literal(translation(numbers.next(5) as f32, 1.0, 0.5)),
        1 => literal(Matrix4::from_angle_z(Deg(numbers.next(360) as f32))),
        2 | 3 => transform_of(numbers.next(entities + 1)),
        4 => dependency(numbers.next(entities), "transformed"),
        5 => match numbers.next(6) {
            0 => dangling("transform"),
            1 => Node::Text("text".to_string()),
            2 => typed("mul", Node::Text("text".to_string())),
            _ => typed("scale", Node::Array(vec![])),
        },
        _ => {
            let length = numbers.next(4);
            mul((0..length).map(|_| some_node(numbers, entities, depth - 1)).collect())
        }
    }
}

#[test]
fn resolution_agrees_with_direct_recursion() {
    let mut numbers = Numbers(2024);
    let mut successes = 0;
    let mut failures = 0;
    for _ in 0..300 {
        let entities = 1 + numbers.next(6);
        let mut document = Document::new();
        for entity in 0..entities {
            let node = some_node(&mut numbers, entities, 3);
            document.transforms.insert(entity, node);
        }
        let mut direct = Direct {
            transforms: document.transforms.clone(),
            transformed: HashMap::new(),
            cache: HashMap::new(),
        };
        let mut subsystem = TransformSubSystem::new();
        for _ in 0..(2 * entities) {
            let entity = numbers.next(entities + 1);
            let expected = direct.resolve(&mut Vec::new(), entity);
            let found = document.resolve(&mut subsystem, entity);
            assert_eq!(found, expected);
            if found.is_ok() {
                successes += 1;
            } else {
                failures += 1;
            }
            assert_eq!(document.transformed, direct.transformed);
            for other in 0..=entities {
                assert_eq!(subsystem.cached(other), direct.cache.get(&other).copied());
            }
        }
        let batch: Vec<EntityId> = (0..3).map(|_| numbers.next(entities)).collect();
        for entity in &batch {
            let node = some_node(&mut numbers, entities, 2);
            document.transforms.insert(*entity, node.clone());
            direct.transforms.insert(*entity, node);
        }
        for entity in &batch {
            direct.cache.remove(entity);
        }
        let expected: Vec<Outcome> = batch
            .iter()
            .map(|entity| Outcome { entity: *entity, result: direct.resolve(&mut Vec::new(), *entity) })
            .collect();
        let found = document.notify(
            &mut subsystem,
            batch.iter().map(|entity| changed(*entity, "transform")).collect(),
        );
        assert_eq!(found, expected);
        assert_eq!(document.transformed, direct.transformed);
        for other in 0..=entities {
            assert_eq!(subsystem.cached(other), direct.cache.get(&other).copied());
        }
    }
    assert!(successes > 100);
    assert!(failures > 100);
}
