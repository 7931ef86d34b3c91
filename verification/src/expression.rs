//! Transform expressions as the subsystem reads them.

use vstd::prelude::*;

verus! {

/// Identifier of an entity in the host document.
pub type EntityId = u64;

/// An expression tree.
///
/// `L` is the host's own representation of an expression node. The subsystem
/// never inspects it; it only hands a node's `source` back to the host when
/// the host has to resolve or coerce that node.
#[derive(Debug, PartialEq, Eq)]
pub enum Expression<L> {
    /// A typed node: a tag and a payload. `items` holds the payload's
    /// sub-expressions in order when the payload is a sequence.
    Composite { tag: String, items: Option<Vec<Expression<L>>>, source: L },
    /// A reference to the property `key` of some entity.
    Reference { key: String, source: L },
    /// Anything else.
    Value { source: L },
}

/// Mathematical form of an [`Expression`].
pub enum Expr<L> {
    Composite { tag: Seq<char>, items: Option<Seq<Expr<L>>>, source: L },
    Reference { key: Seq<char>, source: L },
    Value { source: L },
}

impl<L> Expression<L> {
    /// The mathematical form of the expression.
    pub open spec fn model(self) -> Expr<L>
        decreases self,
    {
        match self {
            Expression::Composite { tag, items, source } => Expr::Composite {
                tag: tag@,
                items: match items {
                    Some(v) => Some(
                        Seq::new(
                            v@.len(),
                            |i: int|
                                if 0 <= i < v@.len() {
                                    v@[i].model()
                                } else {
                                    arbitrary()
                                },
                        ),
                    ),
                    None => None,
                },
                source,
            },
            Expression::Reference { key, source } => Expr::Reference { key: key@, source },
            Expression::Value { source } => Expr::Value { source },
        }
    }
}

impl<L> View for Expression<L> {
    type V = Expr<L>;

    open spec fn view(&self) -> Expr<L> {
        self.model()
    }
}

/// The mathematical forms of the expressions in `s`, in order.
pub open spec fn views<L>(s: Seq<Expression<L>>) -> Seq<Expr<L>> {
    Seq::new(s.len(), |i: int| s[i]@)
}

/// The items of a composite node's view are the views of its items.
pub proof fn lemma_view_items<L>(expression: Expression<L>)
    ensures
        match expression {
            Expression::Composite { tag, items, source } => expression@ == (Expr::Composite {
                tag: tag@,
                items: match items {
                    Some(v) => Some(views(v@)),
                    None => None,
                },
                source,
            }),
            Expression::Reference { key, source } => expression@ == (Expr::Reference {
                key: key@,
                source,
            }),
            Expression::Value { source } => expression@ == (Expr::Value { source }),
        },
{
    match expression {
        Expression::Composite { tag, items: Some(v), source } => {
            let items = expression@->items->0;
            assert(items.len() == v@.len());
            assert(items =~= views(v@));
        },
        _ => {},
    }
}

/// Dropping the first item commutes with taking views.
pub proof fn lemma_views_drop_first<L>(s: Seq<Expression<L>>)
    requires
        s.len() > 0,
    ensures
        views(s.remove(0)) == views(s).drop_first(),
        views(s)[0] == s[0]@,
{
    assert(views(s.remove(0)) =~= views(s).drop_first());
}

} // verus!
