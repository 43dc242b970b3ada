//! A world seen through one resolved query.
use vstd::prelude::*;

use crate::archetype::{row_views, Row};
use crate::entity::Entity;
use crate::world::{option_view, QueryId, World};

verus! {

/// Shared access to a world through one query.
pub struct WithQuery<'a, C> {
    world: &'a World<C>,
    query: QueryId,
}

impl<'a, C> WithQuery<'a, C> {
    #[verifier::type_invariant]
    spec fn inv(self) -> bool {
        self.world.wf()
    }

    /// The world looked at.
    pub closed spec fn world(&self) -> World<C> {
        *self.world
    }

    /// The query looked through.
    pub closed spec fn query(&self) -> QueryId {
        self.query
    }

    /// Every row that the query spans, the matching archetypes in
    /// declaration order, each in dense order.
    pub fn iter(&self) -> (rows: Vec<Row<'a, C>>)
        ensures
            row_views(rows@) == self.world()@.rows(self.query()),
    {
        proof {
            use_type_invariant(self);
        }
        self.world.query(self.query)
    }

    /// The row of one entity.
    pub fn get(&self, e: Entity) -> (r: Option<Row<'a, C>>)
        ensures
            option_view(r) == self.world()@.get(self.query(), e),
    {
        proof {
            use_type_invariant(self);
        }
        self.world.get(self.query, e)
    }

    /// The number of entities that the query spans.
    pub fn len(&self) -> (n: usize)
        ensures
            n == self.world()@.len(self.query()),
    {
        proof {
            use_type_invariant(self);
        }
        self.world.len(self.query)
    }

    /// The row at an absolute position of the query's iteration order.
    pub fn at(&self, index: usize) -> (r: Option<Row<'a, C>>)
        ensures
            option_view(r) == self.world()@.at(self.query(), index as int),
    {
        proof {
            use_type_invariant(self);
        }
        self.world.at(self.query, index)
    }

    /// Whether the query spans no entity.
    pub fn is_empty(&self) -> (r: bool)
        ensures
            r == (self.world()@.len(self.query()) == 0),
    {
        proof {
            use_type_invariant(self);
        }
        self.world.is_empty(self.query)
    }
}

impl<'a, C: Sync> WithQuery<'a, C> {
    /// Every row that the query spans, looked up in parallel, in the order
    /// of `iter`.
    pub fn par_iter(&self) -> (rows: Vec<Row<'a, C>>)
        ensures
            row_views(rows@) == self.world()@.rows(self.query()),
    {
        proof {
            use_type_invariant(self);
        }
        self.world.par_query(self.query)
    }
}

impl<C> World<C> {
    /// This world seen through one query.
    pub fn with_query<'a>(&'a self, query: QueryId) -> (r: WithQuery<'a, C>)
        requires
            self.wf(),
        ensures
            r.world() == *self,
            r.query() == query,
    {
        WithQuery { world: self, query }
    }
}

} // verus!
