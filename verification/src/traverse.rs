//! Traversals that write: a callback sees each row of a query and gives the
//! value that one of the row's components is to hold.
use vstd::prelude::*;

use crate::archetype::{Row, RowView};
use crate::world::{lemma_rows_len, QueryId, World, WorldModel};

verus! {

/// The callback, shown a row of this view, may give this value.
pub open spec fn gives<C, F: Fn(Row<C>) -> C>(f: F, seen: RowView<C>, value: C) -> bool {
    exists|row: Row<C>| row@ == seen && call_ensures(f, (row,), value)
}

/// One world comes of another by a traversal that writes these values: one
/// value for each row of the query, each given by the callback for the row as
/// it was, and each written to component `k` of its row.
pub open spec fn is_traversal<C, F: Fn(Row<C>) -> C>(
    f: F,
    before: WorldModel<C>,
    after: WorldModel<C>,
    query: QueryId,
    k: int,
    values: Seq<C>,
) -> bool {
    &&& values.len() == before.len(query)
    &&& after == before.set_each(query, k, values)
    &&& forall|i: int| 0 <= i < values.len() ==> gives(f, before.rows(query)[i], #[trigger] values[i])
}

impl<C> World<C> {
    /// Visits the rows of a query in iteration order and writes to component
    /// `k` of each what the callback gives for the row. The callback sees the
    /// row as it is when its turn comes, which is the row as it was before the
    /// traversal. Where the shape does not ask for component `k` with exclusive
    /// access, nothing is visited and nothing written.
    pub fn for_each_mut<F: Fn(Row<C>) -> C>(&mut self, query: QueryId, k: usize, f: F)
        requires
            old(self).wf(),
            forall|row: Row<C>| call_requires(f, (row,)),
        ensures
            final(self).wf(),
            !old(self)@.valid_query(query) || k >= old(self)@.mutable_count(query) ==> final(self)@
                == old(self)@,
            old(self)@.valid_query(query) && k < old(self)@.mutable_count(query) ==> exists|values: Seq<C>|
                is_traversal(f, old(self)@, final(self)@, query, k as int, values),
    {
        let ghost before = self@;
        let ghost mut values: Seq<C> = Seq::empty();
        proof {
            self.lemma_view_wf();
            lemma_rows_len(before.archetypes, before.parts(query));
        }
        if k >= self.mutable_count(query) {
            return ;
        }
        let n = self.len(query);
        let mut i: usize = 0;
        while i < n
            invariant
                i <= n,
                n == before.rows(query).len(),
                n == before.len(query),
                before.wf(),
                before.valid_query(query),
                k < before.mutable_count(query),
                forall|row: Row<C>| call_requires(f, (row,)),
                self.wf(),
                values.len() == i,
                self@ == before.set_each(query, k as int, values),
                forall|m: int| 0 <= m < i ==> gives(f, before.rows(query)[m], #[trigger] values[m]),
            decreases n - i,
        {
            proof {
                before.law_writes_keep_later_rows(query, k as int, values, i as int);
                lemma_rows_len(self@.archetypes, self@.parts(query));
            }
            let row = self.at(query, i).unwrap();
            let ghost seen = row;
            let value = f(row);
            assert(gives(f, before.rows(query)[i as int], value)) by {
                assert(seen@ == before.rows(query)[i as int] && call_ensures(f, (seen,), value));
            }
            let ghost shown = values;
            let ghost current = self@;
            match self.at_mut(query, i, k) {
                Some(cell) => {
                    *cell = value;
                },
                None => {},
            }
            proof {
                values = shown.push(value);
                assert(values.drop_last() =~= shown);
                assert(self@ == current.set(query, before.rows(query)[i as int].entity, k as int, value));
                assert(self@ == before.set_each(query, k as int, values));
            }
            i += 1;
        }
        assert(is_traversal(f, before, self@, query, k as int, values));
    }
}

} // verus!
