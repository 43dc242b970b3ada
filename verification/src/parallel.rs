//! Queries answered by a pool of worker threads.
use vstd::prelude::*;

use rayon::iter::{IntoParallelIterator, ParallelIterator};

use crate::archetype::{row_views, Row};
use crate::traverse::{gives, is_traversal};
use crate::world::{lemma_rows_len, option_view, QueryId, World};

verus! {

/// `rayon`'s `into_par_iter`, `map` and `collect` on the positions below `n`:
/// the lookups run on the pool's threads, all of them have returned when the
/// call returns, and the results stand in the order of the positions.
#[verifier::external_body]
fn par_lookups<'a, C: Sync>(world: &'a World<C>, query: QueryId, n: usize) -> (found: Vec<Option<Row<'a, C>>>)
    requires
        world.wf(),
    ensures
        found@.len() == n,
        forall|i: int| 0 <= i < n ==> option_view(#[trigger] found@[i]) == world@.at(query, i),
{
    (0..n).into_par_iter().map(|i| world.at(query, i)).collect()
}

impl<C: Sync> World<C> {
    /// Every row that a query spans, looked up in parallel. The rows come in
    /// the order in which `query` yields them.
    pub fn par_query<'a>(&'a self, query: QueryId) -> (rows: Vec<Row<'a, C>>)
        requires
            self.wf(),
        ensures
            row_views(rows@) == self@.rows(query),
    {
        let n = self.len(query);
        let mut found = par_lookups(self, query, n);
        proof {
            lemma_rows_len(self@.archetypes, self@.parts(query));
        }
        let ghost all = found@;
        let mut reversed: Vec<Row<'a, C>> = Vec::new();
        while found.len() > 0
            invariant
                found@.len() <= n,
                all.len() == n,
                n == self@.rows(query).len(),
                found@ == all.take(found@.len() as int),
                forall|i: int| 0 <= i < n ==> option_view(#[trigger] all[i]) == self@.at(query, i),
                reversed@.len() == n - found@.len(),
                forall|m: int|
                    0 <= m < reversed@.len() ==> (#[trigger] reversed@[m])@ == self@.rows(query)[n - 1 - m],
            decreases found@.len(),
        {
            let ghost i = found@.len() - 1;
            let item = found.pop();
            assert(found@ =~= all.take(i));
            assert(item == Some(all[i]));
            assert(option_view(all[i]) == self@.at(query, i));
            match item {
                Some(Some(row)) => {
                    reversed.push(row);
                },
                _ => {},
            }
        }
        let mut rows: Vec<Row<'a, C>> = Vec::new();
        while reversed.len() > 0
            invariant
                reversed@.len() <= n,
                n == self@.rows(query).len(),
                rows@.len() == n - reversed@.len(),
                forall|m: int|
                    0 <= m < reversed@.len() ==> (#[trigger] reversed@[m])@ == self@.rows(query)[n - 1 - m],
                forall|m: int| 0 <= m < rows@.len() ==> (#[trigger] rows@[m])@ == self@.rows(query)[m],
            decreases reversed@.len(),
        {
            match reversed.pop() {
                Some(row) => {
                    rows.push(row);
                },
                None => {},
            }
        }
        assert(row_views(rows@) =~= self@.rows(query));
        rows
    }
}

/// `rayon`'s `into_par_iter`, `map` and `collect` on a list of rows: the
/// callback runs on the pool's threads, once for each row; all calls have
/// returned when the call returns, and the results stand in the order of the
/// rows.
#[verifier::external_body]
fn par_map<'a, C: Send + Sync, F: Fn(Row<'a, C>) -> C + Sync + Send>(rows: Vec<Row<'a, C>>, f: &F) -> (values: Vec<C>)
    requires
        forall|row: Row<'a, C>| call_requires(*f, (row,)),
    ensures
        values@.len() == rows@.len(),
        forall|i: int| 0 <= i < rows@.len() ==> call_ensures(*f, (rows@[i],), #[trigger] values@[i]),
{
    rows.into_par_iter().map(f).collect()
}

impl<C: Send + Sync> World<C> {
    /// Shows the rows of a query to the callback on the pool's threads and,
    /// when all calls have returned, writes to component `k` of each row what
    /// the callback gave for it. Every call sees its row as it was before the
    /// traversal. Where the shape does not ask for component `k` with exclusive
    /// access, nothing is shown and nothing written.
    pub fn par_for_each_mut<F: Fn(Row<C>) -> C + Sync + Send>(&mut self, query: QueryId, k: usize, f: F)
        requires
            old(self).wf(),
            forall|row: Row<C>| call_requires(f, (row,)),
        ensures
            final(self).wf(),
            !old(self)@.valid_query(query) || k >= old(self)@.mutable_count(query) ==> final(self)@
                == old(self)@,
            old(self)@.valid_query(query) && k < old(self)@.mutable_count(query) ==> exists|values: Seq<C>|
                is_traversal(f, old(self)@, final(self)@, query, k as int, values),
    {
        let ghost before = self@;
        proof {
            self.lemma_view_wf();
            lemma_rows_len(before.archetypes, before.parts(query));
        }
        if k >= self.mutable_count(query) {
            return ;
        }
        let rows = self.par_query(query);
        let ghost seen = rows@;
        let mut given = par_map(rows, &f);
        let ghost values = given@;
        assert forall|i: int| 0 <= i < values.len() implies gives(f, before.rows(query)[i], #[trigger] values[i]) by {
            assert(seen[i]@ == row_views(seen)[i]);
            assert(call_ensures(f, (seen[i],), values[i]));
        }
        let n = given.len();
        let mut reversed: Vec<C> = Vec::new();
        while given.len() > 0
            invariant
                given@.len() <= n,
                n == values.len(),
                given@ == values.take(given@.len() as int),
                reversed@.len() == n - given@.len(),
                forall|m: int| 0 <= m < reversed@.len() ==> (#[trigger] reversed@[m]) == values[n - 1 - m],
            decreases given@.len(),
        {
            let ghost last = given@.len() - 1;
            let value = given.pop().unwrap();
            assert(value == values[last]);
            assert(given@ =~= values.take(last));
            reversed.push(value);
        }
        let ghost mut written: Seq<C> = Seq::empty();
        let mut i: usize = 0;
        while i < n
            invariant
                i <= n,
                n == before.rows(query).len(),
                n == values.len(),
                before.wf(),
                before.valid_query(query),
                k < before.mutable_count(query),
                self.wf(),
                reversed@.len() == n - i,
                forall|m: int| 0 <= m < reversed@.len() ==> (#[trigger] reversed@[m]) == values[n - 1 - m],
                written == values.take(i as int),
                self@ == before.set_each(query, k as int, written),
            decreases n - i,
        {
            proof {
                before.law_writes_keep_later_rows(query, k as int, written, i as int);
                lemma_rows_len(self@.archetypes, self@.parts(query));
            }
            let value = reversed.pop().unwrap();
            assert(value == values[i as int]);
            let ghost current = self@;
            match self.at_mut(query, i, k) {
                Some(cell) => {
                    *cell = value;
                },
                None => {},
            }
            proof {
                let shown = written;
                written = shown.push(value);
                assert(written.drop_last() =~= shown);
                assert(written =~= values.take(i + 1));
                assert(self@ == current.set(query, before.rows(query)[i as int].entity, k as int, value));
                assert(self@ == before.set_each(query, k as int, written));
            }
            i += 1;
        }
        proof {
            assert(written =~= values);
            assert(is_traversal(f, before, self@, query, k as int, values));
        }
    }
}

} // verus!
