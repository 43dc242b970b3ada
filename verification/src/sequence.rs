//! Small facts about sequences that the rest of the crate states itself in.
use vstd::prelude::*;

verus! {

/// The views of a list of strings.
pub open spec fn strings(v: Seq<String>) -> Seq<Seq<char>> {
    Seq::new(v.len(), |i: int| v[i]@)
}

/// The sequence left when position `i` is filled with the last element and the
/// sequence is shortened by one.
pub open spec fn swap_removed<T>(s: Seq<T>, i: int) -> Seq<T> {
    s.update(i, s.last()).drop_last()
}

/// Position `i` holds the first occurrence of `x`.
pub open spec fn is_first<T>(s: Seq<T>, x: T, i: int) -> bool {
    &&& 0 <= i < s.len()
    &&& s[i] == x
    &&& forall|m: int| 0 <= m < i ==> s[m] != x
}

/// The position of the first occurrence of `x`, where there is one.
pub open spec fn first_index<T>(s: Seq<T>, x: T) -> int {
    choose|i: int| is_first(s, x, i)
}

/// The first occurrence is unique, so `first_index` names it.
pub proof fn lemma_first_index<T>(s: Seq<T>, x: T, i: int)
    requires
        is_first(s, x, i),
    ensures
        first_index(s, x) == i,
        s.contains(x),
{
    let c = first_index(s, x);
    assert(is_first(s, x, c));
    if c < i {
        assert(s[c] != x);
    } else if i < c {
        assert(s[i] != x);
    }
}

/// Whatever a sequence contains has a first occurrence.
pub proof fn lemma_first_exists<T>(s: Seq<T>, x: T)
    requires
        s.contains(x),
    ensures
        is_first(s, x, first_index(s, x)),
    decreases s.len(),
{
    let i = choose|i: int| 0 <= i < s.len() && s[i] == x;
    if s.drop_last().contains(x) {
        lemma_first_exists(s.drop_last(), x);
        let j = first_index(s.drop_last(), x);
        assert(is_first(s, x, j)) by {
            assert forall|m: int| 0 <= m < j implies s[m] != x by {
                assert(s.drop_last()[m] != x);
            }
        }
    } else {
        assert(i == s.len() - 1) by {
            if i < s.len() - 1 {
                assert(s.drop_last()[i] == x);
            }
        }
        assert(is_first(s, x, i)) by {
            assert forall|m: int| 0 <= m < i implies s[m] != x by {
                if s[m] == x {
                    assert(s.drop_last()[m] == x);
                }
            }
        }
    }
}

/// The first occurrence of every element, in the order of first occurrence.
pub open spec fn distinct<T>(s: Seq<T>) -> Seq<T>
    decreases s.len(),
{
    if s.len() == 0 {
        Seq::empty()
    } else if distinct(s.drop_last()).contains(s.last()) {
        distinct(s.drop_last())
    } else {
        distinct(s.drop_last()).push(s.last())
    }
}

/// `distinct` keeps exactly the elements of the sequence, each once, and keeps
/// a sequence without repetition as it is.
pub proof fn law_distinct<T>(s: Seq<T>)
    ensures
        distinct(s).no_duplicates(),
        distinct(s).len() <= s.len(),
        forall|x: T| distinct(s).contains(x) <==> s.contains(x),
        s.no_duplicates() ==> distinct(s) == s,
    decreases s.len(),
{
    if s.len() > 0 {
        let head = s.drop_last();
        let x = s.last();
        law_distinct(head);
        let d = distinct(head);
        let r = distinct(s);
        assert(r == if d.contains(x) { d } else { d.push(x) });
        assert forall|y: T| r.contains(y) <==> s.contains(y) by {
            if s.contains(y) {
                let i = choose|i: int| 0 <= i < s.len() && s[i] == y;
                if i < head.len() {
                    assert(head[i] == y);
                    assert(head.contains(y));
                    assert(d.contains(y));
                    let j = choose|j: int| 0 <= j < d.len() && d[j] == y;
                    assert(r[j] == y);
                } else if !d.contains(x) {
                    assert(r[d.len() as int] == y);
                } else {
                    assert(y == x);
                }
                assert(r.contains(y));
            }
            if r.contains(y) {
                let j = choose|j: int| 0 <= j < r.len() && r[j] == y;
                if j < d.len() {
                    assert(d[j] == y);
                    assert(d.contains(y));
                    assert(head.contains(y));
                    let i = choose|i: int| 0 <= i < head.len() && head[i] == y;
                    assert(s[i] == y);
                } else {
                    assert(s[s.len() - 1] == y);
                }
                assert(s.contains(y));
            }
        }
        if s.no_duplicates() {
            assert(head.no_duplicates());
            assert(!d.contains(x)) by {
                if d.contains(x) {
                    assert(head.contains(x));
                    let i = choose|i: int| 0 <= i < head.len() && head[i] == x;
                    assert(s[i] == s[s.len() - 1]);
                }
            }
            assert(r =~= s);
        }
    } else {
        assert(distinct(s) =~= s);
    }
}

} // verus!
