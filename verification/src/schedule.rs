//! The order in which the systems of a program run: the groups in the order
//! of their first mention, the systems of a group in the order of their names.
use vstd::prelude::*;
use vstd::string::StringSliceAdditionalSpecFns;
use vstd::utf8::encode_utf8;

use crate::declaration::{SystemDef, SystemDefParam, SystemDefParamReference};
use crate::sequence::{distinct, strings};

verus! {

/// One sequence of bytes comes before another: at the first place where they
/// differ it has the smaller byte, or it ends there and the other goes on.
pub open spec fn precedes(a: Seq<u8>, b: Seq<u8>) -> bool
    decreases a.len(),
{
    if b.len() == 0 {
        false
    } else if a.len() == 0 {
        true
    } else if a[0] != b[0] {
        a[0] < b[0]
    } else {
        precedes(a.drop_first(), b.drop_first())
    }
}

/// No sequence comes before itself.
pub proof fn lemma_precedes_irreflexive(a: Seq<u8>)
    ensures
        !precedes(a, a),
    decreases a.len(),
{
    if a.len() > 0 {
        lemma_precedes_irreflexive(a.drop_first());
    }
}

/// Of two different sequences one comes before the other.
pub proof fn lemma_precedes_total(a: Seq<u8>, b: Seq<u8>)
    ensures
        !precedes(a, b) && !precedes(b, a) ==> a == b,
    decreases a.len(),
{
    if a.len() > 0 && b.len() > 0 {
        lemma_precedes_total(a.drop_first(), b.drop_first());
        if !precedes(a, b) && !precedes(b, a) {
            assert(a =~= seq![a[0]] + a.drop_first());
            assert(b =~= seq![b[0]] + b.drop_first());
        }
    } else if !precedes(a, b) && !precedes(b, a) {
        assert(a =~= b);
    }
}

/// Coming before is transitive, and so is not coming before.
pub proof fn lemma_precedes_transitive(a: Seq<u8>, b: Seq<u8>, c: Seq<u8>)
    ensures
        precedes(a, b) && precedes(b, c) ==> precedes(a, c),
        !precedes(a, b) && !precedes(b, c) ==> !precedes(a, c),
    decreases a.len(),
{
    if a.len() > 0 && b.len() > 0 && c.len() > 0 {
        lemma_precedes_transitive(a.drop_first(), b.drop_first(), c.drop_first());
    }
}

/// `precedes` is a strict total order on sequences of bytes.
pub proof fn lemma_precedes(a: Seq<u8>, b: Seq<u8>, c: Seq<u8>)
    ensures
        !precedes(a, a),
        precedes(a, b) && precedes(b, c) ==> precedes(a, c),
        !precedes(a, b) && !precedes(b, c) ==> !precedes(a, c),
        !precedes(a, b) && !precedes(b, a) ==> a == b,
{
    lemma_precedes_irreflexive(a);
    lemma_precedes_total(a, b);
    lemma_precedes_transitive(a, b, c);
}

/// The bytes by which a name is ordered: its encoding.
pub open spec fn sort_key(name: Seq<char>) -> Seq<u8> {
    encode_utf8(name)
}

/// Whether one name comes before another, byte by byte.
pub fn name_precedes(a: &str, b: &str) -> (r: bool)
    ensures
        r == precedes(sort_key(a@), sort_key(b@)),
{
    let x = a.as_bytes();
    let y = b.as_bytes();
    assert(x@.skip(0) =~= x@);
    assert(y@.skip(0) =~= y@);
    let mut i: usize = 0;
    while i < x.len() && i < y.len()
        invariant
            i <= x@.len(),
            i <= y@.len(),
            x@ == sort_key(a@),
            y@ == sort_key(b@),
            precedes(x@, y@) == precedes(x@.skip(i as int), y@.skip(i as int)),
        decreases x@.len() - i,
    {
        proof {
            assert(x@.skip(i as int)[0] == x@[i as int]);
            assert(y@.skip(i as int)[0] == y@[i as int]);
            assert(x@.skip(i as int).drop_first() =~= x@.skip(i + 1));
            assert(y@.skip(i as int).drop_first() =~= y@.skip(i + 1));
        }
        if x[i] != y[i] {
            return x[i] < y[i];
        }
        i += 1;
    }
    assert(x@.skip(i as int).len() == x@.len() - i);
    assert(y@.skip(i as int).len() == y@.len() - i);
    i < y.len()
}

/// The groups of the systems, one for each system.
pub open spec fn groups_of(systems: Seq<SystemDef>) -> Seq<Seq<char>> {
    Seq::new(systems.len(), |i: int| systems[i].group@)
}

/// The groups that the systems name, each once, in the order of first
/// mention.
pub fn group_names(systems: &Vec<SystemDef>) -> (r: Vec<String>)
    ensures
        strings(r@) == distinct(groups_of(systems@)),
{
    let ghost all = groups_of(systems@);
    let mut r: Vec<String> = Vec::new();
    let mut i: usize = 0;
    while i < systems.len()
        invariant
            i <= systems@.len(),
            all == groups_of(systems@),
            strings(r@) == distinct(all.take(i as int)),
        decreases systems@.len() - i,
    {
        let ghost shown = strings(r@);
        proof {
            assert(all.take(i + 1).drop_last() =~= all.take(i as int));
            assert(all.take(i + 1).last() == systems@[i as int].group@);
        }
        let mut known = false;
        let mut k: usize = 0;
        while k < r.len()
            invariant
                k <= r@.len(),
                i < systems@.len(),
                known == exists|m: int| 0 <= m < k && strings(r@)[m] == systems@[i as int].group@,
            decreases r@.len() - k,
        {
            if r[k] == systems[i].group {
                known = true;
                assert(strings(r@)[k as int] == systems@[i as int].group@);
            }
            k += 1;
        }
        assert(known == shown.contains(systems@[i as int].group@)) by {
            if shown.contains(systems@[i as int].group@) {
                let m = choose|m: int| 0 <= m < shown.len() && shown[m] == systems@[i as int].group@;
                assert(strings(r@)[m] == systems@[i as int].group@);
            }
        }
        if !known {
            r.push(systems[i].group.clone());
            assert(strings(r@) =~= shown.push(systems@[i as int].group@));
        }
        i += 1;
    }
    assert(all.take(systems@.len() as int) =~= all);
    r
}

/// System `i` runs before system `j`: its name comes first or, where the
/// names are the same, it was declared first.
pub open spec fn runs_before(systems: Seq<SystemDef>, i: int, j: int) -> bool {
    precedes(sort_key(systems[i].name@), sort_key(systems[j].name@)) || (!precedes(
        sort_key(systems[j].name@),
        sort_key(systems[i].name@),
    ) && i < j)
}

/// The systems of a group, by their positions in the declaration, in running
/// order: every system of the group and no other, each before those that run
/// after it.
pub open spec fn is_running_order(systems: Seq<SystemDef>, group: Seq<char>, order: Seq<usize>) -> bool {
    &&& forall|a: int|
        0 <= a < order.len() ==> (#[trigger] order[a]) < systems.len() && systems[order[a] as int].group@
            == group
    &&& forall|i: int|
        0 <= i < systems.len() && (#[trigger] systems[i]).group@ == group ==> order.contains(i as usize)
    &&& forall|a: int, b: int|
        0 <= a < b < order.len() ==> runs_before(systems, order[a] as int, order[b] as int)
}

/// Of two systems at most one runs before the other, and no system runs
/// before itself.
pub proof fn lemma_runs_before_one_way(systems: Seq<SystemDef>, i: int, j: int)
    ensures
        !(runs_before(systems, i, j) && runs_before(systems, j, i)),
{
    lemma_precedes(
        sort_key(systems[i].name@),
        sort_key(systems[j].name@),
        sort_key(systems[i].name@),
    );
}

/// Two running orders of one group agree in their first `p` places.
proof fn lemma_running_order_prefix(
    systems: Seq<SystemDef>,
    group: Seq<char>,
    a: Seq<usize>,
    b: Seq<usize>,
    p: int,
)
    requires
        is_running_order(systems, group, a),
        is_running_order(systems, group, b),
        0 <= p <= a.len(),
    ensures
        p <= b.len(),
        forall|q: int| 0 <= q < p ==> a[q] == b[q],
    decreases p,
{
    if p > 0 {
        lemma_running_order_prefix(systems, group, a, b, p - 1);
        let at = p - 1;
        let x = a[at];
        assert(systems[x as int].group@ == group);
        assert(b.contains(x));
        let r = choose|r: int| 0 <= r < b.len() && b[r] == x;
        if r < at {
            assert(a[r] == b[r]);
            assert(runs_before(systems, a[r] as int, a[at] as int));
            lemma_runs_before_one_way(systems, x as int, x as int);
        } else if r > at {
            let y = b[at];
            assert(runs_before(systems, y as int, x as int));
            assert(systems[y as int].group@ == group);
            assert(a.contains(y));
            let w = choose|w: int| 0 <= w < a.len() && a[w] == y;
            if w < at {
                assert(b[w] == a[w]);
                assert(runs_before(systems, b[w] as int, b[at] as int));
                lemma_runs_before_one_way(systems, y as int, y as int);
            } else if w > at {
                assert(runs_before(systems, a[at] as int, a[w] as int));
                lemma_runs_before_one_way(systems, x as int, y as int);
            } else {
                lemma_runs_before_one_way(systems, x as int, x as int);
            }
        }
    }
}

/// A group has one running order and no other.
pub proof fn law_running_order_unique(
    systems: Seq<SystemDef>,
    group: Seq<char>,
    a: Seq<usize>,
    b: Seq<usize>,
)
    requires
        is_running_order(systems, group, a),
        is_running_order(systems, group, b),
    ensures
        a == b,
{
    lemma_running_order_prefix(systems, group, a, b, a.len() as int);
    lemma_running_order_prefix(systems, group, b, a, b.len() as int);
    assert(a =~= b);
}

/// The systems of a group in running order.
pub fn members(systems: &Vec<SystemDef>, group: &String) -> (order: Vec<usize>)
    ensures
        is_running_order(systems@, group@, order@),
{
    let mut order: Vec<usize> = Vec::new();
    let mut i: usize = 0;
    while i < systems.len()
        invariant
            i <= systems@.len(),
            forall|a: int|
                0 <= a < order@.len() ==> (#[trigger] order@[a]) < i && systems@[order@[a] as int].group@
                    == group@,
            forall|m: int|
                0 <= m < i && (#[trigger] systems@[m]).group@ == group@ ==> order@.contains(m as usize),
            forall|a: int, b: int|
                0 <= a < b < order@.len() ==> runs_before(systems@, order@[a] as int, order@[b] as int),
        decreases systems@.len() - i,
    {
        if systems[i].group == *group {
            let mut p: usize = 0;
            while p < order.len() && !name_precedes(systems[i].name.as_str(), systems[order[p]].name.as_str())
                invariant
                    p <= order@.len(),
                    i < systems@.len(),
                    forall|a: int| 0 <= a < order@.len() ==> (#[trigger] order@[a]) < i,
                    forall|a: int|
                        0 <= a < p ==> !precedes(
                            sort_key(systems@[i as int].name@),
                            sort_key(systems@[(#[trigger] order@[a]) as int].name@),
                        ),
                decreases order@.len() - p,
            {
                p += 1;
            }
            let ghost before = order@;
            order.insert(p, i);
            proof {
                assert forall|m: int|
                    0 <= m < i + 1 && (#[trigger] systems@[m]).group@ == group@ implies order@.contains(
                    m as usize,
                ) by {
                    if m < i {
                        let a = choose|a: int| 0 <= a < before.len() && before[a] == m as usize;
                        let now = if a < p { a } else { a + 1 };
                        assert(order@[now] == m as usize);
                    } else {
                        assert(order@[p as int] == i);
                    }
                }
                assert forall|a: int, b: int| 0 <= a < b < order@.len() implies runs_before(
                    systems@,
                    order@[a] as int,
                    order@[b] as int,
                ) by {
                    let key = |j: int| sort_key(systems@[j].name@);
                    if a == p {
                        // the new system against one that stood at or after `p`
                        let was = b - 1;
                        assert(order@[b] == before[was]);
                        if was > p {
                            assert(runs_before(systems@, before[p as int] as int, before[was] as int));
                        }
                        lemma_precedes(key(i as int), key(before[p as int] as int), key(before[was] as int));
                        lemma_precedes(key(before[was] as int), key(before[p as int] as int), key(i as int));
                    } else if b == p {
                        assert(order@[a] == before[a]);
                    } else {
                        let was_a = if a < p { a } else { a - 1 };
                        let was_b = if b < p { b } else { b - 1 };
                        assert(order@[a] == before[was_a]);
                        assert(order@[b] == before[was_b]);
                    }
                }
            }
        }
        i += 1;
    }
    order
}

/// What a system is handed for one of its parameters: a query of the
/// parameter's shape, or the resource of a name.
#[derive(Debug)]
pub enum Argument {
    Query,
    Resource(String),
}

/// One call of a system: its position in the declaration, its name and what
/// it is handed.
#[derive(Debug)]
pub struct SystemCall {
    pub system: usize,
    pub name: String,
    pub arguments: Vec<Argument>,
}

/// One group of systems: the resources that running it takes, and the calls
/// it makes, in running order.
#[derive(Debug)]
pub struct SystemGroup {
    pub name: String,
    pub params: Vec<SystemDefParamReference>,
    pub calls: Vec<SystemCall>,
}

/// What is handed to a system for a parameter.
pub open spec fn is_argument_for(argument: Argument, param: SystemDefParam) -> bool {
    match param {
        SystemDefParam::Query(_) => argument is Query,
        SystemDefParam::Reference(r) => match argument {
            Argument::Resource(name) => name@ == r.name@,
            Argument::Query => false,
        },
    }
}

/// The call of the system at a position: by its name, with one argument for
/// each of its parameters.
pub open spec fn is_call_of(call: SystemCall, systems: Seq<SystemDef>, i: int) -> bool {
    &&& call.system == i
    &&& call.name@ == systems[i].name@
    &&& call.arguments@.len() == systems[i].params@.len()
    &&& forall|k: int|
        0 <= k < call.arguments@.len() ==> is_argument_for(
            #[trigger] call.arguments@[k],
            systems[i].params@[k],
        )
}

/// The call of the system at position `i`.
pub fn call_of(systems: &Vec<SystemDef>, i: usize) -> (call: SystemCall)
    requires
        i < systems@.len(),
    ensures
        is_call_of(call, systems@, i as int),
{
    let system = &systems[i];
    let mut arguments: Vec<Argument> = Vec::new();
    let mut k: usize = 0;
    while k < system.params.len()
        invariant
            k <= system.params@.len(),
            arguments@.len() == k,
            forall|m: int| 0 <= m < k ==> is_argument_for(#[trigger] arguments@[m], system.params@[m]),
        decreases system.params@.len() - k,
    {
        match &system.params[k] {
            SystemDefParam::Query(_) => {
                arguments.push(Argument::Query);
            },
            SystemDefParam::Reference(r) => {
                arguments.push(Argument::Resource(r.name.clone()));
            },
        }
        k += 1;
    }
    SystemCall { system: i, name: system.name.clone(), arguments }
}

/// A resource as a parameter asks for it.
pub struct Asked {
    pub name: Seq<char>,
    pub ty: Seq<char>,
    pub mutable: bool,
}

/// The resource that parameter `k` of system `i` asks for, where that system
/// is of the group and that parameter is a reference: its name, its type and
/// whether it is asked for with exclusive access.
pub open spec fn resource_at(systems: Seq<SystemDef>, group: Seq<char>, i: int, k: int) -> Option<Asked> {
    if 0 <= i < systems.len() && systems[i].group@ == group && 0 <= k < systems[i].params@.len() {
        match systems[i].params@[k] {
            SystemDefParam::Reference(r) => Some(Asked { name: r.name@, ty: r.ty@, mutable: r.mutable }),
            SystemDefParam::Query(_) => None,
        }
    } else {
        None
    }
}

/// Parameter `k0` of system `i0` comes before parameter `k` of system `i`.
pub open spec fn comes_before(i0: int, k0: int, i: int, k: int) -> bool {
    i0 < i || (i0 == i && k0 < k)
}

/// A parameter as the resource it asks for.
pub open spec fn asked_of(r: SystemDefParamReference) -> Asked {
    Asked { name: r.name@, ty: r.ty@, mutable: r.mutable }
}

/// The parameters of a list as the resources they ask for.
pub open spec fn asked_views(params: Seq<SystemDefParamReference>) -> Seq<Asked> {
    Seq::new(params.len(), |p: int| asked_of(params[p]))
}

/// Two parameters ask for the same resource: that of one name and one type.
pub open spec fn same_resource(a: Asked, b: Asked) -> bool {
    a.name == b.name && a.ty == b.ty
}

/// No resource stands twice in the list, and the names do not go down.
pub open spec fn is_merged(list: Seq<Asked>) -> bool {
    &&& forall|a: int, b: int|
        0 <= a < b < list.len() ==> !same_resource(#[trigger] list[a], #[trigger] list[b])
    &&& forall|a: int, b: int|
        0 <= a < b < list.len() ==> !precedes(
            sort_key((#[trigger] list[b]).name),
            sort_key((#[trigger] list[a]).name),
        )
}

/// Where a new resource goes into a list: before the first resource with a
/// later name, and at the end if there is none.
pub open spec fn place_of(list: Seq<Asked>, asked: Asked) -> int
    decreases list.len(),
{
    if list.len() == 0 || precedes(sort_key(asked.name), sort_key(list[0].name)) {
        0
    } else {
        1 + place_of(list.drop_first(), asked)
    }
}

/// A list with one more parameter taken in: a resource that the list holds
/// is asked for with exclusive access from now on if the parameter asks so; a
/// new resource goes to its place.
pub open spec fn merged(list: Seq<Asked>, asked: Asked) -> Seq<Asked> {
    if exists|p: int| 0 <= p < list.len() && same_resource(#[trigger] list[p], asked) {
        let p = choose|p: int| 0 <= p < list.len() && same_resource(#[trigger] list[p], asked);
        list.update(p, Asked { mutable: list[p].mutable || asked.mutable, ..list[p] })
    } else {
        list.insert(place_of(list, asked), asked)
    }
}

/// `place_of` is the first position with a later name.
pub proof fn lemma_place_of(list: Seq<Asked>, asked: Asked, p: int)
    requires
        0 <= p <= list.len(),
        forall|q: int| 0 <= q < p ==> !precedes(sort_key(asked.name), sort_key((#[trigger] list[q]).name)),
        p < list.len() ==> precedes(sort_key(asked.name), sort_key(list[p].name)),
    ensures
        place_of(list, asked) == p,
    decreases p,
{
    if p > 0 {
        assert(!precedes(sort_key(asked.name), sort_key(list[0].name)));
        assert forall|q: int| 0 <= q < p - 1 implies !precedes(
            sort_key(asked.name),
            sort_key((#[trigger] list.drop_first()[q]).name),
        ) by {
            assert(list.drop_first()[q] == list[q + 1]);
        }
        lemma_place_of(list.drop_first(), asked, p - 1);
    }
}

/// `place_of` names a position of the list or its end; the names before it
/// are not later than the new name, and the name at it is.
pub proof fn lemma_place_bounds(list: Seq<Asked>, asked: Asked)
    ensures
        0 <= place_of(list, asked) <= list.len(),
        forall|q: int|
            0 <= q < place_of(list, asked) ==> !precedes(
                sort_key(asked.name),
                sort_key((#[trigger] list[q]).name),
            ),
        place_of(list, asked) < list.len() ==> precedes(
            sort_key(asked.name),
            sort_key(list[place_of(list, asked)].name),
        ),
    decreases list.len(),
{
    if !(list.len() == 0 || precedes(sort_key(asked.name), sort_key(list[0].name))) {
        lemma_place_bounds(list.drop_first(), asked);
        assert forall|q: int| 0 <= q < place_of(list, asked) implies !precedes(
            sort_key(asked.name),
            sort_key((#[trigger] list[q]).name),
        ) by {
            if q > 0 {
                assert(list.drop_first()[q - 1] == list[q]);
            }
        }
        if place_of(list, asked) < list.len() {
            assert(list.drop_first()[place_of(list.drop_first(), asked)] == list[place_of(list, asked)]);
        }
    }
}

/// One of the parameters before parameter `k` of system `i` asks for exactly
/// this: the resource, with this access.
pub open spec fn asked_before(systems: Seq<SystemDef>, group: Seq<char>, asked: Asked, i: int, k: int) -> bool {
    exists|i0: int, k0: int|
        comes_before(i0, k0, i, k) && #[trigger] resource_at(systems, group, i0, k0) == Some(asked)
}

/// The list holds the resource that a parameter asks for, with exclusive
/// access if the parameter asks so.
pub open spec fn holds(list: Seq<Asked>, asked: Asked) -> bool {
    exists|p: int|
        0 <= p < list.len() && same_resource(#[trigger] list[p], asked) && (asked.mutable
            ==> list[p].mutable)
}

/// What a list of resources has taken in of the parameters before parameter
/// `k` of system `i`: each resource of the list is asked for by one of them,
/// with exclusive access exactly if one of them asks so; each of them finds
/// its resource in the list; no resource stands twice; and the names do not
/// go down.
pub open spec fn merged_up_to(systems: Seq<SystemDef>, group: Seq<char>, list: Seq<Asked>, i: int, k: int) -> bool {
    &&& forall|p: int| 0 <= p < list.len() ==> asked_before(systems, group, #[trigger] list[p], i, k)
    &&& forall|i0: int, k0: int|
        comes_before(i0, k0, i, k) && (#[trigger] resource_at(systems, group, i0, k0)) is Some ==> holds(
            list,
            resource_at(systems, group, i0, k0)->0,
        )
    &&& is_merged(list)
}

/// The resources that running a group takes: one for each resource that a
/// system of the group asks for, by name and type, with exclusive access if
/// any of them asks so, in the order of the names.
pub open spec fn are_group_params(
    systems: Seq<SystemDef>,
    group: Seq<char>,
    params: Seq<SystemDefParamReference>,
) -> bool {
    merged_up_to(systems, group, asked_views(params), systems.len() as int, 0)
}

/// What was asked before a parameter was asked before every later one.
pub proof fn lemma_asked_before_later(
    systems: Seq<SystemDef>,
    group: Seq<char>,
    asked: Asked,
    i: int,
    k: int,
    i2: int,
    k2: int,
)
    requires
        asked_before(systems, group, asked, i, k),
        i < i2 || (i == i2 && k <= k2),
    ensures
        asked_before(systems, group, asked, i2, k2),
{
    let (i0, k0) = choose|i0: int, k0: int|
        comes_before(i0, k0, i, k) && #[trigger] resource_at(systems, group, i0, k0) == Some(asked);
    assert(comes_before(i0, k0, i2, k2));
}

/// Every resource of a list with one more parameter taken in is that
/// parameter's or was in the list.
pub proof fn lemma_merged_entries(list: Seq<Asked>, asked: Asked, p: int)
    requires
        0 <= p < merged(list, asked).len(),
    ensures
        merged(list, asked)[p] == asked || list.contains(merged(list, asked)[p]),
{
    let next = merged(list, asked);
    if exists|q: int| 0 <= q < list.len() && same_resource(#[trigger] list[q], asked) {
        let at = choose|q: int| 0 <= q < list.len() && same_resource(#[trigger] list[q], asked);
        if p != at || !asked.mutable {
            assert(next[p] == list[p]);
        }
    } else {
        let at = place_of(list, asked);
        lemma_place_bounds(list, asked);
        if p != at {
            let was = if p < at { p } else { p - 1 };
            assert(next[p] == list[was]);
        }
    }
}

/// A list with one more parameter taken in holds that parameter's resource
/// and whatever the list held.
pub proof fn lemma_merged_holds(list: Seq<Asked>, asked: Asked, other: Asked)
    ensures
        holds(merged(list, asked), asked),
        holds(list, other) ==> holds(merged(list, asked), other),
{
    let next = merged(list, asked);
    if exists|q: int| 0 <= q < list.len() && same_resource(#[trigger] list[q], asked) {
        let at = choose|q: int| 0 <= q < list.len() && same_resource(#[trigger] list[q], asked);
        assert(same_resource(next[at], asked) && (asked.mutable ==> next[at].mutable));
        if holds(list, other) {
            let q = choose|q: int|
                0 <= q < list.len() && same_resource(#[trigger] list[q], other) && (other.mutable
                    ==> list[q].mutable);
            assert(same_resource(next[q], other) && (other.mutable ==> next[q].mutable));
        }
    } else {
        let at = place_of(list, asked);
        lemma_place_bounds(list, asked);
        assert(next[at] == asked);
        assert(same_resource(next[at], asked));
        if holds(list, other) {
            let q = choose|q: int|
                0 <= q < list.len() && same_resource(#[trigger] list[q], other) && (other.mutable
                    ==> list[q].mutable);
            let now = if q < at { q } else { q + 1 };
            assert(next[now] == list[q]);
            assert(same_resource(next[now], other) && (other.mutable ==> next[now].mutable));
        }
    }
}

/// Taking a parameter in keeps every resource once and the names in order.
pub proof fn lemma_merged_is_merged(list: Seq<Asked>, asked: Asked)
    requires
        is_merged(list),
    ensures
        is_merged(merged(list, asked)),
{
    let next = merged(list, asked);
    if exists|q: int| 0 <= q < list.len() && same_resource(#[trigger] list[q], asked) {
        assert forall|a: int, b: int| 0 <= a < b < next.len() implies !same_resource(
            #[trigger] next[a],
            #[trigger] next[b],
        ) by {
            assert(!same_resource(list[a], list[b]));
        }
        assert forall|a: int, b: int| 0 <= a < b < next.len() implies !precedes(
            sort_key((#[trigger] next[b]).name),
            sort_key((#[trigger] next[a]).name),
        ) by {
            assert(!precedes(sort_key(list[b].name), sort_key(list[a].name)));
        }
    } else {
        let at = place_of(list, asked);
        lemma_place_bounds(list, asked);
        assert forall|a: int, b: int| 0 <= a < b < next.len() implies !same_resource(
            #[trigger] next[a],
            #[trigger] next[b],
        ) by {
            let was_a = if a < at { a } else { a - 1 };
            let was_b = if b < at { b } else { b - 1 };
            if a == at {
                assert(next[b] == list[was_b]);
                assert(!same_resource(list[was_b], asked));
            } else if b == at {
                assert(next[a] == list[was_a]);
                assert(!same_resource(list[was_a], asked));
            } else {
                assert(next[a] == list[was_a]);
                assert(next[b] == list[was_b]);
                assert(!same_resource(list[was_a], list[was_b]));
            }
        }
        assert forall|a: int, b: int| 0 <= a < b < next.len() implies !precedes(
            sort_key((#[trigger] next[b]).name),
            sort_key((#[trigger] next[a]).name),
        ) by {
            let was_a = if a < at { a } else { a - 1 };
            let was_b = if b < at { b } else { b - 1 };
            if a == at {
                assert(next[b] == list[was_b]);
                if was_b > at {
                    assert(!precedes(sort_key(list[was_b].name), sort_key(list[at].name)));
                }
                lemma_precedes_irreflexive(sort_key(list[at].name));
                lemma_precedes_transitive(
                    sort_key(list[was_b].name),
                    sort_key(asked.name),
                    sort_key(list[at].name),
                );
            } else if b == at {
                assert(next[a] == list[was_a]);
            } else {
                assert(next[a] == list[was_a]);
                assert(next[b] == list[was_b]);
                assert(!precedes(sort_key(list[was_b].name), sort_key(list[was_a].name)));
            }
        }
    }
}

/// Taking in the next parameter keeps a list what it is meant to be.
pub proof fn lemma_merged_step(systems: Seq<SystemDef>, group: Seq<char>, list: Seq<Asked>, i: int, k: int)
    requires
        merged_up_to(systems, group, list, i, k),
    ensures
        resource_at(systems, group, i, k) matches Some(asked) ==> merged_up_to(
            systems,
            group,
            merged(list, asked),
            i,
            k + 1,
        ),
        resource_at(systems, group, i, k) is None ==> merged_up_to(systems, group, list, i, k + 1),
{
    match resource_at(systems, group, i, k) {
        None => {
            assert forall|p: int| 0 <= p < list.len() implies asked_before(
                systems,
                group,
                #[trigger] list[p],
                i,
                k + 1,
            ) by {
                lemma_asked_before_later(systems, group, list[p], i, k, i, k + 1);
            }
            assert forall|i0: int, k0: int|
                comes_before(i0, k0, i, k + 1) && (#[trigger] resource_at(systems, group, i0, k0)) is Some implies holds(
                list,
                resource_at(systems, group, i0, k0)->0,
            ) by {
                assert(comes_before(i0, k0, i, k));
            }
        },
        Some(asked) => {
            let next = merged(list, asked);
            lemma_merged_is_merged(list, asked);
            assert forall|p: int| 0 <= p < next.len() implies asked_before(
                systems,
                group,
                #[trigger] next[p],
                i,
                k + 1,
            ) by {
                lemma_merged_entries(list, asked, p);
                if next[p] == asked {
                    assert(comes_before(i, k, i, k + 1));
                    assert(resource_at(systems, group, i, k) == Some(next[p]));
                } else {
                    let q = choose|q: int| 0 <= q < list.len() && list[q] == next[p];
                    assert(asked_before(systems, group, list[q], i, k));
                    lemma_asked_before_later(systems, group, list[q], i, k, i, k + 1);
                }
            }
            assert forall|i0: int, k0: int|
                comes_before(i0, k0, i, k + 1) && (#[trigger] resource_at(systems, group, i0, k0)) is Some implies holds(
                next,
                resource_at(systems, group, i0, k0)->0,
            ) by {
                let other = resource_at(systems, group, i0, k0)->0;
                lemma_merged_holds(list, asked, other);
                if !(i0 == i && k0 == k) {
                    assert(comes_before(i0, k0, i, k));
                }
            }
        },
    }
}

/// Past the last parameter of a system comes the first of the next.
pub proof fn lemma_merged_next(systems: Seq<SystemDef>, group: Seq<char>, list: Seq<Asked>, i: int, k: int)
    requires
        merged_up_to(systems, group, list, i, k),
        !(0 <= i < systems.len()) || systems[i].group@ != group || k >= systems[i].params@.len(),
        k >= 0,
    ensures
        merged_up_to(systems, group, list, i + 1, 0),
{
    assert forall|p: int| 0 <= p < list.len() implies asked_before(
        systems,
        group,
        #[trigger] list[p],
        i + 1,
        0,
    ) by {
        lemma_asked_before_later(systems, group, list[p], i, k, i + 1, 0);
    }
    assert forall|i0: int, k0: int|
        comes_before(i0, k0, i + 1, 0) && (#[trigger] resource_at(systems, group, i0, k0)) is Some implies holds(
        list,
        resource_at(systems, group, i0, k0)->0,
    ) by {
        assert(comes_before(i0, k0, i, k));
    }
}

/// Takes one parameter into a list of resources.
pub fn merge_param(params: &mut Vec<SystemDefParamReference>, asked: &SystemDefParamReference)
    requires
        is_merged(asked_views(old(params)@)),
    ensures
        asked_views(final(params)@) == merged(asked_views(old(params)@), asked_of(*asked)),
{
    let ghost list = asked_views(params@);
    let ghost new = asked_of(*asked);
    let mut p: usize = 0;
    while p < params.len()
        invariant
            p <= params@.len(),
            list == asked_views(params@),
            params@ == old(params)@,
            new == asked_of(*asked),
            is_merged(list),
            forall|q: int| 0 <= q < p ==> !same_resource(#[trigger] list[q], new),
        decreases params@.len() - p,
    {
        if params[p].name == asked.name && params[p].ty == asked.ty {
            proof {
                assert(same_resource(list[p as int], new));
                let at = choose|q: int| 0 <= q < list.len() && same_resource(#[trigger] list[q], new);
                if at < p {
                    assert(!same_resource(list[at], new));
                } else if at > p {
                    assert(!same_resource(list[p as int], list[at]));
                }
            }
            if asked.mutable {
                params[p].mutable = true;
            }
            assert(asked_views(params@) =~= merged(list, new));
            return ;
        }
        p += 1;
    }
    assert(!exists|q: int| 0 <= q < list.len() && same_resource(#[trigger] list[q], new));
    let mut at: usize = 0;
    while at < params.len() && !name_precedes(asked.name.as_str(), params[at].name.as_str())
        invariant
            at <= params@.len(),
            list == asked_views(params@),
            new == asked_of(*asked),
            forall|q: int| 0 <= q < at ==> !precedes(sort_key(new.name), sort_key((#[trigger] list[q]).name)),
        decreases params@.len() - at,
    {
        assert(list[at as int].name == params@[at as int].name@);
        at += 1;
    }
    proof {
        if at < params@.len() {
            assert(list[at as int].name == params@[at as int].name@);
        }
        lemma_place_of(list, new, at as int);
    }
    let copy = SystemDefParamReference { name: asked.name.clone(), ty: asked.ty.clone(), mutable: asked.mutable };
    params.insert(at, copy);
    assert(asked_views(params@) =~= merged(list, new));
}

/// The list of resources after the parameters before parameter `k` of system
/// `i` have been taken in, one after the other, system by system.
pub open spec fn taken_in(systems: Seq<SystemDef>, group: Seq<char>, i: int, k: int) -> Seq<Asked>
    decreases i, k,
{
    if k > 0 {
        match resource_at(systems, group, i, k - 1) {
            Some(asked) => merged(taken_in(systems, group, i, k - 1), asked),
            None => taken_in(systems, group, i, k - 1),
        }
    } else if i > 0 {
        taken_in(
            systems,
            group,
            i - 1,
            if i - 1 < systems.len() {
                systems[i - 1].params@.len() as int
            } else {
                0
            },
        )
    } else {
        Seq::empty()
    }
}

/// A system of another group adds nothing to the list.
pub proof fn lemma_taken_in_skips(systems: Seq<SystemDef>, group: Seq<char>, i: int, k: int)
    requires
        0 <= i < systems.len(),
        systems[i].group@ != group,
        0 <= k,
    ensures
        taken_in(systems, group, i, k) == taken_in(systems, group, i, 0),
    decreases k,
{
    if k > 0 {
        lemma_taken_in_skips(systems, group, i, k - 1);
    }
}

/// The resources that running a group takes: the parameters of the group's
/// systems taken in one after the other. Each resource that a system of the
/// group asks for stands in the list once, with exclusive access if any of them
/// asks so, and the names do not go down.
pub fn group_params(systems: &Vec<SystemDef>, group: &String) -> (params: Vec<SystemDefParamReference>)
    ensures
        asked_views(params@) == taken_in(systems@, group@, systems@.len() as int, 0),
        are_group_params(systems@, group@, params@),
{
    let mut params: Vec<SystemDefParamReference> = Vec::new();
    assert(asked_views(params@) =~= taken_in(systems@, group@, 0, 0));
    let mut i: usize = 0;
    while i < systems.len()
        invariant
            i <= systems@.len(),
            asked_views(params@) == taken_in(systems@, group@, i as int, 0),
            merged_up_to(systems@, group@, asked_views(params@), i as int, 0),
        decreases systems@.len() - i,
    {
        if systems[i].group == *group {
            let mut k: usize = 0;
            while k < systems[i].params.len()
                invariant
                    i < systems@.len(),
                    systems@[i as int].group@ == group@,
                    k <= systems@[i as int].params@.len(),
                    asked_views(params@) == taken_in(systems@, group@, i as int, k as int),
                    merged_up_to(systems@, group@, asked_views(params@), i as int, k as int),
                decreases systems@[i as int].params@.len() - k,
            {
                proof {
                    lemma_merged_step(systems@, group@, asked_views(params@), i as int, k as int);
                }
                match &systems[i].params[k] {
                    SystemDefParam::Reference(r) => {
                        assert(resource_at(systems@, group@, i as int, k as int) == Some(asked_of(*r)));
                        merge_param(&mut params, r);
                    },
                    SystemDefParam::Query(_) => {},
                }
                k += 1;
            }
            proof {
                lemma_merged_next(systems@, group@, asked_views(params@), i as int, k as int);
            }
        } else {
            proof {
                lemma_merged_next(systems@, group@, asked_views(params@), i as int, 0);
                lemma_taken_in_skips(systems@, group@, i as int, systems@[i as int].params@.len() as int);
            }
        }
        i += 1;
    }
    params
}

/// The views of the names of the groups of a schedule.
pub open spec fn group_name_views(groups: Seq<SystemGroup>) -> Seq<Seq<char>> {
    Seq::new(groups.len(), |g: int| groups[g].name@)
}

/// The positions of the systems that the calls of a group make.
pub open spec fn called_systems(calls: Seq<SystemCall>) -> Seq<usize> {
    Seq::new(calls.len(), |c: int| calls[c].system)
}

/// A group of a schedule is what its name asks for: it calls the systems of
/// that group in running order, each with one argument for each parameter,
/// and takes the resources that those systems ask for.
pub open spec fn is_group_of(group: SystemGroup, systems: Seq<SystemDef>) -> bool {
    &&& is_running_order(systems, group.name@, called_systems(group.calls@))
    &&& forall|c: int|
        0 <= c < group.calls@.len() ==> is_call_of(
            #[trigger] group.calls@[c],
            systems,
            group.calls@[c].system as int,
        )
    &&& asked_views(group.params@) == taken_in(systems, group.name@, systems.len() as int, 0)
    &&& are_group_params(systems, group.name@, group.params@)
}

/// The schedule of a program: one group for each group that its systems
/// name, in the order of first mention.
pub fn schedule(systems: &Vec<SystemDef>) -> (groups: Vec<SystemGroup>)
    ensures
        group_name_views(groups@) == distinct(groups_of(systems@)),
        forall|g: int| 0 <= g < groups@.len() ==> is_group_of(#[trigger] groups@[g], systems@),
{
    let names = group_names(systems);
    let mut groups: Vec<SystemGroup> = Vec::new();
    let mut g: usize = 0;
    while g < names.len()
        invariant
            g <= names@.len(),
            groups@.len() == g,
            strings(names@) == distinct(groups_of(systems@)),
            forall|m: int| 0 <= m < g ==> (#[trigger] groups@[m]).name@ == names@[m]@,
            forall|m: int| 0 <= m < g ==> is_group_of(#[trigger] groups@[m], systems@),
        decreases names@.len() - g,
    {
        let order = members(systems, &names[g]);
        let mut calls: Vec<SystemCall> = Vec::new();
        let mut c: usize = 0;
        while c < order.len()
            invariant
                c <= order@.len(),
                calls@.len() == c,
                forall|a: int| 0 <= a < order@.len() ==> (#[trigger] order@[a]) < systems@.len(),
                forall|m: int|
                    0 <= m < c ==> (#[trigger] calls@[m]).system == order@[m] && is_call_of(
                        calls@[m],
                        systems@,
                        order@[m] as int,
                    ),
            decreases order@.len() - c,
        {
            calls.push(call_of(systems, order[c]));
            c += 1;
        }
        assert(called_systems(calls@) =~= order@);
        let params = group_params(systems, &names[g]);
        groups.push(SystemGroup { name: names[g].clone(), params, calls });
        g += 1;
    }
    assert(group_name_views(groups@) =~= strings(names@));
    groups
}

} // verus!
