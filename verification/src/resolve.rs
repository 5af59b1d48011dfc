//! Dependency resolution: validates a server list for referential integrity
//! and acyclicity and produces an activation order in which every server
//! stands after all of its dependencies.
//!
//! The traversal is a depth-first search seeded in input order, with an
//! explicit stack instead of recursion so that a deep dependency chain cannot
//! exhaust the call stack. Cycle detection triggers on re-entering a server
//! that is still in progress, and the reported name is the re-entered one: a
//! deterministic, traversal-order-dependent choice.
use vstd::prelude::*;
use vstd::set_lib::lemma_int_range;
use vstd::set_lib::lemma_len_subset;
use vstd::set_lib::set_int_range;

use crate::model::ServerConfigError;
use crate::model::Server;
use crate::model::all_deps_defined;
use crate::model::has_server_named;
use crate::model::names_unique;

verus! {

/// Server `a` of `ss` lists the name of server `b` among its dependencies.
pub open spec fn is_dep_of(ss: Seq<Server>, a: int, b: int) -> bool {
    exists|j: int| 0 <= j < ss[a].depends.len() && ss[a].depends[j]@ == ss[b].name@
}

/// `c` is a dependency cycle in `ss`: each entry depends on the next, and the
/// last depends on the first.
pub open spec fn is_dep_cycle(ss: Seq<Server>, c: Seq<int>) -> bool {
    &&& c.len() > 0
    &&& forall|i: int| 0 <= i < c.len() ==> 0 <= #[trigger] c[i] < ss.len()
    &&& forall|i: int| 0 <= i < c.len() - 1 ==> is_dep_of(ss, #[trigger] c[i], c[i + 1])
    &&& is_dep_of(ss, c[c.len() - 1], c[0])
}

/// No dependency cycle exists in `ss`.
pub open spec fn acyclic(ss: Seq<Server>) -> bool {
    forall|c: Seq<int>| !is_dep_cycle(ss, c)
}

/// Dependency `j` of server `i` of `r` names a server at an earlier position.
pub open spec fn dep_before_at(r: Seq<Server>, i: int, j: int) -> bool {
    exists|k: int| 0 <= k < i && r[k].name@ == r[i].depends[j]@
}

/// Every dependency of every server of `r` names a server earlier in `r`:
/// `r` is a topological order, dependencies first.
pub open spec fn deps_before(r: Seq<Server>) -> bool {
    forall|i: int, j: int|
        0 <= i < r.len() && 0 <= j < r[i].depends.len() ==> #[trigger] dep_before_at(r, i, j)
}

/// `p` witnesses that `r` is a reordering of `ss`: `p` is a permutation of
/// the positions of `ss`, and entry `i` of `r` is entry `p[i]` of `ss`.
pub open spec fn is_reordering_by(r: Seq<Server>, ss: Seq<Server>, p: Seq<int>) -> bool {
    &&& p.len() == ss.len()
    &&& r.len() == ss.len()
    &&& forall|i: int| 0 <= i < p.len() ==> 0 <= #[trigger] p[i] < ss.len()
    &&& forall|i: int, j: int| 0 <= i < j < p.len() ==> p[i] != p[j]
    &&& forall|i: int| 0 <= i < r.len() ==> (#[trigger] r[i]).deep_view() == ss[p[i]].deep_view()
}

/// `r` holds exactly the servers of `ss`, reordered.
pub open spec fn is_reordering(r: Seq<Server>, ss: Seq<Server>) -> bool {
    exists|p: Seq<int>| is_reordering_by(r, ss, p)
}

/// What each error of the resolver witnesses about the input.
pub open spec fn resolve_error_witnessed(ss: Seq<Server>, e: ServerConfigError) -> bool {
    match e {
        ServerConfigError::UndefinedDependency(d) => {
            &&& !has_server_named(ss, d@)
            &&& exists|i: int, j: int|
                0 <= i < ss.len() && 0 <= j < ss[i].depends.len() && #[trigger] ss[i].depends[j]@
                    == d@
        },
        ServerConfigError::CircularDependency(nm) => exists|c: Seq<int>|
            is_dep_cycle(ss, c) && ss[#[trigger] c[0]].name@ == nm@,
        _ => false,
    }
}

/// The set of positions holding `true`.
pub closed spec fn set_of_true(s: Seq<bool>) -> Set<int> {
    Set::new(|v: int| 0 <= v < s.len() && s[v])
}

proof fn lemma_set_of_true_bound(s: Seq<bool>)
    ensures
        set_of_true(s).finite(),
        set_of_true(s).len() <= s.len(),
        (forall|v: int| 0 <= v < s.len() ==> s[v]) ==> set_of_true(s).len() == s.len(),
{
    lemma_int_range(0, s.len() as int);
    lemma_len_subset(set_of_true(s), set_int_range(0, s.len() as int));
    if forall|v: int| 0 <= v < s.len() ==> s[v] {
        assert(set_of_true(s) =~= set_int_range(0, s.len() as int));
    }
}

proof fn lemma_set_of_true_update(s: Seq<bool>, v: int, b: bool)
    requires
        0 <= v < s.len(),
    ensures
        b && !s[v] ==> set_of_true(s.update(v, b)) =~= set_of_true(s).insert(v),
        !b ==> set_of_true(s.update(v, b)) =~= set_of_true(s).remove(v),
{
}

/// Position `v` occurs in `sorted`.
pub open spec fn in_sorted(sorted: Seq<usize>, v: int) -> bool {
    exists|a: int| 0 <= a < sorted.len() && (#[trigger] sorted[a]) as int == v
}

/// Dependency `j` of the server at emit position `a` names a server emitted
/// earlier.
pub open spec fn sorted_dep_ok(ss: Seq<Server>, sorted: Seq<usize>, a: int, j: int) -> bool {
    exists|b: int|
        0 <= b < a && ss[sorted[b] as int].name@ == ss[sorted[a] as int].depends[j]@
}

/// The emitted positions form a topological order of the servers they name.
pub open spec fn sorted_topo(ss: Seq<Server>, sorted: Seq<usize>) -> bool {
    forall|a: int, j: int|
        0 <= a < sorted.len() && 0 <= j < ss[sorted[a] as int].depends.len()
            ==> #[trigger] sorted_dep_ok(ss, sorted, a, j)
}

/// Position `v` is held by some stack entry.
pub open spec fn stack_has(stack: Seq<(usize, usize)>, v: int) -> bool {
    exists|m: int| 0 <= m < stack.len() && (#[trigger] stack[m]).0 as int == v
}

/// Position `v` is held by a stack entry strictly above `m`.
pub open spec fn stack_has_above(stack: Seq<(usize, usize)>, m: int, v: int) -> bool {
    exists|m2: int| m < m2 < stack.len() && (#[trigger] stack[m2]).0 as int == v
}

/// Dependency `j` of the server of stack entry `m` has already been
/// dispatched: it names a server that is either fully visited or still on the
/// stack above `m`.
pub open spec fn dep_settled(
    ss: Seq<Server>,
    visited: Seq<bool>,
    stack: Seq<(usize, usize)>,
    m: int,
    j: int,
) -> bool {
    exists|v: int|
        0 <= v < ss.len() && ss[v].name@ == ss[stack[m].0 as int].depends[j]@ && (visited[v]
            || stack_has_above(stack, m, v))
}

/// Invariant of the traversal outside the stack: bookkeeping lengths, the
/// emitted list is duplicate-free, agrees with `visited`, and is in
/// topological order.
pub open spec fn inv_base(
    ss: Seq<Server>,
    visited: Seq<bool>,
    visiting: Seq<bool>,
    sorted: Seq<usize>,
) -> bool {
    &&& visited.len() == ss.len()
    &&& visiting.len() == ss.len()
    &&& forall|a: int| 0 <= a < sorted.len() ==> (#[trigger] sorted[a]) < ss.len()
    &&& forall|a: int, b: int| 0 <= a < b < sorted.len() ==> sorted[a] != sorted[b]
    &&& forall|v: int| 0 <= v < ss.len() ==> ((#[trigger] visited[v]) <==> in_sorted(sorted, v))
    &&& forall|v: int| 0 <= v < ss.len() ==> !((#[trigger] visited[v]) && visiting[v])
    &&& sorted.len() == set_of_true(visited).len()
    &&& sorted_topo(ss, sorted)
}

/// Invariant of the explicit stack: entries are in range, pairwise distinct,
/// agree with `visiting`, form a dependency chain, and all dependencies below
/// each entry's counter are settled.
pub open spec fn inv_stack(
    ss: Seq<Server>,
    visited: Seq<bool>,
    visiting: Seq<bool>,
    stack: Seq<(usize, usize)>,
) -> bool {
    &&& forall|m: int| 0 <= m < stack.len() ==> ((#[trigger] stack[m]).0 as int) < ss.len()
    &&& forall|m: int|
        0 <= m < stack.len() ==> ((#[trigger] stack[m]).1 as int) <= ss[stack[m].0 as int].depends.len()
    &&& forall|m1: int, m2: int| 0 <= m1 < m2 < stack.len() ==> stack[m1].0 != stack[m2].0
    &&& forall|v: int| 0 <= v < ss.len() ==> ((#[trigger] visiting[v]) <==> stack_has(stack, v))
    &&& forall|m: int|
        0 <= m < stack.len() - 1 ==> is_dep_of(ss, (#[trigger] stack[m]).0 as int, stack[m + 1].0 as int)
    &&& forall|m: int, j: int|
        0 <= m < stack.len() && 0 <= j < stack[m].1 ==> #[trigger] dep_settled(
            ss,
            visited,
            stack,
            m,
            j,
        )
}

/// The machine state of the traversal: the specification-level model of the
/// executable search, down to the explicit stack.
#[verifier::ext_equal]
pub ghost struct RState {
    pub visited: Seq<bool>,
    pub visiting: Seq<bool>,
    pub sorted: Seq<usize>,
    pub stack: Seq<(usize, usize)>,
    pub outcome: ROutcome,
}

/// Whether the traversal is still running or has recorded an error.
#[verifier::ext_equal]
pub ghost enum ROutcome {
    Running,
    Undefined { name: Seq<char> },
    Circular { name: Seq<char> },
}

/// What the whole resolution yields: the emission order, as positions into
/// the input, or the error the traversal hit first.
#[verifier::ext_equal]
pub ghost enum ResolveOutcome {
    Order { order: Seq<usize> },
    Undefined { name: Seq<char> },
    Circular { name: Seq<char> },
}

/// `n` flags, all false.
pub open spec fn false_flags(n: nat) -> Seq<bool> {
    Seq::new(n, |i: int| false)
}

/// The position of the first server named `d`, scanning from `i`.
pub open spec fn first_index_named(ss: Seq<Server>, d: Seq<char>, i: int) -> Option<int>
    decreases ss.len() - i,
{
    if i < 0 || i >= ss.len() {
        None
    } else if ss[i].name@ == d {
        Some(i)
    } else {
        first_index_named(ss, d, i + 1)
    }
}

proof fn lemma_first_index_some(ss: Seq<Server>, d: Seq<char>, v: int, i: int)
    requires
        0 <= i <= v < ss.len(),
        ss[v].name@ == d,
        forall|w: int| i <= w < v ==> ss[w].name@ != d,
    ensures
        first_index_named(ss, d, i) == Some(v),
    decreases v - i,
{
    if i < v {
        lemma_first_index_some(ss, d, v, i + 1);
    }
}

proof fn lemma_first_index_bounds(ss: Seq<Server>, d: Seq<char>, i: int)
    requires
        0 <= i,
    ensures
        first_index_named(ss, d, i) matches Some(v) ==> i <= v < ss.len() && ss[v].name@ == d,
    decreases ss.len() - i,
{
    if i < ss.len() && ss[i].name@ != d {
        lemma_first_index_bounds(ss, d, i + 1);
    }
}

proof fn lemma_first_index_none(ss: Seq<Server>, d: Seq<char>, i: int)
    requires
        0 <= i,
        forall|w: int| 0 <= w < ss.len() ==> ss[w].name@ != d,
    ensures
        first_index_named(ss, d, i) is None,
    decreases ss.len() - i,
{
    if i < ss.len() {
        lemma_first_index_none(ss, d, i + 1);
    }
}

/// One move of the traversal machine: examine the top entry's next
/// dependency — recording an error on an unknown name or a re-entered,
/// still-in-progress server, descending into an unvisited one — or emit the
/// top entry once its dependency counter is exhausted.
pub open spec fn dfs_step(ss: Seq<Server>, st: RState) -> RState {
    let top = st.stack.len() - 1;
    let u = st.stack[top].0;
    let k = st.stack[top].1;
    if (k as int) < ss[u as int].depends.len() {
        let stack1 = st.stack.update(top, (u, (k + 1) as usize));
        let d = ss[u as int].depends[k as int]@;
        match first_index_named(ss, d, 0) {
            Option::None => RState {
                stack: stack1,
                outcome: ROutcome::Undefined { name: d },
                ..st
            },
            Option::Some(v) => {
                if st.visiting[v] {
                    RState {
                        stack: stack1,
                        outcome: ROutcome::Circular { name: ss[v].name@ },
                        ..st
                    }
                } else if !st.visited[v] {
                    RState {
                        visiting: st.visiting.update(v, true),
                        stack: stack1.push((v as usize, 0usize)),
                        ..st
                    }
                } else {
                    RState { stack: stack1, ..st }
                }
            },
        }
    } else {
        RState {
            visited: st.visited.update(u as int, true),
            visiting: st.visiting.update(u as int, false),
            sorted: st.sorted.push(u),
            stack: st.stack.drop_last(),
            ..st
        }
    }
}

/// What the termination measure of the traversal machine needs of a state.
pub open spec fn run_wf(ss: Seq<Server>, st: RState) -> bool {
    &&& st.visited.len() == ss.len()
    &&& st.visiting.len() == ss.len()
    &&& st.sorted.len() == set_of_true(st.visited).len()
    &&& forall|m: int| 0 <= m < st.stack.len() ==> ((#[trigger] st.stack[m]).0 as int) < ss.len()
    &&& forall|m: int|
        0 <= m < st.stack.len() ==> ((#[trigger] st.stack[m]).1 as int)
            <= ss[st.stack[m].0 as int].depends.len()
    &&& forall|m: int|
        0 <= m < st.stack.len() ==> !st.visited[(#[trigger] st.stack[m]).0 as int]
}

/// Runs the traversal machine until an error is recorded or the stack is
/// empty.
pub open spec fn dfs_run(ss: Seq<Server>, st: RState) -> RState
    decreases
            ss.len() - st.sorted.len(),
            ss.len() - set_of_true(st.visiting).len(),
            (if st.stack.len() > 0 {
                ss[st.stack.last().0 as int].depends.len() - st.stack.last().1 as int
            } else {
                0int
            }),
        when run_wf(ss, st)
        via dfs_run_decreases
{
    if !(st.outcome is Running) || st.stack.len() == 0 {
        st
    } else {
        dfs_run(ss, dfs_step(ss, st))
    }
}

#[via_fn]
proof fn dfs_run_decreases(ss: Seq<Server>, st: RState) {
    if st.outcome is Running && st.stack.len() > 0 {
        let st2 = dfs_step(ss, st);
        lemma_set_of_true_bound(st.visited);
        lemma_set_of_true_bound(st.visiting);
        lemma_set_of_true_bound(st2.visited);
        lemma_set_of_true_bound(st2.visiting);
        let top = st.stack.len() - 1;
        let u = st.stack[top].0;
        let k = st.stack[top].1;
        if (k as int) < ss[u as int].depends.len() {
            assert(ss[u as int].depends.len() <= usize::MAX);
            assert(st2.sorted == st.sorted);
            let stack1 = st.stack.update(top, (u, (k + 1) as usize));
            assert(stack1.last() == (u, (k + 1) as usize));
            let d = ss[u as int].depends[k as int]@;
            lemma_first_index_bounds(ss, d, 0);
            match first_index_named(ss, d, 0) {
                Option::None => {
                    assert(st2.stack.last() == (u, (k + 1) as usize));
                },
                Option::Some(v) => {
                    assert(0 <= v < ss.len());
                    if st.visiting[v] || st.visited[v] {
                        assert(st2.stack.last() == (u, (k + 1) as usize));
                        assert(st2.visiting == st.visiting);
                        assert(st2.sorted == st.sorted);
                    } else {
                        lemma_set_of_true_update(st.visiting, v, true);
                        assert(set_of_true(st2.visiting).len() == set_of_true(st.visiting).len()
                            + 1);
                    }
                },
            }
        } else {
            assert(!st.visited[u as int]);
            lemma_set_of_true_update(st.visited, u as int, true);
            assert(set_of_true(st2.visited).len() == set_of_true(st.visited).len() + 1);
        }
    }
}

/// The state in which one rooted pass of the traversal starts.
pub open spec fn seed_state(
    ss: Seq<Server>,
    visited: Seq<bool>,
    sorted: Seq<usize>,
    root: int,
) -> RState {
    RState {
        visited,
        visiting: false_flags(ss.len()).update(root, true),
        sorted,
        stack: seq![(root as usize, 0usize)],
        outcome: ROutcome::Running,
    }
}

/// Seeds the traversal at every position from `root` on, in input order,
/// skipping the already-visited ones, and carries the emission order
/// through; stops at the first error.
pub open spec fn seed_run(
    ss: Seq<Server>,
    visited: Seq<bool>,
    sorted: Seq<usize>,
    root: int,
) -> ResolveOutcome
    decreases ss.len() - root,
{
    if root < 0 || root >= ss.len() {
        ResolveOutcome::Order { order: sorted }
    } else if visited[root] {
        seed_run(ss, visited, sorted, root + 1)
    } else {
        let fin = dfs_run(ss, seed_state(ss, visited, sorted, root));
        match fin.outcome {
            ROutcome::Running => seed_run(ss, fin.visited, fin.sorted, root + 1),
            ROutcome::Undefined { name } => ResolveOutcome::Undefined { name },
            ROutcome::Circular { name } => ResolveOutcome::Circular { name },
        }
    }
}

/// The one result the resolver is allowed to produce for `ss`: the emission
/// order of the depth-first traversal seeded in input order, descending into
/// each server's dependencies in their written order — or the first error
/// that traversal hits. A pure function of the input list.
pub open spec fn resolve_model(ss: Seq<Server>) -> ResolveOutcome {
    seed_run(ss, false_flags(ss.len()), Seq::empty(), 0)
}

/// A still-running machine state assembled from the traversal's bookkeeping.
pub open spec fn running_state(
    visited: Seq<bool>,
    visiting: Seq<bool>,
    sorted: Seq<usize>,
    stack: Seq<(usize, usize)>,
) -> RState {
    RState { visited, visiting, sorted, stack, outcome: ROutcome::Running }
}

/// The traversal invariants imply what the machine's termination measure
/// needs.
proof fn lemma_wf_of_state(
    ss: Seq<Server>,
    visited: Seq<bool>,
    visiting: Seq<bool>,
    sorted: Seq<usize>,
    stack: Seq<(usize, usize)>,
)
    requires
        inv_base(ss, visited, visiting, sorted),
        inv_stack(ss, visited, visiting, stack),
    ensures
        run_wf(ss, running_state(visited, visiting, sorted, stack)),
{
    assert forall|m: int| 0 <= m < stack.len() implies !visited[(#[trigger] stack[m]).0 as int]
        by {
        assert(stack_has(stack, stack[m].0 as int));
        assert(visiting[stack[m].0 as int]);
    }
}

/// One definitional unfolding of the machine's run.
proof fn lemma_run_unfold(ss: Seq<Server>, st: RState)
    requires
        run_wf(ss, st),
        run_wf(ss, dfs_step(ss, st)),
        st.outcome is Running,
        st.stack.len() > 0,
    ensures
        dfs_run(ss, st) == dfs_run(ss, dfs_step(ss, st)),
{
    let st2 = dfs_step(ss, st);
    assert(dfs_run(ss, st) == dfs_run(ss, st2));
}

/// A step that records an error ends the run in the stepped state.
proof fn lemma_run_to_error(ss: Seq<Server>, st: RState)
    requires
        run_wf(ss, st),
        st.outcome is Running,
        st.stack.len() > 0,
        (st.stack.last().1 as int) < ss[st.stack.last().0 as int].depends.len(),
        !(dfs_step(ss, st).outcome is Running),
    ensures
        dfs_run(ss, st) == dfs_step(ss, st),
{
    let st2 = dfs_step(ss, st);
    assert(run_wf(ss, st2)) by {
        assert(st2.stack == st.stack.update(
            st.stack.len() - 1,
            (st.stack.last().0, ((st.stack.last().1 + 1) as usize)),
        ));
        assert(ss[st.stack.last().0 as int].depends.len() <= usize::MAX);
        assert forall|m: int| 0 <= m < st2.stack.len() implies ((#[trigger] st2.stack[m]).0 as int)
            < ss.len() && (st2.stack[m].1 as int) <= ss[st2.stack[m].0 as int].depends.len()
            && !st2.visited[st2.stack[m].0 as int] by {
            if m < st.stack.len() - 1 {
                assert(st2.stack[m] == st.stack[m]);
            } else {
                assert(st2.stack[m].0 == st.stack.last().0);
            }
        }
    }
    assert(dfs_run(ss, st) == dfs_run(ss, st2));
    assert(dfs_run(ss, st2) == st2);
}

/// A settled dependency stays settled when the stack grows or its counters
/// move, as long as the servers of the existing entries stay in place.
proof fn lemma_settled_stack_extended(
    ss: Seq<Server>,
    visited: Seq<bool>,
    s1: Seq<(usize, usize)>,
    s2: Seq<(usize, usize)>,
    m: int,
    j: int,
)
    requires
        0 <= m < s1.len(),
        s1.len() <= s2.len(),
        forall|i: int| 0 <= i < s1.len() ==> (#[trigger] s2[i]).0 == s1[i].0,
        dep_settled(ss, visited, s1, m, j),
    ensures
        dep_settled(ss, visited, s2, m, j),
{
    let v2 = choose|v2: int|
        0 <= v2 < ss.len() && ss[v2].name@ == ss[s1[m].0 as int].depends[j]@ && (visited[v2]
            || stack_has_above(s1, m, v2));
    assert(s2[m].0 == s1[m].0);
    if !visited[v2] {
        let m2 = choose|m2: int| m < m2 < s1.len() && (#[trigger] s1[m2]).0 as int == v2;
        assert(s2[m2].0 == s1[m2].0);
        assert(stack_has_above(s2, m, v2));
    }
}

/// A settled dependency stays settled when the top entry is popped and its
/// server marked visited.
#[verifier::spinoff_prover]
proof fn lemma_settled_stack_popped(
    ss: Seq<Server>,
    visited1: Seq<bool>,
    visited2: Seq<bool>,
    s1: Seq<(usize, usize)>,
    m: int,
    j: int,
)
    requires
        s1.len() >= 1,
        0 <= m < s1.len() - 1,
        visited1.len() == ss.len(),
        visited2.len() == ss.len(),
        forall|v: int| 0 <= v < ss.len() && visited1[v] ==> visited2[v],
        (s1[s1.len() - 1].0 as int) < ss.len(),
        visited2[s1[s1.len() - 1].0 as int],
        dep_settled(ss, visited1, s1, m, j),
    ensures
        dep_settled(ss, visited2, s1.drop_last(), m, j),
{
    let s2 = s1.drop_last();
    let v2 = choose|v2: int|
        0 <= v2 < ss.len() && ss[v2].name@ == ss[s1[m].0 as int].depends[j]@ && (visited1[v2]
            || stack_has_above(s1, m, v2));
    assert(s2[m].0 == s1[m].0);
    assert(ss[v2].name@ == ss[s2[m].0 as int].depends[j]@);
    if visited1[v2] {
        assert(visited2[v2]);
    } else {
        let m2 = choose|m2: int| m < m2 < s1.len() && (#[trigger] s1[m2]).0 as int == v2;
        if m2 == s1.len() - 1 {
            assert(visited2[v2]);
        } else {
            assert(s2[m2].0 == s1[m2].0);
            assert(stack_has_above(s2, m, v2));
        }
    }
    assert(visited2[v2] || stack_has_above(s2, m, v2));
    assert(dep_settled(ss, visited2, s2, m, j));
}

/// Finds the position of the first server named `name`, scanning from the
/// front.
pub(crate) fn find_server_index(servers: &Vec<Server>, name: &String) -> (r: Option<usize>)
    ensures
        match r {
            Some(v) => v < servers.len() && servers[v as int].name@ == name@ && forall|w: int|
                0 <= w < v ==> servers[w].name@ != name@,
            None => !has_server_named(servers@, name@),
        },
{
    let mut i: usize = 0;
    while i < servers.len()
        invariant
            i <= servers.len(),
            forall|w: int| 0 <= w < i ==> servers[w].name@ != name@,
        decreases servers.len() - i,
    {
        if servers[i].name == *name {
            return Some(i);
        }
        i += 1;
    }
    None
}

fn make_flags(n: usize) -> (r: Vec<bool>)
    ensures
        r.len() == n,
        forall|v: int| 0 <= v < n ==> !r[v],
{
    let mut r: Vec<bool> = Vec::new();
    let mut i: usize = 0;
    while i < n
        invariant
            i <= n,
            r.len() == i,
            forall|v: int| 0 <= v < i ==> !r[v],
        decreases n - i,
    {
        r.push(false);
        i += 1;
    }
    r
}

/// One rooted pass of the traversal, with an explicit stack. On success the
/// root (and everything reachable from it) has been emitted; an error carries
/// a witness: an undefined name actually used, or an actual dependency cycle
/// through the named server.
#[verifier::rlimit(60)]
fn depth_first_search(
    servers: &Vec<Server>,
    root: usize,
    visited: &mut Vec<bool>,
    visiting: &mut Vec<bool>,
    sorted: &mut Vec<usize>,
) -> (r: Result<(), ServerConfigError>)
    requires
        root < old(visited).len(),
        !old(visited)[root as int],
        inv_base(servers@, old(visited)@, old(visiting)@, old(sorted)@),
        forall|v: int| 0 <= v < servers@.len() ==> !old(visiting)[v],
    ensures
        match r {
            Ok(()) => {
                &&& inv_base(servers@, final(visited)@, final(visiting)@, final(sorted)@)
                &&& forall|v: int| 0 <= v < servers@.len() ==> !final(visiting)[v]
                &&& final(visited)[root as int]
                &&& forall|v: int|
                    0 <= v < servers@.len() && old(visited)[v] ==> final(visited)[v]
                &&& ({
                    let fin = dfs_run(
                        servers@,
                        seed_state(servers@, old(visited)@, old(sorted)@, root as int),
                    );
                    fin.outcome is Running && final(visited)@ == fin.visited && final(sorted)@
                        == fin.sorted
                })
                &&& old(sorted)@.is_prefix_of(final(sorted)@)
                &&& final(sorted)@.len() > old(sorted)@.len()
                &&& final(sorted)@.last() == root
            },
            Err(e) => {
                &&& resolve_error_witnessed(servers@, e)
                &&& (match e {
                    ServerConfigError::UndefinedDependency(d) => dfs_run(
                        servers@,
                        seed_state(servers@, old(visited)@, old(sorted)@, root as int),
                    ).outcome == (ROutcome::Undefined { name: d@ }),
                    ServerConfigError::CircularDependency(nm) => dfs_run(
                        servers@,
                        seed_state(servers@, old(visited)@, old(sorted)@, root as int),
                    ).outcome == (ROutcome::Circular { name: nm@ }),
                    _ => false,
                })
            },
        },
{
    let ghost ss = servers@;
    let n = servers.len();
    let mut stack: Vec<(usize, usize)> = Vec::new();
    visiting.set(root, true);
    stack.push((root, 0));
    proof {
        lemma_set_of_true_bound(visiting@);
        lemma_set_of_true_bound(visited@);
        assert(forall|v: int|
            0 <= v < n ==> ((#[trigger] visiting@[v]) <==> stack_has(stack@, v))) by {
            assert(stack@[0].0 as int == root as int);
        }
        assert(visiting@ =~= false_flags(ss.len()).update(root as int, true));
        assert(stack@ =~= seq![(root, 0usize)]);
        assert(running_state(visited@, visiting@, sorted@, stack@) =~~= seed_state(
            ss,
            old(visited)@,
            old(sorted)@,
            root as int,
        ));
    }
    while stack.len() != 0
        invariant
            ss == servers@,
            n == ss.len(),
            root < n,
            inv_base(ss, visited@, visiting@, sorted@),
            inv_stack(ss, visited@, visiting@, stack@),
            stack@.len() > 0 ==> stack@[0].0 == root && !visited@[root as int],
            stack@.len() == 0 ==> visited@[root as int] && sorted@.len() > old(sorted)@.len()
                && sorted@.last() == root,
            old(sorted)@.is_prefix_of(sorted@),
            forall|v: int| 0 <= v < n && old(visited)[v] ==> visited@[v],
            sorted@.len() <= n,
            set_of_true(visiting@).finite(),
            set_of_true(visiting@).len() <= n,
            dfs_run(ss, running_state(visited@, visiting@, sorted@, stack@)) == dfs_run(
                ss,
                seed_state(ss, old(visited)@, old(sorted)@, root as int),
            ),
        decreases
            n - sorted@.len(),
            n - set_of_true(visiting@).len(),
            (if stack@.len() > 0 {
                ss[stack@.last().0 as int].depends.len() - stack@.last().1 as int
            } else {
                0int
            }),
    {
        let ghost pre = running_state(visited@, visiting@, sorted@, stack@);
        let top = stack.len() - 1;
        let (u, k) = stack[top];
        if k < servers[u].depends.len() {
            let ghost old_stack = stack@;
            stack.set(top, (u, k + 1));
            proof {
                assert forall|v: int|
                    0 <= v < n implies (stack_has(old_stack, v) <==> stack_has(stack@, v)) by {
                    if stack_has(old_stack, v) {
                        let m = choose|m: int|
                            0 <= m < old_stack.len() && (#[trigger] old_stack[m]).0 as int == v;
                        assert((stack@[m]).0 as int == v);
                    }
                    if stack_has(stack@, v) {
                        let m = choose|m: int|
                            0 <= m < stack@.len() && (#[trigger] stack@[m]).0 as int == v;
                        assert((old_stack[m]).0 as int == v);
                    }
                }
            }
            let dep_name = &servers[u].depends[k];
            match find_server_index(servers, dep_name) {
                None => {
                    proof {
                        assert(ss[u as int].depends[k as int]@ == dep_name@);
                        assert forall|w: int| 0 <= w < ss.len() implies ss[w].name@ != dep_name@
                            by {
                            if ss[w].name@ == dep_name@ {
                                assert(has_server_named(ss, dep_name@));
                            }
                        }
                        lemma_first_index_none(ss, dep_name@, 0);
                        lemma_wf_of_state(ss, pre.visited, pre.visiting, pre.sorted, pre.stack);
                        assert(dfs_step(ss, pre).outcome == (ROutcome::Undefined {
                            name: dep_name@,
                        }));
                        lemma_run_to_error(ss, pre);
                    }
                    return Err(ServerConfigError::UndefinedDependency(dep_name.clone()));
                },
                Some(v) => {
                    if visiting[v] {
                        let nm = servers[v].name.clone();
                        proof {
                            let m = choose|m: int|
                                0 <= m < stack@.len() && (#[trigger] stack@[m]).0 as int
                                    == v as int;
                            let c = Seq::new(
                                (stack@.len() - m) as nat,
                                |i: int| stack@[m + i].0 as int,
                            );
                            assert(c[0] == v as int);
                            assert(c[c.len() - 1] == u as int) by {
                                assert(stack@[stack@.len() - 1].0 == u);
                            }
                            assert(forall|i: int| 0 <= i < c.len() - 1 ==> is_dep_of(
                                ss,
                                #[trigger] c[i],
                                c[i + 1],
                            )) by {
                                assert(forall|i: int|
                                    0 <= i < c.len() - 1 ==> is_dep_of(
                                        ss,
                                        (#[trigger] stack@[m + i]).0 as int,
                                        stack@[m + i + 1].0 as int,
                                    ));
                            }
                            assert(is_dep_of(ss, u as int, v as int)) by {
                                assert(ss[u as int].depends[k as int]@ == ss[v as int].name@);
                            }
                            assert(is_dep_cycle(ss, c));
                            assert(ss[c[0]].name@ == nm@);
                            lemma_first_index_some(
                                ss,
                                ss[u as int].depends[k as int]@,
                                v as int,
                                0,
                            );
                            lemma_wf_of_state(
                                ss,
                                pre.visited,
                                pre.visiting,
                                pre.sorted,
                                pre.stack,
                            );
                            assert(dfs_step(ss, pre).outcome == (ROutcome::Circular {
                                name: ss[v as int].name@,
                            }));
                            lemma_run_to_error(ss, pre);
                        }
                        return Err(ServerConfigError::CircularDependency(nm));
                    }
                    if !visited[v] {
                        let ghost mid_stack = stack@;
                        let ghost mid_visiting = visiting@;
                        visiting.set(v, true);
                        stack.push((v, 0));
                        proof {
                            lemma_set_of_true_update(mid_visiting, v as int, true);
                            assert(set_of_true(visiting@).len() == set_of_true(
                                mid_visiting,
                            ).len() + 1);
                            lemma_set_of_true_bound(visiting@);
                            assert(forall|v2: int|
                                0 <= v2 < n ==> ((#[trigger] visiting@[v2]) <==> stack_has(
                                    stack@,
                                    v2,
                                ))) by {
                                assert(forall|m: int|
                                    0 <= m < mid_stack.len() ==> stack@[m] == mid_stack[m]);
                                assert(stack@[stack@.len() - 1].0 as int == v as int);
                                assert(forall|v2: int|
                                    0 <= v2 < n && stack_has(mid_stack, v2) ==> stack_has(
                                        stack@,
                                        v2,
                                    ));
                                assert(forall|v2: int|
                                    0 <= v2 < n && stack_has(stack@, v2) && v2 != v as int
                                        ==> stack_has(mid_stack, v2)) by {
                                    assert(forall|m: int|
                                        0 <= m < stack@.len() && (#[trigger] stack@[m]).0 as int
                                            != v as int ==> m < mid_stack.len());
                                }
                            }
                            assert(is_dep_of(ss, u as int, v as int)) by {
                                assert(ss[u as int].depends[k as int]@ == ss[v as int].name@);
                            }
                            assert(forall|m: int|
                                0 <= m < stack@.len() - 1 ==> is_dep_of(
                                    ss,
                                    (#[trigger] stack@[m]).0 as int,
                                    stack@[m + 1].0 as int,
                                )) by {
                                assert(stack@[stack@.len() - 2].0 == u);
                                assert(stack@[stack@.len() - 1].0 == v);
                            }
                            assert forall|m: int, j: int|
                                0 <= m < stack@.len() && 0 <= j < stack@[m].1
                                    implies #[trigger] dep_settled(ss, visited@, stack@, m, j)
                                by {
                                assert(stack@[stack@.len() - 1].1 == 0);
                                assert(m < stack@.len() - 1);
                                assert(forall|i: int|
                                    0 <= i < old_stack.len() ==> (#[trigger] stack@[i]).0
                                        == old_stack[i].0);
                                if m == top as int && j == k as int {
                                    assert(stack@[stack@.len() - 1].0 as int == v as int);
                                    assert(stack_has_above(stack@, m, v as int));
                                    assert(ss[v as int].name@
                                        == ss[stack@[m].0 as int].depends[j]@);
                                } else {
                                    assert(j < old_stack[m].1);
                                    assert(dep_settled(ss, visited@, old_stack, m, j));
                                    lemma_settled_stack_extended(
                                        ss,
                                        visited@,
                                        old_stack,
                                        stack@,
                                        m,
                                        j,
                                    );
                                }
                            }
                            lemma_first_index_some(
                                ss,
                                ss[u as int].depends[k as int]@,
                                v as int,
                                0,
                            );
                            lemma_wf_of_state(
                                ss,
                                pre.visited,
                                pre.visiting,
                                pre.sorted,
                                pre.stack,
                            );
                            assert(dfs_step(ss, pre) =~~= running_state(
                                visited@,
                                visiting@,
                                sorted@,
                                stack@,
                            ));
                            lemma_wf_of_state(ss, visited@, visiting@, sorted@, stack@);
                            lemma_run_unfold(ss, pre);
                        }
                    } else {
                        proof {
                            assert forall|m: int, j: int|
                                0 <= m < stack@.len() && 0 <= j < stack@[m].1
                                    implies #[trigger] dep_settled(ss, visited@, stack@, m, j)
                                by {
                                assert(forall|i: int|
                                    0 <= i < old_stack.len() ==> (#[trigger] stack@[i]).0
                                        == old_stack[i].0);
                                if m == top as int && j == k as int {
                                    assert(visited@[v as int]);
                                    assert(ss[v as int].name@
                                        == ss[stack@[m].0 as int].depends[j]@);
                                } else {
                                    assert(j < old_stack[m].1);
                                    assert(dep_settled(ss, visited@, old_stack, m, j));
                                    lemma_settled_stack_extended(
                                        ss,
                                        visited@,
                                        old_stack,
                                        stack@,
                                        m,
                                        j,
                                    );
                                }
                            }
                            lemma_first_index_some(
                                ss,
                                ss[u as int].depends[k as int]@,
                                v as int,
                                0,
                            );
                            lemma_wf_of_state(
                                ss,
                                pre.visited,
                                pre.visiting,
                                pre.sorted,
                                pre.stack,
                            );
                            assert(dfs_step(ss, pre) =~~= running_state(
                                visited@,
                                visiting@,
                                sorted@,
                                stack@,
                            ));
                            lemma_wf_of_state(ss, visited@, visiting@, sorted@, stack@);
                            lemma_run_unfold(ss, pre);
                        }
                    }
                },
            }
        } else {
            let ghost old_stack = stack@;
            let ghost old_visited = visited@;
            let ghost old_visiting = visiting@;
            let ghost old_sorted = sorted@;
            stack.pop();
            visiting.set(u, false);
            visited.set(u, true);
            sorted.push(u);
            proof {
                assert(!old_visited[u as int]) by {
                    assert(stack_has(old_stack, u as int)) by {
                        assert(old_stack[old_stack.len() - 1].0 as int == u as int);
                    }
                }
                lemma_set_of_true_update(old_visited, u as int, true);
                assert(set_of_true(visited@).len() == set_of_true(old_visited).len() + 1) by {
                    lemma_set_of_true_bound(old_visited);
                }
                lemma_set_of_true_bound(visited@);
                lemma_set_of_true_update(old_visiting, u as int, false);
                lemma_set_of_true_bound(visiting@);
                // the popped server leaves `visiting`, everything else stays
                assert(forall|v2: int|
                    0 <= v2 < n ==> ((#[trigger] visiting@[v2]) <==> stack_has(stack@, v2))) by {
                    assert(forall|m: int| 0 <= m < stack@.len() ==> stack@[m] == old_stack[m]);
                    assert(forall|v2: int|
                        0 <= v2 < n && stack_has(stack@, v2) ==> stack_has(old_stack, v2));
                    assert(forall|v2: int|
                        0 <= v2 < n && v2 != u as int && stack_has(old_stack, v2)
                            ==> stack_has(stack@, v2)) by {
                        assert(forall|m: int|
                            0 <= m < old_stack.len() && (#[trigger] old_stack[m]).0 as int != u as int
                                ==> m < old_stack.len() - 1);
                    }
                    assert(!stack_has(stack@, u as int)) by {
                        assert(forall|m: int|
                            0 <= m < stack@.len() ==> (#[trigger] stack@[m]).0
                                != old_stack[old_stack.len() - 1].0);
                    }
                }
                // the emitted list stays duplicate-free and agrees with `visited`
                assert(forall|v2: int|
                    0 <= v2 < n ==> ((#[trigger] visited@[v2]) <==> in_sorted(sorted@, v2))) by {
                    assert(forall|a: int|
                        0 <= a < old_sorted.len() ==> sorted@[a] == old_sorted[a]);
                    assert(sorted@[sorted@.len() - 1] as int == u as int);
                    assert(forall|v2: int|
                        0 <= v2 < n && in_sorted(old_sorted, v2) ==> in_sorted(sorted@, v2));
                    assert(forall|v2: int|
                        0 <= v2 < n && v2 != u as int && in_sorted(sorted@, v2) ==> in_sorted(
                            old_sorted,
                            v2,
                        )) by {
                        assert(forall|a: int|
                            0 <= a < sorted@.len() && (#[trigger] sorted@[a]) as int != u as int
                                ==> a < old_sorted.len());
                    }
                }
                // every dependency of the popped server was settled, and with the
                // stack above it gone, settled now means emitted earlier
                assert(sorted_topo(ss, sorted@)) by {
                    assert forall|a: int, j: int|
                        0 <= a < old_sorted.len() && 0 <= j < ss[old_sorted[a] as int].depends.len()
                            implies #[trigger] sorted_dep_ok(ss, sorted@, a, j) by {
                        assert(sorted_dep_ok(ss, old_sorted, a, j));
                        let b = choose|b: int|
                            0 <= b < a && ss[old_sorted[b] as int].name@
                                == ss[old_sorted[a] as int].depends[j]@;
                        assert(sorted@[b] == old_sorted[b]);
                        assert(sorted@[a] == old_sorted[a]);
                    }
                    assert(forall|j: int|
                        0 <= j < ss[u as int].depends.len() ==> sorted_dep_ok(
                            ss,
                            sorted@,
                            old_sorted.len() as int,
                            j,
                        )) by {
                        assert(forall|j: int|
                            0 <= j < ss[u as int].depends.len() ==> #[trigger] dep_settled(
                                ss,
                                old_visited,
                                old_stack,
                                old_stack.len() - 1,
                                j,
                            ));
                        assert forall|j: int| 0 <= j < ss[u as int].depends.len() implies
                            sorted_dep_ok(ss, sorted@, old_sorted.len() as int, j) by {
                            assert(dep_settled(
                                ss,
                                old_visited,
                                old_stack,
                                old_stack.len() - 1,
                                j,
                            ));
                            let v2 = choose|v2: int|
                                0 <= v2 < ss.len() && ss[v2].name@
                                    == ss[old_stack[old_stack.len() - 1].0 as int].depends[j]@ && (
                                old_visited[v2] || stack_has_above(
                                    old_stack,
                                    old_stack.len() - 1,
                                    v2,
                                ));
                            assert(old_visited[v2]);
                            assert(in_sorted(old_sorted, v2));
                            let b = choose|b: int|
                                0 <= b < old_sorted.len() && (#[trigger] old_sorted[b]) as int
                                    == v2;
                            assert(sorted@[b] as int == v2);
                            assert(ss[sorted@[b] as int].name@
                                == ss[sorted@[old_sorted.len() as int] as int].depends[j]@);
                        }
                    }
                }
                // dependencies settled for the remaining stack: the popped entry
                // is now visited
                assert(forall|m: int, j: int|
                    0 <= m < stack@.len() && 0 <= j < stack@[m].1 ==> #[trigger] dep_settled(
                        ss,
                        visited@,
                        stack@,
                        m,
                        j,
                    )) by {
                    assert forall|m: int, j: int|
                        0 <= m < stack@.len() && 0 <= j < stack@[m].1 implies #[trigger] dep_settled(
                        ss,
                        visited@,
                        stack@,
                        m,
                        j,
                    ) by {
                        assert(stack@[m] == old_stack[m]);
                        assert(dep_settled(ss, old_visited, old_stack, m, j));
                        assert(stack@ == old_stack.drop_last());
                        lemma_settled_stack_popped(ss, old_visited, visited@, old_stack, m, j);
                    }
                    lemma_wf_of_state(ss, pre.visited, pre.visiting, pre.sorted, pre.stack);
                    assert(dfs_step(ss, pre) =~~= running_state(
                        visited@,
                        visiting@,
                        sorted@,
                        stack@,
                    ));
                    lemma_wf_of_state(ss, visited@, visiting@, sorted@, stack@);
                    lemma_run_unfold(ss, pre);
                    assert(old(sorted)@.is_prefix_of(sorted@)) by {
                        assert(sorted@.subrange(0, old(sorted)@.len() as int) =~= old(sorted)@);
                    }
                    if stack@.len() == 0 {
                        assert(pre.stack.len() == 1);
                        assert(pre.stack[0].0 == root);
                        assert(sorted@.last() == root);
                        assert(sorted@.len() > old(sorted)@.len());
                    } else {
                        assert(stack@[0].0 == root) by {
                            assert(stack@[0] == pre.stack[0]);
                        }
                        assert(u != root) by {
                            assert(pre.stack[pre.stack.len() - 1].0 == u);
                            assert(pre.stack[0].0 == root);
                        }
                        assert(!visited@[root as int]);
                    }
                }
            }
        }
    }
    proof {
        lemma_wf_of_state(ss, visited@, visiting@, sorted@, stack@);
        assert(dfs_run(ss, running_state(visited@, visiting@, sorted@, stack@))
            == running_state(visited@, visiting@, sorted@, stack@));
    }
    Ok(())
}

/// Value `v` occurs in `p`.
pub open spec fn appears_in(p: Seq<int>, v: int) -> bool {
    exists|a: int| 0 <= a < p.len() && #[trigger] p[a] == v
}

/// Two servers with equal mathematical values agree on name and dependencies.
proof fn lemma_same_deep_view_server(a: Server, b: Server)
    requires
        a.deep_view() == b.deep_view(),
    ensures
        a.name@ == b.name@,
        a.depends.len() == b.depends.len(),
        forall|j: int| 0 <= j < a.depends.len() ==> #[trigger] a.depends[j]@ == b.depends[j]@,
{
    assert(a.depends.deep_view() == b.depends.deep_view());
    assert(a.depends.deep_view().len() == a.depends.len());
    assert(b.depends.deep_view().len() == b.depends.len());
    assert forall|j: int| 0 <= j < a.depends.len() implies #[trigger] a.depends[j]@
        == b.depends[j]@ by {
        assert(a.depends.deep_view()[j] == a.depends[j].deep_view());
        assert(b.depends.deep_view()[j] == b.depends[j].deep_view());
    }
}

/// In a dependency-first order of uniquely named servers, the position of a
/// server is strictly above the position of each server it depends on.
proof fn lemma_cycle_edge(
    r: Seq<Server>,
    ss: Seq<Server>,
    p: Seq<int>,
    ci: int,
    ci2: int,
    qi: int,
    qi2: int,
)
    requires
        names_unique(ss),
        is_reordering_by(r, ss, p),
        deps_before(r),
        0 <= ci < ss.len(),
        0 <= ci2 < ss.len(),
        is_dep_of(ss, ci, ci2),
        0 <= qi < p.len() && p[qi] == ci,
        0 <= qi2 < p.len() && p[qi2] == ci2,
    ensures
        qi2 < qi,
{
    let j = choose|j: int|
        0 <= j < ss[ci].depends.len() && ss[ci].depends[j]@ == ss[ci2].name@;
    lemma_same_deep_view_server(r[qi], ss[ci]);
    lemma_same_deep_view_server(r[qi2], ss[ci2]);
    assert(r[qi].depends[j]@ == ss[ci2].name@);
    assert(dep_before_at(r, qi, j));
    let k = choose|k: int| 0 <= k < qi && r[k].name@ == r[qi].depends[j]@;
    lemma_same_deep_view_server(r[k], ss[p[k]]);
    assert(ss[p[k]].name@ == ss[ci2].name@);
    assert(p[k] == ci2) by {
        if p[k] < ci2 {
            assert(ss[p[k]].name@ != ss[ci2].name@);
        }
        if ci2 < p[k] {
            assert(ss[ci2].name@ != ss[p[k]].name@);
        }
    }
    assert(k == qi2) by {
        if k < qi2 {
            assert(p[k] != p[qi2]);
        }
        if qi2 < k {
            assert(p[qi2] != p[k]);
        }
    }
}

proof fn lemma_desc(q: Seq<int>, i: int)
    requires
        0 <= i < q.len(),
        forall|x: int| 0 <= x < q.len() - 1 ==> q[x + 1] < #[trigger] q[x],
    ensures
        q[i] <= q[0] - i,
    decreases i,
{
    if i > 0 {
        lemma_desc(q, i - 1);
    }
}

/// A dependency cycle admits no dependency-first order: around the cycle the
/// positions would have to decrease forever.
proof fn lemma_no_cycle_in_ordering(r: Seq<Server>, ss: Seq<Server>, p: Seq<int>, c: Seq<int>)
    requires
        names_unique(ss),
        is_reordering_by(r, ss, p),
        forall|v: int| 0 <= v < ss.len() ==> #[trigger] appears_in(p, v),
        deps_before(r),
    ensures
        !is_dep_cycle(ss, c),
{
    if is_dep_cycle(ss, c) {
        let l = c.len() as int;
        let q = Seq::new(c.len(), |i: int| choose|a: int| 0 <= a < p.len() && p[a] == c[i]);
        assert forall|i: int| 0 <= i < l implies 0 <= #[trigger] q[i] < p.len() && p[q[i]] == c[i]
            by {
            assert(appears_in(p, c[i]));
        }
        assert forall|x: int| 0 <= x < l - 1 implies q[x + 1] < #[trigger] q[x] by {
            assert(is_dep_of(ss, c[x], c[x + 1]));
            lemma_cycle_edge(r, ss, p, c[x], c[x + 1], q[x], q[x + 1]);
        }
        lemma_cycle_edge(r, ss, p, c[l - 1], c[0], q[l - 1], q[0]);
        if l > 1 {
            lemma_desc(q, l - 1);
        }
    }
}

/// Validates the dependency relation of `servers` and produces the activation
/// order: a reordering of the input in which every server stands after every
/// server it depends on.
///
/// The result is pinned exactly: the returned order is the emission order of
/// [`resolve_model`] — the depth-first traversal seeded in input order that
/// descends into each server's dependencies in their written order — and a
/// reported error is that traversal's first error, naming the first
/// re-entered in-progress server for a cycle. Succeeds exactly when every
/// dependency name is defined and the dependency relation is acyclic;
/// either way the error also carries a witness: a used but undefined name,
/// or the name of a server on an actual cycle.
pub fn determine_wakeup_order(servers: &Vec<Server>) -> (r: Result<
    Vec<Server>,
    ServerConfigError,
>)
    requires
        names_unique(servers@),
    ensures
        match r {
            Ok(out) => {
                &&& is_reordering(out@, servers@)
                &&& names_unique(out@)
                &&& deps_before(out@)
                &&& all_deps_defined(servers@)
                &&& acyclic(servers@)
                &&& (resolve_model(servers@) matches ResolveOutcome::Order { order }
                    && out@.len() == order.len() && (forall|i: int|
                    0 <= i < out@.len() ==> (#[trigger] out@[i]).deep_view()
                        == servers@[order[i] as int].deep_view()))
            },
            Err(e) => {
                &&& resolve_error_witnessed(servers@, e)
                &&& (match e {
                    ServerConfigError::UndefinedDependency(d) => resolve_model(servers@)
                        == (ResolveOutcome::Undefined { name: d@ }),
                    ServerConfigError::CircularDependency(nm) => resolve_model(servers@)
                        == (ResolveOutcome::Circular { name: nm@ }),
                    _ => false,
                })
            },
        },
        all_deps_defined(servers@) && acyclic(servers@) ==> r is Ok,
{
    let ghost ss = servers@;
    let n = servers.len();
    let mut visited = make_flags(n);
    let mut visiting = make_flags(n);
    let mut sorted: Vec<usize> = Vec::new();
    proof {
        assert(set_of_true(visited@) =~= Set::<int>::empty());
        assert(forall|v: int| 0 <= v < n ==> !(#[trigger] visited@[v]));
        assert(visited@ =~= false_flags(ss.len()));
        assert(sorted@ =~= Seq::<usize>::empty());
        assert(seed_run(ss, visited@, sorted@, 0) == resolve_model(ss));
    }
    let mut root: usize = 0;
    while root < n
        invariant
            ss == servers@,
            n == ss.len(),
            inv_base(ss, visited@, visiting@, sorted@),
            forall|v: int| 0 <= v < n ==> !(#[trigger] visiting@[v]),
            forall|v: int| 0 <= v < root ==> visited@[v],
            root <= n,
            seed_run(ss, visited@, sorted@, root as int) == resolve_model(ss),
        decreases n - root,
    {
        if !visited[root] {
            let ghost pre_visited = visited@;
            let ghost pre_sorted = sorted@;
            match depth_first_search(servers, root, &mut visited, &mut visiting, &mut sorted) {
                Err(e) => {
                    proof {
                        let fin = dfs_run(ss, seed_state(ss, pre_visited, pre_sorted, root as int));
                        assert(!(fin.outcome is Running));
                        assert(seed_run(ss, pre_visited, pre_sorted, root as int)
                            == resolve_model(ss));
                    }
                    return Err(e);
                },
                Ok(()) => {
                    proof {
                        let fin = dfs_run(ss, seed_state(ss, pre_visited, pre_sorted, root as int));
                        assert(fin.outcome is Running);
                        assert(fin.visited == visited@);
                        assert(fin.sorted == sorted@);
                        assert(seed_run(ss, pre_visited, pre_sorted, root as int) == seed_run(
                            ss,
                            visited@,
                            sorted@,
                            root as int + 1,
                        ));
                    }
                },
            }
        } else {
            proof {
                assert(seed_run(ss, visited@, sorted@, root as int) == seed_run(
                    ss,
                    visited@,
                    sorted@,
                    root as int + 1,
                ));
            }
        }
        root += 1;
    }
    proof {
        lemma_set_of_true_bound(visited@);
        assert(sorted@.len() == n);
        assert(seed_run(ss, visited@, sorted@, root as int) == (ResolveOutcome::Order {
            order: sorted@,
        }));
        assert(resolve_model(ss) == (ResolveOutcome::Order { order: sorted@ }));
    }
    let mut out: Vec<Server> = Vec::new();
    let mut a: usize = 0;
    while a < sorted.len()
        invariant
            ss == servers@,
            n == ss.len(),
            sorted@.len() == n,
            forall|b: int| 0 <= b < n ==> (#[trigger] sorted@[b]) < n,
            a <= n,
            out@.len() == a,
            forall|b: int|
                0 <= b < a ==> (#[trigger] out@[b]).deep_view() == ss[sorted@[b] as int].deep_view(),
        decreases sorted@.len() - a,
    {
        let idx = sorted[a];
        out.push(servers[idx].clone());
        a += 1;
    }
    proof {
        let p = Seq::new(n as nat, |i: int| sorted@[i] as int);
        assert forall|i: int| 0 <= i < n implies (#[trigger] out@[i]).deep_view()
            == ss[p[i]].deep_view() by {
            assert(out@[i].deep_view() == ss[sorted@[i] as int].deep_view());
        }
        assert(is_reordering_by(out@, ss, p));
        assert(is_reordering(out@, ss));
        assert forall|i: int, j: int| 0 <= i < j < out@.len() implies out@[i].name@
            != out@[j].name@ by {
            lemma_same_deep_view_server(out@[i], ss[p[i]]);
            lemma_same_deep_view_server(out@[j], ss[p[j]]);
            assert(p[i] != p[j]);
            if p[i] < p[j] {
                assert(ss[p[i]].name@ != ss[p[j]].name@);
            } else {
                assert(ss[p[j]].name@ != ss[p[i]].name@);
            }
        }
        // surjectivity: every server was visited, so every position was emitted
        assert forall|v: int| 0 <= v < n implies #[trigger] appears_in(p, v) by {
            assert(visited@[v]);
            assert(in_sorted(sorted@, v));
            let x = choose|x: int| 0 <= x < sorted@.len() && (#[trigger] sorted@[x]) as int == v;
            assert(p[x] == v);
        }
        // the emitted order is dependency-first
        assert forall|i: int, j: int|
            0 <= i < out@.len() && 0 <= j < out@[i].depends.len() implies #[trigger] dep_before_at(
            out@,
            i,
            j,
        ) by {
            lemma_same_deep_view_server(out@[i], ss[sorted@[i] as int]);
            assert(sorted_dep_ok(ss, sorted@, i, j));
            let b = choose|b: int|
                0 <= b < i && ss[sorted@[b] as int].name@ == ss[sorted@[i] as int].depends[j]@;
            lemma_same_deep_view_server(out@[b], ss[sorted@[b] as int]);
            assert(out@[b].name@ == out@[i].depends[j]@);
        }
        // every dependency is defined: it occurs earlier in the order
        assert forall|i: int, j: int|
            0 <= i < ss.len() && 0 <= j < ss[i].depends.len() implies has_server_named(
            ss,
            #[trigger] ss[i].depends[j]@,
        ) by {
            assert(visited@[i]);
            assert(in_sorted(sorted@, i));
            let x = choose|x: int| 0 <= x < sorted@.len() && (#[trigger] sorted@[x]) as int == i;
            lemma_same_deep_view_server(out@[x], ss[i]);
            assert(dep_before_at(out@, x, j));
            let k = choose|k: int| 0 <= k < x && out@[k].name@ == out@[x].depends[j]@;
            lemma_same_deep_view_server(out@[k], ss[sorted@[k] as int]);
            assert(ss[sorted@[k] as int].name@ == ss[i].depends[j]@);
        }
        // and no cycle can exist, since the emitted order refutes it
        assert forall|c: Seq<int>| !is_dep_cycle(ss, c) by {
            lemma_no_cycle_in_ordering(out@, ss, p, c);
        }
    }
    Ok(out)
}

/// Law: in a dependency-first order of uniquely named servers, a server
/// stands after every server reachable from it through dependencies: along
/// any dependency chain, positions strictly decrease from the dependent to
/// the transitive dependency.
pub proof fn lemma_deps_before_transitive(r: Seq<Server>, c: Seq<int>)
    requires
        names_unique(r),
        deps_before(r),
        c.len() >= 2,
        forall|i: int| 0 <= i < c.len() ==> 0 <= #[trigger] c[i] < r.len(),
        forall|i: int| 0 <= i < c.len() - 1 ==> is_dep_of(r, #[trigger] c[i], c[i + 1]),
    ensures
        c[c.len() - 1] < c[0],
    decreases c.len(),
{
    let a = c[c.len() - 2];
    let b = c[c.len() - 1];
    assert(is_dep_of(r, a, b));
    let j = choose|j: int| 0 <= j < r[a].depends.len() && r[a].depends[j]@ == r[b].name@;
    assert(dep_before_at(r, a, j));
    let k = choose|k: int| 0 <= k < a && r[k].name@ == r[a].depends[j]@;
    assert(k == b) by {
        if k < b {
            assert(r[k].name@ != r[b].name@);
        }
        if b < k {
            assert(r[b].name@ != r[k].name@);
        }
    }
    if c.len() == 2 {
    } else {
        let c2 = c.drop_last();
        assert(forall|i: int| 0 <= i < c2.len() - 1 ==> is_dep_of(r, #[trigger] c2[i], c2[i + 1]));
        lemma_deps_before_transitive(r, c2);
    }
}

} // verus!
