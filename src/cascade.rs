use std::collections::HashSet;
use vstd::prelude::*;

use crate::date::Date;
use crate::model::{TodoMap, TodoView};

verus! {

broadcast use vstd::std_specs::hash::group_hash_axioms;

/// Ids of the list reached from `seeds` in at most `n` parent-to-child steps.
pub open spec fn reach(m: Map<u32, TodoView>, seeds: Seq<u32>, n: nat) -> Set<u32>
    decreases n,
{
    if n == 0 {
        Set::new(|x: u32| seeds.contains(x) && m.contains_key(x))
    } else {
        let prev = reach(m, seeds, (n - 1) as nat);
        Set::new(
            |x: u32|
                prev.contains(x) || (m.contains_key(x) && exists|p: u32|
                    #[trigger] prev.contains(p) && m[p].has_child(x)),
        )
    }
}

/// `x` is an existing todo that is one of `seeds` or a descendant of one of them.
pub open spec fn in_closure(m: Map<u32, TodoView>, seeds: Seq<u32>, x: u32) -> bool {
    exists|n: nat| #[trigger] reach(m, seeds, n).contains(x)
}

proof fn lemma_reach_step(m: Map<u32, TodoView>, seeds: Seq<u32>, n: nat, p: u32, c: u32)
    requires
        reach(m, seeds, n).contains(p),
        m[p].has_child(c),
        m.contains_key(c),
    ensures
        reach(m, seeds, n + 1).contains(c),
{
    assert(reach(m, seeds, (n + 1) as nat) == Set::new(
        |x: u32|
            reach(m, seeds, n).contains(x) || (m.contains_key(x) && exists|q: u32|
                #[trigger] reach(m, seeds, n).contains(q) && m[q].has_child(x)),
    ));
}

proof fn lemma_reach_in_dom(m: Map<u32, TodoView>, seeds: Seq<u32>, n: nat, x: u32)
    requires
        reach(m, seeds, n).contains(x),
    ensures
        m.contains_key(x),
    decreases n,
{
    if n > 0 {
        if reach(m, seeds, (n - 1) as nat).contains(x) {
            lemma_reach_in_dom(m, seeds, (n - 1) as nat, x);
        }
    }
}

/// A set that holds the existing seeds and is closed under existing children holds the
/// whole closure.
proof fn lemma_closed_covers(m: Map<u32, TodoView>, seeds: Seq<u32>, s: Set<u32>, n: nat)
    requires
        forall|x: u32| seeds.contains(x) && m.contains_key(x) ==> s.contains(x),
        forall|p: u32, c: u32|
            s.contains(p) && #[trigger] m[p].has_child(c) && m.contains_key(c) ==> s.contains(c),
    ensures
        forall|x: u32| reach(m, seeds, n).contains(x) ==> s.contains(x),
    decreases n,
{
    if n > 0 {
        lemma_closed_covers(m, seeds, s, (n - 1) as nat);
        assert forall|x: u32| reach(m, seeds, n).contains(x) implies s.contains(x) by {
            let prev = reach(m, seeds, (n - 1) as nat);
            if !prev.contains(x) {
                let p = choose|p: u32| #[trigger] prev.contains(p) && m[p].has_child(x);
                assert(s.contains(p));
            }
        }
    }
}

/// The ids in `seeds` that exist in the list, together with all their descendants, each once.
///
/// Walks the hierarchy with an explicit stack seeded with `seeds`; a visited set makes a
/// malformed cycle harmless, and ids with no todo are skipped.
pub fn descendants(todos: &TodoMap, seeds: &Vec<u32>) -> (r: Vec<u32>)
    requires
        todos.wf(),
    ensures
        r@.no_duplicates(),
        forall|x: u32| r@.contains(x) <==> in_closure(todos@, seeds@, x),
{
    let ghost m = todos@;
    proof {
        todos.lemma_ids();
    }
    let mut result: Vec<u32> = Vec::new();
    let mut visited: HashSet<u32> = HashSet::new();
    let mut stack: Vec<u32> = Vec::new();
    let mut i: usize = 0;
    while i < seeds.len()
        invariant
            i <= seeds.len(),
            stack@ == seeds@.take(i as int),
        decreases seeds.len() - i,
    {
        stack.push(seeds[i]);
        i = i + 1;
        proof {
            assert(stack@ =~= seeds@.take(i as int));
        }
    }
    assert(stack@ =~= seeds@);
    while stack.len() > 0
        invariant
            m == todos@,
            todos.wf(),
            m.dom().finite(),
            visited@ == result@.to_set(),
            result@.no_duplicates(),
            forall|x: u32| #[trigger] result@.contains(x) ==> in_closure(m, seeds@, x),
            forall|x: u32| #[trigger]
                stack@.contains(x) ==> seeds@.contains(x) || exists|p: u32|
                    result@.contains(p) && #[trigger] m[p].has_child(x),
            forall|x: u32|
                #[trigger] seeds@.contains(x) && m.contains_key(x) ==> result@.contains(x)
                    || stack@.contains(x),
            forall|p: u32, c: u32|
                result@.contains(p) && #[trigger] m[p].has_child(c) && m.contains_key(c)
                    ==> result@.contains(c) || stack@.contains(c),
        decreases m.dom().len() - result@.len(), stack@.len(),
    {
        proof {
            assert forall|x: u32| result@.contains(x) implies m.contains_key(x) by {
                let n = choose|n: nat| #[trigger] reach(m, seeds@, n).contains(x);
                lemma_reach_in_dom(m, seeds@, n, x);
            }
            assert(result@.to_set().subset_of(m.dom()));
            result@.unique_seq_to_set();
            vstd::set_lib::lemma_len_subset(result@.to_set(), m.dom());
        }
        let ghost old_stack = stack@;
        let ghost old_result = result@;
        let id = stack.pop().unwrap();
        proof {
            assert(old_stack =~= stack@.push(id));
            assert forall|x: u32| old_stack.contains(x) && x != id implies stack@.contains(x) by {
                let k = old_stack.index_of(x);
                assert(stack@[k] == x);
            }
            assert forall|x: u32| stack@.contains(x) implies old_stack.contains(x) by {
                let k = stack@.index_of(x);
                assert(old_stack[k] == x);
            }
            assert(old_stack.contains(id)) by {
                assert(old_stack[old_stack.len() - 1] == id);
            }
            assert forall|x: u32| #[trigger] stack@.contains(x) implies seeds@.contains(x) || exists|
                p: u32,
            | result@.contains(p) && #[trigger] m[p].has_child(x) by {
                assert(old_stack.contains(x));
            }
        }
        if visited.contains(&id) {
            continue;
        }
        match todos.get(id) {
            None => {
                continue;
            },
            Some(todo) => {
                proof {
                    // the popped id is in the closure
                    if seeds@.contains(id) {
                        assert(reach(m, seeds@, 0).contains(id));
                    } else {
                        let p = choose|p: u32| result@.contains(p) && #[trigger] m[p].has_child(id);
                        let n = choose|n: nat| #[trigger] reach(m, seeds@, n).contains(p);
                        lemma_reach_step(m, seeds@, n, p, id);
                    }
                    assert(in_closure(m, seeds@, id));
                }
                visited.insert(id);
                result.push(id);
                proof {
                    assert forall|x: u32| #[trigger] old_result.contains(x) implies result@.contains(
                        x,
                    ) by {
                        let k = old_result.index_of(x);
                        assert(result@[k] == x);
                    }
                    assert(result@.contains(id)) by {
                        assert(result@[result@.len() - 1] == id);
                    }
                    assert forall|x: u32| #[trigger] result@.contains(x) implies old_result.contains(x)
                        || x == id by {
                        let k = result@.index_of(x);
                        if k < old_result.len() {
                            assert(old_result[k] == x);
                        }
                    }
                    assert(result@.to_set() =~= old_result.to_set().insert(id));
                    assert forall|x: u32| result@.contains(x) implies m.contains_key(x) by {
                        if x != id {
                            let n = choose|n: nat| #[trigger] reach(m, seeds@, n).contains(x);
                            lemma_reach_in_dom(m, seeds@, n, x);
                        }
                    }
                    assert(result@.to_set().subset_of(m.dom()));
                    result@.unique_seq_to_set();
                    vstd::set_lib::lemma_len_subset(result@.to_set(), m.dom());
                }
                match &todo.children {
                    None => {
                        proof {
                            assert forall|c: u32| #[trigger]
                                m[id].has_child(c) implies false by {}
                        }
                    },
                    Some(ch_ids) => {
                        let ghost before = stack@;
                        let mut j: usize = 0;
                        while j < ch_ids.len()
                            invariant
                                m == todos@,
                                todos.wf(),
                                ch_ids@ == m[id].children->0,
                                m[id].children is Some,
                                j <= ch_ids.len(),
                                visited@ == result@.to_set(),
                                result@.contains(id),
                                forall|x: u32| #[trigger]
                                    before.contains(x) ==> stack@.contains(x),
                                forall|x: u32| #[trigger]
                                    stack@.contains(x) ==> before.contains(x) || m[id].has_child(
                                        x,
                                    ),
                                forall|k: int|
                                    0 <= k < j ==> result@.contains(#[trigger] ch_ids@[k])
                                        || stack@.contains(ch_ids@[k]),
                            decreases ch_ids.len() - j,
                        {
                            let c = ch_ids[j];
                            let ghost s0 = stack@;
                            if !visited.contains(&c) {
                                stack.push(c);
                                proof {
                                    assert forall|x: u32| #[trigger]
                                        s0.contains(x) implies stack@.contains(x) by {
                                        let k = s0.index_of(x);
                                        assert(stack@[k] == x);
                                    }
                                    assert forall|x: u32| #[trigger]
                                        stack@.contains(x) implies s0.contains(x) || x == c by {
                                        let k = stack@.index_of(x);
                                        if k < s0.len() {
                                            assert(s0[k] == x);
                                        }
                                    }
                                    assert(stack@[stack@.len() - 1] == c);
                                    assert(ch_ids@[j as int] == c);
                                    assert(m[id].has_child(c));
                                }
                            }
                            j = j + 1;
                        }
                        proof {
                            assert forall|c: u32| #[trigger]
                                m[id].has_child(c) implies result@.contains(c) || stack@.contains(
                                c,
                            ) by {
                                let k = ch_ids@.index_of(c);
                                assert(ch_ids@[k] == c);
                            }
                        }
                    },
                }
            },
        }
    }
    proof {
        assert(stack@ =~= Seq::<u32>::empty());
        assert forall|x: u32| seeds@.contains(x) && m.contains_key(x) implies result@.to_set().contains(x) by {
            assert(!stack@.contains(x));
        }
        assert forall|p: u32, c: u32|
            result@.to_set().contains(p) && #[trigger] m[p].has_child(c) && m.contains_key(c) implies result@.to_set().contains(c) by {
            assert(!stack@.contains(c));
        }
        assert forall|x: u32| in_closure(m, seeds@, x) implies result@.contains(x) by {
            let n = choose|n: nat| #[trigger] reach(m, seeds@, n).contains(x);
            lemma_closed_covers(m, seeds@, result@.to_set(), n);
            assert(reach(m, seeds@, n).contains(x));
            assert(result@.to_set().contains(x));
        }
    }
    result
}

/// A todo with its completion date set to `d`.
pub open spec fn with_completion(t: TodoView, d: Option<Date>) -> TodoView {
    TodoView { complete_at: d, ..t }
}

/// Marking `ids` in order: with `d` some date each existing todo that is not yet done gets
/// that date; with `d` none each existing todo is made undone. Gives the new todos, the ids
/// changed and the ids skipped, both in input order.
pub open spec fn done_run(m: Map<u32, TodoView>, ids: Seq<u32>, d: Option<Date>) -> (Map<
    u32,
    TodoView,
>, Seq<u32>, Seq<u32>)
    decreases ids.len(),
{
    if ids.len() == 0 {
        (m, Seq::empty(), Seq::empty())
    } else {
        let prev = done_run(m, ids.drop_last(), d);
        let id = ids.last();
        let cur = prev.0;
        if cur.contains_key(id) && !(d is Some && cur[id].complete_at is Some) {
            (cur.insert(id, with_completion(cur[id], d)), prev.1.push(id), prev.2)
        } else {
            (cur, prev.1, prev.2.push(id))
        }
    }
}

/// Sets (or, with `None`, clears) the completion date of each todo in `ids`.
///
/// A todo that is already done is skipped when marking done, so its first completion date
/// stays; an id with no todo is skipped too. Returns the ids changed and the ids skipped.
pub fn mark_done(todos: &mut TodoMap, ids: &Vec<u32>, complete_at: Option<Date>) -> (r: (
    Vec<u32>,
    Vec<u32>,
))
    requires
        old(todos).wf(),
    ensures
        final(todos).wf(),
        (final(todos)@, r.0@, r.1@) == done_run(old(todos)@, ids@, complete_at),
{
    let mut result: Vec<u32> = Vec::new();
    let mut skip: Vec<u32> = Vec::new();
    let mut i: usize = 0;
    while i < ids.len()
        invariant
            todos.wf(),
            i <= ids.len(),
            (todos@, result@, skip@) == done_run(old(todos)@, ids@.take(i as int), complete_at),
        decreases ids.len() - i,
    {
        let id = ids[i];
        proof {
            assert(ids@.take(i + 1).drop_last() =~= ids@.take(i as int));
        }
        let ghost cur = todos@;
        match todos.remove(id) {
            None => {
                skip.push(id);
            },
            Some(mut todo) => {
                if complete_at.is_some() && todo.complete_at.is_some() {
                    todos.insert(id, todo);
                    skip.push(id);
                    proof {
                        assert(todos@ =~= cur);
                    }
                } else {
                    todo.complete_at = complete_at;
                    todos.insert(id, todo);
                    result.push(id);
                }
            },
        }
        i = i + 1;
    }
    proof {
        assert(ids@.take(ids.len() as int) =~= ids@);
    }
    (result, skip)
}

/// Marking done again never re-stamps a todo that is done already: it is not among the
/// changed ids, it keeps its completion date, and each time it is named it is skipped.
pub proof fn lemma_done_keeps_completed(
    m: Map<u32, TodoView>,
    ids: Seq<u32>,
    d: Option<Date>,
    id: u32,
)
    requires
        d is Some,
        m.contains_key(id),
        m[id].complete_at is Some,
    ensures
        !done_run(m, ids, d).1.contains(id),
        done_run(m, ids, d).0.contains_key(id),
        done_run(m, ids, d).0[id] == m[id],
        ids.contains(id) ==> done_run(m, ids, d).2.contains(id),
    decreases ids.len(),
{
    if ids.len() > 0 {
        let prev = done_run(m, ids.drop_last(), d);
        lemma_done_keeps_completed(m, ids.drop_last(), d, id);
        let last = ids.last();
        if last == id {
            assert(done_run(m, ids, d).2 == prev.2.push(id));
            assert(done_run(m, ids, d).2[prev.2.len() as int] == id);
        } else {
            let r = done_run(m, ids, d);
            assert forall|x: u32| r.1.contains(x) implies x != id by {
                if r.1 != prev.1 {
                    assert(r.1 == prev.1.push(last));
                    let k = r.1.index_of(x);
                    if k < prev.1.len() {
                        assert(prev.1[k] == x);
                    }
                }
            }
            if ids.contains(id) {
                let k = ids.index_of(id);
                assert(ids.drop_last()[k] == id);
                let j = prev.2.index_of(id);
                if r.2 != prev.2 {
                    assert(r.2 == prev.2.push(last));
                    assert(r.2[j] == id);
                }
            }
        }
    }
}

/// Marks `ids` done on `today` (or, with `undo`, not done). With `recursive` the ids are first
/// widened to all their descendants, each once, missing ids left out. Returns the ids
/// changed and the ids skipped.
pub fn done(todos: &mut TodoMap, ids: &Vec<u32>, undo: bool, recursive: bool, today: Date) -> (r: (
    Vec<u32>,
    Vec<u32>,
))
    requires
        old(todos).wf(),
    ensures
        final(todos).wf(),
        ({
            let d = if undo {
                None
            } else {
                Some(today)
            };
            recursive ==> exists|all: Seq<u32>|
                {
                    &&& all.no_duplicates()
                    &&& forall|x: u32| #[trigger]
                        all.contains(x) <==> in_closure(old(todos)@, ids@, x)
                    &&& (final(todos)@, r.0@, r.1@) == done_run(old(todos)@, all, d)
                }
        }),
        !recursive ==> (final(todos)@, r.0@, r.1@) == done_run(
            old(todos)@,
            ids@,
            if undo {
                None
            } else {
                Some(today)
            },
        ),
{
    let complete_at = if undo {
        None
    } else {
        Some(today)
    };
    if recursive {
        let all = descendants(todos, ids);
        mark_done(todos, &all, complete_at)
    } else {
        mark_done(todos, ids, complete_at)
    }
}

} // verus!
