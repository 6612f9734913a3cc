use vstd::prelude::*;

use crate::cascade::{descendants, in_closure, reach};
use crate::date::{date_le, Date};
use crate::error::Error;
use crate::model::{opt_text, Todo, TodoMap, TodoView};

verus! {

/// Parent/children duality: every parent link is matched by a child entry on the parent,
/// and every child entry by a parent link on the child.
pub open spec fn consistent(m: Map<u32, TodoView>) -> bool {
    &&& forall|c: u32| #[trigger]
        m.contains_key(c) && m[c].parent is Some ==> m.contains_key(m[c].parent->0)
            && m[m[c].parent->0].has_child(c)
    &&& forall|p: u32, c: u32|
        m.contains_key(p) && #[trigger] m[p].has_child(c) ==> m.contains_key(c) && m[c].parent
            == Some(p)
}

/// Keeps the ids other than `c`.
pub open spec fn not_id(c: u32) -> spec_fn(u32) -> bool {
    |x: u32| x != c
}

/// An empty children set reads as none.
pub open spec fn collapse(s: Seq<u32>) -> Option<Seq<u32>> {
    if s.len() == 0 {
        None
    } else {
        Some(s)
    }
}

/// The todo with `c` taken out of its children, an emptied set collapsed to none.
pub open spec fn without_child(t: TodoView, c: u32) -> TodoView {
    match t.children {
        None => t,
        Some(s) => TodoView { children: collapse(s.filter(not_id(c))), ..t },
    }
}

/// The todo with `c` appended to its children.
pub open spec fn with_child(t: TodoView, c: u32) -> TodoView {
    TodoView { children: Some(t.child_seq().push(c)), ..t }
}

/// The todo with its parent link set to `p`.
pub open spec fn with_parent(t: TodoView, p: Option<u32>) -> TodoView {
    TodoView { parent: p, ..t }
}

/// The list with `c` taken out of the children of `p`, when `p` exists.
pub open spec fn detach(m: Map<u32, TodoView>, p: u32, c: u32) -> Map<u32, TodoView> {
    if m.contains_key(p) {
        m.insert(p, without_child(m[p], c))
    } else {
        m
    }
}

/// The list with `c` detached from its parent `p`, if it had one.
pub open spec fn detach_from(m: Map<u32, TodoView>, p: Option<u32>, c: u32) -> Map<u32, TodoView> {
    match p {
        Some(q) => detach(m, q, c),
        None => m,
    }
}

/// The id that the next todo of the list gets: one more than the largest id, 1 when empty.
pub fn next_id(todos: &TodoMap) -> (r: Result<u32, Error>)
    requires
        todos.wf(),
    ensures
        r is Err <==> todos@.contains_key(u32::MAX),
        r matches Err(e) ==> e == Error::IdExhausted,
        r matches Ok(id) ==> {
            &&& forall|k: u32| todos@.contains_key(k) ==> k < id
            &&& todos@.len() == 0 ==> id == 1
            &&& todos@.len() > 0 ==> todos@.contains_key((id - 1) as u32)
        },
{
    let max = todos.max_id();
    if max == u32::MAX {
        Err(Error::IdExhausted)
    } else {
        proof {
            if todos@.contains_key(u32::MAX) {
                assert(u32::MAX <= max);
            }
        }
        Ok(max + 1)
    }
}

/// The ids of `v` other than `c`, in their order.
fn without_id(v: &Vec<u32>, c: u32) -> (r: Vec<u32>)
    ensures
        r@ == v@.filter(not_id(c)),
{
    let mut r: Vec<u32> = Vec::new();
    let mut i: usize = 0;
    while i < v.len()
        invariant
            i <= v.len(),
            r@ == v@.take(i as int).filter(not_id(c)),
        decreases v.len() - i,
    {
        proof {
            assert(v@.take(i + 1).drop_last() =~= v@.take(i as int));
            reveal(Seq::filter);
        }
        if v[i] != c {
            r.push(v[i]);
        }
        i = i + 1;
    }
    proof {
        assert(v@.take(v.len() as int) =~= v@);
    }
    r
}

/// Collapses an empty children set to none.
pub fn empty_to_none(todo: &mut Todo)
    ensures
        final(todo)@ == (if old(todo)@.children == Some(Seq::<u32>::empty()) {
            TodoView { children: None, ..old(todo)@ }
        } else {
            old(todo)@
        }),
{
    let empty = match &todo.children {
        Some(v) => v.len() == 0,
        None => false,
    };
    if empty {
        todo.children = None;
        proof {
            assert(old(todo)@.children->0 =~= Seq::<u32>::empty());
        }
    }
}

/// Takes `ch_id` out of the children of `pa_id`.
pub fn remove_child_id(todos: &mut TodoMap, pa_id: u32, ch_id: u32) -> (r: Result<(), Error>)
    requires
        old(todos).wf(),
    ensures
        final(todos).wf(),
        r is Err <==> !old(todos)@.contains_key(pa_id),
        r matches Err(e) ==> e == Error::NoSuchTodo,
        final(todos)@ == detach(old(todos)@, pa_id, ch_id),
{
    match todos.remove(pa_id) {
        None => {
            proof {
                assert(todos@ =~= old(todos)@);
            }
            Err(Error::NoSuchTodo)
        },
        Some(mut pa) => {
            let kept = match &pa.children {
                Some(v) => Some(without_id(v, ch_id)),
                None => None,
            };
            if kept.is_some() {
                pa.children = kept;
                empty_to_none(&mut pa);
                proof {
                    let s = old(todos)@[pa_id].children->0.filter(not_id(ch_id));
                    if s.len() == 0 {
                        assert(s =~= Seq::<u32>::empty());
                    }
                }
            }
            todos.insert(pa_id, pa);
            proof {
                assert(todos@ =~= detach(old(todos)@, pa_id, ch_id));
            }
            Ok(())
        },
    }
}

proof fn lemma_filter_contains(s: Seq<u32>, c: u32, x: u32)
    ensures
        s.filter(not_id(c)).contains(x) <==> s.contains(x) && x != c,
{
    if s.filter(not_id(c)).contains(x) {
        s.lemma_filter_contains_rev(not_id(c), x);
    }
    if s.contains(x) && x != c {
        let i = s.index_of(x);
        s.lemma_filter_contains(not_id(c), i);
    }
}

proof fn lemma_without_child(t: TodoView, c: u32, x: u32)
    ensures
        without_child(t, c).has_child(x) <==> t.has_child(x) && x != c,
        without_child(t, c).parent == t.parent,
{
    if let Some(s) = t.children {
        lemma_filter_contains(s, c, x);
    }
}

/// Removes the todo `id` and takes it out of its parent's children.
///
/// Fails with `NoSuchTodo` when there is no such todo and with `HasChildren` when its
/// children set is non-empty; the list is then unchanged.
pub fn remove_todo(todos: &mut TodoMap, id: u32) -> (r: Result<Todo, Error>)
    requires
        old(todos).wf(),
    ensures
        final(todos).wf(),
        !old(todos)@.contains_key(id) ==> r == Err::<Todo, Error>(Error::NoSuchTodo),
        old(todos)@.contains_key(id) && old(todos)@[id].has_children() ==> r == Err::<
            Todo,
            Error,
        >(Error::HasChildren),
        r is Ok <==> old(todos)@.contains_key(id) && !old(todos)@[id].has_children(),
        r is Err ==> final(todos)@ == old(todos)@,
        r matches Ok(t) ==> t@ == old(todos)@[id] && final(todos)@ == detach_from(
            old(todos)@.remove(id),
            t@.parent,
            id,
        ),
        consistent(old(todos)@) ==> consistent(final(todos)@),
{
    let has_children = match todos.get(id) {
        None => {
            return Err(Error::NoSuchTodo);
        },
        Some(t) => match &t.children {
            Some(v) => v.len() > 0,
            None => false,
        },
    };
    if has_children {
        return Err(Error::HasChildren);
    }
    let ghost m0 = todos@;
    let t = match todos.remove(id) {
        Some(t) => t,
        None => {
            return Err(Error::NoSuchTodo);
        },
    };
    if let Some(p) = t.parent {
        let _ = remove_child_id(todos, p, id);
    }
    proof {
        let m = todos@;
        if consistent(m0) {
            assert forall|x: u32| !m0[id].has_child(x) by {}
            assert forall|c: u32| #[trigger] m.contains_key(c) && m[c].parent is Some implies m.contains_key(m[c].parent->0)
                && m[m[c].parent->0].has_child(c) by {
                let q = m0[c].parent->0;
                assert(m0.contains_key(c));
                if let Some(p) = t.parent {
                    lemma_without_child(m0[p], id, c);
                }
            }
            assert forall|p: u32, c: u32| m.contains_key(p) && #[trigger] m[p].has_child(c) implies m.contains_key(c) && m[c].parent
                == Some(p) by {
                if let Some(q) = t.parent {
                    lemma_without_child(m0[q], id, c);
                }
                assert(m0[p].has_child(c));
            }
        }
    }
    Ok(t)
}

/// Appends `ch_id` to the children of the todo at `pa_id`, which exists.
fn push_child_id(todos: &mut TodoMap, pa_id: u32, ch_id: u32)
    requires
        old(todos).wf(),
        old(todos)@.contains_key(pa_id),
    ensures
        final(todos).wf(),
        final(todos)@ == old(todos)@.insert(pa_id, with_child(old(todos)@[pa_id], ch_id)),
{
    match todos.remove(pa_id) {
        Some(mut pa) => {
            let mut ids = match pa.children {
                Some(v) => v,
                None => Vec::new(),
            };
            ids.push(ch_id);
            pa.children = Some(ids);
            todos.insert(pa_id, pa);
            proof {
                assert(todos@ =~= old(todos)@.insert(pa_id, with_child(old(todos)@[pa_id], ch_id)));
            }
        },
        None => {},
    }
}

/// Sets the parent link of the todo at `id`, which exists.
fn set_parent(todos: &mut TodoMap, id: u32, parent: Option<u32>)
    requires
        old(todos).wf(),
        old(todos)@.contains_key(id),
    ensures
        final(todos).wf(),
        final(todos)@ == old(todos)@.insert(id, with_parent(old(todos)@[id], parent)),
{
    match todos.remove(id) {
        Some(mut t) => {
            t.parent = parent;
            todos.insert(id, t);
            proof {
                assert(todos@ =~= old(todos)@.insert(id, with_parent(old(todos)@[id], parent)));
            }
        },
        None => {},
    }
}

/// Makes the todo `ch_id` a root: its parent link is cleared and it leaves its old
/// parent's children. A todo that is a root already stays as it is.
pub fn move_to_top(todos: &mut TodoMap, ch_id: u32) -> (r: Result<(), Error>)
    requires
        old(todos).wf(),
    ensures
        final(todos).wf(),
        r is Err <==> !old(todos)@.contains_key(ch_id),
        r matches Err(e) ==> e == Error::NoSuchTodo,
        r is Err ==> final(todos)@ == old(todos)@,
        r is Ok ==> final(todos)@ == detach_from(
            old(todos)@.insert(ch_id, with_parent(old(todos)@[ch_id], None)),
            old(todos)@[ch_id].parent,
            ch_id,
        ),
        consistent(old(todos)@) ==> consistent(final(todos)@),
{
    let old_parent = match todos.get(ch_id) {
        None => {
            return Err(Error::NoSuchTodo);
        },
        Some(t) => t.parent,
    };
    let ghost m0 = todos@;
    match old_parent {
        None => {
            proof {
                assert(with_parent(m0[ch_id], None) == m0[ch_id]);
                assert(m0.insert(ch_id, m0[ch_id]) =~= m0);
            }
            Ok(())
        },
        Some(pa_id) => {
            set_parent(todos, ch_id, None);
            let ghost m1 = todos@;
            let _ = remove_child_id(todos, pa_id, ch_id);
            proof {
                let m = todos@;
                if consistent(m0) {
                    assert forall|c: u32| #[trigger] m.contains_key(c) && m[c].parent is Some implies m.contains_key(m[c].parent->0)
                        && m[m[c].parent->0].has_child(c) by {
                        lemma_without_child(m1[pa_id], ch_id, c);
                    }
                    assert forall|p: u32, c: u32| m.contains_key(p) && #[trigger] m[p].has_child(c) implies m.contains_key(c) && m[c].parent
                        == Some(p) by {
                        lemma_without_child(m1[pa_id], ch_id, c);
                        assert(m0[p].has_child(c));
                    }
                }
            }
            Ok(())
        },
    }
}

/// Puts the todo `ch_id` under `pa_id`: its parent link is set, it leaves its old parent's
/// children and is appended to those of `pa_id`.
///
/// Fails with `NoSuchTodo` when either todo is missing, and with `WouldCreateCycle` when
/// `pa_id` is `ch_id` itself or one of its descendants; the list is then unchanged.
pub fn move_to_children(todos: &mut TodoMap, ch_id: u32, pa_id: u32) -> (r: Result<(), Error>)
    requires
        old(todos).wf(),
    ensures
        final(todos).wf(),
        !old(todos)@.contains_key(ch_id) || !old(todos)@.contains_key(pa_id) ==> r == Err::<
            (),
            Error,
        >(Error::NoSuchTodo),
        old(todos)@.contains_key(ch_id) && old(todos)@.contains_key(pa_id) && in_closure(
            old(todos)@,
            seq![ch_id],
            pa_id,
        ) ==> r == Err::<(), Error>(Error::WouldCreateCycle),
        r is Ok <==> old(todos)@.contains_key(ch_id) && old(todos)@.contains_key(pa_id)
            && !in_closure(old(todos)@, seq![ch_id], pa_id),
        r is Err ==> final(todos)@ == old(todos)@,
        r is Ok ==> ({
            let m1 = detach_from(
                old(todos)@.insert(ch_id, with_parent(old(todos)@[ch_id], Some(pa_id))),
                old(todos)@[ch_id].parent,
                ch_id,
            );
            final(todos)@ == m1.insert(pa_id, with_child(m1[pa_id], ch_id))
        }),
        consistent(old(todos)@) ==> consistent(final(todos)@),
{
    let old_parent = match todos.get(ch_id) {
        None => {
            return Err(Error::NoSuchTodo);
        },
        Some(t) => t.parent,
    };
    if !todos.contains_key(pa_id) {
        return Err(Error::NoSuchTodo);
    }
    let seeds = vec![ch_id];
    let below = descendants(todos, &seeds);
    proof {
        assert(seeds@ =~= seq![ch_id]);
    }
    let mut i: usize = 0;
    while i < below.len()
        invariant
            todos.wf(),
            todos@.contains_key(ch_id),
            todos@.contains_key(pa_id),
            seeds@ == seq![ch_id],
            forall|x: u32| below@.contains(x) <==> in_closure(todos@, seeds@, x),
            i <= below.len(),
            forall|k: int| 0 <= k < i ==> below@[k] != pa_id,
        decreases below.len() - i,
    {
        if below[i] == pa_id {
            proof {
                assert(below@[i as int] == pa_id);
                assert(below@.contains(pa_id));
            }
            return Err(Error::WouldCreateCycle);
        }
        i = i + 1;
    }
    proof {
        assert(seeds@ == seq![ch_id]);
        assert(!below@.contains(pa_id));
        assert(reach(todos@, seq![ch_id], 0).contains(ch_id));
    }
    let ghost m0 = todos@;
    set_parent(todos, ch_id, Some(pa_id));
    let ghost m1 = todos@;
    if let Some(old_pa) = old_parent {
        let _ = remove_child_id(todos, old_pa, ch_id);
    }
    let ghost m2 = todos@;
    push_child_id(todos, pa_id, ch_id);
    proof {
        let m = todos@;
        if consistent(m0) {
            assert(ch_id != pa_id);
            assert forall|x: u32| #[trigger] m[pa_id].has_child(x) <==> m2[pa_id].has_child(x) || x == ch_id by {
                let s = m2[pa_id].child_seq();
                if s.push(ch_id).contains(x) && x != ch_id {
                    let k = s.push(ch_id).index_of(x);
                    assert(s[k] == x);
                }
                if s.contains(x) {
                    let k = s.index_of(x);
                    assert(s.push(ch_id)[k] == x);
                }
                assert(s.push(ch_id)[s.len() as int] == ch_id);
            }
            assert forall|c: u32| #[trigger] m.contains_key(c) && m[c].parent is Some implies m.contains_key(m[c].parent->0)
                && m[m[c].parent->0].has_child(c) by {
                if let Some(q) = old_parent {
                    lemma_without_child(m1[q], ch_id, c);
                }
            }
            assert forall|p: u32, c: u32| m.contains_key(p) && #[trigger] m[p].has_child(c) implies m.contains_key(c) && m[c].parent
                == Some(p) by {
                if let Some(q) = old_parent {
                    lemma_without_child(m1[q], ch_id, c);
                }
                if p != pa_id {
                    assert(m[p] == m2[p]);
                    assert(m2[p].has_child(c));
                } else if c != ch_id {
                    assert(m2[pa_id].has_child(c));
                }
                if c != ch_id || p != pa_id {
                    assert(m2[p].has_child(c));
                    if old_parent == Some(p) {
                        assert(m1[p].has_child(c));
                    } else {
                        assert(m2[p] == m1[p]);
                    }
                    assert(m1[p].has_child(c));
                    assert(m0[p].has_child(c));
                }
            }
        }
    }
    Ok(())
}

/// Adds a new todo with the next id of the list, under `into` when given, and returns
/// that id. The todo starts with no children and not done.
///
/// Fails with `NoSuchTodo` when `into` names no todo and with `IdExhausted` when no id is
/// left; the list is then unchanged.
pub fn add_todo(
    todos: &mut TodoMap,
    into: Option<u32>,
    desc: String,
    link: Option<String>,
    create_at: Date,
) -> (r: Result<u32, Error>)
    requires
        old(todos).wf(),
    ensures
        final(todos).wf(),
        r is Ok <==> !old(todos)@.contains_key(u32::MAX) && (into matches Some(p)
            ==> old(todos)@.contains_key(p)),
        r is Err ==> final(todos)@ == old(todos)@,
        r matches Ok(id) ==> {
            &&& !old(todos)@.contains_key(id)
            &&& forall|k: u32| old(todos)@.contains_key(k) ==> k < id
            &&& old(todos)@.len() == 0 ==> id == 1
            &&& old(todos)@.len() > 0 ==> old(todos)@.contains_key((id - 1) as u32)
            &&& {
                let t = TodoView {
                    desc: desc@,
                    link: opt_text(link),
                    children: None,
                    parent: into,
                    create_at,
                    complete_at: None,
                };
                final(todos)@ == match into {
                    Some(p) => old(todos)@.insert(p, with_child(old(todos)@[p], id)).insert(id, t),
                    None => old(todos)@.insert(id, t),
                }
            }
        },
        consistent(old(todos)@) ==> consistent(final(todos)@),
{
    let id = match next_id(todos) {
        Ok(id) => id,
        Err(e) => {
            return Err(e);
        },
    };
    if let Some(p) = into {
        if !todos.contains_key(p) {
            return Err(Error::NoSuchTodo);
        }
    }
    let ghost m0 = todos@;
    if let Some(p) = into {
        push_child_id(todos, p, id);
    }
    let ghost m1 = todos@;
    let todo = Todo::new(desc, link, None, into, create_at, None);
    todos.insert(id, todo);
    proof {
        let m = todos@;
        assert(!m0.contains_key(id));
        if consistent(m0) {
            if let Some(p) = into {
                assert forall|x: u32| #[trigger] m[p].has_child(x) <==> m0[p].has_child(x) || x == id by {
                    let s = m0[p].child_seq();
                    if s.push(id).contains(x) && x != id {
                        let k = s.push(id).index_of(x);
                        assert(s[k] == x);
                    }
                    if s.contains(x) {
                        let k = s.index_of(x);
                        assert(s.push(id)[k] == x);
                    }
                    assert(s.push(id)[s.len() as int] == id);
                }
            }
            assert forall|c: u32| #[trigger] m.contains_key(c) && m[c].parent is Some implies m.contains_key(m[c].parent->0)
                && m[m[c].parent->0].has_child(c) by {
                if c != id {
                    assert(m0.contains_key(c));
                }
            }
            assert forall|p: u32, c: u32| m.contains_key(p) && #[trigger] m[p].has_child(c) implies m.contains_key(c) && m[c].parent
                == Some(p) by {
                if c != id && p != id {
                    assert(m0[p].has_child(c));
                }
            }
        }
    }
    Ok(id)
}

/// Changes the description and the link of the todo `id` where new ones are given.
pub fn modify_todo(todos: &mut TodoMap, id: u32, desc: Option<String>, link: Option<String>) -> (r:
    Result<(), Error>)
    requires
        old(todos).wf(),
    ensures
        final(todos).wf(),
        r is Err <==> !old(todos)@.contains_key(id),
        r matches Err(e) ==> e == Error::NoSuchTodo,
        r is Err ==> final(todos)@ == old(todos)@,
        r is Ok ==> final(todos)@ == old(todos)@.insert(
            id,
            TodoView {
                desc: match desc {
                    Some(d) => d@,
                    None => old(todos)@[id].desc,
                },
                link: match link {
                    Some(l) => Some(l@),
                    None => old(todos)@[id].link,
                },
                ..old(todos)@[id]
            },
        ),
        consistent(old(todos)@) ==> consistent(final(todos)@),
{
    match todos.remove(id) {
        None => {
            proof {
                assert(todos@ =~= old(todos)@);
            }
            Err(Error::NoSuchTodo)
        },
        Some(mut t) => {
            if let Some(d) = desc {
                t.desc = d;
            }
            if link.is_some() {
                t.link = link;
            }
            todos.insert(id, t);
            proof {
                let m = todos@;
                let m0 = old(todos)@;
                if consistent(m0) {
                    assert forall|c: u32| #[trigger] m.contains_key(c) && m[c].parent is Some implies m.contains_key(m[c].parent->0)
                        && m[m[c].parent->0].has_child(c) by {
                        assert(m0.contains_key(c));
                    }
                    assert forall|p: u32, c: u32| m.contains_key(p) && #[trigger] m[p].has_child(c) implies m.contains_key(c) && m[c].parent
                        == Some(p) by {
                        assert(m0[p].has_child(c));
                    }
                }
            }
            Ok(())
        },
    }
}

/// Removing `ids` one after the other: the new todos, the todos removed and the ids skipped
/// (missing, or with children at their turn).
pub open spec fn remove_run(m: Map<u32, TodoView>, ids: Seq<u32>) -> (Map<u32, TodoView>, Seq<
    TodoView,
>, Seq<u32>)
    decreases ids.len(),
{
    if ids.len() == 0 {
        (m, Seq::empty(), Seq::empty())
    } else {
        let prev = remove_run(m, ids.drop_last());
        let id = ids.last();
        let cur = prev.0;
        if cur.contains_key(id) && !cur[id].has_children() {
            (detach_from(cur.remove(id), cur[id].parent, id), prev.1.push(cur[id]), prev.2)
        } else {
            (cur, prev.1, prev.2.push(id))
        }
    }
}

/// The views of a sequence of todos.
pub open spec fn todo_views(s: Seq<Todo>) -> Seq<TodoView> {
    s.map_values(|t: Todo| t@)
}

/// Removes the todos `ids`, each on its own: a missing id, or a todo that still has
/// children, is skipped and the rest go on. Returns the todos removed and the ids skipped.
pub fn remove_todos(todos: &mut TodoMap, ids: &Vec<u32>) -> (r: (Vec<Todo>, Vec<u32>))
    requires
        old(todos).wf(),
    ensures
        final(todos).wf(),
        (final(todos)@, todo_views(r.0@), r.1@) == remove_run(old(todos)@, ids@),
        consistent(old(todos)@) ==> consistent(final(todos)@),
{
    let mut removed: Vec<Todo> = Vec::new();
    let mut skipped: Vec<u32> = Vec::new();
    let mut i: usize = 0;
    proof {
        assert(ids@.take(0) =~= Seq::<u32>::empty());
        assert(todo_views(removed@) =~= Seq::<TodoView>::empty());
    }
    while i < ids.len()
        invariant
            todos.wf(),
            i <= ids.len(),
            (todos@, todo_views(removed@), skipped@) == remove_run(old(todos)@, ids@.take(i as int)),
            consistent(old(todos)@) ==> consistent(todos@),
        decreases ids.len() - i,
    {
        proof {
            assert(ids@.take(i + 1).drop_last() =~= ids@.take(i as int));
        }
        let ghost r0 = removed@;
        match remove_todo(todos, ids[i]) {
            Ok(t) => {
                removed.push(t);
                proof {
                    assert(todo_views(removed@) =~= todo_views(r0).push(t@));
                }
            },
            Err(_) => {
                skipped.push(ids[i]);
            },
        }
        i = i + 1;
    }
    proof {
        assert(ids@.take(ids.len() as int) =~= ids@);
    }
    (removed, skipped)
}

/// Whether the todo under `k` was completed on or before `before`.
pub open spec fn done_by(m: Map<u32, TodoView>, before: Date) -> spec_fn(u32) -> bool {
    |k: u32| m[k].complete_at matches Some(d) && date_le(d, before)
}

/// Removes the todos completed on or before `before`, in ascending id order, as
/// `remove_todos` does. Returns the todos removed and the ids skipped.
pub fn clean(todos: &mut TodoMap, before: Date) -> (r: (Vec<Todo>, Vec<u32>))
    requires
        old(todos).wf(),
    ensures
        final(todos).wf(),
        (final(todos)@, todo_views(r.0@), r.1@) == remove_run(
            old(todos)@,
            old(todos).id_seq().filter(done_by(old(todos)@, before)),
        ),
        consistent(old(todos)@) ==> consistent(final(todos)@),
{
    let keys = todos.ids();
    let mut due: Vec<u32> = Vec::new();
    let mut j: usize = 0;
    while j < keys.len()
        invariant
            todos.wf(),
            keys@ == todos.id_seq(),
            j <= keys.len(),
            due@ == keys@.take(j as int).filter(done_by(todos@, before)),
        decreases keys.len() - j,
    {
        proof {
            assert(keys@.take(j + 1).drop_last() =~= keys@.take(j as int));
            reveal(Seq::filter);
            todos.lemma_ids();
            assert(keys@.contains(keys@[j as int]));
        }
        let t = todos.get(keys[j]).unwrap();
        let hit = match &t.complete_at {
            Some(d) => d.on_or_before(&before),
            None => false,
        };
        if hit {
            due.push(keys[j]);
        }
        j = j + 1;
    }
    proof {
        assert(keys@.take(keys.len() as int) =~= keys@);
    }
    remove_todos(todos, &due)
}

} // verus!
