use vstd::prelude::*;

use crate::date::Date;

verus! {

/// The text that an optional string holds.
pub open spec fn opt_text(o: Option<String>) -> Option<Seq<char>> {
    match o {
        Some(s) => Some(s@),
        None => None,
    }
}

/// The ids that an optional list of ids holds.
pub open spec fn opt_ids(o: Option<Vec<u32>>) -> Option<Seq<u32>> {
    match o {
        Some(v) => Some(v@),
        None => None,
    }
}

/// Mathematical form of a todo.
pub struct TodoView {
    pub desc: Seq<char>,
    pub link: Option<Seq<char>>,
    pub children: Option<Seq<u32>>,
    pub parent: Option<u32>,
    pub create_at: Date,
    pub complete_at: Option<Date>,
}

impl TodoView {
    /// Whether `c` is listed among the children.
    pub open spec fn has_child(self, c: u32) -> bool {
        self.children matches Some(ch) && ch.contains(c)
    }

    /// Whether the children set is present and non-empty.
    pub open spec fn has_children(self) -> bool {
        self.children matches Some(ch) && ch.len() > 0
    }

    /// The children, with an absent set read as empty.
    pub open spec fn child_seq(self) -> Seq<u32> {
        match self.children {
            Some(ch) => ch,
            None => Seq::empty(),
        }
    }
}

/// One task.
#[derive(Debug)]
pub struct Todo {
    pub desc: String,
    pub link: Option<String>,
    pub children: Option<Vec<u32>>,
    pub parent: Option<u32>,
    pub create_at: Date,
    pub complete_at: Option<Date>,
}

impl View for Todo {
    type V = TodoView;

    open spec fn view(&self) -> TodoView {
        TodoView {
            desc: self.desc@,
            link: opt_text(self.link),
            children: opt_ids(self.children),
            parent: self.parent,
            create_at: self.create_at,
            complete_at: self.complete_at,
        }
    }
}

impl Todo {
    pub fn new(
        desc: String,
        link: Option<String>,
        children: Option<Vec<u32>>,
        parent: Option<u32>,
        create_at: Date,
        complete_at: Option<Date>,
    ) -> (r: Todo)
        ensures
            r@ == (TodoView {
                desc: desc@,
                link: opt_text(link),
                children: opt_ids(children),
                parent,
                create_at,
                complete_at,
            }),
    {
        Todo { desc, link, children, parent, create_at, complete_at }
    }

    /// The day the todo was created.
    pub fn create_at(&self) -> (r: Date)
        ensures
            r == self@.create_at,
    {
        self.create_at
    }
}

/// Ids in strictly ascending order (so also without repetition).
pub open spec fn strictly_ascending(s: Seq<u32>) -> bool {
    forall|i: int, j: int| 0 <= i < j < s.len() ==> s[i] < s[j]
}

/// The todos of one list, keyed by id.
///
/// Stored as two parallel vectors with the ids kept in ascending order.
#[derive(Debug)]
pub struct TodoMap {
    ids: Vec<u32>,
    todos: Vec<Todo>,
}

impl View for TodoMap {
    type V = Map<u32, TodoView>;

    closed spec fn view(&self) -> Map<u32, TodoView> {
        Map::new(
            |k: u32| self.ids@.contains(k),
            |k: u32| self.todos@[self.ids@.index_of(k)]@,
        )
    }
}

proof fn lemma_index_of(s: Seq<u32>, i: int)
    requires
        strictly_ascending(s),
        0 <= i < s.len(),
    ensures
        s.contains(s[i]),
        s.index_of(s[i]) == i,
{
    assert(s[i] == s[i]);
    let j = s.index_of(s[i]);
    if j < i {
        assert(s[j] < s[i]);
    } else if j > i {
        assert(s[i] < s[j]);
    }
}

impl TodoMap {
    /// Well-formedness: parallel vectors of one length, ids strictly ascending.
    pub closed spec fn wf(&self) -> bool {
        &&& self.ids.len() == self.todos.len()
        &&& strictly_ascending(self.ids@)
    }

    /// The ids of the list, in ascending order.
    pub closed spec fn id_seq(&self) -> Seq<u32> {
        self.ids@
    }

    proof fn lemma_view(&self)
        requires
            self.wf(),
        ensures
            strictly_ascending(self.id_seq()),
            self.ids.len() == self.todos.len(),
            self@.dom() == self.id_seq().to_set(),
            forall|i: int|
                0 <= i < self.ids.len() ==> #[trigger] self@[self.ids@[i]] == self.todos@[i]@,
            forall|i: int|
                #![trigger self.ids@[i]]
                0 <= i < self.ids.len() ==> self@.contains_key(self.ids@[i]),
    {
        assert forall|i: int| 0 <= i < self.ids.len() implies #[trigger] self@[self.ids@[i]]
            == self.todos@[i]@ && self@.contains_key(self.ids@[i]) by {
            lemma_index_of(self.ids@, i);
        }
        assert(self@.dom() =~= self.id_seq().to_set());
    }

    /// The ids are exactly the keys, in ascending order.
    pub proof fn lemma_ids(&self)
        requires
            self.wf(),
        ensures
            strictly_ascending(self.id_seq()),
            self@.dom() == self.id_seq().to_set(),
            self@.dom().finite(),
            self@.dom().len() == self.id_seq().len(),
    {
        self.lemma_view();
        self.id_seq().unique_seq_to_set();
    }

    pub fn new() -> (r: TodoMap)
        ensures
            r.wf(),
            r@ == Map::<u32, TodoView>::empty(),
    {
        let r = TodoMap { ids: Vec::new(), todos: Vec::new() };
        assert(r@ =~= Map::<u32, TodoView>::empty());
        r
    }

    pub fn len(&self) -> (r: usize)
        requires
            self.wf(),
        ensures
            r == self@.len(),
    {
        proof {
            self.lemma_ids();
        }
        self.ids.len()
    }

    /// The ids, in ascending order.
    pub fn ids(&self) -> (r: &Vec<u32>)
        requires
            self.wf(),
        ensures
            r@ == self.id_seq(),
            strictly_ascending(r@),
            r@.to_set() == self@.dom(),
    {
        proof {
            self.lemma_view();
        }
        &self.ids
    }

    /// Position of `id` among the ids, if present.
    fn find(&self, id: u32) -> (r: Option<usize>)
        requires
            self.wf(),
        ensures
            r matches Some(i) ==> i < self.ids.len() && self.ids@[i as int] == id,
            r is None ==> !self@.contains_key(id),
    {
        proof {
            self.lemma_view();
        }
        let mut i: usize = 0;
        while i < self.ids.len()
            invariant
                self.ids.len() == self.todos.len(),
                i <= self.ids.len(),
                forall|j: int| 0 <= j < i ==> self.ids@[j] != id,
            decreases self.ids.len() - i,
        {
            if self.ids[i] == id {
                return Some(i);
            }
            i = i + 1;
        }
        None
    }

    pub fn contains_key(&self, id: u32) -> (r: bool)
        requires
            self.wf(),
        ensures
            r == self@.contains_key(id),
    {
        proof {
            self.lemma_view();
        }
        self.find(id).is_some()
    }

    pub fn get(&self, id: u32) -> (r: Option<&Todo>)
        requires
            self.wf(),
        ensures
            r is Some <==> self@.contains_key(id),
            r matches Some(t) ==> t@ == self@[id],
    {
        proof {
            self.lemma_view();
        }
        match self.find(id) {
            Some(i) => Some(&self.todos[i]),
            None => None,
        }
    }

    /// Largest id of the list, 0 when the list is empty.
    pub fn max_id(&self) -> (r: u32)
        requires
            self.wf(),
        ensures
            forall|k: u32| self@.contains_key(k) ==> k <= r,
            self@.len() == 0 ==> r == 0,
            self@.len() > 0 ==> self@.contains_key(r),
    {
        proof {
            self.lemma_view();
            self.lemma_ids();
        }
        let n = self.ids.len();
        if n == 0 {
            0
        } else {
            let r = self.ids[n - 1];
            proof {
                assert forall|k: u32| self@.contains_key(k) implies k <= r by {
                    assert(self.id_seq().to_set().contains(k));
                    let j = self.ids@.index_of(k);
                    assert(self.ids@[j] == k);
                }
            }
            r
        }
    }

    /// Puts `todo` in place of the one at position `i`; returns the one it replaces.
    fn replace_at(&mut self, i: usize, todo: Todo) -> (r: Todo)
        requires
            old(self).wf(),
            i < old(self).id_seq().len(),
        ensures
            final(self).wf(),
            final(self).id_seq() == old(self).id_seq(),
            final(self)@ == old(self)@.insert(old(self).id_seq()[i as int], todo@),
            r@ == old(self)@[old(self).id_seq()[i as int]],
    {
        proof {
            self.lemma_view();
        }
        let ghost old_map = self@;
        let ghost old_ids = self.ids@;
        let ghost id = self.ids@[i as int];
        let mut t = todo;
        std::mem::swap(&mut self.todos[i], &mut t);
        proof {
            self.lemma_view();
            assert forall|k: u32| #[trigger] self@.contains_key(k) implies self@[k] == old_map.insert(
                id,
                todo@,
            )[k] by {
                let j = self.ids@.index_of(k);
                lemma_index_of(self.ids@, j);
            }
            assert(self@ =~= old_map.insert(id, todo@));
        }
        t
    }

    /// Adds `todo` under a new id at position `i`, which keeps the ids ascending.
    fn insert_new_at(&mut self, i: usize, id: u32, todo: Todo)
        requires
            old(self).wf(),
            i <= old(self).id_seq().len(),
            forall|j: int| 0 <= j < i ==> old(self).id_seq()[j] < id,
            i < old(self).id_seq().len() ==> id < old(self).id_seq()[i as int],
        ensures
            final(self).wf(),
            final(self)@ == old(self)@.insert(id, todo@),
            !old(self)@.contains_key(id),
    {
        proof {
            self.lemma_view();
        }
        let ghost old_map = self@;
        let ghost old_ids = self.ids@;
        self.ids.insert(i, id);
        self.todos.insert(i, todo);
        proof {
            assert(forall|j: int| i < j < old_ids.len() ==> id < #[trigger] old_ids[j]) by {
                if i < old_ids.len() {
                    assert(id < old_ids[i as int]);
                }
            }
            assert(strictly_ascending(self.ids@));
            assert forall|j: int| 0 <= j < old_ids.len() implies old_ids[j] != id by {
                if j >= i {
                    assert(old_ids[j] >= old_ids[i as int]);
                }
            }
            assert(!old_ids.contains(id));
            assert forall|k: u32| #[trigger] self.ids@.contains(k) <==> old_ids.contains(k) || k
                == id by {
                if self.ids@.contains(k) {
                    let j = self.ids@.index_of(k);
                    if j < i {
                        assert(old_ids[j] == k);
                    } else if j > i {
                        assert(old_ids[j - 1] == k);
                    }
                }
                if old_ids.contains(k) {
                    let j = old_ids.index_of(k);
                    if j < i {
                        assert(self.ids@[j] == k);
                    } else {
                        assert(self.ids@[j + 1] == k);
                    }
                }
                if k == id {
                    assert(self.ids@[i as int] == k);
                }
            }
            assert forall|k: u32| #[trigger] self.ids@.contains(k) implies self@[k]
                == old_map.insert(id, todo@)[k] by {
                let j = self.ids@.index_of(k);
                lemma_index_of(self.ids@, j);
                if j < i {
                    lemma_index_of(old_ids, j);
                } else if j > i {
                    lemma_index_of(old_ids, j - 1);
                }
            }
            assert(self@ =~= old_map.insert(id, todo@));
        }
    }

    /// Adds or replaces the todo under `id`; returns the todo it replaces.
    pub fn insert(&mut self, id: u32, todo: Todo) -> (r: Option<Todo>)
        requires
            old(self).wf(),
        ensures
            final(self).wf(),
            final(self)@ == old(self)@.insert(id, todo@),
            r is Some <==> old(self)@.contains_key(id),
            r matches Some(t) ==> t@ == old(self)@[id],
    {
        proof {
            self.lemma_view();
        }
        let mut i: usize = 0;
        while i < self.ids.len() && self.ids[i] < id
            invariant
                self.wf(),
                i <= self.ids.len(),
                forall|j: int| 0 <= j < i ==> self.ids@[j] < id,
            decreases self.ids.len() - i,
        {
            i = i + 1;
        }
        if i < self.ids.len() && self.ids[i] == id {
            Some(self.replace_at(i, todo))
        } else {
            self.insert_new_at(i, id, todo);
            None
        }
    }

    /// Takes the todo under `id` out of the list.
    pub fn remove(&mut self, id: u32) -> (r: Option<Todo>)
        requires
            old(self).wf(),
        ensures
            final(self).wf(),
            final(self)@ == old(self)@.remove(id),
            r is Some <==> old(self)@.contains_key(id),
            r matches Some(t) ==> t@ == old(self)@[id],
    {
        proof {
            self.lemma_view();
        }
        let ghost old_map = self@;
        let ghost old_ids = self.ids@;
        match self.find(id) {
            None => {
                assert(self@ =~= old_map.remove(id));
                None
            },
            Some(i) => {
                self.ids.remove(i);
                let t = self.todos.remove(i);
                proof {
                    lemma_index_of(old_ids, i as int);
                    assert(strictly_ascending(self.ids@));
                    assert forall|k: u32| #[trigger] self.ids@.contains(k) <==> old_ids.contains(
                        k,
                    ) && k != id by {
                        if self.ids@.contains(k) {
                            let j = self.ids@.index_of(k);
                            if j < i {
                                assert(old_ids[j] == k);
                                assert(old_ids[j] < old_ids[i as int]);
                            } else {
                                assert(old_ids[j + 1] == k);
                                assert(old_ids[j + 1] > old_ids[i as int]);
                            }
                        }
                        if old_ids.contains(k) && k != id {
                            let j = old_ids.index_of(k);
                            if j < i {
                                assert(self.ids@[j] == k);
                            } else {
                                assert(j != i);
                                assert(self.ids@[j - 1] == k);
                            }
                        }
                    }
                    assert forall|k: u32| #[trigger] self.ids@.contains(k) implies self@[k]
                        == old_map.remove(id)[k] by {
                        let j = self.ids@.index_of(k);
                        lemma_index_of(self.ids@, j);
                        if j < i {
                            lemma_index_of(old_ids, j);
                        } else {
                            lemma_index_of(old_ids, j + 1);
                        }
                    }
                    assert(self@ =~= old_map.remove(id));
                }
                Some(t)
            },
        }
    }

    /// Moves every todo of `other` into this list; where both hold an id, `other`'s todo wins.
    pub fn extend(&mut self, other: TodoMap)
        requires
            old(self).wf(),
            other.wf(),
        ensures
            final(self).wf(),
            final(self)@ == old(self)@.union_prefer_right(other@),
    {
        let ghost orig = other@;
        let mut rest = other;
        proof {
            rest.lemma_ids();
        }
        while rest.len() > 0
            invariant
                self.wf(),
                rest.wf(),
                self@.union_prefer_right(rest@) == old(self)@.union_prefer_right(orig),
            decreases rest@.len(),
        {
            let ghost o0 = rest@;
            let ghost s0 = self@;
            let n = rest.ids.len();
            proof {
                rest.lemma_view();
                rest.lemma_ids();
            }
            let k = rest.ids[n - 1];
            match rest.remove(k) {
                Some(t) => {
                    self.insert(k, t);
                    proof {
                        assert(self@.union_prefer_right(rest@) =~= s0.union_prefer_right(o0));
                        rest.lemma_ids();
                        assert(o0.dom().contains(k));
                        assert(rest@.dom() =~= o0.dom().remove(k));
                    }
                },
                None => {},
            }
        }
        proof {
            rest.lemma_ids();
            assert(rest@ =~= Map::<u32, TodoView>::empty());
            assert(self@.union_prefer_right(rest@) =~= self@);
        }
    }
}

} // verus!
