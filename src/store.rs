use vstd::prelude::*;

use crate::error::Error;
use crate::hierarchy::next_id;
use crate::model::{Todo, TodoMap, TodoView};

verus! {

/// The texts of a sequence of strings.
pub open spec fn names_of(s: Seq<String>) -> Seq<Seq<char>> {
    s.map_values(|x: String| x@)
}

proof fn lemma_index_of_unique(s: Seq<Seq<char>>, i: int)
    requires
        s.no_duplicates(),
        0 <= i < s.len(),
    ensures
        s.contains(s[i]),
        s.index_of(s[i]) == i,
{
    assert(s[i] == s[i]);
}

proof fn lemma_push_to_set(s: Seq<Seq<char>>, x: Seq<char>)
    ensures
        s.push(x).to_set() == s.to_set().insert(x),
{
    assert forall|y: Seq<char>| #[trigger] s.push(x).to_set().contains(y) <==> s.to_set().insert(x).contains(y) by {
        if s.push(x).contains(y) {
            let k = s.push(x).index_of(y);
            if k < s.len() {
                assert(s[k] == y);
            }
        }
        if s.contains(y) {
            let k = s.index_of(y);
            assert(s.push(x)[k] == y);
        }
        if y == x {
            assert(s.push(x)[s.len() as int] == y);
        }
    }
    assert(s.push(x).to_set() =~= s.to_set().insert(x));
}

/// All lists of todos, by name, and the name of the default list.
#[derive(Debug)]
pub struct Store {
    default_list: String,
    names: Vec<String>,
    lists: Vec<TodoMap>,
}

impl Store {
    /// Names of the lists, in the order they were added.
    pub closed spec fn name_seq(&self) -> Seq<Seq<char>> {
        names_of(self.names@)
    }

    pub closed spec fn default_name(&self) -> Seq<char> {
        self.default_list@
    }

    /// The todos of each list, by name.
    pub closed spec fn lists_view(&self) -> Map<Seq<char>, Map<u32, TodoView>> {
        Map::new(
            |k: Seq<char>| self.name_seq().contains(k),
            |k: Seq<char>| self.lists@[self.name_seq().index_of(k)]@,
        )
    }

    /// Names unique, one list per name, every list well formed.
    pub closed spec fn wf(&self) -> bool {
        &&& self.names.len() == self.lists.len()
        &&& self.name_seq().no_duplicates()
        &&& forall|i: int| 0 <= i < self.lists.len() ==> (#[trigger] self.lists@[i]).wf()
    }

    proof fn lemma_view(&self)
        requires
            self.wf(),
        ensures
            forall|i: int|
                #![trigger self.name_seq()[i]]
                0 <= i < self.names.len() ==> self.lists_view().contains_key(self.name_seq()[i])
                    && self.lists_view()[self.name_seq()[i]] == self.lists@[i]@,
    {
        assert forall|i: int| 0 <= i < self.names.len() implies self.lists_view().contains_key(
            self.name_seq()[i],
        ) && self.lists_view()[self.name_seq()[i]] == self.lists@[i]@ by {
            lemma_index_of_unique(self.name_seq(), i);
        }
    }

    /// Position of the list named `list`, if any.
    fn find(&self, list: &String) -> (r: Option<usize>)
        requires
            self.wf(),
        ensures
            r is None <==> !self.lists_view().contains_key(list@),
            r matches Some(i) ==> i < self.names.len() && self.name_seq()[i as int] == list@
                && self.lists_view()[list@] == self.lists@[i as int]@,
    {
        proof {
            self.lemma_view();
        }
        let mut i: usize = 0;
        while i < self.names.len()
            invariant
                self.wf(),
                i <= self.names.len(),
                forall|k: int| 0 <= k < i ==> self.name_seq()[k] != list@,
            decreases self.names.len() - i,
        {
            if self.names[i] == *list {
                proof {
                    assert(self.name_seq()[i as int] == self.names@[i as int]@);
                }
                return Some(i);
            }
            i = i + 1;
        }
        proof {
            if self.name_seq().contains(list@) {
                let k = self.name_seq().index_of(list@);
            }
        }
        None
    }

    /// A store whose lists are `default_list` and `lists_option`, all empty; a name given
    /// twice makes one list.
    pub fn create(default_list: String, lists_option: Vec<String>) -> (r: Store)
        ensures
            r.wf(),
            r.default_name() == default_list@,
            r.lists_view().dom() == names_of(lists_option@).to_set().insert(default_list@),
            forall|k: Seq<char>| #[trigger]
                r.lists_view().contains_key(k) ==> r.lists_view()[k] == Map::<
                    u32,
                    TodoView,
                >::empty(),
    {
        let mut store = Store { default_list: default_list.clone(), names: Vec::new(), lists: Vec::new() };
        proof {
            assert(store.name_seq() =~= Seq::<Seq<char>>::empty());
        }
        store.add_list(default_list);
        let mut i: usize = 0;
        while i < lists_option.len()
            invariant
                store.wf(),
                i <= lists_option.len(),
                store.default_name() == default_list@,
                store.lists_view().dom() == names_of(lists_option@).take(i as int).to_set().insert(
                    default_list@,
                ),
                forall|k: Seq<char>| #[trigger]
                    store.lists_view().contains_key(k) ==> store.lists_view()[k] == Map::<
                        u32,
                        TodoView,
                    >::empty(),
            decreases lists_option.len() - i,
        {
            let name = lists_option[i].clone();
            let ghost d0 = store.lists_view().dom();
            if store.find(&name).is_none() {
                store.add_list(name);
            }
            proof {
                assert(store.lists_view().dom() =~= d0.insert(lists_option@[i as int]@));
                assert(names_of(lists_option@).take(i + 1) =~= names_of(lists_option@).take(
                    i as int,
                ).push(lists_option@[i as int]@));
                lemma_push_to_set(names_of(lists_option@).take(i as int), lists_option@[i as int]@);
            }
            i = i + 1;
            proof {
                assert(store.lists_view().dom() =~= names_of(lists_option@).take(i as int).to_set().insert(
                    default_list@,
                ));
            }
        }
        proof {
            assert(names_of(lists_option@).take(lists_option.len() as int) =~= names_of(
                lists_option@,
            ));
        }
        store
    }

    /// Adds an empty list named `name`; an existing list of that name is emptied.
    pub fn add_list(&mut self, name: String)
        requires
            old(self).wf(),
        ensures
            final(self).wf(),
            final(self).default_name() == old(self).default_name(),
            final(self).lists_view() == old(self).lists_view().insert(
                name@,
                Map::<u32, TodoView>::empty(),
            ),
    {
        proof {
            self.lemma_view();
        }
        let ghost old_view = self.lists_view();
        let ghost old_names = self.name_seq();
        match self.find(&name) {
            Some(i) => {
                self.lists.set(i, TodoMap::new());
                proof {
                    assert(self.name_seq() == old_names);
                    self.lemma_view();
                    assert forall|k: Seq<char>| #[trigger]
                        self.lists_view().contains_key(k) implies self.lists_view()[k]
                        == old_view.insert(name@, Map::<u32, TodoView>::empty())[k] by {
                        let j = self.name_seq().index_of(k);
                        lemma_index_of_unique(self.name_seq(), j);
                    }
                    assert(self.lists_view() =~= old_view.insert(
                        name@,
                        Map::<u32, TodoView>::empty(),
                    ));
                }
            },
            None => {
                self.names.push(name);
                self.lists.push(TodoMap::new());
                proof {
                    assert(self.name_seq() =~= old_names.push(name@));
                    assert(!old_names.contains(name@));
                    self.lemma_view();
                    assert forall|k: Seq<char>| #[trigger]
                        self.lists_view().contains_key(k) implies self.lists_view()[k]
                        == old_view.insert(name@, Map::<u32, TodoView>::empty())[k] by {
                        let j = self.name_seq().index_of(k);
                        lemma_index_of_unique(self.name_seq(), j);
                        if j < old_names.len() {
                            lemma_index_of_unique(old_names, j);
                        }
                    }
                    assert forall|k: Seq<char>|
                        self.name_seq().contains(k) <==> old_names.contains(k) || k == name@ by {
                        if self.name_seq().contains(k) {
                            let j = self.name_seq().index_of(k);
                            if j < old_names.len() {
                                assert(old_names[j] == k);
                            }
                        }
                        if old_names.contains(k) {
                            let j = old_names.index_of(k);
                            assert(self.name_seq()[j] == k);
                        }
                        if k == name@ {
                            assert(self.name_seq()[old_names.len() as int] == k);
                        }
                    }
                    assert(self.lists_view() =~= old_view.insert(
                        name@,
                        Map::<u32, TodoView>::empty(),
                    ));
                }
            },
        }
    }

    pub fn default_list(&self) -> (r: &String)
        ensures
            r@ == self.default_name(),
    {
        &self.default_list
    }

    pub fn set_default_list(&mut self, default_list: String)
        ensures
            final(self).default_name() == default_list@,
            final(self).lists_view() == old(self).lists_view(),
            final(self).wf() == old(self).wf(),
    {
        self.default_list = default_list;
    }

    /// Names of all lists.
    pub fn lists(&self) -> (r: &Vec<String>)
        requires
            self.wf(),
        ensures
            names_of(r@).to_set() == self.lists_view().dom(),
            names_of(r@).no_duplicates(),
    {
        proof {
            self.lemma_view();
            assert(names_of(self.names@).to_set() =~= self.lists_view().dom());
        }
        &self.names
    }

    /// The todos of the list named `list`.
    pub fn todos(&self, list: &String) -> (r: Result<&TodoMap, Error>)
        requires
            self.wf(),
        ensures
            r is Err <==> !self.lists_view().contains_key(list@),
            r matches Err(e) ==> e == Error::NoSuchList,
            r matches Ok(m) ==> m.wf() && m@ == self.lists_view()[list@],
    {
        match self.find(list) {
            Some(i) => Ok(&self.lists[i]),
            None => Err(Error::NoSuchList),
        }
    }

    /// The todos of the list named `list`, to change them; the other lists stay as they are.
    pub fn todos_mut(&mut self, list: &String) -> (r: Result<&mut TodoMap, Error>)
        requires
            old(self).wf(),
        ensures
            r is Err <==> !old(self).lists_view().contains_key(list@),
            r matches Err(e) ==> e == Error::NoSuchList && *final(self) == *old(self),
            r matches Ok(m) ==> m.wf() && m@ == old(self).lists_view()[list@] && (final(m).wf()
                ==> final(self).wf()) && final(self).default_name() == old(self).default_name()
                && final(self).lists_view() == old(self).lists_view().insert(list@, final(m)@),
    {
        proof {
            self.lemma_view();
        }
        match self.find(list) {
            Some(i) => Ok(&mut self.lists[i]),
            None => Err(Error::NoSuchList),
        }
    }

    /// Takes the list named `name` out of the store.
    fn remove_list(&mut self, name: &String) -> (r: Option<TodoMap>)
        requires
            old(self).wf(),
        ensures
            final(self).wf(),
            final(self).default_name() == old(self).default_name(),
            final(self).lists_view() == old(self).lists_view().remove(name@),
            r is Some <==> old(self).lists_view().contains_key(name@),
            r matches Some(m) ==> m.wf() && m@ == old(self).lists_view()[name@],
    {
        proof {
            self.lemma_view();
        }
        let ghost old_view = self.lists_view();
        let ghost old_names = self.name_seq();
        let ghost old_lists = self.lists@;
        match self.find(name) {
            None => {
                proof {
                    assert(self.lists_view() =~= old_view.remove(name@));
                }
                None
            },
            Some(i) => {
                self.names.remove(i);
                let m = self.lists.remove(i);
                proof {
                    assert(self.name_seq() =~= old_names.remove(i as int));
                    assert(self.lists@ =~= old_lists.remove(i as int));
                    assert forall|a: int, b: int|
                        0 <= a < b < self.name_seq().len() implies self.name_seq()[a]
                        != self.name_seq()[b] by {
                        if a >= i {
                            assert(old_names[a + 1] != old_names[b + 1]);
                        } else if b >= i {
                            assert(old_names[a] != old_names[b + 1]);
                        } else {
                            assert(old_names[a] != old_names[b]);
                        }
                    }
                    assert forall|k: int| 0 <= k < self.lists.len() implies (
                    #[trigger] self.lists@[k]).wf() by {
                        if k >= i {
                            assert(self.lists@[k] == old_lists[k + 1]);
                        }
                    }
                    self.lemma_view();
                    assert forall|k: Seq<char>|
                        self.name_seq().contains(k) <==> old_names.contains(k) && k != name@ by {
                        if self.name_seq().contains(k) {
                            let j = self.name_seq().index_of(k);
                            if j < i {
                                assert(old_names[j] == k);
                                assert(old_names[j] != old_names[i as int]);
                            } else {
                                assert(old_names[j + 1] == k);
                                assert(old_names[j + 1] != old_names[i as int]);
                            }
                        }
                        if old_names.contains(k) && k != name@ {
                            let j = old_names.index_of(k);
                            if j < i {
                                assert(self.name_seq()[j] == k);
                            } else {
                                assert(j != i);
                                assert(self.name_seq()[j - 1] == k);
                            }
                        }
                    }
                    assert forall|k: Seq<char>| #[trigger]
                        self.name_seq().contains(k) implies self.lists_view()[k] == old_view[k] by {
                        let j = self.name_seq().index_of(k);
                        lemma_index_of_unique(self.name_seq(), j);
                        if j < i {
                            lemma_index_of_unique(old_names, j);
                        } else {
                            lemma_index_of_unique(old_names, j + 1);
                        }
                    }
                    assert(self.lists_view() =~= old_view.remove(name@));
                }
                Some(m)
            },
        }
    }

    /// Removes the lists named in `remove`, in order, and returns the names it kept.
    ///
    /// The default list is kept, and so is a list that still holds todos, unless `force`:
    /// then its todos move, ids unchanged, into the default list. Fails with `NoSuchList`
    /// when the default list or a named list does not exist.
    pub fn remove_lists(&mut self, remove: &Vec<String>, force: bool) -> (r: Result<
        Vec<String>,
        Error,
    >)
        requires
            old(self).wf(),
        ensures
            final(self).wf(),
            final(self).default_name() == old(self).default_name(),
            r is Ok <==> removal(
                old(self).lists_view(),
                old(self).default_name(),
                names_of(remove@),
                force,
            ) is Ok,
            r matches Err(e) ==> removal(
                old(self).lists_view(),
                old(self).default_name(),
                names_of(remove@),
                force,
            ) == Err::<(Map<Seq<char>, Map<u32, TodoView>>, Seq<Seq<char>>), Error>(e),
            r matches Ok(kept) ==> removal(
                old(self).lists_view(),
                old(self).default_name(),
                names_of(remove@),
                force,
            ) == Ok::<(Map<Seq<char>, Map<u32, TodoView>>, Seq<Seq<char>>), Error>(
                (final(self).lists_view(), names_of(kept@)),
            ),
    {
        let ghost v0 = self.lists_view();
        let ghost dflt = self.default_name();
        if self.find(&self.default_list).is_none() {
            return Err(Error::NoSuchList);
        }
        let mut kept: Vec<String> = Vec::new();
        let mut i: usize = 0;
        proof {
            assert(names_of(remove@).take(0) =~= Seq::<Seq<char>>::empty());
            assert(names_of(kept@) =~= Seq::<Seq<char>>::empty());
        }
        while i < remove.len()
            invariant
                self.wf(),
                v0 == old(self).lists_view(),
                dflt == old(self).default_name(),
                self.default_name() == dflt,
                i <= remove.len(),
                self.lists_view().contains_key(dflt),
                removal(v0, dflt, names_of(remove@).take(i as int), force) == Ok::<
                    (Map<Seq<char>, Map<u32, TodoView>>, Seq<Seq<char>>),
                    Error,
                >((self.lists_view(), names_of(kept@))),
            decreases remove.len() - i,
        {
            proof {
                assert(names_of(remove@).take(i + 1).drop_last() =~= names_of(remove@).take(
                    i as int,
                ));
                assert(names_of(remove@).take(i + 1).last() == remove@[i as int]@);
            }
            let name = &remove[i];
            let ghost cur = self.lists_view();
            let ghost k0 = kept@;
            if *name == self.default_list {
                kept.push(name.clone());
                proof {
                    assert(names_of(kept@) =~= names_of(k0).push(name@));
                }
            } else {
                if self.find(name).is_none() {
                    proof {
                        assert(removal(v0, dflt, names_of(remove@).take(i + 1), force) == Err::<
                            (Map<Seq<char>, Map<u32, TodoView>>, Seq<Seq<char>>),
                            Error,
                        >(Error::NoSuchList));
                        lemma_removal_err(v0, dflt, names_of(remove@), (i + 1) as int, force);
                        assert(names_of(remove@).take(remove.len() as int) =~= names_of(remove@));
                    }
                    return Err(Error::NoSuchList);
                }
                let len = match self.todos(name) {
                    Ok(m) => m.len(),
                    Err(_) => 0,
                };
                if len > 0 && !force {
                    kept.push(name.clone());
                    proof {
                        assert(names_of(kept@) =~= names_of(k0).push(name@));
                    }
                } else {
                    let removed = self.remove_list(name);
                    if let Some(m) = removed {
                        if len > 0 {
                            let d = self.default_list.clone();
                            match self.todos_mut(&d) {
                                Ok(target) => {
                                    target.extend(m);
                                },
                                Err(_) => {},
                            }
                        }
                    }
                    proof {
                        if len > 0 {
                            assert(self.lists_view() =~= cur.remove(name@).insert(
                                dflt,
                                cur[dflt].union_prefer_right(cur[name@]),
                            ));
                        } else {
                            assert(self.lists_view() =~= cur.remove(name@));
                        }
                    }
                }
            }
            i = i + 1;
        }
        proof {
            assert(names_of(remove@).take(remove.len() as int) =~= names_of(remove@));
        }
        Ok(kept)
    }

    /// Makes `name` the default list; with `create` a missing list is added first, without
    /// it a missing list fails with `NoSuchList`.
    pub fn make_default(&mut self, name: String, create: bool) -> (r: Result<(), Error>)
        requires
            old(self).wf(),
        ensures
            final(self).wf(),
            r is Err <==> !old(self).lists_view().contains_key(name@) && !create,
            r matches Err(e) ==> e == Error::NoSuchList && *final(self) == *old(self),
            r is Ok ==> final(self).default_name() == name@ && final(self).lists_view() == (
            if old(self).lists_view().contains_key(name@) {
                old(self).lists_view()
            } else {
                old(self).lists_view().insert(name@, Map::<u32, TodoView>::empty())
            }),
    {
        if self.find(&name).is_none() {
            if !create {
                return Err(Error::NoSuchList);
            }
            let n = name.clone();
            self.add_list(n);
        }
        self.set_default_list(name);
        Ok(())
    }

    /// The id that the next todo of the list `list` gets.
    pub fn generate_id(&self, list: &String) -> (r: Result<u32, Error>)
        requires
            self.wf(),
        ensures
            !self.lists_view().contains_key(list@) ==> r == Err::<u32, Error>(Error::NoSuchList),
            self.lists_view().contains_key(list@) ==> {
                let m = self.lists_view()[list@];
                &&& r is Err <==> m.contains_key(u32::MAX)
                &&& r matches Err(e) ==> e == Error::IdExhausted
                &&& r matches Ok(id) ==> {
                    &&& forall|k: u32| m.contains_key(k) ==> k < id
                    &&& m.len() == 0 ==> id == 1
                    &&& m.len() > 0 ==> m.contains_key((id - 1) as u32)
                }
            },
    {
        match self.todos(list) {
            Ok(m) => next_id(m),
            Err(e) => Err(e),
        }
    }

    /// The todo `todo_id` of the list `list`.
    pub fn todo_by_id(&self, list: &String, todo_id: u32) -> (r: Result<&Todo, Error>)
        requires
            self.wf(),
        ensures
            !self.lists_view().contains_key(list@) ==> r == Err::<&Todo, Error>(Error::NoSuchList),
            self.lists_view().contains_key(list@) && !self.lists_view()[list@].contains_key(
                todo_id,
            ) ==> r == Err::<&Todo, Error>(Error::NoSuchTodo),
            r matches Ok(t) ==> self.lists_view().contains_key(list@)
                && self.lists_view()[list@].contains_key(todo_id) && t@ == self.lists_view()[list@][todo_id],
            r is Ok <==> self.lists_view().contains_key(list@) && self.lists_view()[list@].contains_key(todo_id),
    {
        match self.todos(list) {
            Ok(m) => match m.get(todo_id) {
                Some(t) => Ok(t),
                None => Err(Error::NoSuchTodo),
            },
            Err(e) => Err(e),
        }
    }
}

/// Removing the lists `names` one after the other from `v`, whose default list is `dflt`:
/// the new lists and the names kept. The default list, and without `force` a non-empty
/// list, is kept; a removed list's todos go into the default list, winning on equal ids.
pub open spec fn removal(
    v: Map<Seq<char>, Map<u32, TodoView>>,
    dflt: Seq<char>,
    names: Seq<Seq<char>>,
    force: bool,
) -> Result<(Map<Seq<char>, Map<u32, TodoView>>, Seq<Seq<char>>), Error>
    decreases names.len(),
{
    if !v.contains_key(dflt) {
        Err(Error::NoSuchList)
    } else if names.len() == 0 {
        Ok((v, Seq::empty()))
    } else {
        match removal(v, dflt, names.drop_last(), force) {
            Err(e) => Err(e),
            Ok(prev) => {
                let cur = prev.0;
                let name = names.last();
                if name == dflt {
                    Ok((cur, prev.1.push(name)))
                } else if !cur.contains_key(name) {
                    Err(Error::NoSuchList)
                } else if cur[name].len() > 0 && !force {
                    Ok((cur, prev.1.push(name)))
                } else if cur[name].len() == 0 {
                    Ok((cur.remove(name), prev.1))
                } else {
                    Ok((cur.remove(name).insert(dflt, cur[dflt].union_prefer_right(cur[name])), prev.1))
                }
            },
        }
    }
}

proof fn lemma_removal_err(
    v: Map<Seq<char>, Map<u32, TodoView>>,
    dflt: Seq<char>,
    names: Seq<Seq<char>>,
    i: int,
    force: bool,
)
    requires
        0 <= i <= names.len(),
        removal(v, dflt, names.take(i), force) is Err,
    ensures
        removal(v, dflt, names, force) == removal(v, dflt, names.take(i), force),
    decreases names.len() - i,
{
    if i < names.len() {
        assert(names.take(i + 1).drop_last() =~= names.take(i));
        lemma_removal_err(v, dflt, names, i + 1, force);
    } else {
        assert(names.take(i) =~= names);
    }
}

} // verus!
