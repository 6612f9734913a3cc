use vstd::prelude::*;

use crate::error::Error;
use crate::model::{Todo, TodoMap, TodoView};
use crate::text::{desc, text_of, TextView, TodoText};

verus! {

/// Mathematical form of a display row.
pub struct RowView {
    pub id: u32,
    pub depth: nat,
    pub branch: bool,
    pub folded: bool,
    pub text: TextView,
}

/// One display node of the forest, listed in depth-first pre-order: the node's subtree is
/// the run of rows after it that lie deeper than it. A branch has children, a leaf has
/// none; only a branch can be folded.
#[derive(Debug)]
pub struct Row {
    pub id: u32,
    pub depth: usize,
    pub branch: bool,
    pub folded: bool,
    pub text: TodoText,
}

impl View for Row {
    type V = RowView;

    open spec fn view(&self) -> RowView {
        RowView {
            id: self.id,
            depth: self.depth as nat,
            branch: self.branch,
            folded: self.folded,
            text: self.text@,
        }
    }
}

/// The views of a sequence of rows.
pub open spec fn views(s: Seq<Row>) -> Seq<RowView> {
    s.map_values(|r: Row| r@)
}

/// Whether `k` is listed among the children of `t`.
pub open spec fn child_of(t: TodoView) -> spec_fn(u32) -> bool {
    |k: u32| t.has_child(k)
}

/// Whether the todo under `k` has no parent.
pub open spec fn root_of(m: Map<u32, TodoView>) -> spec_fn(u32) -> bool {
    |k: u32| m[k].parent is None
}

/// `t` names a child that is not in the list.
pub open spec fn dangling(m: Map<u32, TodoView>, t: TodoView) -> bool {
    exists|c: u32| t.has_child(c) && !m.contains_key(c)
}

/// The row of the todo `id` at `depth`, unfolded.
pub open spec fn node_row(m: Map<u32, TodoView>, id: u32, depth: nat) -> RowView {
    RowView {
        id,
        depth,
        branch: m[id].has_children(),
        folded: false,
        text: text_of(id, m[id]),
    }
}

/// Rows produced before a failure, and the failure if there is one.
pub type Partial = (Seq<RowView>, Option<Error>);

/// `a`, then `b` unless `a` failed.
pub open spec fn cat(a: Partial, b: Partial) -> Partial {
    if a.1 is Some {
        a
    } else {
        (a.0 + b.0, b.1)
    }
}

/// Rows of the subtree of `id` at `depth` in pre-order, its children in ascending id order
/// (`keys` lists all ids in ascending order), up to the first failure: a child missing
/// from the list, or nesting deeper than `fuel`, which only a cycle can cause.
pub open spec fn subtree(
    m: Map<u32, TodoView>,
    keys: Seq<u32>,
    id: u32,
    depth: nat,
    fuel: nat,
) -> Partial
    decreases fuel, 0nat, 0nat,
{
    let t = m[id];
    if !t.has_children() {
        (seq![node_row(m, id, depth)], None)
    } else if dangling(m, t) {
        (Seq::empty(), Some(Error::DanglingReference))
    } else if fuel == 0 {
        (Seq::empty(), Some(Error::Cyclic))
    } else {
        cat(
            (seq![node_row(m, id, depth)], None),
            forest(m, keys, keys.filter(child_of(t)), depth + 1, (fuel - 1) as nat),
        )
    }
}

/// Rows of the subtrees of `ids`, one after the other, up to the first failure.
pub open spec fn forest(
    m: Map<u32, TodoView>,
    keys: Seq<u32>,
    ids: Seq<u32>,
    depth: nat,
    fuel: nat,
) -> Partial
    decreases fuel, 1nat, ids.len(),
{
    if ids.len() == 0 {
        (Seq::empty(), None)
    } else {
        cat(forest(m, keys, ids.drop_last(), depth, fuel), subtree(m, keys, ids.last(), depth, fuel))
    }
}

/// The whole display forest of a list: roots in ascending id order at depth 0, or the first
/// failure.
pub open spec fn forest_of(m: Map<u32, TodoView>, keys: Seq<u32>) -> Result<Seq<RowView>, Error> {
    let p = forest(m, keys, keys.filter(root_of(m)), 0, keys.len());
    match p.1 {
        None => Ok(p.0),
        Some(e) => Err(e),
    }
}

/// Pending subtrees on a stack (the top is last): id, depth and remaining nesting.
pub open spec fn frames(m: Map<u32, TodoView>, keys: Seq<u32>, s: Seq<(u32, usize, usize)>) -> Partial
    decreases s.len(),
{
    if s.len() == 0 {
        (Seq::empty(), None)
    } else {
        cat(
            subtree(m, keys, s.last().0, s.last().1 as nat, s.last().2 as nat),
            frames(m, keys, s.drop_last()),
        )
    }
}

/// Stack entries for `kids`, pushed last to first so that the first comes out first.
pub open spec fn kid_frames(kids: Seq<u32>, depth: usize, fuel: usize) -> Seq<(u32, usize, usize)>
    decreases kids.len(),
{
    if kids.len() == 0 {
        Seq::empty()
    } else {
        kid_frames(kids.drop_first(), depth, fuel).push((kids[0], depth, fuel))
    }
}

proof fn lemma_cat_assoc(a: Partial, b: Partial, c: Partial)
    ensures
        cat(a, cat(b, c)) == cat(cat(a, b), c),
{
    if a.1 is None && b.1 is None {
        assert(a.0 + (b.0 + c.0) =~= (a.0 + b.0) + c.0);
    }
}

proof fn lemma_kid_frames_push(kids: Seq<u32>, x: u32, depth: usize, fuel: usize)
    ensures
        kid_frames(kids.push(x), depth, fuel) == seq![(x, depth, fuel)] + kid_frames(kids, depth, fuel),
    decreases kids.len(),
{
    if kids.len() == 0 {
        assert(kids.push(x).drop_first() =~= kids);
        assert(kid_frames(kids.push(x), depth, fuel) =~= seq![(x, depth, fuel)] + kid_frames(
            kids,
            depth,
            fuel,
        ));
    } else {
        assert(kids.push(x).drop_first() =~= kids.drop_first().push(x));
        lemma_kid_frames_push(kids.drop_first(), x, depth, fuel);
        assert(kid_frames(kids.push(x), depth, fuel) =~= seq![(x, depth, fuel)] + kid_frames(
            kids,
            depth,
            fuel,
        ));
    }
}

/// Pushing the entries of `kids` on `rest` puts their forest in front of what `rest` holds.
proof fn lemma_push_kids(
    m: Map<u32, TodoView>,
    keys: Seq<u32>,
    rest: Seq<(u32, usize, usize)>,
    kids: Seq<u32>,
    depth: usize,
    fuel: usize,
)
    ensures
        frames(m, keys, rest + kid_frames(kids, depth, fuel)) == cat(
            forest(m, keys, kids, depth as nat, fuel as nat),
            frames(m, keys, rest),
        ),
    decreases kids.len(),
{
    if kids.len() == 0 {
        assert(rest + kid_frames(kids, depth, fuel) =~= rest);
        assert(Seq::<RowView>::empty() + frames(m, keys, rest).0 =~= frames(m, keys, rest).0);
    } else {
        let k2 = kids.drop_last();
        let x = kids.last();
        assert(k2.push(x) =~= kids);
        lemma_kid_frames_push(k2, x, depth, fuel);
        let r2 = rest.push((x, depth, fuel));
        assert(rest + kid_frames(kids, depth, fuel) =~= r2 + kid_frames(k2, depth, fuel));
        lemma_push_kids(m, keys, r2, k2, depth, fuel);
        assert(r2.drop_last() =~= rest);
        lemma_cat_assoc(
            forest(m, keys, k2, depth as nat, fuel as nat),
            subtree(m, keys, x, depth as nat, fuel as nat),
            frames(m, keys, rest),
        );
    }
}

/// Whether `v` holds `x`.
fn has_id(v: &Vec<u32>, x: u32) -> (r: bool)
    ensures
        r == v@.contains(x),
{
    let mut i: usize = 0;
    while i < v.len()
        invariant
            i <= v.len(),
            forall|k: int| 0 <= k < i ==> v@[k] != x,
        decreases v.len() - i,
    {
        if v[i] == x {
            proof {
                assert(v@[i as int] == x);
            }
            return true;
        }
        i = i + 1;
    }
    false
}

/// The children of `t` in ascending id order, or `DanglingReference` when one of them is
/// missing from the list.
fn sorted_children(todos: &TodoMap, t: &Todo) -> (r: Result<Vec<u32>, Error>)
    requires
        todos.wf(),
        t@.has_children(),
    ensures
        r is Err <==> dangling(todos@, t@),
        r matches Err(e) ==> e == Error::DanglingReference,
        r matches Ok(v) ==> v@ == todos.id_seq().filter(child_of(t@)),
{
    let ch = match &t.children {
        Some(v) => v,
        None => {
            return Ok(Vec::new());
        },
    };
    let mut i: usize = 0;
    while i < ch.len()
        invariant
            todos.wf(),
            Some(ch@) == t@.children,
            i <= ch.len(),
            forall|k: int| 0 <= k < i ==> todos@.contains_key(#[trigger] ch@[k]),
        decreases ch.len() - i,
    {
        if !todos.contains_key(ch[i]) {
            proof {
                assert(t@.has_child(ch@[i as int]));
            }
            return Err(Error::DanglingReference);
        }
        i = i + 1;
    }
    proof {
        assert forall|c: u32| t@.has_child(c) implies todos@.contains_key(c) by {
            let k = ch@.index_of(c);
        }
    }
    let keys = todos.ids();
    let mut r: Vec<u32> = Vec::new();
    let mut j: usize = 0;
    while j < keys.len()
        invariant
            Some(ch@) == t@.children,
            keys@ == todos.id_seq(),
            j <= keys.len(),
            r@ == keys@.take(j as int).filter(child_of(t@)),
        decreases keys.len() - j,
    {
        proof {
            assert(keys@.take(j + 1).drop_last() =~= keys@.take(j as int));
            reveal(Seq::filter);
        }
        if has_id(ch, keys[j]) {
            r.push(keys[j]);
        }
        j = j + 1;
    }
    proof {
        assert(keys@.take(keys.len() as int) =~= keys@);
    }
    Ok(r)
}

proof fn lemma_filter_in(s: Seq<u32>, p: spec_fn(u32) -> bool, k: int)
    requires
        0 <= k < s.filter(p).len(),
    ensures
        s.contains(s.filter(p)[k]),
{
    s.lemma_filter_contains_rev(p, s.filter(p)[k]);
}

/// Builds the display forest of a list: one subtree per todo without a parent, roots and
/// siblings in ascending id order, every node unfolded.
///
/// Works with an explicit stack of pending subtrees, so the depth of the hierarchy never
/// deepens the call stack. Fails with `DanglingReference` when a todo that is shown names a
/// child missing from the list, and with `Cyclic` when the children links loop.
pub fn build_tree(todos: &TodoMap) -> (r: Result<Vec<Row>, Error>)
    requires
        todos.wf(),
    ensures
        r is Ok <==> forest_of(todos@, todos.id_seq()) is Ok,
        r matches Err(e) ==> forest_of(todos@, todos.id_seq()) == Err::<Seq<RowView>, Error>(e),
        r matches Ok(rows) ==> views(rows@) == forest_of(todos@, todos.id_seq())->Ok_0,
{
    let ghost m = todos@;
    let keys = todos.ids();
    let n = keys.len();
    let mut roots: Vec<u32> = Vec::new();
    let mut j: usize = 0;
    while j < keys.len()
        invariant
            todos.wf(),
            keys@ == todos.id_seq(),
            j <= keys.len(),
            roots@ == keys@.take(j as int).filter(root_of(todos@)),
        decreases keys.len() - j,
    {
        proof {
            assert(keys@.take(j + 1).drop_last() =~= keys@.take(j as int));
            reveal(Seq::filter);
            todos.lemma_ids();
            assert(keys@.contains(keys@[j as int]));
        }
        let t = todos.get(keys[j]).unwrap();
        if t.parent.is_none() {
            roots.push(keys[j]);
        }
        j = j + 1;
    }
    proof {
        assert(keys@.take(keys.len() as int) =~= keys@);
        todos.lemma_ids();
        assert forall|k: int| 0 <= k < roots@.len() implies todos@.contains_key(#[trigger] roots@[k]) by {
            lemma_filter_in(keys@, root_of(todos@), k);
        }
    }
    let ghost target = forest(m, keys@, roots@, 0, n as nat);
    let mut stack: Vec<(u32, usize, usize)> = Vec::new();
    let mut i: usize = roots.len();
    while i > 0
        invariant
            i <= roots.len(),
            stack@ == kid_frames(roots@.subrange(i as int, roots@.len() as int), 0, n),
        decreases i,
    {
        i = i - 1;
        stack.push((roots[i], 0, n));
        proof {
            assert(roots@.subrange(i as int, roots@.len() as int).drop_first() =~= roots@.subrange(
                i + 1,
                roots@.len() as int,
            ));
        }
    }
    proof {
        assert(roots@.subrange(0, roots@.len() as int) =~= roots@);
        lemma_push_kids(m, keys@, Seq::empty(), roots@, 0, n);
        assert(Seq::<(u32, usize, usize)>::empty() + stack@ =~= stack@);
        assert(target.0 + Seq::<RowView>::empty() =~= target.0);
        assert(views(Seq::<Row>::empty()) =~= Seq::<RowView>::empty());
        assert(Seq::<RowView>::empty() + target.0 =~= target.0);
        lemma_frames_in(roots@, 0, n);
        assert(roots@ == keys@.filter(root_of(m)));
    }
    let mut out: Vec<Row> = Vec::new();
    while stack.len() > 0
        invariant
            todos.wf(),
            m == todos@,
            keys@ == todos.id_seq(),
            n == keys@.len(),
            target == forest(m, keys@, keys@.filter(root_of(m)), 0, n as nat),
            cat((views(out@), None), frames(m, keys@, stack@)) == target,
            forall|k: int|
                0 <= k < stack@.len() ==> m.contains_key((#[trigger] stack@[k]).0) && stack@[k].1
                    + stack@[k].2 <= n,
        decreases target.0.len() - out@.len(),
    {
        let ghost s0 = stack@;
        let ghost o0 = views(out@);
        let (id, depth, fuel) = stack.pop().unwrap();
        proof {
            assert(s0.drop_last() =~= stack@);
            assert(s0[s0.len() - 1] == (id, depth, fuel));
        }
        let t = todos.get(id).unwrap();
        let branch = match &t.children {
            Some(v) => v.len() > 0,
            None => false,
        };
        let ghost rest = frames(m, keys@, stack@);
        let ghost top = subtree(m, keys@, id, depth as nat, fuel as nat);
        if !branch {
            out.push(Row { id, depth, branch, folded: false, text: desc(id, t) });
            proof {
                assert(views(out@) =~= o0 + seq![node_row(m, id, depth as nat)]);
                assert(o0 + (seq![node_row(m, id, depth as nat)] + rest.0) =~= views(out@) + rest.0);
            }
            continue;
        }
        let kids = match sorted_children(todos, t) {
            Ok(v) => v,
            Err(e) => {
                proof {
                    assert(o0 + Seq::<RowView>::empty() =~= o0);
                }
                return Err(e);
            },
        };
        if fuel == 0 {
            proof {
                assert(o0 + Seq::<RowView>::empty() =~= o0);
            }
            return Err(Error::Cyclic);
        }
        out.push(Row { id, depth, branch, folded: false, text: desc(id, t) });
        let ghost base = stack@;
        let mut k: usize = kids.len();
        while k > 0
            invariant
                k <= kids.len(),
                stack@ == base + kid_frames(kids@.subrange(k as int, kids@.len() as int), (depth + 1) as usize, (fuel - 1) as usize),
                depth + fuel <= n,
                fuel > 0,
            decreases k,
        {
            k = k - 1;
            stack.push((kids[k], depth + 1, fuel - 1));
            proof {
                assert(kids@.subrange(k as int, kids@.len() as int).drop_first() =~= kids@.subrange(
                    k + 1,
                    kids@.len() as int,
                ));
            }
        }
        proof {
            let kf = forest(m, keys@, kids@, (depth + 1) as nat, (fuel - 1) as nat);
            assert(kids@.subrange(0, kids@.len() as int) =~= kids@);
            lemma_push_kids(m, keys@, base, kids@, (depth + 1) as usize, (fuel - 1) as usize);
            let row = node_row(m, id, depth as nat);
            assert(views(out@) =~= o0 + seq![row]);
            lemma_cat_assoc((seq![row], None), kf, rest);
            lemma_cat_assoc((o0, None), (seq![row], None), cat(kf, rest));
            assert(o0 + seq![row] =~= views(out@));
            todos.lemma_ids();
            assert forall|q: int| 0 <= q < kids@.len() implies todos@.contains_key(#[trigger] kids@[q]) by {
                lemma_filter_in(todos.id_seq(), child_of(t@), q);
            }
            lemma_frames_in(kids@, (depth + 1) as usize, (fuel - 1) as usize);
            assert forall|q: int| 0 <= q < stack@.len() implies m.contains_key((#[trigger] stack@[q]).0)
                && stack@[q].1 + stack@[q].2 <= n by {
                if q >= base.len() {
                    assert(stack@[q] == kid_frames(kids@, (depth + 1) as usize, (fuel - 1) as usize)[q - base.len()]);
                } else {
                    assert(stack@[q] == s0[q]);
                }
            }
        }
    }
    proof {
        assert(views(out@) + Seq::<RowView>::empty() =~= views(out@));
        assert(roots@ == keys@.filter(root_of(m)));
    }
    Ok(out)
}

/// Every entry of `kid_frames` names one of `kids`, with the given depth and nesting.
proof fn lemma_frames_in(kids: Seq<u32>, depth: usize, fuel: usize)
    ensures
        kid_frames(kids, depth, fuel).len() == kids.len(),
        forall|q: int|
            0 <= q < kids.len() ==> kids.contains(#[trigger] kid_frames(kids, depth, fuel)[q].0)
                && kid_frames(kids, depth, fuel)[q].1 == depth && kid_frames(kids, depth, fuel)[q].2
                == fuel,
    decreases kids.len(),
{
    if kids.len() > 0 {
        lemma_frames_in(kids.drop_first(), depth, fuel);
        let f = kid_frames(kids, depth, fuel);
        assert forall|q: int| 0 <= q < kids.len() implies kids.contains(#[trigger] f[q].0) && f[q].1
            == depth && f[q].2 == fuel by {
            if q < kids.len() - 1 {
                let x = f[q].0;
                assert(kids.drop_first().contains(x));
                let w = kids.drop_first().index_of(x);
                assert(kids[w + 1] == x);
            } else {
                assert(kids[0] == f[q].0);
            }
        }
    }
}

} // verus!
