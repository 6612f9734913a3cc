use vstd::prelude::*;

use crate::error::Error;
use crate::tree::{views, Row, RowView};

verus! {

/// Row `j` lies in the subtree of row `i`: it comes after `i`, and every row from just
/// after `i` up to `j` lies deeper than `i`.
pub open spec fn in_subtree(rows: Seq<RowView>, i: int, j: int) -> bool {
    &&& 0 <= i < j < rows.len()
    &&& forall|k: int| i < k <= j ==> rows[k].depth > rows[i].depth
}

/// Row `j` is hidden: one of the rows whose subtree holds it is folded.
pub open spec fn hidden(rows: Seq<RowView>, j: int) -> bool {
    exists|i: int| #[trigger] in_subtree(rows, i, j) && rows[i].folded
}

/// Positions, in order, of the rows before `n` that are not hidden.
pub open spec fn visible_upto(rows: Seq<RowView>, n: int) -> Seq<int>
    decreases n,
{
    if n <= 0 {
        Seq::empty()
    } else {
        let p = visible_upto(rows, n - 1);
        if hidden(rows, n - 1) {
            p
        } else {
            p.push(n - 1)
        }
    }
}

/// The flattened visible list: pre-order, not descending into folded rows.
pub open spec fn visible(rows: Seq<RowView>) -> Seq<int> {
    visible_upto(rows, rows.len() as int)
}

/// The rows with the fold state of row `i` set to `f`.
pub open spec fn set_folded(rows: Seq<RowView>, i: int, f: bool) -> Seq<RowView> {
    rows.update(i, RowView { folded: f, ..rows[i] })
}

/// Keeps the positions outside the subtree of row `i`.
pub open spec fn outside(rows: Seq<RowView>, i: int) -> spec_fn(int) -> bool {
    |j: int| !in_subtree(rows, i, j)
}

/// Keeps the positions inside the subtree of row `i`.
pub open spec fn inside(rows: Seq<RowView>, i: int) -> spec_fn(int) -> bool {
    |j: int| in_subtree(rows, i, j)
}

/// The texts of a sequence of strings.
pub open spec fn texts(s: Seq<String>) -> Seq<Seq<char>> {
    s.map_values(|x: String| x@)
}

/// Positions as integers.
pub open spec fn ints(s: Seq<usize>) -> Seq<int> {
    s.map_values(|x: usize| x as int)
}

/// `visible_upto` grows by appending: a shorter prefix is a prefix of a longer one, and what
/// is appended lies at or after the shorter bound.
proof fn lemma_visible_prefix(rows: Seq<RowView>, n: int, m: int)
    requires
        0 <= n <= m,
    ensures
        visible_upto(rows, n).len() <= visible_upto(rows, m).len(),
        visible_upto(rows, m).take(visible_upto(rows, n).len() as int) == visible_upto(rows, n),
        forall|k: int|
            visible_upto(rows, n).len() <= k < visible_upto(rows, m).len() ==> #[trigger] visible_upto(
                rows,
                m,
            )[k] >= n,
        forall|k: int|
            0 <= k < visible_upto(rows, m).len() ==> 0 <= #[trigger] visible_upto(rows, m)[k] < m,
    decreases m - n,
{
    if n < m {
        lemma_visible_prefix(rows, n, m - 1);
        lemma_visible_bounds(rows, m);
        let p = visible_upto(rows, m - 1);
        if !hidden(rows, m - 1) {
            assert(p.push(m - 1).take(visible_upto(rows, n).len() as int) =~= p.take(
                visible_upto(rows, n).len() as int,
            ));
        }
    } else {
        assert(visible_upto(rows, m).take(visible_upto(rows, m).len() as int) =~= visible_upto(
            rows,
            m,
        ));
        lemma_visible_bounds(rows, m);
    }
}

proof fn lemma_visible_bounds(rows: Seq<RowView>, m: int)
    ensures
        forall|k: int|
            0 <= k < visible_upto(rows, m).len() ==> 0 <= #[trigger] visible_upto(rows, m)[k] < m,
    decreases m,
{
    if m > 0 {
        lemma_visible_bounds(rows, m - 1);
        let p = visible_upto(rows, m - 1);
        assert forall|k: int| 0 <= k < visible_upto(rows, m).len() implies 0 <= #[trigger] visible_upto(rows, m)[k] < m by {
            if k < p.len() {
                assert(visible_upto(rows, m)[k] == p[k]);
            }
        }
    }
}

/// Changing the fold state of row `i` leaves the visible rows up to `i` as they are.
proof fn lemma_fold_local(rows: Seq<RowView>, i: int, f: bool, n: int)
    requires
        0 <= i < rows.len(),
        n <= i + 1,
    ensures
        visible_upto(set_folded(rows, i, f), n) == visible_upto(rows, n),
    decreases n,
{
    let r2 = set_folded(rows, i, f);
    assert forall|k: int| 0 <= k < rows.len() implies r2[k].depth == rows[k].depth by {}
    if n > 0 {
        lemma_fold_local(rows, i, f, n - 1);
        let j = n - 1;
        assert(hidden(r2, j) == hidden(rows, j)) by {
            if hidden(r2, j) {
                let a = choose|a: int| #[trigger] in_subtree(r2, a, j) && r2[a].folded;
                assert(in_subtree(rows, a, j));
            }
            if hidden(rows, j) {
                let a = choose|a: int| #[trigger] in_subtree(rows, a, j) && rows[a].folded;
                assert(in_subtree(r2, a, j));
            }
        }
    }
}

/// Folding an unfolded row `i` hides exactly the visible rows of its subtree, and the rest
/// keep their order.
proof fn lemma_fold_filter(rows: Seq<RowView>, i: int, n: int)
    requires
        0 <= i < rows.len(),
        !rows[i].folded,
    ensures
        visible_upto(set_folded(rows, i, true), n) == visible_upto(rows, n).filter(outside(rows, i)),
        visible_upto(set_folded(rows, i, true), n).len() + visible_upto(rows, n).filter(
            inside(rows, i),
        ).len() == visible_upto(rows, n).len(),
    decreases n,
{
    let r2 = set_folded(rows, i, true);
    assert forall|k: int| 0 <= k < rows.len() implies r2[k].depth == rows[k].depth by {}
    reveal(Seq::filter);
    if n <= 0 {
        assert(visible_upto(rows, n).filter(outside(rows, i)) =~= Seq::<int>::empty());
        assert(visible_upto(rows, n).filter(inside(rows, i)) =~= Seq::<int>::empty());
    } else {
        lemma_fold_filter(rows, i, n - 1);
        let j = n - 1;
        let p = visible_upto(rows, j);
        assert(hidden(r2, j) == (hidden(rows, j) || in_subtree(rows, i, j))) by {
            if hidden(r2, j) {
                let a = choose|a: int| #[trigger] in_subtree(r2, a, j) && r2[a].folded;
                assert(in_subtree(rows, a, j));
            }
            if hidden(rows, j) {
                let a = choose|a: int| #[trigger] in_subtree(rows, a, j) && rows[a].folded;
                assert(in_subtree(r2, a, j));
            }
            if in_subtree(rows, i, j) {
                assert(in_subtree(r2, i, j));
            }
        }
        if !hidden(rows, j) {
            assert(p.push(j).drop_last() =~= p);
        }
    }
}

/// Folding row `i` (a visible, unfolded branch) removes from the flattened visible list
/// exactly the visible rows of its subtree, as many as those are, and keeps the others in
/// order; unfolding it again gives back the list it had.
pub proof fn lemma_fold_hides_subtree(rows: Seq<RowView>, i: int)
    requires
        0 <= i < rows.len(),
        !hidden(rows, i),
        rows[i].branch,
        !rows[i].folded,
    ensures
        visible(set_folded(rows, i, true)) == visible(rows).filter(outside(rows, i)),
        visible(rows).len() - visible(set_folded(rows, i, true)).len() == visible(rows).filter(
            inside(rows, i),
        ).len(),
        visible(set_folded(set_folded(rows, i, true), i, false)) == visible(rows),
{
    lemma_fold_filter(rows, i, rows.len() as int);
    assert(set_folded(set_folded(rows, i, true), i, false) =~= rows);
}

/// Whether row `j` lies in the subtree of row `i`.
fn is_in_subtree(rows: &Vec<Row>, i: usize, j: usize) -> (r: bool)
    requires
        i < rows.len(),
        j < rows.len(),
    ensures
        r == in_subtree(views(rows@), i as int, j as int),
{
    if j <= i {
        return false;
    }
    let mut k: usize = i + 1;
    while k <= j
        invariant
            i < k <= j + 1,
            j < rows.len(),
            forall|l: int| i < l < k ==> views(rows@)[l].depth > views(rows@)[i as int].depth,
        decreases j + 1 - k,
    {
        if rows[k].depth <= rows[i].depth {
            proof {
                assert(views(rows@)[k as int].depth <= views(rows@)[i as int].depth);
            }
            return false;
        }
        k = k + 1;
    }
    true
}

/// Whether row `j` is hidden under a folded row.
fn is_hidden(rows: &Vec<Row>, j: usize) -> (r: bool)
    requires
        j < rows.len(),
    ensures
        r == hidden(views(rows@), j as int),
{
    let ghost v = views(rows@);
    let mut a: usize = j;
    // `low` is the least depth among the rows a..=j
    let mut low: usize = rows[j].depth;
    proof {
        assert(v[j as int].depth == low);
    }
    while a > 0
        invariant
            v == views(rows@),
            a <= j < rows.len(),
            forall|l: int| a <= l <= j ==> low <= v[l].depth,
            exists|l: int| a <= l <= j && low == v[l].depth,
            forall|b: int| a <= b < j ==> !(#[trigger] in_subtree(v, b, j as int) && v[b].folded),
        decreases a,
    {
        let b = a - 1;
        if rows[b].depth < low {
            proof {
                assert(in_subtree(v, b as int, j as int));
            }
            if rows[b].folded {
                proof {
                    assert(in_subtree(v, b as int, j as int) && v[b as int].folded);
                }
                return true;
            }
            low = rows[b].depth;
        } else {
            proof {
                let l = choose|l: int| a <= l <= j && low == v[l].depth;
                assert(!in_subtree(v, b as int, j as int));
            }
        }
        a = b;
    }
    false
}

/// Positions of the visible rows.
fn flatten(rows: &Vec<Row>) -> (r: Vec<usize>)
    ensures
        ints(r@) == visible(views(rows@)),
{
    let mut r: Vec<usize> = Vec::new();
    let mut j: usize = 0;
    while j < rows.len()
        invariant
            j <= rows.len(),
            ints(r@) == visible_upto(views(rows@), j as int),
        decreases rows.len() - j,
    {
        if !is_hidden(rows, j) {
            r.push(j);
            proof {
                assert(ints(r@) =~= visible_upto(views(rows@), j as int).push(j as int));
            }
        }
        j = j + 1;
    }
    r
}

/// A browsable forest: the rows, the flattened visible list and a cursor into that list.
/// The root (named by the list) is not itself a row.
pub struct Tree {
    root: String,
    rows: Vec<Row>,
    visible: Vec<usize>,
    position: usize,
}

impl Tree {
    pub closed spec fn root_name(&self) -> Seq<char> {
        self.root@
    }

    pub closed spec fn rows_view(&self) -> Seq<RowView> {
        views(self.rows@)
    }

    /// The flattened visible list, as positions of rows.
    pub closed spec fn visible_view(&self) -> Seq<int> {
        ints(self.visible@)
    }

    pub closed spec fn spec_position(&self) -> int {
        self.position as int
    }

    /// The visible list matches the rows and the cursor lies in it (at 0 when it is empty).
    pub closed spec fn wf(&self) -> bool {
        &&& ints(self.visible@) == visible(views(self.rows@))
        &&& (self.position < self.visible.len() || self.position == 0)
    }

    /// A tree over `rows` under a root named `root`, cursor on the first visible row.
    pub fn new(root: String, rows: Vec<Row>) -> (r: Tree)
        ensures
            r.wf(),
            r.root_name() == root@,
            r.rows_view() == views(rows@),
            r.visible_view() == visible(views(rows@)),
            r.spec_position() == 0,
    {
        let visible = flatten(&rows);
        Tree { root, rows, visible, position: 0 }
    }

    /// Positions of the visible rows, in order.
    pub fn kinds(&self) -> (r: &Vec<usize>)
        ensures
            ints(r@) == self.visible_view(),
    {
        &self.visible
    }

    /// The row at `i`.
    pub fn row(&self, i: usize) -> (r: &Row)
        requires
            i < self.rows_view().len(),
        ensures
            r@ == self.rows_view()[i as int],
    {
        &self.rows[i]
    }

    /// Index of the cursor in the visible list.
    pub fn position(&self) -> (r: usize)
        ensures
            r == self.spec_position(),
    {
        self.position
    }

    /// Moves the cursor one step back; `false`, and no move, at the first entry.
    pub fn backward(&mut self) -> (r: bool)
        requires
            old(self).wf(),
        ensures
            final(self).wf(),
            r == (old(self).spec_position() > 0),
            final(self).spec_position() == if r {
                old(self).spec_position() - 1
            } else {
                old(self).spec_position()
            },
            final(self).rows_view() == old(self).rows_view(),
            final(self).visible_view() == old(self).visible_view(),
            final(self).root_name() == old(self).root_name(),
    {
        if self.position > 0 {
            self.position = self.position - 1;
            true
        } else {
            false
        }
    }

    /// Moves the cursor one step forward; `false`, and no move, at the last entry.
    pub fn forward(&mut self) -> (r: bool)
        requires
            old(self).wf(),
        ensures
            final(self).wf(),
            r == (old(self).spec_position() + 1 < old(self).visible_view().len()),
            final(self).spec_position() == if r {
                old(self).spec_position() + 1
            } else {
                old(self).spec_position()
            },
            final(self).rows_view() == old(self).rows_view(),
            final(self).visible_view() == old(self).visible_view(),
            final(self).root_name() == old(self).root_name(),
    {
        if self.position + 1 < self.visible.len() {
            self.position = self.position + 1;
            true
        } else {
            false
        }
    }

    /// Puts the cursor on the first entry.
    pub fn move_to_head(&mut self)
        requires
            old(self).wf(),
        ensures
            final(self).wf(),
            final(self).spec_position() == 0,
            final(self).rows_view() == old(self).rows_view(),
            final(self).visible_view() == old(self).visible_view(),
            final(self).root_name() == old(self).root_name(),
    {
        self.position = 0;
    }

    /// Puts the cursor on the last entry.
    pub fn move_to_tail(&mut self)
        requires
            old(self).wf(),
        ensures
            final(self).wf(),
            final(self).spec_position() == if old(self).visible_view().len() == 0 {
                0
            } else {
                old(self).visible_view().len() - 1
            },
            final(self).rows_view() == old(self).rows_view(),
            final(self).visible_view() == old(self).visible_view(),
            final(self).root_name() == old(self).root_name(),
    {
        if self.visible.len() == 0 {
            self.position = 0;
        } else {
            self.position = self.visible.len() - 1;
        }
    }

    /// Flips the fold state of the branch under the cursor and rebuilds the visible list;
    /// the cursor keeps its numeric position. A leaf, or an empty list, stays as it is.
    pub fn toggle(&mut self)
        requires
            old(self).wf(),
        ensures
            final(self).wf(),
            final(self).spec_position() == old(self).spec_position(),
            final(self).root_name() == old(self).root_name(),
            old(self).visible_view().len() > 0 && old(self).rows_view()[old(
                self,
            ).visible_view()[old(self).spec_position()]].branch ==> final(self).rows_view()
                == set_folded(
                old(self).rows_view(),
                old(self).visible_view()[old(self).spec_position()],
                !old(self).rows_view()[old(self).visible_view()[old(self).spec_position()]].folded,
            ),
            !(old(self).visible_view().len() > 0 && old(self).rows_view()[old(
                self,
            ).visible_view()[old(self).spec_position()]].branch) ==> final(self).rows_view()
                == old(self).rows_view(),
            final(self).visible_view() == visible(final(self).rows_view()),
    {
        if self.visible.len() == 0 {
            return;
        }
        let ghost v0 = views(self.rows@);
        let p = self.position;
        let i = self.visible[p];
        proof {
            lemma_visible_bounds(v0, v0.len() as int);
            assert(ints(self.visible@)[p as int] == i as int);
        }
        if !self.rows[i].branch {
            return;
        }
        let f = !self.rows[i].folded;
        self.rows[i].folded = f;
        proof {
            assert(views(self.rows@) =~= set_folded(v0, i as int, f));
        }
        let visible = flatten(&self.rows);
        proof {
            let v1 = views(self.rows@);
            let n = v0.len() as int;
            lemma_visible_prefix(v0, i + 1, n);
            lemma_visible_prefix(v1, i + 1, n);
            lemma_fold_local(v0, i as int, f, i + 1);
            let w = visible_upto(v0, i + 1);
            let big = visible_upto(v0, n);
            if p >= w.len() {
                assert(big[p as int] >= i + 1);
            }
            assert(p < w.len());
            assert(ints(visible@).len() == visible@.len());
        }
        self.visible = visible;
    }

    /// Ids from the root down to the row under the cursor: the root's name, the ids of the
    /// rows whose subtrees hold it, then its own id. Empty when nothing is visible.
    pub fn get(&self) -> (r: Vec<String>)
        requires
            self.wf(),
        ensures
            self.visible_view().len() == 0 ==> r@.len() == 0,
            self.visible_view().len() > 0 ==> texts(r@) == path_of(
                self.root_name(),
                self.rows_view(),
                self.visible_view()[self.spec_position()],
            ),
    {
        if self.visible.len() == 0 {
            return Vec::new();
        }
        let ghost v = views(self.rows@);
        let j = self.visible[self.position];
        proof {
            lemma_visible_bounds(v, v.len() as int);
            assert(ints(self.visible@)[self.position as int] == j as int);
        }
        let mut r: Vec<String> = Vec::new();
        let s = self.root.clone();
        r.push(s);
        proof {
            assert(texts(r@) =~= seq![self.root@] + ancestor_ids(v, 0, j as int));
        }
        let mut a: usize = 0;
        while a < j
            invariant
                v == views(self.rows@),
                j < self.rows@.len(),
                a <= j,
                texts(r@) == seq![self.root@] + ancestor_ids(v, a as int, j as int),
            decreases j - a,
        {
            let ghost before = r@;
            if is_in_subtree(&self.rows, a, j) {
                let s = self.rows[a].text.id.clone();
                r.push(s);
                proof {
                    assert(texts(r@) =~= texts(before).push(v[a as int].text.id));
                }
            }
            proof {
                assert(texts(r@) =~= seq![self.root@] + ancestor_ids(v, a + 1, j as int));
            }
            a = a + 1;
        }
        let ghost before = r@;
        let s = self.rows[j].text.id.clone();
        r.push(s);
        proof {
            assert(texts(r@) =~= texts(before).push(v[j as int].text.id));
            assert(texts(r@) =~= path_of(self.root@, v, j as int));
        }
        r
    }
}

/// Ids of the rows before `a` whose subtrees hold row `j`, in order.
pub open spec fn ancestor_ids(rows: Seq<RowView>, a: int, j: int) -> Seq<Seq<char>>
    decreases a,
{
    if a <= 0 {
        Seq::empty()
    } else {
        let p = ancestor_ids(rows, a - 1, j);
        if in_subtree(rows, a - 1, j) {
            p.push(rows[a - 1].text.id)
        } else {
            p
        }
    }
}

/// The address of row `j`: the root's name, the ids of the rows above it, its own id.
pub open spec fn path_of(root: Seq<char>, rows: Seq<RowView>, j: int) -> Seq<Seq<char>> {
    seq![root] + ancestor_ids(rows, j, j) + seq![rows[j].text.id]
}

/// What a key press asks of the browser.
#[derive(Clone, Copy, Debug, PartialEq, Eq, Structural)]
pub enum Key {
    Enter,
    Char(char),
    CtrlC,
    Resize,
    Other,
}

/// Whether the browsing session goes on.
#[derive(Clone, Copy, Debug, PartialEq, Eq, Structural)]
pub enum Signal {
    Quit,
    Continue,
}

/// Default key bindings: Enter or `q` quits, Ctrl+C interrupts, `k` moves up, `j` moves
/// down, Space folds or unfolds the current node; anything else (a resize too) goes on.
pub fn default(key: Key, tree: &mut Tree) -> (r: Result<Signal, Error>)
    requires
        old(tree).wf(),
    ensures
        final(tree).wf(),
        key == Key::Enter || key == Key::Char('q') ==> r == Ok::<Signal, Error>(Signal::Quit)
            && *final(tree) == *old(tree),
        key == Key::CtrlC ==> r == Err::<Signal, Error>(Error::Interrupted) && *final(tree)
            == *old(tree),
        key == Key::Char('k') ==> r == Ok::<Signal, Error>(Signal::Continue)
            && final(tree).rows_view() == old(tree).rows_view()
            && final(tree).spec_position() == if old(tree).spec_position() > 0 {
                old(tree).spec_position() - 1
            } else {
                old(tree).spec_position()
            },
        key == Key::Char('j') ==> r == Ok::<Signal, Error>(Signal::Continue)
            && final(tree).rows_view() == old(tree).rows_view()
            && final(tree).spec_position() == if old(tree).spec_position() + 1 < old(
                tree,
            ).visible_view().len() {
                old(tree).spec_position() + 1
            } else {
                old(tree).spec_position()
            },
        key == Key::Char(' ') ==> r == Ok::<Signal, Error>(Signal::Continue)
            && final(tree).spec_position() == old(tree).spec_position()
            && final(tree).visible_view() == visible(final(tree).rows_view()),
        !(key == Key::Enter || key == Key::Char('q') || key == Key::CtrlC || key == Key::Char('k')
            || key == Key::Char('j') || key == Key::Char(' ')) ==> r == Ok::<Signal, Error>(
            Signal::Continue,
        ) && *final(tree) == *old(tree),
{
    match key {
        Key::Enter => Ok(Signal::Quit),
        Key::Char('q') => Ok(Signal::Quit),
        Key::CtrlC => Err(Error::Interrupted),
        Key::Char('k') => {
            tree.backward();
            Ok(Signal::Continue)
        },
        Key::Char('j') => {
            tree.forward();
            Ok(Signal::Continue)
        },
        Key::Char(' ') => {
            tree.toggle();
            Ok(Signal::Continue)
        },
        _ => Ok(Signal::Continue),
    }
}

/// Mathematical form of a display line.
pub struct LineView {
    pub marker: Option<bool>,
    pub depth: nat,
    pub id: Seq<char>,
    pub desc: Seq<char>,
    pub link: Option<Seq<char>>,
    pub done: bool,
    pub active: bool,
}

/// What to draw for one visible row: a fold marker for a branch (`Some(folded)`), none for
/// a leaf; its depth, id and description; its link only on the row under the cursor; whether
/// it is done; whether it is under the cursor.
#[derive(Debug)]
pub struct Line {
    pub marker: Option<bool>,
    pub depth: usize,
    pub id: String,
    pub desc: String,
    pub link: Option<String>,
    pub done: bool,
    pub active: bool,
}

impl View for Line {
    type V = LineView;

    open spec fn view(&self) -> LineView {
        LineView {
            marker: self.marker,
            depth: self.depth as nat,
            id: self.id@,
            desc: self.desc@,
            link: match self.link {
                Some(l) => Some(l@),
                None => None,
            },
            done: self.done,
            active: self.active,
        }
    }
}

/// How many entries of a visible list of `len` entries lie in the window `[start, end)`.
pub open spec fn window_len(start: int, end: int, len: int) -> int {
    let stop = if end < len {
        end
    } else {
        len
    };
    if start < stop {
        stop - start
    } else {
        0
    }
}

/// The line drawn for row `r`.
pub open spec fn line_of(r: RowView, active: bool) -> LineView {
    LineView {
        marker: if r.branch {
            Some(r.folded)
        } else {
            None
        },
        depth: r.depth,
        id: r.text.id,
        desc: r.text.desc,
        link: if active {
            r.text.link
        } else {
            None
        },
        done: r.text.complete is Some,
        active,
    }
}

/// The browser: the tree, how it is drawn, and the window `[list_start, list_end)` of the
/// visible list that is on screen.
pub struct State {
    pub tree: Tree,
    /// Symbol for folded branches.
    pub folded_symbol: String,
    /// Symbol for unfolded branches.
    pub unfolded_symbol: String,
    /// Number of lines available for rendering.
    pub lines: Option<usize>,
    /// Spaces per level of depth.
    pub indent: usize,
    /// First position of the visible list on screen.
    pub list_start: usize,
    /// Position just past the last one on screen.
    pub list_end: usize,
}

impl State {
    pub open spec fn start(&self) -> int {
        self.list_start as int
    }

    pub open spec fn end(&self) -> int {
        self.list_end as int
    }

    /// A browser over `tree` with an empty window.
    pub fn new(tree: Tree) -> (r: State)
        ensures
            r.tree == tree,
            r.start() == 0,
            r.end() == 0,
            r.lines is None,
            r.indent == 2,
            r.folded_symbol@ == seq!['+', ' '],
            r.unfolded_symbol@ == seq!['-', ' '],
    {
        let folded_symbol = String::from_str("+ ");
        let unfolded_symbol = String::from_str("- ");
        proof {
            reveal_strlit("+ ");
            reveal_strlit("- ");
        }
        State {
            tree,
            folded_symbol,
            unfolded_symbol,
            lines: None,
            indent: 2,
            list_start: 0,
            list_end: 0,
        }
    }

    /// Sets the end of the window.
    pub fn set_list_end(&mut self, list_end: usize)
        ensures
            final(self).end() == list_end,
            final(self).start() == old(self).start(),
            final(self).tree == old(self).tree,
            final(self).lines == old(self).lines,
            final(self).indent == old(self).indent,
    {
        self.list_end = list_end;
    }

    /// Moves the window one line toward the cursor when the cursor has left it: forward when
    /// the cursor is at or past its end, back when it is before its start.
    pub fn follow_cursor(&mut self)
        requires
            old(self).tree.wf(),
            old(self).start() <= old(self).end(),
        ensures
            final(self).tree == old(self).tree,
            final(self).lines == old(self).lines,
            final(self).indent == old(self).indent,
            final(self).start() <= final(self).end(),
            ({
                let p = old(self).tree.spec_position();
                let (s1, e1) = if p >= old(self).end() {
                    (old(self).start() + 1, old(self).end() + 1)
                } else {
                    (old(self).start(), old(self).end())
                };
                let (s2, e2) = if p < s1 {
                    (if s1 > 0 {
                        s1 - 1
                    } else {
                        0
                    }, e1 - 1)
                } else {
                    (s1, e1)
                };
                final(self).start() == s2 && final(self).end() == e2
            }),
    {
        let p = self.tree.position();
        let len = self.tree.kinds().len();
        proof {
            assert(self.tree.visible_view().len() == len);
        }
        if p >= self.list_end {
            self.list_start = self.list_start + 1;
            self.list_end = self.list_end + 1;
        }
        if p < self.list_start {
            self.list_start = self.list_start.saturating_sub(1);
            self.list_end = self.list_end - 1;
        }
    }

    /// Lines of the visible rows inside the window, in order.
    pub fn window(&self) -> (r: Vec<Line>)
        requires
            self.tree.wf(),
        ensures
            r@.len() == window_len(self.start(), self.end(), self.tree.visible_view().len() as int),
            forall|k: int|
                0 <= k < r@.len() ==> (#[trigger] r@[k])@ == line_of(
                    self.tree.rows_view()[self.tree.visible_view()[self.start() + k]],
                    self.start() + k == self.tree.spec_position(),
                ),
    {
        let vis = self.tree.kinds();
        let stop = if self.list_end < vis.len() {
            self.list_end
        } else {
            vis.len()
        };
        let mut r: Vec<Line> = Vec::new();
        let mut k: usize = self.list_start;
        proof {
            lemma_visible_bounds(self.tree.rows_view(), self.tree.rows_view().len() as int);
        }
        while k < stop
            invariant
                self.tree.wf(),
                ints(vis@) == self.tree.visible_view(),
                stop <= vis.len(),
                self.list_start <= k <= stop || (k == self.list_start && stop <= self.list_start),
                r@.len() == k - self.list_start,
                forall|x: int| 0 <= x < vis@.len() ==> 0 <= #[trigger] self.tree.visible_view()[x] < self.tree.rows_view().len(),
                forall|x: int|
                    0 <= x < r@.len() ==> (#[trigger] r@[x])@ == line_of(
                        self.tree.rows_view()[self.tree.visible_view()[self.start() + x]],
                        self.start() + x == self.tree.spec_position(),
                    ),
            decreases stop - k,
        {
            let i = vis[k];
            proof {
                assert(self.tree.visible_view()[k as int] == i as int);
            }
            let row = self.tree.row(i);
            let active = k == self.tree.position();
            let marker = if row.branch {
                Some(row.folded)
            } else {
                None
            };
            let link = if active {
                match &row.text.link {
                    Some(l) => Some(l.clone()),
                    None => None,
                }
            } else {
                None
            };
            let line = Line {
                marker,
                depth: row.depth,
                id: row.text.id.clone(),
                desc: row.text.desc.clone(),
                link,
                done: row.text.complete.is_some(),
                active,
            };
            r.push(line);
            k = k + 1;
        }
        r
    }
}

} // verus!
