use vstd::prelude::*;
use vstd::string::StringExecFns;

use crate::date::date_name;
use crate::model::{Todo, TodoView};

verus! {

/// The character of a decimal digit.
pub open spec fn digit_char(d: nat) -> char {
    if d == 0 {
        '0'
    } else if d == 1 {
        '1'
    } else if d == 2 {
        '2'
    } else if d == 3 {
        '3'
    } else if d == 4 {
        '4'
    } else if d == 5 {
        '5'
    } else if d == 6 {
        '6'
    } else if d == 7 {
        '7'
    } else if d == 8 {
        '8'
    } else {
        '9'
    }
}

/// Decimal notation of `n`, without leading zeros.
pub open spec fn decimal(n: nat) -> Seq<char>
    decreases n,
{
    if n < 10 {
        seq![digit_char(n)]
    } else {
        decimal(n / 10).push(digit_char(n % 10))
    }
}

/// Relies on `ToString for u32` (through `Display`): decimal notation without sign or
/// leading zeros.
#[verifier::external_body]
fn id_text(n: u32) -> (r: String)
    ensures
        r@ == decimal(n as nat),
{
    n.to_string()
}

/// Mathematical form of the text shown for a todo.
pub struct TextView {
    pub id: Seq<char>,
    pub desc: Seq<char>,
    pub link: Option<Seq<char>>,
    pub complete: Option<Seq<char>>,
}

/// What is shown for a todo: its id, description, link and completion date as text.
#[derive(Debug, PartialEq, Eq)]
pub struct TodoText {
    pub id: String,
    pub desc: String,
    pub link: Option<String>,
    pub complete: Option<String>,
}

impl View for TodoText {
    type V = TextView;

    open spec fn view(&self) -> TextView {
        TextView {
            id: self.id@,
            desc: self.desc@,
            link: match self.link {
                Some(l) => Some(l@),
                None => None,
            },
            complete: match self.complete {
                Some(c) => Some(c@),
                None => None,
            },
        }
    }
}

/// The text of the todo `t` stored under `id`.
pub open spec fn text_of(id: u32, t: TodoView) -> TextView {
    TextView {
        id: decimal(id as nat),
        desc: t.desc,
        link: t.link,
        complete: match t.complete_at {
            Some(d) => Some(date_name(d.spec_year(), d.spec_month(), d.spec_day())),
            None => None,
        },
    }
}

/// Builds the text shown for the todo `todo` stored under `id`.
pub fn desc(id: u32, todo: &Todo) -> (r: TodoText)
    ensures
        r@ == text_of(id, todo@),
{
    let link = match &todo.link {
        Some(l) => Some(l.clone()),
        None => None,
    };
    let complete = match &todo.complete_at {
        Some(d) => Some(d.text()),
        None => None,
    };
    TodoText { id: id_text(id), desc: todo.desc.clone(), link, complete }
}

/// `#<id> <desc>`, then `(<link>)` when there is a link, then the completion date when done.
pub open spec fn line_text(t: TextView) -> Seq<char> {
    seq!['#'] + t.id + seq![' '] + t.desc + match t.link {
        Some(l) => seq!['('] + l + seq![')'],
        None => Seq::empty(),
    } + match t.complete {
        Some(c) => c,
        None => Seq::empty(),
    }
}

impl TodoText {
    /// The text as one line.
    pub fn to_text(&self) -> (r: String)
        ensures
            r@ == line_text(self@),
    {
        proof {
            reveal_strlit("#");
            reveal_strlit(" ");
            reveal_strlit("(");
            reveal_strlit(")");
        }
        let mut r = String::from_str("#");
        r.append(self.id.as_str());
        r.append(" ");
        r.append(self.desc.as_str());
        if let Some(l) = &self.link {
            r.append("(");
            r.append(l.as_str());
            r.append(")");
        }
        if let Some(c) = &self.complete {
            r.append(c.as_str());
        }
        proof {
            assert(r@ =~= line_text(self@));
        }
        r
    }
}

/// Ids in decimal, separated by commas.
pub open spec fn join_ids(s: Seq<u32>) -> Seq<char>
    decreases s.len(),
{
    if s.len() == 0 {
        Seq::empty()
    } else if s.len() == 1 {
        decimal(s[0] as nat)
    } else {
        join_ids(s.drop_last()) + seq![','] + decimal(s.last() as nat)
    }
}

/// `(none)`.
pub open spec fn none_text() -> Seq<char> {
    seq!['(', 'n', 'o', 'n', 'e', ')']
}

/// The link, or `(none)`.
pub open spec fn link_part(t: TodoView) -> Seq<char> {
    match t.link {
        Some(l) => l,
        None => none_text(),
    }
}

/// The completion date, or `(todo)`.
pub open spec fn complete_part(t: TodoView) -> Seq<char> {
    match t.complete_at {
        Some(d) => date_name(d.spec_year(), d.spec_month(), d.spec_day()),
        None => seq!['(', 't', 'o', 'd', 'o', ')'],
    }
}

/// The children, or `(none)`.
pub open spec fn children_part(t: TodoView) -> Seq<char> {
    match t.children {
        Some(c) => join_ids(c),
        None => none_text(),
    }
}

/// The parent, or `(none)`.
pub open spec fn parent_part(t: TodoView) -> Seq<char> {
    match t.parent {
        Some(p) => decimal(p as nat),
        None => none_text(),
    }
}

/// The detailed description of a todo, one field per line.
pub open spec fn details_text(t: TodoView) -> Seq<char> {
    seq!['T', 'o', 'd', 'o', ':', ' '] + t.desc + seq!['\n', 'L', 'i', 'n', 'k', ':', ' ']
        + link_part(t) + seq!['\n', 'C', 'r', 'e', 'a', 't', 'e', ' ', 'A', 't', ':', ' ']
        + date_name(t.create_at.spec_year(), t.create_at.spec_month(), t.create_at.spec_day())
        + seq!['\n', 'C', 'o', 'm', 'p', 'l', 'e', 't', 'e', ' ', 'A', 't', ':', ' ']
        + complete_part(t) + seq!['\n', 'C', 'h', 'i', 'l', 'd', 'r', 'e', 'n', ':', ' ']
        + children_part(t) + seq!['\n', 'P', 'a', 'r', 'e', 'n', 't', ':', ' '] + parent_part(t)
}

/// The ids of `v`, in decimal, separated by commas.
fn ids_text(v: &Vec<u32>) -> (r: String)
    ensures
        r@ == join_ids(v@),
{
    proof {
        reveal_strlit(",");
    }
    let mut r = String::new();
    let mut i: usize = 0;
    while i < v.len()
        invariant
            i <= v.len(),
            r@ == join_ids(v@.take(i as int)),
        decreases v.len() - i,
    {
        proof {
            reveal_strlit(",");
            assert(v@.take(i + 1).drop_last() =~= v@.take(i as int));
            assert(v@.take(i + 1).last() == v@[i as int]);
        }
        let ghost r0 = r@;
        if i > 0 {
            r.append(",");
        }
        let d = id_text(v[i]);
        r.append(d.as_str());
        proof {
            if i == 0 {
                assert(v@.take(1) =~= seq![v@[0]]);
                assert(r@ =~= join_ids(v@.take(1)));
            } else {
                assert(r@ =~= r0 + seq![','] + decimal(v@[i as int] as nat));
            }
        }
        i = i + 1;
    }
    proof {
        assert(v@.take(v.len() as int) =~= v@);
    }
    r
}

impl Todo {
    fn link_part(&self) -> (r: String)
        ensures
            r@ == link_part(self@),
    {
        proof {
            reveal_strlit("(none)");
        }
        match &self.link {
            Some(l) => l.clone(),
            None => String::from_str("(none)"),
        }
    }

    fn complete_part(&self) -> (r: String)
        ensures
            r@ == complete_part(self@),
    {
        proof {
            reveal_strlit("(todo)");
        }
        match &self.complete_at {
            Some(d) => d.text(),
            None => String::from_str("(todo)"),
        }
    }

    fn children_part(&self) -> (r: String)
        ensures
            r@ == children_part(self@),
    {
        proof {
            reveal_strlit("(none)");
        }
        match &self.children {
            Some(v) => ids_text(v),
            None => String::from_str("(none)"),
        }
    }

    fn parent_part(&self) -> (r: String)
        ensures
            r@ == parent_part(self@),
    {
        proof {
            reveal_strlit("(none)");
        }
        match self.parent {
            Some(p) => id_text(p),
            None => String::from_str("(none)"),
        }
    }

    /// Every field of the todo, one per line: description, link, creation date, completion
    /// date, children and parent, with `(none)` (or `(todo)` when not done) for absent ones.
    pub fn to_text(&self) -> (r: String)
        ensures
            r@ == details_text(self@),
    {
        proof {
            reveal_strlit("Todo: ");
            reveal_strlit("\nLink: ");
            reveal_strlit("\nCreate At: ");
            reveal_strlit("\nComplete At: ");
            reveal_strlit("\nChildren: ");
            reveal_strlit("\nParent: ");
        }
        let link = self.link_part();
        let created = self.create_at.text();
        let complete = self.complete_part();
        let children = self.children_part();
        let parent = self.parent_part();
        let mut r = String::from_str("Todo: ");
        r.append(self.desc.as_str());
        r.append("\nLink: ");
        r.append(link.as_str());
        r.append("\nCreate At: ");
        r.append(created.as_str());
        r.append("\nComplete At: ");
        r.append(complete.as_str());
        r.append("\nChildren: ");
        r.append(children.as_str());
        r.append("\nParent: ");
        r.append(parent.as_str());
        proof {
            assert(r@ =~= details_text(self@));
        }
        r
    }
}

} // verus!
