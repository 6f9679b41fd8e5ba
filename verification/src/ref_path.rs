//! The location of an instance that another instance points at, and its
//! textual form.

use vstd::prelude::*;
use vstd::string::*;

use crate::text::{
    join, join_names, join_undoes_split, names_of, separator_free, split, split_names,
    split_undoes_join, split_yields_separator_free_pieces, SEPARATOR,
};

verus! {

/// Prefixes a path with one hop towards the root of the tree.
pub const HOP: char = '^';

/// Marks a path as the id an instance gave itself.
pub const ID: char = '#';

/// The location of an instance that another instance points at, kept as a
/// path instead of a reference because references have to survive on disk,
/// where the ids of a single session mean nothing.
///
/// Absolute paths are written the way `Instance:GetFullName` returns them, so
/// `Workspace.Model.Root` refers to the instance named `Root` inside of the
/// `Model` that lives in `Workspace`.
///
/// Relative paths begin with one `^` for every hop towards the root that has
/// to be made first, so `^^Attachments.A0` refers to `Attachments.A0` inside
/// of the grandparent of the instance that holds the reference. The ones that
/// need no hop at all begin with a single `.` instead, the way `.Root` refers
/// to a child named `Root`.
///
/// An instance can also give itself a name for others to point at. `#root`
/// refers to whichever instance calls itself `root`, no matter where it lives
/// or what it is called.
#[derive(Debug, Clone, PartialEq, Eq)]
pub enum RefPath {
    Id(String),
    Absolute(Vec<String>),
    Relative { up: usize, down: Vec<String> },
}

/// What a [`RefPath`] says.
pub enum PathView {
    Id(Seq<char>),
    Absolute(Seq<Seq<char>>),
    Relative { up: nat, down: Seq<Seq<char>> },
}

impl View for RefPath {
    type V = PathView;

    open spec fn view(&self) -> PathView {
        match self {
            RefPath::Id(id) => PathView::Id(id@),
            RefPath::Absolute(down) => PathView::Absolute(names_of(down@)),
            RefPath::Relative { up, down } => PathView::Relative {
                up: *up as nat,
                down: names_of(down@),
            },
        }
    }
}

/// How many hops `text` begins with.
pub open spec fn leading_hops(text: Seq<char>) -> nat
    decreases text.len(),
{
    if text.len() > 0 && text[0] == HOP {
        1 + leading_hops(text.skip(1))
    } else {
        0
    }
}

/// The names that `text` holds. Empty text holds none.
pub open spec fn names_in(text: Seq<char>) -> Seq<Seq<char>> {
    if text.len() == 0 {
        Seq::empty()
    } else {
        split(text)
    }
}

/// The path that `text` is the textual form of, if it points at anything.
pub open spec fn parsed(text: Seq<char>) -> Option<PathView> {
    let up = leading_hops(text);
    if text.len() == 0 {
        None
    } else if text[0] == ID {
        if text.len() == 1 {
            None
        } else {
            Some(PathView::Id(text.skip(1)))
        }
    } else if up > 0 {
        Some(PathView::Relative { up, down: names_in(text.skip(up as int)) })
    } else if text[0] == SEPARATOR {
        Some(PathView::Relative { up: 0, down: names_in(text.skip(1)) })
    } else {
        Some(PathView::Absolute(names_in(text)))
    }
}

/// What is written in front of the names of a relative path.
pub open spec fn prefix_of(up: nat) -> Seq<char> {
    if up == 0 {
        seq![SEPARATOR]
    } else {
        Seq::new(up, |i: int| HOP)
    }
}

/// The textual form of a path.
pub open spec fn shown(path: PathView) -> Seq<char> {
    match path {
        PathView::Id(id) => seq![ID] + id,
        PathView::Absolute(down) => join(down),
        PathView::Relative { up, down } => prefix_of(up) + join(down),
    }
}

proof fn lemma_leading_hops(text: Seq<char>, up: nat)
    requires
        up <= text.len(),
        forall|i: int| 0 <= i < up ==> text[i] == HOP,
        up == text.len() || text[up as int] != HOP,
    ensures
        leading_hops(text) == up,
    decreases up,
{
    if up > 0 {
        lemma_leading_hops(text.skip(1), (up - 1) as nat);
    }
}

proof fn lemma_leading_hops_bounds(text: Seq<char>)
    ensures
        leading_hops(text) <= text.len(),
        forall|i: int| 0 <= i < leading_hops(text) ==> text[i] == HOP,
        leading_hops(text) == text.len() || text[leading_hops(text) as int] != HOP,
    decreases text.len(),
{
    if text.len() > 0 && text[0] == HOP {
        let rest = text.skip(1);
        lemma_leading_hops_bounds(rest);
        assert forall|i: int| 0 <= i < leading_hops(text) implies text[i] == HOP by {
            if i > 0 {
                assert(rest[i - 1] == text[i]);
            }
        }
        if leading_hops(rest) < rest.len() {
            assert(rest[leading_hops(rest) as int] == text[leading_hops(text) as int]);
        }
    }
}

/// What a joined list begins with.
proof fn lemma_join_begins(names: Seq<Seq<char>>)
    requires
        names.len() > 0,
    ensures
        names[0].len() > 0 ==> join(names).len() > 0 && join(names)[0] == names[0][0],
        names[0].len() == 0 && names.len() > 1 ==> join(names).len() > 0 && join(names)[0]
            == SEPARATOR,
    decreases names.len(),
{
    if names.len() > 1 {
        let init = names.drop_last();
        lemma_join_begins(init);
        if init.len() == 1 {
            assert(join(init) == names[0]);
        }
    }
}

/// The paths whose textual form can be told from that of every other path: no
/// name holds a separator, the form is not empty, and what it begins with is
/// not mistaken for an id, a hop or a separator.
pub open spec fn writable(path: PathView) -> bool {
    match path {
        PathView::Id(id) => id.len() > 0,
        PathView::Absolute(down) => {
            &&& separator_free(down)
            &&& down.len() > 0
            &&& down[0].len() > 0
            &&& down[0][0] != ID
            &&& down[0][0] != HOP
        },
        PathView::Relative { up, down } => {
            &&& separator_free(down)
            &&& !(down.len() == 1 && down[0].len() == 0)
            &&& up > 0 && down.len() > 0 && down[0].len() > 0 ==> down[0][0] != HOP
        },
    }
}

/// Reading the textual form of a path gives the very same path back, exactly
/// when the path is writable.
pub proof fn reading_undoes_writing(path: PathView)
    ensures
        parsed(shown(path)) == Some(path) <==> writable(path),
{
    let text = shown(path);
    match path {
        PathView::Id(id) => {
            assert(text.skip(1) =~= id);
        },
        PathView::Absolute(down) => {
            if down.len() > 0 {
                lemma_join_begins(down);
            }
            if writable(path) {
                split_undoes_join(down);
                assert(leading_hops(text) == 0);
            } else {
                split_yields_separator_free_pieces(text);
            }
        },
        PathView::Relative { up, down } => {
            let start: nat = if up == 0 {
                1
            } else {
                up
            };
            let rest = join(down);
            assert(text.skip(start as int) =~= rest);
            if down.len() > 0 {
                lemma_join_begins(down);
            }
            if writable(path) {
                if down.len() > 0 {
                    split_undoes_join(down);
                    if down.len() == 1 {
                        assert(rest == down[0]);
                    }
                }
                assert(names_in(rest) =~= down);
                if up > 0 {
                    assert(text.len() == up + rest.len());
                    if rest.len() > 0 {
                        assert(text[up as int] == rest[0]);
                        assert(rest[0] != HOP);
                    }
                    lemma_leading_hops(text, up);
                } else {
                    assert(text[0] == SEPARATOR);
                    assert(leading_hops(text) == 0);
                }
            } else if parsed(text) == Some(path) {
                lemma_leading_hops_bounds(text);
                assert(names_in(rest) == down);
                split_yields_separator_free_pieces(rest);
                if up > 0 && down.len() > 0 && down[0].len() > 0 {
                    assert(text[up as int] == rest[0]);
                }
                if down.len() == 1 && down[0].len() == 0 {
                    assert(rest == down[0]);
                }
            }
        },
    }
}

/// Writing a path that was read gives the very same text back.
pub proof fn writing_undoes_reading(text: Seq<char>)
    requires
        parsed(text) is Some,
    ensures
        shown(parsed(text)->0) == text,
{
    lemma_leading_hops_bounds(text);
    let up = leading_hops(text);
    if text[0] == ID {
        assert(seq![ID] + text.skip(1) =~= text);
    } else {
        let start: nat = if up > 0 {
            up
        } else if text[0] == SEPARATOR {
            1
        } else {
            0
        };
        let rest = text.skip(start as int);
        join_undoes_split(rest);
        assert(join(names_in(rest)) =~= rest);
        if start == 0 {
            assert(rest =~= text);
        } else {
            assert(prefix_of(up) =~= text.take(start as int));
            assert(prefix_of(up) + rest =~= text);
        }
    }
}

impl RefPath {
    /// Reads a path back from its textual form, returning `None` if it is
    /// empty and thus does not point at any instance at all.
    pub fn parse(path: &str) -> (res: Option<Self>)
        ensures
            res is Some <==> parsed(path@) is Some,
            res matches Some(found) ==> parsed(path@) == Some(found@),
    {
        let len = path.unicode_len();
        if len == 0 {
            return None;
        }
        if path.get_char(0) == ID {
            if len == 1 {
                return None;
            }
            return Some(RefPath::Id(path.substring_char(1, len).to_owned()));
        }
        let mut up: usize = 0;
        while up < len && path.get_char(up) == HOP
            invariant
                len == path@.len(),
                up <= len,
                forall|i: int| 0 <= i < up ==> path@[i] == HOP,
            ensures
                len == path@.len(),
                up <= len,
                forall|i: int| 0 <= i < up ==> path@[i] == HOP,
                up == len || path@[up as int] != HOP,
            decreases len - up,
        {
            up = up + 1;
        }
        proof {
            lemma_leading_hops(path@, up as nat);
        }
        let relative = up > 0 || path.get_char(0) == SEPARATOR;
        let start: usize = if up > 0 {
            up
        } else if relative {
            1
        } else {
            0
        };
        let down: Vec<String> = if start == len {
            Vec::new()
        } else {
            split_names(path.substring_char(start, len))
        };
        proof {
            assert(path@.subrange(start as int, len as int) =~= path@.skip(start as int));
            assert(names_of(down@) =~= names_in(path@.skip(start as int)));
            if start == 0 {
                assert(path@.skip(0) =~= path@);
            }
        }
        if relative {
            Some(RefPath::Relative { up, down })
        } else {
            Some(RefPath::Absolute(down))
        }
    }

    /// Writes the path down.
    pub fn to_string(&self) -> (res: String)
        ensures
            res@ == shown(self@),
    {
        proof {
            reveal_strlit("#");
            reveal_strlit(".");
            reveal_strlit("^");
        }
        match self {
            RefPath::Id(id) => {
                let mut res = String::new();
                res.append("#");
                res.append(id.as_str());
                assert(res@ =~= seq![ID] + id@);
                res
            },
            RefPath::Absolute(down) => join_names(down),
            RefPath::Relative { up, down } => {
                let mut res = String::new();
                if *up == 0 {
                    res.append(".");
                }
                let mut i: usize = 0;
                while i < *up
                    invariant
                        i <= *up,
                        *up == 0 ==> res@ == seq![SEPARATOR],
                        *up > 0 ==> res@ == Seq::new(i as nat, |k: int| HOP),
                        "^"@ == seq![HOP],
                    decreases *up - i,
                {
                    res.append("^");
                    assert(Seq::new(i as nat, |k: int| HOP) + seq![HOP] =~= Seq::new(
                        (i + 1) as nat,
                        |k: int| HOP,
                    ));
                    i = i + 1;
                }
                res.append(join_names(down).as_str());
                res
            },
        }
    }
}

} // verus!
