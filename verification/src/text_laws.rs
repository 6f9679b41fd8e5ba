//! What the textual form of a path looks like.

use vstd::prelude::*;

use crate::ref_path::{leading_hops, names_in, parsed, shown, writing_undoes_reading, PathView};
use crate::text::{join, join_undoes_split, split_yields_separator_free_pieces};

verus! {

/// Names are written one after another, with a dot between neighbours.
pub proof fn names_are_written_with_dots(names: Seq<Seq<char>>, name: Seq<char>)
    ensures
        shown(PathView::Absolute(Seq::empty())) == Seq::<char>::empty(),
        shown(PathView::Absolute(seq![name])) == name,
        names.len() > 0 ==> shown(PathView::Absolute(names.push(name))) == shown(
            PathView::Absolute(names),
        ) + seq!['.'] + name,
{
    assert(seq![name].len() == 1);
    if names.len() > 0 {
        assert(names.push(name).drop_last() =~= names);
        assert(join(names).push('.') + name =~= join(names) + seq!['.'] + name);
    }
}

/// An id is written behind a `#`, one `^` is written for every hop, and a path
/// that needs no hop begins with a dot.
pub proof fn prefixes_tell_paths_apart(id: Seq<char>, up: nat, down: Seq<Seq<char>>)
    ensures
        shown(PathView::Id(id)) == seq!['#'] + id,
        shown(PathView::Relative { up: 0, down }) == seq!['.'] + shown(PathView::Absolute(down)),
        shown(PathView::Relative { up: 1, down }) == seq!['^'] + shown(PathView::Absolute(down)),
        up > 0 ==> shown(PathView::Relative { up: up + 1, down }) == seq!['^'] + shown(
            PathView::Relative { up, down },
        ),
{
    assert(shown(PathView::Relative { up: 1, down }) =~= seq!['^'] + join(down));
    assert(up > 0 ==> shown(PathView::Relative { up: up + 1, down }) =~= seq!['^'] + shown(
        PathView::Relative { up, down },
    ));
}

/// No name holds a dot, and together they are the text. There is no name only
/// where there is no text.
pub open spec fn spells(names: Seq<Seq<char>>, text: Seq<char>) -> bool {
    &&& shown(PathView::Absolute(names)) == text
    &&& forall|i: int, k: int|
        0 <= i < names.len() && 0 <= k < names[i].len() ==> #[trigger] names[i][k] != '.'
    &&& names.len() == 0 <==> text.len() == 0
}

proof fn lemma_names_spell(text: Seq<char>)
    ensures
        spells(names_in(text), text),
{
    join_undoes_split(text);
    split_yields_separator_free_pieces(text);
    let names = names_in(text);
    if text.len() > 0 {
        assert forall|i: int, k: int|
            0 <= i < names.len() && 0 <= k < names[i].len() implies #[trigger] names[i][k]
            != '.' by {
            assert(!names[i].contains('.'));
        }
    }
}

proof fn lemma_hops_in_front(text: Seq<char>)
    ensures
        leading_hops(text) <= text.len(),
        forall|i: int| 0 <= i < leading_hops(text) ==> text[i] == '^',
        leading_hops(text) == text.len() || text[leading_hops(text) as int] != '^',
    decreases text.len(),
{
    if text.len() > 0 && text[0] == '^' {
        let rest = text.skip(1);
        lemma_hops_in_front(rest);
        assert forall|i: int| 0 <= i < leading_hops(text) implies text[i] == '^' by {
            if i > 0 {
                assert(rest[i - 1] == text[i]);
            }
        }
        if leading_hops(rest) < rest.len() {
            assert(rest[leading_hops(rest) as int] == text[leading_hops(text) as int]);
        }
    }
}

/// What a text reads as is told by what it begins with: `#` is followed by an
/// id, every `^` is a hop, a dot stands for no hop at all, and anything else
/// begins an absolute path. Only empty text and a `#` alone read as nothing.
pub proof fn text_tells_what_it_reads_as(text: Seq<char>)
    ensures
        parsed(text) is None <==> text.len() == 0 || text == seq!['#'],
        text.len() > 1 && text[0] == '#' ==> parsed(text) == Some(PathView::Id(text.skip(1))),
        text.len() > 0 && text[0] == '^' ==> {
            &&& parsed(text) matches Some(PathView::Relative { up, down })
            &&& 0 < up <= text.len()
            &&& forall|i: int| 0 <= i < up ==> text[i] == '^'
            &&& up == text.len() || text[up as int] != '^'
            &&& spells(down, text.skip(up as int))
        },
        text.len() > 0 && text[0] == '.' ==> {
            &&& parsed(text) matches Some(PathView::Relative { up, down })
            &&& up == 0
            &&& spells(down, text.skip(1))
        },
        text.len() > 0 && text[0] != '#' && text[0] != '^' && text[0] != '.' ==> {
            &&& parsed(text) matches Some(PathView::Absolute(down))
            &&& spells(down, text)
        },
{
    lemma_hops_in_front(text);
    if text.len() == 1 && text[0] == '#' {
        assert(text =~= seq!['#']);
    }
    if text.len() > 0 {
        lemma_names_spell(text);
        lemma_names_spell(text.skip(1));
        lemma_names_spell(text.skip(leading_hops(text) as int));
    }
}

/// Two texts that read as the same path are the same text.
pub proof fn texts_read_differently(one: Seq<char>, other: Seq<char>)
    requires
        parsed(one) is Some,
        parsed(one) == parsed(other),
    ensures
        one == other,
{
    writing_undoes_reading(one);
    writing_undoes_reading(other);
}

} // verus!
