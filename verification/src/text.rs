//! Names joined by a separator, and the way back.

use vstd::prelude::*;
use vstd::string::*;

verus! {

/// Separates the individual instance names of a path.
pub const SEPARATOR: char = '.';

/// What the strings of a vector hold.
pub open spec fn names_of(names: Seq<String>) -> Seq<Seq<char>> {
    Seq::new(names.len(), |i: int| names[i]@)
}

/// The pieces of `text` between its separators, in order. There is always one
/// more piece than there are separators.
pub open spec fn split(text: Seq<char>) -> Seq<Seq<char>>
    decreases text.len(),
{
    if text.len() == 0 {
        seq![Seq::empty()]
    } else {
        let before = split(text.drop_last());
        if text.last() == SEPARATOR {
            before.push(Seq::empty())
        } else {
            before.drop_last().push(before.last().push(text.last()))
        }
    }
}

/// The names one after another, with a separator between neighbours.
pub open spec fn join(names: Seq<Seq<char>>) -> Seq<char>
    decreases names.len(),
{
    if names.len() == 0 {
        Seq::empty()
    } else if names.len() == 1 {
        names[0]
    } else {
        join(names.drop_last()).push(SEPARATOR) + names.last()
    }
}

/// No name holds a separator.
pub open spec fn separator_free(names: Seq<Seq<char>>) -> bool {
    forall|i: int| 0 <= i < names.len() ==> !(#[trigger] names[i]).contains(SEPARATOR)
}

/// Splitting yields at least one piece, and no piece holds a separator.
pub proof fn split_yields_separator_free_pieces(text: Seq<char>)
    ensures
        split(text).len() > 0,
        separator_free(split(text)),
    decreases text.len(),
{
    if text.len() > 0 {
        split_yields_separator_free_pieces(text.drop_last());
        let before = split(text.drop_last());
        if text.last() != SEPARATOR {
            let piece = before.last();
            assert forall|i: int| 0 <= i < split(text).len() implies !(
            #[trigger] split(text)[i]).contains(SEPARATOR) by {
                if i < before.len() - 1 {
                    assert(split(text)[i] == before[i]);
                } else if piece.push(text.last()).contains(SEPARATOR) {
                    let k = choose|k: int|
                        0 <= k < piece.len() + 1 && piece.push(text.last())[k] == SEPARATOR;
                    assert(piece[k] == SEPARATOR);
                    assert(!before[before.len() - 1].contains(SEPARATOR));
                }
            }
        } else {
            assert forall|i: int| 0 <= i < split(text).len() implies !(
            #[trigger] split(text)[i]).contains(SEPARATOR) by {
                if i < before.len() {
                    assert(split(text)[i] == before[i]);
                }
            }
        }
    }
}

/// Joining the pieces of a text gives the text back.
pub proof fn join_undoes_split(text: Seq<char>)
    ensures
        join(split(text)) == text,
    decreases text.len(),
{
    if text.len() > 0 {
        let before = split(text.drop_last());
        join_undoes_split(text.drop_last());
        split_yields_separator_free_pieces(text.drop_last());
        if text.last() == SEPARATOR {
            assert(split(text).drop_last() =~= before);
            assert(join(split(text)) =~= text);
        } else {
            assert(split(text).drop_last() =~= before.drop_last());
            if before.len() == 1 {
                assert(join(before) == before[0]);
                assert(join(split(text)) == before[0].push(text.last()));
            } else {
                assert(join(split(text)) =~= join(before).push(text.last()));
            }
            assert(text.drop_last().push(text.last()) =~= text);
        }
    }
}

/// Appending separator free text to a text extends its last piece.
proof fn lemma_split_extends_last(text: Seq<char>, name: Seq<char>)
    requires
        !name.contains(SEPARATOR),
    ensures
        split(text + name) == split(text).drop_last().push(split(text).last() + name),
    decreases name.len(),
{
    split_yields_separator_free_pieces(text);
    if name.len() == 0 {
        assert(text + name =~= text);
        assert(split(text).last() + name =~= split(text).last());
        assert(split(text).drop_last().push(split(text).last()) =~= split(text));
    } else {
        let shorter = name.drop_last();
        assert forall|k: int| 0 <= k < shorter.len() implies shorter[k] != SEPARATOR by {
            assert(name[k] == shorter[k]);
        }
        lemma_split_extends_last(text, shorter);
        assert((text + name).drop_last() =~= text + shorter);
        assert(name.contains(name.last()));
        assert((split(text).last() + shorter).push(name.last()) =~= split(text).last() + name);
        let before = split(text + shorter);
        assert(before.drop_last() =~= split(text).drop_last());
        assert(before.last() == split(text).last() + shorter);
    }
}

/// Splitting a joined list gives the names back, as long as there is one and
/// none of them holds a separator.
pub proof fn split_undoes_join(names: Seq<Seq<char>>)
    requires
        names.len() > 0,
        separator_free(names),
    ensures
        split(join(names)) == names,
    decreases names.len(),
{
    if names.len() == 1 {
        let none = Seq::<char>::empty();
        lemma_split_extends_last(none, names[0]);
        assert(none + names[0] =~= names[0]);
        assert(split(names[0]) =~= names);
    } else {
        let init = names.drop_last();
        assert forall|i: int| 0 <= i < init.len() implies !(#[trigger] init[i]).contains(
            SEPARATOR,
        ) by {
            assert(names[i] == init[i]);
        }
        split_undoes_join(init);
        let head = join(init).push(SEPARATOR);
        assert(head.drop_last() =~= join(init));
        assert(split(head) == init.push(Seq::empty()));
        lemma_split_extends_last(head, names.last());
        assert(split(head).drop_last() =~= init);
        assert(Seq::<char>::empty() + names.last() =~= names.last());
        assert(init.push(names.last()) =~= names);
    }
}

/// The characters of `text`, one by one.
fn chars_of(text: &str) -> (res: Vec<char>)
    ensures
        res@ == text@,
{
    let mut res: Vec<char> = Vec::new();
    for c in iter: text.chars()
        invariant
            res@ == iter.seq().take(iter.index() as int),
            iter.seq() == text@,
    {
        res.push(c);
        assert(iter.seq().take(iter.index() as int).push(c) =~= iter.seq().take(iter.index() + 1));
    }
    assert(text@.take(text@.len() as int) =~= text@);
    res
}

/// Splits `text` at every separator.
pub fn split_names(text: &str) -> (res: Vec<String>)
    ensures
        names_of(res@) == split(text@),
{
    let chars = chars_of(text);
    let mut names: Vec<String> = Vec::new();
    let mut start: usize = 0;
    let mut i: usize = 0;
    assert(text@.take(0) =~= Seq::empty());
    assert(text@.subrange(0, 0) =~= Seq::empty());
    assert(names_of(names@).push(text@.subrange(0, 0)) =~= split(text@.take(0)));
    while i < chars.len()
        invariant
            chars@ == text@,
            start <= i <= chars.len(),
            names_of(names@).push(text@.subrange(start as int, i as int)) == split(
                text@.take(i as int),
            ),
        decreases chars.len() - i,
    {
        let ghost done = names_of(names@);
        let ghost piece = text@.subrange(start as int, i as int);
        let ghost longer = text@.take(i + 1);
        assert(longer.drop_last() =~= text@.take(i as int));
        assert(done.push(piece).drop_last() =~= done);
        if chars[i] == SEPARATOR {
            names.push(text.substring_char(start, i).to_owned());
            start = i + 1;
            assert(names_of(names@) =~= done.push(piece));
            assert(text@.subrange(start as int, i + 1) =~= Seq::empty());
        } else {
            assert(text@.subrange(start as int, i + 1) =~= piece.push(chars@[i as int]));
        }
        i = i + 1;
    }
    let ghost done = names_of(names@);
    names.push(text.substring_char(start, i).to_owned());
    assert(names_of(names@) =~= done.push(text@.subrange(start as int, i as int)));
    assert(text@.take(i as int) =~= text@);
    names
}

/// Joins `names` by the separator.
pub fn join_names(names: &Vec<String>) -> (res: String)
    ensures
        res@ == join(names_of(names@)),
{
    let mut res = String::new();
    let mut i: usize = 0;
    while i < names.len()
        invariant
            0 <= i <= names.len(),
            res@ == join(names_of(names@).take(i as int)),
        decreases names.len() - i,
    {
        proof {
            reveal_strlit(".");
        }
        let ghost all = names_of(names@);
        assert(all.take(i + 1).drop_last() =~= all.take(i as int));
        let ghost before = res@;
        if i > 0 {
            res.append(".");
            assert(res@ =~= before.push(SEPARATOR));
        }
        res.append(names[i].as_str());
        if i == 0 {
            assert(res@ =~= all[0]);
        }
        i = i + 1;
    }
    assert(names_of(names@).take(i as int) =~= names_of(names@));
    res
}

/// Copies a list of names.
pub fn copy_names(names: &Vec<String>) -> (res: Vec<String>)
    ensures
        names_of(res@) == names_of(names@),
{
    let mut res: Vec<String> = Vec::new();
    let mut i: usize = 0;
    while i < names.len()
        invariant
            0 <= i <= names.len(),
            names_of(res@) == names_of(names@).take(i as int),
        decreases names.len() - i,
    {
        let ghost before = names_of(res@);
        res.push(names[i].clone());
        assert(names_of(res@) =~= before.push(names@[i as int]@));
        assert(names_of(names@).take(i + 1) =~= names_of(names@).take(i as int).push(
            names@[i as int]@,
        ));
        i = i + 1;
    }
    assert(names_of(names@).take(i as int) =~= names_of(names@));
    res
}

} // verus!
