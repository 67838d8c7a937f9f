//! Splitting of header text into lines and whitespace-separated tokens.
use vstd::prelude::*;
use vstd::slice::slice_subrange;

verus! {

/// The byte that ends a line.
pub const NEWLINE: u8 = 10;

/// The space.
pub const SPACE: u8 = 32;

/// The two ways in which header text is cut into pieces.
#[derive(Clone, Copy, Debug, PartialEq, Eq)]
pub enum Separator {
    /// Cut at every line feed.
    Newline,
    /// Cut at every ASCII whitespace byte.
    Whitespace,
}

/// ASCII whitespace: space, tab, line feed, vertical tab, form feed, carriage return.
pub open spec fn is_space(c: u8) -> bool {
    c == SPACE || (9 <= c && c <= 13)
}

/// Whether `c` is a separator of the kind `sep`.
pub open spec fn separates(sep: Separator, c: u8) -> bool {
    match sep {
        Separator::Newline => c == NEWLINE,
        Separator::Whitespace => is_space(c),
    }
}

/// The pieces of `s` between separators, in order. Every separator ends one
/// piece and starts the next, so there is always one piece more than there are
/// separators, and pieces may be empty.
pub open spec fn pieces(s: Seq<u8>, sep: Separator) -> Seq<Seq<u8>>
    decreases s.len(),
{
    if s.len() == 0 {
        seq![Seq::<u8>::empty()]
    } else {
        let before = pieces(s.drop_last(), sep);
        if separates(sep, s.last()) {
            before.push(Seq::<u8>::empty())
        } else {
            before.drop_last().push(before.last().push(s.last()))
        }
    }
}

/// The lines of a text. A text that ends in a line feed has an empty last line.
pub open spec fn lines(s: Seq<u8>) -> Seq<Seq<u8>> {
    pieces(s, Separator::Newline)
}

/// The non-empty members of `ps`, in order.
pub open spec fn non_empty(ps: Seq<Seq<u8>>) -> Seq<Seq<u8>>
    decreases ps.len(),
{
    if ps.len() == 0 {
        ps
    } else if ps.last().len() > 0 {
        non_empty(ps.drop_last()).push(ps.last())
    } else {
        non_empty(ps.drop_last())
    }
}

/// The whitespace-separated tokens of a line.
pub open spec fn tokens(s: Seq<u8>) -> Seq<Seq<u8>> {
    non_empty(pieces(s, Separator::Whitespace))
}

/// The contents of each slice of `v`.
pub open spec fn views(v: Seq<&[u8]>) -> Seq<Seq<u8>> {
    Seq::new(v.len(), |i: int| v[i]@)
}

/// There is always at least one piece.
pub proof fn lemma_pieces_len(s: Seq<u8>, sep: Separator)
    ensures
        pieces(s, sep).len() >= 1,
    decreases s.len(),
{
    if s.len() > 0 {
        lemma_pieces_len(s.drop_last(), sep);
    }
}

/// `parts` written one after another, with the byte `c` between each two.
pub open spec fn join(parts: Seq<Seq<u8>>, c: u8) -> Seq<u8>
    decreases parts.len(),
{
    if parts.len() == 0 {
        Seq::empty()
    } else if parts.len() == 1 {
        parts[0]
    } else {
        join(parts.drop_last(), c).push(c) + parts.last()
    }
}

/// Whether `s` holds no separator of the kind `sep`.
pub open spec fn free_of(s: Seq<u8>, sep: Separator) -> bool {
    forall|i: int| 0 <= i < s.len() ==> !separates(sep, #[trigger] s[i])
}

/// Whether every member of `parts` is free of separators of the kind `sep`.
pub open spec fn all_free_of(parts: Seq<Seq<u8>>, sep: Separator) -> bool {
    forall|i: int| 0 <= i < parts.len() ==> free_of(#[trigger] parts[i], sep)
}

/// Whether every member of `parts` has at least one byte.
pub open spec fn all_non_empty(parts: Seq<Seq<u8>>) -> bool {
    forall|i: int| 0 <= i < parts.len() ==> (#[trigger] parts[i]).len() > 0
}

/// Bytes without a separator, written after a text, lengthen its last piece.
pub proof fn lemma_pieces_append(s: Seq<u8>, w: Seq<u8>, sep: Separator)
    requires
        free_of(w, sep),
    ensures
        pieces(s + w, sep) == pieces(s, sep).drop_last().push(pieces(s, sep).last() + w),
    decreases w.len(),
{
    let before = pieces(s, sep);
    lemma_pieces_len(s, sep);
    if w.len() == 0 {
        assert(s + w == s);
        assert(before.last() + w == before.last());
        assert(before.drop_last().push(before.last()) == before);
    } else {
        let shorter = w.drop_last();
        assert(free_of(shorter, sep)) by {
            assert forall|i: int| 0 <= i < shorter.len() implies !separates(
                sep,
                #[trigger] shorter[i],
            ) by {
                assert(shorter[i] == w[i]);
            }
        }
        lemma_pieces_append(s, shorter, sep);
        assert((s + w).drop_last() == s + shorter);
        assert((s + w).last() == w.last());
        assert(!separates(sep, w[w.len() - 1]));
        let middle = before.drop_last().push(before.last() + shorter);
        assert(middle.drop_last() == before.drop_last());
        assert((before.last() + shorter).push(w.last()) == before.last() + w);
    }
}

/// Cutting undoes joining: parts that hold no separator, joined by a
/// separator, are the pieces of the result.
pub proof fn lemma_pieces_join(parts: Seq<Seq<u8>>, c: u8, sep: Separator)
    requires
        parts.len() >= 1,
        separates(sep, c),
        all_free_of(parts, sep),
    ensures
        pieces(join(parts, c), sep) == parts,
    decreases parts.len(),
{
    let nothing = Seq::<u8>::empty();
    if parts.len() == 1 {
        lemma_pieces_append(nothing, parts[0], sep);
        assert(nothing + parts[0] == parts[0]);
        assert(pieces(nothing, sep) == seq![nothing]);
        assert(seq![nothing].drop_last().push(nothing + parts[0]) == parts);
    } else {
        let front = parts.drop_last();
        assert(all_free_of(front, sep)) by {
            assert forall|i: int| 0 <= i < front.len() implies free_of(#[trigger] front[i], sep) by {
                assert(front[i] == parts[i]);
            }
        }
        lemma_pieces_join(front, c, sep);
        let head = join(front, c).push(c);
        assert(head.drop_last() == join(front, c));
        assert(pieces(head, sep) == front.push(nothing));
        assert(free_of(parts.last(), sep)) by {
            assert(parts.last() == parts[parts.len() - 1]);
        }
        lemma_pieces_append(head, parts.last(), sep);
        assert(front.push(nothing).drop_last() == front);
        assert(nothing + parts.last() == parts.last());
        assert(front.push(parts.last()) == parts);
    }
}

/// Joined parts hold a separator only where the parts do or the joint is one.
pub proof fn lemma_join_free_of(parts: Seq<Seq<u8>>, c: u8, sep: Separator)
    requires
        !separates(sep, c),
        all_free_of(parts, sep),
    ensures
        free_of(join(parts, c), sep),
    decreases parts.len(),
{
    if parts.len() == 1 {
        assert(free_of(parts[0], sep));
    } else if parts.len() > 1 {
        let front = parts.drop_last();
        assert(all_free_of(front, sep)) by {
            assert forall|i: int| 0 <= i < front.len() implies free_of(#[trigger] front[i], sep) by {
                assert(front[i] == parts[i]);
            }
        }
        lemma_join_free_of(front, c, sep);
        assert(free_of(parts[parts.len() - 1], sep));
    }
}

/// Nothing is dropped from parts that all have a byte.
pub proof fn lemma_non_empty_all(parts: Seq<Seq<u8>>)
    requires
        all_non_empty(parts),
    ensures
        non_empty(parts) == parts,
    decreases parts.len(),
{
    if parts.len() > 0 {
        let front = parts.drop_last();
        assert(all_non_empty(front)) by {
            assert forall|i: int| 0 <= i < front.len() implies (#[trigger] front[i]).len() > 0 by {
                assert(front[i] == parts[i]);
            }
        }
        lemma_non_empty_all(front);
        assert(parts[parts.len() - 1].len() > 0);
        assert(front.push(parts.last()) == parts);
    }
}

/// Words that hold no whitespace, joined by single spaces, are the tokens of
/// the line they make.
pub proof fn lemma_tokens_join(words: Seq<Seq<u8>>)
    requires
        all_free_of(words, Separator::Whitespace),
        all_non_empty(words),
    ensures
        tokens(join(words, SPACE)) == words,
{
    if words.len() == 0 {
        let nothing = Seq::<u8>::empty();
        assert(pieces(nothing, Separator::Whitespace) == seq![nothing]);
        let one = seq![nothing];
        assert(one.last().len() == 0);
        assert(one.drop_last() =~= Seq::<Seq<u8>>::empty());
        assert(non_empty(one.drop_last()) == one.drop_last());
        assert(non_empty(one) == non_empty(one.drop_last()));
    } else {
        lemma_pieces_join(words, SPACE, Separator::Whitespace);
        lemma_non_empty_all(words);
    }
}

/// No piece holds a separator.
pub proof fn lemma_pieces_are_free(s: Seq<u8>, sep: Separator)
    ensures
        all_free_of(pieces(s, sep), sep),
    decreases s.len(),
{
    let all = pieces(s, sep);
    if s.len() == 0 {
        assert forall|i: int| 0 <= i < all.len() implies free_of(#[trigger] all[i], sep) by {}
    } else {
        let before = pieces(s.drop_last(), sep);
        lemma_pieces_are_free(s.drop_last(), sep);
        lemma_pieces_len(s.drop_last(), sep);
        assert forall|i: int| 0 <= i < all.len() implies free_of(#[trigger] all[i], sep) by {
            if i < all.len() - 1 {
                assert(all[i] == before[i]);
            } else if !separates(sep, s.last()) {
                let grown = before.last().push(s.last());
                assert(free_of(before[before.len() - 1], sep));
                assert forall|j: int| 0 <= j < grown.len() implies !separates(
                    sep,
                    #[trigger] grown[j],
                ) by {
                    if j < grown.len() - 1 {
                        assert(grown[j] == before.last()[j]);
                    }
                }
            }
        }
    }
}

/// Joining undoes cutting: the lines of a text, joined by line feeds, are
/// the text.
pub proof fn lemma_join_lines(s: Seq<u8>)
    ensures
        join(lines(s), NEWLINE) == s,
    decreases s.len(),
{
    let nothing = Seq::<u8>::empty();
    if s.len() == 0 {
        assert(join(seq![nothing], NEWLINE) == nothing);
    } else {
        let front = s.drop_last();
        let before = lines(front);
        lemma_join_lines(front);
        lemma_pieces_len(front, Separator::Newline);
        if s.last() == NEWLINE {
            let all = before.push(nothing);
            assert(all.drop_last() == before);
            assert(join(all, NEWLINE) == join(before, NEWLINE).push(NEWLINE) + nothing);
            assert(front.push(NEWLINE) + nothing == front.push(NEWLINE));
            assert(front.push(s.last()) == s);
        } else {
            let grown = before.last().push(s.last());
            let all = before.drop_last().push(grown);
            assert(all.drop_last() == before.drop_last());
            if before.len() == 1 {
                assert(before[0] == front);
                assert(join(all, NEWLINE) == grown);
                assert(front.push(s.last()) == s);
            } else {
                let head = join(before.drop_last(), NEWLINE).push(NEWLINE);
                assert(join(before, NEWLINE) == head + before.last());
                assert(join(all, NEWLINE) == head + grown);
                assert(head + grown == (head + before.last()).push(s.last()));
                assert(front.push(s.last()) == s);
            }
        }
    }
}

/// Every token has a byte and holds no whitespace.
pub proof fn lemma_tokens_are_words(s: Seq<u8>)
    ensures
        all_non_empty(tokens(s)),
        all_free_of(tokens(s), Separator::Whitespace),
{
    lemma_pieces_are_free(s, Separator::Whitespace);
    lemma_non_empty_keeps(pieces(s, Separator::Whitespace));
}

/// What is left of parts that hold no whitespace, when the empty ones are
/// dropped, has a byte each and still holds no whitespace.
pub proof fn lemma_non_empty_keeps(parts: Seq<Seq<u8>>)
    requires
        all_free_of(parts, Separator::Whitespace),
    ensures
        all_non_empty(non_empty(parts)),
        all_free_of(non_empty(parts), Separator::Whitespace),
    decreases parts.len(),
{
    if parts.len() > 0 {
        let front = parts.drop_last();
        assert(all_free_of(front, Separator::Whitespace)) by {
            assert forall|i: int| 0 <= i < front.len() implies free_of(
                #[trigger] front[i],
                Separator::Whitespace,
            ) by {
                assert(front[i] == parts[i]);
            }
        }
        lemma_non_empty_keeps(front);
        let kept = non_empty(parts);
        assert(free_of(parts[parts.len() - 1], Separator::Whitespace));
        assert forall|i: int| 0 <= i < kept.len() implies (#[trigger] kept[i]).len() > 0
            && free_of(kept[i], Separator::Whitespace) by {
            if i < non_empty(front).len() {
                assert(kept[i] == non_empty(front)[i]);
            }
        }
    }
}

/// Whether `c` is a separator of the kind `sep`.
pub fn is_separator(sep: Separator, c: u8) -> (b: bool)
    ensures
        b == separates(sep, c),
{
    match sep {
        Separator::Newline => c == NEWLINE,
        Separator::Whitespace => c == SPACE || (9 <= c && c <= 13),
    }
}

/// Cuts `text` at every separator of the kind `sep`. No piece holds a
/// separator.
pub fn split<'a>(text: &'a [u8], sep: Separator) -> (out: Vec<&'a [u8]>)
    ensures
        views(out@) == pieces(text@, sep),
        out@.len() >= 1,
        all_free_of(views(out@), sep),
{
    proof {
        lemma_pieces_len(text@, sep);
        lemma_pieces_are_free(text@, sep);
    }
    let n: usize = text.len();
    let mut out: Vec<&'a [u8]> = Vec::new();
    let mut start: usize = 0;
    let mut pos: usize = 0;
    proof {
        assert(text@.subrange(0, 0) =~= Seq::<u8>::empty());
        assert(views(out@).push(text@.subrange(0, 0)) =~= seq![Seq::<u8>::empty()]);
        assert(text@.take(0).len() == 0);
    }
    while pos < n
        invariant
            n == text@.len(),
            start <= pos <= n,
            pieces(text@.take(pos as int), sep) == views(out@).push(
                text@.subrange(start as int, pos as int),
            ),
        decreases n - pos,
    {
        proof {
            assert(text@.take(pos + 1).drop_last() == text@.take(pos as int));
            assert(text@.take(pos + 1).last() == text@[pos as int]);
        }
        if is_separator(sep, text[pos]) {
            let piece = slice_subrange(text, start, pos);
            let ghost before = views(out@);
            out.push(piece);
            start = pos + 1;
            proof {
                assert(views(out@) == before.push(piece@));
                assert(text@.subrange(start as int, pos + 1) == Seq::<u8>::empty());
            }
        } else {
            proof {
                let whole = views(out@).push(text@.subrange(start as int, pos as int));
                assert(whole.drop_last() == views(out@));
                assert(text@.subrange(start as int, pos as int).push(text@[pos as int])
                    == text@.subrange(start as int, pos + 1));
            }
        }
        pos = pos + 1;
    }
    let piece = slice_subrange(text, start, n);
    let ghost before = views(out@);
    out.push(piece);
    proof {
        assert(views(out@) == before.push(piece@));
        assert(text@.take(n as int) == text@);
    }
    out
}

/// The whitespace-separated tokens of `line`: each has a byte and holds no
/// whitespace.
pub fn split_tokens<'a>(line: &'a [u8]) -> (out: Vec<&'a [u8]>)
    ensures
        views(out@) == tokens(line@),
        all_non_empty(views(out@)),
        all_free_of(views(out@), Separator::Whitespace),
{
    proof {
        lemma_tokens_are_words(line@);
    }
    let parts = split(line, Separator::Whitespace);
    let mut out: Vec<&'a [u8]> = Vec::new();
    let mut i: usize = 0;
    while i < parts.len()
        invariant
            i <= parts.len(),
            views(out@) == non_empty(views(parts@).take(i as int)),
        decreases parts.len() - i,
    {
        proof {
            assert(views(parts@).take(i + 1).drop_last() == views(parts@).take(i as int));
        }
        let part = parts[i];
        if part.len() > 0 {
            let ghost before = views(out@);
            out.push(part);
            proof {
                assert(views(out@) == before.push(part@));
            }
        }
        i = i + 1;
    }
    proof {
        assert(views(parts@).take(parts.len() as int) == views(parts@));
    }
    out
}

} // verus!
