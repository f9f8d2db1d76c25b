//! How a path falls into segments at its separators.

use vstd::prelude::*;

verus! {

/// Whether `sep` stands in `text` at index `at`.
pub open spec fn occurs_at(text: Seq<char>, sep: Seq<char>, at: int) -> bool {
    &&& 0 <= at
    &&& at + sep.len() <= text.len()
    &&& text.subrange(at, at + sep.len()) == sep
}

/// The characters from `start` up to `end` as one segment, unless there are
/// none.
pub open spec fn piece(text: Seq<char>, start: int, end: int) -> Seq<Seq<char>> {
    if 0 <= start < end <= text.len() {
        seq![text.subrange(start, end)]
    } else {
        Seq::empty()
    }
}

/// The segments of `text` that end at or after `at`, where the one that is
/// being read began at `start`. Separators are found from left to right and
/// do not overlap.
pub open spec fn pieces(text: Seq<char>, sep: Seq<char>, start: int, at: int) -> Seq<Seq<char>>
    decreases text.len() - at,
{
    if sep.len() == 0 || at < 0 || at >= text.len() {
        piece(text, start, text.len() as int)
    } else if occurs_at(text, sep, at) {
        piece(text, start, at) + pieces(text, sep, at + sep.len(), at + sep.len())
    } else {
        pieces(text, sep, start, at + 1)
    }
}

/// The segments of the path `text`: what stands between separators, without
/// the empty ones. With an empty separator every character is a segment.
pub open spec fn segments(text: Seq<char>, sep: Seq<char>) -> Seq<Seq<char>> {
    if sep.len() == 0 {
        Seq::new(text.len(), |i: int| seq![text[i]])
    } else {
        pieces(text, sep, 0, 0)
    }
}

/// No segment is empty.
pub proof fn lemma_pieces_not_empty(text: Seq<char>, sep: Seq<char>, start: int, at: int)
    ensures
        forall|i: int|
            0 <= i < pieces(text, sep, start, at).len() ==> (#[trigger] pieces(
                text,
                sep,
                start,
                at,
            )[i]).len() > 0,
    decreases text.len() - at,
{
    let all = pieces(text, sep, start, at);
    if sep.len() == 0 || at < 0 || at >= text.len() {
        assert forall|i: int| 0 <= i < all.len() implies (#[trigger] all[i]).len() > 0 by {
            assert(all[i] == text.subrange(start, text.len() as int));
        }
    } else if occurs_at(text, sep, at) {
        let head = piece(text, start, at);
        let rest = pieces(text, sep, at + sep.len(), at + sep.len());
        lemma_pieces_not_empty(text, sep, at + sep.len(), at + sep.len());
        assert(all == head + rest);
        assert forall|i: int| 0 <= i < all.len() implies (#[trigger] all[i]).len() > 0 by {
            if i < head.len() {
                assert(all[i] == text.subrange(start, at));
            } else {
                assert(all[i] == rest[i - head.len()]);
            }
        }
    } else {
        lemma_pieces_not_empty(text, sep, start, at + 1);
        assert(all == pieces(text, sep, start, at + 1));
    }
}

/// No segment of a path is empty, whatever the separator.
pub proof fn lemma_segments_not_empty(text: Seq<char>, sep: Seq<char>)
    ensures
        forall|i: int|
            0 <= i < segments(text, sep).len() ==> (#[trigger] segments(text, sep)[i]).len() > 0,
{
    if sep.len() > 0 {
        lemma_pieces_not_empty(text, sep, 0, 0);
    }
}

/// Where no separator stands between `start` and `at`, none stands inside
/// a segment.
pub proof fn lemma_pieces_hold_no_separator(text: Seq<char>, sep: Seq<char>, start: int, at: int)
    requires
        sep.len() > 0,
        0 <= start <= at,
        forall|p: int| start <= p < at ==> !#[trigger] occurs_at(text, sep, p),
    ensures
        forall|i: int, k: int|
            0 <= i < pieces(text, sep, start, at).len() ==> !#[trigger] occurs_at(
                pieces(text, sep, start, at)[i],
                sep,
                k,
            ),
    decreases text.len() - at,
{
    let all = pieces(text, sep, start, at);
    let len = sep.len() as int;
    if at >= text.len() {
        assert forall|i: int, k: int| 0 <= i < all.len() implies !#[trigger] occurs_at(
            all[i],
            sep,
            k,
        ) by {
            let part = text.subrange(start, text.len() as int);
            if occurs_at(part, sep, k) {
                assert(part.subrange(k, k + len) == text.subrange(start + k, start + k + len));
                assert(occurs_at(text, sep, start + k));
            }
        }
    } else if occurs_at(text, sep, at) {
        let head = piece(text, start, at);
        let rest = pieces(text, sep, at + len, at + len);
        lemma_pieces_hold_no_separator(text, sep, at + len, at + len);
        assert forall|i: int, k: int| 0 <= i < all.len() implies !#[trigger] occurs_at(
            all[i],
            sep,
            k,
        ) by {
            if i < head.len() {
                let part = text.subrange(start, at);
                if occurs_at(part, sep, k) {
                    assert(part.subrange(k, k + len) == text.subrange(start + k, start + k + len));
                    assert(occurs_at(text, sep, start + k));
                }
            } else {
                assert(all[i] == rest[i - head.len()]);
            }
        }
    } else {
        lemma_pieces_hold_no_separator(text, sep, start, at + 1);
        assert(all == pieces(text, sep, start, at + 1));
    }
}

/// No separator stands inside a segment of a path.
pub proof fn lemma_segments_hold_no_separator(text: Seq<char>, sep: Seq<char>)
    requires
        sep.len() > 0,
    ensures
        forall|i: int, k: int|
            0 <= i < segments(text, sep).len() ==> !#[trigger] occurs_at(
                segments(text, sep)[i],
                sep,
                k,
            ),
{
    lemma_pieces_hold_no_separator(text, sep, 0, 0);
}

/// What lies before index `from` has no part in the segments after it.
pub proof fn lemma_pieces_skip(text: Seq<char>, sep: Seq<char>, from: int, start: int, at: int)
    requires
        0 <= from <= start <= at,
        from <= text.len(),
    ensures
        pieces(text, sep, start, at) == pieces(text.skip(from), sep, start - from, at - from),
    decreases text.len() - at,
{
    let tail = text.skip(from);
    if sep.len() == 0 || at >= text.len() {
        if start < text.len() {
            assert(text.subrange(start, text.len() as int) == tail.subrange(
                start - from,
                tail.len() as int,
            ));
        }
    } else {
        if at + sep.len() <= text.len() {
            assert(text.subrange(at, at + sep.len()) == tail.subrange(
                at - from,
                at - from + sep.len(),
            ));
        }
        if occurs_at(text, sep, at) {
            if start < at {
                assert(text.subrange(start, at) == tail.subrange(start - from, at - from));
            }
            lemma_pieces_skip(text, sep, from, at + sep.len(), at + sep.len());
        } else {
            lemma_pieces_skip(text, sep, from, start, at + 1);
        }
    }
}

/// Two paths that agree up to a separator at index `cut`, and that have the
/// same segments after it, have the same segments.
proof fn lemma_pieces_agree(one: Seq<char>, two: Seq<char>, c: char, cut: int, start: int, at: int)
    requires
        0 <= start <= at <= cut,
        cut < one.len(),
        cut < two.len(),
        one.take(cut + 1) == two.take(cut + 1),
        one[cut] == c,
        pieces(one, seq![c], cut + 1, cut + 1) == pieces(two, seq![c], cut + 1, cut + 1),
    ensures
        pieces(one, seq![c], start, at) == pieces(two, seq![c], start, at),
    decreases cut - at,
{
    let sep = seq![c];
    assert(one[at] == one.take(cut + 1)[at]);
    assert(two[at] == two.take(cut + 1)[at]);
    assert(one.subrange(at, at + 1)[0] == one[at]);
    assert(two.subrange(at, at + 1)[0] == two[at]);
    assert(occurs_at(one, sep, at) <==> one[at] == c) by {
        if one[at] == c {
            assert(one.subrange(at, at + 1) == sep);
        }
    }
    assert(occurs_at(two, sep, at) <==> two[at] == c) by {
        if two[at] == c {
            assert(two.subrange(at, at + 1) == sep);
        }
    }
    if occurs_at(one, sep, at) {
        if start < at {
            assert(one.subrange(start, at) == one.take(cut + 1).subrange(start, at));
            assert(two.subrange(start, at) == two.take(cut + 1).subrange(start, at));
        }
        if at < cut {
            lemma_pieces_agree(one, two, c, cut, at + 1, at + 1);
        }
    } else {
        lemma_pieces_agree(one, two, c, cut, start, at + 1);
    }
}

/// A separator of one character that stands twice in a row separates no
/// more than it does once: no empty segment comes of it.
pub proof fn lemma_repeated_separator(front: Seq<char>, back: Seq<char>, c: char)
    ensures
        segments(front + seq![c] + seq![c] + back, seq![c]) == segments(
            front + seq![c] + back,
            seq![c],
        ),
{
    let sep = seq![c];
    let one = front + sep + sep + back;
    let two = front + sep + back;
    let cut = front.len() as int;
    assert(one.take(cut + 1) == two.take(cut + 1));
    assert(one.subrange(cut + 1, cut + 2) == sep);
    assert(occurs_at(one, sep, cut + 1));
    assert(piece(one, cut + 1, cut + 1) == Seq::<Seq<char>>::empty());
    assert(pieces(one, sep, cut + 1, cut + 1) == pieces(one, sep, cut + 2, cut + 2));
    lemma_pieces_skip(one, sep, cut + 2, cut + 2, cut + 2);
    lemma_pieces_skip(two, sep, cut + 1, cut + 1, cut + 1);
    assert(one.skip(cut + 2) == back);
    assert(two.skip(cut + 1) == back);
    lemma_pieces_agree(one, two, c, cut, 0, 0);
}

/// The parts of `text` that `ranges` name, each by its first index and the
/// index after its last.
pub open spec fn cut(text: Seq<char>, ranges: Seq<(usize, usize)>) -> Seq<Seq<char>> {
    Seq::new(ranges.len(), |i: int| text.subrange(ranges[i].0 as int, ranges[i].1 as int))
}

/// Every range names at least one character of `text`.
pub open spec fn in_bounds(text: Seq<char>, ranges: Seq<(usize, usize)>) -> bool {
    forall|i: int| 0 <= i < ranges.len() ==> 0 <= (#[trigger] ranges[i]).0 < ranges[i].1 <= text.len()
}

/// Whether `sep` stands in `text` at index `at`.
fn separator_at(text: &Vec<char>, sep: &Vec<char>, at: usize) -> (r: bool)
    requires
        at <= text.len(),
    ensures
        r == occurs_at(text@, sep@, at as int),
{
    if sep.len() > text.len() - at {
        return false;
    }
    let mut i: usize = 0;
    while i < sep.len()
        invariant
            i <= sep.len(),
            at + sep.len() <= text.len(),
            forall|j: int| 0 <= j < i ==> text@[at + j] == sep@[j],
        decreases sep.len() - i,
    {
        if text[at + i] != sep[i] {
            assert(text@.subrange(at as int, at + sep.len())[i as int] == text@[at + i]);
            return false;
        }
        i = i + 1;
    }
    assert(text@.subrange(at as int, at + sep.len()) =~= sep@);
    true
}

/// Finds the segments of `text`, each as a range of indices.
pub fn split(text: &Vec<char>, sep: &Vec<char>) -> (r: Vec<(usize, usize)>)
    ensures
        in_bounds(text@, r@),
        cut(text@, r@) == segments(text@, sep@),
{
    let mut out: Vec<(usize, usize)> = Vec::new();
    if sep.len() == 0 {
        let mut i: usize = 0;
        while i < text.len()
            invariant
                i <= text.len(),
                out@.len() == i,
                forall|j: int| 0 <= j < i ==> (#[trigger] out@[j]).0 == j && out@[j].1 == j + 1,
            decreases text.len() - i,
        {
            out.push((i, i + 1));
            i = i + 1;
        }
        assert(cut(text@, out@) =~= segments(text@, sep@)) by {
            assert forall|j: int| 0 <= j < text@.len() implies cut(text@, out@)[j] == seq![
                text@[j],
            ] by {
                assert(text@.subrange(out@[j].0 as int, out@[j].1 as int) =~= seq![text@[j]]);
            }
        }
        return out;
    }
    let mut start: usize = 0;
    let mut at: usize = 0;
    assert(cut(text@, out@) + pieces(text@, sep@, 0, 0) =~= pieces(text@, sep@, 0, 0));
    while at < text.len()
        invariant
            sep@.len() > 0,
            start <= at <= text.len(),
            in_bounds(text@, out@),
            cut(text@, out@) + pieces(text@, sep@, start as int, at as int) == pieces(
                text@,
                sep@,
                0,
                0,
            ),
        decreases text.len() - at,
    {
        if separator_at(text, sep, at) {
            let ghost before = out@;
            if start < at {
                out.push((start, at));
            }
            assert(cut(text@, out@) =~= cut(text@, before) + piece(text@, start as int, at as int));
            at = at + sep.len();
            start = at;
        } else {
            at = at + 1;
        }
    }
    let ghost before = out@;
    if start < text.len() {
        out.push((start, text.len()));
    }
    assert(cut(text@, out@) =~= cut(text@, before) + piece(
        text@,
        start as int,
        text@.len() as int,
    ));
    out
}

/// The characters of `text`, in order.
pub fn chars_of(text: &str) -> (r: Vec<char>)
    ensures
        r@ == text@,
{
    let mut out: Vec<char> = Vec::new();
    let mut rest = text.chars();
    for c in it: rest
        invariant
            out@ == it.seq().take(it.index() as int),
    {
        out.push(c);
    }
    out
}

} // verus!
