//! Splitting byte strings on a one-byte separator, with spans into the input.
use vstd::prelude::*;

verus! {

/// The tab character that separates the points of a `Bubble_pattern` header field.
pub const TAB: u8 = 9u8;

/// The space character that separates the values inside a header field.
pub const SPACE: u8 = 32u8;

/// The pieces of `s` between occurrences of `sep`, as `str::split` with a
/// one-character pattern gives them: `k` separators give `k + 1` pieces, some of
/// which may be empty.
pub open spec fn split_seq(s: Seq<u8>, sep: u8) -> Seq<Seq<u8>>
    decreases s.len(),
{
    if s.len() == 0 {
        seq![Seq::<u8>::empty()]
    } else {
        let rest = split_seq(s.drop_last(), sep);
        if s.last() == sep {
            rest.push(Seq::<u8>::empty())
        } else {
            rest.update(rest.len() - 1, rest.last().push(s.last()))
        }
    }
}

/// A split of any string has at least one piece.
pub proof fn lemma_split_nonempty(s: Seq<u8>, sep: u8)
    ensures
        split_seq(s, sep).len() >= 1,
    decreases s.len(),
{
    if s.len() > 0 {
        lemma_split_nonempty(s.drop_last(), sep);
    }
}

/// How many times `b` occurs in `s`.
pub open spec fn count_byte(s: Seq<u8>, b: u8) -> nat
    decreases s.len(),
{
    if s.len() == 0 {
        0
    } else {
        count_byte(s.drop_last(), b) + if s.last() == b { 1nat } else { 0nat }
    }
}

/// The pieces put back together, with `sep` between each two of them.
pub open spec fn join_seq(pieces: Seq<Seq<u8>>, sep: u8) -> Seq<u8>
    decreases pieces.len(),
{
    if pieces.len() == 0 {
        Seq::<u8>::empty()
    } else if pieces.len() == 1 {
        pieces[0]
    } else {
        join_seq(pieces.drop_last(), sep).push(sep) + pieces.last()
    }
}

/// A split has one piece more than the string has separators.
pub proof fn lemma_split_len(s: Seq<u8>, sep: u8)
    ensures
        split_seq(s, sep).len() == count_byte(s, sep) + 1,
    decreases s.len(),
{
    if s.len() > 0 {
        lemma_split_len(s.drop_last(), sep);
    }
}

/// No piece of a split holds the separator.
pub proof fn lemma_split_pieces_free_of_sep(s: Seq<u8>, sep: u8)
    ensures
        forall|k: int| 0 <= k < split_seq(s, sep).len() ==> !(#[trigger] split_seq(s, sep)[k]).contains(sep),
    decreases s.len(),
{
    if s.len() > 0 {
        lemma_split_pieces_free_of_sep(s.drop_last(), sep);
        lemma_split_nonempty(s.drop_last(), sep);
        let rest = split_seq(s.drop_last(), sep);
        if s.last() != sep {
            let piece = rest.last().push(s.last());
            assert forall|j: int| 0 <= j < piece.len() implies piece[j] != sep by {
                if j < piece.len() - 1 {
                    assert(piece[j] == rest.last()[j]);
                }
            }
        }
        assert forall|k: int| 0 <= k < split_seq(s, sep).len() implies !(#[trigger] split_seq(s, sep)[k]).contains(sep) by {
            if k < rest.len() - 1 {
                assert(split_seq(s, sep)[k] == rest[k]);
            }
        }
    }
}

/// Joining the pieces of a split with the separator gives the string back.
pub proof fn lemma_split_join(s: Seq<u8>, sep: u8)
    ensures
        join_seq(split_seq(s, sep), sep) == s,
    decreases s.len(),
{
    if s.len() > 0 {
        lemma_split_join(s.drop_last(), sep);
        lemma_split_nonempty(s.drop_last(), sep);
        let rest = split_seq(s.drop_last(), sep);
        if s.last() == sep {
            assert(rest.push(Seq::<u8>::empty()).drop_last() =~= rest);
            assert(join_seq(rest, sep).push(sep) + Seq::<u8>::empty() =~= s);
        } else {
            let now = rest.update(rest.len() - 1, rest.last().push(s.last()));
            if rest.len() == 1 {
                assert(now[0] =~= s);
            } else {
                assert(now.drop_last() =~= rest.drop_last());
                assert(join_seq(rest.drop_last(), sep).push(sep) + rest.last().push(s.last())
                    =~= (join_seq(rest.drop_last(), sep).push(sep) + rest.last()).push(s.last()));
                assert(s =~= s.drop_last().push(s.last()));
            }
        }
    }
}

/// Appending text free of the separator extends the last piece.
proof fn lemma_split_append_free(x: Seq<u8>, b: Seq<u8>, sep: u8)
    requires
        !b.contains(sep),
    ensures
        split_seq(x + b, sep) == split_seq(x, sep).update(
            split_seq(x, sep).len() - 1,
            split_seq(x, sep).last() + b,
        ),
    decreases b.len(),
{
    lemma_split_nonempty(x, sep);
    let sx = split_seq(x, sep);
    if b.len() == 0 {
        assert(x + b =~= x);
        assert(sx.last() + b =~= sx.last());
        assert(sx.update(sx.len() - 1, sx.last() + b) =~= sx);
    } else {
        let bd = b.drop_last();
        assert(!bd.contains(sep)) by {
            assert forall|j: int| 0 <= j < bd.len() implies bd[j] != sep by {
                assert(bd[j] == b[j]);
            }
        }
        lemma_split_append_free(x, bd, sep);
        assert((x + b).drop_last() =~= x + bd);
        assert((x + b).last() == b.last());
        assert(b.last() != sep) by {
            assert(b[b.len() - 1] == b.last());
        }
        let r = split_seq(x + bd, sep);
        assert((sx.last() + bd).push(b.last()) =~= sx.last() + b);
        assert(r.update(r.len() - 1, r.last().push(b.last()))
            =~= sx.update(sx.len() - 1, sx.last() + b));
    }
}

/// Splitting pieces that were joined with a separator they do not hold gives
/// the pieces back.
pub proof fn lemma_split_of_join(pieces: Seq<Seq<u8>>, sep: u8)
    requires
        pieces.len() >= 1,
        forall|k: int| 0 <= k < pieces.len() ==> !(#[trigger] pieces[k]).contains(sep),
    ensures
        split_seq(join_seq(pieces, sep), sep) == pieces,
    decreases pieces.len(),
{
    if pieces.len() == 1 {
        lemma_split_append_free(Seq::<u8>::empty(), pieces[0], sep);
        assert(Seq::<u8>::empty() + pieces[0] =~= pieces[0]);
        assert(seq![Seq::<u8>::empty()].update(0, Seq::<u8>::empty() + pieces[0]) =~= pieces);
    } else {
        let front = pieces.drop_last();
        assert forall|k: int| 0 <= k < front.len() implies !(#[trigger] front[k]).contains(sep) by {
            assert(front[k] == pieces[k]);
        }
        lemma_split_of_join(front, sep);
        let j = join_seq(front, sep).push(sep);
        assert(j.drop_last() =~= join_seq(front, sep));
        assert(split_seq(j, sep) == front.push(Seq::<u8>::empty()));
        assert(!pieces.last().contains(sep)) by {
            assert(pieces[pieces.len() - 1] == pieces.last());
        }
        lemma_split_append_free(j, pieces.last(), sep);
        assert(Seq::<u8>::empty() + pieces.last() =~= pieces.last());
        assert(front.push(Seq::<u8>::empty()).update(front.len() as int, pieces.last()) =~= pieces);
    }
}

/// Joining pieces free of a byte, with another byte, gives text free of it.
pub proof fn lemma_join_free(pieces: Seq<Seq<u8>>, sep: u8, c: u8)
    requires
        c != sep,
        forall|k: int| 0 <= k < pieces.len() ==> !(#[trigger] pieces[k]).contains(c),
    ensures
        !join_seq(pieces, sep).contains(c),
    decreases pieces.len(),
{
    if pieces.len() > 1 {
        let front = pieces.drop_last();
        assert forall|k: int| 0 <= k < front.len() implies !(#[trigger] front[k]).contains(c) by {
            assert(front[k] == pieces[k]);
        }
        lemma_join_free(front, sep, c);
        let a = join_seq(front, sep).push(sep);
        let l = pieces.last();
        assert(!l.contains(c)) by {
            assert(pieces[pieces.len() - 1] == l);
        }
        assert forall|j: int| 0 <= j < (a + l).len() implies (a + l)[j] != c by {
            if j < a.len() - 1 {
                assert((a + l)[j] == join_seq(front, sep)[j]);
            } else if j >= a.len() {
                assert((a + l)[j] == l[j - a.len()]);
            }
        }
    } else if pieces.len() == 1 {
        assert(!pieces[0].contains(c));
    }
}

/// The pieces of text free of a byte are free of it too.
pub proof fn lemma_split_pieces_free_of(s: Seq<u8>, sep: u8, c: u8)
    requires
        !s.contains(c),
    ensures
        forall|k: int| 0 <= k < split_seq(s, sep).len() ==> !(#[trigger] split_seq(s, sep)[k]).contains(c),
    decreases s.len(),
{
    if s.len() > 0 {
        let d = s.drop_last();
        assert(!d.contains(c)) by {
            assert forall|j: int| 0 <= j < d.len() implies d[j] != c by {
                assert(d[j] == s[j]);
            }
        }
        assert(s.last() != c) by {
            assert(s[s.len() - 1] == s.last());
        }
        lemma_split_pieces_free_of(d, sep, c);
        lemma_split_nonempty(d, sep);
        let rest = split_seq(d, sep);
        if s.last() != sep {
            let piece = rest.last().push(s.last());
            assert forall|j: int| 0 <= j < piece.len() implies piece[j] != c by {
                if j < piece.len() - 1 {
                    assert(piece[j] == rest.last()[j]);
                }
            }
        }
        assert forall|k: int| 0 <= k < split_seq(s, sep).len() implies !(#[trigger] split_seq(s, sep)[k]).contains(c) by {
            if k < rest.len() - 1 {
                assert(split_seq(s, sep)[k] == rest[k]);
            }
        }
    }
}

/// The spans of the pieces of `s[from..to]` between occurrences of `sep`,
/// as positions in `s`: a piece ends where a separator stands, and the next
/// one starts right after it.
pub open spec fn split_spans_spec(s: Seq<u8>, from: int, to: int, sep: u8) -> Seq<(int, int)>
    decreases to - from,
{
    if to <= from {
        seq![(from, from)]
    } else {
        let rest = split_spans_spec(s, from, to - 1, sep);
        if s[to - 1] == sep {
            rest.push((to, to))
        } else {
            rest.update(rest.len() - 1, (rest.last().0, to))
        }
    }
}

/// The text that each span covers in `s`.
pub open spec fn span_texts(s: Seq<u8>, spans: Seq<(int, int)>) -> Seq<Seq<u8>> {
    spans.map_values(|sp: (int, int)| s.subrange(sp.0, sp.1))
}

/// The spans of a vector, as mathematical integers.
pub open spec fn int_spans(spans: Seq<(usize, usize)>) -> Seq<(int, int)> {
    spans.map_values(|sp: (usize, usize)| (sp.0 as int, sp.1 as int))
}

/// Every span lies inside `lo..hi`.
pub open spec fn spans_within(spans: Seq<(int, int)>, lo: int, hi: int) -> bool {
    forall|k: int| 0 <= k < spans.len() ==> lo <= (#[trigger] spans[k]).0 <= spans[k].1 <= hi
}

/// The spans of a split cover what `split_seq` gives, lie in the range, and
/// the last one ends at its end.
pub proof fn lemma_split_spans_texts(s: Seq<u8>, from: int, to: int, sep: u8)
    requires
        0 <= from <= to <= s.len(),
    ensures
        split_spans_spec(s, from, to, sep).len() >= 1,
        split_spans_spec(s, from, to, sep).last().1 == to,
        spans_within(split_spans_spec(s, from, to, sep), from, to),
        span_texts(s, split_spans_spec(s, from, to, sep)) == split_seq(s.subrange(from, to), sep),
    decreases to - from,
{
    if to == from {
        assert(s.subrange(from, to) =~= Seq::<u8>::empty());
        assert(span_texts(s, split_spans_spec(s, from, to, sep)) =~= seq![Seq::<u8>::empty()]);
    } else {
        lemma_split_spans_texts(s, from, to - 1, sep);
        let rest = split_spans_spec(s, from, to - 1, sep);
        let sub = s.subrange(from, to);
        assert(sub.drop_last() =~= s.subrange(from, to - 1));
        assert(sub.last() == s[to - 1]);
        let now = split_spans_spec(s, from, to, sep);
        if s[to - 1] == sep {
            assert(s.subrange(to, to) =~= Seq::<u8>::empty());
            assert(span_texts(s, now) =~= span_texts(s, rest).push(Seq::<u8>::empty()));
        } else {
            assert(s.subrange(rest.last().0, to) =~= s.subrange(rest.last().0, to - 1).push(s[to - 1]));
            assert(span_texts(s, now) =~= span_texts(s, rest).update(
                rest.len() - 1,
                span_texts(s, rest).last().push(s[to - 1]),
            ));
        }
    }
}

/// Splits `s[from..to]` on `sep`, as `str::split` with a one-character
/// pattern does. Each piece comes back as a span of `s`.
pub fn split_spans(s: &[u8], from: usize, to: usize, sep: u8) -> (spans: Vec<(usize, usize)>)
    requires
        from <= to <= s@.len(),
    ensures
        int_spans(spans@) == split_spans_spec(s@, from as int, to as int, sep),
{
    let mut spans: Vec<(usize, usize)> = Vec::new();
    let mut start: usize = from;
    let mut i: usize = from;
    assert(int_spans(spans@).push((start as int, i as int)) =~= split_spans_spec(s@, from as int, i as int, sep));
    while i < to
        invariant
            from <= start <= i <= to <= s@.len(),
            int_spans(spans@).push((start as int, i as int)) == split_spans_spec(s@, from as int, i as int, sep),
        decreases to - i,
    {
        let ghost before = int_spans(spans@);
        if s[i] == sep {
            let old_start = start;
            spans.push((start, i));
            start = i + 1;
            assert(int_spans(spans@) =~= before.push((old_start as int, i as int)));
        }
        i = i + 1;
        assert(int_spans(spans@).push((start as int, i as int)) =~= split_spans_spec(s@, from as int, i as int, sep));
    }
    let ghost before = int_spans(spans@);
    spans.push((start, to));
    assert(int_spans(spans@) =~= before.push((start as int, to as int)));
    spans
}

} // verus!
