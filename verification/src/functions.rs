//! Cake-file logic: the file name check and the tokenizers of the header
//! fields that describe the integration.
use vstd::prelude::*;
use vstd::string::StringSliceAdditionalSpecFns;
use crate::text::{
    TAB, SPACE, split_seq, split_spans, split_spans_spec, span_texts, int_spans, spans_within, count_byte,
    lemma_split_len, lemma_split_spans_texts, lemma_split_nonempty, lemma_split_pieces_free_of_sep,
    lemma_split_pieces_free_of, lemma_split_of_join, lemma_join_free, join_seq,
};

verus! {

/// The error that reading a cake file ends in.
#[derive(Debug)]
pub struct CakeReadError;

/// The bytes of ".edf", the extension that a cake file must have.
pub open spec fn edf_suffix() -> Seq<u8> {
    seq![46u8, 101u8, 100u8, 102u8]
}

/// `s` ends with `suffix`.
pub open spec fn ends_with(s: Seq<u8>, suffix: Seq<u8>) -> bool {
    s.len() >= suffix.len() && s.subrange(s.len() - suffix.len(), s.len() as int) == suffix
}

/// The first check that reading a cake file makes: the name must end in ".edf".
pub fn check_cake_extension(cakefile: &str) -> (r: Result<(), CakeReadError>)
    ensures
        r is Ok <==> ends_with(cakefile.spec_bytes(), edf_suffix()),
{
    let b = cakefile.as_bytes();
    let n = b.len();
    if n < 4 {
        return Err(CakeReadError);
    }
    if b[n - 4] == 46u8 && b[n - 3] == 101u8 && b[n - 2] == 100u8 && b[n - 1] == 102u8 {
        assert(b@.subrange(n - 4, n as int) =~= edf_suffix());
        Ok(())
    } else {
        assert(b@.subrange(n - 4, n as int)[0] == b@[n - 4]);
        assert(b@.subrange(n - 4, n as int)[1] == b@[n - 3]);
        assert(b@.subrange(n - 4, n as int)[2] == b@[n - 2]);
        assert(b@.subrange(n - 4, n as int)[3] == b@[n - 1]);
        Err(CakeReadError)
    }
}

/// The points of a `Bubble_pattern` field, each as the spans of its values:
/// the field is split on tabs, and each point on spaces.
pub open spec fn pattern_spans(s: Seq<u8>) -> Seq<Seq<(int, int)>> {
    split_spans_spec(s, 0, s.len() as int, TAB).map_values(
        |item: (int, int)| split_spans_spec(s, item.0, item.1, SPACE),
    )
}

/// The points of a `Bubble_pattern` field, each as the texts of its values.
pub open spec fn pattern_tokens(s: Seq<u8>) -> Seq<Seq<Seq<u8>>> {
    split_seq(s, TAB).map_values(|item: Seq<u8>| split_seq(item, SPACE))
}

/// The `k`-th value of each point that has one, in the order of the points.
pub open spec fn column<A>(points: Seq<Seq<A>>, k: int) -> Seq<A>
    decreases points.len(),
{
    if points.len() == 0 {
        Seq::<A>::empty()
    } else {
        let rest = column(points.drop_last(), k);
        if points.last().len() > k {
            rest.push(points.last()[k])
        } else {
            rest
        }
    }
}

/// The values of each point after its third, in order.
pub open spec fn extra_values<A>(points: Seq<Seq<A>>) -> Seq<A>
    decreases points.len(),
{
    if points.len() == 0 {
        Seq::<A>::empty()
    } else {
        let rest = extra_values(points.drop_last());
        if points.last().len() > 3 {
            rest + points.last().skip(3)
        } else {
            rest
        }
    }
}

/// Where the values of a `Bubble_pattern` field stand: the 2theta positions,
/// the intensities and their errors, and the values that follow them, which
/// are read but not kept.
#[derive(Debug)]
pub struct PatternFields {
    pub tth: Vec<(usize, usize)>,
    pub intensity: Vec<(usize, usize)>,
    pub sigma: Vec<(usize, usize)>,
    pub extra: Vec<(usize, usize)>,
}

/// Tokenizes a `Bubble_pattern` header field: points are separated by tabs,
/// the values of a point by single spaces; the first value of each point is
/// a 2theta position, the second its intensity, the third its error.
pub fn bubblepattern_fields(s: &str) -> (r: PatternFields)
    ensures
        int_spans(r.tth@) == column(pattern_spans(s.spec_bytes()), 0),
        int_spans(r.intensity@) == column(pattern_spans(s.spec_bytes()), 1),
        int_spans(r.sigma@) == column(pattern_spans(s.spec_bytes()), 2),
        int_spans(r.extra@) == extra_values(pattern_spans(s.spec_bytes())),
        r.tth@.len() == count_byte(s.spec_bytes(), TAB) + 1,
        r.sigma@.len() <= r.intensity@.len() <= r.tth@.len(),
        (forall|i: int| 0 <= i < pattern_tokens(s.spec_bytes()).len() ==> (#[trigger] pattern_tokens(s.spec_bytes())[i]).len() >= 3)
            ==> r.intensity@.len() == r.tth@.len() && r.sigma@.len() == r.tth@.len(),
{
    let b = s.as_bytes();
    let ghost bs = b@;
    let items = split_spans(b, 0, b.len(), TAB);
    let ghost all = pattern_spans(bs);
    proof {
        lemma_split_spans_texts(bs, 0, bs.len() as int, TAB);
        assert(bs.subrange(0, bs.len() as int) =~= bs);
        lemma_split_len(bs, TAB);
        assert(span_texts(bs, split_spans_spec(bs, 0, bs.len() as int, TAB)).len() == items@.len());
    }
    let mut tth: Vec<(usize, usize)> = Vec::new();
    let mut intensity: Vec<(usize, usize)> = Vec::new();
    let mut sigma: Vec<(usize, usize)> = Vec::new();
    let mut extra: Vec<(usize, usize)> = Vec::new();
    let mut i: usize = 0;
    while i < items.len()
        invariant
            bs == b@,
            all == pattern_spans(bs),
            int_spans(items@) == split_spans_spec(bs, 0, bs.len() as int, TAB),
            spans_within(int_spans(items@), 0, bs.len() as int),
            0 <= i <= items@.len(),
            int_spans(tth@) == column(all.take(i as int), 0),
            int_spans(intensity@) == column(all.take(i as int), 1),
            int_spans(sigma@) == column(all.take(i as int), 2),
            int_spans(extra@) == extra_values(all.take(i as int)),
            tth@.len() == i,
            sigma@.len() <= intensity@.len() <= tth@.len(),
        decreases items@.len() - i,
    {
        let (a, c) = items[i];
        assert(int_spans(items@)[i as int] == (a as int, c as int));
        let toks = split_spans(b, a, c, SPACE);
        let ghost tk = split_spans_spec(bs, a as int, c as int, SPACE);
        proof {
            lemma_split_spans_texts(bs, a as int, c as int, SPACE);
            assert(all[i as int] == tk);
            assert(all.take(i + 1).drop_last() =~= all.take(i as int));
            assert(all.take(i + 1).last() == tk);
            assert(int_spans(toks@)[0] == tk[0]);
        }
        let ghost tth0 = int_spans(tth@);
        let ghost int0 = int_spans(intensity@);
        let ghost sig0 = int_spans(sigma@);
        tth.push(toks[0]);
        assert(int_spans(tth@) =~= tth0.push(tk[0]));
        if toks.len() > 1 {
            intensity.push(toks[1]);
            assert(int_spans(toks@)[1] == tk[1]);
            assert(int_spans(intensity@) =~= int0.push(tk[1]));
        } else {
            assert(int_spans(intensity@) =~= int0);
        }
        if toks.len() > 2 {
            sigma.push(toks[2]);
            assert(int_spans(toks@)[2] == tk[2]);
            assert(int_spans(sigma@) =~= sig0.push(tk[2]));
        } else {
            assert(int_spans(sigma@) =~= sig0);
        }
        let ghost ext0 = int_spans(extra@);
        if toks.len() > 3 {
            let mut j: usize = 3;
            assert(ext0 + tk.subrange(3, 3) =~= ext0);
            while j < toks.len()
                invariant
                    int_spans(toks@) == tk,
                    3 <= j <= toks@.len(),
                    int_spans(extra@) == ext0 + tk.subrange(3, j as int),
                decreases toks@.len() - j,
            {
                let ghost ext1 = int_spans(extra@);
                extra.push(toks[j]);
                assert(int_spans(toks@)[j as int] == tk[j as int]);
                assert(int_spans(extra@) =~= ext1.push(tk[j as int]));
                assert(tk.subrange(3, j + 1) =~= tk.subrange(3, j as int).push(tk[j as int]));
                j = j + 1;
            }
            assert(tk.subrange(3, toks@.len() as int) =~= tk.skip(3));
        }
        i = i + 1;
    }
    proof {
        assert(all.take(items@.len() as int) =~= all);
        let pt = pattern_tokens(bs);
        if forall|i: int| 0 <= i < pt.len() ==> (#[trigger] pt[i]).len() >= 3 {
            lemma_pattern_column_per_point(bs, 1);
            lemma_pattern_column_per_point(bs, 2);
            lemma_split_len(bs, TAB);
        }
    }
    PatternFields { tth, intensity, sigma, extra }
}

proof fn lemma_column_map<A, B>(points: Seq<Seq<A>>, f: spec_fn(A) -> B, k: int)
    requires
        0 <= k,
    ensures
        column(points.map_values(|p: Seq<A>| p.map_values(f)), k) == column(points, k).map_values(f),
        extra_values(points.map_values(|p: Seq<A>| p.map_values(f))) == extra_values(points).map_values(f),
    decreases points.len(),
{
    let mapped = points.map_values(|p: Seq<A>| p.map_values(f));
    if points.len() > 0 {
        lemma_column_map(points.drop_last(), f, k);
        assert(mapped.drop_last() =~= points.drop_last().map_values(|p: Seq<A>| p.map_values(f)));
        assert(mapped.last() == points.last().map_values(f));
        if points.last().len() > 3 {
            assert(mapped.last().skip(3) =~= points.last().skip(3).map_values(f));
            assert(extra_values(points.drop_last()).map_values(f) + points.last().skip(3).map_values(f)
                =~= (extra_values(points.drop_last()) + points.last().skip(3)).map_values(f));
        }
        if points.last().len() > k {
            assert(column(points.drop_last(), k).map_values(f).push(f(points.last()[k]))
                =~= column(points.drop_last(), k).push(points.last()[k]).map_values(f));
        }
    } else {
        assert(column(points, k).map_values(f) =~= Seq::<B>::empty());
        assert(extra_values(points).map_values(f) =~= Seq::<B>::empty());
    }
}

/// The spans of a `Bubble_pattern` field cover its values: the text under
/// each column of spans is the column of values that splitting the field
/// on tabs and then on spaces gives, and likewise for the values past the
/// third.
pub proof fn lemma_pattern_texts(s: Seq<u8>)
    ensures
        forall|k: int| 0 <= k ==> span_texts(s, #[trigger] column(pattern_spans(s), k)) == column(pattern_tokens(s), k),
        span_texts(s, extra_values(pattern_spans(s))) == extra_values(pattern_tokens(s)),
{
    let g = |sp: (int, int)| s.subrange(sp.0, sp.1);
    let items = split_spans_spec(s, 0, s.len() as int, TAB);
    lemma_split_spans_texts(s, 0, s.len() as int, TAB);
    assert(s.subrange(0, s.len() as int) =~= s);
    let ps = pattern_spans(s);
    assert(pattern_tokens(s) =~= ps.map_values(|p: Seq<(int, int)>| p.map_values(g))) by {
        assert forall|i: int| 0 <= i < items.len() implies
            #[trigger] pattern_tokens(s)[i] == ps[i].map_values(g) by {
            let it = items[i];
            assert(span_texts(s, items)[i] == s.subrange(it.0, it.1));
            lemma_split_spans_texts(s, it.0, it.1, SPACE);
            assert(span_texts(s, ps[i]) =~= ps[i].map_values(g));
        }
    }
    assert forall|k: int| 0 <= k implies span_texts(s, #[trigger] column(pattern_spans(s), k)) == column(pattern_tokens(s), k) by {
        lemma_column_map(ps, g, k);
        assert(span_texts(s, column(ps, k)) =~= column(ps, k).map_values(g));
    }
    lemma_column_map(ps, g, 0);
    assert(span_texts(s, extra_values(ps)) =~= extra_values(ps).map_values(g));
}

/// A column never has more entries than there are points.
pub proof fn lemma_column_len<A>(points: Seq<Seq<A>>, k: int)
    ensures
        column(points, k).len() <= points.len(),
    decreases points.len(),
{
    if points.len() > 0 {
        lemma_column_len(points.drop_last(), k);
    }
}

/// When every point has a `k`-th value, column `k` has one entry per point:
/// the `k`-th value of point `i` at place `i`.
pub proof fn lemma_column_one_per_point<A>(points: Seq<Seq<A>>, k: int)
    requires
        0 <= k,
        forall|i: int| 0 <= i < points.len() ==> (#[trigger] points[i]).len() > k,
    ensures
        column(points, k).len() == points.len(),
        forall|i: int| 0 <= i < points.len() ==> #[trigger] column(points, k)[i] == points[i][k],
    decreases points.len(),
{
    if points.len() > 0 {
        let front = points.drop_last();
        assert forall|i: int| 0 <= i < front.len() implies (#[trigger] front[i]).len() > k by {
            assert(front[i] == points[i]);
        }
        lemma_column_one_per_point(front, k);
        assert(points.last() == points[points.len() - 1]);
        assert forall|i: int| 0 <= i < points.len() implies #[trigger] column(points, k)[i] == points[i][k] by {
            if i < front.len() {
                assert(front[i] == points[i]);
            }
        }
    }
}

/// In a `Bubble_pattern` field whose points all have a `k`-th value, the
/// spans of column `k` cover exactly one value per point: the `k`-th value of
/// point `i` at place `i`. So the intensity and error columns of a field
/// whose points all have three values are as long as the 2theta column, and
/// each entry comes from its own point.
pub proof fn lemma_pattern_column_per_point(s: Seq<u8>, k: int)
    requires
        0 <= k,
        forall|i: int| 0 <= i < pattern_tokens(s).len() ==> (#[trigger] pattern_tokens(s)[i]).len() > k,
    ensures
        column(pattern_spans(s), k).len() == pattern_tokens(s).len(),
        forall|i: int| 0 <= i < pattern_tokens(s).len()
            ==> #[trigger] span_texts(s, column(pattern_spans(s), k))[i] == pattern_tokens(s)[i][k],
{
    let items = split_spans_spec(s, 0, s.len() as int, TAB);
    lemma_split_spans_texts(s, 0, s.len() as int, TAB);
    assert(s.subrange(0, s.len() as int) =~= s);
    let ps = pattern_spans(s);
    let pt = pattern_tokens(s);
    assert(ps.len() == pt.len());
    assert forall|i: int| 0 <= i < ps.len() implies (#[trigger] ps[i]).len() > k by {
        let it = items[i];
        assert(span_texts(s, items)[i] == s.subrange(it.0, it.1));
        lemma_split_spans_texts(s, it.0, it.1, SPACE);
        assert(pt[i] == split_seq(s.subrange(it.0, it.1), SPACE));
        assert(span_texts(s, ps[i]).len() == ps[i].len());
        assert(pt[i].len() > k);
    }
    lemma_column_one_per_point(ps, k);
    lemma_column_one_per_point(pt, k);
    lemma_pattern_texts(s);
    assert forall|i: int| 0 <= i < pt.len()
        implies #[trigger] span_texts(s, column(ps, k))[i] == pt[i][k] by {
        assert(span_texts(s, column(ps, k)) == column(pt, k));
    }
}

/// Each point cut down to its first three values.
pub open spec fn first_three<A>(points: Seq<Seq<A>>) -> Seq<Seq<A>> {
    points.map_values(|p: Seq<A>| if p.len() > 3 { p.take(3) } else { p })
}

/// A `Bubble_pattern` field with every value past the third of each point
/// removed, together with the space before it.
pub open spec fn drop_extra_values(s: Seq<u8>) -> Seq<u8> {
    join_seq(first_three(pattern_tokens(s)).map_values(|t: Seq<Seq<u8>>| join_seq(t, SPACE)), TAB)
}

proof fn lemma_column_first_three<A>(points: Seq<Seq<A>>, k: int)
    requires
        0 <= k < 3,
    ensures
        column(first_three(points), k) == column(points, k),
        extra_values(first_three(points)) == Seq::<A>::empty(),
    decreases points.len(),
{
    if points.len() > 0 {
        lemma_column_first_three(points.drop_last(), k);
        assert(first_three(points).drop_last() =~= first_three(points.drop_last()));
        let l = points.last();
        assert(first_three(points).last() == (if l.len() > 3 { l.take(3) } else { l }));
        if l.len() > 3 {
            assert(l.take(3)[k] == l[k]);
        }
    } else {
        assert(first_three(points) =~= Seq::<Seq<A>>::empty());
    }
}

/// The values past the third of each point are read but not kept: a
/// `Bubble_pattern` field without them has the same points, cut to three
/// values each, and the same three columns of values, at the same texts
/// under their spans.
pub proof fn lemma_extra_values_ignored(s: Seq<u8>)
    ensures
        pattern_tokens(drop_extra_values(s)) == first_three(pattern_tokens(s)),
        forall|k: int| 0 <= k < 3 ==> #[trigger] column(pattern_tokens(drop_extra_values(s)), k) == column(pattern_tokens(s), k),
        extra_values(pattern_tokens(drop_extra_values(s))).len() == 0,
        forall|k: int| 0 <= k < 3 ==> span_texts(drop_extra_values(s), #[trigger] column(pattern_spans(drop_extra_values(s)), k))
            == span_texts(s, column(pattern_spans(s), k)),
{
    let items = split_seq(s, TAB);
    let t3 = first_three(pattern_tokens(s));
    let items2 = t3.map_values(|t: Seq<Seq<u8>>| join_seq(t, SPACE));
    lemma_split_nonempty(s, TAB);
    lemma_split_pieces_free_of_sep(s, TAB);
    assert forall|i: int| 0 <= i < items2.len() implies
        !(#[trigger] items2[i]).contains(TAB) && split_seq(items2[i], SPACE) == t3[i] by {
        let it = items[i];
        let toks = split_seq(it, SPACE);
        assert(!it.contains(TAB));
        lemma_split_nonempty(it, SPACE);
        lemma_split_pieces_free_of_sep(it, SPACE);
        lemma_split_pieces_free_of(it, SPACE, TAB);
        assert(pattern_tokens(s)[i] == toks);
        let t = t3[i];
        assert(t == (if toks.len() > 3 { toks.take(3) } else { toks }));
        assert forall|k: int| 0 <= k < t.len() implies !(#[trigger] t[k]).contains(SPACE) by {
            assert(t[k] == toks[k]);
        }
        assert forall|k: int| 0 <= k < t.len() implies !(#[trigger] t[k]).contains(TAB) by {
            assert(t[k] == toks[k]);
        }
        lemma_join_free(t, SPACE, TAB);
        lemma_split_of_join(t, SPACE);
    }
    assert forall|i: int| 0 <= i < items2.len() implies !(#[trigger] items2[i]).contains(TAB) by {}
    lemma_split_of_join(items2, TAB);
    assert(pattern_tokens(drop_extra_values(s)) =~= t3);
    assert forall|k: int| 0 <= k < 3 implies #[trigger] column(pattern_tokens(drop_extra_values(s)), k) == column(pattern_tokens(s), k) by {
        lemma_column_first_three(pattern_tokens(s), k);
    }
    lemma_column_first_three(pattern_tokens(s), 0);
    lemma_pattern_texts(s);
    lemma_pattern_texts(drop_extra_values(s));
    assert forall|k: int| 0 <= k < 3 implies span_texts(drop_extra_values(s), #[trigger] column(pattern_spans(drop_extra_values(s)), k))
        == span_texts(s, column(pattern_spans(s), k)) by {
        lemma_column_first_three(pattern_tokens(s), k);
        assert(span_texts(s, column(pattern_spans(s), k)) == column(pattern_tokens(s), k));
        assert(span_texts(drop_extra_values(s), column(pattern_spans(drop_extra_values(s)), k))
            == column(pattern_tokens(drop_extra_values(s)), k));
    }
}

/// Where the four values of a `Bubble_cake` header field stand: the 2theta
/// range and the azimuthal range of the integration.
#[derive(Debug)]
pub struct RangeFields {
    pub tth0: (usize, usize),
    pub tthend: (usize, usize),
    pub chi0: (usize, usize),
    pub chiend: (usize, usize),
}

/// The four values are the first four space-separated pieces of `s`.
pub open spec fn range_fields_of(s: Seq<u8>, r: RangeFields) -> bool {
    let pieces = split_spans_spec(s, 0, s.len() as int, SPACE);
    &&& (r.tth0.0 as int, r.tth0.1 as int) == pieces[0]
    &&& (r.tthend.0 as int, r.tthend.1 as int) == pieces[1]
    &&& (r.chi0.0 as int, r.chi0.1 as int) == pieces[2]
    &&& (r.chiend.0 as int, r.chiend.1 as int) == pieces[3]
}

/// Tokenizes a `Bubble_cake` header field: its first four space-separated
/// values, which must be there (at least three spaces); what follows them
/// is not read.
pub fn bubblecake_fields(s: &str) -> (r: Option<RangeFields>)
    ensures
        r is Some <==> count_byte(s.spec_bytes(), SPACE) >= 3,
        r matches Some(f) ==> range_fields_of(s.spec_bytes(), f),
{
    let b = s.as_bytes();
    let pieces = split_spans(b, 0, b.len(), SPACE);
    proof {
        lemma_split_spans_texts(b@, 0, b@.len() as int, SPACE);
        assert(b@.subrange(0, b@.len() as int) =~= b@);
        lemma_split_len(b@, SPACE);
        assert(span_texts(b@, split_spans_spec(b@, 0, b@.len() as int, SPACE)).len() == pieces@.len());
    }
    if pieces.len() < 4 {
        return None;
    }
    let f = RangeFields { tth0: pieces[0], tthend: pieces[1], chi0: pieces[2], chiend: pieces[3] };
    proof {
        let t = int_spans(pieces@);
        assert(t[0] == (f.tth0.0 as int, f.tth0.1 as int));
        assert(t[1] == (f.tthend.0 as int, f.tthend.1 as int));
        assert(t[2] == (f.chi0.0 as int, f.chi0.1 as int));
        assert(t[3] == (f.chiend.0 as int, f.chiend.1 as int));
    }
    Some(f)
}

} // verus!
