//! The decisions of the command line program that corrects one cake file.
use vstd::prelude::*;
use vstd::string::StringSliceAdditionalSpecFns;
use crate::functions::{ends_with, edf_suffix};
use vstd::utf8::*;

verus! {

/// The 2theta bin that the fit uses: the one given, or else the bin at 90%
/// of the number of bins.
pub fn choose_tthindex(given: Option<usize>, nbins: usize) -> (index: usize)
    requires
        given is None ==> nbins * 90 <= usize::MAX,
    ensures
        index == match given {
            Some(i) => i as int,
            None => nbins * 90 / 100,
        },
{
    match given {
        Some(i) => i,
        None => nbins * 90 / 100,
    }
}

/// `s` with each occurrence of `pat` replaced by `rep`, the occurrences taken
/// from the left and not overlapping, as `str::replace` takes them.
pub open spec fn replace_seq(s: Seq<u8>, pat: Seq<u8>, rep: Seq<u8>) -> Seq<u8>
    decreases s.len(),
{
    if pat.len() == 0 || s.len() < pat.len() {
        s
    } else if s.take(pat.len() as int) == pat {
        rep + replace_seq(s.skip(pat.len() as int), pat, rep)
    } else {
        seq![s[0]] + replace_seq(s.skip(1), pat, rep)
    }
}

/// Whether `pat` occurs in `s` at `at`.
fn occurs_at(s: &[u8], at: usize, pat: &[u8]) -> (r: bool)
    requires
        at + pat@.len() <= s@.len(),
    ensures
        r == (s@.subrange(at as int, at + pat@.len()) == pat@),
{
    let n = s.len();
    let mut k: usize = 0;
    while k < pat.len()
        invariant
            n == s@.len(),
            at + pat@.len() <= s@.len(),
            k <= pat@.len(),
            s@.subrange(at as int, at + k) == pat@.take(k as int),
        decreases pat@.len() - k,
    {
        if s[at + k] != pat[k] {
            assert(s@.subrange(at as int, at + pat@.len())[k as int] == s@[at + k]);
            return false;
        }
        assert(s@.subrange(at as int, at + k + 1) =~= pat@.take(k + 1));
        k = k + 1;
    }
    assert(pat@.take(pat@.len() as int) =~= pat@);
    true
}

/// Replaces every occurrence of `pat` in `s` by `rep`; this is how the
/// program names its output files after its input file. The result is the
/// UTF-8 bytes of the new text.
pub fn replace_all(s: &str, pat: &str, rep: &str) -> (r: Vec<u8>)
    requires
        pat.spec_bytes().len() > 0,
    ensures
        r@ == replace_seq(s.spec_bytes(), pat.spec_bytes(), rep.spec_bytes()),
        valid_utf8(r@),
{
    proof {
        encode_utf8_valid_utf8(s@);
        encode_utf8_valid_utf8(pat@);
        encode_utf8_valid_utf8(rep@);
        lemma_replace_valid_utf8(s.spec_bytes(), pat.spec_bytes(), rep.spec_bytes());
    }
    let b = s.as_bytes();
    let p = pat.as_bytes();
    let q = rep.as_bytes();
    let n = b.len();
    let m = p.len();
    let mut out: Vec<u8> = Vec::new();
    let mut i: usize = 0;
    assert(b@.skip(0) =~= b@);
    while i < n
        invariant
            n == b@.len(),
            m == p@.len(),
            m > 0,
            i <= n,
            replace_seq(b@, p@, q@) == out@ + replace_seq(b@.skip(i as int), p@, q@),
        decreases n - i,
    {
        let ghost rest = b@.skip(i as int);
        if m <= n - i && occurs_at(b, i, p) {
            assert(rest.take(m as int) =~= b@.subrange(i as int, i + m));
            assert(rest.skip(m as int) =~= b@.skip(i + m));
            let ghost out0 = out@;
            let mut k: usize = 0;
            while k < q.len()
                invariant
                    k <= q@.len(),
                    out@ == out0 + q@.take(k as int),
                decreases q@.len() - k,
            {
                out.push(q[k]);
                assert(q@.take(k + 1) =~= q@.take(k as int).push(q@[k as int]));
                k = k + 1;
            }
            assert(q@.take(q@.len() as int) =~= q@);
            assert(out0 + (q@ + replace_seq(b@.skip(i + m), p@, q@))
                =~= out@ + replace_seq(b@.skip(i + m), p@, q@));
            i = i + m;
        } else {
            assert(rest.skip(1) =~= b@.skip(i + 1));
            if m <= n - i {
                assert(rest.take(m as int) =~= b@.subrange(i as int, i + m));
            } else {
                assert(rest =~= seq![b@[i as int]] + b@.skip(i + 1));
            }
            let ghost out0 = out@;
            out.push(b[i]);
            assert(out0 + (seq![b@[i as int]] + replace_seq(b@.skip(i + 1), p@, q@))
                =~= out@ + replace_seq(b@.skip(i + 1), p@, q@));
            i = i + 1;
        }
    }
    assert(b@.skip(n as int) =~= Seq::<u8>::empty());
    assert(out@ + Seq::<u8>::empty() =~= out@);
    out
}

/// A run of continuation bytes cannot start an occurrence of a pattern that
/// starts with another byte, so it passes through a replacement unchanged.
proof fn lemma_replace_continuations(t: Seq<u8>, pat: Seq<u8>, rep: Seq<u8>, n: int)
    requires
        pat.len() > 0,
        !is_continuation_byte(pat[0]),
        0 <= n <= t.len(),
        forall|i: int| 0 <= i < n ==> is_continuation_byte(#[trigger] t[i]),
    ensures
        replace_seq(t, pat, rep) == t.take(n) + replace_seq(t.skip(n), pat, rep),
    decreases n,
{
    if n == 0 {
        assert(t.skip(0) =~= t);
        assert(t.take(0) + t =~= t);
    } else if t.len() < pat.len() {
        assert(t.take(n) + t.skip(n) =~= t);
    } else {
        assert(t.take(pat.len() as int)[0] == t[0]);
        let rest = t.skip(1);
        assert forall|i: int| 0 <= i < n - 1 implies is_continuation_byte(#[trigger] rest[i]) by {
            assert(rest[i] == t[i + 1]);
        }
        lemma_replace_continuations(rest, pat, rep, n - 1);
        assert(rest.skip(n - 1) =~= t.skip(n));
        assert(seq![t[0]] + rest.take(n - 1) =~= t.take(n));
        assert(seq![t[0]] + (rest.take(n - 1) + replace_seq(t.skip(n), pat, rep))
            =~= t.take(n) + replace_seq(t.skip(n), pat, rep));
    }
}

/// Replacing a valid UTF-8 pattern by valid UTF-8 text, in valid UTF-8 text,
/// gives valid UTF-8: an occurrence of the pattern can only start where a
/// character starts.
pub proof fn lemma_replace_valid_utf8(s: Seq<u8>, pat: Seq<u8>, rep: Seq<u8>)
    requires
        valid_utf8(s),
        valid_utf8(pat),
        valid_utf8(rep),
        pat.len() > 0,
    ensures
        valid_utf8(replace_seq(s, pat, rep)),
    decreases s.len(),
{
    if s.len() < pat.len() {
    } else if s.take(pat.len() as int) == pat {
        let rest = s.skip(pat.len() as int);
        assert(s.subrange(0, pat.len() as int) == pat);
        assert(rest == s.subrange(pat.len() as int, s.len() as int));
        if !valid_utf8(rest) {
            partial_valid_partial_invalid_utf8(s, pat.len() as int);
        }
        lemma_replace_valid_utf8(rest, pat, rep);
        valid_utf8_concat(rep, replace_seq(rest, pat, rep));
    } else {
        assert(valid_first_scalar(pat));
        assert(!is_continuation_byte(pat[0]));
        assert(valid_first_scalar(s));
        let w = length_of_first_scalar(s);
        assert(1 <= w <= 4 && w <= s.len());
        assert(forall|i: int| 1 <= i < w ==> is_continuation_byte(#[trigger] s[i]));
        let rest = s.skip(1);
        assert forall|i: int| 0 <= i < w - 1 implies is_continuation_byte(#[trigger] rest[i]) by {
            assert(rest[i] == s[i + 1]);
        }
        lemma_replace_continuations(rest, pat, rep, w - 1);
        assert(rest.skip(w - 1) =~= s.skip(w));
        assert(seq![s[0]] + rest.take(w - 1) =~= s.take(w));
        assert(replace_seq(s, pat, rep) =~= s.take(w) + replace_seq(s.skip(w), pat, rep));
        assert(s.skip(w) == pop_first_scalar(s));
        assert(valid_utf8(s.take(w))) by {
            reveal_with_fuel(valid_utf8, 2);
            assert(pop_first_scalar(s.take(w)) =~= Seq::<u8>::empty());
        }
        lemma_replace_valid_utf8(s.skip(w), pat, rep);
        valid_utf8_concat(s.take(w), replace_seq(s.skip(w), pat, rep));
    }
}

/// `pat` occurs in `s` at position `i`.
pub open spec fn pattern_at(s: Seq<u8>, i: int, pat: Seq<u8>) -> bool {
    0 <= i && i + pat.len() <= s.len() && s.subrange(i, i + pat.len()) == pat
}

/// Text in which the pattern does not occur comes out of a replacement as it
/// went in.
pub proof fn lemma_replace_no_occurrence(s: Seq<u8>, pat: Seq<u8>, rep: Seq<u8>)
    requires
        forall|i: int| 0 <= i < s.len() ==> !#[trigger] pattern_at(s, i, pat),
    ensures
        replace_seq(s, pat, rep) == s,
    decreases s.len(),
{
    if pat.len() == 0 || s.len() < pat.len() {
    } else {
        assert(s.take(pat.len() as int) == s.subrange(0, pat.len() as int));
        assert(!pattern_at(s, 0, pat));
        let rest = s.skip(1);
        assert forall|i: int| 0 <= i < rest.len() implies !#[trigger] pattern_at(rest, i, pat) by {
            if pattern_at(rest, i, pat) {
                assert(s.subrange(i + 1, i + 1 + pat.len()) =~= rest.subrange(i, i + pat.len()));
                assert(pattern_at(s, i + 1, pat));
            }
        }
        lemma_replace_no_occurrence(rest, pat, rep);
        assert(seq![s[0]] + rest =~= s);
    }
}

/// The text before the first occurrence of the pattern is kept as it is, the
/// occurrence is replaced, and the replacement goes on after it: when `pat`
/// does not occur in `a + pat + b` before the end of `a`, the result is
/// `a + rep` followed by the replacement of `b`.
pub proof fn lemma_replace_first_occurrence(a: Seq<u8>, b: Seq<u8>, pat: Seq<u8>, rep: Seq<u8>)
    requires
        pat.len() > 0,
        forall|i: int| 0 <= i < a.len() ==> !#[trigger] pattern_at(a + pat + b, i, pat),
    ensures
        replace_seq(a + pat + b, pat, rep) == a + rep + replace_seq(b, pat, rep),
    decreases a.len(),
{
    let s = a + pat + b;
    if a.len() == 0 {
        assert(s =~= pat + b);
        assert(s.take(pat.len() as int) =~= pat);
        assert(s.skip(pat.len() as int) =~= b);
        assert(a + rep =~= rep);
    } else {
        assert(!pattern_at(s, 0, pat));
        assert(s.take(pat.len() as int) == s.subrange(0, pat.len() as int));
        let a1 = a.skip(1);
        assert(s.skip(1) =~= a1 + pat + b);
        assert forall|i: int| 0 <= i < a1.len() implies !#[trigger] pattern_at(a1 + pat + b, i, pat) by {
            if pattern_at(a1 + pat + b, i, pat) {
                assert(s.subrange(i + 1, i + 1 + pat.len()) =~= (a1 + pat + b).subrange(i, i + pat.len()));
                assert(pattern_at(s, i + 1, pat));
            }
        }
        lemma_replace_first_occurrence(a1, b, pat, rep);
        assert(seq![s[0]] + (a1 + rep + replace_seq(b, pat, rep)) =~= a + rep + replace_seq(b, pat, rep));
    }
}

/// A name in which the pattern occurs only at its end keeps all the rest:
/// `a + pat` becomes `a + rep`.
pub proof fn lemma_replace_suffix_only(a: Seq<u8>, pat: Seq<u8>, rep: Seq<u8>)
    requires
        pat.len() > 0,
        forall|i: int| 0 <= i < a.len() ==> !#[trigger] pattern_at(a + pat, i, pat),
    ensures
        replace_seq(a + pat, pat, rep) == a + rep,
{
    let e = Seq::<u8>::empty();
    assert(a + pat + e =~= a + pat);
    lemma_replace_first_occurrence(a, e, pat, rep);
    assert(replace_seq(e, pat, rep) == e);
    assert(a + rep + e =~= a + rep);
}

/// Replacing a pattern by itself changes nothing.
pub proof fn lemma_replace_by_itself(s: Seq<u8>, pat: Seq<u8>)
    ensures
        replace_seq(s, pat, pat) == s,
    decreases s.len(),
{
    if pat.len() == 0 || s.len() < pat.len() {
    } else if s.take(pat.len() as int) == pat {
        lemma_replace_by_itself(s.skip(pat.len() as int), pat);
        assert(pat + s.skip(pat.len() as int) =~= s);
    } else {
        lemma_replace_by_itself(s.skip(1), pat);
        assert(seq![s[0]] + s.skip(1) =~= s);
    }
}

/// A cake file's name, with its ".edf" replaced, ends in the replacement:
/// the output names of the program end in `_fluosub.edf` and `_fluosub.xy`.
pub proof fn lemma_output_name_suffix(s: Seq<u8>, rep: Seq<u8>)
    requires
        ends_with(s, edf_suffix()),
    ensures
        ends_with(replace_seq(s, edf_suffix(), rep), rep),
    decreases s.len(),
{
    let p = edf_suffix();
    let n = s.len() as int;
    assert(s.subrange(n - 4, n) == p);
    assert(s[n - 4] == 46u8 && s[n - 3] == 101u8 && s[n - 2] == 100u8 && s[n - 1] == 102u8) by {
        assert(s.subrange(n - 4, n)[0] == s[n - 4]);
        assert(s.subrange(n - 4, n)[1] == s[n - 3]);
        assert(s.subrange(n - 4, n)[2] == s[n - 2]);
        assert(s.subrange(n - 4, n)[3] == s[n - 1]);
    }
    if s.take(4) == p {
        assert(s[0] == 46u8 && s[1] == 101u8 && s[2] == 100u8 && s[3] == 102u8) by {
            assert(s.take(4)[0] == s[0]);
            assert(s.take(4)[1] == s[1]);
            assert(s.take(4)[2] == s[2]);
            assert(s.take(4)[3] == s[3]);
        }
        let rest = s.skip(4);
        if n == 4 {
            assert(replace_seq(rest, p, rep) == rest);
            assert(rest =~= Seq::<u8>::empty());
            assert((rep + rest).subrange(0, rep.len() as int) =~= rep);
        } else {
            assert(n >= 8);
            assert(rest.subrange(rest.len() - 4, rest.len() as int) =~= s.subrange(n - 4, n));
            lemma_output_name_suffix(rest, rep);
            let x = replace_seq(rest, p, rep);
            assert((rep + x).subrange((rep + x).len() - rep.len(), (rep + x).len() as int)
                =~= x.subrange(x.len() - rep.len(), x.len() as int));
        }
    } else {
        if n == 4 {
            assert(s.take(4) =~= s.subrange(n - 4, n));
        }
        let rest = s.skip(1);
        assert(rest.subrange(rest.len() - 4, rest.len() as int) =~= s.subrange(n - 4, n));
        lemma_output_name_suffix(rest, rep);
        let x = replace_seq(rest, p, rep);
        let y = seq![s[0]] + x;
        assert(y.subrange(y.len() - rep.len(), y.len() as int) =~= x.subrange(x.len() - rep.len(), x.len() as int));
    }
}

} // verus!
