//! Splitting identifiers and free text into words.
use vstd::prelude::*;
use crate::text::{
    char_is_digit, char_is_lower, char_is_sep, char_is_upper, chars_of, is_digit, is_lower, is_sep,
    is_upper, slice_chars, string_of, views,
};

verus! {

/// Whether a word ends between `s[i - 1]` and `s[i]`: next to a separator,
/// at a small-to-capital step, where a digit run starts or ends, and before
/// the last capital of a capital run that a small letter follows
/// (`HTTPServer` splits as `HTTP`, `Server`).
pub open spec fn boundary(s: Seq<char>, i: int) -> bool {
    ||| is_sep(s[i - 1])
    ||| is_sep(s[i])
    ||| (is_lower(s[i - 1]) && is_upper(s[i]))
    ||| (is_digit(s[i - 1]) != is_digit(s[i]))
    ||| (i + 1 < s.len() && is_upper(s[i - 1]) && is_upper(s[i]) && is_lower(s[i + 1]))
}

/// Whether a run between two boundaries is a word worth checking: not empty,
/// not a separator, and not a lone digit.
pub open spec fn kept(w: Seq<char>) -> bool {
    &&& w.len() > 0
    &&& !is_sep(w[0])
    &&& !(w.len() == 1 && is_digit(w[0]))
}

/// The run `w` as a word, if it is kept.
pub open spec fn emit(w: Seq<char>) -> Seq<Seq<char>> {
    if kept(w) {
        seq![w]
    } else {
        Seq::empty()
    }
}

/// The words of `s` from the run that starts at `start`, the boundaries
/// before `i` being already decided.
pub open spec fn runs_from(s: Seq<char>, start: int, i: int) -> Seq<Seq<char>>
    decreases s.len() - i,
{
    if i >= s.len() {
        emit(s.subrange(start, s.len() as int))
    } else if boundary(s, i) {
        emit(s.subrange(start, i)) + runs_from(s, i, i + 1)
    } else {
        runs_from(s, start, i + 1)
    }
}

/// The words of `s`, in order: the runs between boundaries that are kept.
pub open spec fn segment_of(s: Seq<char>) -> Seq<Seq<char>> {
    if s.len() == 0 {
        Seq::empty()
    } else {
        runs_from(s, 0, 1)
    }
}

/// The words `ws` joined by underscores.
pub open spec fn join_words(ws: Seq<Seq<char>>) -> Seq<char>
    decreases ws.len(),
{
    if ws.len() == 0 {
        Seq::empty()
    } else if ws.len() == 1 {
        ws[0]
    } else {
        join_words(ws.drop_last()) + seq!['_'] + ws.last()
    }
}

/// Runs in the tail `b` of `p + b` are the runs of `b` alone.
proof fn lemma_runs_shift(p: Seq<char>, b: Seq<char>, st: int, i: int)
    requires
        0 <= st < i <= b.len(),
    ensures
        runs_from(p + b, p.len() + st, p.len() + i) == runs_from(b, st, i),
    decreases b.len() - i,
{
    let s = p + b;
    let k = p.len() as int;
    if i < b.len() {
        assert(s[k + i - 1] == b[i - 1] && s[k + i] == b[i]);
        if i + 1 < b.len() {
            assert(s[k + i + 1] == b[i + 1]);
        }
        assert(boundary(s, k + i) == boundary(b, i));
        assert(s.subrange(k + st, k + i) =~= b.subrange(st, i));
        lemma_runs_shift(p, b, st, i + 1);
        lemma_runs_shift(p, b, i, i + 1);
    } else {
        assert(s.subrange(k + st, s.len() as int) =~= b.subrange(st, b.len() as int));
    }
}

/// An underscore between `a` and `b` parts their words.
proof fn lemma_runs_concat(a: Seq<char>, b: Seq<char>, st: int, i: int)
    requires
        0 <= st < i <= a.len(),
    ensures
        runs_from(a + seq!['_'] + b, st, i) == runs_from(a, st, i) + segment_of(b),
    decreases a.len() - i,
{
    let s = a + seq!['_'] + b;
    let n = a.len() as int;
    assert(s[n] == '_');
    assert(is_sep('_'));
    if i < n {
        assert(s[i - 1] == a[i - 1] && s[i] == a[i]);
        if i + 1 < n {
            assert(s[i + 1] == a[i + 1]);
        }
        assert(boundary(s, i) == boundary(a, i));
        assert(s.subrange(st, i) =~= a.subrange(st, i));
        lemma_runs_concat(a, b, st, i + 1);
        lemma_runs_concat(a, b, i, i + 1);
        assert(emit(a.subrange(st, i)) + runs_from(a, i, i + 1) + segment_of(b) =~= emit(
            a.subrange(st, i),
        ) + (runs_from(a, i, i + 1) + segment_of(b)));
    } else {
        assert(s.subrange(st, n) =~= a.subrange(st, n));
        assert(boundary(s, n));
        let u = s.subrange(n, n + 1);
        assert(u =~= seq!['_']);
        assert(emit(u) =~= Seq::<Seq<char>>::empty());
        if b.len() == 0 {
            assert(s.subrange(n, s.len() as int) =~= u);
            assert(segment_of(b) =~= Seq::<Seq<char>>::empty());
            assert(runs_from(s, n, n + 1) =~= segment_of(b));
        } else {
            assert(s[n + 1] == b[0]);
            assert(boundary(s, n + 1));
            let p = a + seq!['_'];
            assert(s =~= p + b);
            lemma_runs_shift(p, b, 0, 1);
            assert(runs_from(s, n + 1, n + 2) == segment_of(b));
            assert(runs_from(s, n, n + 1) == emit(u) + runs_from(s, n + 1, n + 2));
            assert(runs_from(s, n, n + 1) =~= segment_of(b));
        }
        assert(runs_from(s, st, n) == emit(s.subrange(st, n)) + runs_from(s, n, n + 1));
        assert(runs_from(a, st, n) == emit(a.subrange(st, n)));
        assert(runs_from(s, st, i) =~= runs_from(a, st, i) + segment_of(b));
    }
}

/// A kept run with no boundary inside is a single word.
proof fn lemma_single_word(w: Seq<char>, i: int)
    requires
        kept(w),
        1 <= i <= w.len(),
        forall|j: int| 1 <= j < w.len() ==> !boundary(w, j),
    ensures
        runs_from(w, 0, i) == seq![w],
    decreases w.len() - i,
{
    if i < w.len() {
        lemma_single_word(w, i + 1);
    } else {
        assert(w.subrange(0, w.len() as int) =~= w);
    }
}

/// A run `s[st..en]` with no boundary inside segments to itself.
proof fn lemma_piece(s: Seq<char>, st: int, en: int)
    requires
        0 <= st < en <= s.len(),
        forall|j: int| st < j < en ==> !boundary(s, j),
        kept(s.subrange(st, en)),
    ensures
        segment_of(s.subrange(st, en)) == seq![s.subrange(st, en)],
{
    let w = s.subrange(st, en);
    assert forall|j: int| 1 <= j < w.len() implies !boundary(w, j) by {
        assert(w[j - 1] == s[st + j - 1] && w[j] == s[st + j]);
        if j + 1 < w.len() {
            assert(w[j + 1] == s[st + j + 1]);
        }
        assert(!boundary(s, st + j));
    }
    lemma_single_word(w, 1);
}

/// Each word that segmentation yields is kept, and segments to itself.
proof fn lemma_runs_words(s: Seq<char>, start: int, i: int)
    requires
        0 <= start < i <= s.len(),
        forall|j: int| start < j < i ==> !boundary(s, j),
    ensures
        forall|k: int|
            0 <= k < runs_from(s, start, i).len() ==> kept(#[trigger] runs_from(s, start, i)[k])
                && segment_of(runs_from(s, start, i)[k]) == seq![runs_from(s, start, i)[k]],
    decreases s.len() - i,
{
    if i >= s.len() {
        let w = s.subrange(start, s.len() as int);
        assert(runs_from(s, start, i) == emit(w));
        if kept(w) {
            lemma_piece(s, start, s.len() as int);
            assert(emit(w)[0] == w);
        }
    } else if boundary(s, i) {
        if kept(s.subrange(start, i)) {
            lemma_piece(s, start, i);
        }
        lemma_runs_words(s, i, i + 1);
        let head = emit(s.subrange(start, i));
        let tail = runs_from(s, i, i + 1);
        assert(runs_from(s, start, i) == head + tail);
        assert forall|k: int| 0 <= k < (head + tail).len() implies kept(#[trigger] (head + tail)[k])
            && segment_of((head + tail)[k]) == seq![(head + tail)[k]] by {
            if k >= head.len() {
                assert((head + tail)[k] == tail[k - head.len()]);
            } else {
                assert(head[0] == s.subrange(start, i));
            }
        }
    } else {
        lemma_runs_words(s, start, i + 1);
        assert(runs_from(s, start, i) == runs_from(s, start, i + 1));
    }
}

proof fn lemma_join(ws: Seq<Seq<char>>)
    requires
        forall|k: int| 0 <= k < ws.len() ==> kept(#[trigger] ws[k]) && segment_of(ws[k]) == seq![ws[k]],
    ensures
        segment_of(join_words(ws)) == ws,
        ws.len() > 0 ==> join_words(ws).len() > 0,
    decreases ws.len(),
{
    if ws.len() == 0 {
    } else if ws.len() == 1 {
        assert(seq![ws[0]] =~= ws);
    } else {
        let init = ws.drop_last();
        assert forall|k: int| 0 <= k < init.len() implies kept(#[trigger] init[k]) && segment_of(
            init[k],
        ) == seq![init[k]] by {
            assert(init[k] == ws[k]);
        }
        lemma_join(init);
        let a = join_words(init);
        let last = ws.last();
        assert(kept(ws[ws.len() - 1]));
        lemma_runs_concat(a, last, 0, 1);
        assert(init + seq![last] =~= ws);
    }
}

/// Segmenting the words of a text, joined by underscores, gives those same
/// words again.
pub proof fn lemma_segment_idempotent(s: Seq<char>)
    ensures
        segment_of(join_words(segment_of(s))) == segment_of(s),
{
    if s.len() > 0 {
        lemma_runs_words(s, 0, 1);
    }
    lemma_join(segment_of(s));
}

fn is_boundary(cs: &Vec<char>, i: usize) -> (r: bool)
    requires
        0 < i < cs@.len(),
    ensures
        r == boundary(cs@, i as int),
{
    let a = cs[i - 1];
    let b = cs[i];
    if char_is_sep(a) || char_is_sep(b) {
        return true;
    }
    if char_is_lower(a) && char_is_upper(b) {
        return true;
    }
    if char_is_digit(a) != char_is_digit(b) {
        return true;
    }
    i < cs.len() - 1 && char_is_upper(a) && char_is_upper(b) && char_is_lower(cs[i + 1])
}

fn emit_into(out: &mut Vec<String>, cs: &Vec<char>, from: usize, to: usize)
    requires
        from <= to <= cs@.len(),
    ensures
        views(final(out)@) == views(old(out)@) + emit(cs@.subrange(from as int, to as int)),
{
    let w = slice_chars(cs, from, to);
    if w.len() > 0 && !char_is_sep(w[0]) && !(w.len() == 1 && char_is_digit(w[0])) {
        let s = string_of(&w);
        let ghost before = out@;
        out.push(s);
        assert(views(out@) =~= views(before) + seq![w@]);
    } else {
        assert(views(out@) =~= views(out@) + Seq::<Seq<char>>::empty());
    }
}

/// The words of the characters `cs`.
pub fn segment_chars(cs: &Vec<char>) -> (r: Vec<String>)
    ensures
        views(r@) == segment_of(cs@),
{
    let mut out: Vec<String> = Vec::new();
    if cs.len() == 0 {
        assert(views(out@) =~= Seq::<Seq<char>>::empty());
        return out;
    }
    let mut start: usize = 0;
    let mut i: usize = 1;
    assert(views(out@) =~= Seq::<Seq<char>>::empty());
    assert(views(out@) + runs_from(cs@, 0, 1) =~= segment_of(cs@));
    while i < cs.len()
        invariant
            0 <= start < i <= cs@.len(),
            views(out@) + runs_from(cs@, start as int, i as int) == segment_of(cs@),
        decreases cs.len() - i,
    {
        if is_boundary(cs, i) {
            let ghost before = views(out@);
            emit_into(&mut out, cs, start, i);
            assert(views(out@) + runs_from(cs@, i as int, i + 1) =~= before + runs_from(
                cs@,
                start as int,
                i as int,
            ));
            start = i;
        }
        i = i + 1;
    }
    let ghost before = views(out@);
    emit_into(&mut out, cs, start, cs.len());
    assert(views(out@) =~= before + runs_from(cs@, start as int, i as int));
    out
}

/// The words of `text`, in order, each with its case as written.
pub fn segment(text: &str) -> (r: Vec<String>)
    ensures
        views(r@) == segment_of(text@),
{
    let cs = chars_of(text);
    segment_chars(&cs)
}

} // verus!
