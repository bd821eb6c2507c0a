//! Unknown words gathered per source span.
use vstd::prelude::*;
use crate::checker::has_word;
use crate::text::views;

verus! {

/// A source range, `start` and `end` being offsets in one file.
#[derive(Clone, Copy, Debug, PartialEq, Eq, Structural)]
pub struct Span {
    pub start: usize,
    pub end: usize,
}

/// The report order: by start, then by end.
pub open spec fn span_before(a: Span, b: Span) -> bool {
    a.start < b.start || (a.start == b.start && a.end < b.end)
}

/// The report order is a strict total order on spans: no span before
/// itself, transitive, and of two different spans one comes first.
pub proof fn lemma_span_order(a: Span, b: Span, c: Span)
    ensures
        !span_before(a, a),
        span_before(a, b) && span_before(b, c) ==> span_before(a, c),
        a != b ==> (span_before(a, b) || span_before(b, a)),
        span_before(a, b) ==> !span_before(b, a),
{
}

/// Whether `a` reports before `b`.
pub fn precedes(a: &Span, b: &Span) -> (r: bool)
    ensures
        r == span_before(*a, *b),
{
    a.start < b.start || (a.start == b.start && a.end < b.end)
}

/// The unknown words found at one span.
pub struct Misspelling {
    pub span: Span,
    pub words: Vec<String>,
}

/// The words `ws` joined by a comma and a space.
pub open spec fn joined(ws: Seq<Seq<char>>) -> Seq<char>
    decreases ws.len(),
{
    if ws.len() == 0 {
        Seq::empty()
    } else if ws.len() == 1 {
        ws[0]
    } else {
        joined(ws.drop_last()) + seq![',', ' '] + ws.last()
    }
}

/// The text of a diagnostic for the words `ws`: the word list after
/// `misspelled word: `, or `misspelled words: ` when there is more than one.
pub open spec fn message_of(ws: Seq<Seq<char>>) -> Seq<char> {
    let head = seq!['m', 'i', 's', 's', 'p', 'e', 'l', 'l', 'e', 'd', ' ', 'w', 'o', 'r', 'd'];
    if ws.len() == 1 {
        head + seq![':', ' '] + joined(ws)
    } else {
        head + seq!['s', ':', ' '] + joined(ws)
    }
}

fn push_all(out: &mut Vec<char>, s: &String)
    ensures
        final(out)@ == old(out)@ + s@,
{
    let cs = crate::text::chars_of(s.as_str());
    let mut i: usize = 0;
    while i < cs.len()
        invariant
            i <= cs@.len(),
            cs@ == s@,
            out@ == old(out)@ + cs@.subrange(0, i as int),
        decreases cs.len() - i,
    {
        out.push(cs[i]);
        i = i + 1;
        assert(out@ =~= old(out)@ + cs@.subrange(0, i as int));
    }
    assert(cs@.subrange(0, i as int) =~= cs@);
}

impl Misspelling {
    /// The diagnostic for this span: its words, comma-separated, with
    /// `word` or `words` as their number asks.
    pub fn message(&self) -> (r: String)
        ensures
            r@ == message_of(views(self.words@)),
    {
        let mut out: Vec<char> = vec!['m', 'i', 's', 's', 'p', 'e', 'l', 'l', 'e', 'd', ' ', 'w', 'o', 'r', 'd'];
        let ghost head = out@;
        if self.words.len() != 1 {
            out.push('s');
        }
        out.push(':');
        out.push(' ');
        let ghost start = out@;
        let mut i: usize = 0;
        while i < self.words.len()
            invariant
                i <= self.words@.len(),
                out@ == start + joined(views(self.words@).subrange(0, i as int)),
            decreases self.words.len() - i,
        {
            let ghost ws = views(self.words@).subrange(0, i + 1);
            assert(ws.drop_last() =~= views(self.words@).subrange(0, i as int));
            if i > 0 {
                out.push(',');
                out.push(' ');
            }
            push_all(&mut out, &self.words[i]);
            assert(ws.last() == self.words@[i as int]@);
            if i == 0 {
                assert(joined(views(self.words@).subrange(0, 0)) =~= Seq::<char>::empty());
                assert(out@ =~= start + joined(ws));
            } else {
                assert(out@ =~= start + joined(ws));
            }
            i = i + 1;
        }
        assert(views(self.words@).subrange(0, i as int) =~= views(self.words@));
        assert(out@ =~= message_of(views(self.words@)));
        crate::text::string_of(&out)
    }
}

/// The words of a list of strings, as a set.
pub open spec fn word_set(v: Seq<String>) -> Set<Seq<char>> {
    views(v).to_set()
}

/// The map after the findings `ws` at span `k` are merged in: the union with
/// what was there; nothing changes when there is no finding.
pub open spec fn merge_spec(
    m: Map<Span, Set<Seq<char>>>,
    k: Span,
    ws: Set<Seq<char>>,
) -> Map<Span, Set<Seq<char>>> {
    if ws =~= Set::empty() {
        m
    } else if m.contains_key(k) {
        m.insert(k, m[k].union(ws))
    } else {
        m.insert(k, ws)
    }
}

/// Adds to `dst` the strings of `src` that it lacks.
pub fn add_words(dst: &mut Vec<String>, src: &Vec<String>)
    requires
        views(old(dst)@).no_duplicates(),
    ensures
        views(final(dst)@).no_duplicates(),
        word_set(final(dst)@) == word_set(old(dst)@).union(word_set(src@)),
{
    let mut i: usize = 0;
    while i < src.len()
        invariant
            i <= src@.len(),
            views(dst@).no_duplicates(),
            forall|w: Seq<char>|
                views(dst@).contains(w) <==> (views(old(dst)@).contains(w) || exists|j: int|
                    0 <= j < i && #[trigger] src@[j]@ == w),
        decreases src.len() - i,
    {
        let ghost before = views(dst@);
        let ghost w = src@[i as int]@;
        if !has_word(dst, &src[i]) {
            dst.push(src[i].clone());
            assert(views(dst@) =~= before.push(w));
        }
        assert forall|x: Seq<char>|
            views(dst@).contains(x) <==> (views(old(dst)@).contains(x) || exists|j: int|
                0 <= j < i + 1 && #[trigger] src@[j]@ == x) by {
            if x == w {
                assert(src@[i as int]@ == x);
                if !before.contains(x) {
                    assert(views(dst@)[before.len() as int] == x);
                }
            }
            if views(dst@).contains(x) && x != w {
                let k = choose|k: int| 0 <= k < views(dst@).len() && views(dst@)[k] == x;
                assert(before[k] == x);
            }
            if before.contains(x) {
                let k = choose|k: int| 0 <= k < before.len() && before[k] == x;
                assert(views(dst@)[k] == x);
            }
        }
        i = i + 1;
    }
    assert(word_set(dst@) =~= word_set(old(dst)@).union(word_set(src@))) by {
        assert forall|w: Seq<char>| word_set(src@).contains(w) implies views(dst@).contains(w) by {
            let j = choose|j: int| 0 <= j < views(src@).len() && views(src@)[j] == w;
            assert(src@[j]@ == w);
        }
        assert forall|w: Seq<char>| views(dst@).contains(w) && !views(old(dst)@).contains(w)
            implies word_set(src@).contains(w) by {
            let j = choose|j: int| 0 <= j < src@.len() && #[trigger] src@[j]@ == w;
            assert(views(src@)[j] == w);
        }
    }
}

/// The unknown words of one file, keyed by span.
pub struct MisspellingMap {
    entries: Vec<Misspelling>,
}

impl View for MisspellingMap {
    type V = Map<Span, Set<Seq<char>>>;

    /// Each span with findings, and the set of words found there.
    closed spec fn view(&self) -> Map<Span, Set<Seq<char>>> {
        Map::new(
            |k: Span| exists|i: int| 0 <= i < self.entries@.len() && self.entries@[i].span == k,
            |k: Span|
                Set::new(
                    |w: Seq<char>|
                        exists|i: int|
                            0 <= i < self.entries@.len() && self.entries@[i].span == k
                                && word_set(self.entries@[i].words@).contains(w),
                ),
        )
    }
}

impl MisspellingMap {
    /// Each span stands once, with a word list without repeats that is not
    /// empty.
    pub closed spec fn wf(&self) -> bool {
        &&& forall|i: int, j: int|
            0 <= i < j < self.entries@.len() ==> self.entries@[i].span != self.entries@[j].span
        &&& forall|i: int|
            0 <= i < self.entries@.len() ==> views(#[trigger] self.entries@[i].words@).no_duplicates()
                && self.entries@[i].words@.len() > 0
    }

    /// The map with no span.
    pub fn new() -> (r: MisspellingMap)
        ensures
            r.wf(),
            r@ == Map::<Span, Set<Seq<char>>>::empty(),
    {
        let r = MisspellingMap { entries: Vec::new() };
        assert(r@ =~= Map::<Span, Set<Seq<char>>>::empty());
        r
    }

    /// The number of spans with findings.
    pub fn len(&self) -> (r: usize)
        requires
            self.wf(),
        ensures
            r == self@.len(),
    {
        proof {
            self.lemma_len();
        }
        self.entries.len()
    }

    proof fn lemma_len(&self)
        requires
            self.wf(),
        ensures
            self@.dom().finite(),
            self@.len() == self.entries@.len(),
        decreases self.entries@.len(),
    {
        let spans = self.entries@.map_values(|e: Misspelling| e.span);
        assert(spans.no_duplicates()) by {
            assert forall|i: int, j: int| 0 <= i < spans.len() && 0 <= j < spans.len() && i != j
                implies spans[i] != spans[j] by {
                if i < j {
                } else {
                }
            }
        }
        spans.unique_seq_to_set();
        assert(self@.dom() =~= spans.to_set()) by {
            assert forall|k: Span| self@.dom().contains(k) implies spans.to_set().contains(k) by {
                let i = choose|i: int| 0 <= i < self.entries@.len() && self.entries@[i].span == k;
                assert(spans[i] == k);
            }
        }
    }

    fn find(&self, span: Span) -> (r: usize)
        ensures
            r <= self.entries@.len(),
            r < self.entries@.len() ==> self.entries@[r as int].span == span,
            r == self.entries@.len() ==> forall|j: int|
                0 <= j < self.entries@.len() ==> self.entries@[j].span != span,
    {
        let mut idx: usize = 0;
        while idx < self.entries.len()
            invariant
                idx <= self.entries@.len(),
                forall|j: int| 0 <= j < idx ==> self.entries@[j].span != span,
            decreases self.entries.len() - idx,
        {
            if self.entries[idx].span == span {
                return idx;
            }
            idx = idx + 1;
        }
        idx
    }

    /// Merges the findings `found` at `span` into the map: afterwards the
    /// span holds the union of what it held and `found`.
    pub fn merge(&mut self, span: Span, found: &Vec<String>)
        requires
            old(self).wf(),
        ensures
            final(self).wf(),
            final(self)@ == merge_spec(old(self)@, span, word_set(found@)),
    {
        if found.len() == 0 {
            assert(word_set(found@) =~= Set::empty());
            return;
        }
        assert(word_set(found@).contains(found@[0]@)) by {
            assert(views(found@)[0] == found@[0]@);
        }
        let ghost old_map = self@;
        let idx = self.find(span);
        if idx < self.entries.len() {
            let ghost old_entries = self.entries@;
            let ghost old_words = old_entries[idx as int].words@;
            add_words(&mut self.entries[idx].words, found);
            assert(self.entries@.len() == old_entries.len());
            assert forall|j: int| 0 <= j < self.entries@.len() && j != idx implies self.entries@[j]
                == old_entries[j] by {}
            assert(self.entries@[idx as int].span == span);
            assert(word_set(self.entries@[idx as int].words@) == word_set(old_words).union(
                word_set(found@),
            ));
            assert(self.entries@[idx as int].words@.len() > 0) by {
                assert(word_set(self.entries@[idx as int].words@).contains(found@[0]@));
            }
            assert(self@ =~= merge_spec(old_map, span, word_set(found@))) by {
                assert(old_map.contains_key(span)) by {
                    assert(old_entries[idx as int].span == span);
                }
                assert forall|k: Span| #[trigger] self@.contains_key(k) implies self@[k] =~= merge_spec(
                    old_map,
                    span,
                    word_set(found@),
                )[k] by {
                    assert forall|w: Seq<char>| self@[k].contains(w) implies merge_spec(
                        old_map,
                        span,
                        word_set(found@),
                    )[k].contains(w) by {
                        let i = choose|i: int|
                            0 <= i < self.entries@.len() && self.entries@[i].span == k
                                && word_set(self.entries@[i].words@).contains(w);
                        if i != idx {
                            assert(old_entries[i] == self.entries@[i]);
                        } else if word_set(old_words).contains(w) {
                            assert(old_entries[i].span == k);
                        }
                    }
                    assert forall|w: Seq<char>| merge_spec(old_map, span, word_set(found@))[k].contains(
                        w,
                    ) implies self@[k].contains(w) by {
                        if k == span && word_set(found@).contains(w) {
                            assert(word_set(self.entries@[idx as int].words@).contains(w));
                        } else {
                            let i = choose|i: int|
                                0 <= i < old_entries.len() && old_entries[i].span == k
                                    && word_set(old_entries[i].words@).contains(w);
                            if i != idx {
                                assert(old_entries[i] == self.entries@[i]);
                            } else {
                                assert(word_set(self.entries@[idx as int].words@).contains(w));
                            }
                        }
                    }
                }
                assert forall|k: Span| merge_spec(old_map, span, word_set(found@)).contains_key(k)
                    implies self@.contains_key(k) by {
                    if k != span {
                        let i = choose|i: int| 0 <= i < old_entries.len() && old_entries[i].span == k;
                        assert(self.entries@[i].span == k);
                    } else {
                        assert(self.entries@[idx as int].span == k);
                    }
                }
                assert forall|k: Span| self@.contains_key(k) implies merge_spec(
                    old_map,
                    span,
                    word_set(found@),
                ).contains_key(k) by {
                    let i = choose|i: int| 0 <= i < self.entries@.len() && self.entries@[i].span == k;
                    assert(old_entries[i].span == k);
                }
            }
        } else {
            let ghost old_entries = self.entries@;
            let mut ws: Vec<String> = Vec::new();
            assert(views(ws@) =~= Seq::<Seq<char>>::empty());
            add_words(&mut ws, found);
            assert(word_set(ws@) =~= word_set(found@)) by {
                assert(word_set(Seq::<String>::empty()) =~= Set::<Seq<char>>::empty());
            }
            assert(ws@.len() > 0) by {
                assert(word_set(ws@).contains(found@[0]@));
            }
            self.entries.push(Misspelling { span, words: ws });
            let ghost n = old_entries.len() as int;
            assert(self.entries@[n].span == span);
            assert forall|j: int| 0 <= j < n implies self.entries@[j] == old_entries[j] by {}
            assert(!old_map.contains_key(span));
            assert(self@ =~= merge_spec(old_map, span, word_set(found@))) by {
                assert forall|k: Span| #[trigger] self@.contains_key(k) implies self@[k] =~= merge_spec(
                    old_map,
                    span,
                    word_set(found@),
                )[k] by {
                    assert forall|w: Seq<char>| self@[k].contains(w) implies merge_spec(
                        old_map,
                        span,
                        word_set(found@),
                    )[k].contains(w) by {
                        let i = choose|i: int|
                            0 <= i < self.entries@.len() && self.entries@[i].span == k
                                && word_set(self.entries@[i].words@).contains(w);
                        if i < n {
                            assert(old_entries[i] == self.entries@[i]);
                        }
                    }
                    assert forall|w: Seq<char>| merge_spec(old_map, span, word_set(found@))[k].contains(
                        w,
                    ) implies self@[k].contains(w) by {
                        if k == span {
                            assert(word_set(self.entries@[n].words@).contains(w));
                        } else {
                            let i = choose|i: int|
                                0 <= i < old_entries.len() && old_entries[i].span == k
                                    && word_set(old_entries[i].words@).contains(w);
                            assert(old_entries[i] == self.entries@[i]);
                        }
                    }
                }
                assert forall|k: Span| merge_spec(old_map, span, word_set(found@)).contains_key(k)
                    implies self@.contains_key(k) by {
                    if k != span {
                        let i = choose|i: int| 0 <= i < old_entries.len() && old_entries[i].span == k;
                        assert(self.entries@[i].span == k);
                    }
                }
                assert forall|k: Span| self@.contains_key(k) implies merge_spec(
                    old_map,
                    span,
                    word_set(found@),
                ).contains_key(k) by {
                    let i = choose|i: int| 0 <= i < self.entries@.len() && self.entries@[i].span == k;
                    if i < n {
                        assert(old_entries[i].span == k);
                    }
                }
            }
        }
    }

    proof fn lemma_entry_view(&self, t: int)
        requires
            self.wf(),
            0 <= t < self.entries@.len(),
        ensures
            self@.contains_key(self.entries@[t].span),
            self@[self.entries@[t].span] == word_set(self.entries@[t].words@),
    {
        let k = self.entries@[t].span;
        assert(self@[k] =~= word_set(self.entries@[t].words@)) by {
            assert forall|w: Seq<char>| self@[k].contains(w) implies word_set(
                self.entries@[t].words@,
            ).contains(w) by {
                let i = choose|i: int|
                    0 <= i < self.entries@.len() && self.entries@[i].span == k && word_set(
                        self.entries@[i].words@,
                    ).contains(w);
                if i < t {
                } else if i > t {
                }
            }
        }
    }

    /// The findings in report order: by start, then by end, each span once
    /// with exactly the words found there.
    #[verifier::rlimit(100)]
    pub fn report(self) -> (r: Vec<Misspelling>)
        requires
            self.wf(),
        ensures
            reports(r@, self@),
    {
        proof {
            self.lemma_len();
        }
        let ghost orig = self.entries@;
        let ghost map = self@;
        assert forall|t: int| 0 <= t < orig.len() implies map.contains_key(#[trigger] orig[t].span)
            && map[orig[t].span] == word_set(orig[t].words@) by {
            self.lemma_entry_view(t);
        }
        let mut rest = self.entries;
        let mut out: Vec<Misspelling> = Vec::new();
        while rest.len() > 0
            invariant
                rest@ == orig.subrange(0, rest@.len() as int),
                out@.len() + rest@.len() == orig.len(),
                forall|j: int|
                    0 <= j < out@.len() ==> exists|t: int|
                        rest@.len() <= t < orig.len() && #[trigger] out@[j] == orig[t],
                forall|t: int|
                    rest@.len() <= t < orig.len() ==> exists|j: int|
                        0 <= j < out@.len() && out@[j] == #[trigger] orig[t],
                sorted_spans(out@),
                forall|i: int, j: int|
                    0 <= i < j < orig.len() ==> orig[i].span != orig[j].span,
            decreases rest@.len(),
        {
            let e = rest.pop().unwrap();
            let ghost m = rest@.len() as int;
            assert(e == orig[m]);
            assert forall|j: int| 0 <= j < out@.len() implies out@[j].span != e.span by {
                let t = choose|t: int| m + 1 <= t < orig.len() && out@[j] == orig[t];
                assert(orig[m].span != orig[t].span);
            }
            let ghost before = out@;
            let p = place(&mut out, e);
            assert forall|j: int| 0 <= j < out@.len() implies exists|t: int|
                rest@.len() <= t < orig.len() && #[trigger] out@[j] == orig[t] by {
                if j < p {
                    assert(out@[j] == before[j]);
                } else if j > p {
                    assert(out@[j] == before[j - 1]);
                } else {
                    assert(out@[j] == orig[m]);
                }
            }
            assert forall|t: int| rest@.len() <= t < orig.len() implies exists|j: int|
                0 <= j < out@.len() && out@[j] == #[trigger] orig[t] by {
                if t == m {
                    assert(out@[p as int] == orig[t]);
                } else {
                    let j = choose|j: int| 0 <= j < before.len() && before[j] == orig[t];
                    if j < p {
                        assert(out@[j] == orig[t]);
                    } else {
                        assert(out@[j + 1] == orig[t]);
                    }
                }
            }
        }
        assert forall|j: int| 0 <= j < out@.len() implies map.contains_key(#[trigger] out@[j].span)
            && word_set(out@[j].words@) == map[out@[j].span] && views(out@[j].words@).no_duplicates() by {
            let t = choose|t: int| 0 <= t < orig.len() && out@[j] == orig[t];
            assert(views(orig[t].words@).no_duplicates());
        }
        assert forall|k: Span| map.contains_key(k) implies exists|j: int|
            0 <= j < out@.len() && out@[j].span == k by {
            let t = choose|t: int| 0 <= t < orig.len() && orig[t].span == k;
            let j = choose|j: int| 0 <= j < out@.len() && out@[j] == orig[t];
            assert(out@[j].span == k);
        }
        out
    }
}

/// Whether `r` reports the map `m`: each span of `m` once, in report
/// order, with exactly the words found there and no word twice.
pub open spec fn reports(r: Seq<Misspelling>, m: Map<Span, Set<Seq<char>>>) -> bool {
    &&& m.dom().finite()
    &&& r.len() == m.len()
    &&& sorted_spans(r)
    &&& forall|j: int|
        0 <= j < r.len() ==> m.contains_key(#[trigger] r[j].span) && word_set(r[j].words@)
            == m[r[j].span] && views(r[j].words@).no_duplicates()
    &&& forall|k: Span| m.contains_key(k) ==> exists|j: int| 0 <= j < r.len() && r[j].span == k
}

/// Whether each entry reports before all that follow it.
pub open spec fn sorted_spans(s: Seq<Misspelling>) -> bool {
    forall|a: int, b: int| 0 <= a < b < s.len() ==> span_before(s[a].span, s[b].span)
}

/// Puts `e` in its place among the sorted entries `out`.
fn place(out: &mut Vec<Misspelling>, e: Misspelling) -> (p: usize)
    requires
        sorted_spans(old(out)@),
        forall|j: int| 0 <= j < old(out)@.len() ==> old(out)@[j].span != e.span,
    ensures
        p <= old(out)@.len(),
        final(out)@ == old(out)@.insert(p as int, e),
        sorted_spans(final(out)@),
{
    let p = slot(out, &e.span);
    let ghost before = out@;
    let ghost sp = e.span;
    assert forall|q: int| p <= q < before.len() implies span_before(sp, #[trigger] before[q].span) by {
        assert(before[p as int].span != sp);
        if q > p {
            assert(span_before(before[p as int].span, before[q].span));
        }
    }
    out.insert(p, e);
    assert forall|a: int, b: int| 0 <= a < b < out@.len() implies span_before(
        out@[a].span,
        out@[b].span,
    ) by {
        if b < p {
            assert(out@[a] == before[a]);
            assert(out@[b] == before[b]);
        } else if b == p {
            assert(out@[a] == before[a]);
        } else if a == p {
            assert(out@[b] == before[b - 1]);
        } else if a < p {
            assert(out@[a] == before[a]);
            assert(out@[b] == before[b - 1]);
        } else {
            assert(out@[a] == before[a - 1]);
            assert(out@[b] == before[b - 1]);
        }
    }
    p
}

/// The place where an entry at `span` goes in `out`: after every entry that
/// reports before it.
fn slot(out: &Vec<Misspelling>, span: &Span) -> (p: usize)
    ensures
        p <= out@.len(),
        forall|q: int| 0 <= q < p ==> span_before(#[trigger] out@[q].span, *span),
        p < out@.len() ==> !span_before(out@[p as int].span, *span),
{
    let mut p: usize = 0;
    while p < out.len()
        invariant
            p <= out@.len(),
            forall|q: int| 0 <= q < p ==> span_before(#[trigger] out@[q].span, *span),
        decreases out.len() - p,
    {
        if !precedes(&out[p].span, span) {
            return p;
        }
        p = p + 1;
    }
    p
}

/// Merging keeps every finding: what the span held and what was found.
pub proof fn lemma_merge_keeps_findings(
    m: Map<Span, Set<Seq<char>>>,
    k: Span,
    ws: Set<Seq<char>>,
    w: Seq<char>,
)
    requires
        ws.contains(w) || (m.contains_key(k) && m[k].contains(w)),
    ensures
        merge_spec(m, k, ws).contains_key(k),
        merge_spec(m, k, ws)[k].contains(w),
{
    if ws =~= Set::empty() {
        assert(!ws.contains(w));
    }
}

/// Two findings at one span merge to the same map in either order.
pub proof fn lemma_merge_commutes(
    m: Map<Span, Set<Seq<char>>>,
    k: Span,
    a: Set<Seq<char>>,
    b: Set<Seq<char>>,
)
    ensures
        merge_spec(merge_spec(m, k, a), k, b) == merge_spec(merge_spec(m, k, b), k, a),
{
    lemma_merge_union(m, k, a, b);
    lemma_merge_union(m, k, b, a);
    assert(a.union(b) =~= b.union(a));
}

/// Merging two findings one after the other is merging their union.
pub proof fn lemma_merge_union(
    m: Map<Span, Set<Seq<char>>>,
    k: Span,
    a: Set<Seq<char>>,
    b: Set<Seq<char>>,
)
    ensures
        merge_spec(merge_spec(m, k, a), k, b) == merge_spec(m, k, a.union(b)),
{
    if a =~= Set::empty() {
        assert(a.union(b) =~= b);
    } else if b =~= Set::empty() {
        assert(a.union(b) =~= a);
    } else {
        assert(!(a.union(b) =~= Set::empty())) by {
            let w = choose|w: Seq<char>| a.contains(w);
            assert(a.union(b).contains(w));
        }
        if m.contains_key(k) {
            assert(m[k].union(a).union(b) =~= m[k].union(a.union(b)));
        }
        assert(merge_spec(merge_spec(m, k, a), k, b) =~= merge_spec(m, k, a.union(b)));
    }
}

/// Merging three findings at one span gives the same map however the
/// findings are grouped.
pub proof fn lemma_merge_associative(
    m: Map<Span, Set<Seq<char>>>,
    k: Span,
    a: Set<Seq<char>>,
    b: Set<Seq<char>>,
    c: Set<Seq<char>>,
)
    ensures
        merge_spec(merge_spec(m, k, a), k, b.union(c)) == merge_spec(
            merge_spec(m, k, a.union(b)),
            k,
            c,
        ),
{
    lemma_merge_union(m, k, a, b.union(c));
    lemma_merge_union(m, k, a.union(b), c);
    assert(a.union(b.union(c)) =~= a.union(b).union(c));
}

} // verus!
