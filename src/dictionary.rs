//! The set of known words.
use vstd::prelude::*;
use crate::text::{char_is_blank, chars_of, lower_of, lower_chars, is_blank, slice_chars};

verus! {

/// `w` without the blanks at its start.
pub open spec fn trim_start(w: Seq<char>) -> Seq<char>
    decreases w.len(),
{
    if w.len() > 0 && is_blank(w[0]) {
        trim_start(w.drop_first())
    } else {
        w
    }
}

/// `w` without the blanks at its end.
pub open spec fn trim_end(w: Seq<char>) -> Seq<char>
    decreases w.len(),
{
    if w.len() > 0 && is_blank(w.last()) {
        trim_end(w.drop_last())
    } else {
        w
    }
}

/// `w` without the blanks at either end; blanks inside stay.
pub open spec fn trim(w: Seq<char>) -> Seq<char> {
    trim_end(trim_start(w))
}

/// The pieces of `s` between the separators `sep`, from the piece that
/// starts at `start`, the characters before `i` being already read.
pub open spec fn pieces_from(s: Seq<char>, sep: char, start: int, i: int) -> Seq<Seq<char>>
    decreases s.len() - i,
{
    if i >= s.len() {
        seq![s.subrange(start, s.len() as int)]
    } else if s[i] == sep {
        seq![s.subrange(start, i)] + pieces_from(s, sep, i + 1, i + 1)
    } else {
        pieces_from(s, sep, start, i + 1)
    }
}

/// The pieces of `s` between the separators `sep`.
pub open spec fn pieces(s: Seq<char>, sep: char) -> Seq<Seq<char>> {
    pieces_from(s, sep, 0, 0)
}

/// The word that the piece `p` stands for: trimmed or as it is.
pub open spec fn piece_word(p: Seq<char>, trimmed: bool) -> Seq<char> {
    if trimmed {
        trim(p)
    } else {
        p
    }
}

/// The lowercase forms of the words that the pieces `ps` stand for, leaving out empty ones.
pub open spec fn folded_set(ps: Seq<Seq<char>>, trimmed: bool) -> Set<Seq<char>> {
    Set::new(
        |w: Seq<char>|
            exists|j: int|
                0 <= j < ps.len() && piece_word(ps[j], trimmed).len() > 0 && lower_of(
                    piece_word(ps[j], trimmed),
                ) == w,
    )
}

/// The words that the word list `s` makes known, lowercased: one word per
/// line, blanks at either end of a line ignored, empty lines skipped.
pub open spec fn list_words(s: Seq<char>) -> Set<Seq<char>> {
    folded_set(pieces(s, '\n'), true)
}

/// The words of the space-delimited string `s`, lowercased; empty pieces are
/// skipped.
pub open spec fn spaced_words(s: Seq<char>) -> Set<Seq<char>> {
    folded_set(pieces(s, ' '), false)
}

proof fn lemma_folded_set_append(a: Seq<Seq<char>>, b: Seq<Seq<char>>, t: bool)
    ensures
        folded_set(a + b, t) == folded_set(a, t).union(folded_set(b, t)),
{
    assert forall|w: Seq<char>| folded_set(a + b, t).contains(w) implies folded_set(a, t).union(
        folded_set(b, t),
    ).contains(w) by {
        let j = choose|j: int|
            0 <= j < (a + b).len() && piece_word((a + b)[j], t).len() > 0 && lower_of(
                piece_word((a + b)[j], t),
            ) == w;
        if j < a.len() {
            assert((a + b)[j] == a[j]);
        } else {
            assert((a + b)[j] == b[j - a.len()]);
        }
    }
    assert forall|w: Seq<char>| folded_set(a, t).union(folded_set(b, t)).contains(w) implies folded_set(
        a + b,
        t,
    ).contains(w) by {
        if folded_set(a, t).contains(w) {
            let j = choose|j: int|
                0 <= j < a.len() && piece_word(a[j], t).len() > 0 && lower_of(piece_word(a[j], t)) == w;
            assert((a + b)[j] == a[j]);
        } else {
            let j = choose|j: int|
                0 <= j < b.len() && piece_word(b[j], t).len() > 0 && lower_of(piece_word(b[j], t)) == w;
            assert((a + b)[j + a.len()] == b[j]);
        }
    }
    assert(folded_set(a + b, t) =~= folded_set(a, t).union(folded_set(b, t)));
}

proof fn lemma_folded_set_one(p: Seq<char>, t: bool)
    ensures
        folded_set(seq![p], t) == (if piece_word(p, t).len() > 0 {
            set![lower_of(piece_word(p, t))]
        } else {
            Set::<Seq<char>>::empty()
        }),
{
    assert(seq![p][0] == p);
    if piece_word(p, t).len() > 0 {
        assert(folded_set(seq![p], t) =~= set![lower_of(piece_word(p, t))]);
    } else {
        assert(folded_set(seq![p], t) =~= Set::<Seq<char>>::empty());
    }
}

/// The bounds of `cs[from..to]` without its blanks at either end.
fn trim_range(cs: &Vec<char>, from: usize, to: usize) -> (r: (usize, usize))
    requires
        from <= to <= cs@.len(),
    ensures
        from <= r.0 <= r.1 <= to,
        cs@.subrange(r.0 as int, r.1 as int) == trim(cs@.subrange(from as int, to as int)),
{
    let mut lo: usize = from;
    while lo < to && char_is_blank(cs[lo])
        invariant
            from <= lo <= to <= cs@.len(),
            trim_start(cs@.subrange(from as int, to as int)) == trim_start(
                cs@.subrange(lo as int, to as int),
            ),
        decreases to - lo,
    {
        assert(cs@.subrange(lo as int, to as int).drop_first() =~= cs@.subrange(lo + 1, to as int));
        lo = lo + 1;
    }
    if lo < to {
        assert(cs@.subrange(lo as int, to as int)[0] == cs@[lo as int]);
    }
    assert(trim_start(cs@.subrange(lo as int, to as int)) == cs@.subrange(lo as int, to as int));
    let mut hi: usize = to;
    while hi > lo && char_is_blank(cs[hi - 1])
        invariant
            lo <= hi <= to <= cs@.len(),
            trim_end(cs@.subrange(lo as int, to as int)) == trim_end(
                cs@.subrange(lo as int, hi as int),
            ),
        decreases hi - lo,
    {
        assert(cs@.subrange(lo as int, hi as int).drop_last() =~= cs@.subrange(lo as int, hi - 1));
        hi = hi - 1;
    }
    if hi > lo {
        assert(cs@.subrange(lo as int, hi as int).last() == cs@[hi - 1]);
    }
    (lo, hi)
}

/// The dictionary order on words: character by character, by code point,
/// a proper prefix first.
pub open spec fn lex_lt(a: Seq<char>, b: Seq<char>) -> bool
    decreases a.len(),
{
    if b.len() == 0 {
        false
    } else if a.len() == 0 {
        true
    } else if a[0] != b[0] {
        a[0] < b[0]
    } else {
        lex_lt(a.drop_first(), b.drop_first())
    }
}

/// The dictionary order is a strict total order.
pub proof fn lemma_lex_order(a: Seq<char>, b: Seq<char>, c: Seq<char>)
    ensures
        !lex_lt(a, a),
        lex_lt(a, b) && lex_lt(b, c) ==> lex_lt(a, c),
        a != b ==> lex_lt(a, b) || lex_lt(b, a),
    decreases a.len(),
{
    if a.len() > 0 && b.len() > 0 && c.len() > 0 {
        lemma_lex_order(a.drop_first(), b.drop_first(), c.drop_first());
        if a[0] == b[0] && a != b {
            assert(a == seq![a[0]] + a.drop_first());
            assert(b == seq![b[0]] + b.drop_first());
        }
    } else if a.len() > 0 && b.len() > 0 {
        lemma_lex_order(a.drop_first(), b.drop_first(), a.drop_first());
        if a[0] == b[0] && a != b {
            assert(a == seq![a[0]] + a.drop_first());
            assert(b == seq![b[0]] + b.drop_first());
        }
    } else if a.len() > 0 {
        lemma_lex_order(a.drop_first(), a.drop_first(), a.drop_first());
    } else if b.len() == 0 {
        assert(a =~= b);
    }
}

/// Whether `a` comes before `b` in the dictionary order.
pub fn lex_less(a: &Vec<char>, b: &Vec<char>) -> (r: bool)
    ensures
        r == lex_lt(a@, b@),
{
    let mut i: usize = 0;
    assert(a@.subrange(0, a@.len() as int) =~= a@);
    assert(b@.subrange(0, b@.len() as int) =~= b@);
    while i < a.len() && i < b.len() && a[i] == b[i]
        invariant
            i <= a@.len(),
            i <= b@.len(),
            lex_lt(a@, b@) == lex_lt(a@.subrange(i as int, a@.len() as int), b@.subrange(i as int, b@.len() as int)),
        decreases a.len() - i,
    {
        let ghost x = a@.subrange(i as int, a@.len() as int);
        let ghost y = b@.subrange(i as int, b@.len() as int);
        assert(x[0] == y[0]);
        assert(x.drop_first() =~= a@.subrange(i + 1, a@.len() as int));
        assert(y.drop_first() =~= b@.subrange(i + 1, b@.len() as int));
        i = i + 1;
    }
    let ghost x = a@.subrange(i as int, a@.len() as int);
    let ghost y = b@.subrange(i as int, b@.len() as int);
    if i == b.len() {
        false
    } else if i == a.len() {
        true
    } else {
        assert(x[0] == a@[i as int] && y[0] == b@[i as int]);
        a[i] < b[i]
    }
}

/// Whether the words `ws` are in strict dictionary order.
pub open spec fn strictly_sorted(ws: Seq<Vec<char>>) -> bool {
    forall|i: int, j: int| 0 <= i < j < ws.len() ==> lex_lt(ws[i]@, ws[j]@)
}

/// A set of known words, held lowercased so that lookups ignore case, each once
/// and in dictionary order so that a lookup is a binary search.
pub struct Dictionary {
    words: Vec<Vec<char>>,
}

impl View for Dictionary {
    type V = Set<Seq<char>>;

    /// The lowercase words that the dictionary holds.
    closed spec fn view(&self) -> Set<Seq<char>> {
        Set::new(|w: Seq<char>| exists|i: int| 0 <= i < self.words@.len() && self.words@[i]@ == w)
    }
}

impl Dictionary {
    #[verifier::type_invariant]
    closed spec fn sorted(&self) -> bool {
        strictly_sorted(self.words@)
    }

    /// The dictionary that knows no word.
    pub fn new() -> (r: Dictionary)
        ensures
            r@ == Set::<Seq<char>>::empty(),
    {
        let r = Dictionary { words: Vec::new() };
        assert(r@ =~= Set::<Seq<char>>::empty());
        r
    }

    /// Where `w` stands, or would stand, among the words: every word before
    /// that place comes before `w`, and none after it does.
    fn find(&self, w: &Vec<char>) -> (r: usize)
        ensures
            r <= self.words@.len(),
            forall|i: int| 0 <= i < r ==> lex_lt(#[trigger] self.words@[i]@, w@),
            forall|i: int| r <= i < self.words@.len() ==> !lex_lt(#[trigger] self.words@[i]@, w@),
    {
        proof {
            use_type_invariant(self);
        }
        let mut lo: usize = 0;
        let mut hi: usize = self.words.len();
        while lo < hi
            invariant
                lo <= hi <= self.words@.len(),
                strictly_sorted(self.words@),
                forall|i: int| 0 <= i < lo ==> lex_lt(#[trigger] self.words@[i]@, w@),
                forall|i: int| hi <= i < self.words@.len() ==> !lex_lt(#[trigger] self.words@[i]@, w@),
            decreases hi - lo,
        {
            let mid = lo + (hi - lo) / 2;
            let ghost m = self.words@[mid as int]@;
            if lex_less(&self.words[mid], w) {
                assert forall|i: int| 0 <= i < mid + 1 implies lex_lt(#[trigger] self.words@[i]@, w@) by {
                    if i < mid {
                        lemma_lex_order(self.words@[i]@, m, w@);
                    }
                }
                lo = mid + 1;
            } else {
                assert forall|i: int| mid <= i < self.words@.len() implies !lex_lt(
                    #[trigger] self.words@[i]@,
                    w@,
                ) by {
                    if i > mid {
                        lemma_lex_order(m, self.words@[i]@, w@);
                    }
                }
                hi = mid;
            }
        }
        lo
    }

    /// Whether the lowercase word `w` is one of the dictionary's words.
    pub fn contains_lowered(&self, w: &Vec<char>) -> (r: bool)
        ensures
            r == self@.contains(w@),
    {
        proof {
            use_type_invariant(self);
        }
        let p = self.find(w);
        if p < self.words.len() && !lex_less(w, &self.words[p]) {
            proof {
                lemma_lex_order(self.words@[p as int]@, w@, w@);
            }
            assert(self.words@[p as int]@ == w@);
            true
        } else {
            assert forall|i: int| 0 <= i < self.words@.len() implies self.words@[i]@ != w@ by {
                lemma_lex_order(w@, w@, w@);
                if i > p {
                    lemma_lex_order(w@, self.words@[p as int]@, self.words@[i]@);
                    lemma_lex_order(self.words@[p as int]@, w@, w@);
                }
            }
            false
        }
    }

    fn add_entry(&mut self, w: &Vec<char>)
        ensures
            final(self)@ == old(self)@.insert(lower_of(w@)),
    {
        proof {
            use_type_invariant(&*self);
        }
        let f = lower_chars(w);
        let p = self.find(&f);
        if p < self.words.len() && !lex_less(&f, &self.words[p]) {
            proof {
                lemma_lex_order(self.words@[p as int]@, f@, f@);
            }
            assert(self.words@[p as int]@ == f@);
            assert(self@ =~= old(self)@.insert(lower_of(w@)));
            return;
        }
        let ghost before = self.words@;
        assert forall|i: int| p <= i < before.len() implies lex_lt(f@, #[trigger] before[i]@) by {
            lemma_lex_order(f@, before[i]@, f@);
            if i > p {
                lemma_lex_order(f@, before[p as int]@, before[i]@);
            }
        }
        let mut taken = Dictionary::new();
        std::mem::swap(self, &mut taken);
        let mut ws = taken.words;
        assert(ws@ == before);
        ws.insert(p, f);
        assert(ws@ == before.insert(p as int, f));
        assert forall|i: int, j: int| 0 <= i < j < ws@.len() implies lex_lt(ws@[i]@, ws@[j]@) by {
            if j < p {
                assert(ws@[i] == before[i] && ws@[j] == before[j]);
            } else if j == p {
                assert(ws@[i] == before[i]);
            } else if i == p {
                assert(ws@[j] == before[j - 1]);
            } else if i < p {
                assert(ws@[i] == before[i] && ws@[j] == before[j - 1]);
            } else {
                assert(ws@[i] == before[i - 1] && ws@[j] == before[j - 1]);
            }
        }
        *self = Dictionary { words: ws };
        assert forall|x: Seq<char>| old(self)@.insert(lower_of(w@)).contains(x) implies self@.contains(x) by {
            if x != lower_of(w@) {
                let i = choose|i: int| 0 <= i < before.len() && before[i]@ == x;
                if i < p {
                    assert(self.words@[i] == before[i]);
                } else {
                    assert(self.words@[i + 1] == before[i]);
                }
            } else {
                assert(self.words@[p as int]@ == x);
            }
        }
        assert forall|x: Seq<char>| self@.contains(x) implies old(self)@.insert(lower_of(w@)).contains(x) by {
            let i = choose|i: int| 0 <= i < self.words@.len() && self.words@[i]@ == x;
            if i < p {
                assert(self.words@[i] == before[i]);
            } else if i > p {
                assert(self.words@[i] == before[i - 1]);
            }
        }
        assert(self@ =~= old(self)@.insert(lower_of(w@)));
    }

    /// Adds the words of the pieces of `list` between the separators `sep`,
    /// trimmed when `trimmed`.
    fn add_pieces(&mut self, list: &str, sep: char, trimmed: bool)
        ensures
            final(self)@ == old(self)@.union(folded_set(pieces(list@, sep), trimmed)),
    {
        let cs = chars_of(list);
        let ghost s = cs@;
        let ghost mut done: Seq<Seq<char>> = Seq::empty();
        let mut start: usize = 0;
        let mut i: usize = 0;
        assert(self@ =~= old(self)@.union(folded_set(done, trimmed)));
        loop
            invariant
                start <= i <= cs@.len(),
                s == cs@,
                s == list@,
                done + pieces_from(s, sep, start as int, i as int) == pieces(s, sep),
                self@ == old(self)@.union(folded_set(done, trimmed)),
            decreases cs@.len() - i,
        {
            let at_end = i >= cs.len();
            if at_end || cs[i] == sep {
                let ghost p = cs@.subrange(start as int, i as int);
                let w = if trimmed {
                    let (lo, hi) = trim_range(&cs, start, i);
                    slice_chars(&cs, lo, hi)
                } else {
                    slice_chars(&cs, start, i)
                };
                assert(w@ == piece_word(p, trimmed));
                proof {
                    lemma_folded_set_one(p, trimmed);
                    lemma_folded_set_append(done, seq![p], trimmed);
                    if !at_end {
                        assert(done + seq![p] + pieces_from(s, sep, i + 1, i + 1) =~= done
                            + pieces_from(s, sep, start as int, i as int));
                    } else {
                        assert(pieces_from(s, sep, start as int, i as int) == seq![p]);
                    }
                    done = done + seq![p];
                }
                if w.len() > 0 {
                    self.add_entry(&w);
                }
                assert(self@ =~= old(self)@.union(folded_set(done, trimmed)));
                if at_end {
                    assert(done == pieces(s, sep));
                    return;
                }
                start = i + 1;
            }
            i = i + 1;
        }
    }

    /// Adds the words of a word list: one word per line, blanks at either
    /// end of a line ignored, empty lines skipped.
    pub fn add_list(&mut self, list: &str)
        ensures
            final(self)@ == old(self)@.union(list_words(list@)),
    {
        self.add_pieces(list, '\n', true);
    }

    /// Adds the words of a string whose words are separated by spaces.
    pub fn add_spaced(&mut self, words: &str)
        ensures
            final(self)@ == old(self)@.union(spaced_words(words@)),
    {
        self.add_pieces(words, ' ', false);
    }

    /// A copy of this dictionary.
    pub fn copy(&self) -> (r: Dictionary)
        ensures
            r@ == self@,
    {
        proof {
            use_type_invariant(self);
        }
        let mut copy: Vec<Vec<char>> = Vec::new();
        let mut i: usize = 0;
        while i < self.words.len()
            invariant
                i <= self.words@.len(),
                copy@.len() == i,
                strictly_sorted(self.words@),
                forall|j: int| 0 <= j < i ==> copy@[j]@ == self.words@[j]@,
            decreases self.words.len() - i,
        {
            let w = slice_chars(&self.words[i], 0, self.words[i].len());
            assert(w@ =~= self.words@[i as int]@);
            copy.push(w);
            i = i + 1;
        }
        let r = Dictionary { words: copy };
        assert(r@ =~= self@) by {
            assert forall|x: Seq<char>| self@.contains(x) implies r@.contains(x) by {
                let j = choose|j: int| 0 <= j < self.words@.len() && self.words@[j]@ == x;
                assert(r.words@[j]@ == x);
            }
            assert forall|x: Seq<char>| r@.contains(x) implies self@.contains(x) by {
                let j = choose|j: int| 0 <= j < r.words@.len() && r.words@[j]@ == x;
                assert(self.words@[j]@ == x);
            }
        }
        r
    }

    /// A copy of this dictionary that also knows the words of the
    /// space-delimited string `extra`; this one is left as it is.
    pub fn extended(&self, extra: &str) -> (r: Dictionary)
        ensures
            r@ == self@.union(spaced_words(extra@)),
    {
        let mut r = self.copy();
        r.add_spaced(extra);
        r
    }

    /// Whether the dictionary knows `word`, whatever its case.
    pub fn contains(&self, word: &str) -> (r: bool)
        ensures
            r == self@.contains(lower_of(word@)),
    {
        let cs = chars_of(word);
        let f = lower_chars(&cs);
        self.contains_lowered(&f)
    }
}

/// Lookups ignore case: two words that lowercase alike are both known or both
/// unknown.
pub proof fn lemma_contains_ignores_case(d: Dictionary, a: Seq<char>, b: Seq<char>)
    requires
        lower_of(a) == lower_of(b),
    ensures
        d@.contains(lower_of(a)) == d@.contains(lower_of(b)),
{
}

/// Every line of a list added to a dictionary, trimmed, is then known in
/// any case that lowercases to it.
pub proof fn lemma_added_words_known(d: Set<Seq<char>>, list: Seq<char>, j: int, q: Seq<char>)
    requires
        0 <= j < pieces(list, '\n').len(),
        trim(pieces(list, '\n')[j]).len() > 0,
        lower_of(q) == lower_of(trim(pieces(list, '\n')[j])),
    ensures
        d.union(list_words(list)).contains(lower_of(q)),
{
}

} // verus!
