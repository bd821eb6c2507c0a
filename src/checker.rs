//! Classifying a name or a text as clean or as carrying unknown words.
use vstd::prelude::*;
use crate::dictionary::Dictionary;
use crate::segment::{join_words, lemma_segment_idempotent, segment, segment_of};
use crate::text::{lower_of, views};

verus! {

/// The words of `s` that the dictionary `d` (a set of lowercase words) does
/// not know.
pub open spec fn unknown_words(s: Seq<char>, d: Set<Seq<char>>) -> Set<Seq<char>> {
    Set::new(|w: Seq<char>| segment_of(s).contains(w) && !d.contains(lower_of(w)))
}

/// A text and its words joined by underscores have the same unknown words.
pub proof fn lemma_unknown_words_of_joined(s: Seq<char>, d: Set<Seq<char>>)
    ensures
        unknown_words(join_words(segment_of(s)), d) == unknown_words(s, d),
{
    lemma_segment_idempotent(s);
    assert(unknown_words(join_words(segment_of(s)), d) =~= unknown_words(s, d));
}

/// Whether `w` is one of the strings of `v`.
pub fn has_word(v: &Vec<String>, w: &String) -> (r: bool)
    ensures
        r == views(v@).contains(w@),
{
    let mut i: usize = 0;
    while i < v.len()
        invariant
            i <= v@.len(),
            forall|j: int| 0 <= j < i ==> v@[j]@ != w@,
        decreases v.len() - i,
    {
        if v[i] == *w {
            assert(views(v@)[i as int] == w@);
            return true;
        }
        i = i + 1;
    }
    assert forall|j: int| 0 <= j < views(v@).len() implies views(v@)[j] != w@ by {
        assert(views(v@)[j] == v@[j]@);
    }
    false
}

/// The unknown words of `text`, each once; empty exactly when every word
/// of `text` is known.
pub fn check(text: &str, dict: &Dictionary) -> (r: Vec<String>)
    ensures
        views(r@).to_set() == unknown_words(text@, dict@),
        views(r@).no_duplicates(),
        r@.len() == 0 <==> forall|j: int|
            0 <= j < segment_of(text@).len() ==> dict@.contains(#[trigger] lower_of(segment_of(text@)[j])),
{
    let words = segment(text);
    let ghost seg = segment_of(text@);
    let mut out: Vec<String> = Vec::new();
    let mut i: usize = 0;
    while i < words.len()
        invariant
            i <= words@.len(),
            views(words@) == seg,
            views(out@).no_duplicates(),
            forall|w: Seq<char>|
                views(out@).contains(w) <==> exists|j: int|
                    0 <= j < i && seg[j] == w && !dict@.contains(lower_of(w)),
        decreases words.len() - i,
    {
        let w = &words[i];
        assert(seg[i as int] == w@);
        if !dict.contains(w.as_str()) && !has_word(&out, w) {
            let ghost before = views(out@);
            out.push(w.clone());
            assert(views(out@) =~= before.push(w@));
            assert forall|x: Seq<char>|
                views(out@).contains(x) <==> exists|j: int|
                    0 <= j < i + 1 && seg[j] == x && !dict@.contains(lower_of(x)) by {
                if x == w@ {
                    assert(views(out@)[before.len() as int] == x);
                    assert(seg[i as int] == x && !dict@.contains(lower_of(x)));
                } else if views(out@).contains(x) {
                    let k = choose|k: int| 0 <= k < views(out@).len() && views(out@)[k] == x;
                    assert(before[k] == x);
                    assert(before.contains(x));
                    let j = choose|j: int| 0 <= j < i && seg[j] == x && !dict@.contains(lower_of(x));
                    assert(0 <= j < i + 1 && seg[j] == x && !dict@.contains(lower_of(x)));
                }
                if exists|j: int| 0 <= j < i + 1 && seg[j] == x && !dict@.contains(lower_of(x)) {
                    if x != w@ {
                        assert(exists|j: int| 0 <= j < i && seg[j] == x && !dict@.contains(lower_of(x)));
                        assert(before.contains(x));
                        let k = choose|k: int| 0 <= k < before.len() && before[k] == x;
                        assert(views(out@)[k] == x);
                    }
                }
            }
        } else {
            assert forall|x: Seq<char>|
                views(out@).contains(x) <==> exists|j: int|
                    0 <= j < i + 1 && seg[j] == x && !dict@.contains(lower_of(x)) by {
                if exists|j: int| 0 <= j < i + 1 && seg[j] == x && !dict@.contains(lower_of(x)) {
                    if x != w@ {
                        assert(exists|j: int| 0 <= j < i && seg[j] == x && !dict@.contains(lower_of(x)));
                    }
                }
            }
        }
        i = i + 1;
    }
    assert(views(out@).to_set() =~= unknown_words(text@, dict@)) by {
        assert forall|x: Seq<char>| unknown_words(text@, dict@).contains(x) implies views(out@).contains(x) by {
            let j = choose|j: int| 0 <= j < seg.len() && seg[j] == x;
        }
    }
    if out.len() == 0 {
        assert forall|j: int| 0 <= j < seg.len() implies dict@.contains(#[trigger] lower_of(seg[j])) by {
            if !dict@.contains(lower_of(seg[j])) {
                assert(!views(out@).contains(seg[j]));
            }
        }
    } else {
        assert(views(out@).contains(views(out@)[0]));
    }
    out
}

} // verus!
