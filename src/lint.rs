//! The spelling lint over one crate: a dictionary loaded from word lists,
//! extended by the crate's own directive, and a report in source order.
use vstd::prelude::*;
use crate::collector::{collect, collected, Node};
use crate::dictionary::{list_words, spaced_words, Dictionary};
use crate::span_map::{reports, Misspelling};

verus! {

/// A word list that could not be read: which one, and why.
pub struct LoadError {
    pub source: String,
    pub cause: String,
}

impl View for LoadError {
    type V = (Seq<char>, Seq<char>);

    open spec fn view(&self) -> (Seq<char>, Seq<char>) {
        (self.source@, self.cause@)
    }
}

impl LoadError {
    /// A copy of this error.
    pub fn duplicate(&self) -> (r: LoadError)
        ensures
            r@ == self@,
    {
        LoadError { source: self.source.clone(), cause: self.cause.clone() }
    }
}

/// A crate-level attribute of the form `name = "value"`.
pub struct Attribute {
    pub name: String,
    pub value: String,
}

/// A parsed crate: its attributes and its nameable nodes.
pub struct Crate {
    pub attrs: Vec<Attribute>,
    pub nodes: Vec<Node>,
}

/// The crate that the parser handed over as attributes and nodes.
pub fn get_ast(attrs: Vec<Attribute>, nodes: Vec<Node>) -> (r: Crate)
    ensures
        r.attrs@ == attrs@,
        r.nodes@ == nodes@,
{
    Crate { attrs, nodes }
}

/// The name of the attribute whose value lists extra accepted words.
pub open spec fn extra_words_attr() -> Seq<char> {
    seq!['s', 'p', 'e', 'l', 'l', 'c', 'k', '_', 'e', 'x', 't', 'r', 'a', '_', 'w', 'o', 'r', 'd', 's']
}

/// The words (lowercased) that the crate's extra-words attributes accept.
pub open spec fn extra_words(attrs: Seq<Attribute>) -> Set<Seq<char>> {
    Set::new(
        |w: Seq<char>|
            exists|i: int|
                0 <= i < attrs.len() && attrs[i].name@ == extra_words_attr() && spaced_words(
                    attrs[i].value@,
                ).contains(w),
    )
}

/// The words that a list of word lists makes known, lowercased.
pub open spec fn sources_words(sources: Seq<Result<String, LoadError>>) -> Set<Seq<char>> {
    Set::new(
        |w: Seq<char>|
            exists|i: int|
                0 <= i < sources.len() && sources[i] is Ok && list_words(
                    sources[i]->Ok_0@,
                ).contains(w),
    )
}

fn is_extra_words_attr(name: &String) -> (r: bool)
    ensures
        r == (name@ == extra_words_attr()),
{
    let key = crate::text::string_of(
        &vec!['s', 'p', 'e', 'l', 'l', 'c', 'k', '_', 'e', 'x', 't', 'r', 'a', '_', 'w', 'o', 'r', 'd', 's'],
    );
    *name == key
}

/// The spelling lint: the dictionary of known words, or the error that
/// stopped it from loading.
pub struct Misspellings {
    words: Dictionary,
    loading_error: Option<LoadError>,
}

impl Misspellings {
    /// The words that the lint knows, lowercased.
    pub closed spec fn known(&self) -> Set<Seq<char>> {
        self.words@
    }

    /// The error met while loading, if any.
    pub closed spec fn load_error(&self) -> Option<LoadError> {
        self.loading_error
    }

    /// Loads the word lists in order. The first list that could not be read
    /// stops the loading, and its error is kept; otherwise the lint knows
    /// every word of every list.
    pub fn load(lists: Vec<Result<String, LoadError>>) -> (r: Misspellings)
        ensures
            r.load_error() is None <==> forall|i: int| 0 <= i < lists@.len() ==> lists@[i] is Ok,
            r.load_error() is None ==> r.known() == sources_words(lists@),
            r.load_error() matches Some(e) ==> exists|i: int|
                0 <= i < lists@.len() && (#[trigger] lists@[i] matches Err(f) && f@ == e@) && forall|j: int|
                    0 <= j < i ==> lists@[j] is Ok,
    {
        let ghost orig = lists@;
        let mut words = Dictionary::new();
        let mut i: usize = 0;
        assert(words@ =~= sources_words(orig.subrange(0, 0)));
        while i < lists.len()
            invariant
                lists@ == orig,
                i <= orig.len(),
                forall|j: int| 0 <= j < i ==> orig[j] is Ok,
                words@ == sources_words(orig.subrange(0, i as int)),
            decreases lists.len() - i,
        {
            let ghost before = words@;
            match &lists[i] {
                Ok(text) => {
                    words.add_list(text.as_str());
                },
                Err(e) => {
                    let err = e.duplicate();
                    assert(orig[i as int] matches Err(f) && f@ == err@);
                    return Misspellings { words, loading_error: Some(err) };
                },
            }
            assert(words@ =~= sources_words(orig.subrange(0, i + 1))) by {
                let s1 = orig.subrange(0, i + 1);
                assert forall|w: Seq<char>| words@.contains(w) implies sources_words(s1).contains(w) by {
                    if before.contains(w) {
                        let j = choose|j: int|
                            0 <= j < i && orig.subrange(0, i as int)[j] is Ok && list_words(
                                orig.subrange(0, i as int)[j]->Ok_0@,
                            ).contains(w);
                        assert(s1[j] == orig[j]);
                    } else {
                        assert(s1[i as int] == orig[i as int]);
                    }
                }
                assert forall|w: Seq<char>| sources_words(s1).contains(w) implies words@.contains(w) by {
                    let j = choose|j: int|
                        0 <= j < s1.len() && s1[j] is Ok && list_words(s1[j]->Ok_0@).contains(w);
                    if j < i {
                        assert(orig.subrange(0, i as int)[j] == s1[j]);
                    }
                }
            }
            i = i + 1;
        }
        assert(orig.subrange(0, i as int) =~= orig);
        Misspellings { words, loading_error: None }
    }

    /// Checks the crate: with the words of its extra-words attributes added
    /// to a copy of the dictionary, checks every nameable node (only the
    /// visible ones when `exported_only`) and reports the spans with unknown
    /// words in source order. Fails, checking nothing, when the dictionary
    /// did not load.
    pub fn check_crate(&self, krate: &Crate, exported_only: bool) -> (r: Result<
        Vec<Misspelling>,
        LoadError,
    >)
        ensures
            r is Err <==> self.load_error() is Some,
            r matches Err(e) ==> e@ == self.load_error()->0@,
            r matches Ok(v) ==> reports(
                v@,
                collected(
                    krate.nodes@,
                    self.known().union(extra_words(krate.attrs@)),
                    exported_only,
                    krate.nodes@.len() as int,
                ),
            ),
    {
        match &self.loading_error {
            Some(e) => {
                return Err(e.duplicate());
            },
            None => {},
        }
        let mut dict = self.words.copy();
        assert(self.words@.union(extra_words(krate.attrs@.subrange(0, 0))) =~= self.words@);
        let mut i: usize = 0;
        while i < krate.attrs.len()
            invariant
                i <= krate.attrs@.len(),
                dict@ == self.words@.union(extra_words(krate.attrs@.subrange(0, i as int))),
            decreases krate.attrs.len() - i,
        {
            let a = &krate.attrs[i];
            let ghost before = dict@;
            if is_extra_words_attr(&a.name) {
                dict = dict.extended(a.value.as_str());
            }
            assert(dict@ =~= self.words@.union(extra_words(krate.attrs@.subrange(0, i + 1)))) by {
                let s0 = krate.attrs@.subrange(0, i as int);
                let s1 = krate.attrs@.subrange(0, i + 1);
                assert forall|w: Seq<char>| extra_words(s0).contains(w) implies extra_words(s1).contains(w) by {
                    let j = choose|j: int|
                        0 <= j < s0.len() && s0[j].name@ == extra_words_attr() && spaced_words(
                            s0[j].value@,
                        ).contains(w);
                    assert(s1[j] == s0[j]);
                }
                assert forall|w: Seq<char>| extra_words(s1).contains(w) implies before.contains(w) || (
                a.name@ == extra_words_attr() && spaced_words(a.value@).contains(w)) by {
                    let j = choose|j: int|
                        0 <= j < s1.len() && s1[j].name@ == extra_words_attr() && spaced_words(
                            s1[j].value@,
                        ).contains(w);
                    if j < i {
                        assert(s0[j] == s1[j]);
                    }
                }
                if a.name@ == extra_words_attr() {
                    assert forall|w: Seq<char>| spaced_words(a.value@).contains(w) implies extra_words(
                        s1,
                    ).contains(w) by {
                        assert(s1[i as int] == *a);
                    }
                }
            }
            i = i + 1;
        }
        assert(krate.attrs@.subrange(0, i as int) =~= krate.attrs@);
        let map = collect(&krate.nodes, &dict, exported_only);
        Ok(map.report())
    }
}

/// Whether any file so far had mistakes: those before, or this report.
pub fn had_mistakes(before: bool, report: &Vec<Misspelling>) -> (r: bool)
    ensures
        r == (before || report@.len() > 0),
{
    before || report.len() > 0
}

} // verus!
