use spellck::checker::check;
use spellck::collector::{collect, Node, NodeKind};
use spellck::dictionary::Dictionary;
use spellck::lint::{get_ast, had_mistakes, Attribute, LoadError, Misspellings};
use spellck::segment::segment;
use spellck::span_map::{precedes, Misspelling, MisspellingMap, Span};
use spellck::text::lower_chars;

fn dict(words: &str) -> Dictionary {
    let mut d = Dictionary::new();
    d.add_list(words);
    d
}

fn strings(v: &[&str]) -> Vec<String> {
    v.iter().map(|s| s.to_string()).collect()
}

fn node(kind: NodeKind, start: usize, end: usize, text: &str, exported: bool) -> Node {
    Node { kind, span: Span { start, end }, text: text.to_string(), exported }
}

fn sorted(mut v: Vec<String>) -> Vec<String> {
    v.sort();
    v
}

#[test]
fn segment_splits_on_underscore() {
    assert_eq!(segment("foo_bar"), strings(&["foo", "bar"]));
}

#[test]
fn segment_splits_camel_case() {
    assert_eq!(segment("FooBarBaz"), strings(&["Foo", "Bar", "Baz"]));
}

#[test]
fn segment_keeps_acronym_apart() {
    assert_eq!(segment("HTTPServer"), strings(&["HTTP", "Server"]));
}

#[test]
fn segment_drops_lone_digit() {
    assert_eq!(segment("v2Beta"), strings(&["v", "Beta"]));
}

#[test]
fn segment_keeps_longer_numbers() {
    assert_eq!(segment("utf16_len"), strings(&["utf", "16", "len"]));
}

#[test]
fn segment_free_text() {
    assert_eq!(
        segment("Returns the first-line, or none."),
        strings(&["Returns", "the", "first", "line", "or", "none"])
    );
}

#[test]
fn segment_empty_and_separators_only() {
    assert!(segment("").is_empty());
    assert!(segment("__ - ,").is_empty());
}

#[test]
fn segment_keeps_single_letter() {
    assert_eq!(segment("x"), strings(&["x"]));
    assert_eq!(segment("aB"), strings(&["a", "B"]));
}

#[test]
fn segment_is_idempotent_on_joined_output() {
    for s in ["foo_bar", "FooBarBaz", "HTTPServer", "v2Beta", "parseURLQuery12x"] {
        let first = segment(s);
        let joined = first.join("_");
        assert_eq!(segment(&joined), first);
    }
}

#[test]
fn lower_chars_lowers_capitals() {
    let cs: Vec<char> = "HeLLo_9_ÄÉ".chars().collect();
    let expected: Vec<char> = "hello_9_äé".chars().collect();
    assert_eq!(lower_chars(&cs), expected);
}

#[test]
fn dictionary_membership_ignores_case() {
    let d = dict("Apple\n");
    assert!(d.contains("apple"));
    assert!(d.contains("APPLE"));
    assert!(d.contains("Apple"));
    assert!(!d.contains("apples"));
}

#[test]
fn dictionary_lists_trim_and_merge() {
    let mut d = dict("  foo \r\nbar\n\n");
    d.add_list("baz\nfoo");
    assert!(d.contains("foo"));
    assert!(d.contains("bar"));
    assert!(d.contains("baz"));
    assert!(!d.contains(""));
}

#[test]
fn dictionary_extension_leaves_base_alone() {
    let base = dict("foo");
    let ext = base.extended("bar qux");
    assert!(ext.contains("bar"));
    assert!(ext.contains("qux"));
    assert!(ext.contains("foo"));
    assert!(!base.contains("bar"));
}

#[test]
fn check_reports_unknown_words_once() {
    let d = dict("foo\nbar");
    assert_eq!(sorted(check("fooBzr_bzr_Qux", &d)), strings(&["Bzr", "Qux", "bzr"]));
    assert_eq!(check("Bzr_Bzr", &d), strings(&["Bzr"]));
}

#[test]
fn check_is_empty_iff_all_known() {
    let d = dict("valid\nname");
    assert!(check("validName", &d).is_empty());
    assert!(check("VALID_name", &d).is_empty());
    assert!(!check("validNames", &d).is_empty());
    assert!(check("", &d).is_empty());
}

#[test]
fn merge_same_span_is_union() {
    let sp = Span { start: 3, end: 8 };
    let mut a = MisspellingMap::new();
    a.merge(sp, &strings(&["foo"]));
    a.merge(sp, &strings(&["bar", "foo"]));
    let mut b = MisspellingMap::new();
    b.merge(sp, &strings(&["bar"]));
    b.merge(sp, &strings(&["foo"]));
    b.merge(sp, &strings(&[]));
    assert_eq!(a.len(), 1);
    let ra = a.report();
    let rb = b.report();
    assert_eq!(sorted(ra[0].words.clone()), strings(&["bar", "foo"]));
    assert_eq!(sorted(rb[0].words.clone()), strings(&["bar", "foo"]));
}

#[test]
fn empty_finding_adds_no_span() {
    let mut m = MisspellingMap::new();
    m.merge(Span { start: 1, end: 2 }, &Vec::new());
    assert_eq!(m.len(), 0);
    assert!(m.report().is_empty());
}

#[test]
fn report_orders_by_start_then_end() {
    assert!(precedes(&Span { start: 10, end: 20 }, &Span { start: 10, end: 25 }));
    assert!(!precedes(&Span { start: 10, end: 25 }, &Span { start: 10, end: 20 }));
    assert!(precedes(&Span { start: 5, end: 9 }, &Span { start: 10, end: 1 }));
    let mut m = MisspellingMap::new();
    m.merge(Span { start: 10, end: 25 }, &strings(&["c"]));
    m.merge(Span { start: 10, end: 1 }, &strings(&["b"]));
    m.merge(Span { start: 5, end: 9 }, &strings(&["a"]));
    m.merge(Span { start: 10, end: 20 }, &strings(&["d"]));
    let spans: Vec<(usize, usize)> =
        m.report().iter().map(|e| (e.span.start, e.span.end)).collect();
    assert_eq!(spans, vec![(5, 9), (10, 1), (10, 20), (10, 25)]);
}

#[test]
fn collect_skips_other_nodes_and_filters_visibility() {
    let d = dict("foo");
    let nodes = vec![
        node(NodeKind::Function, 0, 5, "fooBzr", false),
        node(NodeKind::Other, 6, 9, "zzz", true),
        node(NodeKind::Doc, 10, 20, "foo qqq", true),
    ];
    let all = collect(&nodes, &d, false).report();
    assert_eq!(all.len(), 2);
    assert_eq!(all[0].words, strings(&["Bzr"]));
    assert_eq!(all[1].words, strings(&["qqq"]));
    let public = collect(&nodes, &d, true).report();
    assert_eq!(public.len(), 1);
    assert_eq!(public[0].span, Span { start: 10, end: 20 });
}

#[test]
fn collect_merges_declaration_and_documentation() {
    let d = dict("foo");
    let nodes = vec![
        node(NodeKind::Type, 4, 9, "FooBar", true),
        node(NodeKind::Doc, 4, 9, "the foo", true),
    ];
    let r = collect(&nodes, &d, false).report();
    assert_eq!(r.len(), 1);
    assert_eq!(sorted(r[0].words.clone()), strings(&["Bar", "the"]));
}

#[test]
fn end_to_end_one_mistake() {
    let lint = Misspellings::load(vec![Ok("foo\nbar".to_string())]);
    let krate = get_ast(Vec::new(), vec![node(NodeKind::Function, 0, 7, "fooBzr", true)]);
    let r = lint.check_crate(&krate, false).ok().unwrap();
    assert_eq!(r.len(), 1);
    assert_eq!(r[0].span, Span { start: 0, end: 7 });
    assert_eq!(r[0].words, strings(&["Bzr"]));
    assert!(had_mistakes(false, &r));
}

#[test]
fn end_to_end_no_mistake() {
    let lint = Misspellings::load(vec![Ok("valid\nname".to_string())]);
    let krate = get_ast(Vec::new(), vec![node(NodeKind::Binding, 0, 9, "validName", true)]);
    let r = lint.check_crate(&krate, false).ok().unwrap();
    assert!(r.is_empty());
    assert!(!had_mistakes(false, &r));
    assert!(had_mistakes(true, &r));
}

#[test]
fn unreadable_list_stops_the_lint() {
    let err = LoadError { source: "/no/such/list".to_string(), cause: "not found".to_string() };
    let lint = Misspellings::load(vec![Ok("foo".to_string()), Err(err), Ok("bar".to_string())]);
    let krate = get_ast(Vec::new(), vec![node(NodeKind::Function, 0, 3, "qqq", true)]);
    match lint.check_crate(&krate, false) {
        Err(e) => {
            assert_eq!(e.source, "/no/such/list");
            assert_eq!(e.cause, "not found");
        }
        Ok(_) => panic!("expected a load error"),
    }
}

#[test]
fn extra_words_attribute_accepts_words() {
    let lint = Misspellings::load(vec![Ok("foo".to_string())]);
    let attrs = vec![
        Attribute { name: "spellck_extra_words".to_string(), value: "bzr Qux".to_string() },
        Attribute { name: "other".to_string(), value: "zap".to_string() },
    ];
    let krate = get_ast(
        attrs,
        vec![
            node(NodeKind::Function, 0, 7, "fooBzr", true),
            node(NodeKind::Field, 8, 12, "quxZap", true),
        ],
    );
    let r = lint.check_crate(&krate, false).ok().unwrap();
    assert_eq!(r.len(), 1);
    assert_eq!(r[0].words, strings(&["Zap"]));
}

#[test]
fn message_singular_and_plural() {
    let one = Misspelling { span: Span { start: 0, end: 1 }, words: strings(&["Bzr"]) };
    assert_eq!(one.message(), "misspelled word: Bzr");
    let two = Misspelling { span: Span { start: 0, end: 1 }, words: strings(&["Bzr", "qux", "zap"]) };
    assert_eq!(two.message(), "misspelled words: Bzr, qux, zap");
}

#[test]
fn dictionary_copy_knows_the_same_words() {
    let base = dict("Foo\nbar");
    let copy = base.copy();
    assert!(copy.contains("foo"));
    assert!(copy.contains("BAR"));
    assert!(!copy.contains("baz"));
}

#[test]
fn empty_dictionary_flags_every_word() {
    let d = Dictionary::new();
    assert!(!d.contains("a"));
    assert_eq!(check("aB", &d), strings(&["a", "B"]));
}

#[test]
fn word_list_keeps_one_word_per_line() {
    let d = dict("ice cream\n\tApple pie \r\nfoo");
    assert!(d.contains("ice cream"));
    assert!(d.contains("apple pie"));
    assert!(d.contains("foo"));
    assert!(!d.contains("ice"));
    assert!(!d.contains("cream"));
    assert!(!d.contains("pie"));
}

#[test]
fn extra_words_split_on_spaces_only() {
    let base = dict("foo");
    let ext = base.extended("bar  qux\tzap");
    assert!(ext.contains("bar"));
    assert!(ext.contains("qux\tzap"));
    assert!(!ext.contains("qux"));
    assert!(!ext.contains(""));
}

#[test]
fn load_keeps_whole_lines() {
    let lint = Misspellings::load(vec![Ok("a b\nfoo".to_string())]);
    let krate = get_ast(Vec::new(), vec![node(NodeKind::Function, 0, 5, "a_foo", true)]);
    let r = lint.check_crate(&krate, false).ok().unwrap();
    assert_eq!(r.len(), 1);
    assert_eq!(r[0].words, strings(&["a"]));
}

#[test]
fn segment_splits_on_wide_separators() {
    assert_eq!(segment("user\u{2019}s"), strings(&["user", "s"]));
    assert_eq!(segment("foo\u{2014}bar"), strings(&["foo", "bar"]));
    assert_eq!(segment("a\u{a0}b\u{d7}c"), strings(&["a", "b", "c"]));
    assert_eq!(segment("café_naïve"), strings(&["café", "naïve"]));
}

#[test]
fn lowercasing_covers_unicode_capitals() {
    let d = dict("Äpfel\nApple");
    assert!(d.contains("äpfel"));
    assert!(d.contains("ÄPFEL"));
    assert!(d.contains("APPLE"));
    let lint = Misspellings::load(vec![Ok("Äpfel".to_string())]);
    let krate = get_ast(Vec::new(), vec![node(NodeKind::Binding, 0, 5, "äpfel", true)]);
    assert!(lint.check_crate(&krate, false).ok().unwrap().is_empty());
}

#[test]
fn extra_words_lowercase_unicode() {
    let lint = Misspellings::load(vec![Ok("foo".to_string())]);
    let attrs = vec![Attribute { name: "spellck_extra_words".to_string(), value: "Äpfel".to_string() }];
    let krate = get_ast(attrs, vec![node(NodeKind::Binding, 0, 5, "äpfel", true)]);
    assert!(lint.check_crate(&krate, false).ok().unwrap().is_empty());
}

#[test]
fn word_list_lines_trim_unicode_white_space() {
    let d = dict("foo\u{0c}\n\u{a0}bar\u{3000}\n\u{2003}baz qux\u{85}");
    assert!(d.contains("foo"));
    assert!(d.contains("bar"));
    assert!(d.contains("baz qux"));
    assert!(!d.contains("foo\u{0c}"));
}

#[test]
fn segment_splits_before_unicode_capitals() {
    assert_eq!(segment("fooÉtat"), strings(&["foo", "État"]));
    assert_eq!(segment("ÉTATService"), strings(&["ÉTAT", "Service"]));
    assert_eq!(segment("日本語Name"), strings(&["日本語", "Name"]));
}

#[test]
fn contains_lowered_takes_lowercase_words() {
    let d = dict("Äpfel");
    let lower: Vec<char> = "äpfel".chars().collect();
    let upper: Vec<char> = "Äpfel".chars().collect();
    assert!(d.contains_lowered(&lower));
    assert!(!d.contains_lowered(&upper));
}

#[test]
fn renaming_to_joined_words_keeps_findings() {
    let d = dict("foo\nserver");
    let names = ["fooBzrHTTPServer", "v2Qux", "foo__bar--baz"];
    for (i, n) in names.iter().enumerate() {
        let joined = segment(n).join("_");
        let a = collect(&vec![node(NodeKind::Function, i, i + 1, n, true)], &d, false).report();
        let b = collect(&vec![node(NodeKind::Function, i, i + 1, &joined, true)], &d, false).report();
        assert_eq!(a.len(), b.len());
        for (x, y) in a.iter().zip(b.iter()) {
            assert_eq!(x.span, y.span);
            assert_eq!(sorted(x.words.clone()), sorted(y.words.clone()));
        }
    }
}

#[test]
fn dictionary_handles_repeats_and_any_order() {
    let d = dict("pear\nApple\napple\nzebra\nab\na\nAPPLE\nb");
    for w in ["pear", "apple", "zebra", "ab", "a", "b", "ZEBRA"] {
        assert!(d.contains(w));
    }
    for w in ["", "aa", "abc", "appl", "c", "zebras"] {
        assert!(!d.contains(w));
    }
}
