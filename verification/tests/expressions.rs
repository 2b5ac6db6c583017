use ren::expressions::{
    apply_to_basename, build_pattern_for, build_subst_for, can_apply, compile_expressions,
    parse_expression, splice, CompileError, CompileOptions, CompiledExpression, Expression,
    EXPR_SEP,
};
use ren::matcher::Matcher;
use ren::variants::{build_case_variants, pair_up};

/// Options with nothing set.
fn opts() -> CompileOptions {
    CompileOptions {
        regex: false,
        ignore_case: false,
        greedy: false,
        word_regexp: false,
        smart: false,
        expressions: Vec::new(),
        positional_find: None,
        positional_replace: None,
        list_files_find_only: false,
    }
}

/// The two halves of an expression as they are handed over.
fn expr_arg(find: &str, replace: &str) -> String {
    format!("{find}{EXPR_SEP}{replace}")
}

fn compile(o: &CompileOptions) -> Vec<CompiledExpression> {
    match compile_expressions(o) {
        Ok(exprs) => exprs,
        Err(e) => panic!("{}", e.message()),
    }
}

#[test]
fn literal_find_replace_applies() {
    let mut o = opts();
    o.positional_find = Some("foo".into());
    o.positional_replace = Some("bar".into());
    let exprs = compile(&o);

    let (out, n) = apply_to_basename("foo_x_foo.txt", &exprs);
    assert_eq!(out, "bar_x_bar.txt");
    assert_eq!(n, 2);
}

#[test]
fn multiple_expressions_chain_in_order() {
    let mut o = opts();
    o.expressions = vec![expr_arg("a", "b"), expr_arg("b", "c")];
    let exprs = compile(&o);

    let (out, n) = apply_to_basename("a b", &exprs);
    assert_eq!(out, "c c");
    assert_eq!(n, 3);
}

#[test]
fn regex_capture_groups_swap() {
    let mut o = opts();
    o.regex = true;
    o.expressions = vec![expr_arg(r"(foo)\.(bar)", "$2.$1")];
    let exprs = compile(&o);

    let (out, n) = apply_to_basename("foo.bar.txt", &exprs);
    assert_eq!(out, "bar.foo.txt");
    assert_eq!(n, 1);
}

#[test]
fn word_regexp_matches_only_whole_words() {
    let mut o = opts();
    o.word_regexp = true;
    o.expressions = vec![expr_arg("foo", "bar")];
    let exprs = compile(&o);

    let (out, n) = apply_to_basename("foo foobar food", &exprs);
    assert_eq!(out, "bar foobar food");
    assert_eq!(n, 1);
}

#[test]
fn ignore_case_matches_all_cases() {
    let mut o = opts();
    o.ignore_case = true;
    o.expressions = vec![expr_arg("foo", "bar")];
    let exprs = compile(&o);

    let (out, n) = apply_to_basename("Foo FOO foo", &exprs);
    assert_eq!(out, "bar bar bar");
    assert_eq!(n, 3);
}

#[test]
fn regex_default_is_non_greedy() {
    let mut o = opts();
    o.regex = true;
    let pat = build_pattern_for(&o, "a.*b");
    assert_eq!(pat, "(?U)a.*b");
}

#[test]
fn regex_greedy_flag_drops_inverted_marker() {
    let mut o = opts();
    o.regex = true;
    o.greedy = true;
    let pat = build_pattern_for(&o, "a.*b");
    assert_eq!(pat, "a.*b");
}

#[test]
fn smart_case_variants_pin_all_seven() {
    let (map, _) = build_case_variants("foo_bar", "hello_world");
    assert_eq!(map.get("foo_bar"), Some(&"hello_world".to_string()));
    assert_eq!(map.get("FooBar"), Some(&"HelloWorld".to_string()));
    assert_eq!(map.get("FOO_BAR"), Some(&"HELLO_WORLD".to_string()));
    assert_eq!(map.get("foo-bar"), Some(&"hello-world".to_string()));
    assert_eq!(map.get("fooBar"), Some(&"helloWorld".to_string()));
    assert_eq!(map.get("Foo-Bar"), Some(&"Hello-World".to_string()));
    assert_eq!(map.get("Foo_Bar"), Some(&"Hello_World".to_string()));
    assert_eq!(map.len(), 7);
}

#[test]
fn smart_replaces_in_basename() {
    let mut o = opts();
    o.smart = true;
    o.positional_find = Some("foo_bar".into());
    o.positional_replace = Some("hello_world".into());
    let exprs = compile(&o);

    let (out, _) = apply_to_basename("FooBar_foo_bar_FOO_BAR.rs", &exprs);
    assert_eq!(out, "HelloWorld_hello_world_HELLO_WORLD.rs");
}

#[test]
fn empty_replacement_deletes_match() {
    let mut o = opts();
    o.expressions = vec![expr_arg("foo", "")];
    let exprs = compile(&o);

    let (out, n) = apply_to_basename("foobarfoo", &exprs);
    assert_eq!(out, "bar");
    assert_eq!(n, 2);
}

#[test]
fn noop_find_eq_replace_is_filtered_out() {
    let mut o = opts();
    o.expressions = vec![expr_arg("foo", "foo")];
    let exprs = compile(&o);
    assert!(exprs.is_empty());

    let (out, n) = apply_to_basename("foo bar", &exprs);
    assert_eq!(out, "foo bar");
    assert_eq!(n, 0);
}

#[test]
fn list_files_find_only_compiles_a_matcher() {
    let mut o = opts();
    o.list_files_find_only = true;
    o.positional_find = Some("readme".into());
    let exprs = compile(&o);
    assert_eq!(exprs.len(), 1);
    assert!(exprs[0].regex().is_match("readme.md"));
    assert!(!exprs[0].regex().is_match("CHANGELOG.md"));
}

#[test]
fn parse_expression_requires_null_separator() {
    assert!(parse_expression("missing-separator").is_err());
    let parsed = match parse_expression(&format!("a{EXPR_SEP}b=c")) {
        Ok(parsed) => parsed,
        Err(e) => panic!("{}", e.message()),
    };
    assert_eq!(
        parsed,
        Expression {
            find: "a".into(),
            replace: "b=c".into(),
        }
    );
}

#[test]
fn build_pattern_escapes_metacharacters_in_literal_mode() {
    let o = opts();
    let pat = build_pattern_for(&o, "1.2.3");
    assert_eq!(pat, r"1\.2\.3");
}

#[test]
fn build_subst_escapes_dollar_in_literal_mode() {
    let o = opts();
    assert_eq!(build_subst_for(&o, "$1"), "$$1");
}

#[test]
fn build_subst_preserves_dollar_in_regex_mode() {
    let mut o = opts();
    o.regex = true;
    assert_eq!(build_subst_for(&o, "$1"), "$1");
}

#[test]
fn literal_mode_emits_dollar_references_verbatim() {
    let mut o = opts();
    o.positional_find = Some("foo".into());
    o.positional_replace = Some("$1bar".into());
    let exprs = compile(&o);
    let (out, n) = apply_to_basename("foo baz", &exprs);
    assert_eq!(out, "$1bar baz");
    assert_eq!(n, 1);
}

// ---- patterns ----------------------------------------------------------------

#[test]
fn word_boundaries_go_round_the_whole_pattern() {
    let mut o = opts();
    o.word_regexp = true;
    assert_eq!(build_pattern_for(&o, "a|b"), r"\b(?:a\|b)\b");
    o.regex = true;
    assert_eq!(build_pattern_for(&o, "a|b"), r"(?U)\b(?:a|b)\b");
}

#[test]
fn every_meta_character_is_escaped() {
    let o = opts();
    assert_eq!(
        build_pattern_for(&o, r"\.+*?()|[]{}^$#&-~"),
        r"\\\.\+\*\?\(\)\|\[\]\{\}\^\$\#\&\-\~"
    );
    assert_eq!(build_pattern_for(&o, "a_B %é"), "a_B %é");
}

#[test]
fn greedy_and_lazy_repetitions_differ() {
    let mut o = opts();
    o.regex = true;
    o.expressions = vec![expr_arg("a.*b", "X")];
    let (out, n) = apply_to_basename("a1b2b", &compile(&o));
    assert_eq!((out.as_str(), n), ("X2b", 1));
    o.greedy = true;
    let (out, n) = apply_to_basename("a1b2b", &compile(&o));
    assert_eq!((out.as_str(), n), ("X", 1));
}

// ---- errors ------------------------------------------------------------------

#[test]
fn an_expression_without_separator_is_an_error() {
    let mut o = opts();
    o.expressions = vec![expr_arg("a", "b"), "c".to_string()];
    match compile_expressions(&o) {
        Err(e) => {
            assert!(matches!(e, CompileError::MissingSeparator));
            assert_eq!(
                e.message(),
                "Invalid expression: expected `-e <find> <replace>`"
            );
        }
        Ok(_) => panic!("compiled"),
    }
}

#[test]
fn a_pattern_that_is_no_regex_is_an_error() {
    let mut o = opts();
    o.regex = true;
    o.positional_find = Some("(".into());
    o.positional_replace = Some("x".into());
    match compile_expressions(&o) {
        Err(e) => {
            assert_eq!(e.message(), "Invalid regex: (");
            assert!(matches!(e, CompileError::InvalidRegex { .. }));
        }
        Ok(_) => panic!("compiled"),
    }
}

#[test]
fn the_first_bad_pattern_is_reported() {
    let mut o = opts();
    o.regex = true;
    o.expressions = vec![expr_arg("a", "b"), expr_arg("[", "x"), expr_arg("(", "y")];
    match compile_expressions(&o) {
        Err(e) => assert_eq!(e.message(), "Invalid regex: ["),
        Ok(_) => panic!("compiled"),
    }
}

#[test]
fn a_smart_pattern_that_is_too_large_is_an_error() {
    let mut o = opts();
    o.smart = true;
    o.positional_find = Some("ab".repeat(150_000));
    o.positional_replace = Some("x".into());
    match compile_expressions(&o) {
        Err(e) => {
            assert!(matches!(e, CompileError::InvalidSmartPattern { .. }));
            assert!(e.message().starts_with("Invalid smart pattern: abab"));
        }
        Ok(_) => panic!("compiled"),
    }
}

#[test]
fn a_smart_expression_without_forms_cannot_be_applied() {
    let mut o = opts();
    o.smart = true;
    o.positional_find = Some(String::new());
    let exprs = compile(&o);
    assert_eq!(exprs.len(), 1);
    assert!(!exprs[0].can_rewrite());
    assert!(!can_apply(&exprs));
    o.positional_find = Some("a".into());
    let exprs = compile(&o);
    assert!(can_apply(&exprs));
}

#[test]
fn without_anything_to_find_or_replace_there_are_no_expressions() {
    let mut o = opts();
    assert!(compile(&o).is_empty());
    o.regex = true;
    assert!(compile(&o).is_empty());
    o.smart = true;
    assert!(compile(&o).is_empty());
    o.regex = false;
    assert!(compile(&o).is_empty());
    o.list_files_find_only = true;
    assert_eq!(compile(&o).len(), 1);
}

#[test]
fn forms_are_paired_by_place() {
    let texts = |list: &[&str]| list.iter().map(|s| s.to_string()).collect::<Vec<String>>();
    let map = pair_up(&texts(&["ab", "", "AB", "ab"]), &texts(&["x", "y", "X", "z"]));
    assert_eq!(map.len(), 2);
    assert_eq!(map.get("ab").map(String::as_str), Some("x"));
    assert_eq!(map.get("AB").map(String::as_str), Some("X"));
    assert!(map.get("").is_none());
}

// ---- rewriting ---------------------------------------------------------------

#[test]
fn splicing_replaces_the_marked_stretches() {
    let words = vec!["<1>".to_string(), "".to_string(), "<3>".to_string()];
    assert_eq!(
        splice("añbcdé", &vec![(0, 1), (2, 4), (6, 6)], &words),
        "<1>ñdé<3>"
    );
    assert_eq!(splice("abc", &Vec::new(), &Vec::new()), "abc");
}

#[test]
fn splicing_matches_into_their_own_places_changes_nothing() {
    let words = vec!["é".to_string(), "cd".to_string()];
    assert_eq!(splice("aébcd", &vec![(1, 2), (3, 5)], &words), "aébcd");
}

#[test]
fn multibyte_characters_are_matched_and_kept() {
    let mut o = opts();
    o.positional_find = Some("é".into());
    o.positional_replace = Some("e".into());
    let (out, n) = apply_to_basename("Café-Éléa-日本é", &compile(&o));
    assert_eq!((out.as_str(), n), ("Cafe-Élea-日本e", 3));
}

#[test]
fn an_empty_pattern_matches_between_all_characters() {
    let mut o = opts();
    o.positional_replace = Some("-".into());
    let (out, n) = apply_to_basename("aé", &compile(&o));
    assert_eq!((out.as_str(), n), ("-a-é-", 3));
}

#[test]
fn a_name_without_a_match_stays() {
    let mut o = opts();
    o.positional_find = Some("zzz".into());
    o.positional_replace = Some("y".into());
    let (out, n) = apply_to_basename("foo.txt", &compile(&o));
    assert_eq!((out.as_str(), n), ("foo.txt", 0));
}

#[test]
fn applying_two_lists_is_applying_one_after_the_other() {
    let mut first = opts();
    first.expressions = vec![expr_arg("a", "b")];
    let mut second = opts();
    second.expressions = vec![expr_arg("b", "cc")];
    let mut both = opts();
    both.expressions = vec![expr_arg("a", "b"), expr_arg("b", "cc")];
    let (half, n) = apply_to_basename("abab", &compile(&first));
    let (whole, m) = apply_to_basename(&half, &compile(&second));
    let (out, total) = apply_to_basename("abab", &compile(&both));
    assert_eq!(whole, out);
    assert_eq!(n + m, total);
    assert_eq!(out, "cccccccc");
}

#[test]
fn matches_are_reported_by_characters() {
    let matcher = match Matcher::new("é+".to_string(), false) {
        Ok(m) => m,
        Err(e) => panic!("{e}"),
    };
    assert_eq!(matcher.spans("aééb日é"), vec![(1, 3), (5, 6)]);
    assert_eq!(
        matcher.expansions("aééb日é", "<$0>"),
        vec!["<éé>".to_string(), "<é>".to_string()]
    );
}

#[test]
fn variants_are_tried_longest_first() {
    let (map, pattern) = build_case_variants("foo_bar", "x_y");
    assert!(!map.is_empty());
    assert_eq!(map.get("foobar"), None);
    assert_eq!(
        pattern,
        r"foo\-bar|Foo\-Bar|Foo_Bar|FOO_BAR|foo_bar|fooBar|FooBar"
    );
}

#[test]
fn a_single_word_has_few_forms() {
    let (map, pattern) = build_case_variants("foo", "bar");
    assert_eq!(pattern, "Foo|foo|FOO");
    assert_eq!(map.get("Foo"), Some(&"Bar".to_string()));
    assert_eq!(map.get("foo"), Some(&"bar".to_string()));
    assert_eq!(map.get("FOO"), Some(&"BAR".to_string()));
    assert_eq!(map.len(), 3);
}

#[test]
fn no_word_has_no_forms() {
    let (map, pattern) = build_case_variants("", "bar");
    assert!(map.is_empty());
    assert_eq!(pattern, "");
}

#[test]
fn plain_text_is_replaced_from_left_to_right() {
    let mut o = opts();
    o.positional_find = Some("aa".into());
    o.positional_replace = Some("b$1".into());
    let exprs = compile(&o);
    assert_eq!(apply_to_basename("aaa", &exprs), ("b$1a".to_string(), 1));
    assert_eq!(apply_to_basename("xaayaaaa", &exprs), ("xb$1yb$1b$1".to_string(), 3));
    assert_eq!(apply_to_basename("AAa", &exprs), ("AAa".to_string(), 0));
    o.positional_find = Some("\u{e9}.".into());
    o.positional_replace = Some(String::new());
    let exprs = compile(&o);
    assert_eq!(apply_to_basename("caf\u{e9}.\u{e9}x", &exprs), ("caf\u{e9}x".to_string(), 1));
}

#[test]
fn forms_are_replaced_in_kind() {
    let mut o = opts();
    o.smart = true;
    o.positional_find = Some("foo_bar".into());
    o.positional_replace = Some("one_two".into());
    let exprs = compile(&o);
    assert_eq!(
        apply_to_basename("foo_bar-fooBar-FooBar-FOO_BAR-Foo_Bar-foo-bar-Foo-Bar-foobar", &exprs),
        (
            "one_two-oneTwo-OneTwo-ONE_TWO-One_Two-one-two-One-Two-foobar".to_string(),
            7
        )
    );
}
