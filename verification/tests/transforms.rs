use ren::transforms::{
    apply, format_counter, has_counter_placeholder, CounterContext, TransformOptions,
    SMART_COUNTER_TEMPLATE,
};

fn opts_default() -> TransformOptions {
    TransformOptions::default()
}

fn ctx(n: usize, dir_count: usize) -> CounterContext {
    CounterContext { n, dir_count }
}

#[test]
fn counter_no_padding() {
    assert_eq!(format_counter("{n}", ctx(1, 0)), "1");
    assert_eq!(format_counter("{n}", ctx(42, 0)), "42");
    assert_eq!(format_counter("{n}", ctx(1000, 0)), "1000");
}

#[test]
fn counter_zero_padded() {
    assert_eq!(format_counter("{n:03}", ctx(1, 0)), "001");
    assert_eq!(format_counter("{n:03}", ctx(42, 0)), "042");
    assert_eq!(format_counter("{n:03}", ctx(1000, 0)), "1000");
    assert_eq!(format_counter("{n:05}", ctx(7, 0)), "00007");
}

#[test]
fn counter_with_surrounding_text() {
    assert_eq!(format_counter("{n:03}_", ctx(5, 0)), "005_");
    assert_eq!(format_counter("[{n:02}]-", ctx(12, 0)), "[12]-");
    assert_eq!(format_counter("file_{n}_v2", ctx(3, 0)), "file_3_v2");
}

#[test]
fn counter_preserves_unrelated_braces() {
    assert_eq!(format_counter("{not_n}_{n:02}", ctx(5, 0)), "{not_n}_05");
    assert_eq!(format_counter("plain text", ctx(5, 0)), "plain text");
}

#[test]
fn smart_marker_uses_at_least_two_digits() {
    assert_eq!(format_counter("{N}", ctx(1, 0)), "01");
    assert_eq!(format_counter("{N}", ctx(99, 99)), "99");
}

#[test]
fn smart_marker_grows_with_dir_count() {
    assert_eq!(format_counter("{N}_", ctx(1, 100)), "001_");
    assert_eq!(format_counter("{N}_", ctx(99, 999)), "099_");
    assert_eq!(format_counter("{N}_", ctx(1, 1000)), "0001_");
}

#[test]
fn smart_marker_composes_with_literal_n() {
    assert_eq!(format_counter("{N}-{n:02}", ctx(3, 100)), "003-03");
}

#[test]
fn has_placeholder_detects_all_forms() {
    assert!(has_counter_placeholder("{n}"));
    assert!(has_counter_placeholder("{n:03}"));
    assert!(has_counter_placeholder("{N}"));
    assert!(has_counter_placeholder("prefix-{n}-suffix"));
    assert!(!has_counter_placeholder("plain"));
    assert!(!has_counter_placeholder("{not_n}"));
    assert!(!has_counter_placeholder("{N:03}"));
}

#[test]
fn apply_noop_when_all_unset() {
    assert_eq!(apply("Foo.txt", &opts_default(), ctx(1, 1)), "Foo.txt");
}

#[test]
fn apply_lower() {
    let opts = TransformOptions {
        lower: true,
        ..opts_default()
    };
    assert_eq!(apply("Foo.TXT", &opts, ctx(1, 1)), "foo.txt");
}

#[test]
fn apply_upper() {
    let opts = TransformOptions {
        upper: true,
        ..opts_default()
    };
    assert_eq!(apply("Foo.txt", &opts, ctx(1, 1)), "FOO.TXT");
}

#[test]
fn apply_append_literal() {
    let opts = TransformOptions {
        append: Some(".bak".into()),
        ..opts_default()
    };
    assert_eq!(apply("data", &opts, ctx(1, 1)), "data.bak");
}

#[test]
fn apply_prepend_literal() {
    let opts = TransformOptions {
        prepend: Some("draft_".into()),
        ..opts_default()
    };
    assert_eq!(apply("chapter1", &opts, ctx(1, 1)), "draft_chapter1");
}

#[test]
fn apply_prepend_with_counter_template() {
    let opts = TransformOptions {
        prepend: Some("{n:02}_".into()),
        ..opts_default()
    };
    assert_eq!(apply("foo", &opts, ctx(7, 0)), "07_foo");
}

#[test]
fn apply_append_with_counter_template() {
    let opts = TransformOptions {
        append: Some("-{n}".into()),
        ..opts_default()
    };
    assert_eq!(apply("foo", &opts, ctx(3, 0)), "foo-3");
}

#[test]
fn apply_prepend_and_append_share_counter() {
    let opts = TransformOptions {
        prepend: Some("{n}-".into()),
        append: Some("-{n}".into()),
        ..opts_default()
    };
    assert_eq!(apply("foo", &opts, ctx(4, 0)), "4-foo-4");
}

#[test]
fn apply_pipeline_order_lower_then_append_then_prepend() {
    let opts = TransformOptions {
        lower: true,
        upper: false,
        append: Some(".bak".into()),
        prepend: Some("draft_".into()),
    };
    assert_eq!(apply("Foo", &opts, ctx(1, 1)), "draft_foo.bak");
}

#[test]
fn apply_pipeline_upper_branch() {
    let opts = TransformOptions {
        upper: true,
        append: Some("-final".into()),
        prepend: Some("v_".into()),
        ..opts_default()
    };
    assert_eq!(apply("foo", &opts, ctx(1, 1)), "v_FOO-final");
}

#[test]
fn apply_lower_wins_when_both_set() {
    let opts = TransformOptions {
        lower: true,
        upper: true,
        ..opts_default()
    };
    assert_eq!(apply("Foo", &opts, ctx(1, 1)), "foo");
}

// ---- templates -----------------------------------------------------------------

#[test]
fn templates_agree_with_the_regular_expression_for_slots() {
    let pattern = r"\{(?P<smart>N)\}|\{n(?::0(?P<width>\d+))?\}";
    let slots = regex::Regex::new(pattern).unwrap();
    let templates = [
        "", "{", "}", "{}", "{n", "{n}", "{{n}}", "{n}{n}", "{N}", "{N:03}", "{n:0}", "{n:3}",
        "{n:03}", "{n:00}", "{n:03 }", "{n:0x}", "{n:03", "{n:0{n}", "{n:0\u{663}}", "{n:01\u{663}}",
        "{n:099999999999999999999999}", "a{n:02}b{N}c{n}d", "{n:{n:02}}", "{n:0³}",
    ];
    for template in templates {
        for (n, dir_count) in [(1, 1), (7, 100), (12345, 99999)] {
            let wanted = slots
                .replace_all(template, |caps: &regex::Captures| {
                    if caps.name("smart").is_some() {
                        let width = dir_count.to_string().len().max(2);
                        format!("{n:0width$}")
                    } else if let Some(w) = caps.name("width") {
                        let width: usize = w.as_str().parse().unwrap_or(0);
                        format!("{n:0width$}")
                    } else {
                        n.to_string()
                    }
                })
                .into_owned();
            assert_eq!(format_counter(template, ctx(n, dir_count)), wanted, "{template}");
        }
        assert_eq!(has_counter_placeholder(template), slots.is_match(template), "{template}");
    }
}

#[test]
fn a_template_without_a_slot_is_shown_as_it_is() {
    let template = "{n:3} {no} {N:02} }{";
    assert!(!has_counter_placeholder(template));
    assert_eq!(format_counter(template, ctx(5, 50)), template);
}

#[test]
fn the_smart_template_counts_with_an_underscore() {
    assert_eq!(format_counter(SMART_COUNTER_TEMPLATE, ctx(7, 12)), "07_");
}

#[test]
fn letter_case_follows_unicode() {
    let lower = TransformOptions {
        lower: true,
        ..opts_default()
    };
    let upper = TransformOptions {
        upper: true,
        ..opts_default()
    };
    assert_eq!(apply("ÀÉÎ Σ", &lower, ctx(1, 1)), "ÀÉÎ Σ".to_lowercase());
    assert_eq!(apply("straße", &upper, ctx(1, 1)), "STRASSE");
}
