use handlebars::{no_escape, Handlebars};
use renderbars::context::Context;
use renderbars::context_file::{context_from_pairs, parse_simple_context, parse_yaml_context};
use renderbars::entries::{apply_entry, build_context, is_template_fragment, split_entry, ContextError};
use renderbars::helper::helper_text;
use renderbars::text::{split_first_str, trim_end_str, trim_str};

fn strict_engine() -> Handlebars<'static> {
    let mut hb = Handlebars::new();
    hb.set_strict_mode(true);
    hb.register_escape_fn(no_escape);
    hb
}

fn entries(items: &[&str]) -> Vec<String> {
    items.iter().map(|s| s.to_string()).collect()
}

#[test]
fn split_entry_at_first_equals() {
    let (k, v) = split_entry("name=value").unwrap();
    assert_eq!(k, "name");
    assert_eq!(v, "value");
    let (k, v) = split_entry("a=b=c").unwrap();
    assert_eq!(k, "a");
    assert_eq!(v, "b=c");
    let (k, v) = split_entry("empty=").unwrap();
    assert_eq!(k, "empty");
    assert_eq!(v, "");
}

#[test]
fn split_entry_without_equals_is_malformed() {
    match split_entry("novalue") {
        Err(ContextError::Malformed(e)) => assert_eq!(e, "novalue"),
        other => panic!("unexpected {:?}", other),
    }
}

#[test]
fn fragment_markers() {
    assert!(is_template_fragment("{{x}}"));
    assert!(is_template_fragment("\\{{x}}"));
    assert!(!is_template_fragment("x{{y}}"));
    assert!(!is_template_fragment("{x}"));
    assert!(!is_template_fragment(""));
    assert!(!is_template_fragment("\\{"));
}

#[test]
fn text_helpers() {
    assert_eq!(trim_str("  a b \t\n"), "a b");
    assert_eq!(trim_str("   "), "");
    assert_eq!(trim_end_str("  x \n"), "  x");
    assert_eq!(split_first_str("k=v=w", '='), Some(("k", "v=w")));
    assert_eq!(split_first_str("kv", '='), None);
}

#[test]
fn insert_replaces_and_get_reads() {
    let mut c = Context::new();
    assert_eq!(c.len(), 0);
    c.insert("a".to_string(), "1".to_string());
    c.insert("b".to_string(), "2".to_string());
    c.insert("a".to_string(), "3".to_string());
    assert_eq!(c.len(), 2);
    assert_eq!(c.get("a"), Some("3".to_string()));
    assert_eq!(c.get("b"), Some("2".to_string()));
    assert_eq!(c.get("c"), None);
}

#[test]
fn plain_entries_stored_verbatim() {
    let hb = strict_engine();
    let c = build_context(&hb, Context::new(), &entries(&["name= spaced value ", "url=a=b&c"])).unwrap();
    assert_eq!(c.get("name"), Some(" spaced value ".to_string()));
    assert_eq!(c.get("url"), Some("a=b&c".to_string()));
    assert_eq!(c.len(), 2);
}

#[test]
fn command_line_overrides_file_and_later_flags_win() {
    let hb = strict_engine();
    let base = parse_simple_context("x=1\n").unwrap();
    let c = build_context(&hb, base, &entries(&["x=2", "x=3"])).unwrap();
    assert_eq!(c.get("x"), Some("3".to_string()));
    assert_eq!(c.len(), 1);
}

#[test]
fn fragment_renders_against_earlier_value() {
    let hb = strict_engine();
    let c = build_context(&hb, Context::new(), &entries(&["x=foo", "y={{x}}"])).unwrap();
    assert_eq!(c.get("y"), Some("foo".to_string()));
}

#[test]
fn fragment_sees_file_value() {
    let hb = strict_engine();
    let base = parse_simple_context("greeting = hi\n").unwrap();
    let c = build_context(&hb, base, &entries(&["msg={{greeting}} there"])).unwrap();
    assert_eq!(c.get("msg"), Some("hi there".to_string()));
}

#[test]
fn malformed_flag_is_rejected() {
    let hb = strict_engine();
    match build_context(&hb, Context::new(), &entries(&["a=1", "broken", "c"])) {
        Err(ContextError::Malformed(e)) => assert_eq!(e, "broken"),
        other => panic!("unexpected {:?}", other),
    }
}

#[test]
fn malformed_file_line_is_rejected() {
    match parse_simple_context("a=1\noops\nb=2\n") {
        Err(ContextError::Malformed(e)) => assert_eq!(e, "oops"),
        other => panic!("unexpected {:?}", other),
    }
}

#[test]
fn comments_and_blank_lines_ignored() {
    let c = parse_simple_context("# comment\n\n   \n  # another\nk=v\n").unwrap();
    assert_eq!(c.len(), 1);
    assert_eq!(c.get("k"), Some("v".to_string()));
}

#[test]
fn simple_file_trims_keys_and_values() {
    let c = parse_simple_context("  a  =  one two  \r\nb=x=y").unwrap();
    assert_eq!(c.get("a"), Some("one two".to_string()));
    assert_eq!(c.get("b"), Some("x=y".to_string()));
    assert_eq!(c.len(), 2);
}

#[test]
fn empty_simple_file_gives_empty_context() {
    assert_eq!(parse_simple_context("").unwrap().len(), 0);
}

#[test]
fn undefined_key_fails_in_strict_mode() {
    let hb = strict_engine();
    match build_context(&hb, Context::new(), &entries(&["y={{missing}}"])) {
        Err(ContextError::Render(_)) => {}
        other => panic!("unexpected {:?}", other),
    }
}

#[test]
fn helper_trims_trailing_newline() {
    assert_eq!(helper_text("hello\n"), "hello");
    assert_eq!(helper_text("  hello \r\n\n"), "  hello");
    assert_eq!(helper_text(""), "");
}

#[test]
fn yaml_mapping_becomes_context() {
    let c = parse_yaml_context("name: world\ngreeting: \"hello there\"\n").unwrap();
    assert_eq!(c.len(), 2);
    assert_eq!(c.get("name"), Some("world".to_string()));
    assert_eq!(c.get("greeting"), Some("hello there".to_string()));
}

#[test]
fn yaml_that_is_not_a_mapping_fails() {
    match parse_yaml_context("- a\n- b\n") {
        Err(ContextError::Yaml(_)) => {}
        other => panic!("unexpected {:?}", other),
    }
}

#[test]
fn pairs_later_duplicate_wins() {
    let c = context_from_pairs(vec![
        ("k".to_string(), "1".to_string()),
        ("j".to_string(), "2".to_string()),
        ("k".to_string(), "3".to_string()),
    ]);
    assert_eq!(c.len(), 2);
    assert_eq!(c.get("k"), Some("3".to_string()));
}

#[test]
fn same_inputs_give_same_context() {
    let hb = strict_engine();
    let es = entries(&["a=1", "b={{a}}-x"]);
    let c1 = build_context(&hb, Context::new(), &es).unwrap();
    let c2 = build_context(&hb, Context::new(), &es).unwrap();
    assert_eq!(c1.pairs(), c2.pairs());
    assert_eq!(c1.get("b"), Some("1-x".to_string()));
}

#[test]
fn apply_entry_stores_rendered_or_raw() {
    let c = apply_entry(Context::new(), "x".to_string(), "foo".to_string(), None);
    assert_eq!(c.get("x"), Some("foo".to_string()));
    let c = apply_entry(c, "y".to_string(), "{{x}}".to_string(), Some("foo".to_string()));
    assert_eq!(c.get("y"), Some("foo".to_string()));
    let c = apply_entry(c, "x".to_string(), "bar".to_string(), None);
    assert_eq!(c.get("x"), Some("bar".to_string()));
    assert_eq!(c.len(), 2);
}

#[test]
fn inline_hash_is_kept_and_indented_comment_skipped() {
    let c = parse_simple_context("  # x
k=v#not a comment
#k=w
").unwrap();
    assert_eq!(c.len(), 1);
    assert_eq!(c.get("k"), Some("v#not a comment".to_string()));
}

#[test]
fn file_value_feeds_fragment() {
    let hb = strict_engine();
    let base = parse_simple_context("x=foo\n").unwrap();
    let c = build_context(&hb, base, &entries(&["y={{x}}"])).unwrap();
    assert_eq!(c.get("x"), Some("foo".to_string()));
    assert_eq!(c.get("y"), Some("foo".to_string()));
}

#[test]
fn malformed_before_fragment_is_malformed() {
    let hb = strict_engine();
    match build_context(&hb, Context::new(), &entries(&["bad", "y={{missing}}"])) {
        Err(ContextError::Malformed(e)) => assert_eq!(e, "bad"),
        other => panic!("unexpected {:?}", other),
    }
}
