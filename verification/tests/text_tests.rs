use dotfiler::text::{escape_sql_quotes, placeholder_of, replace_all, str_eq};
use dotfiler::vars::{render_text, template_text, VarTable};

fn table(pairs: &[(&str, &str)]) -> VarTable {
    let mut t = VarTable::new();
    for (k, v) in pairs {
        assert!(t.insert(k.to_string(), v.to_string()));
    }
    t
}

#[test]
fn replace_all_replaces_every_occurrence() {
    assert_eq!(replace_all("abcabc", "b", "X"), "aXcaXc");
    assert_eq!(replace_all("hello", "l", "LL"), "heLLLLo");
    assert_eq!(replace_all("none here", "zz", "x"), "none here");
}

#[test]
fn replace_all_with_empty_pattern_changes_nothing() {
    assert_eq!(replace_all("abc", "", "x"), "abc");
}

#[test]
fn replace_all_scans_left_to_right_without_rescanning() {
    // the first two characters match; the leftover single one does not
    assert_eq!(replace_all("aaa", "aa", "b"), "ba");
    // the replacement text is not rescanned even when it contains the pattern
    assert_eq!(replace_all("ab", "ab", "ab ab"), "ab ab");
}

#[test]
fn placeholder_spells_key_between_braces() {
    assert_eq!(placeholder_of("user"), "{{ user }}");
    assert_eq!(placeholder_of(""), "{{  }}");
}

#[test]
fn escape_doubles_single_quotes() {
    assert_eq!(escape_sql_quotes("it's a 'test'"), "it''s a ''test''");
    assert_eq!(escape_sql_quotes("plain"), "plain");
}

#[test]
fn str_eq_compares_characters() {
    assert!(str_eq("abc", "abc"));
    assert!(!str_eq("abc", "abd"));
    assert!(!str_eq("abc", "abcd"));
}

// The documented scenario: templating finds the literal value, rendering
// brings it back.
#[test]
fn template_then_render_restores_login_line() {
    let vars = table(&[("user", "admin_user")]);
    let templated = template_text("login: admin_user", &vars);
    assert_eq!(templated, "login: {{ user }}");
    let rendered = render_text(&templated, &vars);
    assert_eq!(rendered, "login: admin_user");
}

// Rendering is a single scan of the original content: a value that
// itself spells another pair's placeholder is inserted literally, never
// expanded in turn.
#[test]
fn rendering_never_rescans_inserted_values() {
    let vars = table(&[("a", "0123456789"), ("b", "{{ a }}")]);
    assert_eq!(render_text("{{ b }}", &vars), "{{ a }}");
    assert_eq!(render_text("{{ b }} and {{ a }}", &vars), "{{ a }} and 0123456789");
}

#[test]
fn render_ignores_malformed_placeholders() {
    let vars = table(&[("user", "admin")]);
    assert_eq!(render_text("{{user}}", &vars), "{{user}}");
    assert_eq!(render_text("{{ user", &vars), "{{ user");
    assert_eq!(render_text("{{{ user }}", &vars), "{admin");
}

#[test]
fn render_leaves_unknown_keys_untouched() {
    let vars = table(&[("user", "admin_user")]);
    assert_eq!(
        render_text("login: {{ user }} shell: {{ shell }}", &vars),
        "login: admin_user shell: {{ shell }}"
    );
}

#[test]
fn template_substitutes_longer_values_first() {
    // "#123" is a prefix of "#123456": substituting the short value first
    // would corrupt the long one into a partial placeholder. The table
    // orders by value length, so the long value wins.
    let vars = table(&[("short", "#123"), ("long", "#123456")]);
    assert_eq!(
        template_text("a: #123456 b: #123", &vars),
        "a: {{ long }} b: {{ short }}"
    );
}

#[test]
fn template_skips_empty_values() {
    let vars = table(&[("empty", ""), ("real", "x")]);
    assert_eq!(template_text("axa", &vars), "a{{ real }}a");
}

#[test]
fn round_trip_restores_content_with_overlapping_values() {
    let vars = table(&[("a", "abc"), ("b", "ab")]);
    let content = "abcab abc ab";
    let rendered = render_text(&template_text(content, &vars), &vars);
    assert_eq!(rendered, content);
}

#[test]
fn round_trip_restores_multi_variable_content() {
    let vars = table(&[
        ("user", "admin_user"),
        ("color", "#123456"),
        ("shell", "zsh"),
    ]);
    let content = "login: admin_user\ncolor: #123456\nshell: zsh\nuser again: admin_user\n";
    let rendered = render_text(&template_text(content, &vars), &vars);
    assert_eq!(rendered, content);
}

// The corruption the longest-value-first rule prevents: substituting a
// value that is a prefix of a longer one first would tear the longer
// value apart and leave a partial placeholder behind. The table's
// ordering makes this sequence impossible through the library itself.
#[test]
fn substituting_a_shorter_value_first_would_corrupt_the_longer_one() {
    let torn = replace_all("#123456", "#123", "{{ short }}");
    assert_eq!(torn, "{{ short }}456");
    // the longer value can no longer be found afterwards
    assert_eq!(replace_all(&torn, "#123456", "{{ long }}"), "{{ short }}456");
}

// The known limitation of the round trip: content that already spells a
// placeholder is outside the law. Templating leaves it alone, rendering
// expands it, and the original text is lost.
#[test]
fn round_trip_breaks_on_content_that_spells_a_placeholder() {
    let vars = table(&[("user", "admin_user")]);
    let content = "literal: {{ user }}";
    let templated = template_text(content, &vars);
    assert_eq!(templated, content);
    let rendered = render_text(&templated, &vars);
    assert_eq!(rendered, "literal: admin_user");
    assert_ne!(rendered, content);
}
