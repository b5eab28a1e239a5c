use skuggbox::utils::{include_statement_from_string, pragma_shader_name, string_between};

#[test]
fn is_string_between() {
    let line = "#pragma include('some-shader.glsl')";
    assert_eq!(string_between(line, "include(", ")"), "'some-shader.glsl'");
}

#[test]
fn is_shader_name() {
    let line_single_quotes = "#pragma include('some-shader.glsl')";
    assert_eq!(
        pragma_shader_name(line_single_quotes),
        "some-shader.glsl".to_string()
    );

    let line_double_quotes = "#pragma include(\"some-shader.glsl\")";
    assert_eq!(
        pragma_shader_name(line_double_quotes),
        "some-shader.glsl".to_string()
    );

    let line_no_quotes = "#pragma include(some-shader.glsl)";
    assert_eq!(
        pragma_shader_name(line_no_quotes),
        "some-shader.glsl".to_string()
    );
}

#[test]
fn string_between_missing_markers() {
    assert_eq!(string_between("no markers here", "include(", ")"), "");
    assert_eq!(string_between("#pragma include(x", "include(", ")"), "");
    assert_eq!(string_between(") include(x", "include(", ")"), "");
}

#[test]
fn string_between_uses_the_last_occurrences() {
    let line = "include(a) include(b)";
    assert_eq!(string_between(line, "include(", ")"), "b");
}

#[test]
fn include_statement_round_trip() {
    let statement = include_statement_from_string("common.glsl".to_string());
    assert_eq!(statement, "#pragma include(common.glsl);");
    assert_eq!(pragma_shader_name(&statement), "common.glsl".to_string());
}
