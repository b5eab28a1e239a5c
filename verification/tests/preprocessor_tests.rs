use skuggbox::shader::pre_processor::{PreProcessor, PreProcessorConfig, ShaderContent};
use skuggbox::shader::read::find_included_files;
use skuggbox::shader::store::SourceStore;
use skuggbox::shader::ShaderError;

const CAMERA_STUB: &str = "#ifdef USE_SKUGGBOX_CAMERA\n    uniform mat4 sbCameraTransform;\n    void skuggbox_camera(vec2 uv, inout vec3 ro, inout vec3 rd) {\n        ro = sbCameraTransform[3].xyz;\n        rd = mat3(sbCameraTransform) * normalize(vec3(uv, 1));\n    }\n    #else\n    void skuggbox_camera(vec2 uv, inout vec3 ro, inout vec3 rd) {\n        // empty\n    }\n    #endif";

fn pre_processor(use_camera_integration: bool) -> PreProcessor {
    PreProcessor::new(PreProcessorConfig {
        use_camera_integration,
    })
}

fn load(store: &SourceStore, path: &str) -> ShaderContent {
    pre_processor(false)
        .load_file(store, &path.to_string())
        .expect("entry file should resolve")
}

fn closure_keys(content: &ShaderContent) -> Vec<String> {
    content.parts.iter().map(|(k, _)| k.clone()).collect()
}

#[test]
fn no_includes_keeps_source_verbatim() {
    let mut store = SourceStore::new();
    let raw = "#version 330\nvoid main() {}\n";
    store.insert("/s/main.glsl".to_string(), raw.to_string());

    let content = load(&store, "/s/main.glsl");
    assert_eq!(content.shader_src, raw);
    assert_eq!(content.parts.len(), 1);
    assert_eq!(content.shader_id, "main");
    assert_eq!(content.main_shader_path, "/s/main.glsl");
    assert!(content.ready_to_compile);
}

#[test]
fn include_chain_flattens_into_one_source() {
    let mut store = SourceStore::new();
    store.insert(
        "/s/main.glsl".to_string(),
        "#pragma include(a.glsl)\nvoid main() {}".to_string(),
    );
    store.insert(
        "/s/a.glsl".to_string(),
        "#pragma include(b.glsl)\nfloat a() { return b(); }".to_string(),
    );
    store.insert("/s/b.glsl".to_string(), "float b() { return 1.0; }".to_string());

    let content = load(&store, "/s/main.glsl");
    assert_eq!(content.parts.len(), 3);
    assert!(!content.shader_src.contains("#pragma include"));
    assert!(content.shader_src.contains("float b() { return 1.0; }"));
    assert!(content.shader_src.contains("float a() { return b(); }"));
    assert!(content.shader_src.contains("void main() {}"));
}

#[test]
fn included_line_is_replaced_in_place() {
    let mut store = SourceStore::new();
    store.insert(
        "/s/main.glsl".to_string(),
        "#version 330\n// header\n#pragma include(common.glsl)\nvoid main() {}".to_string(),
    );
    store.insert(
        "/s/common.glsl".to_string(),
        "uniform vec2 iResolution;".to_string(),
    );

    let content = load(&store, "/s/main.glsl");
    let lines: Vec<&str> = content.shader_src.lines().collect();
    assert_eq!(lines[2], "uniform vec2 iResolution;");
    let keys = closure_keys(&content);
    assert_eq!(keys.len(), 2);
    assert!(keys.contains(&"/s/common.glsl".to_string()));
    assert!(keys.contains(&"/s/main.glsl".to_string()));
}

#[test]
fn direct_self_include_terminates_with_a_comment() {
    let mut store = SourceStore::new();
    store.insert(
        "/s/a.glsl".to_string(),
        "#pragma include(a.glsl)\nfloat a() { return 0.0; }".to_string(),
    );

    let content = load(&store, "/s/a.glsl");
    let lines: Vec<&str> = content.shader_src.lines().collect();
    assert_eq!(lines[0], "// #pragma include(a.glsl)");
    assert_eq!(lines[1], "float a() { return 0.0; }");
}

#[test]
fn indirect_include_cycle_terminates_with_a_comment() {
    let mut store = SourceStore::new();
    store.insert(
        "/s/a.glsl".to_string(),
        "#pragma include(b.glsl)\nfloat a() { return 0.0; }".to_string(),
    );
    store.insert(
        "/s/b.glsl".to_string(),
        "#pragma include(a.glsl)\nfloat b() { return 0.0; }".to_string(),
    );

    let content = load(&store, "/s/a.glsl");
    assert!(content.ready_to_compile);
    assert!(content.shader_src.contains("// #pragma include(a.glsl)"));
    assert!(content.shader_src.contains("float a() { return 0.0; }"));
    assert!(content.shader_src.contains("float b() { return 0.0; }"));
    assert!(!content.shader_src.contains("\n#pragma include"));
}

#[test]
fn duplicate_include_is_expanded_once() {
    let mut store = SourceStore::new();
    store.insert(
        "/s/main.glsl".to_string(),
        "#pragma include(common.glsl)\n#pragma include(common.glsl)\nvoid main() {}".to_string(),
    );
    store.insert("/s/common.glsl".to_string(), "uniform float iTime;".to_string());

    let content = load(&store, "/s/main.glsl");
    let lines: Vec<&str> = content.shader_src.lines().collect();
    assert_eq!(lines[0], "uniform float iTime;");
    assert_eq!(lines[1], "// #pragma include(common.glsl)");
    assert_eq!(content.parts.len(), 2);
}

#[test]
fn unreadable_include_is_commented_out() {
    let mut store = SourceStore::new();
    store.insert(
        "/s/main.glsl".to_string(),
        "#pragma include(nope.glsl)\nvoid main() {}".to_string(),
    );

    let content = load(&store, "/s/main.glsl");
    assert!(content.ready_to_compile);
    let lines: Vec<&str> = content.shader_src.lines().collect();
    assert_eq!(lines[0], "// #pragma include(nope.glsl)");
}

#[test]
fn malformed_include_pragma_is_commented_out() {
    let mut store = SourceStore::new();
    store.insert(
        "/s/main.glsl".to_string(),
        "#pragma include(common.glsl\nvoid main() {}".to_string(),
    );
    store.insert(
        "/s/common.glsl".to_string(),
        "uniform vec2 iResolution;".to_string(),
    );

    let content = load(&store, "/s/main.glsl");
    let lines: Vec<&str> = content.shader_src.lines().collect();
    assert_eq!(lines[0], "// #pragma include(common.glsl");
    assert_eq!(lines[1], "void main() {}");
}

#[test]
fn empty_entry_file_is_not_ready_to_compile() {
    let mut store = SourceStore::new();
    store.insert("/s/empty.glsl".to_string(), "".to_string());

    let content = load(&store, "/s/empty.glsl");
    assert_eq!(content.shader_src, "");
    assert!(!content.ready_to_compile);
}

#[test]
fn missing_entry_file_is_a_file_error() {
    let store = SourceStore::new();
    let result = pre_processor(false).load_file(&store, &"/s/main.glsl".to_string());
    assert!(matches!(result, Err(ShaderError::FileError { .. })));
}

#[test]
fn camera_pragma_without_integration_becomes_the_stub() {
    let source = "void main() {}\n#pragma skuggbox(camera)\nfloat f;".to_string();
    let replaced = pre_processor(false).process_integrations(source);
    let expected = format!("void main() {{}}\n{}\nfloat f;", CAMERA_STUB);
    assert_eq!(replaced, expected);
}

#[test]
fn camera_pragma_with_integration_adds_the_define() {
    let source = "#pragma skuggbox(camera)".to_string();
    let replaced = pre_processor(true).process_integrations(source);
    let expected = format!("#define USE_SKUGGBOX_CAMERA\n{}", CAMERA_STUB);
    assert_eq!(replaced, expected);
}

#[test]
fn camera_pragma_matching_ignores_surrounding_whitespace() {
    let replaced =
        pre_processor(false).process_integrations("   #pragma skuggbox(camera)  ".to_string());
    assert_eq!(replaced, CAMERA_STUB);
    let untouched =
        pre_processor(false).process_integrations("#pragma skuggbox(camera) extra".to_string());
    assert_eq!(untouched, "#pragma skuggbox(camera) extra");
}

#[test]
fn camera_pragma_inside_an_included_file_is_substituted() {
    let mut store = SourceStore::new();
    store.insert(
        "/s/main.glsl".to_string(),
        "#pragma include(camera.glsl)\nvoid main() {}".to_string(),
    );
    store.insert(
        "/s/camera.glsl".to_string(),
        "#pragma skuggbox(camera)".to_string(),
    );

    let content = load(&store, "/s/main.glsl");
    assert!(content.shader_src.starts_with(CAMERA_STUB));
    assert!(content.shader_src.ends_with("void main() {}"));
}

#[test]
fn test_shader_reload() {
    let mut store = SourceStore::new();
    store.insert(
        "/tests/files/main_test.glsl".to_string(),
        "#version 330\n#pragma include(included_test.glsl)\nvoid main() {}\n".to_string(),
    );
    store.insert(
        "/tests/files/included_test.glsl".to_string(),
        "float included() { return 1.0; }".to_string(),
    );

    let content = load(&store, "/tests/files/main_test.glsl");
    assert_eq!(content.shader_src.contains("#pragma include"), false);
}

#[test]
fn test_camera_integration() {
    let mut store = SourceStore::new();
    store.insert(
        "/tests/files/camera_integration_test.glsl".to_string(),
        "#pragma skuggbox(camera)\nvoid main() {}\n".to_string(),
    );

    let content = load(&store, "/tests/files/camera_integration_test.glsl");
    let lines = content.shader_src.lines().count();
    assert!(lines > 3, "No integration added");
}

#[test]
fn parent_relative_include_matches_the_canonical_key() {
    let mut store = SourceStore::new();
    store.insert(
        "/s/deep/main.glsl".to_string(),
        "#pragma include(../common.glsl)\nvoid main() {}".to_string(),
    );
    store.insert(
        "/s/common.glsl".to_string(),
        "uniform vec2 iResolution;".to_string(),
    );

    let content = load(&store, "/s/deep/main.glsl");
    let lines: Vec<&str> = content.shader_src.lines().collect();
    assert_eq!(lines[0], "uniform vec2 iResolution;");
    assert!(closure_keys(&content).contains(&"/s/common.glsl".to_string()));

    let files = find_included_files(
        &"/s/deep/main.glsl".to_string(),
        &"#pragma include(../common.glsl)".to_string(),
    );
    assert_eq!(files, vec!["/s/common.glsl".to_string()]);
}

#[test]
fn find_included_files_resolves_against_own_directory() {
    let source = "#version 330\n#pragma include(common.glsl)\n#pragma include('sub/more.glsl')\nvoid main() {}".to_string();
    let files = find_included_files(&"/s/deep/main.glsl".to_string(), &source);
    assert_eq!(
        files,
        vec![
            "/s/deep/common.glsl".to_string(),
            "/s/deep/sub/more.glsl".to_string()
        ]
    );
}
