use skuggbox::change_event::{should_dispatch, ChangeEvent, ChangeEventKind};
use skuggbox::minime::Minime;
use skuggbox::shader::pre_processor::{PreProcessor, PreProcessorConfig};
use skuggbox::shader::service::ShaderService;
use skuggbox::shader::skuggbox_shader::SkuggboxShader;
use skuggbox::shader::store::SourceStore;
use skuggbox::shader::ShaderError;

fn two_unit_store() -> SourceStore {
    let mut store = SourceStore::new();
    store.insert(
        "/s/a.glsl".to_string(),
        "#pragma include(common.glsl)\nvoid main() {}".to_string(),
    );
    store.insert(
        "/s/common.glsl".to_string(),
        "uniform vec2 iResolution;".to_string(),
    );
    store.insert("/s/b.glsl".to_string(), "void main() {}".to_string());
    store
}

fn entry_paths() -> Vec<String> {
    vec!["/s/a.glsl".to_string(), "/s/b.glsl".to_string()]
}

#[test]
fn change_event_reloads_only_the_unit_that_uses_the_file() {
    let store = two_unit_store();
    let mut service = ShaderService::new(&store, &entry_paths());
    assert!(service.shaders[0].content.shader_src.contains("uniform vec2 iResolution;"));
    let b_source_before = service.shaders[1].content.shader_src.clone();

    let mut changed = two_unit_store();
    changed.insert(
        "/s/common.glsl".to_string(),
        "uniform vec3 iResolution;".to_string(),
    );
    let reloaded = service.handle_change(&changed, &"/s/common.glsl".to_string());

    assert_eq!(reloaded, vec![0]);
    assert!(service.shaders[0].content.shader_src.contains("uniform vec3 iResolution;"));
    assert!(service.shaders[0].ready_to_compile);
    assert_eq!(service.shaders[1].content.shader_src, b_source_before);
}

#[test]
fn change_event_for_unknown_file_reloads_nothing() {
    let store = two_unit_store();
    let mut service = ShaderService::new(&store, &entry_paths());
    let a_before = service.shaders[0].content.shader_src.clone();
    let b_before = service.shaders[1].content.shader_src.clone();

    let reloaded = service.handle_change(&store, &"/s/unrelated.glsl".to_string());

    assert!(reloaded.is_empty());
    assert_eq!(service.shaders[0].content.shader_src, a_before);
    assert_eq!(service.shaders[1].content.shader_src, b_before);
}

#[test]
fn shared_include_reloads_every_unit_that_uses_it() {
    let mut store = two_unit_store();
    store.insert(
        "/s/b.glsl".to_string(),
        "#pragma include(common.glsl)\nvoid main() {}".to_string(),
    );
    let mut service = ShaderService::new(&store, &entry_paths());

    let reloaded = service.handle_change(&store, &"/s/common.glsl".to_string());
    assert_eq!(reloaded, vec![0, 1]);
}

#[test]
fn config_change_reloads_every_unit() {
    let mut store = SourceStore::new();
    store.insert(
        "/s/a.glsl".to_string(),
        "#pragma skuggbox(camera)\nvoid main() {}".to_string(),
    );
    let mut service = ShaderService::new(&store, &vec!["/s/a.glsl".to_string()]);
    assert!(!service.use_camera_integration);
    assert!(!service.shaders[0].content.shader_src.contains("#define USE_SKUGGBOX_CAMERA"));

    service.reload(
        &store,
        PreProcessorConfig {
            use_camera_integration: true,
        },
    );

    assert!(service.use_camera_integration);
    assert!(service.shaders[0].content.shader_src.contains("#define USE_SKUGGBOX_CAMERA"));
}

#[test]
fn failed_reload_keeps_the_last_good_source() {
    let store = two_unit_store();
    let mut service = ShaderService::new(&store, &entry_paths());
    let a_before = service.shaders[0].content.shader_src.clone();

    // The entry file disappears from the snapshot before the next reload.
    let mut broken = SourceStore::new();
    broken.insert(
        "/s/common.glsl".to_string(),
        "uniform vec4 iResolution;".to_string(),
    );
    let reloaded = service.handle_change(&broken, &"/s/common.glsl".to_string());

    assert_eq!(reloaded, vec![0]);
    assert_eq!(service.shaders[0].content.shader_src, a_before);
    assert!(!service.shaders[0].ready_to_compile);
    assert!(matches!(
        service.shaders[0].last_error,
        Some(ShaderError::FileError { .. })
    ));
    assert!(service.shaders[0]
        .last_error
        .as_ref()
        .unwrap()
        .message()
        .contains("/s/a.glsl"));
}

#[test]
fn unreadable_entry_yields_a_unit_with_an_error() {
    let store = SourceStore::new();
    let pre = PreProcessor::new(PreProcessorConfig {
        use_camera_integration: false,
    });
    let units = SkuggboxShader::from_files(&pre, &store, &vec!["/s/gone.glsl".to_string()]);
    assert_eq!(units.len(), 1);
    assert!(!units[0].ready_to_compile);
    assert!(matches!(
        units[0].last_error,
        Some(ShaderError::FileError { .. })
    ));
}

#[test]
fn unit_knows_its_closure() {
    let store = two_unit_store();
    let pre = PreProcessor::new(PreProcessorConfig {
        use_camera_integration: false,
    });
    let units = SkuggboxShader::from_files(&pre, &store, &entry_paths());

    assert!(units[0].uses_file(&"/s/common.glsl".to_string()));
    assert!(units[0].uses_file(&"/s/a.glsl".to_string()));
    assert!(!units[1].uses_file(&"/s/common.glsl".to_string()));
    assert_eq!(units[0].get_main_shader_path().as_str(), "/s/a.glsl");
    let mut files = units[0].get_all_files();
    files.sort();
    assert_eq!(
        files,
        vec!["/s/a.glsl".to_string(), "/s/common.glsl".to_string()]
    );
}

#[test]
fn recompilation_mark_replaces_the_content() {
    let store = two_unit_store();
    let pre = PreProcessor::new(PreProcessorConfig {
        use_camera_integration: false,
    });
    let mut units = SkuggboxShader::from_files(&pre, &store, &entry_paths());
    let replacement = pre
        .load_file(&store, &"/s/b.glsl".to_string())
        .expect("entry should resolve");

    let unit = &mut units[0];
    unit.mark_for_recompilation(replacement.clone());
    assert_eq!(unit.content.shader_src, replacement.shader_src);
    assert!(unit.ready_to_compile);
}

#[test]
fn only_write_events_are_dispatched() {
    let write = ChangeEvent {
        path: "/s/a.glsl".to_string(),
        kind: ChangeEventKind::Write,
    };
    let create = ChangeEvent {
        path: "/s/a.glsl".to_string(),
        kind: ChangeEventKind::Create,
    };
    let remove = ChangeEvent {
        path: "/s/a.glsl".to_string(),
        kind: ChangeEventKind::Remove,
    };
    assert!(should_dispatch(&write));
    assert!(!should_dispatch(&create));
    assert!(!should_dispatch(&remove));
}

#[test]
fn minime_arguments_follow_the_configuration() {
    let minime = Minime::new("/usr/bin/minime-preprocess".to_string());
    assert_eq!(
        minime.preprocess_args("/s/a.glsl".to_string(), false),
        vec!["-stdout".to_string(), "/s/a.glsl".to_string()]
    );
    assert_eq!(
        minime.preprocess_args("/s/a.glsl".to_string(), true),
        vec![
            "-D".to_string(),
            "USE_SKUGGBOX_CAMERA".to_string(),
            "-stdout".to_string(),
            "/s/a.glsl".to_string()
        ]
    );
}
