use vstd::prelude::*;

use crate::shader::error::ShaderError;
use crate::shader::pre_processor::{
    parts_contains, PreProcessor, PreProcessorConfig,
};
use crate::shader::skuggbox_shader::{content_loaded, unit_reloaded, SkuggboxShader};
use crate::shader::store::SourceStore;

verus! {

// ---------------------------------------------------------------------------
// The registry of compiled units and its reload scheduler
// ---------------------------------------------------------------------------

/// Holds every compiled unit of the session, matches changed files to the
/// units whose closure references them, and reprocesses exactly those.
pub struct ShaderService {
    /// All the shader constructs used in this session.
    pub shaders: Vec<SkuggboxShader>,
    pub use_camera_integration: bool,
    pub pre_processor: PreProcessor,
    pub last_error: Option<ShaderError>,
}

impl ShaderService {
    /// Whether the preprocessor currently substitutes the active camera
    /// integration.
    pub open spec fn active(&self) -> bool {
        self.pre_processor.config.use_camera_integration
    }

    /// Builds the registry from one entry path per unit, with the camera
    /// integration switched off.
    pub fn new(store: &SourceStore, shader_files: &Vec<String>) -> (r: ShaderService)
        ensures
            r.active() == false,
            r.use_camera_integration == false,
            r.last_error is None,
            r.shaders@.len() == shader_files@.len(),
            forall|i: int|
                0 <= i < r.shaders@.len() ==> (#[trigger] r.shaders@[i]).content.main_shader_path@
                    == shader_files.deep_view()[i],
            forall|i: int|
                0 <= i < r.shaders@.len() && store@.contains_key(shader_files.deep_view()[i])
                    ==> (#[trigger] r.shaders@[i]).ready_to_compile
                    == r.shaders@[i].content.ready_to_compile && r.shaders@[i].last_error
                    is None && content_loaded(r.shaders@[i].content, store@, false),
            forall|i: int|
                0 <= i < r.shaders@.len() && !store@.contains_key(shader_files.deep_view()[i])
                    ==> !(#[trigger] r.shaders@[i]).ready_to_compile
                    && r.shaders@[i].last_error matches Some(ShaderError::FileError { .. }),
    {
        let pre_processor = PreProcessor::new(
            PreProcessorConfig { use_camera_integration: false },
        );
        let shaders = SkuggboxShader::from_files(&pre_processor, store, shader_files);
        ShaderService { shaders, use_camera_integration: false, pre_processor, last_error: None }
    }

    /// Dispatches one change event: every unit whose closure references the
    /// changed path is reprocessed against `store`; every other unit is left
    /// exactly as it was. Returns the indexes of the reloaded units.
    pub fn handle_change(&mut self, store: &SourceStore, changed_path: &String) -> (reloaded: Vec<
        usize,
    >)
        ensures
            final(self).shaders@.len() == old(self).shaders@.len(),
            final(self).active() == old(self).active(),
            final(self).use_camera_integration == old(self).use_camera_integration,
            final(self).last_error == old(self).last_error,
            forall|j: int|
                0 <= j < old(self).shaders@.len() && !parts_contains(
                    (#[trigger] old(self).shaders@[j]).content.parts@,
                    changed_path@,
                ) ==> final(self).shaders@[j] == old(self).shaders@[j],
            forall|j: int|
                0 <= j < old(self).shaders@.len() && parts_contains(
                    (#[trigger] old(self).shaders@[j]).content.parts@,
                    changed_path@,
                ) ==> unit_reloaded(
                    old(self).shaders@[j],
                    final(self).shaders@[j],
                    store@,
                    old(self).active(),
                ),
            forall|j: int|
                0 <= j < old(self).shaders@.len() ==> (reloaded@.contains(j as usize)
                    <==> parts_contains(
                    (#[trigger] old(self).shaders@[j]).content.parts@,
                    changed_path@,
                )),
            forall|a: int|
                0 <= a < reloaded@.len() ==> #[trigger] reloaded@[a] < old(self).shaders@.len(),
            forall|a: int, b: int|
                0 <= a < b < reloaded@.len() ==> #[trigger] reloaded@[a] < #[trigger] reloaded@[b],
    {
        let mut reloaded: Vec<usize> = Vec::new();
        let mut j: usize = 0;
        while j < self.shaders.len()
            invariant
                j <= old(self).shaders@.len(),
                self.shaders@.len() == old(self).shaders@.len(),
                self.active() == old(self).active(),
                self.use_camera_integration == old(self).use_camera_integration,
                self.last_error == old(self).last_error,
                self.pre_processor == old(self).pre_processor,
                forall|m: int| j <= m < old(self).shaders@.len() ==> #[trigger] self.shaders@[m]
                    == old(self).shaders@[m],
                forall|m: int|
                    0 <= m < j && !parts_contains(
                        (#[trigger] old(self).shaders@[m]).content.parts@,
                        changed_path@,
                    ) ==> self.shaders@[m] == old(self).shaders@[m],
                forall|m: int|
                    0 <= m < j && parts_contains(
                        (#[trigger] old(self).shaders@[m]).content.parts@,
                        changed_path@,
                    ) ==> unit_reloaded(
                        old(self).shaders@[m],
                        self.shaders@[m],
                        store@,
                        old(self).active(),
                    ),
                forall|m: int|
                    0 <= m < old(self).shaders@.len() ==> (#[trigger] reloaded@.contains(
                        m as usize,
                    ) ==> 0 <= m < j),
                forall|m: int|
                    0 <= m < j ==> (reloaded@.contains(m as usize) <==> parts_contains(
                        (#[trigger] old(self).shaders@[m]).content.parts@,
                        changed_path@,
                    )),
                forall|a: int| 0 <= a < reloaded@.len() ==> #[trigger] reloaded@[a] < j,
                forall|a: int, b: int|
                    0 <= a < b < reloaded@.len() ==> #[trigger] reloaded@[a]
                        < #[trigger] reloaded@[b],
            decreases old(self).shaders@.len() - j,
        {
            let uses = self.shaders[j].uses_file(changed_path);
            if uses {
                let ghost reloaded_before = reloaded@;
                let mut unit = SkuggboxShader {
                    content: crate::shader::pre_processor::ShaderContent {
                        shader_id: String::new(),
                        main_shader_path: String::new(),
                        parts: Vec::new(),
                        shader_src: String::new(),
                        ready_to_compile: false,
                    },
                    ready_to_compile: false,
                    last_error: None,
                };
                core::mem::swap(&mut unit, &mut self.shaders[j]);
                proof {
                    assert(unit == old(self).shaders@[j as int]);
                }
                self.reload_unit_with(store, &mut unit);
                self.shaders[j] = unit;
                reloaded.push(j);
                proof {
                    assert forall|m: int|
                        0 <= m < old(self).shaders@.len() implies (#[trigger] reloaded@.contains(
                        m as usize,
                    ) ==> 0 <= m < j + 1) by {
                        if reloaded@.contains(m as usize) {
                            if m != j {
                                assert(reloaded_before.contains(m as usize)) by {
                                    let k = choose|k: int|
                                        0 <= k < reloaded@.len() && reloaded@[k] == m as usize;
                                    if k < reloaded_before.len() {
                                        assert(reloaded_before[k] == m as usize);
                                    }
                                }
                            }
                        }
                    }
                    assert(reloaded@[reloaded@.len() - 1] == j as usize);
                    assert forall|m: int|
                        0 <= m < j + 1 implies (reloaded@.contains(m as usize)
                        <==> parts_contains(
                        (#[trigger] old(self).shaders@[m]).content.parts@,
                        changed_path@,
                    )) by {
                        if m == j {
                            assert(reloaded@.contains(j as usize));
                        } else if parts_contains(
                            old(self).shaders@[m].content.parts@,
                            changed_path@,
                        ) {
                            let k = choose|k: int|
                                0 <= k < reloaded_before.len() && reloaded_before[k]
                                    == m as usize;
                            assert(reloaded@[k] == m as usize);
                            assert(reloaded@.contains(m as usize));
                        } else {
                            if reloaded@.contains(m as usize) {
                                let k = choose|k: int|
                                    0 <= k < reloaded@.len() && reloaded@[k] == m as usize;
                                if k < reloaded_before.len() {
                                    assert(reloaded_before[k] == m as usize);
                                    assert(reloaded_before.contains(m as usize));
                                } else {
                                    assert(reloaded@[k] == j as usize);
                                }
                            }
                        }
                    }
                }
            } else {
                proof {
                    assert forall|m: int|
                        0 <= m < old(self).shaders@.len() implies (#[trigger] reloaded@.contains(
                        m as usize,
                    ) ==> 0 <= m < j + 1) by {}
                    assert(!reloaded@.contains(j as usize));
                }
            }
            j = j + 1;
        }
        reloaded
    }

    /// Replaces the preprocessor configuration and reprocesses every unit,
    /// whether or not any file changed.
    pub fn reload(&mut self, store: &SourceStore, config: PreProcessorConfig)
        ensures
            final(self).shaders@.len() == old(self).shaders@.len(),
            final(self).active() == config.use_camera_integration,
            final(self).use_camera_integration == config.use_camera_integration,
            forall|j: int|
                0 <= j < old(self).shaders@.len() ==> unit_reloaded(
                    #[trigger] old(self).shaders@[j],
                    final(self).shaders@[j],
                    store@,
                    config.use_camera_integration,
                ),
    {
        self.pre_processor = PreProcessor::new(config);
        self.use_camera_integration = config.use_camera_integration;
        let mut j: usize = 0;
        while j < self.shaders.len()
            invariant
                j <= old(self).shaders@.len(),
                self.shaders@.len() == old(self).shaders@.len(),
                self.active() == config.use_camera_integration,
                self.use_camera_integration == config.use_camera_integration,
                forall|m: int| j <= m < old(self).shaders@.len() ==> #[trigger] self.shaders@[m]
                    == old(self).shaders@[m],
                forall|m: int|
                    0 <= m < j ==> unit_reloaded(
                        #[trigger] old(self).shaders@[m],
                        self.shaders@[m],
                        store@,
                        config.use_camera_integration,
                    ),
            decreases old(self).shaders@.len() - j,
        {
            let mut unit = SkuggboxShader {
                content: crate::shader::pre_processor::ShaderContent {
                    shader_id: String::new(),
                    main_shader_path: String::new(),
                    parts: Vec::new(),
                    shader_src: String::new(),
                    ready_to_compile: false,
                },
                ready_to_compile: false,
                last_error: None,
            };
            core::mem::swap(&mut unit, &mut self.shaders[j]);
            self.reload_unit_with(store, &mut unit);
            self.shaders[j] = unit;
            j = j + 1;
        }
    }

    /// The configuration the registry currently preprocesses with.
    fn get_config(&self) -> (r: PreProcessorConfig)
        ensures
            r.use_camera_integration == self.active(),
    {
        self.pre_processor.config
    }

    /// Reprocesses one unit from its entry path; on failure the unit keeps
    /// its previous content and records the error.
    fn reload_unit_with(&self, store: &SourceStore, unit: &mut SkuggboxShader)
        ensures
            unit_reloaded(*old(unit), *final(unit), store@, self.active()),
    {
        let path = unit.content.main_shader_path.clone();
        match self.pre_processor.load_file(store, &path) {
            Ok(content) => {
                let ready_to_compile = content.ready_to_compile;
                unit.content = content;
                unit.ready_to_compile = ready_to_compile;
                unit.last_error = None;
            },
            Err(e) => {
                unit.ready_to_compile = false;
                unit.last_error = Some(e);
            },
        }
    }
}

} // verus!
