use vstd::prelude::*;

use crate::paths::file_stem_spec;
use crate::shader::error::ShaderError;
use crate::shader::pre_processor::{
    closure_contains, include_free, key_referenced, parts_contains, parts_keys_unique, parts_wf,
    resolved_blocks, PreProcessor, ShaderContent,
};
use crate::shader::store::SourceStore;
use crate::text::split_spec;
use crate::paths::file_stem;

verus! {

// ---------------------------------------------------------------------------
// One compiled unit: an entry shader with its include closure
// ---------------------------------------------------------------------------

/// A successfully resolved unit: ready to compile exactly when its final
/// source is non-empty, the entry file is part of its own closure, every
/// closure entry is readable and fully resolved, and the final source
/// holds no unresolved include pragma.
pub open spec fn content_loaded(
    c: ShaderContent,
    store: Map<Seq<char>, Seq<char>>,
    active: bool,
) -> bool {
    &&& c.ready_to_compile <==> c.shader_src@.len() != 0
    &&& c.shader_id@ == file_stem_spec(c.main_shader_path@)
    &&& parts_contains(c.parts@, c.main_shader_path@)
    &&& c.parts@.len() >= 1
    &&& c.parts@.last().0@ == c.main_shader_path@
    &&& c.parts@.last().1.shader_src@ == c.shader_src@
    &&& parts_wf(c.parts@, store, active)
    &&& parts_keys_unique(c.parts@)
    &&& (forall|i: int|
        0 <= i < c.parts@.len() - 1 ==> key_referenced(
            store,
            c.parts@,
            c.main_shader_path@,
            (#[trigger] c.parts@[i]).0@,
        ))
    &&& include_free(split_spec(c.shader_src@, '\n'))
    &&& resolved_blocks(
        store,
        Set::<Seq<char>>::empty().insert(c.main_shader_path@),
        c.main_shader_path@,
        active,
        c.shader_src@,
        c.parts@,
    )
}

/// How one unit looks after a load or reload against `store`: success
/// exactly when the entry file is readable, with the ready flag taken from
/// the resolved content; on failure the previous content is kept, the unit
/// is not ready, and the error is recorded.
pub open spec fn unit_reloaded(
    prev: SkuggboxShader,
    next: SkuggboxShader,
    store: Map<Seq<char>, Seq<char>>,
    active: bool,
) -> bool {
    &&& next.content.main_shader_path@ == prev.content.main_shader_path@
    &&& if store.contains_key(prev.content.main_shader_path@) {
        &&& next.ready_to_compile == next.content.ready_to_compile
        &&& next.last_error is None
        &&& content_loaded(next.content, store, active)
    } else {
        &&& next.content == prev.content
        &&& !next.ready_to_compile
        &&& next.last_error matches Some(ShaderError::FileError { .. })
    }
}

/// One top-level shader document: its resolved textual content, whether the
/// next frame should recompile it, and the last error it ran into.
pub struct SkuggboxShader {
    pub content: ShaderContent,
    pub ready_to_compile: bool,
    pub last_error: Option<ShaderError>,
}

impl SkuggboxShader {
    /// Creates one unit per entry path by resolving each against `store`.
    /// An unreadable entry yields a unit that is not ready and carries the
    /// error; the session goes on with the units that loaded.
    pub fn from_files(
        pre_processor: &PreProcessor,
        store: &SourceStore,
        shader_files: &Vec<String>,
    ) -> (r: Vec<SkuggboxShader>)
        ensures
            r@.len() == shader_files@.len(),
            forall|i: int|
                0 <= i < r@.len() ==> (#[trigger] r@[i]).content.main_shader_path@
                    == shader_files.deep_view()[i],
            forall|i: int|
                0 <= i < r@.len() ==> (#[trigger] r@[i]).content.parts@.len() == 0 || store@.contains_key(
                    shader_files.deep_view()[i],
                ),
            forall|i: int|
                0 <= i < r@.len() && store@.contains_key(shader_files.deep_view()[i]) ==> (
                #[trigger] r@[i]).ready_to_compile == r@[i].content.ready_to_compile && r@[
                    i
                ].last_error is None && content_loaded(
                    r@[i].content,
                    store@,
                    pre_processor.config.use_camera_integration,
                ),
            forall|i: int|
                0 <= i < r@.len() && !store@.contains_key(shader_files.deep_view()[i]) ==> !(
                #[trigger] r@[i]).ready_to_compile && r@[i].last_error matches Some(
                    ShaderError::FileError { .. },
                ),
    {
        let mut out: Vec<SkuggboxShader> = Vec::new();
        let mut k: usize = 0;
        while k < shader_files.len()
            invariant
                k <= shader_files@.len(),
                out@.len() == k,
                forall|i: int|
                    0 <= i < k ==> (#[trigger] out@[i]).content.main_shader_path@
                        == shader_files.deep_view()[i],
                forall|i: int|
                    0 <= i < k ==> (#[trigger] out@[i]).content.parts@.len() == 0
                        || store@.contains_key(shader_files.deep_view()[i]),
                forall|i: int|
                    0 <= i < k && store@.contains_key(shader_files.deep_view()[i]) ==> (
                    #[trigger] out@[i]).ready_to_compile == out@[i].content.ready_to_compile
                        && out@[i].last_error is None && content_loaded(
                        out@[i].content,
                        store@,
                        pre_processor.config.use_camera_integration,
                    ),
                forall|i: int|
                    0 <= i < k && !store@.contains_key(shader_files.deep_view()[i]) ==> !(
                    #[trigger] out@[i]).ready_to_compile && out@[i].last_error matches Some(
                        ShaderError::FileError { .. },
                    ),
            decreases shader_files@.len() - k,
        {
            proof {
                assert(shader_files@[k as int]@ == shader_files.deep_view()[k as int]);
            }
            let path = &shader_files[k];
            let unit = match pre_processor.load_file(store, path) {
                Ok(content) => {
                    let ready_to_compile = content.ready_to_compile;
                    SkuggboxShader { content, ready_to_compile, last_error: None }
                },
                Err(e) => SkuggboxShader {
                    content: ShaderContent {
                        shader_id: file_stem(path.as_str()),
                        main_shader_path: path.clone(),
                        parts: Vec::new(),
                        shader_src: String::new(),
                        ready_to_compile: false,
                    },
                    ready_to_compile: false,
                    last_error: Some(e),
                },
            };
            out.push(unit);
            k = k + 1;
        }
        out
    }

    /// Returns all files that are part of this shader due to inclusion:
    /// the closure keys in closure order, free of duplicates whenever the
    /// closure's keys are.
    pub fn get_all_files(&self) -> (r: Vec<String>)
        ensures
            r@.len() == self.content.parts@.len(),
            forall|i: int|
                0 <= i < r@.len() ==> r.deep_view()[i] == #[trigger] self.content.parts@[i].0@,
            parts_keys_unique(self.content.parts@) ==> forall|i: int, j: int|
                0 <= i < j < r@.len() ==> #[trigger] r.deep_view()[i] != #[trigger] r.deep_view()[j],
    {
        let mut out: Vec<String> = Vec::new();
        let mut i: usize = 0;
        while i < self.content.parts.len()
            invariant
                i <= self.content.parts@.len(),
                out@.len() == i,
                forall|m: int|
                    0 <= m < i ==> out.deep_view()[m] == #[trigger] self.content.parts@[m].0@,
            decreases self.content.parts@.len() - i,
        {
            out.push(self.content.parts[i].0.clone());
            i = i + 1;
        }
        proof {
            if parts_keys_unique(self.content.parts@) {
                assert forall|a: int, b: int|
                    0 <= a < b < out@.len() implies #[trigger] out.deep_view()[a]
                    != #[trigger] out.deep_view()[b] by {
                    assert(out.deep_view()[a] == self.content.parts@[a].0@);
                    assert(out.deep_view()[b] == self.content.parts@[b].0@);
                }
            }
        }
        out
    }

    /// Returns true if a file is used by the shader.
    pub fn uses_file(&self, path: &String) -> (r: bool)
        ensures
            r == parts_contains(self.content.parts@, path@),
    {
        closure_contains(&self.content.parts, path.as_str())
    }

    /// Return the main shader path from where the inclusion tree starts.
    pub fn get_main_shader_path(&self) -> (r: &String)
        ensures
            r@ == self.content.main_shader_path@,
    {
        &self.content.main_shader_path
    }

    /// Mark the shader so that it is recompiled during the next frame.
    pub fn mark_for_recompilation(&mut self, shader: ShaderContent)
        ensures
            final(self).content == shader,
            final(self).ready_to_compile == shader.ready_to_compile,
            final(self).last_error == old(self).last_error,
    {
        self.ready_to_compile = shader.ready_to_compile;
        self.content = shader;
    }
}

} // verus!
