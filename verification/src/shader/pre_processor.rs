use vstd::prelude::*;

use crate::paths::{
    file_name, file_name_spec, file_stem, file_stem_spec, join_path, join_path_spec,
    normalize_path, normalize_spec, parent_dir, parent_dir_spec,
};
use crate::shader::error::ShaderError;
use crate::shader::store::SourceStore;
use crate::text::{
    concat_splits, contains_seq, is_blank, lemma_concat_splits_push, lemma_contains_subrange,
    lemma_contains_trim_start, lemma_split_join, lemma_split_no_sep, lemma_split_piece_subrange,
    lemma_split_pieces_no_sep, match_at, split_spec, starts_with, str_contains, str_eq,
    str_starts_with, str_trim, str_trim_start, trim_spec, trim_start_spec,
};
use crate::utils::{pragma_name_spec, pragma_shader_name};
use vstd::set_lib::lemma_len_subset;

verus! {

// ---------------------------------------------------------------------------
// Line classification
// ---------------------------------------------------------------------------

/// A line whose leading whitespace has been stripped is an include pragma
/// when it begins with `#pragma` and mentions `include`.
pub open spec fn is_include_line_spec(s: Seq<char>) -> bool {
    starts_with(s, "#pragma"@) && contains_seq(s, "include"@)
}

/// A raw source line is an include pragma after stripping its leading
/// whitespace.
pub open spec fn include_line(l: Seq<char>) -> bool {
    is_include_line_spec(trim_start_spec(l))
}

/// None of the given lines is an include pragma.
pub open spec fn include_free(ls: Seq<Seq<char>>) -> bool {
    forall|i: int| 0 <= i < ls.len() ==> !include_line(#[trigger] ls[i])
}

/// True when a source line, already stripped of leading whitespace, is an
/// include pragma.
pub fn is_include_line(s: &str) -> (r: bool)
    ensures
        r == is_include_line_spec(s@),
{
    str_starts_with(s, "#pragma") && str_contains(s, "include")
}

/// A line that requests the camera integration, ignoring surrounding
/// whitespace.
pub open spec fn camera_pragma_line(l: Seq<char>) -> bool {
    trim_spec(l) == "#pragma skuggbox(camera)"@
}

// ---------------------------------------------------------------------------
// The camera integration snippet
// ---------------------------------------------------------------------------

/// The GLSL block that replaces a camera pragma: a stub whose active arm is
/// switched on by defining `USE_SKUGGBOX_CAMERA`.
pub open spec fn camera_text(active: bool) -> Seq<char> {
    if active {
        "#define USE_SKUGGBOX_CAMERA\n#ifdef USE_SKUGGBOX_CAMERA\n    uniform mat4 sbCameraTransform;\n    void skuggbox_camera(vec2 uv, inout vec3 ro, inout vec3 rd) {\n        ro = sbCameraTransform[3].xyz;\n        rd = mat3(sbCameraTransform) * normalize(vec3(uv, 1));\n    }\n    #else\n    void skuggbox_camera(vec2 uv, inout vec3 ro, inout vec3 rd) {\n        // empty\n    }\n    #endif"@
    } else {
        "#ifdef USE_SKUGGBOX_CAMERA\n    uniform mat4 sbCameraTransform;\n    void skuggbox_camera(vec2 uv, inout vec3 ro, inout vec3 rd) {\n        ro = sbCameraTransform[3].xyz;\n        rd = mat3(sbCameraTransform) * normalize(vec3(uv, 1));\n    }\n    #else\n    void skuggbox_camera(vec2 uv, inout vec3 ro, inout vec3 rd) {\n        // empty\n    }\n    #endif"@
    }
}

/// The camera snippet as lines.
pub open spec fn camera_block_lines(active: bool) -> Seq<Seq<char>> {
    split_spec(camera_text(active), '\n')
}

/// The camera snippet never mentions `#pragma`, so none of its lines is an
/// include pragma.
pub proof fn lemma_camera_block_include_free(active: bool)
    ensures
        include_free(camera_block_lines(active)),
{
    let t = camera_text(active);
    let p = "#pragma"@;
    reveal_strlit("#pragma");
    reveal_strlit(
        "#define USE_SKUGGBOX_CAMERA\n#ifdef USE_SKUGGBOX_CAMERA\n    uniform mat4 sbCameraTransform;\n    void skuggbox_camera(vec2 uv, inout vec3 ro, inout vec3 rd) {\n        ro = sbCameraTransform[3].xyz;\n        rd = mat3(sbCameraTransform) * normalize(vec3(uv, 1));\n    }\n    #else\n    void skuggbox_camera(vec2 uv, inout vec3 ro, inout vec3 rd) {\n        // empty\n    }\n    #endif",
    );
    reveal_strlit(
        "#ifdef USE_SKUGGBOX_CAMERA\n    uniform mat4 sbCameraTransform;\n    void skuggbox_camera(vec2 uv, inout vec3 ro, inout vec3 rd) {\n        ro = sbCameraTransform[3].xyz;\n        rd = mat3(sbCameraTransform) * normalize(vec3(uv, 1));\n    }\n    #else\n    void skuggbox_camera(vec2 uv, inout vec3 ro, inout vec3 rd) {\n        // empty\n    }\n    #endif",
    );
    assert forall|i: int| true implies !match_at(t, p, i) by {
        if match_at(t, p, i) {
            assert(t.subrange(i, i + 7)[0] == p[0]);
            assert(t.subrange(i, i + 7)[1] == p[1]);
            assert(t[i] == '#');
            assert(t[i + 1] == 'p');
        }
    }
    assert(!contains_seq(t, p));
    let ls = camera_block_lines(active);
    assert forall|i: int| 0 <= i < ls.len() implies !include_line(#[trigger] ls[i]) by {
        if include_line(ls[i]) {
            lemma_split_piece_subrange(t, '\n', i);
            let a = choose|a: int|
                0 <= a && a + ls[i].len() <= t.len() && ls[i] == #[trigger] t.subrange(
                    a,
                    a + ls[i].len() as int,
                );
            assert(match_at(trim_start_spec(ls[i]), p, 0));
            assert(contains_seq(trim_start_spec(ls[i]), p));
            lemma_contains_trim_start(ls[i], p);
            lemma_contains_subrange(t, a, a + ls[i].len() as int, p);
        }
    }
}

// ---------------------------------------------------------------------------
// Substituting feature pragmas
// ---------------------------------------------------------------------------

/// Each camera pragma line is replaced by the camera snippet; every other
/// line is kept as it is.
pub open spec fn subst_camera_spec(ls: Seq<Seq<char>>, active: bool) -> Seq<Seq<char>>
    decreases ls.len(),
{
    if ls.len() == 0 {
        Seq::<Seq<char>>::empty()
    } else {
        (if camera_pragma_line(ls[0]) {
            camera_block_lines(active)
        } else {
            seq![ls[0]]
        }) + subst_camera_spec(ls.drop_first(), active)
    }
}

proof fn lemma_subst_camera_push(ls: Seq<Seq<char>>, l: Seq<char>, active: bool)
    ensures
        subst_camera_spec(ls.push(l), active) == subst_camera_spec(ls, active) + (
        if camera_pragma_line(l) {
            camera_block_lines(active)
        } else {
            seq![l]
        }),
    decreases ls.len(),
{
    let tail = if camera_pragma_line(l) {
        camera_block_lines(active)
    } else {
        seq![l]
    };
    if ls.len() == 0 {
        assert(ls.push(l).drop_first() =~= Seq::<Seq<char>>::empty());
        assert(ls.push(l)[0] == l);
        assert(subst_camera_spec(Seq::<Seq<char>>::empty(), active) == Seq::<Seq<char>>::empty());
        assert(subst_camera_spec(ls.push(l), active) =~~= subst_camera_spec(ls, active) + tail);
    } else {
        lemma_subst_camera_push(ls.drop_first(), l, active);
        let lp = ls.push(l);
        assert(lp.len() > 0);
        assert(subst_camera_spec(lp, active) == (if camera_pragma_line(lp[0]) {
            camera_block_lines(active)
        } else {
            seq![lp[0]]
        }) + subst_camera_spec(lp.drop_first(), active));
        assert(lp.drop_first() =~= ls.drop_first().push(l));
        assert(lp[0] == ls[0]);
        assert(subst_camera_spec(ls.push(l), active) =~~= subst_camera_spec(ls, active) + tail);
    }
}

/// Substitution never introduces an include pragma.
pub proof fn lemma_subst_camera_include_free(ls: Seq<Seq<char>>, active: bool)
    requires
        include_free(ls),
    ensures
        include_free(subst_camera_spec(ls, active)),
    decreases ls.len(),
{
    if ls.len() > 0 {
        assert(include_free(ls.drop_first())) by {
            assert(forall|i: int|
                0 <= i < ls.drop_first().len() ==> #[trigger] ls.drop_first()[i] == ls[i + 1]);
        }
        lemma_subst_camera_include_free(ls.drop_first(), active);
        lemma_camera_block_include_free(active);
        let head = if camera_pragma_line(ls[0]) {
            camera_block_lines(active)
        } else {
            seq![ls[0]]
        };
        let r = subst_camera_spec(ls, active);
        assert forall|i: int| 0 <= i < r.len() implies !include_line(#[trigger] r[i]) by {
            if i < head.len() {
                assert(r[i] == head[i]);
            } else {
                assert(r[i] == subst_camera_spec(ls.drop_first(), active)[i - head.len()]);
            }
        }
    }
}

// ---------------------------------------------------------------------------
// Commented-out lines and include targets
// ---------------------------------------------------------------------------

/// `l` turned into a comment line.
pub open spec fn comment_of(l: Seq<char>) -> Seq<char> {
    "// "@ + l
}

/// A commented-out line is never an include pragma.
pub proof fn lemma_comment_not_include(l: Seq<char>)
    ensures
        !include_line(comment_of(l)),
{
    reveal_strlit("// ");
    reveal_strlit("#pragma");
    let c = comment_of(l);
    assert(c[0] == '/');
    assert(!is_blank(c[0]));
    assert(trim_start_spec(c) == c);
    if include_line(c) {
        assert(c.subrange(0, 7)[0] == "#pragma"@[0]);
        assert(c[0] == '#');
    }
}

/// Commenting a line free of newlines yields a line free of newlines.
pub proof fn lemma_comment_no_newline(l: Seq<char>)
    requires
        forall|j: int| 0 <= j < l.len() ==> l[j] != '\n',
    ensures
        forall|j: int| 0 <= j < comment_of(l).len() ==> comment_of(l)[j] != '\n',
{
    reveal_strlit("// ");
    let c = comment_of(l);
    assert forall|j: int| 0 <= j < c.len() implies c[j] != '\n' by {
        if j >= 3 {
            assert(c[j] == l[j - 3]);
        }
    }
}

/// `line` turned into a comment line.
fn comment_line(line: &str) -> (r: String)
    ensures
        r@ == comment_of(line@),
{
    let mut out = String::from_str("// ");
    out.append(line);
    out
}

/// The path an include pragma on `line` of the file at `path` refers to:
/// the named file, relative to the including file's own directory, with
/// `.` and `..` components resolved lexically so that the key matches the
/// canonical paths the store is keyed by. `None` when `path` has no
/// directory part.
pub open spec fn include_target(path: Seq<char>, line: Seq<char>) -> Option<Seq<char>> {
    match parent_dir_spec(path) {
        Some(d) => Some(normalize_spec(join_path_spec(d, pragma_name_spec(line)))),
        None => None,
    }
}

/// The include on `line` cannot be expanded: it has no resolvable target,
/// its target was already loaded when this file's resolution began, or the
/// target cannot be read.
pub open spec fn comment_forced(
    store: Map<Seq<char>, Seq<char>>,
    already: Set<Seq<char>>,
    path: Seq<char>,
    line: Seq<char>,
) -> bool {
    match include_target(path, line) {
        None => true,
        Some(t) => already.contains(t) || !store.contains_key(t),
    }
}

/// How a resolved source relates to the text of the file it came from:
/// there is one output block per input line; a line that is no include
/// pragma is kept unchanged, an include pragma whose expansion is
/// impossible is commented out, an expandable include pragma turns into
/// the resolved source of a closure entry for its target (or a comment,
/// when the target had already been pulled in by an earlier line of this
/// resolution — before the first include line nothing has been, so there
/// the expansion is forced), and the final text is the blocks joined and
/// passed through feature-pragma substitution.
pub open spec fn resolved_blocks(
    store: Map<Seq<char>, Seq<char>>,
    already: Set<Seq<char>>,
    path: Seq<char>,
    active: bool,
    src: Seq<char>,
    parts: Seq<(String, Part)>,
) -> bool {
    let in_ls = split_spec(store[path], '\n');
    exists|bls: Seq<Seq<char>>|
        {
            &&& bls.len() == in_ls.len()
            &&& split_spec(src, '\n') == subst_camera_spec(concat_splits(bls, '\n'), active)
            &&& (forall|m: int|
                0 <= m < in_ls.len() && !include_line(#[trigger] in_ls[m]) ==> bls[m] == in_ls[m])
            &&& (forall|m: int|
                0 <= m < in_ls.len() && include_line(#[trigger] in_ls[m]) && comment_forced(
                    store,
                    already,
                    path,
                    in_ls[m],
                ) ==> bls[m] == comment_of(in_ls[m]))
            &&& (forall|m: int|
                0 <= m < in_ls.len() && include_line(#[trigger] in_ls[m]) && !comment_forced(
                    store,
                    already,
                    path,
                    in_ls[m],
                ) ==> exists|k: int|
                    0 <= k < parts.len() && (#[trigger] parts[k]).0@ == include_target(
                        path,
                        in_ls[m],
                    )->0 && (bls[m] == parts[k].1.shader_src@ || bls[m] == comment_of(in_ls[m])))
            &&& (forall|m: int|
                0 <= m < in_ls.len() && include_line(#[trigger] in_ls[m]) && !comment_forced(
                    store,
                    already,
                    path,
                    in_ls[m],
                ) && (forall|m2: int| 0 <= m2 < m ==> !include_line(#[trigger] in_ls[m2]))
                    ==> exists|k: int|
                    0 <= k < parts.len() && (#[trigger] parts[k]).0@ == include_target(
                        path,
                        in_ls[m],
                    )->0 && bls[m] == parts[k].1.shader_src@)
        }
}

/// A resolution relation is not disturbed by later additions to the
/// closure.
pub proof fn lemma_resolved_blocks_grow(
    store: Map<Seq<char>, Seq<char>>,
    already: Set<Seq<char>>,
    path: Seq<char>,
    active: bool,
    src: Seq<char>,
    parts1: Seq<(String, Part)>,
    parts2: Seq<(String, Part)>,
)
    requires
        resolved_blocks(store, already, path, active, src, parts1),
        parts1.is_prefix_of(parts2),
    ensures
        resolved_blocks(store, already, path, active, src, parts2),
{
    let in_ls = split_spec(store[path], '\n');
    let bls = choose|bls: Seq<Seq<char>>|
        {
            &&& bls.len() == in_ls.len()
            &&& split_spec(src, '\n') == subst_camera_spec(concat_splits(bls, '\n'), active)
            &&& (forall|m: int|
                0 <= m < in_ls.len() && !include_line(#[trigger] in_ls[m]) ==> bls[m] == in_ls[m])
            &&& (forall|m: int|
                0 <= m < in_ls.len() && include_line(#[trigger] in_ls[m]) && comment_forced(
                    store,
                    already,
                    path,
                    in_ls[m],
                ) ==> bls[m] == comment_of(in_ls[m]))
            &&& (forall|m: int|
                0 <= m < in_ls.len() && include_line(#[trigger] in_ls[m]) && !comment_forced(
                    store,
                    already,
                    path,
                    in_ls[m],
                ) ==> exists|k: int|
                    0 <= k < parts1.len() && (#[trigger] parts1[k]).0@ == include_target(
                        path,
                        in_ls[m],
                    )->0 && (bls[m] == parts1[k].1.shader_src@ || bls[m] == comment_of(
                        in_ls[m],
                    )))
            &&& (forall|m: int|
                0 <= m < in_ls.len() && include_line(#[trigger] in_ls[m]) && !comment_forced(
                    store,
                    already,
                    path,
                    in_ls[m],
                ) && (forall|m2: int| 0 <= m2 < m ==> !include_line(#[trigger] in_ls[m2]))
                    ==> exists|k: int|
                    0 <= k < parts1.len() && (#[trigger] parts1[k]).0@ == include_target(
                        path,
                        in_ls[m],
                    )->0 && bls[m] == parts1[k].1.shader_src@)
        };
    assert forall|m: int|
        0 <= m < in_ls.len() && include_line(#[trigger] in_ls[m]) && !comment_forced(
            store,
            already,
            path,
            in_ls[m],
        ) implies exists|k: int|
        0 <= k < parts2.len() && (#[trigger] parts2[k]).0@ == include_target(path, in_ls[m])->0
            && (bls[m] == parts2[k].1.shader_src@ || bls[m] == comment_of(in_ls[m])) by {
        let k = choose|k: int|
            0 <= k < parts1.len() && (#[trigger] parts1[k]).0@ == include_target(
                path,
                in_ls[m],
            )->0 && (bls[m] == parts1[k].1.shader_src@ || bls[m] == comment_of(in_ls[m]));
        assert(parts2[k] == parts1[k]);
    }
    assert forall|m: int|
        0 <= m < in_ls.len() && include_line(#[trigger] in_ls[m]) && !comment_forced(
            store,
            already,
            path,
            in_ls[m],
        ) && (forall|m2: int| 0 <= m2 < m ==> !include_line(#[trigger] in_ls[m2])) implies exists|
        k: int,
    |
        0 <= k < parts2.len() && (#[trigger] parts2[k]).0@ == include_target(path, in_ls[m])->0
            && bls[m] == parts2[k].1.shader_src@ by {
        let k = choose|k: int|
            0 <= k < parts1.len() && (#[trigger] parts1[k]).0@ == include_target(
                path,
                in_ls[m],
            )->0 && bls[m] == parts1[k].1.shader_src@;
        assert(parts2[k] == parts1[k]);
    }
}

// ---------------------------------------------------------------------------
// The closure of parts and the set of loaded files
// ---------------------------------------------------------------------------

/// The closure holds an entry for the file at `k`.
pub open spec fn parts_contains(parts: Seq<(String, Part)>, k: Seq<char>) -> bool {
    exists|i: int| 0 <= i < parts.len() && parts[i].0@ == k
}

/// One closure entry is well formed: it is keyed by a readable path,
/// records its own path, carries fully resolved source text, and that text
/// is itself a resolution of the keyed file's stored contents — kept lines,
/// commented-out includes and expansions drawn from the closure, for some
/// set of files loaded when the entry's resolution began.
pub open spec fn part_entry_wf(
    entry: (String, Part),
    store: Map<Seq<char>, Seq<char>>,
    active: bool,
    parts: Seq<(String, Part)>,
) -> bool {
    &&& store.contains_key(entry.0@)
    &&& entry.1.shader_path@ == entry.0@
    &&& include_free(split_spec(entry.1.shader_src@, '\n'))
    &&& exists|already: Set<Seq<char>>|
        resolved_blocks(store, already, entry.0@, active, entry.1.shader_src@, parts)
}

/// Every closure entry is well formed.
pub open spec fn parts_wf(
    parts: Seq<(String, Part)>,
    store: Map<Seq<char>, Seq<char>>,
    active: bool,
) -> bool {
    forall|i: int| 0 <= i < parts.len() ==> part_entry_wf(#[trigger] parts[i], store, active, parts)
}

/// A closure whose entries are well formed keeps them well formed when it
/// grows, and entries that are well formed against the grown closure may
/// be appended.
proof fn lemma_parts_wf_grow(
    parts1: Seq<(String, Part)>,
    parts2: Seq<(String, Part)>,
    store: Map<Seq<char>, Seq<char>>,
    active: bool,
)
    requires
        parts_wf(parts1, store, active),
        parts1.is_prefix_of(parts2),
        forall|i: int|
            parts1.len() <= i < parts2.len() ==> part_entry_wf(
                #[trigger] parts2[i],
                store,
                active,
                parts2,
            ),
    ensures
        parts_wf(parts2, store, active),
{
    assert forall|i: int|
        0 <= i < parts2.len() implies part_entry_wf(#[trigger] parts2[i], store, active, parts2) by {
        if i < parts1.len() {
            assert(parts2[i] == parts1[i]);
            assert(part_entry_wf(parts1[i], store, active, parts1));
            let already = choose|already: Set<Seq<char>>|
                resolved_blocks(store, already, parts1[i].0@, active, parts1[i].1.shader_src@, parts1);
            lemma_resolved_blocks_grow(
                store,
                already,
                parts1[i].0@,
                active,
                parts1[i].1.shader_src@,
                parts1,
                parts2,
            );
        }
    }
}

/// `k` is referenced by an include pragma on some line of the file stored
/// at `src_path`.
pub open spec fn is_include_target_in(
    store: Map<Seq<char>, Seq<char>>,
    src_path: Seq<char>,
    k: Seq<char>,
) -> bool {
    exists|m: int|
        0 <= m < split_spec(store[src_path], '\n').len() && include_line(
            #[trigger] split_spec(store[src_path], '\n')[m],
        ) && include_target(src_path, split_spec(store[src_path], '\n')[m]) == Some(k)
}

/// `k` is reachable by one include step from the file at `root` or from a
/// file already in the closure: no closure entry comes out of thin air.
pub open spec fn key_referenced(
    store: Map<Seq<char>, Seq<char>>,
    parts: Seq<(String, Part)>,
    root: Seq<char>,
    k: Seq<char>,
) -> bool {
    exists|src_path: Seq<char>|
        (src_path == root || parts_contains(parts, src_path)) && store.contains_key(src_path)
            && #[trigger] is_include_target_in(store, src_path, k)
}

proof fn lemma_key_referenced_grow(
    store: Map<Seq<char>, Seq<char>>,
    parts1: Seq<(String, Part)>,
    parts2: Seq<(String, Part)>,
    root: Seq<char>,
    k: Seq<char>,
)
    requires
        key_referenced(store, parts1, root, k),
        parts1.is_prefix_of(parts2),
    ensures
        key_referenced(store, parts2, root, k),
{
    let sp = choose|sp: Seq<char>|
        (sp == root || parts_contains(parts1, sp)) && store.contains_key(sp)
            && #[trigger] is_include_target_in(store, sp, k);
    if sp != root {
        let i = choose|i: int| 0 <= i < parts1.len() && parts1[i].0@ == sp;
        assert(parts2[i] == parts1[i]);
    }
}

proof fn lemma_key_referenced_reroot(
    store: Map<Seq<char>, Seq<char>>,
    parts1: Seq<(String, Part)>,
    parts2: Seq<(String, Part)>,
    old_root: Seq<char>,
    new_root: Seq<char>,
    k: Seq<char>,
)
    requires
        key_referenced(store, parts1, old_root, k),
        parts1.is_prefix_of(parts2),
        parts_contains(parts2, old_root),
    ensures
        key_referenced(store, parts2, new_root, k),
{
    let sp = choose|sp: Seq<char>|
        (sp == old_root || parts_contains(parts1, sp)) && store.contains_key(sp)
            && #[trigger] is_include_target_in(store, sp, k);
    if sp != old_root {
        let i = choose|i: int| 0 <= i < parts1.len() && parts1[i].0@ == sp;
        assert(parts2[i] == parts1[i]);
    }
}

/// No two closure entries share a key: one entry per distinct file.
pub open spec fn parts_keys_unique(parts: Seq<(String, Part)>) -> bool {
    forall|i: int, j: int|
        0 <= i < j < parts.len() ==> (#[trigger] parts[i]).0@ != (#[trigger] parts[j]).0@
}

proof fn lemma_prefix_contains(a: Seq<Seq<char>>, b: Seq<Seq<char>>)
    requires
        a.is_prefix_of(b),
    ensures
        forall|x: Seq<char>| a.contains(x) ==> b.contains(x),
{
    assert forall|x: Seq<char>| a.contains(x) implies b.contains(x) by {
        let i = choose|i: int| 0 <= i < a.len() && a[i] == x;
        assert(b[i] == a[i]);
    }
}

/// The set of files read so far: no path twice, every path readable.
pub open spec fn loaded_wf(loaded: Seq<Seq<char>>, store: Map<Seq<char>, Seq<char>>) -> bool {
    loaded.no_duplicates() && forall|i: int|
        0 <= i < loaded.len() ==> store.contains_key(#[trigger] loaded[i])
}

proof fn lemma_loaded_bound(loaded: Seq<Seq<char>>, store: &SourceStore)
    requires
        loaded_wf(loaded, store@),
    ensures
        loaded.len() <= store.spec_size(),
{
    loaded.unique_seq_to_set();
    assert(loaded.to_set().subset_of(store@.dom())) by {
        assert forall|x: Seq<char>| loaded.to_set().contains(x) implies store@.dom().contains(
            x,
        ) by {
            let i = choose|i: int| 0 <= i < loaded.len() && loaded[i] == x;
            assert(store@.contains_key(loaded[i]));
        }
    }
    store.lemma_dom_size();
    lemma_len_subset(loaded.to_set(), store@.dom());
}

proof fn lemma_prefix_trans(a: Seq<Seq<char>>, b: Seq<Seq<char>>, c: Seq<Seq<char>>)
    requires
        a.is_prefix_of(b),
        b.is_prefix_of(c),
    ensures
        a.is_prefix_of(c),
{
    assert(c.subrange(0, a.len() as int) =~= c.subrange(0, b.len() as int).subrange(
        0,
        a.len() as int,
    ));
}

/// Concatenating the splittings of single lines gives those lines back.
proof fn lemma_concat_splits_lines(ls: Seq<Seq<char>>, sep: char)
    requires
        forall|i: int, j: int| 0 <= i < ls.len() && 0 <= j < ls[i].len() ==> #[trigger] ls[i][j]
            != sep,
    ensures
        concat_splits(ls, sep) == ls,
    decreases ls.len(),
{
    if ls.len() > 0 {
        assert(forall|i: int, j: int|
            0 <= i < ls.drop_first().len() && 0 <= j < ls.drop_first()[i].len()
                ==> #[trigger] ls.drop_first()[i][j] == ls[i + 1][j]);
        lemma_concat_splits_lines(ls.drop_first(), sep);
        lemma_split_no_sep(ls[0], sep);
        assert(concat_splits(ls, sep) =~~= ls);
    }
}

/// Per-block include-freeness carries over to the concatenation.
proof fn lemma_concat_splits_include_free(bs: Seq<Seq<char>>, sep: char)
    requires
        forall|m: int| 0 <= m < bs.len() ==> include_free(split_spec(#[trigger] bs[m], sep)),
    ensures
        include_free(concat_splits(bs, sep)),
    decreases bs.len(),
{
    if bs.len() > 0 {
        assert(forall|m: int|
            0 <= m < bs.drop_first().len() ==> #[trigger] bs.drop_first()[m] == bs[m + 1]);
        lemma_concat_splits_include_free(bs.drop_first(), sep);
        let r = concat_splits(bs, sep);
        let head = split_spec(bs[0], sep);
        assert forall|i: int| 0 <= i < r.len() implies !include_line(#[trigger] r[i]) by {
            if i < head.len() {
                assert(r[i] == head[i]);
            } else {
                assert(r[i] == concat_splits(bs.drop_first(), sep)[i - head.len()]);
            }
        }
    }
}

/// Whether one of the already-loaded paths equals `p`.
fn loaded_contains(loaded: &Vec<String>, p: &str) -> (r: bool)
    ensures
        r == loaded.deep_view().contains(p@),
{
    let mut i: usize = 0;
    while i < loaded.len()
        invariant
            i <= loaded@.len(),
            forall|k: int| 0 <= k < i ==> loaded.deep_view()[k] != p@,
        decreases loaded@.len() - i,
    {
        if str_eq(loaded[i].as_str(), p) {
            proof {
                assert(loaded.deep_view()[i as int] == loaded@[i as int]@);
            }
            return true;
        }
        proof {
            assert(loaded.deep_view()[i as int] == loaded@[i as int]@);
        }
        i = i + 1;
    }
    false
}

/// Whether the closure holds an entry for `path`.
pub fn closure_contains(parts: &Vec<(String, Part)>, path: &str) -> (r: bool)
    ensures
        r == parts_contains(parts@, path@),
{
    let mut i: usize = 0;
    while i < parts.len()
        invariant
            i <= parts@.len(),
            forall|k: int| 0 <= k < i ==> parts@[k].0@ != path@,
        decreases parts@.len() - i,
    {
        if str_eq(parts[i].0.as_str(), path) {
            return true;
        }
        i = i + 1;
    }
    false
}

// ---------------------------------------------------------------------------
// The preprocessor and its data
// ---------------------------------------------------------------------------

/// One included file's contribution to a unit: where it lives, its fully
/// resolved source, and the file name it was referenced by.
#[derive(Debug, Clone, Eq, PartialEq, Ord, PartialOrd)]
pub struct Part {
    pub shader_path: String,
    pub shader_src: String,
    pub shader_name: String,
}

/// The textual result of resolving one entry shader: its identifier, the
/// closure of every file that contributed, and the final compilable source.
#[derive(Debug, Clone, Eq, PartialEq, Ord, PartialOrd)]
pub struct ShaderContent {
    /// The entry file's name without its extension.
    pub shader_id: String,
    pub main_shader_path: String,
    /// One entry per distinct file of the closure, keyed by path; the entry
    /// file's own part comes last.
    pub parts: Vec<(String, Part)>,
    /// The final compilable source.
    pub shader_src: String,
    pub ready_to_compile: bool,
}

/// A pragma directive recognised beyond includes, with its replacement text.
#[derive(Debug, Clone, Eq, PartialEq, Ord, PartialOrd)]
pub enum PragmaDirective {
    Camera(String),
}

/// What the preprocessor is asked to do with feature pragmas.
#[derive(Clone, Copy)]
pub struct PreProcessorConfig {
    pub use_camera_integration: bool,
}

/// Resolves includes and feature pragmas, turning one entry file into a
/// single compilable source text.
#[derive(Clone, Copy)]
pub struct PreProcessor {
    pub config: PreProcessorConfig,
}

impl PreProcessor {
    pub fn new(config: PreProcessorConfig) -> (r: Self)
        ensures
            r.config == config,
    {
        PreProcessor { config }
    }

    /// The text that replaces one camera pragma line under the current
    /// configuration.
    fn camera_replacement(&self) -> (r: String)
        ensures
            r@ == camera_text(self.config.use_camera_integration),
    {
        if self.config.use_camera_integration {
            String::from_str(
                "#define USE_SKUGGBOX_CAMERA\n#ifdef USE_SKUGGBOX_CAMERA\n    uniform mat4 sbCameraTransform;\n    void skuggbox_camera(vec2 uv, inout vec3 ro, inout vec3 rd) {\n        ro = sbCameraTransform[3].xyz;\n        rd = mat3(sbCameraTransform) * normalize(vec3(uv, 1));\n    }\n    #else\n    void skuggbox_camera(vec2 uv, inout vec3 ro, inout vec3 rd) {\n        // empty\n    }\n    #endif",
            )
        } else {
            String::from_str(
                "#ifdef USE_SKUGGBOX_CAMERA\n    uniform mat4 sbCameraTransform;\n    void skuggbox_camera(vec2 uv, inout vec3 ro, inout vec3 rd) {\n        ro = sbCameraTransform[3].xyz;\n        rd = mat3(sbCameraTransform) * normalize(vec3(uv, 1));\n    }\n    #else\n    void skuggbox_camera(vec2 uv, inout vec3 ro, inout vec3 rd) {\n        // empty\n    }\n    #endif",
            )
        }
    }

    /// Replaces every camera pragma line of `source` by the camera snippet,
    /// line-locally and without recursion.
    pub fn process_integrations(&self, source: String) -> (r: String)
        ensures
            split_spec(r@, '\n') == subst_camera_spec(
                split_spec(source@, '\n'),
                self.config.use_camera_integration,
            ),
    {
        let active = self.config.use_camera_integration;
        let in_lines = crate::text::split_char(source.as_str(), '\n');
        let mut blocks: Vec<String> = Vec::new();
        let mut i: usize = 0;
        proof {
            assert(in_lines.deep_view().subrange(0, 0) =~= Seq::<Seq<char>>::empty());
            assert(concat_splits(blocks.deep_view(), '\n') =~~= subst_camera_spec(
                in_lines.deep_view().subrange(0, 0),
                active,
            ));
            lemma_split_pieces_no_sep(source@, '\n');
        }
        while i < in_lines.len()
            invariant
                i <= in_lines@.len(),
                blocks@.len() == i,
                in_lines.deep_view() == split_spec(source@, '\n'),
                active == self.config.use_camera_integration,
                forall|m: int, j: int|
                    0 <= m < in_lines.deep_view().len() && 0 <= j
                        < in_lines.deep_view()[m].len() ==> #[trigger] in_lines.deep_view()[m][j]
                        != '\n',
                concat_splits(blocks.deep_view(), '\n') == subst_camera_spec(
                    in_lines.deep_view().subrange(0, i as int),
                    active,
                ),
            decreases in_lines@.len() - i,
        {
            let ghost blocks_before = blocks.deep_view();
            let ghost l = in_lines.deep_view()[i as int];
            proof {
                assert(in_lines@[i as int]@ == in_lines.deep_view()[i as int]);
            }
            let line = &in_lines[i];
            let trimmed = str_trim(line.as_str());
            if str_eq(trimmed, "#pragma skuggbox(camera)") {
                blocks.push(self.camera_replacement());
                proof {
                    assert(camera_pragma_line(l));
                    assert(blocks.deep_view() =~= blocks_before.push(camera_text(active)));
                    lemma_concat_splits_push(blocks_before, camera_text(active), '\n');
                }
            } else {
                blocks.push(line.clone());
                proof {
                    assert(!camera_pragma_line(l));
                    assert(blocks.deep_view() =~= blocks_before.push(l));
                    lemma_concat_splits_push(blocks_before, l, '\n');
                    lemma_split_no_sep(l, '\n');
                }
            }
            proof {
                lemma_subst_camera_push(
                    in_lines.deep_view().subrange(0, i as int),
                    l,
                    active,
                );
                assert(in_lines.deep_view().subrange(0, i as int).push(l)
                    =~= in_lines.deep_view().subrange(0, i + 1));
            }
            i = i + 1;
        }
        let joined = crate::text::join_lines(&blocks);
        proof {
            assert(in_lines.deep_view().subrange(0, in_lines@.len() as int)
                =~= in_lines.deep_view());
            assert(blocks@.len() >= 1);
            lemma_split_join(blocks.deep_view(), '\n');
        }
        joined
    }
}

impl PreProcessor {
    /// Resolves the file at `shader_path` depth-first: each include pragma
    /// is replaced by the referenced file's resolved source, a reference to
    /// an already-loaded or unreadable file is commented out, and feature
    /// pragmas are substituted afterwards.
    fn process_part(
        &self,
        store: &SourceStore,
        loaded: &mut Vec<String>,
        parts: &mut Vec<(String, Part)>,
        shader_path: &String,
    ) -> (part: Part)
        requires
            store@.contains_key(shader_path@),
            !old(loaded).deep_view().contains(shader_path@),
            loaded_wf(old(loaded).deep_view(), store@),
            parts_wf(old(parts)@, store@, self.config.use_camera_integration),
            parts_keys_unique(old(parts)@),
            forall|i: int|
                0 <= i < old(parts)@.len() ==> old(loaded).deep_view().contains(
                    (#[trigger] old(parts)@[i]).0@,
                ),
        ensures
            old(loaded).deep_view().push(shader_path@).is_prefix_of(final(loaded).deep_view()),
            loaded_wf(final(loaded).deep_view(), store@),
            old(parts)@.is_prefix_of(final(parts)@),
            parts_wf(final(parts)@, store@, self.config.use_camera_integration),
            parts_keys_unique(final(parts)@),
            forall|i: int|
                0 <= i < final(parts)@.len() ==> final(loaded).deep_view().contains(
                    (#[trigger] final(parts)@[i]).0@,
                ),
            forall|i: int|
                old(parts)@.len() <= i < final(parts)@.len() ==> !old(
                    loaded,
                ).deep_view().contains((#[trigger] final(parts)@[i]).0@) && final(parts)@[i].0@
                    != shader_path@,
            forall|i: int|
                old(parts)@.len() <= i < final(parts)@.len() ==> key_referenced(
                    store@,
                    final(parts)@,
                    shader_path@,
                    (#[trigger] final(parts)@[i]).0@,
                ),
            part.shader_path@ == shader_path@,
            part.shader_name@ == file_name_spec(shader_path@),
            include_free(split_spec(part.shader_src@, '\n')),
            resolved_blocks(
                store@,
                old(loaded).deep_view().to_set().insert(shader_path@),
                shader_path@,
                self.config.use_camera_integration,
                part.shader_src@,
                final(parts)@,
            ),
            forall|p: Seq<char>|
                final(loaded).deep_view().contains(p) ==> old(loaded).deep_view().contains(p) || p
                    == shader_path@ || parts_contains(final(parts)@, p),
            include_free(split_spec(store@[shader_path@], '\n')) ==> final(parts)@ == old(
                parts,
            )@ && split_spec(part.shader_src@, '\n') == subst_camera_spec(
                split_spec(store@[shader_path@], '\n'),
                self.config.use_camera_integration,
            ),
        decreases store.spec_size() - old(loaded)@.len(),
    {
        let active = self.config.use_camera_integration;
        let ghost already = old(loaded).deep_view().to_set().insert(shader_path@);
        let src: String = match store.read(shader_path.as_str()) {
            Some(c) => c.clone(),
            None => {
                // Never reached: the caller guarantees the store holds this
                // path.
                proof {
                    assert(false);
                }
                String::new()
            },
        };
        loaded.push(shader_path.clone());
        let ghost base_loaded = old(loaded).deep_view().push(shader_path@);
        proof {
            assert(loaded.deep_view() =~= base_loaded);
            assert forall|p: Seq<char>| base_loaded.contains(p) implies old(
                loaded,
            ).deep_view().contains(p) || p == shader_path@ by {
                let k = choose|k: int| 0 <= k < base_loaded.len() && base_loaded[k] == p;
                if k < old(loaded).deep_view().len() {
                    assert(old(loaded).deep_view()[k] == p);
                }
            }
            assert(old(loaded).deep_view().is_prefix_of(base_loaded)) by {
                assert(base_loaded.subrange(0, old(loaded).deep_view().len() as int) =~= old(
                    loaded,
                ).deep_view());
            }
            lemma_prefix_contains(old(loaded).deep_view(), base_loaded);
        }
        let in_lines = crate::text::split_char(src.as_str(), '\n');
        let ghost in_ls = split_spec(store@[shader_path@], '\n');
        proof {
            lemma_split_pieces_no_sep(store@[shader_path@], '\n');
        }
        let mut blocks: Vec<String> = Vec::new();
        let mut i: usize = 0;
        while i < in_lines.len()
            invariant
                i <= in_lines@.len(),
                blocks@.len() == i,
                in_lines.deep_view() == in_ls,
                in_ls == split_spec(store@[shader_path@], '\n'),
                store@.contains_key(shader_path@),
                already == old(loaded).deep_view().to_set().insert(shader_path@),
                base_loaded == old(loaded).deep_view().push(shader_path@),
                active == self.config.use_camera_integration,
                base_loaded.is_prefix_of(loaded.deep_view()),
                loaded_wf(loaded.deep_view(), store@),
                old(parts)@.is_prefix_of(parts@),
                parts_wf(parts@, store@, active),
                parts_keys_unique(parts@),
                forall|i2: int|
                    0 <= i2 < parts@.len() ==> loaded.deep_view().contains(
                        (#[trigger] parts@[i2]).0@,
                    ),
                forall|i2: int|
                    old(parts)@.len() <= i2 < parts@.len() ==> !old(loaded).deep_view().contains(
                        (#[trigger] parts@[i2]).0@,
                    ) && parts@[i2].0@ != shader_path@,
                forall|i2: int|
                    old(parts)@.len() <= i2 < parts@.len() ==> key_referenced(
                        store@,
                        parts@,
                        shader_path@,
                        (#[trigger] parts@[i2]).0@,
                    ),
                forall|m: int, j: int|
                    0 <= m < in_ls.len() && 0 <= j < in_ls[m].len() ==> #[trigger] in_ls[m][j]
                        != '\n',
                forall|m: int|
                    0 <= m < i && !include_line(#[trigger] in_ls[m])
                        ==> blocks.deep_view()[m] == in_ls[m],
                forall|m: int|
                    0 <= m < i && include_line(#[trigger] in_ls[m]) && comment_forced(
                        store@,
                        already,
                        shader_path@,
                        in_ls[m],
                    ) ==> blocks.deep_view()[m] == comment_of(in_ls[m]),
                forall|m: int|
                    0 <= m < i ==> include_free(
                        split_spec(#[trigger] blocks.deep_view()[m], '\n'),
                    ),
                forall|p: Seq<char>|
                    loaded.deep_view().contains(p) ==> old(loaded).deep_view().contains(p) || p
                        == shader_path@ || parts_contains(parts@, p),
                forall|m: int|
                    0 <= m < i && include_line(#[trigger] in_ls[m]) && !comment_forced(
                        store@,
                        already,
                        shader_path@,
                        in_ls[m],
                    ) ==> exists|k: int|
                        0 <= k < parts@.len() && (#[trigger] parts@[k]).0@ == include_target(
                            shader_path@,
                            in_ls[m],
                        )->0 && (blocks.deep_view()[m] == parts@[k].1.shader_src@
                            || blocks.deep_view()[m] == comment_of(in_ls[m])),
                (forall|m: int| 0 <= m < i ==> !include_line(#[trigger] in_ls[m]))
                    ==> loaded.deep_view() == base_loaded,
                forall|m: int|
                    0 <= m < i && include_line(#[trigger] in_ls[m]) && !comment_forced(
                        store@,
                        already,
                        shader_path@,
                        in_ls[m],
                    ) && (forall|m2: int| 0 <= m2 < m ==> !include_line(#[trigger] in_ls[m2]))
                        ==> exists|k: int|
                        0 <= k < parts@.len() && (#[trigger] parts@[k]).0@ == include_target(
                            shader_path@,
                            in_ls[m],
                        )->0 && blocks.deep_view()[m] == parts@[k].1.shader_src@,
                (forall|m: int| 0 <= m < i ==> !include_line(#[trigger] in_ls[m])) ==> parts@
                    == old(parts)@,
            decreases in_lines@.len() - i,
        {
            let ghost blocks_before = blocks.deep_view();
            let ghost l = in_ls[i as int];
            proof {
                assert(in_lines@[i as int]@ == in_lines.deep_view()[i as int]);
            }
            let line = &in_lines[i];
            let trimmed = str_trim_start(line.as_str());
            if !is_include_line(trimmed) {
                blocks.push(line.clone());
                proof {
                    assert(blocks.deep_view() =~= blocks_before.push(l));
                    lemma_split_no_sep(l, '\n');
                }
            } else {
                match parent_dir(shader_path.as_str()) {
                    None => {
                        blocks.push(comment_line(line.as_str()));
                        proof {
                            assert(blocks.deep_view() =~= blocks_before.push(comment_of(l)));
                            lemma_comment_not_include(l);
                            lemma_comment_no_newline(l);
                            lemma_split_no_sep(comment_of(l), '\n');
                            assert(include_target(shader_path@, l) is None);
                        }
                    },
                    Some(dir) => {
                        let name = pragma_shader_name(line.as_str());
                        let target = normalize_path(join_path(dir.as_str(), name.as_str()).as_str());
                        proof {
                            assert(include_target(shader_path@, l) == Some(target@));
                        }
                        if loaded_contains(loaded, target.as_str()) {
                            blocks.push(comment_line(line.as_str()));
                            proof {
                                assert(blocks.deep_view() =~= blocks_before.push(comment_of(l)));
                                lemma_comment_not_include(l);
                                lemma_comment_no_newline(l);
                                lemma_split_no_sep(comment_of(l), '\n');
                                if !comment_forced(store@, already, shader_path@, l) && (
                                forall|m2: int|
                                    0 <= m2 < i ==> !include_line(#[trigger] in_ls[m2])) {
                                    // Impossible: before the first include line
                                    // nothing beyond the starting set is loaded,
                                    // so an unforced target cannot be loaded yet.
                                    assert(loaded.deep_view() == base_loaded);
                                    assert(base_loaded.contains(target@));
                                    assert(old(loaded).deep_view().contains(target@) || target@
                                        == shader_path@);
                                    assert(already.contains(target@));
                                    assert(false);
                                }
                                if !comment_forced(store@, already, shader_path@, l) {
                                    // The target was pulled in by an earlier line
                                    // of this resolution, so the closure already
                                    // holds an entry for it.
                                    assert(!already.contains(target@));
                                    assert(parts_contains(parts@, target@));
                                    let k = choose|k: int|
                                        0 <= k < parts@.len() && parts@[k].0@ == target@;
                                    assert((#[trigger] parts@[k]).0@ == include_target(
                                        shader_path@,
                                        l,
                                    )->0 && blocks.deep_view()[i as int] == comment_of(l));
                                }
                            }
                        } else if !store.contains_path(target.as_str()) {
                            blocks.push(comment_line(line.as_str()));
                            proof {
                                assert(blocks.deep_view() =~= blocks_before.push(comment_of(l)));
                                lemma_comment_not_include(l);
                                lemma_comment_no_newline(l);
                                lemma_split_no_sep(comment_of(l), '\n');
                            }
                        } else {
                            proof {
                                lemma_loaded_bound(loaded.deep_view(), store);
                                assert(loaded.deep_view().len() >= base_loaded.len());
                            }
                            let ghost loaded_pre = loaded.deep_view();
                            let ghost parts_pre = parts@;
                            let sub = self.process_part(store, loaded, parts, &target);
                            let ghost parts_mid = parts@;
                            let sub_src = sub.shader_src.clone();
                            parts.push((target, sub));
                            blocks.push(sub_src);
                            proof {
                                lemma_prefix_trans(
                                    base_loaded,
                                    loaded_pre.push(target@),
                                    loaded.deep_view(),
                                );
                                assert(loaded_pre.push(target@)[loaded_pre.len() as int]
                                    == target@);
                                assert(loaded.deep_view().contains(target@)) by {
                                    let pl = loaded_pre.push(target@);
                                    assert(pl.is_prefix_of(loaded.deep_view()));
                                    assert(loaded.deep_view()[pl.len() - 1] == pl[pl.len() - 1]);
                                }
                                assert(parts_pre.is_prefix_of(parts@)) by {
                                    let with_sub = parts@.drop_last();
                                    assert(parts_pre.is_prefix_of(with_sub));
                                    assert(with_sub.is_prefix_of(parts@)) by {
                                        assert(parts@.subrange(0, with_sub.len() as int)
                                            =~= with_sub);
                                    }
                                    lemma_prefix_trans_parts(parts_pre, with_sub, parts@);
                                }
                                lemma_prefix_trans_parts(old(parts)@, parts_pre, parts@);
                                assert(parts_mid.is_prefix_of(parts@)) by {
                                    assert(parts@.subrange(0, parts_mid.len() as int)
                                        =~= parts_mid);
                                }
                                // The new entry is itself a resolution of its
                                // file, witnessed by what was loaded when the
                                // recursion began.
                                assert(parts@[parts@.len() - 1].1 == sub);
                                assert(parts@[parts@.len() - 1].0@ == target@);
                                assert(resolved_blocks(
                                    store@,
                                    loaded_pre.to_set().insert(target@),
                                    target@,
                                    active,
                                    sub.shader_src@,
                                    parts_mid,
                                ));
                                lemma_resolved_blocks_grow(
                                    store@,
                                    loaded_pre.to_set().insert(target@),
                                    target@,
                                    active,
                                    sub.shader_src@,
                                    parts_mid,
                                    parts@,
                                );
                                assert(part_entry_wf(
                                    parts@[parts@.len() - 1],
                                    store@,
                                    active,
                                    parts@,
                                ));
                                lemma_parts_wf_grow(parts_mid, parts@, store@, active);
                                assert(blocks.deep_view() =~= blocks_before.push(
                                    sub.shader_src@,
                                ));
                                // The expanded include is no forced comment: its
                                // target is readable and was not loaded when this
                                // file's resolution began.
                                assert(!already.contains(target@)) by {
                                    if already.contains(target@) {
                                        if target@ == shader_path@ {
                                            assert(base_loaded[base_loaded.len() - 1]
                                                == shader_path@);
                                            assert(loaded_pre[base_loaded.len() - 1]
                                                == shader_path@);
                                            assert(loaded_pre.contains(target@));
                                        } else {
                                            let k = choose|k: int|
                                                0 <= k < old(loaded).deep_view().len() && old(
                                                    loaded,
                                                ).deep_view()[k] == target@;
                                            assert(base_loaded[k] == target@);
                                            assert(loaded_pre[k] == target@);
                                            assert(loaded_pre.contains(target@));
                                        }
                                    }
                                }
                                assert(!comment_forced(store@, already, shader_path@, l));
                                // Everything loaded so far has a closure entry,
                                // unless it was loaded before this file began.
                                assert forall|p: Seq<char>|
                                    loaded.deep_view().contains(p) implies old(
                                    loaded,
                                ).deep_view().contains(p) || p == shader_path@ || parts_contains(
                                    parts@,
                                    p,
                                ) by {
                                    if loaded_pre.contains(p) {
                                        if parts_contains(parts_pre, p) {
                                            let k = choose|k: int|
                                                0 <= k < parts_pre.len() && parts_pre[k].0@ == p;
                                            assert(parts@[k] == parts_pre[k]);
                                            assert(parts@[k].0@ == p);
                                        }
                                    } else if p == target@ {
                                        assert(parts@[parts@.len() - 1].0@ == target@);
                                    } else {
                                        assert(parts_contains(parts_mid, p));
                                        let k = choose|k: int|
                                            0 <= k < parts_mid.len() && parts_mid[k].0@ == p;
                                        assert(parts@[k] == parts_mid[k]);
                                        assert(parts@[k].0@ == p);
                                    }
                                }
                                // Earlier lines keep their closure witnesses.
                                assert forall|m: int|
                                    0 <= m < i && include_line(#[trigger] in_ls[m])
                                        && !comment_forced(
                                        store@,
                                        already,
                                        shader_path@,
                                        in_ls[m],
                                    ) implies exists|k: int|
                                    0 <= k < parts@.len() && (#[trigger] parts@[k]).0@
                                        == include_target(shader_path@, in_ls[m])->0 && (
                                    blocks.deep_view()[m] == parts@[k].1.shader_src@
                                        || blocks.deep_view()[m] == comment_of(in_ls[m])) by {
                                    let k = choose|k: int|
                                        0 <= k < parts_pre.len() && (#[trigger] parts_pre[k]).0@
                                            == include_target(shader_path@, in_ls[m])->0 && (
                                        blocks_before[m] == parts_pre[k].1.shader_src@
                                            || blocks_before[m] == comment_of(in_ls[m]));
                                    assert(parts@[k] == parts_pre[k]);
                                    assert(blocks.deep_view()[m] == blocks_before[m]);
                                }
                                assert forall|m: int|
                                    0 <= m < i && include_line(#[trigger] in_ls[m])
                                        && !comment_forced(
                                        store@,
                                        already,
                                        shader_path@,
                                        in_ls[m],
                                    ) && (forall|m2: int|
                                        0 <= m2 < m ==> !include_line(
                                            #[trigger] in_ls[m2],
                                        )) implies exists|k: int|
                                    0 <= k < parts@.len() && (#[trigger] parts@[k]).0@
                                        == include_target(shader_path@, in_ls[m])->0
                                        && blocks.deep_view()[m] == parts@[k].1.shader_src@ by {
                                    let k = choose|k: int|
                                        0 <= k < parts_pre.len() && (#[trigger] parts_pre[k]).0@
                                            == include_target(shader_path@, in_ls[m])->0
                                            && blocks_before[m] == parts_pre[k].1.shader_src@;
                                    assert(parts@[k] == parts_pre[k]);
                                    assert(blocks.deep_view()[m] == blocks_before[m]);
                                }
                                // The expanded line itself points at the entry
                                // just recorded for its target.
                                assert(parts@[parts@.len() - 1].0@ == target@);
                                assert(blocks.deep_view()[i as int] == sub.shader_src@);
                                // The keys stay mutually distinct: the callee's
                                // entries avoid everything loaded before it and
                                // its own entry path, and the target itself was
                                // not loaded when this line ran.
                                lemma_prefix_contains(base_loaded, loaded_pre);
                                assert(old(loaded).deep_view().is_prefix_of(base_loaded)) by {
                                    assert(base_loaded.subrange(
                                        0,
                                        old(loaded).deep_view().len() as int,
                                    ) =~= old(loaded).deep_view());
                                }
                                lemma_prefix_contains(old(loaded).deep_view(), base_loaded);
                                assert(base_loaded[base_loaded.len() - 1] == shader_path@);
                                assert(loaded_pre.contains(shader_path@)) by {
                                    assert(base_loaded.contains(shader_path@));
                                }
                                assert forall|i2: int|
                                    0 <= i2 < parts@.len() implies loaded.deep_view().contains(
                                    (#[trigger] parts@[i2]).0@,
                                ) by {
                                    if i2 < parts_mid.len() {
                                        assert(parts@[i2] == parts_mid[i2]);
                                    } else {
                                        assert(parts@[i2].0@ == target@);
                                    }
                                }
                                assert forall|i2: int|
                                    old(parts)@.len() <= i2 < parts@.len() implies !old(
                                    loaded,
                                ).deep_view().contains((#[trigger] parts@[i2]).0@)
                                    && parts@[i2].0@ != shader_path@ by {
                                    if i2 < parts_pre.len() {
                                        assert(parts@[i2] == parts_pre[i2]);
                                    } else if i2 < parts_mid.len() {
                                        assert(parts@[i2] == parts_mid[i2]);
                                        assert(!loaded_pre.contains(parts_mid[i2].0@));
                                    } else {
                                        assert(parts@[i2].0@ == target@);
                                    }
                                }
                                assert forall|i2: int, j2: int|
                                    0 <= i2 < j2 < parts@.len() implies (
                                #[trigger] parts@[i2]).0@ != (#[trigger] parts@[j2]).0@ by {
                                    if j2 < parts_mid.len() {
                                        assert(parts@[i2] == parts_mid[i2]);
                                        assert(parts@[j2] == parts_mid[j2]);
                                    } else {
                                        assert(parts@[j2].0@ == target@);
                                        assert(parts@[i2] == parts_mid[i2]);
                                        if i2 < parts_pre.len() {
                                            // This key was loaded before the
                                            // call; the target was not.
                                            assert(loaded_pre.contains(parts_pre[i2].0@));
                                        } else {
                                            // A key the callee added avoids its
                                            // own entry path, the target.
                                            assert(parts_mid[i2].0@ != target@);
                                        }
                                    }
                                }
                                // Every new entry's key is referenced by an
                                // include pragma of a closure file: mine by
                                // this very line, the callee's by files it
                                // resolved, which are closure entries now.
                                assert(is_include_target_in(store@, shader_path@, target@)) by {
                                    assert(include_line(in_ls[i as int]));
                                    assert(include_target(shader_path@, in_ls[i as int])
                                        == Some(target@));
                                }
                                assert(parts_contains(parts@, target@)) by {
                                    assert(parts@[parts@.len() - 1].0@ == target@);
                                }
                                assert forall|i2: int|
                                    old(parts)@.len() <= i2 < parts@.len() implies key_referenced(
                                    store@,
                                    parts@,
                                    shader_path@,
                                    (#[trigger] parts@[i2]).0@,
                                ) by {
                                    if i2 < parts_pre.len() {
                                        assert(parts@[i2] == parts_pre[i2]);
                                        lemma_key_referenced_grow(
                                            store@,
                                            parts_pre,
                                            parts@,
                                            shader_path@,
                                            parts_pre[i2].0@,
                                        );
                                    } else if i2 < parts_mid.len() {
                                        assert(parts@[i2] == parts_mid[i2]);
                                        lemma_key_referenced_reroot(
                                            store@,
                                            parts_mid,
                                            parts@,
                                            target@,
                                            shader_path@,
                                            parts_mid[i2].0@,
                                        );
                                    } else {
                                        assert(parts@[i2].0@ == target@);
                                    }
                                }
                            }
                        }
                    },
                }
            }
            i = i + 1;
        }
        let joined = crate::text::join_lines(&blocks);
        let resolved = self.process_integrations(joined);
        let shader_name = file_name(shader_path.as_str());
        proof {
            assert(in_lines.deep_view().len() >= 1);
            assert(blocks@.len() >= 1);
            lemma_split_join(blocks.deep_view(), '\n');
            lemma_concat_splits_include_free(blocks.deep_view(), '\n');
            lemma_subst_camera_include_free(concat_splits(blocks.deep_view(), '\n'), active);
            if include_free(in_ls) {
                assert(blocks.deep_view() =~= in_ls);
                lemma_concat_splits_lines(in_ls, '\n');
            }
        }
        Part { shader_path: shader_path.clone(), shader_src: resolved, shader_name }
    }

    /// Resolves the entry file at `shader_path` against the given snapshot
    /// of file contents. Succeeds exactly when the entry file itself is
    /// readable; a missing or cyclic include never fails the unit, it is
    /// commented out instead. A unit is ready to compile exactly when its
    /// final source came out non-empty, so a ready unit always carries
    /// compilable text.
    pub fn load_file(&self, store: &SourceStore, shader_path: &String) -> (r: Result<
        ShaderContent,
        ShaderError,
    >)
        ensures
            r is Ok <==> store@.contains_key(shader_path@),
            r matches Err(e) ==> e matches ShaderError::FileError { .. },
            r matches Ok(c) ==> {
                let in_ls = split_spec(store@[shader_path@], '\n');
                &&& c.ready_to_compile <==> c.shader_src@.len() != 0
                &&& c.main_shader_path@ == shader_path@
                &&& c.shader_id@ == file_stem_spec(shader_path@)
                &&& c.parts@.len() >= 1
                &&& c.parts@.last().0@ == shader_path@
                &&& c.parts@.last().1.shader_src@ == c.shader_src@
                &&& parts_contains(c.parts@, shader_path@)
                &&& parts_wf(c.parts@, store@, self.config.use_camera_integration)
                &&& parts_keys_unique(c.parts@)
                &&& (forall|i: int|
                    0 <= i < c.parts@.len() - 1 ==> key_referenced(
                        store@,
                        c.parts@,
                        shader_path@,
                        (#[trigger] c.parts@[i]).0@,
                    ))
                &&& include_free(split_spec(c.shader_src@, '\n'))
                &&& resolved_blocks(
                    store@,
                    Set::<Seq<char>>::empty().insert(shader_path@),
                    shader_path@,
                    self.config.use_camera_integration,
                    c.shader_src@,
                    c.parts@,
                )
                &&& include_free(in_ls) ==> c.parts@.len() == 1 && split_spec(
                    c.shader_src@,
                    '\n',
                ) == subst_camera_spec(in_ls, self.config.use_camera_integration)
            },
    {
        if !store.contains_path(shader_path.as_str()) {
            let mut message = String::from_str("cannot read shader file: ");
            message.append(shader_path.as_str());
            return Err(ShaderError::FileError { error: message });
        }
        let mut loaded: Vec<String> = Vec::new();
        let mut parts: Vec<(String, Part)> = Vec::new();
        proof {
            assert(loaded.deep_view() =~= Seq::<Seq<char>>::empty());
        }
        let main_part = self.process_part(store, &mut loaded, &mut parts, shader_path);
        let shader_src = main_part.shader_src.clone();
        // An empty resolution (an empty entry file) yields nothing to
        // compile: the unit is not marked ready.
        let ready_to_compile = !shader_src.as_str().is_empty();
        let shader_id = file_stem(shader_path.as_str());
        proof {
            assert(Seq::<Seq<char>>::empty().to_set().insert(shader_path@)
                =~= Set::<Seq<char>>::empty().insert(shader_path@));
        }
        let ghost parts_before = parts@;
        parts.push((shader_path.clone(), main_part));
        proof {
            assert(parts_before.is_prefix_of(parts@)) by {
                assert(parts@.subrange(0, parts_before.len() as int) =~= parts_before);
            }
            lemma_resolved_blocks_grow(
                store@,
                Seq::<Seq<char>>::empty().to_set().insert(shader_path@),
                shader_path@,
                self.config.use_camera_integration,
                shader_src@,
                parts_before,
                parts@,
            );
            assert(parts@.last().0@ == shader_path@);
            assert(parts@.last().1.shader_src@ == shader_src@);
            assert(resolved_blocks(
                store@,
                Set::<Seq<char>>::empty().insert(shader_path@),
                shader_path@,
                self.config.use_camera_integration,
                parts@.last().1.shader_src@,
                parts@,
            ));
            assert(part_entry_wf(
                parts@[parts@.len() - 1],
                store@,
                self.config.use_camera_integration,
                parts@,
            ));
            lemma_parts_wf_grow(
                parts_before,
                parts@,
                store@,
                self.config.use_camera_integration,
            );
            assert(parts_contains(parts@, shader_path@)) by {
                assert(parts@[parts@.len() - 1].0@ == shader_path@);
            }
            // Every non-entry key was referenced by an include pragma of a
            // closure file.
            assert forall|i: int|
                0 <= i < parts@.len() - 1 implies key_referenced(
                store@,
                parts@,
                shader_path@,
                (#[trigger] parts@[i]).0@,
            ) by {
                assert(parts@[i] == parts_before[i]);
                lemma_key_referenced_grow(
                    store@,
                    parts_before,
                    parts@,
                    shader_path@,
                    parts_before[i].0@,
                );
            }
            // Every earlier entry's key differs from the entry path, so the
            // keys stay mutually distinct.
            assert forall|i2: int, j2: int|
                0 <= i2 < j2 < parts@.len() implies (#[trigger] parts@[i2]).0@ != (
            #[trigger] parts@[j2]).0@ by {
                if j2 < parts_before.len() {
                    assert(parts@[i2] == parts_before[i2]);
                    assert(parts@[j2] == parts_before[j2]);
                } else {
                    assert(parts@[j2].0@ == shader_path@);
                    assert(parts@[i2] == parts_before[i2]);
                    assert(parts_before[i2].0@ != shader_path@);
                }
            }
        }
        Ok(
            ShaderContent {
                shader_id,
                main_shader_path: shader_path.clone(),
                parts,
                shader_src,
                ready_to_compile,
            },
        )
    }
}

proof fn lemma_prefix_trans_parts(a: Seq<(String, Part)>, b: Seq<(String, Part)>, c: Seq<(String, Part)>)
    requires
        a.is_prefix_of(b),
        b.is_prefix_of(c),
    ensures
        a.is_prefix_of(c),
{
    assert(c.subrange(0, a.len() as int) =~= c.subrange(0, b.len() as int).subrange(
        0,
        a.len() as int,
    ));
}

} // verus!
