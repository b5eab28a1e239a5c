use vstd::prelude::*;

use crate::paths::{
    join_path, join_path_spec, normalize_path, normalize_spec, parent_dir, parent_dir_spec,
};
use crate::shader::pre_processor::{include_line, is_include_line};
use crate::text::{split_char, split_spec, str_trim_start};
use crate::utils::{pragma_name_spec, pragma_shader_name};

verus! {

// ---------------------------------------------------------------------------
// Scanning a shader source for the files it includes
// ---------------------------------------------------------------------------

/// The paths referenced by the include pragmas among `ls`, each resolved
/// against the including file's own directory; a reference that cannot be
/// resolved (the including file has no directory part) is left out.
pub open spec fn included_paths(path: Seq<char>, ls: Seq<Seq<char>>) -> Seq<Seq<char>>
    decreases ls.len(),
{
    if ls.len() == 0 {
        Seq::<Seq<char>>::empty()
    } else {
        (if include_line(ls[0]) && parent_dir_spec(path) is Some {
            seq![normalize_spec(join_path_spec(parent_dir_spec(path)->0, pragma_name_spec(ls[0])))]
        } else {
            Seq::<Seq<char>>::empty()
        }) + included_paths(path, ls.drop_first())
    }
}

/// Search the given shader source for include pragmas and return the path
/// of each directly included file, resolved relative to the shader's own
/// directory.
pub fn find_included_files(shader_path: &String, source: &String) -> (r: Vec<String>)
    ensures
        r.deep_view() == included_paths(shader_path@, split_spec(source@, '\n')),
{
    let ghost in_ls = split_spec(source@, '\n');
    let in_lines = split_char(source.as_str(), '\n');
    let mut out: Vec<String> = Vec::new();
    let mut i: usize = 0;
    proof {
        assert(in_ls.subrange(0, in_ls.len() as int) =~= in_ls);
        assert(out.deep_view() + included_paths(shader_path@, in_ls.subrange(0, in_ls.len() as int))
            =~= included_paths(shader_path@, in_ls));
        assert(in_ls.subrange(0, 0) =~= Seq::<Seq<char>>::empty());
    }
    while i < in_lines.len()
        invariant
            i <= in_lines@.len(),
            in_lines.deep_view() == in_ls,
            included_paths(shader_path@, in_ls) == out.deep_view() + included_paths(
                shader_path@,
                in_ls.subrange(i as int, in_ls.len() as int),
            ),
        decreases in_lines@.len() - i,
    {
        let ghost rest = in_ls.subrange(i as int, in_ls.len() as int);
        let ghost rest2 = in_ls.subrange(i + 1, in_ls.len() as int);
        proof {
            assert(rest.len() > 0);
            assert(rest[0] == in_ls[i as int]);
            assert(rest.drop_first() =~= rest2);
            assert(in_lines@[i as int]@ == in_ls[i as int]);
        }
        let line = &in_lines[i];
        let ghost out_before = out.deep_view();
        if is_include_line(str_trim_start(line.as_str())) {
            match parent_dir(shader_path.as_str()) {
                Some(dir) => {
                    let name = pragma_shader_name(line.as_str());
                    out.push(normalize_path(join_path(dir.as_str(), name.as_str()).as_str()));
                    proof {
                        assert(out.deep_view() =~= out_before.push(
                            normalize_spec(
                                join_path_spec(
                                    parent_dir_spec(shader_path@)->0,
                                    pragma_name_spec(in_ls[i as int]),
                                ),
                            ),
                        ));
                        assert(out.deep_view() + included_paths(shader_path@, rest2)
                            =~= out_before + included_paths(shader_path@, rest));
                    }
                },
                None => {
                    proof {
                        assert(out.deep_view() + included_paths(shader_path@, rest2)
                            =~= out_before + included_paths(shader_path@, rest));
                    }
                },
            }
        } else {
            proof {
                assert(out.deep_view() + included_paths(shader_path@, rest2) =~= out_before
                    + included_paths(shader_path@, rest));
            }
        }
        i = i + 1;
    }
    proof {
        assert(in_ls.subrange(in_ls.len() as int, in_ls.len() as int)
            =~= Seq::<Seq<char>>::empty());
        assert(out.deep_view() + Seq::<Seq<char>>::empty() =~= out.deep_view());
    }
    out
}

} // verus!
