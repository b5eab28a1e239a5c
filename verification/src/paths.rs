use vstd::prelude::*;

use crate::text::{last_index_of, lemma_last_index_of, str_rfind_char};

verus! {

// ---------------------------------------------------------------------------
// Lexical path arithmetic
//
// The library represents filesystem paths as plain strings of
// `/`-separated components; the surrounding program hands it canonical
// absolute paths and performs the actual filesystem work.
// ---------------------------------------------------------------------------

/// The directory part of `p`: the text before the last `/`, the root when
/// that `/` is the first character, nothing when `p` has no `/` at all.
pub open spec fn parent_dir_spec(p: Seq<char>) -> Option<Seq<char>> {
    match last_index_of(p, '/') {
        Some(i) => if i == 0 {
            Some(seq!['/'])
        } else {
            Some(p.subrange(0, i))
        },
        None => None,
    }
}

/// The directory part of `p`, or `cwd` when `p` has none.
pub open spec fn dir_or_cwd(p: Seq<char>, cwd: Seq<char>) -> Seq<char> {
    match parent_dir_spec(p) {
        Some(d) => d,
        None => cwd,
    }
}

/// `dir` and `name` glued with a single `/` between them.
pub open spec fn join_path_spec(dir: Seq<char>, name: Seq<char>) -> Seq<char> {
    if dir.len() > 0 && dir.last() == '/' {
        dir + name
    } else {
        dir + seq!['/'] + name
    }
}

/// The text after the last `/` of `p`, or all of `p` when it has none.
pub open spec fn file_name_spec(p: Seq<char>) -> Seq<char> {
    match last_index_of(p, '/') {
        Some(i) => p.subrange(i + 1, p.len() as int),
        None => p,
    }
}

/// The file name of `p` without its extension: the text before the last `.`
/// of the file name, or the whole file name when it has no `.`.
pub open spec fn file_stem_spec(p: Seq<char>) -> Seq<char> {
    let name = file_name_spec(p);
    match last_index_of(name, '.') {
        Some(i) => name.subrange(0, i),
        None => name,
    }
}

/// The directory part of `p`, or `None` when `p` has no `/`.
pub fn parent_dir(p: &str) -> (r: Option<String>)
    ensures
        match r {
            Some(d) => parent_dir_spec(p@) == Some(d@),
            None => parent_dir_spec(p@) is None,
        },
{
    let p_len = p.unicode_len();
    match str_rfind_char(p, '/') {
        Some(i) => {
            proof {
                lemma_last_index_of(p@, '/', p@.len());
            }
            if i == 0 {
                let root = String::from_str("/");
                proof {
                    reveal_strlit("/");
                    assert(root@ =~= seq!['/']);
                }
                Some(root)
            } else {
                Some(String::from_str(p.substring_char(0, i)))
            }
        },
        None => None,
    }
}

/// `dir` and `name` glued with a single `/` between them.
pub fn join_path(dir: &str, name: &str) -> (r: String)
    ensures
        r@ == join_path_spec(dir@, name@),
{
    let dir_len = dir.unicode_len();
    let mut out = String::from_str(dir);
    if dir_len > 0 && dir.get_char(dir_len - 1) == '/' {
        out.append(name);
    } else {
        proof {
            reveal_strlit("/");
            assert("/"@ =~= seq!['/']);
        }
        out.append("/");
        out.append(name);
    }
    out
}

/// The text after the last `/` of `p`, or all of `p` when it has none.
pub fn file_name(p: &str) -> (r: String)
    ensures
        r@ == file_name_spec(p@),
{
    let p_len = p.unicode_len();
    match str_rfind_char(p, '/') {
        Some(i) => {
            proof {
                lemma_last_index_of(p@, '/', p@.len());
            }
            String::from_str(p.substring_char(i + 1, p_len))
        },
        None => String::from_str(p),
    }
}

/// The file name of `p` without its extension.
pub fn file_stem(p: &str) -> (r: String)
    ensures
        r@ == file_stem_spec(p@),
{
    let name = file_name(p);
    let name_len = name.as_str().unicode_len();
    match str_rfind_char(name.as_str(), '.') {
        Some(i) => {
            proof {
                lemma_last_index_of(name@, '.', name@.len());
            }
            String::from_str(name.as_str().substring_char(0, i))
        },
        None => name,
    }
}

// ---------------------------------------------------------------------------
// Lexical normalization of `.` and `..` components
// ---------------------------------------------------------------------------

/// One component folded onto the stack of components kept so far: empty
/// components and `.` vanish, `..` removes the previous component (or
/// nothing, at the top), anything else is kept.
pub open spec fn norm_step(stack: Seq<Seq<char>>, comp: Seq<char>) -> Seq<Seq<char>> {
    if comp.len() == 0 || comp == "."@ {
        stack
    } else if comp == ".."@ {
        if stack.len() > 0 {
            stack.drop_last()
        } else {
            stack
        }
    } else {
        stack.push(comp)
    }
}

/// The components left after folding all of `comps` onto `stack`.
pub open spec fn norm_stack(comps: Seq<Seq<char>>, stack: Seq<Seq<char>>) -> Seq<Seq<char>>
    decreases comps.len(),
{
    if comps.len() == 0 {
        stack
    } else {
        norm_stack(comps.drop_first(), norm_step(stack, comps[0]))
    }
}

/// `p` with `.` and `..` components resolved lexically (symlinks are the
/// filesystem's business, not this library's); an absolute path stays
/// absolute.
pub open spec fn normalize_spec(p: Seq<char>) -> Seq<char> {
    let stack = norm_stack(crate::text::split_spec(p, '/'), Seq::<Seq<char>>::empty());
    if p.len() > 0 && p[0] == '/' {
        seq!['/'] + crate::text::join_spec(stack, '/')
    } else {
        crate::text::join_spec(stack, '/')
    }
}

proof fn lemma_join_slash_push(ls: Seq<Seq<char>>, x: Seq<char>)
    requires
        ls.len() >= 1,
    ensures
        crate::text::join_spec(ls.push(x), '/') == crate::text::join_spec(ls, '/') + seq!['/']
            + x,
    decreases ls.len(),
{
    if ls.len() == 1 {
        assert(ls.push(x).drop_first() =~= seq![x]);
        assert(crate::text::join_spec(seq![x], '/') == x);
        assert(ls.push(x)[0] == ls[0]);
        assert(crate::text::join_spec(ls.push(x), '/') =~= ls[0] + seq!['/'] + x);
    } else {
        lemma_join_slash_push(ls.drop_first(), x);
        assert(ls.push(x).drop_first() =~= ls.drop_first().push(x));
        assert(crate::text::join_spec(ls.push(x), '/') =~= crate::text::join_spec(ls, '/')
            + seq!['/'] + x);
    }
}

/// `p` with `.` and `..` components resolved lexically.
pub fn normalize_path(p: &str) -> (r: String)
    ensures
        r@ == normalize_spec(p@),
{
    let comps = crate::text::split_char(p, '/');
    let ghost all = crate::text::split_spec(p@, '/');
    let mut stack: Vec<String> = Vec::new();
    let mut i: usize = 0;
    proof {
        assert(all.subrange(0, all.len() as int) =~= all);
        assert(all.subrange(i as int, all.len() as int) =~= all);
        assert(stack.deep_view() =~= Seq::<Seq<char>>::empty());
    }
    while i < comps.len()
        invariant
            i <= comps@.len(),
            comps.deep_view() == all,
            norm_stack(all, Seq::<Seq<char>>::empty()) == norm_stack(
                all.subrange(i as int, all.len() as int),
                stack.deep_view(),
            ),
        decreases comps@.len() - i,
    {
        let ghost rest = all.subrange(i as int, all.len() as int);
        proof {
            assert(rest.len() > 0);
            assert(rest[0] == all[i as int]);
            assert(rest.drop_first() =~= all.subrange(i + 1, all.len() as int));
            assert(comps@[i as int]@ == all[i as int]);
        }
        let comp = &comps[i];
        let ghost stack_before = stack.deep_view();
        if comp.as_str().is_empty() || crate::text::str_eq(comp.as_str(), ".") {
            proof {
                assert(norm_step(stack_before, all[i as int]) == stack_before);
            }
        } else if crate::text::str_eq(comp.as_str(), "..") {
            if stack.len() > 0 {
                let _ = stack.pop();
                proof {
                    assert(stack.deep_view() =~= stack_before.drop_last());
                }
            }
            proof {
                assert(stack.deep_view() =~= norm_step(stack_before, all[i as int]));
            }
        } else {
            stack.push(comp.clone());
            proof {
                assert(stack.deep_view() =~= stack_before.push(all[i as int]));
            }
        }
        i = i + 1;
    }
    proof {
        assert(all.subrange(all.len() as int, all.len() as int) =~= Seq::<Seq<char>>::empty());
    }

    // Render the kept components, restoring the leading slash of an
    // absolute path.
    let p_len = p.unicode_len();
    let absolute = p_len > 0 && p.get_char(0) == '/';
    let mut out = String::new();
    if absolute {
        proof {
            reveal_strlit("/");
            assert("/"@ =~= seq!['/']);
        }
        out.append("/");
    }
    if stack.len() == 0 {
        proof {
            assert(crate::text::join_spec(stack.deep_view(), '/') =~= Seq::<char>::empty());
            assert(out@ =~= normalize_spec(p@));
        }
        return out;
    }
    out.append(stack[0].as_str());
    proof {
        assert(stack.deep_view().subrange(0, 1) =~= seq![stack.deep_view()[0]]);
        assert(crate::text::join_spec(stack.deep_view().subrange(0, 1), '/')
            == stack.deep_view()[0]);
    }
    let mut k: usize = 1;
    while k < stack.len()
        invariant
            1 <= k <= stack@.len(),
            absolute == (p@.len() > 0 && p@[0] == '/'),
            absolute ==> out@ == seq!['/'] + crate::text::join_spec(
                stack.deep_view().subrange(0, k as int),
                '/',
            ),
            !absolute ==> out@ == crate::text::join_spec(
                stack.deep_view().subrange(0, k as int),
                '/',
            ),
        decreases stack@.len() - k,
    {
        proof {
            reveal_strlit("/");
            assert("/"@ =~= seq!['/']);
        }
        out.append("/");
        out.append(stack[k].as_str());
        proof {
            let pre = stack.deep_view().subrange(0, k as int);
            lemma_join_slash_push(pre, stack.deep_view()[k as int]);
            assert(pre.push(stack.deep_view()[k as int]) =~= stack.deep_view().subrange(
                0,
                k + 1,
            ));
            assert(stack@[k as int]@ == stack.deep_view()[k as int]);
        }
        k = k + 1;
    }
    proof {
        assert(stack.deep_view().subrange(0, stack@.len() as int) =~= stack.deep_view());
    }
    out
}

// ---------------------------------------------------------------------------
// The ancestor-or-equal order on directories
// ---------------------------------------------------------------------------

/// `a` covers `b`: watching `a` observes everything under `b`. Holds when the
/// two are equal or `a` is a proper ancestor directory of `b`.
pub open spec fn covers(a: Seq<char>, b: Seq<char>) -> bool {
    a == b || (a.len() < b.len() && b.subrange(0, a.len() as int) == a && ((a.len() > 0 && a.last()
        == '/') || b[a.len() as int] == '/'))
}

/// Covering is transitive.
pub proof fn lemma_covers_trans(a: Seq<char>, b: Seq<char>, c: Seq<char>)
    requires
        covers(a, b),
        covers(b, c),
    ensures
        covers(a, c),
{
    if a != b && b != c {
        assert(c.subrange(0, a.len() as int) =~= c.subrange(0, b.len() as int).subrange(
            0,
            a.len() as int,
        ));
        if !(a.len() > 0 && a.last() == '/') {
            assert(c[a.len() as int] == b.subrange(0, b.len() as int)[a.len() as int]);
        }
    }
}

/// Whether the directory `a` covers the directory `b`.
pub fn path_covers(a: &str, b: &str) -> (r: bool)
    ensures
        r == covers(a@, b@),
{
    let a_len = a.unicode_len();
    let b_len = b.unicode_len();
    if a_len == b_len {
        let r = crate::text::str_match_at(b, a, 0);
        proof {
            if r {
                assert(b@.subrange(0, b@.len() as int) =~= b@);
            } else {
                assert(a@ != b@) by {
                    if a@ == b@ {
                        assert(b@.subrange(0, b@.len() as int) =~= b@);
                    }
                }
            }
        }
        r
    } else if a_len < b_len {
        if crate::text::str_match_at(b, a, 0) {
            if (a_len > 0 && a.get_char(a_len - 1) == '/') || b.get_char(a_len) == '/' {
                true
            } else {
                assert(a@.len() != b@.len());
                false
            }
        } else {
            false
        }
    } else {
        false
    }
}

} // verus!
