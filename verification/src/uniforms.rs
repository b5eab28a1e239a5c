use vstd::prelude::*;

use crate::text::{is_blank, split_char, split_spec, starts_with, str_eq, str_starts_with, str_trim, trim_spec};

verus! {

// ---------------------------------------------------------------------------
// GLSL uniform declarations
// ---------------------------------------------------------------------------

/// The GLSL types this library recognises in uniform declarations.
#[derive(Debug, Clone, Copy, PartialEq, Eq, Structural)]
pub enum GLSLType {
    Int,
    Float,
    Bool,
    Vec2,
    Vec3,
    Vec4,
}

/// What can go wrong when reading a uniform declaration.
#[derive(Debug, Clone, Copy, PartialEq, Eq, Structural)]
pub enum UniformError {
    ParseError,
    TypeError,
}

/// One uniform declared in shader source. Uniforms carry no initial value.
#[derive(Debug, Clone)]
pub struct Uniform {
    pub name: String,
    pub glsl_type: GLSLType,
}

/// The GLSL type a type token denotes, if any.
pub open spec fn glsl_type_spec(s: Seq<char>) -> Option<GLSLType> {
    if s == "bool"@ {
        Some(GLSLType::Bool)
    } else if s == "int"@ {
        Some(GLSLType::Int)
    } else if s == "float"@ {
        Some(GLSLType::Float)
    } else if s == "vec2"@ {
        Some(GLSLType::Vec2)
    } else if s == "vec3"@ {
        Some(GLSLType::Vec3)
    } else if s == "vec4"@ {
        Some(GLSLType::Vec4)
    } else {
        None
    }
}

/// Parses a type token.
fn parse_glsl_type(s: &str) -> (r: Result<GLSLType, UniformError>)
    ensures
        match r {
            Ok(t) => glsl_type_spec(s@) == Some(t),
            Err(e) => glsl_type_spec(s@) is None && e == UniformError::TypeError,
        },
{
    if str_eq(s, "bool") {
        Ok(GLSLType::Bool)
    } else if str_eq(s, "int") {
        Ok(GLSLType::Int)
    } else if str_eq(s, "float") {
        Ok(GLSLType::Float)
    } else if str_eq(s, "vec2") {
        Ok(GLSLType::Vec2)
    } else if str_eq(s, "vec3") {
        Ok(GLSLType::Vec3)
    } else if str_eq(s, "vec4") {
        Ok(GLSLType::Vec4)
    } else {
        Err(UniformError::TypeError)
    }
}

impl core::str::FromStr for GLSLType {
    type Err = UniformError;

    fn from_str(input: &str) -> Result<GLSLType, UniformError> {
        parse_glsl_type(input)
    }
}

// ---------------------------------------------------------------------------
// Whitespace tokens
// ---------------------------------------------------------------------------

/// The run of non-whitespace characters at the front of `s`.
pub open spec fn first_word(s: Seq<char>) -> Seq<char>
    decreases s.len(),
{
    if s.len() == 0 || is_blank(s[0]) {
        Seq::<char>::empty()
    } else {
        seq![s[0]] + first_word(s.drop_first())
    }
}

/// `s` broken into maximal runs of non-whitespace characters.
pub open spec fn split_ws(s: Seq<char>) -> Seq<Seq<char>>
    decreases s.len(),
    via split_ws_decreases
{
    if s.len() == 0 {
        Seq::<Seq<char>>::empty()
    } else if is_blank(s[0]) {
        split_ws(s.drop_first())
    } else {
        seq![first_word(s)] + split_ws(s.skip(first_word(s).len() as int))
    }
}

proof fn lemma_first_word_len(s: Seq<char>)
    ensures
        first_word(s).len() <= s.len(),
        s.len() > 0 && !is_blank(s[0]) ==> first_word(s).len() >= 1,
    decreases s.len(),
{
    if s.len() > 0 && !is_blank(s[0]) {
        lemma_first_word_len(s.drop_first());
    }
}

#[via_fn]
proof fn split_ws_decreases(s: Seq<char>) {
    if s.len() > 0 && !is_blank(s[0]) {
        lemma_first_word_len(s);
    }
}

proof fn lemma_first_word_at(s: Seq<char>, j: int)
    requires
        0 <= j <= s.len(),
        forall|k: int| 0 <= k < j ==> !is_blank(s[k]),
        j == s.len() || is_blank(s[j]),
    ensures
        first_word(s) == s.subrange(0, j),
    decreases j,
{
    if j == 0 {
        assert(first_word(s) =~= s.subrange(0, 0));
    } else {
        lemma_first_word_at(s.drop_first(), j - 1);
        assert(s.drop_first().subrange(0, j - 1) =~= s.subrange(1, j));
        assert(seq![s[0]] + s.subrange(1, j) =~= s.subrange(0, j));
    }
}

fn char_is_blank(c: char) -> (r: bool)
    ensures
        r == is_blank(c),
{
    c == ' ' || c == '\t' || c == '\r' || c == '\n'
}

/// `s` broken into maximal runs of non-whitespace characters, as owned
/// strings.
fn split_ws_tokens(s: &str) -> (r: Vec<String>)
    ensures
        r.deep_view() == split_ws(s@),
{
    let s_len = s.unicode_len();
    let mut out: Vec<String> = Vec::new();
    let mut i: usize = 0;
    proof {
        assert(s@.subrange(0, s@.len() as int) =~= s@);
        assert(out.deep_view() + split_ws(s@) =~= split_ws(s@));
    }
    while i < s_len
        invariant
            i <= s_len,
            s_len as nat == s@.len(),
            split_ws(s@) == out.deep_view() + split_ws(s@.subrange(i as int, s@.len() as int)),
        decreases s_len - i,
    {
        let ghost rest = s@.subrange(i as int, s@.len() as int);
        proof {
            assert(rest[0] == s@[i as int]);
            assert(rest.drop_first() =~= s@.subrange(i + 1, s@.len() as int));
        }
        let c = s.get_char(i);
        if char_is_blank(c) {
            i = i + 1;
        } else {
            let mut j: usize = i + 1;
            while j < s_len && !char_is_blank(s.get_char(j))
                invariant
                    i < j <= s_len,
                    s_len as nat == s@.len(),
                    forall|k: int| i <= k < j ==> !is_blank(s@[k]),
                decreases s_len - j,
            {
                j = j + 1;
            }
            let ghost out_before = out.deep_view();
            out.push(String::from_str(s.substring_char(i, j)));
            proof {
                lemma_first_word_at(rest, j - i);
                assert(rest.subrange(0, j - i) =~= s@.subrange(i as int, j as int));
                assert(rest.skip(j - i) =~= s@.subrange(j as int, s@.len() as int));
                assert(split_ws(rest) == seq![first_word(rest)] + split_ws(
                    rest.skip(first_word(rest).len() as int),
                ));
                assert(out.deep_view() =~= out_before.push(s@.subrange(i as int, j as int)));
                assert(out.deep_view() + split_ws(s@.subrange(j as int, s@.len() as int))
                    =~= out_before + split_ws(rest));
            }
            i = j;
        }
    }
    proof {
        assert(s@.subrange(s@.len() as int, s@.len() as int) =~= Seq::<char>::empty());
        assert(out.deep_view() + Seq::<Seq<char>>::empty() =~= out.deep_view());
    }
    out
}

// ---------------------------------------------------------------------------
// Reading uniform declarations
// ---------------------------------------------------------------------------

/// A line declares a uniform when it starts with `uniform`, ignoring
/// surrounding whitespace.
pub fn is_uniform(line: String) -> (r: bool)
    ensures
        r == starts_with(trim_spec(line@), "uniform"@),
{
    str_starts_with(str_trim(line.as_str()), "uniform")
}

/// What a uniform declaration line denotes: the declared name, with one
/// trailing semicolon removed, and the declared type. The declaration must
/// read `uniform <type> <name>`; a missing token is a parse error and an
/// unknown type a type error.
pub open spec fn extract_uniform_spec(l: Seq<char>) -> Result<(Seq<char>, GLSLType), UniformError> {
    if !starts_with(trim_spec(l), "uniform"@) {
        Err(UniformError::ParseError)
    } else {
        let toks = split_ws(l);
        if toks.len() < 3 {
            Err(UniformError::ParseError)
        } else {
            let raw = toks[2];
            let name = if raw.len() > 0 && raw.last() == ';' {
                raw.drop_last()
            } else {
                raw
            };
            match glsl_type_spec(toks[1]) {
                Some(t) => Ok((name, t)),
                None => Err(UniformError::TypeError),
            }
        }
    }
}

/// Parses a uniform declaration from one line of shader source.
pub fn extract_uniform(line: String) -> (r: Result<Uniform, UniformError>)
    ensures
        match r {
            Ok(u) => extract_uniform_spec(line@) == Ok::<(Seq<char>, GLSLType), UniformError>(
                (u.name@, u.glsl_type),
            ),
            Err(e) => extract_uniform_spec(line@) == Err::<(Seq<char>, GLSLType), UniformError>(e),
        },
{
    if !is_uniform(line.clone()) {
        return Err(UniformError::ParseError);
    }
    let toks = split_ws_tokens(line.as_str());
    if toks.len() < 3 {
        return Err(UniformError::ParseError);
    }
    proof {
        assert(toks@[1]@ == toks.deep_view()[1]);
        assert(toks@[2]@ == toks.deep_view()[2]);
    }
    let raw = &toks[2];
    let raw_len = raw.as_str().unicode_len();
    let name: String = if raw_len > 0 && raw.as_str().get_char(raw_len - 1) == ';' {
        let n = String::from_str(raw.as_str().substring_char(0, raw_len - 1));
        proof {
            assert(raw@.subrange(0, raw@.len() - 1) =~= raw@.drop_last());
        }
        n
    } else {
        raw.clone()
    };
    match parse_glsl_type(toks[1].as_str()) {
        Ok(t) => Ok(Uniform { name, glsl_type: t }),
        Err(e) => Err(e),
    }
}

/// The uniforms declared among the given lines, in order; a line that
/// declares a uniform but cannot be parsed is skipped.
pub open spec fn uniforms_in(ls: Seq<Seq<char>>) -> Seq<(Seq<char>, GLSLType)>
    decreases ls.len(),
{
    if ls.len() == 0 {
        Seq::<(Seq<char>, GLSLType)>::empty()
    } else {
        (if extract_uniform_spec(ls[0]) is Ok {
            seq![extract_uniform_spec(ls[0])->Ok_0]
        } else {
            Seq::<(Seq<char>, GLSLType)>::empty()
        }) + uniforms_in(ls.drop_first())
    }
}

/// Reads the given shader source and extracts all uniform declarations.
pub fn read_uniforms(source: &String) -> (r: Vec<Uniform>)
    ensures
        r@.len() == uniforms_in(split_spec(source@, '\n')).len(),
        forall|i: int|
            0 <= i < r@.len() ==> ((#[trigger] r@[i]).name@, r@[i].glsl_type) == uniforms_in(
                split_spec(source@, '\n'),
            )[i],
{
    let ghost in_ls = split_spec(source@, '\n');
    let in_lines = split_char(source.as_str(), '\n');
    let mut out: Vec<Uniform> = Vec::new();
    let ghost full = uniforms_in(in_ls);
    let mut i: usize = 0;
    proof {
        assert(in_ls.subrange(0, in_ls.len() as int) =~= in_ls);
        assert(in_ls.subrange(i as int, in_ls.len() as int) =~= in_ls);
    }
    while i < in_lines.len()
        invariant
            i <= in_lines@.len(),
            in_lines.deep_view() == in_ls,
            full == uniforms_in(in_ls),
            out@.len() + uniforms_in(in_ls.subrange(i as int, in_ls.len() as int)).len()
                == full.len(),
            forall|m: int|
                0 <= m < out@.len() ==> ((#[trigger] out@[m]).name@, out@[m].glsl_type)
                    == full[m],
            uniforms_in(in_ls.subrange(i as int, in_ls.len() as int)) == full.skip(
                out@.len() as int,
            ),
        decreases in_lines@.len() - i,
    {
        let ghost rest = in_ls.subrange(i as int, in_ls.len() as int);
        let ghost rest2 = in_ls.subrange(i + 1, in_ls.len() as int);
        proof {
            assert(rest.len() > 0);
            assert(rest[0] == in_ls[i as int]);
            assert(rest.drop_first() =~= rest2);
            assert(in_lines@[i as int]@ == in_ls[i as int]);
        }
        let line = &in_lines[i];
        match extract_uniform(line.clone()) {
            Ok(u) => {
                out.push(u);
                proof {
                    assert(uniforms_in(rest) == seq![extract_uniform_spec(in_ls[i as int])->Ok_0]
                        + uniforms_in(rest2));
                    let prev_len = out@.len() - 1;
                    assert(full.skip(prev_len)[0] == extract_uniform_spec(
                        in_ls[i as int],
                    )->Ok_0);
                    assert(full[prev_len] == extract_uniform_spec(in_ls[i as int])->Ok_0);
                    assert(uniforms_in(rest2) =~= full.skip(prev_len).drop_first());
                    assert(full.skip(prev_len).drop_first() =~= full.skip(prev_len + 1));
                }
            },
            Err(_) => {
                proof {
                    assert(uniforms_in(rest) == uniforms_in(rest2));
                }
            },
        }
        i = i + 1;
    }
    proof {
        assert(in_ls.subrange(in_ls.len() as int, in_ls.len() as int)
            =~= Seq::<Seq<char>>::empty());
    }
    out
}

} // verus!
