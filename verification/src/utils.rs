use vstd::prelude::*;

use crate::text::{lemma_rfind_correct, match_at, push_char, rfind_spec, str_rfind};

verus! {

// ---------------------------------------------------------------------------
// Extracting the text between two markers
// ---------------------------------------------------------------------------

/// The text strictly between the last occurrence of `start` (plus its own
/// length) and the last occurrence of `end`; empty when either marker is
/// missing or the two regions cross.
pub open spec fn between_spec(v: Seq<char>, start: Seq<char>, end: Seq<char>) -> Seq<char> {
    match (rfind_spec(v, start), rfind_spec(v, end)) {
        (Some(si), Some(ei)) => {
            let from = si + start.len();
            if from < v.len() && from <= ei {
                v.subrange(from, ei)
            } else {
                Seq::empty()
            }
        },
        _ => Seq::empty(),
    }
}

/// The slice of `value` between the last occurrence of `start` and the last
/// occurrence of `end`; empty when either marker is missing or the regions
/// cross.
pub fn string_between<'v>(value: &'v str, start: &str, end: &str) -> (r: &'v str)
    ensures
        r@ == between_spec(value@, start@, end@),
{
    let len = value.unicode_len();
    let si = str_rfind(value, start);
    let ei = str_rfind(value, end);
    proof {
        reveal_strlit("");
    }
    match (si, ei) {
        (Some(si), Some(ei)) => {
            proof {
                lemma_rfind_correct(value@, start@);
                lemma_rfind_correct(value@, end@);
            }
            let start_len = start.unicode_len();
            if si <= len - start_len {
                let from = si + start_len;
                if from < len && from <= ei {
                    value.substring_char(from, ei)
                } else {
                    ""
                }
            } else {
                // Never reached: a match index always leaves room for the
                // pattern itself.
                assert(false) by {
                    assert(match_at(value@, start@, si as int));
                }
                ""
            }
        },
        _ => "",
    }
}

// ---------------------------------------------------------------------------
// Extracting the shader name from an include pragma
// ---------------------------------------------------------------------------

/// `s` with every single and double quote removed.
pub open spec fn strip_quotes(s: Seq<char>) -> Seq<char>
    decreases s.len(),
{
    if s.len() == 0 {
        s
    } else if s[0] == '\'' || s[0] == '"' {
        strip_quotes(s.drop_first())
    } else {
        seq![s[0]] + strip_quotes(s.drop_first())
    }
}

/// The shader name referenced by an include pragma line: the text inside
/// `include(...)`, with surrounding quotes stripped.
pub open spec fn pragma_name_spec(line: Seq<char>) -> Seq<char> {
    strip_quotes(between_spec(line, "include("@, ")"@))
}

/// Returns the shader name referenced on a line of shader code.
pub fn pragma_shader_name(line: &str) -> (r: String)
    ensures
        r@ == pragma_name_spec(line@),
{
    let inner = string_between(line, "include(", ")");
    let inner_len = inner.unicode_len();
    let mut out = String::new();
    let mut i: usize = 0;
    proof {
        assert(inner@.subrange(0, inner@.len() as int) =~= inner@);
        assert(out@ + strip_quotes(inner@) =~= strip_quotes(inner@));
    }
    while i < inner_len
        invariant
            0 <= i <= inner_len,
            inner_len as nat == inner@.len(),
            strip_quotes(inner@) == out@ + strip_quotes(
                inner@.subrange(i as int, inner@.len() as int),
            ),
        decreases inner_len - i,
    {
        let ghost rest = inner@.subrange(i as int, inner@.len() as int);
        let ghost rest2 = inner@.subrange(i + 1, inner@.len() as int);
        proof {
            assert(rest[0] == inner@[i as int]);
            assert(rest.drop_first() =~= rest2);
        }
        let c = inner.get_char(i);
        if !(c == '\'' || c == '"') {
            push_char(&mut out, c);
            proof {
                assert(out@ + strip_quotes(rest2) =~= (out@.drop_last() + seq![c]) + strip_quotes(
                    rest2,
                ));
                assert(out@.drop_last() + (seq![c] + strip_quotes(rest2)) =~= (out@.drop_last()
                    + seq![c]) + strip_quotes(rest2));
            }
        }
        i = i + 1;
    }
    proof {
        assert(inner@.subrange(inner@.len() as int, inner@.len() as int) =~= Seq::<char>::empty());
        assert(out@ + Seq::<char>::empty() =~= out@);
    }
    out
}

/// Renders a shader name back into the include statement that references it.
pub fn include_statement_from_string(shader_name: String) -> (r: String)
    ensures
        r@ == "#pragma include("@ + shader_name@ + ");"@,
{
    let mut out = String::from_str("#pragma include(");
    out.append(shader_name.as_str());
    out.append(");");
    out
}

} // verus!
