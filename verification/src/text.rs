use vstd::prelude::*;

verus! {

// ---------------------------------------------------------------------------
// Substring matching
// ---------------------------------------------------------------------------

/// The pattern `p` occurs in `s` starting at index `i`.
pub open spec fn match_at(s: Seq<char>, p: Seq<char>, i: int) -> bool {
    0 <= i && i + p.len() <= s.len() && s.subrange(i, i + p.len()) == p
}

/// `s` begins with the pattern `p`.
pub open spec fn starts_with(s: Seq<char>, p: Seq<char>) -> bool {
    match_at(s, p, 0)
}

/// The pattern `p` occurs somewhere in `s`.
pub open spec fn contains_seq(s: Seq<char>, p: Seq<char>) -> bool {
    exists|i: int| match_at(s, p, i)
}

/// The last occurrence of `p` at an index below `n`, searching downward.
pub open spec fn rfind_below(s: Seq<char>, p: Seq<char>, n: nat) -> Option<int>
    decreases n,
{
    if n == 0 {
        None
    } else if match_at(s, p, n - 1) {
        Some(n - 1)
    } else {
        rfind_below(s, p, (n - 1) as nat)
    }
}

/// The index of the last occurrence of `p` in `s`, if any.
pub open spec fn rfind_spec(s: Seq<char>, p: Seq<char>) -> Option<int> {
    if p.len() <= s.len() {
        rfind_below(s, p, (s.len() - p.len() + 1) as nat)
    } else {
        None
    }
}

proof fn lemma_rfind_below_none(s: Seq<char>, p: Seq<char>, n: nat)
    requires
        rfind_below(s, p, n) is None,
    ensures
        forall|i: int| 0 <= i < n ==> !match_at(s, p, i),
    decreases n,
{
    if n > 0 {
        lemma_rfind_below_none(s, p, (n - 1) as nat);
    }
}

proof fn lemma_rfind_below_some(s: Seq<char>, p: Seq<char>, n: nat)
    requires
        rfind_below(s, p, n) is Some,
    ensures
        match_at(s, p, rfind_below(s, p, n)->0),
        0 <= rfind_below(s, p, n)->0 < n,
        forall|i: int| rfind_below(s, p, n)->0 < i < n ==> !match_at(s, p, i),
    decreases n,
{
    if n > 0 && !match_at(s, p, n - 1) {
        lemma_rfind_below_some(s, p, (n - 1) as nat);
    }
}

/// `rfind_spec` returns the greatest index at which `p` matches, and `None`
/// exactly when `p` does not occur in `s`.
pub proof fn lemma_rfind_correct(s: Seq<char>, p: Seq<char>)
    ensures
        rfind_spec(s, p) is Some ==> {
            let i = rfind_spec(s, p)->0;
            &&& match_at(s, p, i)
            &&& forall|j: int| i < j ==> !match_at(s, p, j)
        },
        rfind_spec(s, p) is None ==> !contains_seq(s, p),
{
    if p.len() <= s.len() {
        let n = (s.len() - p.len() + 1) as nat;
        if rfind_below(s, p, n) is Some {
            lemma_rfind_below_some(s, p, n);
            let i = rfind_below(s, p, n)->0;
            assert forall|j: int| i < j implies !match_at(s, p, j) by {
                if match_at(s, p, j) {
                    assert(j < n);
                }
            }
        } else {
            lemma_rfind_below_none(s, p, n);
            assert forall|j: int| true implies !match_at(s, p, j) by {
                if match_at(s, p, j) {
                    assert(j < n);
                }
            }
        }
    } else {
        assert forall|j: int| true implies !match_at(s, p, j) by {}
    }
}

/// Whether `p` occurs in `s` at the exact position `i`.
pub fn str_match_at(s: &str, p: &str, i: usize) -> (r: bool)
    ensures
        r == match_at(s@, p@, i as int),
{
    let s_len = s.unicode_len();
    let p_len = p.unicode_len();
    if i > s_len || p_len > s_len - i {
        assert(!match_at(s@, p@, i as int));
        return false;
    }
    let mut j: usize = 0;
    while j < p_len
        invariant
            0 <= j <= p_len,
            p_len as nat == p@.len(),
            s_len as nat == s@.len(),
            i + p_len <= s_len,
            forall|k: int| 0 <= k < j ==> s@[i + k] == p@[k],
        decreases p_len - j,
    {
        let cs = s.get_char(i + j);
        let cp = p.get_char(j);
        if cs != cp {
            assert(!match_at(s@, p@, i as int)) by {
                if match_at(s@, p@, i as int) {
                    assert(s@.subrange(i as int, i + p@.len())[j as int] == p@[j as int]);
                }
            }
            return false;
        }
        j = j + 1;
    }
    assert(s@.subrange(i as int, i + p@.len()) =~= p@);
    true
}

/// Whether `s` begins with `p`.
pub fn str_starts_with(s: &str, p: &str) -> (r: bool)
    ensures
        r == starts_with(s@, p@),
{
    str_match_at(s, p, 0)
}

/// Whether `p` occurs anywhere in `s`.
pub fn str_contains(s: &str, p: &str) -> (r: bool)
    ensures
        r == contains_seq(s@, p@),
{
    let s_len = s.unicode_len();
    let p_len = p.unicode_len();
    if p_len > s_len {
        assert(!contains_seq(s@, p@)) by {
            assert forall|i: int| true implies !match_at(s@, p@, i) by {}
        }
        return false;
    }
    if p_len == 0 {
        assert(match_at(s@, p@, 0)) by {
            assert(s@.subrange(0, 0) =~= p@);
        }
        return true;
    }
    let mut i: usize = 0;
    while i <= s_len - p_len
        invariant
            0 < p_len <= s_len,
            i <= s_len - p_len + 1,
            p_len as nat == p@.len(),
            s_len as nat == s@.len(),
            forall|k: int| 0 <= k < i ==> !match_at(s@, p@, k),
        decreases s_len - p_len + 1 - i,
    {
        if str_match_at(s, p, i) {
            return true;
        }
        i = i + 1;
    }
    assert(!contains_seq(s@, p@)) by {
        assert forall|k: int| true implies !match_at(s@, p@, k) by {
            if match_at(s@, p@, k) {
                assert(0 <= k < i);
            }
        }
    }
    false
}

/// The greatest index at which `p` occurs in `s`, if any.
pub fn str_rfind(s: &str, p: &str) -> (r: Option<usize>)
    ensures
        match r {
            Some(i) => rfind_spec(s@, p@) == Some(i as int),
            None => rfind_spec(s@, p@) is None,
        },
{
    let s_len = s.unicode_len();
    let p_len = p.unicode_len();
    if p_len > s_len {
        return None;
    }
    if p_len == 0 {
        assert(match_at(s@, p@, s@.len() as int)) by {
            assert(s@.subrange(s@.len() as int, s@.len() as int) =~= p@);
        }
        return Some(s_len);
    }
    let mut n: usize = s_len - p_len + 1;
    assert(rfind_below(s@, p@, (s@.len() - p@.len() + 1) as nat) == rfind_below(
        s@,
        p@,
        n as nat,
    ));
    while n > 0
        invariant
            0 < p_len <= s_len,
            p_len as nat == p@.len(),
            s_len as nat == s@.len(),
            n <= s_len - p_len + 1,
            rfind_below(s@, p@, (s@.len() - p@.len() + 1) as nat) == rfind_below(
                s@,
                p@,
                n as nat,
            ),
        decreases n,
    {
        if str_match_at(s, p, n - 1) {
            return Some(n - 1);
        }
        n = n - 1;
    }
    None
}

// ---------------------------------------------------------------------------
// Whitespace trimming
// ---------------------------------------------------------------------------

/// The ASCII whitespace characters this library trims.
pub open spec fn is_blank(c: char) -> bool {
    c == ' ' || c == '\t' || c == '\r' || c == '\n'
}

/// `s` with leading whitespace removed.
pub open spec fn trim_start_spec(s: Seq<char>) -> Seq<char>
    decreases s.len(),
{
    if s.len() > 0 && is_blank(s[0]) {
        trim_start_spec(s.drop_first())
    } else {
        s
    }
}

/// `s` with trailing whitespace removed.
pub open spec fn trim_end_spec(s: Seq<char>) -> Seq<char>
    decreases s.len(),
{
    if s.len() > 0 && is_blank(s.last()) {
        trim_end_spec(s.drop_last())
    } else {
        s
    }
}

/// `s` with whitespace removed from both ends.
pub open spec fn trim_spec(s: Seq<char>) -> Seq<char> {
    trim_end_spec(trim_start_spec(s))
}

proof fn lemma_trim_start_at(s: Seq<char>, i: int)
    requires
        0 <= i <= s.len(),
        forall|k: int| 0 <= k < i ==> is_blank(s[k]),
        i == s.len() || !is_blank(s[i]),
    ensures
        trim_start_spec(s) == s.subrange(i, s.len() as int),
    decreases i,
{
    if i == 0 {
        assert(s.subrange(0, s.len() as int) =~= s);
    } else {
        lemma_trim_start_at(s.drop_first(), i - 1);
        assert(s.drop_first().subrange(i - 1, s.drop_first().len() as int) =~= s.subrange(
            i,
            s.len() as int,
        ));
    }
}

proof fn lemma_trim_end_at(s: Seq<char>, i: int)
    requires
        0 <= i <= s.len(),
        forall|k: int| i <= k < s.len() ==> is_blank(s[k]),
        i == 0 || !is_blank(s[i - 1]),
    ensures
        trim_end_spec(s) == s.subrange(0, i),
    decreases s.len() - i,
{
    if i == s.len() {
        assert(s.subrange(0, i) =~= s);
    } else {
        lemma_trim_end_at(s.drop_last(), i);
        assert(s.drop_last().subrange(0, i) =~= s.subrange(0, i));
    }
}

/// `s` with leading ASCII whitespace removed.
pub fn str_trim_start<'a>(s: &'a str) -> (r: &'a str)
    ensures
        r@ == trim_start_spec(s@),
{
    let s_len = s.unicode_len();
    let mut i: usize = 0;
    while i < s_len
        invariant
            0 <= i <= s_len,
            s_len as nat == s@.len(),
            forall|k: int| 0 <= k < i ==> is_blank(s@[k]),
        decreases s_len - i,
    {
        let c = s.get_char(i);
        if !(c == ' ' || c == '\t' || c == '\r' || c == '\n') {
            proof {
                lemma_trim_start_at(s@, i as int);
            }
            return s.substring_char(i, s_len);
        }
        i = i + 1;
    }
    proof {
        lemma_trim_start_at(s@, i as int);
    }
    s.substring_char(i, s_len)
}

/// `s` with ASCII whitespace removed from both ends.
pub fn str_trim<'a>(s: &'a str) -> (r: &'a str)
    ensures
        r@ == trim_spec(s@),
{
    let t = str_trim_start(s);
    let t_len = t.unicode_len();
    let mut j: usize = t_len;
    while j > 0
        invariant
            0 <= j <= t_len,
            t_len as nat == t@.len(),
            t@ == trim_start_spec(s@),
            forall|k: int| j <= k < t_len ==> is_blank(t@[k]),
        decreases j,
    {
        let c = t.get_char(j - 1);
        if !(c == ' ' || c == '\t' || c == '\r' || c == '\n') {
            proof {
                lemma_trim_end_at(t@, j as int);
            }
            return t.substring_char(0, j);
        }
        j = j - 1;
    }
    proof {
        lemma_trim_end_at(t@, 0);
    }
    t.substring_char(0, 0)
}

// ---------------------------------------------------------------------------
// Splitting into lines and joining them back
// ---------------------------------------------------------------------------

/// `s` split at every occurrence of `sep`; the result always holds at least
/// one piece, and no piece contains `sep`.
pub open spec fn split_spec(s: Seq<char>, sep: char) -> Seq<Seq<char>>
    decreases s.len(),
{
    if s.len() == 0 {
        seq![Seq::<char>::empty()]
    } else if s[0] == sep {
        seq![Seq::<char>::empty()] + split_spec(s.drop_first(), sep)
    } else {
        let r = split_spec(s.drop_first(), sep);
        seq![seq![s[0]] + r[0]] + r.drop_first()
    }
}

/// The pieces joined with `sep` between each adjacent pair.
pub open spec fn join_spec(ls: Seq<Seq<char>>, sep: char) -> Seq<char>
    decreases ls.len(),
{
    if ls.len() == 0 {
        Seq::empty()
    } else if ls.len() == 1 {
        ls[0]
    } else {
        ls[0] + seq![sep] + join_spec(ls.drop_first(), sep)
    }
}

/// The concatenation of the splittings of each block, in order.
pub open spec fn concat_splits(bs: Seq<Seq<char>>, sep: char) -> Seq<Seq<char>>
    decreases bs.len(),
{
    if bs.len() == 0 {
        Seq::<Seq<char>>::empty()
    } else {
        split_spec(bs[0], sep) + concat_splits(bs.drop_first(), sep)
    }
}

pub proof fn lemma_split_nonempty(s: Seq<char>, sep: char)
    ensures
        split_spec(s, sep).len() >= 1,
    decreases s.len(),
{
    if s.len() > 0 {
        lemma_split_nonempty(s.drop_first(), sep);
    }
}

/// Splitting distributes over concatenation at a separator.
pub proof fn lemma_split_concat(a: Seq<char>, b: Seq<char>, sep: char)
    ensures
        split_spec(a + seq![sep] + b, sep) == split_spec(a, sep) + split_spec(b, sep),
    decreases a.len(),
{
    let whole = a + seq![sep] + b;
    lemma_split_nonempty(b, sep);
    if a.len() == 0 {
        assert(whole =~= seq![sep] + b);
        assert(whole[0] == sep);
        assert(whole.drop_first() =~= b);
        assert(split_spec(whole, sep) =~= split_spec(a, sep) + split_spec(b, sep));
    } else {
        lemma_split_concat(a.drop_first(), b, sep);
        lemma_split_nonempty(a.drop_first(), sep);
        lemma_split_nonempty(a.drop_first() + seq![sep] + b, sep);
        assert(whole.drop_first() =~= a.drop_first() + seq![sep] + b);
        if a[0] == sep {
            assert(split_spec(whole, sep) =~= split_spec(a, sep) + split_spec(b, sep));
        } else {
            let r = split_spec(a.drop_first(), sep);
            let rw = split_spec(whole.drop_first(), sep);
            assert(rw == r + split_spec(b, sep));
            assert(rw[0] == r[0]);
            assert(rw.drop_first() =~= r.drop_first() + split_spec(b, sep));
            assert(split_spec(whole, sep) =~= split_spec(a, sep) + split_spec(b, sep));
        }
    }
}

/// Splitting a joined sequence of blocks yields the blocks' own splittings,
/// concatenated.
pub proof fn lemma_split_join(bs: Seq<Seq<char>>, sep: char)
    requires
        bs.len() >= 1,
    ensures
        split_spec(join_spec(bs, sep), sep) == concat_splits(bs, sep),
    decreases bs.len(),
{
    if bs.len() == 1 {
        assert(concat_splits(bs.drop_first(), sep) =~= Seq::<Seq<char>>::empty());
        assert(split_spec(join_spec(bs, sep), sep) =~= concat_splits(bs, sep));
    } else {
        lemma_split_join(bs.drop_first(), sep);
        lemma_split_concat(bs[0], join_spec(bs.drop_first(), sep), sep);
        assert(split_spec(join_spec(bs, sep), sep) =~= concat_splits(bs, sep));
    }
}

/// Splitting a sequence free of the separator yields that sequence alone.
pub proof fn lemma_split_no_sep(s: Seq<char>, sep: char)
    requires
        forall|j: int| 0 <= j < s.len() ==> s[j] != sep,
    ensures
        split_spec(s, sep) == seq![s],
    decreases s.len(),
{
    if s.len() == 0 {
        assert(split_spec(s, sep) =~~= seq![s]);
    } else {
        lemma_split_no_sep(s.drop_first(), sep);
        assert(seq![s[0]] + s.drop_first() =~= s);
        assert(split_spec(s, sep) =~~= seq![s]);
    }
}

/// No piece produced by splitting contains the separator.
pub proof fn lemma_split_pieces_no_sep(s: Seq<char>, sep: char)
    ensures
        forall|i: int, j: int|
            0 <= i < split_spec(s, sep).len() && 0 <= j < split_spec(s, sep)[i].len()
                ==> split_spec(s, sep)[i][j] != sep,
    decreases s.len(),
{
    if s.len() > 0 {
        lemma_split_pieces_no_sep(s.drop_first(), sep);
        let r = split_spec(s.drop_first(), sep);
        if s[0] != sep {
            lemma_split_nonempty(s.drop_first(), sep);
            assert forall|i: int, j: int|
                0 <= i < split_spec(s, sep).len() && 0 <= j < split_spec(s, sep)[i].len()
                    implies split_spec(s, sep)[i][j] != sep by {
                if i == 0 {
                    if j > 0 {
                        assert(split_spec(s, sep)[0][j] == r[0][j - 1]);
                    }
                } else {
                    assert(split_spec(s, sep)[i] == r.drop_first()[i - 1]);
                }
            }
        }
    }
}

/// Concatenated splittings extend one block at a time.
pub proof fn lemma_concat_splits_push(bs: Seq<Seq<char>>, b: Seq<char>, sep: char)
    ensures
        concat_splits(bs.push(b), sep) == concat_splits(bs, sep) + split_spec(b, sep),
    decreases bs.len(),
{
    if bs.len() == 0 {
        assert(bs.push(b).drop_first() =~= Seq::<Seq<char>>::empty());
        assert(bs.push(b)[0] == b);
        assert(concat_splits(Seq::<Seq<char>>::empty(), sep) == Seq::<Seq<char>>::empty());
        assert(concat_splits(bs.push(b), sep) =~~= concat_splits(bs, sep) + split_spec(b, sep));
    } else {
        lemma_concat_splits_push(bs.drop_first(), b, sep);
        let bp = bs.push(b);
        assert(bp.len() > 0);
        assert(concat_splits(bp, sep) == split_spec(bp[0], sep) + concat_splits(
            bp.drop_first(),
            sep,
        ));
        assert(bp.drop_first() =~= bs.drop_first().push(b));
        assert(bp[0] == bs[0]);
        assert(concat_splits(bs.push(b), sep) =~~= concat_splits(bs, sep) + split_spec(b, sep));
    }
}

/// Every piece of a splitting is a contiguous subrange of the split text;
/// the first piece starts at the front.
pub proof fn lemma_split_piece_subrange(s: Seq<char>, sep: char, i: int)
    requires
        0 <= i < split_spec(s, sep).len(),
    ensures
        i == 0 ==> split_spec(s, sep)[0] == s.subrange(0, split_spec(s, sep)[0].len() as int),
        exists|a: int|
            0 <= a && a + split_spec(s, sep)[i].len() <= s.len() && split_spec(s, sep)[i]
                == #[trigger] s.subrange(a, a + split_spec(s, sep)[i].len() as int),
    decreases s.len(),
{
    let r = split_spec(s, sep);
    if s.len() == 0 {
        assert(r[0] =~= s.subrange(0, 0));
        assert(0 + r[i].len() <= s.len() && r[i] == s.subrange(0, 0 + r[i].len() as int));
    } else if s[0] == sep {
        if i == 0 {
            assert(r[0] =~= s.subrange(0, 0));
            assert(0 + r[i].len() <= s.len() && r[i] == s.subrange(0, 0 + r[i].len() as int));
        } else {
            lemma_split_piece_subrange(s.drop_first(), sep, i - 1);
            let rr = split_spec(s.drop_first(), sep);
            let a = choose|a: int|
                0 <= a && a + rr[i - 1].len() <= s.drop_first().len() && rr[i - 1]
                    == #[trigger] s.drop_first().subrange(a, a + rr[i - 1].len() as int);
            assert(s.drop_first().subrange(a, a + rr[i - 1].len() as int) =~= s.subrange(
                a + 1,
                a + 1 + rr[i - 1].len() as int,
            ));
            assert(r[i] == rr[i - 1]);
            assert(0 <= a + 1 && a + 1 + r[i].len() <= s.len() && r[i] == s.subrange(
                a + 1,
                a + 1 + r[i].len() as int,
            ));
        }
    } else {
        let rr = split_spec(s.drop_first(), sep);
        lemma_split_nonempty(s.drop_first(), sep);
        if i == 0 {
            lemma_split_piece_subrange(s.drop_first(), sep, 0);
            assert(rr[0] == s.drop_first().subrange(0, rr[0].len() as int));
            assert(s.drop_first().subrange(0, rr[0].len() as int) =~= s.subrange(
                1,
                1 + rr[0].len() as int,
            ));
            assert(r[0] == seq![s[0]] + rr[0]);
            assert(r[0] =~= s.subrange(0, 1 + rr[0].len() as int));
            assert(r[0] == s.subrange(0, r[0].len() as int));
            assert(0 + r[i].len() <= s.len() && r[i] == s.subrange(0, 0 + r[i].len() as int));
        } else {
            lemma_split_piece_subrange(s.drop_first(), sep, i);
            assert(r[i] == rr.drop_first()[i - 1]);
            assert(rr.drop_first()[i - 1] == rr[i]);
            let a = choose|a: int|
                0 <= a && a + rr[i].len() <= s.drop_first().len() && rr[i]
                    == #[trigger] s.drop_first().subrange(a, a + rr[i].len() as int);
            assert(s.drop_first().subrange(a, a + rr[i].len() as int) =~= s.subrange(
                a + 1,
                a + 1 + rr[i].len() as int,
            ));
            assert(0 <= a + 1 && a + 1 + r[i].len() <= s.len() && r[i] == s.subrange(
                a + 1,
                a + 1 + r[i].len() as int,
            ));
        }
    }
}

/// A pattern found in a subrange is found in the whole.
pub proof fn lemma_contains_subrange(s: Seq<char>, a: int, b: int, p: Seq<char>)
    requires
        0 <= a <= b <= s.len(),
        contains_seq(s.subrange(a, b), p),
    ensures
        contains_seq(s, p),
{
    let sub = s.subrange(a, b);
    let i = choose|i: int| match_at(sub, p, i);
    assert(sub.subrange(i, i + p.len() as int) =~= s.subrange(a + i, a + i + p.len() as int));
    assert(match_at(s, p, a + i));
}

/// A pattern found after trimming leading whitespace is found in the
/// original text.
pub proof fn lemma_contains_trim_start(l: Seq<char>, p: Seq<char>)
    requires
        contains_seq(trim_start_spec(l), p),
    ensures
        contains_seq(l, p),
    decreases l.len(),
{
    if l.len() > 0 && is_blank(l[0]) {
        lemma_contains_trim_start(l.drop_first(), p);
        let i = choose|i: int| match_at(l.drop_first(), p, i);
        assert(l.drop_first().subrange(i, i + p.len() as int) =~= l.subrange(
            i + 1,
            i + 1 + p.len() as int,
        ));
        assert(match_at(l, p, i + 1));
    }
}

/// Whether two strings hold the same characters.
pub fn str_eq(a: &str, b: &str) -> (r: bool)
    ensures
        r == (a@ == b@),
{
    let a_len = a.unicode_len();
    let b_len = b.unicode_len();
    if a_len != b_len {
        return false;
    }
    let r = str_match_at(b, a, 0);
    proof {
        if r {
            assert(b@.subrange(0, b@.len() as int) =~= b@);
        } else {
            if a@ == b@ {
                assert(b@.subrange(0, b@.len() as int) =~= b@);
            }
        }
    }
    r
}

/// A piece of `split_cons(head, r)` is `head` glued onto the first piece of
/// `r`, followed by the remaining pieces of `r`.
pub open spec fn split_cons(head: Seq<char>, r: Seq<Seq<char>>) -> Seq<Seq<char>>
    recommends
        r.len() >= 1,
{
    seq![head + r[0]] + r.drop_first()
}

/// `s` split at every occurrence of `sep`, as owned strings.
pub fn split_char(s: &str, sep: char) -> (r: Vec<String>)
    ensures
        r.deep_view() == split_spec(s@, sep),
        r@.len() >= 1,
{
    let s_len = s.unicode_len();
    let mut out: Vec<String> = Vec::new();
    let mut start: usize = 0;
    let mut i: usize = 0;
    proof {
        lemma_split_nonempty(s@, sep);
        let whole = s@.subrange(0, s@.len() as int);
        assert(whole =~= s@);
        let r = split_spec(s@, sep);
        assert(Seq::<char>::empty() + r[0] =~= r[0]);
        assert(split_cons(s@.subrange(0, 0), r) =~= r);
        assert(out.deep_view() + split_cons(s@.subrange(0, 0), r) =~= r);
    }
    while i < s_len
        invariant
            0 <= start <= i <= s_len,
            s_len as nat == s@.len(),
            split_spec(s@, sep) == out.deep_view() + split_cons(
                s@.subrange(start as int, i as int),
                split_spec(s@.subrange(i as int, s@.len() as int), sep),
            ),
        decreases s_len - i,
    {
        let ghost rest = s@.subrange(i as int, s@.len() as int);
        let ghost rest2 = s@.subrange(i + 1, s@.len() as int);
        proof {
            assert(rest.len() > 0);
            assert(rest[0] == s@[i as int]);
            assert(rest.drop_first() =~= rest2);
            lemma_split_nonempty(rest2, sep);
        }
        let c = s.get_char(i);
        if c == sep {
            let piece = String::from_str(s.substring_char(start, i));
            out.push(piece);
            proof {
                assert(split_spec(rest, sep) == seq![Seq::<char>::empty()] + split_spec(
                    rest2,
                    sep,
                ));
                let line = s@.subrange(start as int, i as int);
                assert(line + Seq::<char>::empty() =~= line);
                assert(Seq::<char>::empty() + split_spec(rest2, sep)[0] =~= split_spec(
                    rest2,
                    sep,
                )[0]);
                assert(split_cons(line, split_spec(rest, sep)) =~= seq![line] + split_cons(
                    s@.subrange(i + 1, i + 1),
                    split_spec(rest2, sep),
                ));
                assert(split_spec(s@, sep) =~= out.deep_view() + split_cons(
                    s@.subrange(i + 1, i + 1),
                    split_spec(rest2, sep),
                ));
            }
            start = i + 1;
        } else {
            proof {
                let r2 = split_spec(rest2, sep);
                assert(split_spec(rest, sep) == seq![seq![rest[0]] + r2[0]] + r2.drop_first());
                assert(s@.subrange(start as int, i as int) + (seq![s@[i as int]] + r2[0])
                    =~= s@.subrange(start as int, i + 1) + r2[0]);
                assert(split_cons(
                    s@.subrange(start as int, i as int),
                    split_spec(rest, sep),
                ) =~= split_cons(s@.subrange(start as int, i + 1), r2));
            }
        }
        i = i + 1;
    }
    let piece = String::from_str(s.substring_char(start, s_len));
    out.push(piece);
    proof {
        let tail = s@.subrange(s_len as int, s@.len() as int);
        assert(tail.len() == 0);
        let line = s@.subrange(start as int, s_len as int);
        assert(line + Seq::<char>::empty() =~= line);
        assert(split_cons(line, split_spec(tail, sep)) =~= seq![line]);
        assert(out.deep_view() =~= split_spec(s@, sep));
    }
    out
}

proof fn lemma_join_push(ls: Seq<Seq<char>>, x: Seq<char>, sep: char)
    requires
        ls.len() >= 1,
    ensures
        join_spec(ls.push(x), sep) == join_spec(ls, sep) + seq![sep] + x,
    decreases ls.len(),
{
    if ls.len() == 1 {
        assert(ls.push(x).drop_first() =~= seq![x]);
        assert(join_spec(seq![x], sep) == x);
        assert(ls.push(x)[0] == ls[0]);
        assert(join_spec(ls.push(x), sep) =~= ls[0] + seq![sep] + x);
    } else {
        lemma_join_push(ls.drop_first(), x, sep);
        assert(ls.push(x).drop_first() =~= ls.drop_first().push(x));
        assert(join_spec(ls.push(x), sep) =~= join_spec(ls, sep) + seq![sep] + x);
    }
}

/// The pieces joined with a newline between each adjacent pair.
pub fn join_lines(v: &Vec<String>) -> (r: String)
    ensures
        r@ == join_spec(v.deep_view(), '\n'),
{
    let mut acc = String::new();
    if v.len() == 0 {
        return acc;
    }
    acc.append(v[0].as_str());
    assert(acc@ =~= join_spec(v.deep_view().subrange(0, 1), '\n'));
    let mut i: usize = 1;
    while i < v.len()
        invariant
            1 <= i <= v@.len(),
            acc@ == join_spec(v.deep_view().subrange(0, i as int), '\n'),
        decreases v@.len() - i,
    {
        proof {
            reveal_strlit("\n");
        }
        acc.append("\n");
        acc.append(v[i].as_str());
        proof {
            let pre = v.deep_view().subrange(0, i as int);
            lemma_join_push(pre, v@[i as int]@, '\n');
            assert(pre.push(v@[i as int]@) =~= v.deep_view().subrange(0, i + 1));
            assert("\n"@ =~= seq!['\n']);
            assert(acc@ =~= join_spec(v.deep_view().subrange(0, i + 1), '\n'));
        }
        i = i + 1;
    }
    proof {
        assert(v.deep_view().subrange(0, v@.len() as int) =~= v.deep_view());
    }
    acc
}

// ---------------------------------------------------------------------------
// Finding the last occurrence of a single character
// ---------------------------------------------------------------------------

/// The last index below `n` holding the character `c`.
pub open spec fn rfind_char_below(s: Seq<char>, c: char, n: nat) -> Option<int>
    decreases n,
{
    if n == 0 {
        None
    } else if s[n - 1] == c {
        Some(n - 1)
    } else {
        rfind_char_below(s, c, (n - 1) as nat)
    }
}

/// The index of the last occurrence of the character `c` in `s`, if any.
pub open spec fn last_index_of(s: Seq<char>, c: char) -> Option<int> {
    rfind_char_below(s, c, s.len())
}

pub proof fn lemma_last_index_of(s: Seq<char>, c: char, n: nat)
    requires
        n <= s.len(),
    ensures
        rfind_char_below(s, c, n) is Some ==> {
            let i = rfind_char_below(s, c, n)->0;
            &&& 0 <= i < n
            &&& s[i] == c
            &&& forall|j: int| i < j < n ==> s[j] != c
        },
        rfind_char_below(s, c, n) is None ==> forall|j: int| 0 <= j < n ==> s[j] != c,
    decreases n,
{
    if n > 0 {
        lemma_last_index_of(s, c, (n - 1) as nat);
    }
}

/// The index of the last occurrence of `c` in `s`, if any.
pub fn str_rfind_char(s: &str, c: char) -> (r: Option<usize>)
    ensures
        match r {
            Some(i) => last_index_of(s@, c) == Some(i as int),
            None => last_index_of(s@, c) is None,
        },
{
    let s_len = s.unicode_len();
    let mut n: usize = s_len;
    while n > 0
        invariant
            n <= s_len,
            s_len as nat == s@.len(),
            rfind_char_below(s@, c, s@.len()) == rfind_char_below(s@, c, n as nat),
        decreases n,
    {
        if s.get_char(n - 1) == c {
            return Some(n - 1);
        }
        n = n - 1;
    }
    None
}

// ---------------------------------------------------------------------------
// Character-level string building
// ---------------------------------------------------------------------------

/// Relies on String::push: appends exactly one character at the end.
#[verifier::external_body]
pub(crate) fn push_char(s: &mut String, c: char)
    ensures
        final(s)@ == old(s)@.push(c),
{
    s.push(c);
}

} // verus!
