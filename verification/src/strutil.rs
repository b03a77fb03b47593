//! Verified helpers over strings: equality, lexicographic order, trimming
//! and splitting, and the path arithmetic the page loader needs.

use vstd::prelude::*;
use vstd::string::StrSliceExecFns;

verus! {

/// Character-wise equality of two string slices.
pub fn str_eq(a: &str, b: &str) -> (r: bool)
    ensures
        r == (a@ == b@),
{
    let na = a.unicode_len();
    let nb = b.unicode_len();
    if na != nb {
        assert(a@ != b@) by {
            assert(a@.len() != b@.len());
        }
        return false;
    }
    let mut i: usize = 0;
    while i < na
        invariant
            0 <= i <= na,
            na == a@.len(),
            na == b@.len(),
            forall|k: int| 0 <= k < i ==> a@[k] == b@[k],
        decreases na - i,
    {
        if a.get_char(i) != b.get_char(i) {
            assert(a@ != b@) by {
                assert(a@[i as int] != b@[i as int]);
            }
            return false;
        }
        i = i + 1;
    }
    assert(a@ =~= b@);
    true
}

/// Strict lexicographic order on character sequences, by code point.
pub open spec fn lex_lt(a: Seq<char>, b: Seq<char>) -> bool
    decreases a.len(),
{
    if b.len() == 0 {
        false
    } else if a.len() == 0 {
        true
    } else if a[0] == b[0] {
        lex_lt(a.drop_first(), b.drop_first())
    } else {
        (a[0] as int) < (b[0] as int)
    }
}

/// No sequence sorts before itself.
pub proof fn lemma_lex_irreflexive(a: Seq<char>)
    ensures
        !lex_lt(a, a),
    decreases a.len(),
{
    if a.len() > 0 {
        lemma_lex_irreflexive(a.drop_first());
    }
}

/// Two sequences neither of which sorts before the other are equal.
pub proof fn lemma_lex_connected(a: Seq<char>, b: Seq<char>)
    requires
        !lex_lt(a, b),
        !lex_lt(b, a),
    ensures
        a == b,
    decreases a.len(),
{
    if a.len() == 0 {
        assert(b.len() == 0);
        assert(a =~= b);
    } else {
        assert(b.len() > 0);
        assert(a[0] == b[0]);
        lemma_lex_connected(a.drop_first(), b.drop_first());
        assert(a.drop_first() == b.drop_first());
        assert(a.drop_first().len() == a.len() - 1);
        assert(b.drop_first().len() == b.len() - 1);
        assert(a.len() == b.len());
        assert forall|i: int| 0 <= i < a.len() implies a[i] == b[i] by {
            if i > 0 {
                assert(a.drop_first()[i - 1] == b.drop_first()[i - 1]);
            }
        }
        assert(a =~= b);
    }
}

/// Lexicographic order is transitive.
pub proof fn lemma_lex_transitive(a: Seq<char>, b: Seq<char>, c: Seq<char>)
    requires
        lex_lt(a, b),
        lex_lt(b, c),
    ensures
        lex_lt(a, c),
    decreases a.len(),
{
    if a.len() == 0 {
    } else {
        assert(b.len() > 0);
        assert(c.len() > 0);
        if a[0] == b[0] && b[0] == c[0] {
            lemma_lex_transitive(a.drop_first(), b.drop_first(), c.drop_first());
        }
    }
}

/// The whitespace characters trimmed from slot names.
pub open spec fn is_space(c: char) -> bool {
    c == ' ' || c == '\t' || c == '\r' || c == '\n'
}

/// A sequence with its leading whitespace removed.
pub open spec fn trim_start_spec(s: Seq<char>) -> Seq<char>
    decreases s.len(),
{
    if s.len() > 0 && is_space(s[0]) {
        trim_start_spec(s.drop_first())
    } else {
        s
    }
}

/// A sequence with its trailing whitespace removed.
pub open spec fn trim_end_spec(s: Seq<char>) -> Seq<char>
    decreases s.len(),
{
    if s.len() > 0 && is_space(s.last()) {
        trim_end_spec(s.drop_last())
    } else {
        s
    }
}

/// A sequence with leading and trailing whitespace removed.
pub open spec fn trim_spec(s: Seq<char>) -> Seq<char> {
    trim_end_spec(trim_start_spec(s))
}

/// Decides whether a character is trimmed whitespace.
fn is_space_char(c: char) -> (r: bool)
    ensures
        r == is_space(c),
{
    c == ' ' || c == '\t' || c == '\r' || c == '\n'
}

/// Removes leading and trailing whitespace.
pub fn trim(s: &str) -> (r: String)
    ensures
        r@ == trim_spec(s@),
{
    let n = s.unicode_len();
    let mut start: usize = 0;
    proof {
        assert(s@.skip(0) =~= s@);
    }
    while start < n && is_space_char(s.get_char(start))
        invariant
            0 <= start <= n,
            n == s@.len(),
            trim_start_spec(s@) == trim_start_spec(s@.skip(start as int)),
        decreases n - start,
    {
        proof {
            assert(s@.skip(start as int)[0] == s@[start as int]);
            assert(s@.skip(start as int).drop_first() =~= s@.skip(start as int + 1));
        }
        start = start + 1;
    }
    proof {
        if start < n {
            assert(s@.skip(start as int)[0] == s@[start as int]);
        }
        assert(trim_start_spec(s@) == s@.skip(start as int));
    }
    let ghost t = s@.skip(start as int);
    let mut end: usize = n;
    proof {
        assert(t.take(n - start as int) =~= t);
    }
    while end > start && is_space_char(s.get_char(end - 1))
        invariant
            start <= end <= n,
            n == s@.len(),
            t == s@.skip(start as int),
            trim_end_spec(t) == trim_end_spec(t.take(end - start as int)),
        decreases end,
    {
        proof {
            assert(t.take(end - start as int).last() == s@[end - 1]);
            assert(t.take(end - start as int).drop_last() =~= t.take(end - 1 - start as int));
        }
        end = end - 1;
    }
    proof {
        if end > start {
            assert(t.take(end - start as int).last() == s@[end - 1]);
        }
        assert(trim_end_spec(t) == t.take(end - start as int));
    }
    let r = s.substring_char(start, end).to_owned();
    proof {
        assert(r@ =~= t.take(end - start as int));
    }
    r
}

/// The index of the first comma, or the sequence's length when it has none.
pub open spec fn comma_ix(s: Seq<char>) -> int
    decreases s.len(),
{
    if s.len() == 0 {
        0
    } else if s[0] == ',' {
        0
    } else {
        1 + comma_ix(s.drop_first())
    }
}

/// The first comma index lies in range, everything before it is not a
/// comma, and it points at a comma unless there is none.
pub proof fn lemma_comma_ix(s: Seq<char>)
    ensures
        0 <= comma_ix(s) <= s.len(),
        forall|k: int| 0 <= k < comma_ix(s) ==> s[k] != ',',
        comma_ix(s) < s.len() ==> s[comma_ix(s)] == ',',
    decreases s.len(),
{
    if s.len() > 0 && s[0] != ',' {
        lemma_comma_ix(s.drop_first());
        assert forall|k: int| 0 <= k < comma_ix(s) implies s[k] != ',' by {
            if k > 0 {
                assert(s.drop_first()[k - 1] == s[k]);
                assert(s.drop_first()[k - 1] != ',');
            }
        }
    }
}

/// The pieces of a sequence split on every comma, in order. A sequence
/// with no comma yields itself as the single piece; consecutive commas
/// yield empty pieces.
pub open spec fn split_commas(s: Seq<char>) -> Seq<Seq<char>>
    decreases s.len(),
{
    let i = comma_ix(s);
    if 0 <= i && i < s.len() {
        seq![s.take(i)] + split_commas(s.skip(i + 1))
    } else {
        seq![s]
    }
}

/// Splits on every comma, in order.
pub fn split_commas_exec(s: &str) -> (r: Vec<String>)
    ensures
        r@.map_values(|t: String| t@) == split_commas(s@),
{
    let n = s.unicode_len();
    let mut r: Vec<String> = Vec::new();
    let mut start: usize = 0;
    let mut i: usize = 0;
    proof {
        assert(s@.skip(0) =~= s@);
        assert(r@.map_values(|t: String| t@) =~= Seq::<Seq<char>>::empty());
    }
    while i < n
        invariant
            0 <= start <= i <= n,
            n == s@.len(),
            forall|k: int| start <= k < i ==> s@[k] != ',',
            split_commas(s@) == r@.map_values(|t: String| t@) + split_commas(
                s@.skip(start as int),
            ),
        decreases n - i,
    {
        if s.get_char(i) == ',' {
            let ghost rem = s@.skip(start as int);
            proof {
                lemma_comma_ix(rem);
                assert(forall|k: int| 0 <= k < rem.len() ==> rem[k] == s@[start + k]);
                assert(rem[i - start as int] == ',');
                assert forall|k: int| 0 <= k < i - start as int implies rem[k] != ',' by {
                    assert(rem[k] == s@[start + k]);
                }
                if comma_ix(rem) < i - start as int {
                    assert(rem[comma_ix(rem)] != ',');
                    assert(false);
                }
                if comma_ix(rem) > i - start as int {
                    assert(false);
                }
                assert(comma_ix(rem) == i - start as int);
                assert(rem.take(i - start as int) =~= s@.subrange(start as int, i as int));
                assert(rem.skip(i - start as int + 1) =~= s@.skip(i as int + 1));
            }
            let piece = s.substring_char(start, i).to_owned();
            let ghost pre = r@;
            r.push(piece);
            proof {
                assert(r@.map_values(|t: String| t@) =~= pre.map_values(|t: String| t@) + seq![
                    s@.subrange(start as int, i as int),
                ]);
                assert(split_commas(s@) =~= r@.map_values(|t: String| t@) + split_commas(
                    s@.skip(i as int + 1),
                ));
            }
            start = i + 1;
        }
        i = i + 1;
    }
    let ghost rem = s@.skip(start as int);
    proof {
        lemma_comma_ix(rem);
        assert(forall|k: int| 0 <= k < rem.len() ==> rem[k] == s@[start + k]);
        assert forall|k: int| 0 <= k < rem.len() implies rem[k] != ',' by {
            assert(rem[k] == s@[start + k]);
        }
        if comma_ix(rem) < rem.len() {
            assert(false);
        }
        assert(split_commas(rem) == seq![rem]);
        assert(rem =~= s@.subrange(start as int, n as int));
    }
    let piece = s.substring_char(start, n).to_owned();
    let ghost pre = r@;
    r.push(piece);
    proof {
        assert(r@.map_values(|t: String| t@) =~= pre.map_values(|t: String| t@) + seq![
            s@.subrange(start as int, n as int),
        ]);
    }
    r
}

/// The directory part of a path: everything before the last separator, or
/// the empty sequence when the path has no separator.
pub open spec fn parent_spec(s: Seq<char>) -> Seq<char>
    decreases s.len(),
{
    if s.len() == 0 {
        s
    } else if s.last() == '/' {
        s.drop_last()
    } else {
        parent_spec(s.drop_last())
    }
}

/// The directory part of a path.
pub fn parent_dir(s: &str) -> (r: String)
    ensures
        r@ == parent_spec(s@),
{
    let n = s.unicode_len();
    let mut end: usize = n;
    proof {
        assert(s@.take(n as int) =~= s@);
    }
    while end > 0 && s.get_char(end - 1) != '/'
        invariant
            0 <= end <= n,
            n == s@.len(),
            parent_spec(s@) == parent_spec(s@.take(end as int)),
        decreases end,
    {
        proof {
            assert(s@.take(end as int).last() == s@[end - 1]);
            assert(s@.take(end as int).drop_last() =~= s@.take(end - 1));
        }
        end = end - 1;
    }
    proof {
        if end > 0 {
            assert(s@.take(end as int).last() == s@[end - 1]);
            assert(s@.take(end as int).drop_last() =~= s@.take(end - 1));
            assert(parent_spec(s@) == s@.take(end - 1));
        } else {
            assert(s@.take(0) =~= Seq::<char>::empty());
            assert(parent_spec(s@) == s@.take(0));
        }
    }
    if end > 0 {
        s.substring_char(0, end - 1).to_owned()
    } else {
        let r = String::new();
        proof {
            assert(r@ =~= s@.take(0));
        }
        r
    }
}

/// One path under another: the two joined with a separator, or the
/// relative part alone when the base is empty.
pub open spec fn join_spec(base: Seq<char>, rel: Seq<char>) -> Seq<char> {
    if base.len() == 0 {
        rel
    } else {
        base + seq!['/'] + rel
    }
}

/// Joins a relative path onto a base directory.
pub fn join_path(base: &str, rel: &str) -> (r: String)
    ensures
        r@ == join_spec(base@, rel@),
{
    if base.unicode_len() == 0 {
        rel.to_owned()
    } else {
        let mut r = base.to_owned();
        r.append("/");
        r.append(rel);
        proof {
            reveal_strlit("/");
            assert(r@ =~= base@ + seq!['/'] + rel@);
        }
        r
    }
}

/// Decides whether `a` sorts strictly before `b` lexicographically.
pub fn str_lt(a: &str, b: &str) -> (r: bool)
    ensures
        r == lex_lt(a@, b@),
{
    let na = a.unicode_len();
    let nb = b.unicode_len();
    let mut i: usize = 0;
    proof {
        assert(a@.skip(0) =~= a@);
        assert(b@.skip(0) =~= b@);
    }
    while i < na && i < nb
        invariant
            0 <= i <= na,
            0 <= i <= nb,
            na == a@.len(),
            nb == b@.len(),
            lex_lt(a@, b@) == lex_lt(a@.skip(i as int), b@.skip(i as int)),
        decreases na - i,
    {
        let ca = a.get_char(i);
        let cb = b.get_char(i);
        assert(a@.skip(i as int)[0] == a@[i as int]);
        assert(b@.skip(i as int)[0] == b@[i as int]);
        if ca != cb {
            return (ca as u32) < (cb as u32);
        }
        proof {
            assert(a@.skip(i as int).drop_first() =~= a@.skip(i as int + 1));
            assert(b@.skip(i as int).drop_first() =~= b@.skip(i as int + 1));
        }
        i = i + 1;
    }
    proof {
        if i >= nb {
            assert(b@.skip(i as int).len() == 0);
        } else {
            assert(a@.skip(i as int).len() == 0);
            assert(b@.skip(i as int).len() > 0);
        }
    }
    na < nb
}

} // verus!
