//! Character-level text utilities shared by the parsers in this crate.

use vstd::prelude::*;
use vstd::string::StrSliceExecFns;

verus! {

/// Whether two string slices hold the same characters.
pub fn str_eq(a: &str, b: &str) -> (r: bool)
    ensures
        r == (a@ == b@),
{
    let alen = a.unicode_len();
    let blen = b.unicode_len();
    if alen != blen {
        return false;
    }
    let mut i: usize = 0;
    while i < alen
        invariant
            alen == a@.len(),
            blen == b@.len(),
            alen == blen,
            i <= alen,
            forall|j: int| 0 <= j < i ==> a@[j] == b@[j],
        decreases alen - i,
    {
        if a.get_char(i) != b.get_char(i) {
            return false;
        }
        i += 1;
    }
    proof {
        assert(a@ =~= b@);
    }
    true
}

/// One string is a prefix of another.
pub open spec fn is_prefix_of(prefix: Seq<char>, s: Seq<char>) -> bool {
    prefix.len() <= s.len() && s.take(prefix.len() as int) == prefix
}

/// Whether `s` starts with `prefix`.
pub fn str_starts_with(s: &str, prefix: &str) -> (b: bool)
    ensures
        b == is_prefix_of(prefix@, s@),
{
    let n = s.unicode_len();
    let p = prefix.unicode_len();
    if p > n {
        proof {
            assert(!is_prefix_of(prefix@, s@));
        }
        return false;
    }
    let mut i: usize = 0;
    while i < p
        invariant
            n == s@.len(),
            p == prefix@.len(),
            p <= n,
            i <= p,
            forall|j: int| 0 <= j < i ==> s@[j] == prefix@[j],
        decreases p - i,
    {
        if s.get_char(i) != prefix.get_char(i) {
            proof {
                assert(s@.take(p as int)[i as int] != prefix@[i as int]);
            }
            return false;
        }
        i += 1;
    }
    proof {
        assert(s@.take(p as int) =~= prefix@);
    }
    true
}

/// Whether some element of `names` holds the characters of `target`.
pub fn contains_name(names: &Vec<String>, target: &str) -> (b: bool)
    ensures
        b == names.deep_view().contains(target@),
{
    let mut i: usize = 0;
    while i < names.len()
        invariant
            i <= names@.len(),
            forall|j: int| 0 <= j < i ==> names.deep_view()[j] != target@,
        decreases names@.len() - i,
    {
        if str_eq(names[i].as_str(), target) {
            proof {
                assert(names.deep_view()[i as int] == target@);
            }
            return true;
        }
        proof {
            assert(names.deep_view()[i as int] == names@[i as int]@);
        }
        i += 1;
    }
    false
}

/// A copy of a vector of strings with the same characters.
#[verifier::loop_isolation(false)]
pub fn clone_string_vec(src: &Vec<String>) -> (r: Vec<String>)
    ensures
        r.deep_view() == src.deep_view(),
{
    let mut r: Vec<String> = Vec::new();
    let mut i: usize = 0;
    while i < src.len()
        invariant
            i <= src@.len(),
            r@.len() == i,
            forall|j: int| 0 <= j < i ==> r.deep_view()[j] == src.deep_view()[j],
        decreases src@.len() - i,
    {
        let ghost r_old = r;
        r.push(src[i].clone());
        proof {
            assert(r.deep_view() =~= r_old.deep_view().push(src@[i as int]@));
        }
        i += 1;
    }
    proof {
        assert(r.deep_view() =~= src.deep_view());
    }
    r
}

/// Relies on String::push: appends one character to the string.
#[verifier::external_body]
pub fn push_char(s: &mut String, c: char)
    ensures
        final(s)@ == old(s)@.push(c),
{
    s.push(c);
}

/// Pushing onto a vector of strings pushes the string's view onto the
/// vector's element-wise view.
pub proof fn lemma_vec_push_deep_view(v1: Vec<String>, v2: Vec<String>, x: String)
    requires
        v2@ == v1@.push(x),
    ensures
        v2.deep_view() == v1.deep_view().push(x@),
{
    assert(v2.deep_view() =~= v1.deep_view().push(x@));
}

/// The index of the first occurrence of `sep`, or the length of `s` if
/// `sep` does not occur.
pub open spec fn first_index(s: Seq<char>, sep: char) -> int
    decreases s.len(),
{
    if s.len() == 0 {
        0
    } else if s[0] == sep {
        0
    } else {
        1 + first_index(s.drop_first(), sep)
    }
}

/// Bounds and meaning of `first_index`.
pub proof fn lemma_first_index(s: Seq<char>, sep: char)
    ensures
        0 <= first_index(s, sep) <= s.len(),
        first_index(s, sep) < s.len() ==> s[first_index(s, sep)] == sep,
        forall|j: int| 0 <= j < first_index(s, sep) ==> s[j] != sep,
    decreases s.len(),
{
    if s.len() > 0 && s[0] != sep {
        lemma_first_index(s.drop_first(), sep);
        assert forall|j: int| 0 <= j < first_index(s, sep) implies s[j] != sep by {
            if j > 0 {
                assert(s.drop_first()[j - 1] == s[j]);
            }
        }
    }
}

/// `first_index` is determined by a separator-free prefix followed by a
/// separator (or the end of the string).
pub proof fn lemma_first_index_determined(s: Seq<char>, sep: char, k: int)
    requires
        0 <= k <= s.len(),
        forall|j: int| 0 <= j < k ==> s[j] != sep,
        k < s.len() ==> s[k] == sep,
    ensures
        first_index(s, sep) == k,
    decreases s.len(),
{
    if s.len() > 0 && s[0] != sep {
        lemma_first_index_determined(s.drop_first(), sep, k - 1);
    }
}

/// Splitting on a separator character: the fields between occurrences of
/// `sep`, in order, empty fields included. A string with no separator is
/// one field; each separator ends a field.
pub open spec fn spec_split(s: Seq<char>, sep: char) -> Seq<Seq<char>>
    decreases s.len(),
    via spec_split_decreases
{
    let i = first_index(s, sep);
    if i == s.len() {
        seq![s]
    } else {
        seq![s.take(i)] + spec_split(s.skip(i + 1), sep)
    }
}

#[via_fn]
proof fn spec_split_decreases(s: Seq<char>, sep: char) {
    lemma_first_index(s, sep);
}

/// The fields of `s` split on `sep`, as owned strings.
#[verifier::loop_isolation(false)]
pub fn split_on_char(s: &str, sep: char) -> (r: Vec<String>)
    ensures
        r.deep_view() == spec_split(s@, sep),
        r@.len() > 0,
{
    let n = s.unicode_len();
    let mut r: Vec<String> = Vec::new();
    let mut current = String::new();
    let mut start: usize = 0;
    let mut i: usize = 0;
    proof {
        assert(s@.skip(0) =~= s@);
        assert(s@.subrange(0, 0) =~= Seq::<char>::empty());
    }
    while i < n
        invariant
            n == s@.len(),
            start <= i <= n,
            current@ == s@.subrange(start as int, i as int),
            forall|j: int| start <= j < i ==> s@[j] != sep,
            spec_split(s@, sep) == r.deep_view() + spec_split(s@.skip(start as int), sep),
        decreases n - i,
    {
        let c = s.get_char(i);
        if c == sep {
            proof {
                let rest = s@.skip(start as int);
                lemma_first_index_determined(rest, sep, i - start);
                assert(rest.take(i - start) =~= s@.subrange(start as int, i as int));
                assert(rest.skip(i - start + 1) =~= s@.skip(i + 1));
                assert(spec_split(rest, sep) == seq![current@] + spec_split(s@.skip(i + 1), sep));
            }
            let ghost r_old = r;
            let ghost field = current;
            r.push(current);
            proof {
                lemma_vec_push_deep_view(r_old, r, field);
                assert(r_old.deep_view() + (seq![field@] + spec_split(s@.skip(i + 1), sep))
                    =~= r.deep_view() + spec_split(s@.skip(i + 1), sep));
            }
            current = String::new();
            start = i + 1;
            proof {
                assert(current@ =~= s@.subrange(start as int, start as int));
            }
        } else {
            let ghost cur_old = current@;
            push_char(&mut current, c);
            proof {
                assert(cur_old.push(s@[i as int]) =~= s@.subrange(start as int, i + 1));
            }
        }
        i += 1;
    }
    proof {
        let rest = s@.skip(start as int);
        lemma_first_index_determined(rest, sep, n - start);
        assert(spec_split(rest, sep) == seq![rest]);
        assert(current@ =~= rest);
    }
    let ghost r_old = r;
    let ghost field = current;
    r.push(current);
    proof {
        lemma_vec_push_deep_view(r_old, r, field);
        assert(r.deep_view() =~= r_old.deep_view() + seq![field@]);
        assert(r.deep_view() =~= spec_split(s@, sep));
    }
    r
}

/// ASCII whitespace: space, tab, line feed, form feed, carriage return.
pub open spec fn is_ascii_ws(c: char) -> bool {
    c == ' ' || c == '\t' || c == '\n' || c == '\u{c}' || c == '\r'
}

/// Whether `c` is ASCII whitespace.
pub fn is_ws(c: char) -> (b: bool)
    ensures
        b == is_ascii_ws(c),
{
    c == ' ' || c == '\t' || c == '\n' || c == '\u{c}' || c == '\r'
}

/// The index of the first ASCII-whitespace character, or the length of
/// `s` if there is none.
pub open spec fn first_ws(s: Seq<char>) -> int
    decreases s.len(),
{
    if s.len() == 0 {
        0
    } else if is_ascii_ws(s[0]) {
        0
    } else {
        1 + first_ws(s.drop_first())
    }
}

/// Bounds and meaning of `first_ws`.
pub proof fn lemma_first_ws(s: Seq<char>)
    ensures
        0 <= first_ws(s) <= s.len(),
        first_ws(s) < s.len() ==> is_ascii_ws(s[first_ws(s)]),
        forall|j: int| 0 <= j < first_ws(s) ==> !is_ascii_ws(s[j]),
    decreases s.len(),
{
    if s.len() > 0 && !is_ascii_ws(s[0]) {
        lemma_first_ws(s.drop_first());
        assert forall|j: int| 0 <= j < first_ws(s) implies !is_ascii_ws(s[j]) by {
            if j > 0 {
                assert(s.drop_first()[j - 1] == s[j]);
            }
        }
    }
}

/// `first_ws` is determined by a whitespace-free prefix followed by
/// whitespace or the end of the string.
pub proof fn lemma_first_ws_determined(s: Seq<char>, k: int)
    requires
        0 <= k <= s.len(),
        forall|j: int| 0 <= j < k ==> !is_ascii_ws(s[j]),
        k < s.len() ==> is_ascii_ws(s[k]),
    ensures
        first_ws(s) == k,
    decreases s.len(),
{
    if s.len() > 0 && !is_ascii_ws(s[0]) {
        lemma_first_ws_determined(s.drop_first(), k - 1);
    }
}

/// The maximal whitespace-free words of `s`, in order: whitespace
/// separates words and never appears in one, and runs of whitespace
/// produce no empty words.
pub open spec fn spec_ws_tokens(s: Seq<char>) -> Seq<Seq<char>>
    decreases s.len(),
    via spec_ws_tokens_decreases
{
    if s.len() == 0 {
        Seq::empty()
    } else if is_ascii_ws(s[0]) {
        spec_ws_tokens(s.drop_first())
    } else {
        let e = first_ws(s);
        seq![s.take(e)] + spec_ws_tokens(s.skip(e))
    }
}

#[via_fn]
proof fn spec_ws_tokens_decreases(s: Seq<char>) {
    if s.len() > 0 && !is_ascii_ws(s[0]) {
        lemma_first_ws(s);
        assert(first_ws(s) >= 1);
    }
}

/// The whitespace-separated words of `s`, as owned strings.
#[verifier::loop_isolation(false)]
pub fn split_ascii_tokens(s: &str) -> (r: Vec<String>)
    ensures
        r.deep_view() == spec_ws_tokens(s@),
{
    let n = s.unicode_len();
    let mut r: Vec<String> = Vec::new();
    let mut i: usize = 0;
    proof {
        assert(s@.skip(0) =~= s@);
    }
    while i < n
        invariant
            n == s@.len(),
            i <= n,
            spec_ws_tokens(s@) == r.deep_view() + spec_ws_tokens(s@.skip(i as int)),
        decreases n - i,
    {
        let c = s.get_char(i);
        if is_ws(c) {
            proof {
                assert(s@.skip(i as int).drop_first() =~= s@.skip(i as int + 1));
            }
            i += 1;
        } else {
            let mut current = String::new();
            let start: usize = i;
            proof {
                assert(s@.subrange(start as int, start as int) =~= Seq::<char>::empty());
            }
            while i < n && !is_ws(s.get_char(i))
                invariant
                    n == s@.len(),
                    start <= i <= n,
                    current@ == s@.subrange(start as int, i as int),
                    forall|j: int| start <= j < i ==> !is_ascii_ws(s@[j]),
                decreases n - i,
            {
                let ghost cur_old = current@;
                push_char(&mut current, s.get_char(i));
                proof {
                    assert(cur_old.push(s@[i as int]) =~= s@.subrange(start as int, i + 1));
                }
                i += 1;
            }
            proof {
                let rest = s@.skip(start as int);
                assert forall|j: int| 0 <= j < i - start implies !is_ascii_ws(rest[j]) by {
                    assert(rest[j] == s@[start + j]);
                }
                if i < n {
                    assert(rest[i - start] == s@[i as int]);
                }
                lemma_first_ws_determined(rest, i - start);
                assert(rest.take(i - start) =~= s@.subrange(start as int, i as int));
                assert(rest.skip(i - start) =~= s@.skip(i as int));
                assert(spec_ws_tokens(rest) == seq![current@] + spec_ws_tokens(s@.skip(i as int)));
            }
            let ghost r_old = r;
            let ghost word = current;
            r.push(current);
            proof {
                lemma_vec_push_deep_view(r_old, r, word);
                assert(r_old.deep_view() + (seq![word@] + spec_ws_tokens(s@.skip(i as int)))
                    =~= r.deep_view() + spec_ws_tokens(s@.skip(i as int)));
            }
        }
    }
    proof {
        assert(s@.skip(i as int) =~= Seq::<char>::empty());
        assert(r.deep_view() + spec_ws_tokens(Seq::empty()) =~= r.deep_view());
    }
    r
}

/// The count of leading ASCII-whitespace characters.
pub open spec fn leading_ws(s: Seq<char>) -> int
    decreases s.len(),
{
    if s.len() == 0 || !is_ascii_ws(s[0]) {
        0
    } else {
        1 + leading_ws(s.drop_first())
    }
}

/// The count of trailing ASCII-whitespace characters.
pub open spec fn trailing_ws(s: Seq<char>) -> int
    decreases s.len(),
{
    if s.len() == 0 || !is_ascii_ws(s.last()) {
        0
    } else {
        1 + trailing_ws(s.drop_last())
    }
}

/// `s` with its surrounding ASCII whitespace removed.
pub open spec fn spec_trim(s: Seq<char>) -> Seq<char> {
    if leading_ws(s) == s.len() {
        Seq::empty()
    } else {
        s.subrange(leading_ws(s), s.len() - trailing_ws(s))
    }
}

/// `leading_ws` is determined by a run of whitespace followed by a
/// non-whitespace character or the end.
pub proof fn lemma_leading_ws_determined(s: Seq<char>, k: int)
    requires
        0 <= k <= s.len(),
        forall|j: int| 0 <= j < k ==> is_ascii_ws(s[j]),
        k < s.len() ==> !is_ascii_ws(s[k]),
    ensures
        leading_ws(s) == k,
    decreases s.len(),
{
    if s.len() > 0 && is_ascii_ws(s[0]) {
        lemma_leading_ws_determined(s.drop_first(), k - 1);
    }
}

/// `trailing_ws` is determined by a run of trailing whitespace preceded
/// by a non-whitespace character or the start.
pub proof fn lemma_trailing_ws_determined(s: Seq<char>, k: int)
    requires
        0 <= k <= s.len(),
        forall|j: int| s.len() - k <= j < s.len() ==> is_ascii_ws(s[j]),
        k < s.len() ==> !is_ascii_ws(s[s.len() - k - 1]),
    ensures
        trailing_ws(s) == k,
    decreases s.len(),
{
    if s.len() > 0 && is_ascii_ws(s.last()) {
        lemma_trailing_ws_determined(s.drop_last(), k - 1);
        assert forall|j: int| s.drop_last().len() - (k - 1) <= j < s.drop_last().len()
            implies is_ascii_ws(s.drop_last()[j]) by {
            assert(s.drop_last()[j] == s[j]);
        }
    }
}

/// `s` with its surrounding ASCII whitespace removed.
#[verifier::loop_isolation(false)]
pub fn trim_ascii<'a>(s: &'a str) -> (r: &'a str)
    ensures
        r@ == spec_trim(s@),
{
    let n = s.unicode_len();
    let mut a: usize = 0;
    while a < n && is_ws(s.get_char(a))
        invariant
            n == s@.len(),
            a <= n,
            forall|j: int| 0 <= j < a ==> is_ascii_ws(s@[j]),
        decreases n - a,
    {
        a += 1;
    }
    proof {
        lemma_leading_ws_determined(s@, a as int);
    }
    if a == n {
        proof {
            reveal_strlit("");
            assert(""@ =~= spec_trim(s@));
        }
        return "";
    }
    let mut b: usize = n;
    while b > a && is_ws(s.get_char(b - 1))
        invariant
            n == s@.len(),
            a <= b <= n,
            forall|j: int| b <= j < n ==> is_ascii_ws(s@[j]),
        decreases b,
    {
        b -= 1;
    }
    proof {
        assert(!is_ascii_ws(s@[a as int]));
        assert(b > a);
        assert(!is_ascii_ws(s@[b - 1]));
        lemma_trailing_ws_determined(s@, n - b);
    }
    s.substring_char(a, b)
}

/// Filtering a sequence extended by one element.
pub proof fn lemma_filter_push<A>(s: Seq<A>, x: A, pred: spec_fn(A) -> bool)
    ensures
        s.push(x).filter(pred) == if pred(x) {
            s.filter(pred).push(x)
        } else {
            s.filter(pred)
        },
{
    reveal(Seq::filter);
    assert(s.push(x).drop_last() =~= s);
    assert(s.push(x).last() == x);
}

/// Filtering the empty sequence.
pub proof fn lemma_filter_empty<A>(pred: spec_fn(A) -> bool)
    ensures
        Seq::<A>::empty().filter(pred) == Seq::<A>::empty(),
{
    reveal(Seq::filter);
}

} // verus!
