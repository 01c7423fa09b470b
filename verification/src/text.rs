//! Text helpers: splitting at a character, trimming, suffixes, and the
//! two Unicode tables that they rest on: lowercasing, which std computes,
//! and whitespace.

use vstd::prelude::*;

verus! {

/// What `str::to_lowercase` returns for a string.
pub uninterp spec fn spec_to_lowercase(s: Seq<char>) -> Seq<char>;

/// Whether `c` has Unicode's White_Space property, which is what
/// `char::is_whitespace` tells: the controls tab to carriage return
/// (U+0009 to U+000D), space, next line (U+0085), no-break space, the
/// Ogham space mark (U+1680), the spaces U+2000 to U+200A, the line and
/// paragraph separators (U+2028, U+2029), the narrow no-break space
/// (U+202F), the medium mathematical space (U+205F) and the ideographic
/// space (U+3000).
pub open spec fn spec_is_whitespace(c: char) -> bool {
    let x = c as u32;
    (0x9 <= x <= 0xD) || x == 0x20 || x == 0x85 || x == 0xA0 || x == 0x1680 || (0x2000 <= x
        <= 0x200A) || x == 0x2028 || x == 0x2029 || x == 0x202F || x == 0x205F || x == 0x3000
}

/// Whether every character of `s` is a lowercase ASCII letter.
pub open spec fn is_ascii_lowercase(s: Seq<char>) -> bool {
    forall|i: int| 0 <= i < s.len() ==> 'a' <= #[trigger] s[i] <= 'z'
}

/// Calls `str::to_lowercase`: the lowercase form of `s` by Unicode's
/// lowercase mapping. The mapping takes pages to state, so the contract
/// names the result, claiming that it depends on `s` alone, and states only
/// that a string of lowercase ASCII letters is its own lowercase form.
#[verifier::external_body]
pub fn to_lowercase(s: &str) -> (res: String)
    ensures
        res@ == spec_to_lowercase(s@),
        is_ascii_lowercase(s@) ==> res@ == s@,
{
    s.to_lowercase()
}

/// Whether `c` has Unicode's White_Space property, as `char::is_whitespace`
/// tells it.
pub fn is_whitespace(c: char) -> (res: bool)
    ensures
        res == spec_is_whitespace(c),
{
    let x = c as u32;
    (0x9 <= x && x <= 0xD) || x == 0x20 || x == 0x85 || x == 0xA0 || x == 0x1680 || (0x2000 <= x
        && x <= 0x200A) || x == 0x2028 || x == 0x2029 || x == 0x202F || x == 0x205F || x == 0x3000
}

/// The part of `s` before the first `c`, or all of `s` where it has no `c`.
pub open spec fn before_first(s: Seq<char>, c: char) -> Seq<char>
    decreases s.len(),
{
    if s.len() == 0 {
        s
    } else if s[0] == c {
        Seq::empty()
    } else {
        seq![s[0]] + before_first(s.drop_first(), c)
    }
}

/// The part of `s` from its first `c` on (that `c` included), or nothing
/// where it has no `c`.
pub open spec fn from_first(s: Seq<char>, c: char) -> Seq<char>
    decreases s.len(),
{
    if s.len() == 0 {
        s
    } else if s[0] == c {
        s
    } else {
        from_first(s.drop_first(), c)
    }
}

/// The part of `s` after its first `c`, where it has one.
pub open spec fn after_first(s: Seq<char>, c: char) -> Option<Seq<char>>
    decreases s.len(),
{
    if s.len() == 0 {
        None
    } else if s[0] == c {
        Some(s.drop_first())
    } else {
        after_first(s.drop_first(), c)
    }
}

/// The index of the first `c` in `s`, where it has one.
pub open spec fn index_of(s: Seq<char>, c: char) -> Option<int>
    decreases s.len(),
{
    if s.len() == 0 {
        None
    } else if s[0] == c {
        Some(0)
    } else {
        match index_of(s.drop_first(), c) {
            Some(i) => Some(i + 1),
            None => None,
        }
    }
}

/// How the parts of `s` around its first `c` relate to where it stands.
pub proof fn lemma_index_of(s: Seq<char>, c: char)
    ensures
        match index_of(s, c) {
            Some(i) => {
                &&& 0 <= i < s.len()
                &&& s[i] == c
                &&& forall|j: int| 0 <= j < i ==> s[j] != c
                &&& before_first(s, c) == s.take(i)
                &&& from_first(s, c) == s.skip(i)
                &&& after_first(s, c) == Some(s.skip(i + 1))
            },
            None => {
                &&& forall|j: int| 0 <= j < s.len() ==> s[j] != c
                &&& before_first(s, c) == s
                &&& from_first(s, c) == Seq::<char>::empty()
                &&& after_first(s, c) is None
            },
        },
    decreases s.len(),
{
    if s.len() > 0 {
        let t = s.drop_first();
        lemma_index_of(t, c);
        if s[0] != c {
            match index_of(t, c) {
                Some(i) => {
                    assert forall|j: int| 0 <= j < i + 1 implies s[j] != c by {
                        if j > 0 {
                            assert(s[j] == t[j - 1]);
                        }
                    }
                    assert(seq![s[0]] + t.take(i) =~= s.take(i + 1));
                    assert(t.skip(i) =~= s.skip(i + 1));
                    assert(t.skip(i + 1) =~= s.skip(i + 2));
                },
                None => {
                    assert forall|j: int| 0 <= j < s.len() implies s[j] != c by {
                        if j > 0 {
                            assert(s[j] == t[j - 1]);
                        }
                    }
                    assert(seq![s[0]] + t =~= s);
                },
            }
        } else {
            assert(s.take(0) =~= Seq::<char>::empty());
            assert(s.skip(0) =~= s);
            assert(s.skip(1) =~= t);
        }
    } else {
        assert(s.take(0) =~= s);
    }
}

/// Where the first `c` stands in `s`.
pub fn find_char(s: &str, c: char) -> (res: Option<usize>)
    ensures
        match index_of(s@, c) {
            Some(i) => res is Some && res.unwrap() == i,
            None => res is None,
        },
{
    proof {
        lemma_index_of(s@, c);
    }
    let len = s.unicode_len();
    let mut i: usize = 0;
    while i < len
        invariant
            len == s@.len(),
            0 <= i <= len,
            forall|j: int| 0 <= j < i ==> s@[j] != c,
        decreases len - i,
    {
        if s.get_char(i) == c {
            proof {
                lemma_index_of(s@, c);
                match index_of(s@, c) {
                    Some(k) => {
                        if k < i {
                            assert(s@[k] != c);
                        }
                        if k > i {
                            assert(s@[i as int] != c);
                        }
                    },
                    None => {
                        assert(s@[i as int] != c);
                    },
                }
            }
            return Some(i);
        }
        i = i + 1;
    }
    None
}

/// The characters of `s` from `from` up to `to`, as a `String`.
pub fn substring(s: &str, from: usize, to: usize) -> (res: String)
    requires
        from <= to <= s@.len(),
    ensures
        res@ == s@.subrange(from as int, to as int),
{
    let part = s.substring_char(from, to);
    String::from_str(part)
}

/// `a` followed by `b`.
pub fn concat(a: &str, b: &str) -> (res: String)
    ensures
        res@ == a@ + b@,
{
    let mut res = String::from_str(a);
    res.append(b);
    res
}

/// Whether `s` ends with `suffix`.
pub open spec fn spec_ends_with(s: Seq<char>, suffix: Seq<char>) -> bool {
    suffix.len() <= s.len() && s.subrange(s.len() - suffix.len(), s.len() as int) == suffix
}

/// Whether `s` ends with `suffix`, as `str::ends_with` tells it.
pub fn ends_with(s: &str, suffix: &str) -> (res: bool)
    ensures
        res == spec_ends_with(s@, suffix@),
{
    let n = s.unicode_len();
    let m = suffix.unicode_len();
    if m > n {
        return false;
    }
    let offset = n - m;
    let mut i: usize = 0;
    while i < m
        invariant
            n == s@.len(),
            m == suffix@.len(),
            m <= n,
            offset == n - m,
            0 <= i <= m,
            forall|j: int| 0 <= j < i ==> s@[offset + j] == suffix@[j],
        decreases m - i,
    {
        if s.get_char(offset + i) != suffix.get_char(i) {
            assert(s@.subrange(offset as int, n as int)[i as int] != suffix@[i as int]);
            return false;
        }
        i = i + 1;
    }
    assert(s@.subrange(offset as int, n as int) =~= suffix@);
    true
}

/// Whether `s` starts with `prefix`.
pub open spec fn spec_starts_with(s: Seq<char>, prefix: Seq<char>) -> bool {
    prefix.len() <= s.len() && s.subrange(0, prefix.len() as int) == prefix
}

/// Whether `s` starts with `prefix`, as `str::starts_with` tells it.
pub fn starts_with(s: &str, prefix: &str) -> (res: bool)
    ensures
        res == spec_starts_with(s@, prefix@),
{
    let n = s.unicode_len();
    let m = prefix.unicode_len();
    if m > n {
        return false;
    }
    let mut i: usize = 0;
    while i < m
        invariant
            n == s@.len(),
            m == prefix@.len(),
            m <= n,
            0 <= i <= m,
            forall|j: int| 0 <= j < i ==> s@[j] == prefix@[j],
        decreases m - i,
    {
        if s.get_char(i) != prefix.get_char(i) {
            assert(s@.subrange(0, m as int)[i as int] != prefix@[i as int]);
            return false;
        }
        i = i + 1;
    }
    assert(s@.subrange(0, m as int) =~= prefix@);
    true
}

/// Whether `t` occurs in `s`.
pub open spec fn spec_contains(s: Seq<char>, t: Seq<char>) -> bool {
    exists|i: int| 0 <= i && i + t.len() <= s.len() && #[trigger] s.subrange(i, i + t.len()) == t
}

/// Whether `t` occurs in `s`, as `str::contains` tells it for a string pattern.
pub fn contains(s: &str, t: &str) -> (res: bool)
    ensures
        res == spec_contains(s@, t@),
{
    let n = s.unicode_len();
    let m = t.unicode_len();
    if m > n {
        proof {
            assert forall|i: int| 0 <= i && i + m <= n implies #[trigger] s@.subrange(i, i + m) != t@ by {}
        }
        return false;
    }
    let mut i: usize = 0;
    while i <= n - m
        invariant
            n == s@.len(),
            m == t@.len(),
            m <= n,
            0 <= i <= n - m + 1,
            forall|k: int| 0 <= k < i ==> #[trigger] s@.subrange(k, k + m) != t@,
        decreases n - m + 1 - i,
    {
        let mut j: usize = 0;
        let mut same = true;
        while j < m
            invariant
                n == s@.len(),
                m == t@.len(),
                i + m <= n,
                0 <= j <= m,
                same <==> forall|l: int| 0 <= l < j ==> s@[i + l] == t@[l],
            decreases m - j,
        {
            if s.get_char(i + j) != t.get_char(j) {
                same = false;
            }
            j = j + 1;
        }
        if same {
            assert(s@.subrange(i as int, i + m) =~= t@);
            return true;
        }
        assert(s@.subrange(i as int, i + m)[(choose|l: int| 0 <= l < m && s@[i + l] != t@[l])]
            != t@[(choose|l: int| 0 <= l < m && s@[i + l] != t@[l])]);
        i = i + 1;
    }
    false
}

/// Where the characters that are not whitespace start in `s`: the number
/// of leading whitespace characters.
pub open spec fn trim_start_index(s: Seq<char>) -> int
    decreases s.len(),
{
    if s.len() == 0 {
        0
    } else if spec_is_whitespace(s[0]) {
        1 + trim_start_index(s.drop_first())
    } else {
        0
    }
}

/// Where the characters that are not whitespace end in `s`: its length
/// less the number of trailing whitespace characters.
pub open spec fn trim_end_index(s: Seq<char>) -> int
    decreases s.len(),
{
    if s.len() == 0 {
        0
    } else if spec_is_whitespace(s.last()) {
        trim_end_index(s.drop_last())
    } else {
        s.len() as int
    }
}

/// `s` without its leading and trailing whitespace, as `str::trim` gives it.
pub open spec fn spec_trim(s: Seq<char>) -> Seq<char> {
    if trim_start_index(s) >= trim_end_index(s) {
        Seq::empty()
    } else {
        s.subrange(trim_start_index(s), trim_end_index(s))
    }
}

proof fn lemma_trim_start(s: Seq<char>, i: int)
    requires
        0 <= i <= s.len(),
        forall|j: int| 0 <= j < i ==> spec_is_whitespace(s[j]),
    ensures
        trim_start_index(s) == i + trim_start_index(s.skip(i)),
        0 <= trim_start_index(s) <= s.len(),
    decreases i,
{
    lemma_trim_start_bounds(s);
    if i > 0 {
        let t = s.drop_first();
        assert forall|j: int| 0 <= j < i - 1 implies spec_is_whitespace(t[j]) by {
            assert(t[j] == s[j + 1]);
        }
        lemma_trim_start(t, i - 1);
        assert(t.skip(i - 1) =~= s.skip(i));
    } else {
        assert(s.skip(0) =~= s);
    }
}

proof fn lemma_trim_start_bounds(s: Seq<char>)
    ensures
        0 <= trim_start_index(s) <= s.len(),
        trim_start_index(s) < s.len() ==> !spec_is_whitespace(s[trim_start_index(s)]),
        forall|j: int| 0 <= j < trim_start_index(s) ==> spec_is_whitespace(s[j]),
    decreases s.len(),
{
    if s.len() > 0 && spec_is_whitespace(s[0]) {
        let t = s.drop_first();
        lemma_trim_start_bounds(t);
        assert forall|j: int| 0 <= j < trim_start_index(s) implies spec_is_whitespace(s[j]) by {
            if j > 0 {
                assert(s[j] == t[j - 1]);
            }
        }
    }
}

proof fn lemma_trim_end_bounds(s: Seq<char>)
    ensures
        0 <= trim_end_index(s) <= s.len(),
        trim_end_index(s) > 0 ==> !spec_is_whitespace(s[trim_end_index(s) - 1]),
        forall|j: int| trim_end_index(s) <= j < s.len() ==> spec_is_whitespace(s[j]),
    decreases s.len(),
{
    if s.len() > 0 && spec_is_whitespace(s.last()) {
        let t = s.drop_last();
        lemma_trim_end_bounds(t);
        assert forall|j: int| trim_end_index(s) <= j < s.len() implies spec_is_whitespace(s[j]) by {
            if j < s.len() - 1 {
                assert(s[j] == t[j]);
            }
        }
    }
}

proof fn lemma_trim_end(s: Seq<char>, k: int)
    requires
        0 <= k <= s.len(),
        forall|j: int| k <= j < s.len() ==> spec_is_whitespace(s[j]),
    ensures
        trim_end_index(s) == trim_end_index(s.take(k)),
    decreases s.len() - k,
{
    if k < s.len() {
        let t = s.drop_last();
        assert forall|j: int| k <= j < t.len() implies spec_is_whitespace(t[j]) by {
            assert(t[j] == s[j]);
        }
        lemma_trim_end(t, k);
        assert(t.take(k) =~= s.take(k));
    } else {
        assert(s.take(k) =~= s);
    }
}

/// `s` without its leading and trailing whitespace.
pub fn trim(s: &str) -> (res: String)
    ensures
        res@ == spec_trim(s@),
{
    proof {
        lemma_trim_start_bounds(s@);
        lemma_trim_end_bounds(s@);
    }
    let len = s.unicode_len();
    let mut start: usize = 0;
    while start < len && is_whitespace(s.get_char(start))
        invariant
            len == s@.len(),
            0 <= start <= len,
            forall|j: int| 0 <= j < start ==> spec_is_whitespace(s@[j]),
        decreases len - start,
    {
        start = start + 1;
    }
    proof {
        lemma_trim_start(s@, start as int);
        if start < len {
            assert(s@.skip(start as int)[0] == s@[start as int]);
        }
    }
    let mut end: usize = len;
    while end > start && is_whitespace(s.get_char(end - 1))
        invariant
            len == s@.len(),
            0 <= start <= end <= len,
            forall|j: int| end <= j < len ==> spec_is_whitespace(s@[j]),
        decreases end,
    {
        end = end - 1;
    }
    proof {
        lemma_trim_end(s@, end as int);
        lemma_trim_end_bounds(s@.take(end as int));
    }
    if start >= end {
        return String::new();
    }
    proof {
        assert(!spec_is_whitespace(s@[end - 1]));
        assert(s@.take(end as int).last() == s@[end - 1]);
        assert(trim_end_index(s@) == end);
    }
    substring(s, start, end)
}

} // verus!
