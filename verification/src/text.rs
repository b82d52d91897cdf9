//! Character-level helpers: Unicode and ASCII whitespace, trimming.

use vstd::prelude::*;

verus! {

/// Unicode `White_Space`: the characters that `str::trim` removes.
pub open spec fn is_unicode_whitespace(c: char) -> bool {
    let u = c as u32;
    ||| 0x09 <= u <= 0x0D
    ||| u == 0x20
    ||| u == 0x85
    ||| u == 0xA0
    ||| u == 0x1680
    ||| 0x2000 <= u <= 0x200A
    ||| u == 0x2028
    ||| u == 0x2029
    ||| u == 0x202F
    ||| u == 0x205F
    ||| u == 0x3000
}

/// ASCII whitespace as `char::is_ascii_whitespace` defines it (no vertical tab).
pub open spec fn is_ascii_space(c: char) -> bool {
    let u = c as u32;
    u == 0x09 || u == 0x0A || u == 0x0C || u == 0x0D || u == 0x20
}

/// The sequence without its leading characters that satisfy `p`.
pub open spec fn skip_leading(s: Seq<char>, p: spec_fn(char) -> bool) -> Seq<char>
    decreases s.len(),
{
    if s.len() > 0 && p(s[0]) {
        skip_leading(s.drop_first(), p)
    } else {
        s
    }
}

/// The sequence without its trailing characters that satisfy `p`.
pub open spec fn skip_trailing(s: Seq<char>, p: spec_fn(char) -> bool) -> Seq<char>
    decreases s.len(),
{
    if s.len() > 0 && p(s.last()) {
        skip_trailing(s.drop_last(), p)
    } else {
        s
    }
}

/// `str::trim`: both ends stripped of Unicode whitespace.
pub open spec fn trim(s: Seq<char>) -> Seq<char> {
    skip_trailing(skip_leading(s, |c: char| is_unicode_whitespace(c)), |c: char| is_unicode_whitespace(c))
}

/// The sequence with every ASCII whitespace character removed.
pub open spec fn without_ascii_space(s: Seq<char>) -> Seq<char>
    decreases s.len(),
{
    if s.len() == 0 {
        s
    } else if is_ascii_space(s.last()) {
        without_ascii_space(s.drop_last())
    } else {
        without_ascii_space(s.drop_last()).push(s.last())
    }
}

/// `skip_leading` removes exactly the longest prefix whose characters all
/// satisfy `p`: what is left is a suffix of the input that is empty or
/// starts with a character that does not.
pub proof fn lemma_skip_leading_removes_prefix(s: Seq<char>, p: spec_fn(char) -> bool)
    ensures
        skip_leading(s, p).len() <= s.len(),
        skip_leading(s, p) == s.subrange(s.len() - skip_leading(s, p).len(), s.len() as int),
        forall|k: int| 0 <= k < s.len() - skip_leading(s, p).len() ==> p(#[trigger] s[k]),
        skip_leading(s, p).len() > 0 ==> !p(skip_leading(s, p)[0]),
    decreases s.len(),
{
    if s.len() > 0 && p(s[0]) {
        let t = s.drop_first();
        lemma_skip_leading_removes_prefix(t, p);
        assert(t.subrange(t.len() - skip_leading(t, p).len(), t.len() as int) =~= s.subrange(
            s.len() - skip_leading(s, p).len(),
            s.len() as int,
        ));
        assert forall|k: int| 0 <= k < s.len() - skip_leading(s, p).len() implies p(#[trigger] s[k]) by {
            if k > 0 {
                assert(s[k] == t[k - 1]);
            }
        }
    } else {
        assert(s.subrange(0, s.len() as int) =~= s);
    }
}

/// `skip_trailing` removes exactly the longest suffix whose characters all
/// satisfy `p`: what is left is a prefix of the input that is empty or ends
/// with a character that does not.
pub proof fn lemma_skip_trailing_removes_suffix(s: Seq<char>, p: spec_fn(char) -> bool)
    ensures
        skip_trailing(s, p).len() <= s.len(),
        skip_trailing(s, p) == s.take(skip_trailing(s, p).len() as int),
        forall|k: int| skip_trailing(s, p).len() <= k < s.len() ==> p(#[trigger] s[k]),
        skip_trailing(s, p).len() > 0 ==> !p(skip_trailing(s, p).last()),
    decreases s.len(),
{
    if s.len() > 0 && p(s.last()) {
        let t = s.drop_last();
        lemma_skip_trailing_removes_suffix(t, p);
        assert(t.take(skip_trailing(t, p).len() as int) =~= s.take(skip_trailing(s, p).len() as int));
        assert forall|k: int| skip_trailing(s, p).len() <= k < s.len() implies p(#[trigger] s[k]) by {
            if k < s.len() - 1 {
                assert(s[k] == t[k]);
            }
        }
    } else {
        assert(s.take(s.len() as int) =~= s);
    }
}

/// `trim` keeps a contiguous middle part of the text and removes only
/// whitespace around it: the part kept neither starts nor ends with
/// whitespace, and everything before and after it is whitespace.
pub proof fn lemma_trim_keeps_middle(s: Seq<char>)
    ensures
        exists|i: int, j: int|
            {
                &&& 0 <= i <= j <= s.len()
                &&& trim(s) == s.subrange(i, j)
                &&& forall|k: int| 0 <= k < i ==> is_unicode_whitespace(#[trigger] s[k])
                &&& forall|k: int| j <= k < s.len() ==> is_unicode_whitespace(#[trigger] s[k])
            },
        trim(s).len() > 0 ==> !is_unicode_whitespace(trim(s)[0]) && !is_unicode_whitespace(trim(s).last()),
{
    let ws = |c: char| is_unicode_whitespace(c);
    let lead = skip_leading(s, ws);
    lemma_skip_leading_removes_prefix(s, ws);
    lemma_skip_trailing_removes_suffix(lead, ws);
    let i = s.len() - lead.len();
    let j = i + skip_trailing(lead, ws).len();
    assert(trim(s) =~= s.subrange(i, j));
    assert forall|k: int| j <= k < s.len() implies is_unicode_whitespace(#[trigger] s[k]) by {
        assert(s[k] == lead[k - i]);
        assert(ws(lead[k - i]));
    }
    assert forall|k: int| 0 <= k < i implies is_unicode_whitespace(#[trigger] s[k]) by {
        assert(ws(s[k]));
    }
    if trim(s).len() > 0 {
        assert(trim(s)[0] == lead[0]);
        assert(!ws(lead[0]));
        assert(!ws(trim(s).last()));
    }
}

/// `without_ascii_space` keeps every character that is not ASCII whitespace,
/// in order, and nothing else.
pub proof fn lemma_without_ascii_space_filters(s: Seq<char>)
    ensures
        without_ascii_space(s) == s.filter(|c: char| !is_ascii_space(c)),
    decreases s.len(),
{
    reveal(Seq::filter);
    if s.len() > 0 {
        lemma_without_ascii_space_filters(s.drop_last());
    }
}

/// Executable `is_unicode_whitespace`.
pub fn unicode_whitespace(c: char) -> (b: bool)
    ensures
        b == is_unicode_whitespace(c),
{
    let u = c as u32;
    (0x09 <= u && u <= 0x0D) || u == 0x20 || u == 0x85 || u == 0xA0 || u == 0x1680 || (0x2000
        <= u && u <= 0x200A) || u == 0x2028 || u == 0x2029 || u == 0x202F || u == 0x205F || u
        == 0x3000
}

/// Executable `is_ascii_space`.
pub fn ascii_space(c: char) -> (b: bool)
    ensures
        b == is_ascii_space(c),
{
    let u = c as u32;
    u == 0x09 || u == 0x0A || u == 0x0C || u == 0x0D || u == 0x20
}

/// The characters of a string, in order.
pub fn chars_of(s: &str) -> (v: Vec<char>)
    ensures
        v@ == s@,
{
    let mut v: Vec<char> = Vec::new();
    for c in it: s.chars()
        invariant
            v@ == it.seq().take(it.index() as int),
    {
        v.push(c);
    }
    proof {
        assert(v@ == s@);
    }
    v
}

proof fn lemma_skip_leading_step(s: Seq<char>, i: int, p: spec_fn(char) -> bool)
    requires
        0 <= i < s.len(),
        p(s[i]),
    ensures
        skip_leading(s.subrange(i, s.len() as int), p) == skip_leading(s.subrange(i + 1, s.len() as int), p),
{
    assert(s.subrange(i, s.len() as int).drop_first() =~= s.subrange(i + 1, s.len() as int));
}

proof fn lemma_skip_trailing_step(s: Seq<char>, j: int, p: spec_fn(char) -> bool)
    requires
        0 < j <= s.len(),
        p(s[j - 1]),
    ensures
        skip_trailing(s.subrange(0, j), p) == skip_trailing(s.subrange(0, j - 1), p),
{
    assert(s.subrange(0, j).drop_last() =~= s.subrange(0, j - 1));
}

/// The characters of `v` with leading and trailing Unicode whitespace removed.
pub fn trim_chars(v: &Vec<char>) -> (t: Vec<char>)
    ensures
        t@ == trim(v@),
{
    let ghost ws = |c: char| is_unicode_whitespace(c);
    let n = v.len();
    let mut i: usize = 0;
    proof {
        assert(v@.subrange(0, n as int) =~= v@);
    }
    while i < n && unicode_whitespace(v[i])
        invariant
            i <= n,
            n == v@.len(),
            ws == (|c: char| is_unicode_whitespace(c)),
            skip_leading(v@, ws) == skip_leading(v@.subrange(i as int, n as int), ws),
        decreases n - i,
    {
        proof {
            lemma_skip_leading_step(v@, i as int, ws);
        }
        i = i + 1;
    }
    let ghost lead = v@.subrange(i as int, n as int);
    proof {
        assert(skip_leading(v@, ws) == lead);
    }
    let mut j: usize = n;
    proof {
        assert(lead.subrange(0, (j - i) as int) =~= lead);
    }
    while j > i && unicode_whitespace(v[j - 1])
        invariant
            i <= j <= n,
            n == v@.len(),
            lead == v@.subrange(i as int, n as int),
            ws == (|c: char| is_unicode_whitespace(c)),
            skip_trailing(lead, ws) == skip_trailing(lead.subrange(0, (j - i) as int), ws),
        decreases j - i,
    {
        proof {
            lemma_skip_trailing_step(lead, (j - i) as int, ws);
        }
        j = j - 1;
    }
    let mut t: Vec<char> = Vec::new();
    let mut k: usize = i;
    while k < j
        invariant
            i <= k <= j <= n,
            n == v@.len(),
            t@ == v@.subrange(i as int, k as int),
        decreases j - k,
    {
        t.push(v[k]);
        proof {
            assert(t@ =~= v@.subrange(i as int, k + 1));
        }
        k = k + 1;
    }
    proof {
        assert(lead.subrange(0, (j - i) as int) =~= v@.subrange(i as int, j as int));
    }
    t
}

/// The characters of `v` with every trailing `'!'` removed.
pub fn strip_trailing_bangs(v: &Vec<char>) -> (t: Vec<char>)
    ensures
        t@ == skip_trailing(v@, |c: char| c == '!'),
{
    let ghost bang = |c: char| c == '!';
    let n = v.len();
    let mut j: usize = n;
    proof {
        assert(v@.subrange(0, n as int) =~= v@);
    }
    while j > 0 && v[j - 1] == '!'
        invariant
            j <= n,
            n == v@.len(),
            bang == (|c: char| c == '!'),
            skip_trailing(v@, bang) == skip_trailing(v@.subrange(0, j as int), bang),
        decreases j,
    {
        proof {
            lemma_skip_trailing_step(v@, j as int, bang);
        }
        j = j - 1;
    }
    let mut t: Vec<char> = Vec::new();
    let mut k: usize = 0;
    while k < j
        invariant
            k <= j <= n,
            n == v@.len(),
            t@ == v@.subrange(0, k as int),
        decreases j - k,
    {
        t.push(v[k]);
        proof {
            assert(t@ =~= v@.subrange(0, k + 1));
        }
        k = k + 1;
    }
    t
}

/// The characters of `v` without any ASCII whitespace.
pub fn remove_ascii_space(v: &Vec<char>) -> (t: Vec<char>)
    ensures
        t@ == without_ascii_space(v@),
{
    let mut t: Vec<char> = Vec::new();
    let mut k: usize = 0;
    proof {
        assert(v@.subrange(0, 0) =~= Seq::<char>::empty());
    }
    while k < v.len()
        invariant
            k <= v@.len(),
            t@ == without_ascii_space(v@.subrange(0, k as int)),
        decreases v@.len() - k,
    {
        proof {
            assert(v@.subrange(0, k + 1).drop_last() =~= v@.subrange(0, k as int));
        }
        if !ascii_space(v[k]) {
            t.push(v[k]);
        }
        k = k + 1;
    }
    proof {
        assert(v@.subrange(0, v@.len() as int) =~= v@);
    }
    t
}

} // verus!
