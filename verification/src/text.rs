//! Strings as sequences of characters: searching, trimming, splitting and
//! decimal numbers.
//!
//! Every function here returns what the `str` method it is named after returns;
//! the specification functions say what that is.
use vstd::prelude::*;
use vstd::string::*;
use vstd::utf8::*;

verus! {

// =====================================================================
// Searching
// =====================================================================

/// `pat` stands in `s` at position `i`.
pub open spec fn occurs_at(s: Seq<char>, pat: Seq<char>, i: int) -> bool {
    0 <= i && i + pat.len() <= s.len() && s.subrange(i, i + pat.len()) == pat
}

/// The first position at or after `from` where `pat` stands in `s`.
pub open spec fn find_from(s: Seq<char>, pat: Seq<char>, from: int) -> Option<int>
    decreases s.len() + 1 - from,
{
    if from < 0 || from + pat.len() > s.len() {
        None
    } else if occurs_at(s, pat, from) {
        Some(from)
    } else {
        find_from(s, pat, from + 1)
    }
}

/// The first position where `pat` stands in `s`.
pub open spec fn find(s: Seq<char>, pat: Seq<char>) -> Option<int> {
    find_from(s, pat, 0)
}

/// The last position of the character `c` in `s`.
pub open spec fn rfind_char(s: Seq<char>, c: char) -> Option<int>
    decreases s.len(),
{
    if s.len() == 0 {
        None
    } else if s.last() == c {
        Some(s.len() - 1)
    } else {
        rfind_char(s.drop_last(), c)
    }
}

/// `s` cut at the first `pat`: what stands before it and what stands after it.
pub open spec fn split_once(s: Seq<char>, pat: Seq<char>) -> Option<(Seq<char>, Seq<char>)> {
    match find(s, pat) {
        Some(i) => Some((s.take(i), s.skip(i + pat.len()))),
        None => None,
    }
}

/// `s` begins with `prefix`.
pub open spec fn starts_with(s: Seq<char>, prefix: Seq<char>) -> bool {
    prefix.len() <= s.len() && s.take(prefix.len() as int) == prefix
}

/// `s` without the `prefix` it begins with.
pub open spec fn strip_prefix(s: Seq<char>, prefix: Seq<char>) -> Option<Seq<char>> {
    if starts_with(s, prefix) {
        Some(s.skip(prefix.len() as int))
    } else {
        None
    }
}

/// What stands after the last `c` of `s`, or all of `s`.
pub open spec fn after_last(s: Seq<char>, c: char) -> Seq<char> {
    match rfind_char(s, c) {
        Some(i) => s.skip(i + 1),
        None => s,
    }
}

/// A match found from a position is the first one there.
pub proof fn lemma_find_from(s: Seq<char>, pat: Seq<char>, from: int)
    requires
        0 <= from,
    ensures
        match find_from(s, pat, from) {
            Some(i) => from <= i && occurs_at(s, pat, i) && forall|j: int|
                from <= j < i ==> !occurs_at(s, pat, j),
            None => forall|j: int| from <= j ==> !occurs_at(s, pat, j),
        },
    decreases s.len() + 1 - from,
{
    if from + pat.len() > s.len() {
    } else if occurs_at(s, pat, from) {
    } else {
        lemma_find_from(s, pat, from + 1);
    }
}

/// A position before which `pat` does not stand is the first one if it stands there.
pub proof fn lemma_find_from_is(s: Seq<char>, pat: Seq<char>, from: int, i: int)
    requires
        0 <= from <= i,
        occurs_at(s, pat, i),
        forall|j: int| from <= j < i ==> !occurs_at(s, pat, j),
    ensures
        find_from(s, pat, from) == Some(i),
    decreases i - from,
{
    if from < i {
        lemma_find_from_is(s, pat, from + 1, i);
    }
}

/// Nothing is found where `pat` stands nowhere.
pub proof fn lemma_find_from_none(s: Seq<char>, pat: Seq<char>, from: int)
    requires
        0 <= from,
        forall|j: int| from <= j ==> !occurs_at(s, pat, j),
    ensures
        find_from(s, pat, from) is None,
    decreases s.len() + 1 - from,
{
    if from + pat.len() <= s.len() {
        lemma_find_from_none(s, pat, from + 1);
    }
}

/// A one-character pattern stands exactly where the character does.
pub proof fn lemma_occurs_char(s: Seq<char>, c: char, i: int)
    ensures
        occurs_at(s, seq![c], i) <==> (0 <= i < s.len() && s[i] == c),
{
    if 0 <= i < s.len() {
        if s[i] == c {
            assert(s.subrange(i, i + 1) =~= seq![c]);
        } else {
            assert(s.subrange(i, i + 1)[0] == s[i]);
            assert(seq![c][0] == c);
        }
    }
}

/// The last position of a character, spelled out.
pub proof fn lemma_rfind_char(s: Seq<char>, c: char)
    ensures
        match rfind_char(s, c) {
            Some(i) => 0 <= i < s.len() && s[i] == c && forall|j: int|
                i < j < s.len() ==> s[j] != c,
            None => forall|j: int| 0 <= j < s.len() ==> s[j] != c,
        },
    decreases s.len(),
{
    if s.len() > 0 && s.last() != c {
        lemma_rfind_char(s.drop_last(), c);
        match rfind_char(s.drop_last(), c) {
            Some(i) => {
                assert forall|j: int| i < j < s.len() implies s[j] != c by {
                    if j < s.len() - 1 {
                        assert(s.drop_last()[j] == s[j]);
                    }
                }
            },
            None => {
                assert forall|j: int| 0 <= j < s.len() implies s[j] != c by {
                    if j < s.len() - 1 {
                        assert(s.drop_last()[j] == s[j]);
                    }
                }
            },
        }
    }
}

/// A position after which the character does not occur is its last one.
pub proof fn lemma_rfind_char_is(s: Seq<char>, c: char, i: int)
    requires
        0 <= i < s.len(),
        s[i] == c,
        forall|j: int| i < j < s.len() ==> s[j] != c,
    ensures
        rfind_char(s, c) == Some(i),
    decreases s.len(),
{
    if i < s.len() - 1 {
        assert forall|j: int| i < j < s.drop_last().len() implies s.drop_last()[j] != c by {
            assert(s.drop_last()[j] == s[j]);
        }
        lemma_rfind_char_is(s.drop_last(), c, i);
    }
}

/// A character that does not occur has no last position.
pub proof fn lemma_rfind_char_none(s: Seq<char>, c: char)
    requires
        forall|j: int| 0 <= j < s.len() ==> s[j] != c,
    ensures
        rfind_char(s, c) is None,
    decreases s.len(),
{
    if s.len() > 0 {
        assert forall|j: int| 0 <= j < s.drop_last().len() implies s.drop_last()[j] != c by {
            assert(s.drop_last()[j] == s[j]);
        }
        lemma_rfind_char_none(s.drop_last(), c);
    }
}

/// The characters of a string, in order.
pub fn chars_of(s: &str) -> (v: Vec<char>)
    ensures
        v@ == s@,
{
    let mut v: Vec<char> = Vec::new();
    for c in it: s.chars()
        invariant
            it.seq() == s@,
            v@ == s@.take(it.index() as int),
    {
        v.push(c);
        assert(s@.take(it.index() + 1) =~= s@.take(it.index() as int).push(c));
    }
    assert(s@.take(s@.len() as int) =~= s@);
    v
}

/// Two strings hold the same characters.
pub fn same(a: &str, b: &str) -> (r: bool)
    ensures
        r == (a@ == b@),
{
    let x = a.as_bytes();
    let y = b.as_bytes();
    proof {
        encode_utf8_decode_utf8(a@);
        encode_utf8_decode_utf8(b@);
    }
    if x.len() != y.len() {
        return false;
    }
    let n: usize = x.len();
    let mut i: usize = 0;
    while i < n
        invariant
            i <= n,
            n == x@.len(),
            n == y@.len(),
            x@ == encode_utf8(a@),
            y@ == encode_utf8(b@),
            forall|j: int| 0 <= j < i ==> x@[j] == y@[j],
        decreases n - i,
    {
        if x[i] != y[i] {
            return false;
        }
        i = i + 1;
    }
    assert(x@ =~= y@);
    true
}

/// The first position of `pat` in `s`, counted in characters.
pub fn find_str(s: &str, pat: &str) -> (r: Option<usize>)
    ensures
        match r {
            Some(i) => find(s@, pat@) == Some(i as int) && i + pat@.len() <= s@.len() <= usize::MAX,
            None => find(s@, pat@) is None,
        },
{
    let v = chars_of(s);
    let p = chars_of(pat);
    let n: usize = v.len();
    let m: usize = p.len();
    let mut i: usize = 0;
    while n - i >= m
        invariant
            0 <= i <= n,
            n == v@.len(),
            m == p@.len(),
            v@ == s@,
            p@ == pat@,
            forall|j: int| 0 <= j < i ==> !occurs_at(s@, pat@, j),
        decreases n - i,
    {
        let mut k: usize = 0;
        while k < m && v[i + k] == p[k]
            invariant
                0 <= k <= m,
                0 <= i,
                i + m <= n,
                n == v@.len(),
                m == p@.len(),
                forall|j: int| 0 <= j < k ==> v@[i + j] == p@[j],
            ensures
                0 <= k <= m,
                forall|j: int| 0 <= j < k ==> v@[i + j] == p@[j],
                k < m ==> v@[i + k] != p@[k as int],
            decreases m - k,
        {
            k = k + 1;
        }
        if k == m {
            assert(s@.subrange(i as int, i + m) =~= pat@);
            proof {
                lemma_find_from_is(s@, pat@, 0, i as int);
            }
            return Some(i);
        }
        assert(!occurs_at(s@, pat@, i as int)) by {
            assert(s@.subrange(i as int, i + m)[k as int] == v@[i + k]);
        }
        i = i + 1;
    }
    proof {
        lemma_find_from_none(s@, pat@, 0);
    }
    None
}

/// The first position of the character `c` in `s`.
pub fn find_char(s: &str, c: char) -> (r: Option<usize>)
    ensures
        match r {
            Some(i) => find(s@, seq![c]) == Some(i as int) && i < s@.len() <= usize::MAX,
            None => find(s@, seq![c]) is None,
        },
{
    let v = chars_of(s);
    let n: usize = v.len();
    let mut i: usize = 0;
    while i < n
        invariant
            0 <= i <= n,
            n == v@.len(),
            v@ == s@,
            forall|j: int| 0 <= j < i ==> s@[j] != c,
        decreases n - i,
    {
        if v[i] == c {
            proof {
                lemma_occurs_char(s@, c, i as int);
                assert forall|j: int| 0 <= j < i implies !occurs_at(s@, seq![c], j) by {
                    lemma_occurs_char(s@, c, j);
                }
                lemma_find_from_is(s@, seq![c], 0, i as int);
            }
            return Some(i);
        }
        i = i + 1;
    }
    proof {
        assert forall|j: int| 0 <= j implies !occurs_at(s@, seq![c], j) by {
            lemma_occurs_char(s@, c, j);
        }
        lemma_find_from_none(s@, seq![c], 0);
    }
    None
}

/// The last position of the character `c` in `s`.
pub fn rfind(s: &str, c: char) -> (r: Option<usize>)
    ensures
        match r {
            Some(i) => rfind_char(s@, c) == Some(i as int) && i < s@.len() <= usize::MAX,
            None => rfind_char(s@, c) is None,
        },
{
    let v = chars_of(s);
    let n: usize = v.len();
    let mut i: usize = n;
    while i > 0
        invariant
            0 <= i <= n,
            n == v@.len(),
            v@ == s@,
            forall|j: int| i <= j < n ==> s@[j] != c,
        decreases i,
    {
        if v[i - 1] == c {
            proof {
                lemma_rfind_char_is(s@, c, i - 1);
            }
            return Some(i - 1);
        }
        i = i - 1;
    }
    proof {
        lemma_rfind_char_none(s@, c);
    }
    None
}

/// The part of `s` before position `i`.
pub fn before(s: &str, i: usize) -> (r: &str)
    requires
        i <= s@.len(),
    ensures
        r@ == s@.take(i as int),
{
    s.substring_char(0, i)
}

/// The part of `s` from position `i` on.
pub fn from(s: &str, i: usize) -> (r: &str)
    requires
        i <= s@.len(),
    ensures
        r@ == s@.skip(i as int),
{
    let n: usize = s.unicode_len();
    let r = s.substring_char(i, n);
    assert(r@ =~= s@.skip(i as int));
    r
}

/// `s` cut at the first `pat`.
pub fn split_once_str<'a>(s: &'a str, pat: &str) -> (r: Option<(&'a str, &'a str)>)
    ensures
        match r {
            Some((a, b)) => split_once(s@, pat@) == Some((a@, b@)),
            None => split_once(s@, pat@) is None,
        },
{
    match find_str(s, pat) {
        Some(i) => {
            let m: usize = pat.unicode_len();
            Some((before(s, i), from(s, i + m)))
        },
        None => None,
    }
}

/// `s` cut at the first character `c`.
pub fn split_once_char<'a>(s: &'a str, c: char) -> (r: Option<(&'a str, &'a str)>)
    ensures
        match r {
            Some((a, b)) => split_once(s@, seq![c]) == Some((a@, b@)),
            None => split_once(s@, seq![c]) is None,
        },
{
    match find_char(s, c) {
        Some(i) => {
            Some((before(s, i), from(s, i + 1)))
        },
        None => None,
    }
}

/// What stands after the last `c` of `s`, or all of `s`.
pub fn after_last_char(s: &str, c: char) -> (r: &str)
    ensures
        r@ == after_last(s@, c),
{
    match rfind(s, c) {
        Some(i) => {
            from(s, i + 1)
        },
        None => s,
    }
}

/// Whether `s` begins with `prefix`.
pub fn begins_with(s: &str, prefix: &str) -> (r: bool)
    ensures
        r == starts_with(s@, prefix@),
{
    let n: usize = s.unicode_len();
    let m: usize = prefix.unicode_len();
    if m > n {
        return false;
    }
    same(before(s, m), prefix)
}

/// `s` without the `prefix` it begins with.
pub fn without_prefix<'a>(s: &'a str, prefix: &str) -> (r: Option<&'a str>)
    ensures
        match r {
            Some(rest) => strip_prefix(s@, prefix@) == Some(rest@),
            None => strip_prefix(s@, prefix@) is None,
        },
{
    if begins_with(s, prefix) {
        let m: usize = prefix.unicode_len();
        Some(from(s, m))
    } else {
        None
    }
}

/// Whether the first character of `s` is `c`.
pub fn begins_with_char(s: &str, c: char) -> (r: bool)
    ensures
        r == (s@.len() > 0 && s@[0] == c),
{
    let n: usize = s.unicode_len();
    n > 0 && s.get_char(0) == c
}

/// Whether the last character of `s` is `c`.
pub fn ends_with_char(s: &str, c: char) -> (r: bool)
    ensures
        r == (s@.len() > 0 && s@.last() == c),
{
    let n: usize = s.unicode_len();
    n > 0 && s.get_char(n - 1) == c
}

// =====================================================================
// Trimming
// =====================================================================

/// `s` without the run of `c` it begins with.
pub open spec fn trim_start_char(s: Seq<char>, c: char) -> Seq<char>
    decreases s.len(),
{
    if s.len() > 0 && s[0] == c {
        trim_start_char(s.skip(1), c)
    } else {
        s
    }
}

/// `s` without the run of `c` it ends with.
pub open spec fn trim_end_char(s: Seq<char>, c: char) -> Seq<char>
    decreases s.len(),
{
    if s.len() > 0 && s.last() == c {
        trim_end_char(s.drop_last(), c)
    } else {
        s
    }
}

/// The characters of the Unicode property `White_Space`.
pub open spec fn is_white(c: char) -> bool {
    ||| '\u{9}' <= c <= '\u{d}'
    ||| c == ' '
    ||| c == '\u{85}'
    ||| c == '\u{a0}'
    ||| c == '\u{1680}'
    ||| '\u{2000}' <= c <= '\u{200a}'
    ||| c == '\u{2028}'
    ||| c == '\u{2029}'
    ||| c == '\u{202f}'
    ||| c == '\u{205f}'
    ||| c == '\u{3000}'
}

/// `s` without the white space it begins with.
pub open spec fn trim_start(s: Seq<char>) -> Seq<char>
    decreases s.len(),
{
    if s.len() > 0 && is_white(s[0]) {
        trim_start(s.skip(1))
    } else {
        s
    }
}

/// `s` without the white space it ends with.
pub open spec fn trim_end(s: Seq<char>) -> Seq<char>
    decreases s.len(),
{
    if s.len() > 0 && is_white(s.last()) {
        trim_end(s.drop_last())
    } else {
        s
    }
}

/// `s` without the white space around it.
pub open spec fn trim(s: Seq<char>) -> Seq<char> {
    trim_end(trim_start(s))
}

/// Trimming the start keeps a suffix that does not begin with `c`.
pub proof fn lemma_trim_start_char(s: Seq<char>, c: char)
    ensures
        trim_start_char(s, c).len() <= s.len(),
        trim_start_char(s, c) == s.skip(s.len() - trim_start_char(s, c).len()),
        trim_start_char(s, c).len() > 0 ==> trim_start_char(s, c)[0] != c,
        forall|j: int| 0 <= j < s.len() - trim_start_char(s, c).len() ==> s[j] == c,
    decreases s.len(),
{
    if s.len() > 0 && s[0] == c {
        lemma_trim_start_char(s.skip(1), c);
        let k = s.len() - trim_start_char(s, c).len();
        assert(s.skip(1).skip(k - 1) =~= s.skip(k));
        assert forall|j: int| 0 <= j < k implies s[j] == c by {
            if j > 0 {
                assert(s.skip(1)[j - 1] == s[j]);
            }
        }
    } else {
        assert(s.skip(0) =~= s);
    }
}

/// `s` without the run of `c` it begins with.
pub fn trim_start_matches(s: &str, c: char) -> (r: &str)
    ensures
        r@ == trim_start_char(s@, c),
{
    let v = chars_of(s);
    let n: usize = v.len();
    let mut i: usize = 0;
    assert(s@.skip(0) =~= s@);
    while i < n && v[i] == c
        invariant
            0 <= i <= n,
            n == v@.len(),
            v@ == s@,
            trim_start_char(s@, c) == trim_start_char(s@.skip(i as int), c),
        ensures
            0 <= i <= n,
            trim_start_char(s@, c) == s@.skip(i as int),
        decreases n - i,
    {
        assert(s@.skip(i as int)[0] == v@[i as int]);
        assert(s@.skip(i as int).skip(1) =~= s@.skip(i + 1));
        i = i + 1;
    }
    from(s, i)
}

/// `s` without the run of `c` it ends with.
pub fn trim_end_matches(s: &str, c: char) -> (r: &str)
    ensures
        r@ == trim_end_char(s@, c),
{
    let v = chars_of(s);
    let n: usize = v.len();
    let mut i: usize = n;
    assert(s@.take(n as int) =~= s@);
    while i > 0 && v[i - 1] == c
        invariant
            0 <= i <= n,
            n == v@.len(),
            v@ == s@,
            trim_end_char(s@, c) == trim_end_char(s@.take(i as int), c),
        ensures
            0 <= i <= n,
            trim_end_char(s@, c) == s@.take(i as int),
        decreases i,
    {
        assert(s@.take(i as int).last() == v@[i - 1]);
        assert(s@.take(i as int).drop_last() =~= s@.take(i - 1));
        i = i - 1;
    }
    before(s, i)
}

/// Whether `c` is white space.
pub fn is_whitespace(c: char) -> (r: bool)
    ensures
        r == is_white(c),
{
    ('\u{9}' <= c && c <= '\u{d}') || c == ' ' || c == '\u{85}' || c == '\u{a0}' || c == '\u{1680}'
        || ('\u{2000}' <= c && c <= '\u{200a}') || c == '\u{2028}' || c == '\u{2029}'
        || c == '\u{202f}' || c == '\u{205f}' || c == '\u{3000}'
}

/// `s` without the white space around it.
pub fn trimmed(s: &str) -> (r: &str)
    ensures
        r@ == trim(s@),
{
    let v = chars_of(s);
    let n: usize = v.len();
    let mut i: usize = 0;
    assert(s@.skip(0) =~= s@);
    while i < n && is_whitespace(v[i])
        invariant
            0 <= i <= n,
            n == v@.len(),
            v@ == s@,
            trim_start(s@) == trim_start(s@.skip(i as int)),
        ensures
            0 <= i <= n,
            trim_start(s@) == s@.skip(i as int),
        decreases n - i,
    {
        assert(s@.skip(i as int)[0] == v@[i as int]);
        assert(s@.skip(i as int).skip(1) =~= s@.skip(i + 1));
        i = i + 1;
    }
    let mut k: usize = n;
    let ghost core = s@.skip(i as int);
    assert(core.take(n - i) =~= core);
    while k > i && is_whitespace(v[k - 1])
        invariant
            0 <= i <= k <= n,
            n == v@.len(),
            v@ == s@,
            core == s@.skip(i as int),
            trim_end(core) == trim_end(core.take(k - i)),
        ensures
            0 <= i <= k <= n,
            trim_end(core) == core.take(k - i),
        decreases k,
    {
        assert(core.take(k - i).last() == v@[k - 1]);
        assert(core.take(k - i).drop_last() =~= core.take(k - 1 - i));
        k = k - 1;
    }
    let r = s.substring_char(i, k);
    assert(r@ =~= core.take(k - i));
    r
}

// =====================================================================
// Pieces
// =====================================================================

/// The pieces of `s` between the characters `c`, without the empty ones.
pub open spec fn segments(s: Seq<char>, c: char) -> Seq<Seq<char>>
    decreases s.len(),
{
    match find(s, seq![c]) {
        Some(i) => if 0 <= i < s.len() {
            (if i == 0 {
                Seq::empty()
            } else {
                seq![s.take(i)]
            }) + segments(s.skip(i + 1), c)
        } else {
            Seq::empty()
        },
        None => if s.len() == 0 {
            Seq::empty()
        } else {
            seq![s]
        },
    }
}

/// `parts` with `sep` between them.
pub open spec fn join(parts: Seq<Seq<char>>, sep: Seq<char>) -> Seq<char>
    decreases parts.len(),
{
    if parts.len() == 0 {
        Seq::empty()
    } else if parts.len() == 1 {
        parts[0]
    } else {
        join(parts.drop_last(), sep) + sep + parts.last()
    }
}

/// The contents of a list of strings.
pub open spec fn views(v: Seq<String>) -> Seq<Seq<char>> {
    Seq::new(v.len(), |i: int| v[i]@)
}

/// Segments are never empty and never hold the separator.
pub proof fn lemma_segments(s: Seq<char>, c: char)
    ensures
        forall|i: int|
            0 <= i < segments(s, c).len() ==> (#[trigger] segments(s, c)[i]).len() > 0
                && !segments(s, c)[i].contains(c),
    decreases s.len(),
{
    lemma_find_from(s, seq![c], 0);
    match find(s, seq![c]) {
        Some(k) => {
            lemma_segments(s.skip(k + 1), c);
            let rest = segments(s.skip(k + 1), c);
            let head = s.take(k);
            assert(!head.contains(c)) by {
                if head.contains(c) {
                    let j = choose|j: int| 0 <= j < head.len() && head[j] == c;
                    lemma_occurs_char(s, c, j);
                }
            }
            assert forall|i: int| 0 <= i < segments(s, c).len() implies (#[trigger] segments(
                s,
                c,
            )[i]).len() > 0 && !segments(s, c)[i].contains(c) by {
                if k > 0 {
                    if i > 0 {
                        assert(segments(s, c)[i] == rest[i - 1]);
                    }
                } else {
                    assert(segments(s, c)[i] == rest[i]);
                }
            }
        },
        None => {
            if s.contains(c) {
                let j = choose|j: int| 0 <= j < s.len() && s[j] == c;
                lemma_occurs_char(s, c, j);
            }
        },
    }
}

/// The non-empty pieces of `s` between the characters `c`.
pub fn segments_of(s: &str, c: char) -> (v: Vec<String>)
    ensures
        views(v@) == segments(s@, c),
{
    let mut v: Vec<String> = Vec::new();
    let mut rest: &str = s;
    loop
        invariant_except_break
            views(v@) + segments(rest@, c) == segments(s@, c),
        ensures
            views(v@) == segments(s@, c),
        decreases rest@.len(),
    {
        let ghost done = views(v@);
        match find_char(rest, c) {
            Some(i) => {
                let tail = from(rest, i + 1);
                if i > 0 {
                    let head = before(rest, i).to_owned();
                    v.push(head);
                    assert(views(v@) =~= done.push(rest@.take(i as int)));
                    assert(views(v@) + segments(tail@, c) =~= done + segments(rest@, c));
                } else {
                    assert(segments(rest@, c) =~= segments(tail@, c));
                }
                rest = tail;
            },
            None => {
                if !rest.is_empty() {
                    v.push(rest.to_owned());
                    assert(views(v@) =~= done.push(rest@));
                    assert(views(v@) =~= done + segments(rest@, c));
                } else {
                    assert(views(v@) =~= done + segments(rest@, c));
                }
                break;
            },
        }
    }
    v
}

// =====================================================================
// Decimal numbers
// =====================================================================

/// The character of one decimal digit.
pub open spec fn digit_char(d: nat) -> char {
    (48 + d) as char
}

/// `c` is one of `0` to `9`.
pub open spec fn is_digit(c: char) -> bool {
    '0' <= c <= '9'
}

/// `n` in decimal, without leading zeros.
pub open spec fn decimal(n: nat) -> Seq<char>
    decreases n,
{
    if n < 10 {
        seq![digit_char(n)]
    } else {
        decimal(n / 10).push(digit_char(n % 10))
    }
}

/// The number that a run of digits stands for.
pub open spec fn digits_value(d: Seq<char>) -> nat
    decreases d.len(),
{
    if d.len() == 0 {
        0
    } else {
        digits_value(d.drop_last()) * 10 + (d.last() as nat - 48) as nat
    }
}

/// All of `s` are digits.
pub open spec fn all_digits(s: Seq<char>) -> bool {
    forall|i: int| 0 <= i < s.len() ==> is_digit(#[trigger] s[i])
}

/// What `s` is as a `u64`: one or more digits, after an optional plus sign,
/// whose value fits.
pub open spec fn parse_decimal(s: Seq<char>) -> Option<u64> {
    let d = if s.len() > 0 && s[0] == '+' {
        s.skip(1)
    } else {
        s
    };
    if d.len() > 0 && all_digits(d) && digits_value(d) <= u64::MAX {
        Some(digits_value(d) as u64)
    } else {
        None
    }
}

/// More digits never make a smaller number.
proof fn lemma_digits_value_grows(d: Seq<char>, k: int)
    requires
        0 <= k <= d.len(),
        all_digits(d),
    ensures
        digits_value(d.take(k)) <= digits_value(d),
    decreases d.len() - k,
{
    if k == d.len() {
        assert(d.take(k) =~= d);
    } else {
        lemma_digits_value_grows(d, k + 1);
        assert(d.take(k + 1).drop_last() =~= d.take(k));
        assert(is_digit(d[k]));
        assert(d.take(k + 1).last() == d[k]);
    }
}

/// A number written in decimal reads back as itself.
pub proof fn lemma_decimal_round_trip(n: u64)
    ensures
        parse_decimal(decimal(n as nat)) == Some(n),
        all_digits(decimal(n as nat)),
        decimal(n as nat).len() > 0,
{
    lemma_decimal_digits(n as nat);
    assert(decimal(n as nat)[0] != '+') by {
        assert(is_digit(decimal(n as nat)[0]));
    }
}

proof fn lemma_decimal_digits(n: nat)
    ensures
        decimal(n).len() > 0,
        all_digits(decimal(n)),
        digits_value(decimal(n)) == n,
    decreases n,
{
    if n < 10 {
        assert(decimal(n).drop_last() =~= Seq::empty());
        assert(digits_value(Seq::<char>::empty()) == 0);
        assert(decimal(n).last() as nat == 48 + n);
    } else {
        lemma_decimal_digits(n / 10);
        assert(decimal(n).drop_last() =~= decimal(n / 10));
        assert(decimal(n).last() as nat == 48 + n % 10);
        assert forall|i: int| 0 <= i < decimal(n).len() implies is_digit(
            #[trigger] decimal(n)[i],
        ) by {
            if i < decimal(n).len() - 1 {
                assert(decimal(n)[i] == decimal(n / 10)[i]);
            }
        }
    }
}

/// One digit as a string.
fn digit_str(d: u64) -> (r: &'static str)
    requires
        d < 10,
    ensures
        r@ == seq![digit_char(d as nat)],
{
    proof {
        reveal_strlit("0");
        reveal_strlit("1");
        reveal_strlit("2");
        reveal_strlit("3");
        reveal_strlit("4");
        reveal_strlit("5");
        reveal_strlit("6");
        reveal_strlit("7");
        reveal_strlit("8");
        reveal_strlit("9");
    }
    let r = match d {
        0 => "0",
        1 => "1",
        2 => "2",
        3 => "3",
        4 => "4",
        5 => "5",
        6 => "6",
        7 => "7",
        8 => "8",
        _ => "9",
    };
    assert(r@ =~= seq![digit_char(d as nat)]);
    r
}

/// `n` in decimal.
pub fn decimal_of(n: u64) -> (r: String)
    ensures
        r@ == decimal(n as nat),
    decreases n,
{
    if n < 10 {
        digit_str(n).to_owned()
    } else {
        let mut r = decimal_of(n / 10);
        r.append(digit_str(n % 10));
        assert(r@ =~= decimal(n as nat));
        r
    }
}

/// `s` as a `u64`, if it is one.
pub fn parse_u64(s: &str) -> (r: Option<u64>)
    ensures
        r == parse_decimal(s@),
{
    let v = chars_of(s);
    let n: usize = v.len();
    let from: usize = if n > 0 && v[0] == '+' {
        1
    } else {
        0
    };
    let ghost d = if s@.len() > 0 && s@[0] == '+' {
        s@.skip(1)
    } else {
        s@
    };
    assert(d =~= s@.skip(from as int));
    if from == n {
        return None;
    }
    let mut value: u64 = 0;
    let mut i: usize = from;
    while i < n
        invariant
            0 <= from <= i <= n,
            n == v@.len(),
            v@ == s@,
            d == s@.skip(from as int),
            parse_decimal(s@) == (if d.len() > 0 && all_digits(d) && digits_value(d) <= u64::MAX {
                Some(digits_value(d) as u64)
            } else {
                None
            }),
            forall|j: int| 0 <= j < i - from ==> is_digit(#[trigger] d[j]),
            value == digits_value(d.take(i - from)),
        decreases n - i,
    {
        let c = v[i];
        assert(d[i - from] == c);
        if !('0' <= c && c <= '9') {
            assert(!is_digit(d[i - from]));
            return None;
        }
        let x: u64 = c as u64 - 48;
        assert(d.take(i - from + 1).drop_last() =~= d.take(i - from));
        assert(d.take(i - from + 1).last() == c);
        if value > (u64::MAX - x) / 10 {
            proof {
                assert(digits_value(d.take(i - from + 1)) > u64::MAX);
                if all_digits(d) {
                    lemma_digits_value_grows(d, i - from + 1);
                }
            }
            return None;
        }
        value = value * 10 + x;
        i = i + 1;
    }
    assert(d.take(n - from) =~= d);
    Some(value)
}

/// A run of digits has no white space around it.
pub proof fn lemma_trim_digits(d: Seq<char>)
    requires
        all_digits(d),
    ensures
        trim(d) == d,
{
    if d.len() > 0 {
        assert(is_digit(d[0]));
        assert(is_digit(d[d.len() - 1]));
    }
}

// =====================================================================
// Laws
// =====================================================================

/// The characters that count as white space, one by one.
pub proof fn law_white_space(c: char)
    ensures
        is_white(c) <==> seq![
            0x9, 0xa, 0xb, 0xc, 0xd, 0x20, 0x85, 0xa0, 0x1680, 0x2000, 0x2001, 0x2002, 0x2003,
            0x2004, 0x2005, 0x2006, 0x2007, 0x2008, 0x2009, 0x200a, 0x2028, 0x2029, 0x202f, 0x205f,
            0x3000,
        ].contains(c as int),
{
    let all: Seq<int> = seq![
        0x9, 0xa, 0xb, 0xc, 0xd, 0x20, 0x85, 0xa0, 0x1680, 0x2000, 0x2001, 0x2002, 0x2003,
        0x2004, 0x2005, 0x2006, 0x2007, 0x2008, 0x2009, 0x200a, 0x2028, 0x2029, 0x202f, 0x205f,
        0x3000,
    ];
    let n = c as int;
    if is_white(c) {
        let i: int = if n <= 0xd {
            n - 9
        } else if n == 0x20 {
            5
        } else if n == 0x85 {
            6
        } else if n == 0xa0 {
            7
        } else if n == 0x1680 {
            8
        } else if n <= 0x200a {
            n - 0x2000 + 9
        } else if n == 0x2028 {
            20
        } else if n == 0x2029 {
            21
        } else if n == 0x202f {
            22
        } else if n == 0x205f {
            23
        } else {
            24
        };
        assert(0 <= i < 25);
        assert(all[i] == n);
    }
}

/// Nothing but white space.
pub open spec fn all_white(s: Seq<char>) -> bool {
    forall|i: int| 0 <= i < s.len() ==> is_white(#[trigger] s[i])
}

/// Trimming takes away exactly the white space around what neither begins nor ends with it.
pub proof fn law_trim(before: Seq<char>, core: Seq<char>, after: Seq<char>)
    requires
        all_white(before),
        all_white(after),
        core.len() > 0 ==> !is_white(core[0]) && !is_white(core.last()),
    ensures
        trim(before + core + after) == core,
{
    let s = before + core + after;
    if core.len() == 0 {
        assert(all_white(s)) by {
            assert forall|i: int| 0 <= i < s.len() implies is_white(#[trigger] s[i]) by {
                if i < before.len() {
                    assert(s[i] == before[i]);
                } else {
                    assert(s[i] == after[i - before.len()]);
                }
            }
        }
        lemma_trim_start_run(s, Seq::empty());
        assert(s + Seq::<char>::empty() =~= s);
        assert(trim(s) =~= core);
    } else {
        assert(s =~= before + (core + after));
        lemma_trim_start_run(before, core + after);
        lemma_trim_end_run(core, after);
    }
}

proof fn lemma_trim_start_run(run: Seq<char>, rest: Seq<char>)
    requires
        all_white(run),
        rest.len() > 0 ==> !is_white(rest[0]),
    ensures
        trim_start(run + rest) == rest,
    decreases run.len(),
{
    if run.len() == 0 {
        assert(run + rest =~= rest);
    } else {
        assert((run + rest)[0] == run[0]);
        assert((run + rest).skip(1) =~= run.skip(1) + rest);
        assert forall|i: int| 0 <= i < run.skip(1).len() implies is_white(
            #[trigger] run.skip(1)[i],
        ) by {
            assert(run.skip(1)[i] == run[i + 1]);
        }
        lemma_trim_start_run(run.skip(1), rest);
    }
}

proof fn lemma_trim_end_run(rest: Seq<char>, run: Seq<char>)
    requires
        all_white(run),
        rest.len() > 0 ==> !is_white(rest.last()),
    ensures
        trim_end(rest + run) == rest,
    decreases run.len(),
{
    if run.len() == 0 {
        assert(rest + run =~= rest);
    } else {
        assert((rest + run).last() == run.last());
        assert(is_white(run[run.len() - 1]));
        assert((rest + run).drop_last() =~= rest + run.drop_last());
        assert forall|i: int| 0 <= i < run.drop_last().len() implies is_white(
            #[trigger] run.drop_last()[i],
        ) by {
            assert(run.drop_last()[i] == run[i]);
        }
        lemma_trim_end_run(rest, run.drop_last());
    }
}

/// What was trimmed neither begins nor ends with white space, so it stays as it is when it is
/// trimmed again.
pub proof fn law_trimmed_stays(s: Seq<char>)
    ensures
        trim(s).len() > 0 ==> !is_white(trim(s)[0]) && !is_white(trim(s).last()),
        trim(trim(s)) == trim(s),
{
    lemma_trim_start_ends(s);
    lemma_trim_end_ends(trim_start(s));
    let none = Seq::<char>::empty();
    law_trim(none, trim(s), none);
    assert(none + trim(s) + none =~= trim(s));
}

proof fn lemma_trim_start_ends(s: Seq<char>)
    ensures
        trim_start(s).len() > 0 ==> !is_white(trim_start(s)[0]),
    decreases s.len(),
{
    if s.len() > 0 && is_white(s[0]) {
        lemma_trim_start_ends(s.skip(1));
    }
}

proof fn lemma_trim_end_ends(s: Seq<char>)
    ensures
        trim_end(s).len() > 0 ==> !is_white(trim_end(s).last()) && s.len() > 0 && trim_end(s)[0]
            == s[0],
    decreases s.len(),
{
    if s.len() > 0 && is_white(s.last()) {
        lemma_trim_end_ends(s.drop_last());
    }
}

/// Trimming a character at one end takes away the whole run of it, and nothing else.
pub proof fn law_trim_char(rest: Seq<char>, run: Seq<char>, c: char)
    requires
        forall|i: int| 0 <= i < run.len() ==> #[trigger] run[i] == c,
    ensures
        rest.len() > 0 ==> rest[0] != c ==> trim_start_char(run + rest, c) == rest,
        rest.len() > 0 ==> rest.last() != c ==> trim_end_char(rest + run, c) == rest,
        trim_start_char(run, c).len() == 0,
        trim_end_char(run, c).len() == 0,
    decreases run.len(),
{
    if run.len() == 0 {
        assert(run + rest =~= rest);
        assert(rest + run =~= rest);
    } else {
        let less = run.skip(1);
        assert forall|i: int| 0 <= i < less.len() implies #[trigger] less[i] == c by {
            assert(less[i] == run[i + 1]);
        }
        law_trim_char(rest, less, c);
        assert(run.last() == run[run.len() - 1]);
        assert(run[0] == c);
        assert(run.drop_last() =~= less);
        assert((run + rest).skip(1) =~= less + rest);
        assert((rest + run).drop_last() =~= rest + less);
        assert((rest + run).last() == run.last());
    }
}

/// A text that is cut at the first occurrence of a pattern is what stands before it, the
/// pattern, and what stands after it, and the pattern occurs nowhere earlier; a text that is
/// not cut does not hold the pattern.
pub proof fn law_split_once(s: Seq<char>, pat: Seq<char>)
    ensures
        match split_once(s, pat) {
            Some((a, b)) => s == a + pat + b && forall|j: int|
                0 <= j < a.len() ==> !occurs_at(s, pat, j),
            None => forall|j: int| !occurs_at(s, pat, j),
        },
{
    lemma_find_from(s, pat, 0);
    match find(s, pat) {
        Some(i) => {
            assert(s =~= s.take(i) + s.subrange(i, i + pat.len()) + s.skip(i + pat.len()));
        },
        None => {},
    }
}

/// A text is cut at the first of a character.
pub proof fn law_split_once_char(a: Seq<char>, c: char, b: Seq<char>)
    requires
        !a.contains(c),
    ensures
        split_once(a + seq![c] + b, seq![c]) == Some((a, b)),
{
    let s = a + seq![c] + b;
    let k = a.len() as int;
    lemma_occurs_char(s, c, k);
    assert forall|j: int| 0 <= j < k implies !occurs_at(s, seq![c], j) by {
        lemma_occurs_char(s, c, j);
        assert(s[j] == a[j]);
        assert(a.contains(a[j]));
    }
    lemma_find_from_is(s, seq![c], 0, k);
    assert(s.take(k) =~= a);
    assert(s.skip(k + 1) =~= b);
}

/// A prefix is taken off exactly where it stands in front.
pub proof fn law_strip_prefix(prefix: Seq<char>, rest: Seq<char>, s: Seq<char>)
    ensures
        strip_prefix(prefix + rest, prefix) == Some(rest),
        strip_prefix(s, prefix) matches Some(r) ==> s == prefix + r,
        starts_with(s, prefix) <==> strip_prefix(s, prefix) is Some,
{
    assert((prefix + rest).take(prefix.len() as int) =~= prefix);
    assert((prefix + rest).skip(prefix.len() as int) =~= rest);
    if starts_with(s, prefix) {
        assert(s =~= s.take(prefix.len() as int) + s.skip(prefix.len() as int));
    }
}

/// The last component of a path is what stands after its last separator.
pub proof fn law_after_last(dir: Seq<char>, c: char, name: Seq<char>)
    requires
        !name.contains(c),
    ensures
        after_last(dir + seq![c] + name, c) == name,
        after_last(name, c) == name,
{
    let s = dir + seq![c] + name;
    let k = dir.len() as int;
    assert(s[k] == c);
    assert forall|j: int| k < j < s.len() implies s[j] != c by {
        assert(s[j] == name[j - k - 1]);
        assert(name.contains(name[j - k - 1]));
    }
    lemma_rfind_char_is(s, c, k);
    assert(s.skip(k + 1) =~= name);
    assert forall|j: int| 0 <= j < name.len() implies name[j] != c by {
        assert(name.contains(name[j]));
    }
    lemma_rfind_char_none(name, c);
}

/// The segments of a path are those before a separator, followed by those after it; what
/// holds no separator is one segment, or none where it is empty.
pub proof fn law_segments(a: Seq<char>, b: Seq<char>, c: char)
    ensures
        segments(a + seq![c] + b, c) == segments(a, c) + segments(b, c),
        !a.contains(c) && a.len() > 0 ==> segments(a, c) == seq![a],
        a.len() == 0 ==> segments(a, c).len() == 0,
    decreases a.len(),
{
    let s = a + seq![c] + b;
    lemma_find_from(a, seq![c], 0);
    match find(a, seq![c]) {
        Some(k) => {
            lemma_occurs_char(a, c, k);
            lemma_occurs_char(s, c, k);
            assert(a.contains(a[k]));
            assert forall|j: int| 0 <= j < k implies !occurs_at(s, seq![c], j) by {
                lemma_occurs_char(s, c, j);
                lemma_occurs_char(a, c, j);
            }
            lemma_find_from_is(s, seq![c], 0, k);
            law_segments(a.skip(k + 1), b, c);
            assert(s.skip(k + 1) =~= a.skip(k + 1) + seq![c] + b);
            assert(s.take(k) =~= a.take(k));
            assert(segments(s, c) =~= segments(a, c) + segments(b, c));
        },
        None => {
            let k = a.len() as int;
            lemma_occurs_char(s, c, k);
            assert forall|j: int| 0 <= j < k implies !occurs_at(s, seq![c], j) by {
                lemma_occurs_char(s, c, j);
                lemma_occurs_char(a, c, j);
            }
            lemma_find_from_is(s, seq![c], 0, k);
            assert(s.take(k) =~= a);
            assert(s.skip(k + 1) =~= b);
            assert(segments(s, c) =~= segments(a, c) + segments(b, c));
        },
    }
}

/// Joined parts are the parts joined so far, the separator and the last part.
pub proof fn law_join(parts: Seq<Seq<char>>, part: Seq<char>, sep: Seq<char>)
    ensures
        parts.len() > 0 ==> join(parts.push(part), sep) == join(parts, sep) + sep + part,
        join(seq![part], sep) == part,
{
    assert(parts.push(part).drop_last() =~= parts);
}

/// What is joined from parts that are not empty and hold no separator has those parts as its
/// segments.
pub proof fn law_segments_of_joined(parts: Seq<Seq<char>>, c: char)
    requires
        forall|i: int|
            0 <= i < parts.len() ==> (#[trigger] parts[i]).len() > 0 && !parts[i].contains(c),
    ensures
        segments(join(parts, seq![c]), c) == parts,
    decreases parts.len(),
{
    let none = Seq::<char>::empty();
    if parts.len() == 0 {
        law_segments(none, none, c);
        assert(segments(none, c) =~= parts);
    } else if parts.len() == 1 {
        law_segments(parts[0], none, c);
        assert(parts =~= seq![parts[0]]);
    } else {
        let front = parts.drop_last();
        assert forall|i: int| 0 <= i < front.len() implies (#[trigger] front[i]).len() > 0
            && !front[i].contains(c) by {
            assert(front[i] == parts[i]);
        }
        law_segments_of_joined(front, c);
        let last = parts[parts.len() - 1];
        law_segments(join(front, seq![c]), last, c);
        law_segments(last, none, c);
        assert(parts =~= front + seq![last]);
    }
}

/// A decimal number is written in digits with the first of them not zero, unless it is the
/// number zero; each digit weighs ten times what the next one does.
pub proof fn law_decimal(n: nat, d: nat)
    requires
        d < 10,
    ensures
        n > 0 ==> decimal(n)[0] != '0',
        n > 0 ==> decimal(n * 10 + d) == decimal(n) + decimal(d),
        decimal(d).len() == 1,
        decimal(d)[0] as nat == '0' as nat + d,
    decreases n,
{
    if n >= 10 {
        law_decimal(n / 10, d);
        lemma_decimal_digits(n / 10);
        assert(decimal(n)[0] == decimal(n / 10)[0]);
    }
    if n > 0 {
        assert((n * 10 + d) / 10 == n);
        assert((n * 10 + d) % 10 == d);
        assert(decimal(n * 10 + d) =~= decimal(n) + decimal(d));
    }
}

/// A number may have a plus sign and zeros in front of it. One that does not fit is none, where
/// anything else is not a digit there is no number, and neither is there one without digits.
pub proof fn law_parse_decimal(n: u64, large: nat, zeros: Seq<char>, s: Seq<char>, i: int)
    requires
        large > u64::MAX,
        forall|k: int| 0 <= k < zeros.len() ==> #[trigger] zeros[k] == '0',
        0 <= i < s.len(),
        !('0' <= s[i] <= '9'),
        !(i == 0 && s[0] == '+' && s.len() > 1),
    ensures
        parse_decimal(zeros + decimal(n as nat)) == Some(n),
        parse_decimal(seq!['+'] + zeros + decimal(n as nat)) == Some(n),
        parse_decimal(zeros + decimal(large)) is None,
        parse_decimal(s) is None,
        parse_decimal(Seq::empty()) is None,
{
    let d = decimal(n as nat);
    let whole = zeros + d;
    lemma_decimal_digits(n as nat);
    lemma_leading_zeros(zeros, d);
    lemma_decimal_digits(large);
    lemma_leading_zeros(zeros, decimal(large));
    let long = zeros + decimal(large);
    assert(long[0] != '+') by {
        if zeros.len() > 0 {
            assert(long[0] == zeros[0]);
        } else {
            assert(long =~= decimal(large));
            assert(is_digit(decimal(large)[0]));
        }
    }
    assert(all_digits(whole)) by {
        assert forall|k: int| 0 <= k < whole.len() implies is_digit(#[trigger] whole[k]) by {
            if k < zeros.len() {
                assert(whole[k] == zeros[k]);
            } else {
                assert(whole[k] == d[k - zeros.len()]);
            }
        }
    }
    assert(is_digit(whole[0]));
    let signed = seq!['+'] + zeros + d;
    assert(signed.skip(1) =~= whole);
    if s[0] == '+' {
        if i == 0 {
            assert(s.skip(1).len() == 0);
        } else {
            assert(s.skip(1)[i - 1] == s[i]);
        }
    }
}

proof fn lemma_leading_zeros(zeros: Seq<char>, d: Seq<char>)
    requires
        forall|k: int| 0 <= k < zeros.len() ==> #[trigger] zeros[k] == '0',
    ensures
        digits_value(zeros + d) == digits_value(d),
        digits_value(zeros) == 0,
    decreases zeros.len() + d.len(),
{
    if d.len() > 0 {
        assert((zeros + d).drop_last() =~= zeros + d.drop_last());
        lemma_leading_zeros(zeros, d.drop_last());
    } else if zeros.len() > 0 {
        assert(zeros + d =~= zeros);
        assert forall|k: int| 0 <= k < zeros.drop_last().len() implies #[trigger]
            zeros.drop_last()[k] == '0' by {
            assert(zeros.drop_last()[k] == zeros[k]);
        }
        lemma_leading_zeros(zeros.drop_last(), d);
        assert(zeros.drop_last() + d =~= zeros.drop_last());
        assert(zeros.last() == zeros[zeros.len() - 1]);
    } else {
        assert(zeros + d =~= d);
    }
}

/// Trimming leaves nothing exactly where there is nothing but white space.
pub proof fn lemma_trim_blank(s: Seq<char>)
    ensures
        trim(s).len() == 0 <==> all_white(s),
{
    let none = Seq::<char>::empty();
    if all_white(s) {
        law_trim(s, none, none);
        assert(s + none + none =~= s);
    } else {
        lemma_trim_start_kept(s);
        lemma_trim_end_kept(trim_start(s));
    }
}

proof fn lemma_trim_start_kept(s: Seq<char>)
    ensures
        !all_white(s) ==> !all_white(trim_start(s)),
    decreases s.len(),
{
    if s.len() > 0 && is_white(s[0]) {
        if all_white(s.skip(1)) {
            assert forall|i: int| 0 <= i < s.len() implies is_white(#[trigger] s[i]) by {
                if i > 0 {
                    assert(s.skip(1)[i - 1] == s[i]);
                }
            }
        }
        lemma_trim_start_kept(s.skip(1));
    }
}

proof fn lemma_trim_end_kept(s: Seq<char>)
    ensures
        !all_white(s) ==> trim_end(s).len() > 0,
    decreases s.len(),
{
    if s.len() > 0 && is_white(s.last()) {
        if all_white(s.drop_last()) {
            assert forall|i: int| 0 <= i < s.len() implies is_white(#[trigger] s[i]) by {
                if i < s.len() - 1 {
                    assert(s.drop_last()[i] == s[i]);
                }
            }
        }
        lemma_trim_end_kept(s.drop_last());
    }
}

/// A list of strings says what its strings hold, one by one.
pub proof fn law_views(v: Seq<String>, i: int)
    requires
        0 <= i < v.len(),
    ensures
        views(v).len() == v.len(),
        views(v)[i] == v[i]@,
{
}

} // verus!
