//! Searching in sequences of bytes: lines, blank lines, and given patterns.
use vstd::prelude::*;
use vstd::slice::*;

verus! {

/// Whether `pattern` stands in `s` at the index `i`.
pub open spec fn occurs_at(s: Seq<u8>, pattern: Seq<u8>, i: int) -> bool {
    0 <= i && i + pattern.len() <= s.len() && s.subrange(i, i + pattern.len()) == pattern
}

/// The first index at which `pattern` stands in `s`.
pub open spec fn first_occurrence(s: Seq<u8>, pattern: Seq<u8>) -> Option<int>
    decreases s.len(),
{
    if s.len() < pattern.len() {
        None
    } else if s.take(pattern.len() as int) == pattern {
        Some(0)
    } else if s.len() == 0 {
        None
    } else {
        match first_occurrence(s.drop_first(), pattern) {
            Some(i) => Some(i + 1),
            None => None,
        }
    }
}

pub open spec fn crlf_crlf() -> Seq<u8> {
    seq![13u8, 10u8, 13u8, 10u8]
}

pub open spec fn lf_lf() -> Seq<u8> {
    seq![10u8, 10u8]
}

pub open spec fn crlf() -> Seq<u8> {
    seq![13u8, 10u8]
}

pub open spec fn lf() -> Seq<u8> {
    seq![10u8]
}

/// Where a block of header lines ends, and the length of the blank line after it: at
/// the first CRLF CRLF, or, where there is none at all, at the first LF LF.
pub open spec fn header_end(s: Seq<u8>) -> Option<(int, int)> {
    match first_occurrence(s, crlf_crlf()) {
        Some(i) => Some((i, 4)),
        None => match first_occurrence(s, lf_lf()) {
            Some(i) => Some((i, 2)),
            None => None,
        },
    }
}

/// Where the first line ends, and the length of its ending: LF, or CRLF.
pub open spec fn line_end(s: Seq<u8>) -> Option<(int, int)> {
    match first_occurrence(s, lf()) {
        Some(i) => if i > 0 && s[i - 1] == 13 {
            Some((i - 1, 2))
        } else {
            Some((i, 1))
        },
        None => None,
    }
}

/// The length of the line ending at the start of `s`, zero where there is none.
pub open spec fn newline_len(s: Seq<u8>) -> int {
    if crlf().is_prefix_of(s) {
        2
    } else if lf().is_prefix_of(s) {
        1
    } else {
        0
    }
}

pub proof fn lemma_first_occurrence(s: Seq<u8>, pattern: Seq<u8>)
    ensures
        match first_occurrence(s, pattern) {
            Some(i) => occurs_at(s, pattern, i) && forall|j: int|
                0 <= j < i ==> !(#[trigger] occurs_at(s, pattern, j)),
            None => forall|j: int| !(#[trigger] occurs_at(s, pattern, j)),
        },
    decreases s.len(),
{
    if s.len() >= pattern.len() {
        assert(s.take(pattern.len() as int) == s.subrange(0, pattern.len() as int));
        if s.take(pattern.len() as int) != pattern && s.len() > 0 {
            let t = s.drop_first();
            lemma_first_occurrence(t, pattern);
            assert forall|j: int| j > 0 implies occurs_at(s, pattern, j) == #[trigger] occurs_at(
                t,
                pattern,
                j - 1,
            ) by {
                if j + pattern.len() <= s.len() {
                    assert(s.subrange(j, j + pattern.len()) == t.subrange(
                        j - 1,
                        j - 1 + pattern.len(),
                    ));
                }
            }
            match first_occurrence(t, pattern) {
                Some(i) => {
                    assert(occurs_at(t, pattern, (i + 1) - 1));
                    assert forall|j: int| 0 <= j < i + 1 implies !(#[trigger] occurs_at(
                        s,
                        pattern,
                        j,
                    )) by {
                        if j > 0 {
                            assert(!occurs_at(t, pattern, j - 1));
                        }
                    }
                },
                None => {
                    assert forall|j: int| !(#[trigger] occurs_at(s, pattern, j)) by {
                        if j > 0 {
                            assert(!occurs_at(t, pattern, j - 1));
                        }
                    }
                },
            }
        }
    }
}

pub proof fn lemma_first_occurrence_is(s: Seq<u8>, pattern: Seq<u8>, i: int)
    requires
        occurs_at(s, pattern, i),
        forall|j: int| 0 <= j < i ==> !(#[trigger] occurs_at(s, pattern, j)),
    ensures
        first_occurrence(s, pattern) == Some(i),
{
    lemma_first_occurrence(s, pattern);
    match first_occurrence(s, pattern) {
        Some(k) => {
            if k < i {
                assert(!occurs_at(s, pattern, k));
            } else if i < k {
                assert(!occurs_at(s, pattern, i));
            }
        },
        None => {},
    }
}

pub proof fn lemma_first_occurrence_none(s: Seq<u8>, pattern: Seq<u8>)
    requires
        forall|j: int| 0 <= j && j + pattern.len() <= s.len() ==> !(#[trigger] occurs_at(
            s,
            pattern,
            j,
        )),
    ensures
        first_occurrence(s, pattern) is None,
{
    lemma_first_occurrence(s, pattern);
}

/// The header block ends, and its blank line, within the bytes.
pub proof fn lemma_header_end(s: Seq<u8>)
    ensures
        header_end(s) matches Some(e) ==> 0 <= e.0 && 2 <= e.1 <= 4 && e.0 + e.1 <= s.len(),
{
    lemma_first_occurrence(s, crlf_crlf());
    lemma_first_occurrence(s, lf_lf());
}

/// The line ends, and its ending, within the bytes.
pub proof fn lemma_line_end(s: Seq<u8>)
    ensures
        line_end(s) matches Some(e) ==> 0 <= e.0 && 1 <= e.1 <= 2 && e.0 + e.1 <= s.len(),
{
    lemma_first_occurrence(s, lf());
}

/// Whether `s` starts with `pattern`.
pub fn starts_with(s: &[u8], pattern: &[u8]) -> (b: bool)
    ensures
        b == pattern@.is_prefix_of(s@),
{
    if s.len() < pattern.len() {
        return false;
    }
    for i in 0..pattern.len()
        invariant
            pattern@.len() <= s@.len(),
            forall|j: int| 0 <= j < i ==> s@[j] == pattern@[j],
    {
        if s[i] != pattern[i] {
            assert(s@.subrange(0, pattern@.len() as int)[i as int] != pattern@[i as int]);
            return false;
        }
    }
    assert(s@.subrange(0, pattern@.len() as int) == pattern@);
    true
}

/// Whether `s` ends with `pattern`.
pub fn ends_with(s: &[u8], pattern: &[u8]) -> (b: bool)
    ensures
        b == pattern@.is_suffix_of(s@),
{
    if s.len() < pattern.len() {
        return false;
    }
    let tail = slice_subrange(s, s.len() - pattern.len(), s.len());
    let b = starts_with(tail, pattern);
    assert(tail@.subrange(0, tail@.len() as int) == tail@);
    b
}

/// The first index at which `needle` stands in `haystack`.
pub fn find_bytes(haystack: &[u8], needle: &[u8]) -> (r: Option<usize>)
    ensures
        match r {
            Some(i) => first_occurrence(haystack@, needle@) == Some(i as int) && i + needle@.len()
                <= haystack@.len(),
            None => first_occurrence(haystack@, needle@) is None,
        },
{
    let mut i: usize = 0;
    while i <= haystack.len() && needle.len() <= haystack.len() - i
        invariant
            i <= haystack@.len() + 1,
            forall|j: int| 0 <= j < i ==> !(#[trigger] occurs_at(haystack@, needle@, j)),
        decreases haystack@.len() + 1 - i,
    {
        let rest = slice_subrange(haystack, i, haystack.len());
        let b = starts_with(rest, needle);
        assert(rest@.subrange(0, needle@.len() as int) == haystack@.subrange(
            i as int,
            i + needle@.len(),
        ));
        if b {
            proof {
                lemma_first_occurrence_is(haystack@, needle@, i as int);
            }
            return Some(i);
        }
        if i == haystack.len() {
            proof {
                lemma_first_occurrence_none(haystack@, needle@);
            }
            return None;
        }
        i += 1;
    }
    proof {
        lemma_first_occurrence_none(haystack@, needle@);
    }
    None
}

/// Where a block of header lines ends, and the length of the blank line after it.
pub fn find_header_end(buffer: &[u8]) -> (r: Option<(usize, usize)>)
    ensures
        match r {
            Some(e) => header_end(buffer@) == Some((e.0 as int, e.1 as int)) && e.0 + e.1
                <= buffer@.len() && e.0 + e.1 <= usize::MAX && 2 <= e.1 <= 4,
            None => header_end(buffer@) is None,
        },
{
    let crlf_crlf: [u8; 4] = [13, 10, 13, 10];
    let lf_lf: [u8; 2] = [10, 10];
    let n: usize = buffer.len();
    assert(crlf_crlf@ == self::crlf_crlf());
    assert(lf_lf@ == self::lf_lf());
    match find_bytes(buffer, &crlf_crlf) {
        Some(i) => Some((i, 4)),
        None => match find_bytes(buffer, &lf_lf) {
            Some(i) => Some((i, 2)),
            None => None,
        },
    }
}

/// Where the first line ends, and the length of its ending.
pub fn find_line_end(buffer: &[u8]) -> (r: Option<(usize, usize)>)
    ensures
        match r {
            Some(e) => line_end(buffer@) == Some((e.0 as int, e.1 as int)) && e.0 + e.1
                <= buffer@.len() && e.0 + e.1 <= usize::MAX && 1 <= e.1 <= 2,
            None => line_end(buffer@) is None,
        },
{
    let lf: [u8; 1] = [10];
    let n: usize = buffer.len();
    assert(lf@ == self::lf());
    match find_bytes(buffer, &lf) {
        Some(i) => if i > 0 && buffer[i - 1] == 13 {
            Some((i - 1, 2))
        } else {
            Some((i, 1))
        },
        None => None,
    }
}

/// The length of the line ending at the start of `s`, zero where there is none.
pub fn leading_newline(s: &[u8]) -> (n: usize)
    ensures
        n == newline_len(s@),
        n <= 2,
        n <= s@.len(),
{
    let crlf: [u8; 2] = [13, 10];
    let lf: [u8; 1] = [10];
    assert(crlf@ == self::crlf());
    assert(lf@ == self::lf());
    if starts_with(s, &crlf) {
        2
    } else if starts_with(s, &lf) {
        1
    } else {
        0
    }
}

} // verus!
