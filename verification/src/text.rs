//! Line splitting and white-space trimming on character sequences, with the
//! meaning of `str::lines` and `str::trim`.

use vstd::prelude::*;

use crate::chars::copy_range;
use crate::unicode::{is_whitespace, spec_is_whitespace};

verus! {

/// `s` without its leading white space.
pub open spec fn trim_start(s: Seq<char>) -> Seq<char>
    decreases s.len(),
{
    if s.len() > 0 && spec_is_whitespace(s[0]) {
        trim_start(s.drop_first())
    } else {
        s
    }
}

/// `s` without its trailing white space.
pub open spec fn trim_end(s: Seq<char>) -> Seq<char>
    decreases s.len(),
{
    if s.len() > 0 && spec_is_whitespace(s.last()) {
        trim_end(s.drop_last())
    } else {
        s
    }
}

/// `s` without leading and trailing white space (`str::trim`).
pub open spec fn trim(s: Seq<char>) -> Seq<char> {
    trim_end(trim_start(s))
}

proof fn lemma_trim_start_skip(s: Seq<char>, a: int)
    requires
        0 <= a <= s.len(),
        forall|j: int| 0 <= j < a ==> spec_is_whitespace(#[trigger] s[j]),
        a == s.len() || !spec_is_whitespace(s[a]),
    ensures
        trim_start(s) == s.skip(a),
    decreases a,
{
    if a > 0 {
        assert(spec_is_whitespace(s[0]));
        lemma_trim_start_skip(s.drop_first(), a - 1);
        assert(s.drop_first().skip(a - 1) =~= s.skip(a));
    } else {
        assert(s.skip(0) =~= s);
    }
}

proof fn lemma_trim_end_take(s: Seq<char>, b: int)
    requires
        0 <= b <= s.len(),
        forall|j: int| b <= j < s.len() ==> spec_is_whitespace(#[trigger] s[j]),
        b == 0 || !spec_is_whitespace(s[b - 1]),
    ensures
        trim_end(s) == s.take(b),
    decreases s.len() - b,
{
    if b < s.len() {
        assert(spec_is_whitespace(s.last()));
        lemma_trim_end_take(s.drop_last(), b);
        assert(s.drop_last().take(b) =~= s.take(b));
    } else {
        assert(s.take(b) =~= s);
    }
}

/// `s` without leading and trailing white space.
pub fn trim_chars(s: &[char]) -> (t: Vec<char>)
    ensures
        t@ == trim(s@),
{
    let n = s.len();
    let mut a: usize = 0;
    while a < n && is_whitespace(s[a])
        invariant
            n == s@.len(),
            a <= n,
            forall|j: int| 0 <= j < a ==> spec_is_whitespace(#[trigger] s@[j]),
        decreases n - a,
    {
        a = a + 1;
    }
    proof {
        lemma_trim_start_skip(s@, a as int);
    }
    let ghost rest = s@.skip(a as int);
    let mut b: usize = n;
    while b > a && is_whitespace(s[b - 1])
        invariant
            n == s@.len(),
            a <= b <= n,
            rest == s@.skip(a as int),
            forall|j: int| b <= j < n ==> spec_is_whitespace(#[trigger] s@[j]),
        decreases b - a,
    {
        b = b - 1;
    }
    proof {
        assert forall|j: int| b - a <= j < rest.len() implies spec_is_whitespace(#[trigger] rest[j]) by {
            assert(rest[j] == s@[j + a]);
        }
        if b > a {
            assert(rest[b - a - 1] == s@[b - 1]);
        }
        lemma_trim_end_take(rest, b - a);
        assert(rest.take(b - a) =~= s@.subrange(a as int, b as int));
    }
    copy_range(s, a, b)
}

/// Whether `k` is the index of the first `'\n'` of `s`.
pub open spec fn is_first_newline(s: Seq<char>, k: int) -> bool {
    &&& 0 <= k < s.len()
    &&& s[k] == '\n'
    &&& forall|j: int| 0 <= j < k ==> s[j] != '\n'
}

/// A line ended by `'\n'` loses a final `'\r'` (a `\r\n` ending).
pub open spec fn strip_carriage_return(line: Seq<char>) -> Seq<char> {
    if line.len() > 0 && line.last() == '\r' {
        line.drop_last()
    } else {
        line
    }
}

/// The lines of `s` as `str::lines` yields them: split at `'\n'`, a `'\r'`
/// before the `'\n'` dropped, no empty line after a final line ending.
pub open spec fn lines(s: Seq<char>) -> Seq<Seq<char>>
    decreases s.len(),
{
    if s.len() == 0 {
        Seq::empty()
    } else if exists|k: int| is_first_newline(s, k) {
        let k = choose|k: int| is_first_newline(s, k);
        seq![strip_carriage_return(s.take(k))] + lines(s.skip(k + 1))
    } else {
        seq![s]
    }
}

proof fn lemma_first_newline_unique(s: Seq<char>, k1: int, k2: int)
    requires
        is_first_newline(s, k1),
        is_first_newline(s, k2),
    ensures
        k1 == k2,
{
    if k1 < k2 {
        assert(s[k1] != '\n');
    }
    if k2 < k1 {
        assert(s[k2] != '\n');
    }
}

/// Splits `s` into lines with the meaning of `str::lines`.
pub fn split_lines(s: &[char]) -> (result: Vec<Vec<char>>)
    ensures
        result@.len() == lines(s@).len(),
        forall|i: int| 0 <= i < result@.len() ==> #[trigger] result@[i]@ == lines(s@)[i],
{
    let n = s.len();
    let mut result: Vec<Vec<char>> = Vec::new();
    let mut start: usize = 0;
    assert(s@.skip(0) =~= s@);
    while start < n
        invariant
            n == s@.len(),
            start <= n,
            result@.len() + lines(s@.skip(start as int)).len() == lines(s@).len(),
            forall|i: int| 0 <= i < result@.len() ==> #[trigger] result@[i]@ == lines(s@)[i],
            forall|i: int|
                0 <= i < lines(s@.skip(start as int)).len() ==> lines(s@)[result@.len() + i] == #[trigger] lines(
                    s@.skip(start as int),
                )[i],
        decreases n - start,
    {
        let ghost rest = s@.skip(start as int);
        let mut k: usize = start;
        while k < n && s[k] != '\n'
            invariant
                n == s@.len(),
                start <= k <= n,
                forall|j: int| start <= j < k ==> s@[j] != '\n',
            decreases n - k,
        {
            k = k + 1;
        }
        if k < n {
            proof {
                assert(is_first_newline(rest, k - start));
                lemma_first_newline_unique(rest, k - start, choose|j: int| is_first_newline(rest, j));
                assert(rest.skip(k - start + 1) =~= s@.skip(k + 1));
                assert(rest.take(k - start) =~= s@.subrange(start as int, k as int));
            }
            let mut line = copy_range(s, start, k);
            if line.len() > 0 && line[line.len() - 1] == '\r' {
                line.pop();
            }
            proof {
                assert(line@ == lines(rest)[0]);
                assert forall|i: int| 0 <= i < lines(s@.skip(k + 1)).len() implies lines(s@)[result@.len() + 1 + i]
                    == #[trigger] lines(s@.skip(k + 1))[i] by {
                    assert(lines(rest)[i + 1] == lines(s@.skip(k + 1))[i]);
                }
            }
            result.push(line);
            start = k + 1;
        } else {
            proof {
                assert forall|j: int| !is_first_newline(rest, j) by {
                    if is_first_newline(rest, j) {
                        assert(rest[j] == s@[start + j]);
                    }
                }
                assert(rest =~= s@.subrange(start as int, n as int));
            }
            let line = copy_range(s, start, n);
            proof {
                assert(line@ == lines(rest)[0]);
                assert(s@.skip(n as int) =~= Seq::<char>::empty());
            }
            result.push(line);
            start = n;
        }
    }
    proof {
        assert(s@.skip(n as int) =~= Seq::<char>::empty());
    }
    result
}

/// Whether `k` is the index of the first occurrence of `c` in `s`.
pub open spec fn is_first_of(s: Seq<char>, c: char, k: int) -> bool {
    &&& 0 <= k < s.len()
    &&& s[k] == c
    &&& forall|j: int| 0 <= j < k ==> s[j] != c
}

/// `s` split around the first `c` (`str::split_once`).
pub open spec fn split_once(s: Seq<char>, c: char) -> Option<(Seq<char>, Seq<char>)> {
    if exists|k: int| is_first_of(s, c, k) {
        let k = choose|k: int| is_first_of(s, c, k);
        Some((s.take(k), s.skip(k + 1)))
    } else {
        None
    }
}

/// Splits `s` around the first occurrence of `c`.
pub fn split_once_chars(s: &[char], c: char) -> (parts: Option<(Vec<char>, Vec<char>)>)
    ensures
        match split_once(s@, c) {
            Some((before, after)) => parts matches Some((b, a)) && b@ == before && a@ == after,
            None => parts is None,
        },
{
    let n = s.len();
    let mut k: usize = 0;
    while k < n && s[k] != c
        invariant
            n == s@.len(),
            k <= n,
            forall|j: int| 0 <= j < k ==> s@[j] != c,
        decreases n - k,
    {
        k = k + 1;
    }
    if k < n {
        proof {
            assert(is_first_of(s@, c, k as int));
            let other = choose|j: int| is_first_of(s@, c, j);
            if other < k {
                assert(s@[other] != c);
            }
            if k < other {
                assert(s@[k as int] != c);
            }
        }
        let before = copy_range(s, 0, k);
        let after = copy_range(s, k + 1, n);
        assert(before@ =~= s@.take(k as int));
        assert(after@ =~= s@.skip(k + 1));
        Some((before, after))
    } else {
        assert forall|j: int| !is_first_of(s@, c, j) by {
            if is_first_of(s@, c, j) {
                assert(s@[j] == c);
            }
        }
        None
    }
}

} // verus!
