use vstd::prelude::*;

use crate::strings::byte_offset;

verus! {

/// Whether the character at index `j` of `s` ends a line: a line feed, or a
/// carriage return that is not followed by a line feed.
pub open spec fn is_line_end(s: Seq<char>, j: int) -> bool {
    &&& 0 <= j < s.len()
    &&& (s[j] == '\n' || (s[j] == '\r' && (j + 1 == s.len() || s[j + 1] != '\n')))
}

/// Whether a line of `s` starts at character index `i`.
pub open spec fn is_line_start(s: Seq<char>, i: int) -> bool {
    i == 0 || is_line_end(s, i - 1)
}

/// `idx` lists, in increasing order, exactly the character indices at which
/// the lines of `s` start.
pub open spec fn valid_line_starts(s: Seq<char>, idx: Seq<int>) -> bool {
    &&& idx.len() >= 1
    &&& idx[0] == 0
    &&& forall|a: int, b: int| 0 <= a < b < idx.len() ==> idx[a] < idx[b]
    &&& forall|a: int|
        0 <= a < idx.len() ==> 0 <= #[trigger] idx[a] <= s.len() && is_line_start(s, idx[a])
    &&& forall|i: int| 0 <= i <= s.len() && #[trigger] is_line_start(s, i) ==> idx.contains(i)
}

/// Whether the byte offset `b` falls on a character boundary of `s`.
pub open spec fn is_boundary(s: Seq<char>, b: int) -> bool {
    exists|i: int| 0 <= i <= s.len() && #[trigger] byte_offset(s, i) == b
}

/// The line starts found after reading the first `k` characters of `s`: a
/// line feed starts a line right after it, and a carriage return starts one
/// once the next character is known not to be a line feed.
pub open spec fn scanned_line_starts(s: Seq<char>, k: int) -> Seq<int>
    decreases k,
{
    if k <= 0 {
        seq![0int]
    } else {
        let prev = scanned_line_starts(s, k - 1);
        let j = k - 1;
        if s[j] == '\n' {
            prev.push(k)
        } else if j > 0 && s[j - 1] == '\r' {
            prev.push(j)
        } else {
            prev
        }
    }
}

/// The line starts of all of `s`, once reading has reached its end.
pub open spec fn final_line_starts(s: Seq<char>) -> Seq<int> {
    let n = s.len() as int;
    if n > 0 && s[n - 1] == '\r' {
        scanned_line_starts(s, n).push(n)
    } else {
        scanned_line_starts(s, n)
    }
}

pub proof fn lemma_scanned_line_starts(s: Seq<char>, k: int)
    requires
        0 <= k <= s.len(),
    ensures
        ({
            let sc = scanned_line_starts(s, k);
            &&& sc.len() >= 1
            &&& sc[0] == 0
            &&& forall|a: int, b: int| 0 <= a < b < sc.len() ==> sc[a] < sc[b]
            &&& forall|a: int|
                0 <= a < sc.len() ==> 0 <= #[trigger] sc[a] <= k && is_line_start(s, sc[a])
            &&& forall|i: int| 0 <= i < k && #[trigger] is_line_start(s, i) ==> sc.contains(i)
            &&& sc.last() == k ==> (k == 0 || s[k - 1] == '\n')
            &&& (k > 0 && s[k - 1] == '\n') ==> sc.last() == k
        }),
    decreases k,
{
    if k > 0 {
        lemma_scanned_line_starts(s, k - 1);
        let prev = scanned_line_starts(s, k - 1);
        let sc = scanned_line_starts(s, k);
        let j = k - 1;
        assert forall|i: int| 0 <= i < k && #[trigger] is_line_start(s, i) implies sc.contains(
            i,
        ) by {
            if i < k - 1 {
                let a = choose|a: int| 0 <= a < prev.len() && prev[a] == i;
                assert(sc[a] == i);
            } else {
                // i == k - 1
                if i == 0 {
                    assert(sc[0] == 0);
                } else if s[i - 1] == '\n' {
                    assert(prev.last() == i);
                    assert(sc[prev.len() - 1] == i);
                } else {
                    assert(s[i - 1] == '\r');
                    assert(s[i] != '\n');
                    assert(sc.last() == i);
                }
            }
        }
        if s[j] == '\n' {
            assert(is_line_end(s, j));
        } else if j > 0 && s[j - 1] == '\r' {
            assert(is_line_end(s, j - 1));
        }
    }
}

pub proof fn lemma_final_line_starts(s: Seq<char>)
    ensures
        valid_line_starts(s, final_line_starts(s)),
{
    let n = s.len() as int;
    lemma_scanned_line_starts(s, n);
    let sc = scanned_line_starts(s, n);
    let f = final_line_starts(s);
    assert forall|i: int| 0 <= i <= n && #[trigger] is_line_start(s, i) implies f.contains(i) by {
        if i < n {
            let a = choose|a: int| 0 <= a < sc.len() && sc[a] == i;
            assert(f[a] == i);
        } else if i == 0 {
            assert(f[0] == 0);
        } else if s[i - 1] == '\n' {
            assert(f[sc.len() - 1] == i);
        } else {
            assert(f.last() == i);
        }
    }
    if n > 0 && s[n - 1] == '\r' {
        assert(is_line_end(s, n - 1));
    }
}

} // verus!
