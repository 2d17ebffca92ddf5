//! Splitting the text of a datagram: at the first occurrence of a byte, and into lines.

use vstd::prelude::*;
use vstd::slice::slice_subrange;

verus! {

/// The position of the first `c` in `s`, if `c` occurs.
pub open spec fn index_of(s: Seq<u8>, c: u8) -> Option<int>
    decreases s.len(),
{
    if s.len() == 0 {
        None
    } else if s[0] == c {
        Some(0)
    } else {
        match index_of(s.drop_first(), c) {
            Some(i) => Some(i + 1),
            None => None,
        }
    }
}

/// `index_of` finds the first occurrence, and finds none only where there is none.
pub proof fn lemma_index_of(s: Seq<u8>, c: u8)
    ensures
        match index_of(s, c) {
            Some(i) => 0 <= i < s.len() && s[i] == c && forall|j: int| 0 <= j < i ==> s[j] != c,
            None => forall|j: int| 0 <= j < s.len() ==> s[j] != c,
        },
    decreases s.len(),
{
    if s.len() > 0 && s[0] != c {
        let t = s.drop_first();
        lemma_index_of(t, c);
        match index_of(t, c) {
            Some(i) => {
                assert forall|j: int| 0 <= j < i + 1 implies s[j] != c by {
                    if j > 0 {
                        assert(s[j] == t[j - 1]);
                    }
                }
            },
            None => {
                assert forall|j: int| 0 <= j < s.len() implies s[j] != c by {
                    if j > 0 {
                        assert(s[j] == t[j - 1]);
                    }
                }
            },
        }
    }
}

/// What `str::split_once` gives for a one-byte delimiter `c`: the text before
/// the first `c` and the text after it.
pub open spec fn split_once(s: Seq<u8>, c: u8) -> Option<(Seq<u8>, Seq<u8>)> {
    match index_of(s, c) {
        Some(i) => Some((s.take(i), s.skip(i + 1))),
        None => None,
    }
}

/// Splitting `a + [c] + b` at the first `c` gives `a` and `b` where `a` holds no `c`.
pub proof fn lemma_split_once_concat(a: Seq<u8>, c: u8, b: Seq<u8>)
    requires
        forall|i: int| 0 <= i < a.len() ==> a[i] != c,
    ensures
        split_once(a + seq![c] + b, c) == Some((a, b)),
{
    let s = a + seq![c] + b;
    lemma_index_of(s, c);
    assert(s[a.len() as int] == c);
    match index_of(s, c) {
        Some(i) => {
            if i < a.len() {
                assert(s[i] == a[i]);
            }
            if i > a.len() {
                assert(s[a.len() as int] != c);
            }
            assert(s.take(i) =~= a);
            assert(s.skip(i + 1) =~= b);
        },
        None => {
            assert(s[a.len() as int] != c);
        },
    }
}

/// A line ends at `\n` or at `\r\n`, and the ending is not part of it; the
/// last line needs no ending; text without any byte holds no line.
pub proof fn lemma_line_endings(l: Seq<u8>, rest: Seq<u8>)
    requires
        forall|i: int| 0 <= i < l.len() ==> l[i] != 10,
    ensures
        next_line(l + seq![13u8, 10u8] + rest) == Some((l, rest)),
        (l.len() == 0 || l.last() != 13) ==> next_line(l + seq![10u8] + rest) == Some((l, rest)),
        l.len() > 0 ==> next_line(l) == Some((l, Seq::<u8>::empty())),
        next_line(Seq::<u8>::empty()) is None,
        lines(l + seq![10u8] + rest) == seq![strip_cr(l)] + lines(rest),
{
    let lc = l + seq![13u8];
    assert forall|i: int| 0 <= i < lc.len() implies lc[i] != 10 by {
        if i < l.len() {
            assert(lc[i] == l[i]);
        }
    }
    assert(l + seq![13u8, 10u8] + rest =~= lc + seq![10u8] + rest);
    lemma_split_once_concat(lc, 10, rest);
    assert(lc.drop_last() =~= l);
    lemma_split_once_concat(l, 10, rest);
    lemma_index_of(l, 10);
    assert((l + seq![10u8] + rest).len() > 0);
}

/// A line without the carriage return of a `\r\n` ending.
pub open spec fn strip_cr(l: Seq<u8>) -> Seq<u8> {
    if l.len() > 0 && l.last() == 13 {
        l.drop_last()
    } else {
        l
    }
}

/// The first line of `s` and the text after it, as `str::lines` reads them:
/// a line ends at `\n` or `\r\n`, the ending is not part of the line, the last
/// line needs no ending, and text without any byte holds no line.
pub open spec fn next_line(s: Seq<u8>) -> Option<(Seq<u8>, Seq<u8>)> {
    if s.len() == 0 {
        None
    } else {
        match split_once(s, 10) {
            Some((l, rest)) => Some((strip_cr(l), rest)),
            None => Some((s, Seq::empty())),
        }
    }
}

/// The lines of `s`, as `str::lines` yields them.
pub open spec fn lines(s: Seq<u8>) -> Seq<Seq<u8>>
    decreases s.len(),
{
    match next_line(s) {
        None => Seq::empty(),
        Some((l, rest)) => {
            proof {
                lemma_index_of(s, 10);
            }
            seq![l] + lines(rest)
        },
    }
}

/// The position of the first `c` in `s`.
pub fn find_byte(s: &[u8], c: u8) -> (r: Option<usize>)
    ensures
        match r {
            Some(i) => index_of(s@, c) == Some(i as int),
            None => index_of(s@, c) is None,
        },
{
    let n = s.len();
    let mut i: usize = 0;
    while i < n
        invariant
            i <= n,
            n == s@.len(),
            forall|j: int| 0 <= j < i ==> s@[j] != c,
        decreases n - i,
    {
        if s[i] == c {
            proof {
                lemma_index_of(s@, c);
                if let Some(k) = index_of(s@, c) {
                    if k > i {
                        assert(s@[i as int] != c);
                    }
                }
            }
            return Some(i);
        }
        i = i + 1;
    }
    proof {
        lemma_index_of(s@, c);
    }
    None
}

/// The text before and after the first `c` in `s`.
pub fn split_once_at<'a>(s: &'a [u8], c: u8) -> (r: Option<(&'a [u8], &'a [u8])>)
    ensures
        match r {
            Some((a, b)) => split_once(s@, c) == Some((a@, b@)),
            None => split_once(s@, c) is None,
        },
{
    match find_byte(s, c) {
        Some(i) => {
            proof {
                lemma_index_of(s@, c);
            }
            let n = s.len();
            assert(i < n);
            let a = slice_subrange(s, 0, i);
            let b = slice_subrange(s, i + 1, n);
            assert(a@ =~= s@.take(i as int));
            assert(b@ =~= s@.skip(i + 1));
            Some((a, b))
        },
        None => None,
    }
}

/// The first line of `s` and the text after it.
pub fn next_line_of<'a>(s: &'a [u8]) -> (r: Option<(&'a [u8], &'a [u8])>)
    ensures
        match r {
            Some((l, rest)) => next_line(s@) == Some((l@, rest@)),
            None => next_line(s@) is None,
        },
{
    if s.len() == 0 {
        return None;
    }
    match split_once_at(s, 10) {
        Some((l, rest)) => {
            let k = l.len();
            if k > 0 && l[k - 1] == 13 {
                let t = slice_subrange(l, 0, k - 1);
                assert(t@ =~= l@.drop_last());
                Some((t, rest))
            } else {
                Some((l, rest))
            }
        },
        None => {
            let e = slice_subrange(s, s.len(), s.len());
            assert(e@ =~= Seq::<u8>::empty());
            Some((s, e))
        },
    }
}

/// Whether `a` and `b` hold the same bytes.
pub fn bytes_equal(a: &[u8], b: &[u8]) -> (r: bool)
    ensures
        r == (a@ == b@),
{
    if a.len() != b.len() {
        return false;
    }
    let n = a.len();
    let mut i: usize = 0;
    while i < n
        invariant
            i <= n,
            n == a@.len(),
            n == b@.len(),
            forall|j: int| 0 <= j < i ==> a@[j] == b@[j],
        decreases n - i,
    {
        if a[i] != b[i] {
            return false;
        }
        i = i + 1;
    }
    assert(a@ =~= b@);
    true
}

} // verus!
