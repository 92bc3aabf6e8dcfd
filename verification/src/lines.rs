//! Texts made of lines, and which lines stand in them.

use vstd::prelude::*;

verus! {

/// One line: it ends in a line break and holds no other.
pub open spec fn is_line(w: Seq<char>) -> bool {
    &&& w.len() > 0
    &&& w.last() == '\n'
    &&& forall|i: int| 0 <= i < w.len() - 1 ==> #[trigger] w[i] != '\n'
}

/// A text that fits on a line.
pub open spec fn fits(s: Seq<char>) -> bool {
    forall|i: int| 0 <= i < s.len() ==> #[trigger] s[i] != '\n'
}

/// What comes behind a text begins a line.
pub open spec fn ends_line(s: Seq<char>) -> bool {
    s.len() == 0 || s.last() == '\n'
}

/// A line of `s` is `w`.
pub open spec fn has_line(s: Seq<char>, w: Seq<char>) -> bool {
    exists|i: int|
        0 <= i && i + w.len() <= s.len() && (i == 0 || s[i - 1] == '\n') && #[trigger] s.subrange(
            i,
            i + w.len(),
        ) == w
}

/// The lines of two texts put together are those of the first and those of the second.
pub proof fn lemma_joined(a: Seq<char>, b: Seq<char>, w: Seq<char>)
    requires
        ends_line(a),
        is_line(w),
    ensures
        has_line(a + b, w) <==> has_line(a, w) || has_line(b, w),
        ends_line(b) ==> ends_line(a + b),
{
    let s = a + b;
    let n = w.len() as int;
    if has_line(a, w) {
        let i = choose|i: int|
            0 <= i && i + n <= a.len() && (i == 0 || a[i - 1] == '\n') && #[trigger] a.subrange(
                i,
                i + n,
            ) == w;
        assert(s.subrange(i, i + n) =~= a.subrange(i, i + n));
    }
    if has_line(b, w) {
        let i = choose|i: int|
            0 <= i && i + n <= b.len() && (i == 0 || b[i - 1] == '\n') && #[trigger] b.subrange(
                i,
                i + n,
            ) == w;
        let j = a.len() + i;
        assert(s.subrange(j, j + n) =~= b.subrange(i, i + n));
        assert(j == 0 || s[j - 1] == '\n');
    }
    if has_line(s, w) {
        let i = choose|i: int|
            0 <= i && i + n <= s.len() && (i == 0 || s[i - 1] == '\n') && #[trigger] s.subrange(
                i,
                i + n,
            ) == w;
        if i >= a.len() {
            let j = i - a.len();
            assert(b.subrange(j, j + n) =~= s.subrange(i, i + n));
            assert(has_line(b, w));
        } else {
            let last = a.len() - 1;
            assert(s[last] == '\n');
            if i + n > a.len() {
                assert(w[last - i] == s.subrange(i, i + n)[last - i]);
                assert(w[last - i] == '\n');
                assert(false);
            }
            assert(a.subrange(i, i + n) =~= s.subrange(i, i + n));
        }
    }
}

/// The one line of a line is itself.
pub proof fn lemma_one_line(x: Seq<char>, w: Seq<char>)
    requires
        is_line(x),
        is_line(w),
    ensures
        has_line(x, w) <==> x == w,
{
    let n = w.len() as int;
    if has_line(x, w) {
        let i = choose|i: int|
            0 <= i && i + n <= x.len() && (i == 0 || x[i - 1] == '\n') && #[trigger] x.subrange(
                i,
                i + n,
            ) == w;
        assert(i == 0);
        assert(w[n - 1] == x[n - 1]);
        assert(n == x.len());
        assert(x.subrange(0, n) =~= x);
    }
    if x == w {
        let i: int = 0;
        assert(x.subrange(i, i + w.len()) =~= w);
    }
}

/// An empty text has no lines.
pub proof fn lemma_no_lines(w: Seq<char>)
    requires
        is_line(w),
    ensures
        !has_line(Seq::empty(), w),
{
}

} // verus!
