//! Character-level helpers shared by the manifest reader, the planners and
//! the page scanner: conversions between strings and character vectors,
//! searching, and line splitting.

use vstd::prelude::*;

verus! {

/// `p` occurs in `s` starting at position `i`.
pub open spec fn occurs_at(s: Seq<char>, p: Seq<char>, i: int) -> bool {
    0 <= i && i + p.len() <= s.len() && s.subrange(i, i + p.len()) == p
}

/// `i` is the position of the leftmost occurrence of `p` in `s`.
pub open spec fn is_first_occurrence(s: Seq<char>, p: Seq<char>, i: int) -> bool {
    occurs_at(s, p, i) && forall|j: int| 0 <= j < i ==> !occurs_at(s, p, j)
}

/// Position of the leftmost occurrence of `p` in `s`, if there is one.
pub open spec fn find(s: Seq<char>, p: Seq<char>) -> Option<int> {
    if exists|i: int| occurs_at(s, p, i) {
        Some(choose|i: int| is_first_occurrence(s, p, i))
    } else {
        None
    }
}

/// `i` is the position of the rightmost `c` in `s`.
pub open spec fn is_last_index(s: Seq<char>, c: char, i: int) -> bool {
    0 <= i < s.len() && s[i] == c && forall|j: int| i < j < s.len() ==> s[j] != c
}

/// Position of the rightmost `c` in `s`, if there is one.
pub open spec fn rfind_char(s: Seq<char>, c: char) -> Option<int> {
    if exists|i: int| 0 <= i < s.len() && s[i] == c {
        Some(choose|i: int| is_last_index(s, c, i))
    } else {
        None
    }
}

/// A leftmost occurrence is the one `find` reports.
pub proof fn lemma_find_some(s: Seq<char>, p: Seq<char>, i: int)
    requires
        is_first_occurrence(s, p, i),
    ensures
        find(s, p) == Some(i),
{
    let k = choose|k: int| is_first_occurrence(s, p, k);
    assert(is_first_occurrence(s, p, k));
    if k < i {
        assert(!occurs_at(s, p, k));
    }
    if i < k {
        assert(!occurs_at(s, p, i));
    }
}

/// Whatever `find` reports is a leftmost occurrence.
pub proof fn lemma_find_is_first(s: Seq<char>, p: Seq<char>)
    ensures
        match find(s, p) {
            Some(i) => is_first_occurrence(s, p, i),
            None => forall|j: int| !occurs_at(s, p, j),
        },
{
    if exists|i: int| occurs_at(s, p, i) {
        let w = choose|i: int| occurs_at(s, p, i);
        lemma_least_occurrence(s, p, w);
    }
}

/// If `p` occurs at `w`, some position at or before `w` is the leftmost one.
proof fn lemma_least_occurrence(s: Seq<char>, p: Seq<char>, w: int)
    requires
        occurs_at(s, p, w),
    ensures
        exists|i: int| is_first_occurrence(s, p, i),
    decreases w,
{
    if exists|j: int| 0 <= j < w && occurs_at(s, p, j) {
        let j = choose|j: int| 0 <= j < w && occurs_at(s, p, j);
        lemma_least_occurrence(s, p, j);
    } else {
        assert(is_first_occurrence(s, p, w));
    }
}

/// A rightmost position is the one `rfind_char` reports.
pub proof fn lemma_rfind_some(s: Seq<char>, c: char, i: int)
    requires
        is_last_index(s, c, i),
    ensures
        rfind_char(s, c) == Some(i),
{
    let k = choose|k: int| is_last_index(s, c, k);
    assert(is_last_index(s, c, k));
}

/// The characters of `s`, in order.
pub fn chars_of(s: &str) -> (v: Vec<char>)
    ensures
        v@ == s@,
{
    let mut v: Vec<char> = Vec::new();
    for c in it: s.chars()
        invariant
            it.seq() == s@,
            v@ == it.seq().take(it.index() as int),
    {
        v.push(c);
    }
    v
}

/// Builds a `String` from its characters with the standard library's
/// `FromIterator<char>` for `String`: the string holds exactly the
/// characters of `v`, in order.
#[verifier::external_body]
pub(crate) fn string_of(v: &Vec<char>) -> (s: String)
    ensures
        s@ == v@,
{
    v.iter().collect()
}

/// Copy of the characters of `v` from position `from` up to, not including, `to`.
pub fn slice_of(v: &Vec<char>, from: usize, to: usize) -> (r: Vec<char>)
    requires
        from <= to <= v.len(),
    ensures
        r@ == v@.subrange(from as int, to as int),
{
    let mut r: Vec<char> = Vec::new();
    let mut i: usize = from;
    while i < to
        invariant
            from <= i <= to <= v.len(),
            r@ == v@.subrange(from as int, i as int),
        decreases to - i,
    {
        r.push(v[i]);
        i += 1;
    }
    r
}

/// `a` followed by `b`.
pub fn join(a: &Vec<char>, b: &Vec<char>) -> (r: Vec<char>)
    ensures
        r@ == a@ + b@,
{
    let mut r: Vec<char> = Vec::new();
    let mut i: usize = 0;
    while i < a.len()
        invariant
            i <= a.len(),
            r@ == a@.take(i as int),
        decreases a.len() - i,
    {
        r.push(a[i]);
        i += 1;
    }
    let mut j: usize = 0;
    while j < b.len()
        invariant
            j <= b.len(),
            r@ == a@ + b@.take(j as int),
        decreases b.len() - j,
    {
        r.push(b[j]);
        j += 1;
    }
    r
}

/// Whether `p` occurs in `s` at position `i`.
pub fn matches_at(s: &Vec<char>, p: &Vec<char>, i: usize) -> (r: bool)
    ensures
        r == occurs_at(s@, p@, i as int),
{
    if p.len() > s.len() || i > s.len() - p.len() {
        return false;
    }
    let mut k: usize = 0;
    while k < p.len()
        invariant
            k <= p.len(),
            i + p.len() <= s.len(),
            forall|j: int| 0 <= j < k ==> s@[i + j] == p@[j],
        decreases p.len() - k,
    {
        if s[i + k] != p[k] {
            proof {
                let sub = s@.subrange(i as int, i + p.len());
                assert(sub[k as int] == s@[i + k]);
            }
            return false;
        }
        k += 1;
    }
    assert(s@.subrange(i as int, i + p.len()) =~= p@);
    true
}

/// Whether `s` begins with `p`.
pub fn starts_with(s: &Vec<char>, p: &Vec<char>) -> (r: bool)
    ensures
        r == occurs_at(s@, p@, 0),
{
    matches_at(s, p, 0)
}

/// Position of the leftmost occurrence of `p` in `s`.
pub fn find_in(s: &Vec<char>, p: &Vec<char>) -> (r: Option<usize>)
    ensures
        match r {
            Some(i) => find(s@, p@) == Some(i as int) && is_first_occurrence(s@, p@, i as int),
            None => find(s@, p@) is None && forall|j: int| !occurs_at(s@, p@, j),
        },
{
    if p.len() > s.len() {
        return None;
    }
    let last: usize = s.len() - p.len();
    let mut i: usize = 0;
    loop
        invariant
            i <= last,
            last == s.len() - p.len(),
            forall|j: int| 0 <= j < i ==> !occurs_at(s@, p@, j),
        decreases last - i,
    {
        if matches_at(s, p, i) {
            proof {
                lemma_find_some(s@, p@, i as int);
            }
            return Some(i);
        }
        if i == last {
            return None;
        }
        i += 1;
    }
}

/// Position of the rightmost `c` in `s`.
pub fn rfind_in(s: &Vec<char>, c: char) -> (r: Option<usize>)
    ensures
        match r {
            Some(i) => rfind_char(s@, c) == Some(i as int) && is_last_index(s@, c, i as int),
            None => rfind_char(s@, c) is None && forall|j: int| 0 <= j < s.len() ==> s@[j] != c,
        },
{
    let mut i: usize = s.len();
    while i > 0
        invariant
            i <= s.len(),
            forall|j: int| i <= j < s.len() ==> s@[j] != c,
        decreases i,
    {
        i -= 1;
        if s[i] == c {
            proof {
                lemma_rfind_some(s@, c, i as int);
            }
            return Some(i);
        }
    }
    None
}

/// What follows the rightmost `c` in `s`; all of `s` where it holds no `c`.
pub open spec fn after_last(s: Seq<char>, c: char) -> Seq<char> {
    match rfind_char(s, c) {
        Some(i) => s.skip(i + 1),
        None => s,
    }
}

/// `s` up to and including its rightmost `c`, if it holds one.
pub open spec fn through_last(s: Seq<char>, c: char) -> Option<Seq<char>> {
    match rfind_char(s, c) {
        Some(i) => Some(s.take(i + 1)),
        None => None,
    }
}

/// What follows the rightmost `c` in `s`; all of `s` where it holds no `c`.
pub fn tail_after(s: &Vec<char>, c: char) -> (r: Vec<char>)
    ensures
        r@ == after_last(s@, c),
{
    match rfind_in(s, c) {
        Some(i) => {
            assert(i < s.len());
            let r = slice_of(s, i + 1, s.len());
            assert(r@ =~= s@.skip(i + 1));
            r
        },
        None => {
            let r = slice_of(s, 0, s.len());
            assert(r@ =~= s@);
            r
        },
    }
}

/// `s` up to and including its rightmost `c`, if it holds one.
pub fn head_through(s: &Vec<char>, c: char) -> (r: Option<Vec<char>>)
    ensures
        match r {
            Some(h) => through_last(s@, c) == Some(h@),
            None => through_last(s@, c) is None,
        },
{
    match rfind_in(s, c) {
        Some(i) => {
            assert(i < s.len());
            let r = slice_of(s, 0, i + 1);
            assert(r@ =~= s@.take(i + 1));
            Some(r)
        },
        None => None,
    }
}

/// The line feed as a one-character pattern.
pub open spec fn newline() -> Seq<char> {
    seq!['\n']
}

/// A line without the carriage return that may end it.
pub open spec fn strip_cr(l: Seq<char>) -> Seq<char> {
    if l.len() > 0 && l.last() == '\r' {
        l.drop_last()
    } else {
        l
    }
}

/// The lines of a document. A line ends at a line feed, or at a carriage
/// return directly followed by a line feed; neither belongs to the line. The
/// last line needs no line ending, and a document that ends with a line
/// ending has no empty line after it.
pub open spec fn lines(s: Seq<char>) -> Seq<Seq<char>>
    decreases s.len(),
{
    if s.len() == 0 {
        Seq::empty()
    } else {
        match find(s, newline()) {
            None => seq![s],
            Some(n) => {
                proof {
                    lemma_find_is_first(s, newline());
                }
                seq![strip_cr(s.take(n))] + lines(s.skip(n + 1))
            },
        }
    }
}

/// The views of the elements of `v`.
pub open spec fn views(v: Seq<Vec<char>>) -> Seq<Seq<char>> {
    v.map_values(|l: Vec<char>| l@)
}

/// Splits a document into its lines.
pub fn split_lines(text: &Vec<char>) -> (out: Vec<Vec<char>>)
    ensures
        views(out@) == lines(text@),
{
    let mut out: Vec<Vec<char>> = Vec::new();
    let mut pos: usize = 0;
    assert(text@.skip(0) =~= text@);
    assert(views(out@) =~= Seq::<Seq<char>>::empty());
    while pos < text.len()
        invariant
            pos <= text.len(),
            lines(text@) == views(out@) + lines(text@.skip(pos as int)),
        decreases text.len() - pos,
    {
        let ghost rest = text@.skip(pos as int);
        let ghost before = views(out@);
        let mut e: usize = pos;
        while e < text.len() && text[e] != '\n'
            invariant
                pos <= e <= text.len(),
                forall|j: int| pos <= j < e ==> text@[j] != '\n',
            decreases text.len() - e,
        {
            e += 1;
        }
        assert forall|j: int| 0 <= j < e - pos implies !occurs_at(rest, newline(), j) by {
            if occurs_at(rest, newline(), j) {
                assert(rest.subrange(j, j + 1)[0] == newline()[0]);
            }
        }
        if e == text.len() {
            let line = slice_of(text, pos, e);
            proof {
                assert forall|j: int| !occurs_at(rest, newline(), j) by {
                    if occurs_at(rest, newline(), j) {
                        assert(rest.subrange(j, j + 1)[0] == newline()[0]);
                    }
                }
                assert(find(rest, newline()) is None);
                assert(line@ =~= rest);
                assert(lines(rest) =~= seq![rest]);
            }
            out.push(line);
            pos = e;
            proof {
                assert(text@.skip(pos as int) =~= Seq::<char>::empty());
                assert(views(out@) =~= before + seq![rest]);
            }
        } else {
            let mut end: usize = e;
            if e > pos && text[e - 1] == '\r' {
                end = e - 1;
            }
            let line = slice_of(text, pos, end);
            proof {
                assert(rest.subrange(e - pos, e - pos + 1) =~= newline());
                lemma_find_some(rest, newline(), e - pos);
                assert(rest.take(e - pos) =~= text@.subrange(pos as int, e as int));
                assert(line@ =~= strip_cr(rest.take(e - pos)));
                assert(rest.skip(e - pos + 1) =~= text@.skip(e + 1));
            }
            out.push(line);
            pos = e + 1;
            proof {
                assert(views(out@) =~= before + seq![line@]);
            }
        }
    }
    proof {
        assert(text@.skip(pos as int) =~= Seq::<char>::empty());
    }
    out
}

} // verus!
