//! Searching, replacing and trimming character sequences, as `str`'s methods do.
use vstd::prelude::*;
use crate::reject::{is_whitespace, spec_is_whitespace};

verus! {

/// `p` occurs in `h` at index `i`.
pub open spec fn occurs_at(h: Seq<char>, p: Seq<char>, i: int) -> bool {
    0 <= i && i + p.len() <= h.len() && h.subrange(i, i + p.len()) == p
}

/// The suffix of `h` from `i` with every occurrence of `p` replaced by `r`, occurrences taken
/// left to right without overlap (what `str::replace` does for a non-empty pattern).
pub open spec fn replace_from(h: Seq<char>, p: Seq<char>, r: Seq<char>, i: int) -> Seq<char>
    decreases h.len() - i,
{
    if i < 0 || i >= h.len() || p.len() == 0 {
        h.skip(i)
    } else if occurs_at(h, p, i) {
        r + replace_from(h, p, r, i + p.len())
    } else {
        seq![h[i]] + replace_from(h, p, r, i + 1)
    }
}

/// `h` with every occurrence of `p` replaced by `r`.
pub open spec fn replace_all(h: Seq<char>, p: Seq<char>, r: Seq<char>) -> Seq<char> {
    replace_from(h, p, r, 0)
}

/// Every occurrence of `p` in `h` replaced by `r`, left to right without overlap.
pub fn replace_chars(h: &Vec<char>, p: &Vec<char>, r: &Vec<char>) -> (out: Vec<char>)
    requires
        p@.len() > 0,
    ensures
        out@ == replace_all(h@, p@, r@),
{
    let mut out: Vec<char> = Vec::new();
    let mut i: usize = 0;
    while i < h.len()
        invariant
            p@.len() > 0,
            i <= h@.len(),
            out@ + replace_from(h@, p@, r@, i as int) == replace_all(h@, p@, r@),
        decreases h@.len() - i,
    {
        let hl = h.len();
        let mut matched = p.len() <= hl - i;
        let mut k: usize = 0;
        while matched && k < p.len()
            invariant
                hl == h@.len(),
                i <= h@.len(),
                matched ==> i + p@.len() <= h@.len(),
                k <= p@.len(),
                matched ==> forall|q: int| 0 <= q < k ==> h@[i + q] == p@[q],
                !matched ==> (i + p@.len() > h@.len() || exists|q: int| 0 <= q < p@.len() && i + q < h@.len() && h@[i + q] != p@[q]),
            decreases p@.len() - k,
        {
            assert(i + k < h@.len());
            if h[i + k] != p[k] {
                matched = false;
            }
            k += 1;
        }
        if matched {
            proof {
                assert(h@.subrange(i as int, i + p@.len()) =~= p@);
            }
            let ghost before = out@;
            let mut t: usize = 0;
            while t < r.len()
                invariant
                    t <= r@.len(),
                    out@ == before + r@.take(t as int),
                decreases r@.len() - t,
            {
                out.push(r[t]);
                t += 1;
                proof {
                    assert(out@ =~= before + r@.take(t as int));
                }
            }
            proof {
                assert(r@.take(r@.len() as int) =~= r@);
                assert(before + (r@ + replace_from(h@, p@, r@, i + p@.len())) =~= out@ + replace_from(h@, p@, r@, i + p@.len()));
            }
            i = i + p.len();
        } else {
            proof {
                if i + p@.len() <= h@.len() {
                    assert(!occurs_at(h@, p@, i as int)) by {
                        if occurs_at(h@, p@, i as int) {
                            let q = choose|q: int| 0 <= q < p@.len() && i + q < h@.len() && h@[i + q] != p@[q];
                            assert(h@.subrange(i as int, i + p@.len())[q] == h@[i + q]);
                        }
                    }
                }
                let ghost before = out@;
                assert(before + (seq![h@[i as int]] + replace_from(h@, p@, r@, i + 1)) =~= before.push(h@[i as int]) + replace_from(h@, p@, r@, i + 1));
            }
            out.push(h[i]);
            i = i + 1;
        }
    }
    proof {
        assert(h@.skip(i as int) =~= Seq::<char>::empty());
        assert(out@ + Seq::<char>::empty() =~= out@);
    }
    out
}

/// The first index from `i` on where `p` occurs in `h`.
pub open spec fn first_from(h: Seq<char>, p: Seq<char>, i: int) -> Option<int>
    decreases h.len() + 1 - i,
{
    if i < 0 || i + p.len() > h.len() {
        None
    } else if occurs_at(h, p, i) {
        Some(i)
    } else {
        first_from(h, p, i + 1)
    }
}

/// The first index where `p` occurs in `h` (`str::find`).
pub open spec fn find(h: Seq<char>, p: Seq<char>) -> Option<int> {
    first_from(h, p, 0)
}

/// The last index at or below `i` where `p` occurs in `h`.
pub open spec fn last_from(h: Seq<char>, p: Seq<char>, i: int) -> Option<int>
    decreases i + 1,
{
    if i < 0 {
        None
    } else if occurs_at(h, p, i) {
        Some(i)
    } else {
        last_from(h, p, i - 1)
    }
}

/// The last index where `p` occurs in `h` (`str::rfind`).
pub open spec fn rfind(h: Seq<char>, p: Seq<char>) -> Option<int> {
    last_from(h, p, h.len() - p.len())
}

/// Whether `p` occurs in `h` (`str::contains`).
pub open spec fn contains(h: Seq<char>, p: Seq<char>) -> bool {
    find(h, p) is Some
}

/// Whether `p` occurs in `h` at index `i`.
pub fn matches_at(h: &Vec<char>, p: &Vec<char>, i: usize) -> (r: bool)
    requires
        i + p@.len() <= h@.len(),
    ensures
        r == occurs_at(h@, p@, i as int),
{
    let mut k: usize = 0;
    while k < p.len()
        invariant
            i + p@.len() <= h@.len(),
            k <= p@.len(),
            forall|q: int| 0 <= q < k ==> h@[i + q] == p@[q],
        decreases p@.len() - k,
    {
        assert(i + k < h.len());
        if h[i + k] != p[k] {
            proof {
                assert(h@.subrange(i as int, i + p@.len())[k as int] != p@[k as int]);
            }
            return false;
        }
        k += 1;
    }
    proof {
        assert(h@.subrange(i as int, i + p@.len()) =~= p@);
    }
    true
}

/// `str::find`: the first index where `p` occurs in `h`.
pub fn find_chars(h: &Vec<char>, p: &Vec<char>) -> (r: Option<usize>)
    ensures
        r matches Some(i) ==> find(h@, p@) == Some(i as int) && i + p@.len() <= h@.len(),
        r is None ==> find(h@, p@) is None,
{
    if p.len() > h.len() {
        return None;
    }
    let last: usize = h.len() - p.len();
    let mut i: usize = 0;
    loop
        invariant
            p@.len() <= h@.len(),
            last == h@.len() - p@.len(),
            i <= last,
            first_from(h@, p@, 0) == first_from(h@, p@, i as int),
        decreases last - i,
    {
        if matches_at(h, p, i) {
            return Some(i);
        }
        if i == last {
            proof {
                assert(first_from(h@, p@, i + 1) is None);
            }
            return None;
        }
        i += 1;
    }
}

/// `str::rfind`: the last index where `p` occurs in `h`.
pub fn rfind_chars(h: &Vec<char>, p: &Vec<char>) -> (r: Option<usize>)
    ensures
        r matches Some(i) ==> rfind(h@, p@) == Some(i as int) && i + p@.len() <= h@.len(),
        r is None ==> rfind(h@, p@) is None,
{
    if p.len() > h.len() {
        return None;
    }
    let mut i: usize = h.len() - p.len();
    loop
        invariant
            p@.len() <= h@.len(),
            i + p@.len() <= h@.len(),
            rfind(h@, p@) == last_from(h@, p@, i as int),
        decreases i,
    {
        if matches_at(h, p, i) {
            return Some(i);
        }
        if i == 0 {
            proof {
                assert(last_from(h@, p@, -1) is None);
            }
            return None;
        }
        i -= 1;
    }
}

/// `str::contains`: whether `p` occurs in `h`.
pub fn contains_chars(h: &Vec<char>, p: &Vec<char>) -> (r: bool)
    ensures
        r == contains(h@, p@),
{
    match find_chars(h, p) {
        Some(_) => true,
        None => false,
    }
}

/// `s` without its leading whitespace.
pub open spec fn trim_start(s: Seq<char>) -> Seq<char>
    decreases s.len(),
{
    if s.len() > 0 && spec_is_whitespace(s[0]) {
        trim_start(s.drop_first())
    } else {
        s
    }
}

/// `s` without its trailing whitespace.
pub open spec fn trim_end(s: Seq<char>) -> Seq<char>
    decreases s.len(),
{
    if s.len() > 0 && spec_is_whitespace(s.last()) {
        trim_end(s.drop_last())
    } else {
        s
    }
}

/// `s` without leading and trailing whitespace (`str::trim`).
pub open spec fn trim(s: Seq<char>) -> Seq<char> {
    trim_end(trim_start(s))
}

/// Trimming the start drops exactly the leading whitespace.
pub proof fn lemma_trim_start(s: Seq<char>, i: int)
    requires
        0 <= i <= s.len(),
        forall|k: int| 0 <= k < i ==> spec_is_whitespace(#[trigger] s[k]),
        i == s.len() || !spec_is_whitespace(s[i]),
    ensures
        trim_start(s) == s.skip(i),
    decreases i,
{
    if i == 0 {
        assert(s.skip(0) =~= s);
    } else {
        let t = s.drop_first();
        assert forall|k: int| 0 <= k < i - 1 implies spec_is_whitespace(#[trigger] t[k]) by {
            assert(t[k] == s[k + 1]);
        }
        if i < s.len() {
            assert(t[i - 1] == s[i]);
        }
        lemma_trim_start(t, i - 1);
        assert(t.skip(i - 1) =~= s.skip(i));
    }
}

proof fn lemma_trim_end(s: Seq<char>, j: int)
    requires
        0 <= j <= s.len(),
        forall|k: int| j <= k < s.len() ==> spec_is_whitespace(#[trigger] s[k]),
        j == 0 || !spec_is_whitespace(s[j - 1]),
    ensures
        trim_end(s) == s.take(j),
    decreases s.len() - j,
{
    if j == s.len() {
        assert(s.take(j) =~= s);
    } else {
        let t = s.drop_last();
        assert forall|k: int| j <= k < t.len() implies spec_is_whitespace(#[trigger] t[k]) by {
            assert(t[k] == s[k]);
        }
        if j > 0 {
            assert(t[j - 1] == s[j - 1]);
        }
        lemma_trim_end(t, j);
        assert(t.take(j) =~= s.take(j));
    }
}

/// The characters of `s` from `start` up to `end`.
pub fn chars_range(s: &Vec<char>, start: usize, end: usize) -> (r: Vec<char>)
    requires
        start <= end <= s@.len(),
    ensures
        r@ == s@.subrange(start as int, end as int),
{
    let mut out: Vec<char> = Vec::new();
    let mut k: usize = start;
    while k < end
        invariant
            start <= k <= end <= s@.len(),
            out@ == s@.subrange(start as int, k as int),
        decreases end - k,
    {
        out.push(s[k]);
        k += 1;
        proof {
            assert(out@ =~= s@.subrange(start as int, k as int));
        }
    }
    out
}

/// `str::trim`: `s` without leading and trailing whitespace.
pub fn trim_chars(s: &Vec<char>) -> (r: Vec<char>)
    ensures
        r@ == trim(s@),
{
    let mut i: usize = 0;
    while i < s.len() && is_whitespace(s[i])
        invariant
            i <= s@.len(),
            forall|k: int| 0 <= k < i ==> spec_is_whitespace(#[trigger] s@[k]),
        decreases s@.len() - i,
    {
        i += 1;
    }
    proof {
        lemma_trim_start(s@, i as int);
    }
    let mut j: usize = s.len();
    while j > i && is_whitespace(s[j - 1])
        invariant
            i <= j <= s@.len(),
            forall|k: int| j <= k < s@.len() ==> spec_is_whitespace(#[trigger] s@[k]),
        decreases j,
    {
        j -= 1;
    }
    proof {
        let t = s@.skip(i as int);
        assert forall|k: int| j - i <= k < t.len() implies spec_is_whitespace(#[trigger] t[k]) by {
            assert(t[k] == s@[k + i]);
        }
        if j > i {
            assert(t[j - i - 1] == s@[j - 1]);
        }
        lemma_trim_end(t, j - i);
        assert(t.take(j - i) =~= s@.subrange(i as int, j as int));
    }
    chars_range(s, i, j)
}

/// An occurrence at or after `i` makes the search from `i` find one.
pub proof fn lemma_first_from_found(h: Seq<char>, p: Seq<char>, i: int, k: int)
    requires
        0 <= i <= k,
        occurs_at(h, p, k),
    ensures
        first_from(h, p, i) is Some,
    decreases k - i,
{
    if !occurs_at(h, p, i) {
        lemma_first_from_found(h, p, i + 1, k);
    }
}

/// What the backward search finds is an occurrence.
pub proof fn lemma_last_from_occurs(h: Seq<char>, p: Seq<char>, i: int)
    ensures
        last_from(h, p, i) matches Some(k) ==> occurs_at(h, p, k),
    decreases i + 1,
{
    if i >= 0 && !occurs_at(h, p, i) {
        lemma_last_from_occurs(h, p, i - 1);
    }
}

/// An occurrence of `p` inside an occurrence of `q` is an occurrence in the whole text.
pub proof fn lemma_occurs_within(h: Seq<char>, q: Seq<char>, p: Seq<char>, i: int, j: int)
    requires
        occurs_at(h, q, i),
        occurs_at(q, p, j),
    ensures
        occurs_at(h, p, i + j),
{
    assert forall|k: int| 0 <= k < p.len() implies h.subrange(i + j, i + j + p.len())[k] == p[k] by {
        assert(q.subrange(j, j + p.len())[k] == p[k]);
        assert(h.subrange(i, i + q.len())[j + k] == q[j + k]);
    }
    assert(h.subrange(i + j, i + j + p.len()) =~= p);
}

/// What the forward search finds is an occurrence.
pub proof fn lemma_first_from_occurs(h: Seq<char>, p: Seq<char>, i: int)
    ensures
        first_from(h, p, i) matches Some(k) ==> occurs_at(h, p, k),
    decreases h.len() + 1 - i,
{
    if !(i < 0 || i + p.len() > h.len()) && !occurs_at(h, p, i) {
        lemma_first_from_occurs(h, p, i + 1);
    }
}

} // verus!
