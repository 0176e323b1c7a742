use vstd::prelude::*;

use crate::pattern::{Matcher, Pattern};

verus! {

/// Whether one matcher accepts one byte.
pub open spec fn accepts(m: Matcher, b: u8) -> bool {
    match m {
        Matcher::Exact(x) => x == b,
        Matcher::Wildcard => true,
    }
}

/// The pattern matches the window of `mem` that starts at offset `i`.
pub open spec fn matches_at(p: Seq<Matcher>, mem: Seq<u8>, i: int) -> bool {
    &&& 0 <= i
    &&& i + p.len() <= mem.len()
    &&& forall|k: int| 0 <= k < p.len() ==> #[trigger] accepts(p[k], mem[i + k])
}

/// The offsets below `n` at which the pattern matches, in ascending order.
pub open spec fn offsets_below(p: Seq<Matcher>, mem: Seq<u8>, n: int) -> Seq<int>
    decreases n,
{
    if n <= 0 {
        seq![]
    } else if matches_at(p, mem, n - 1) {
        offsets_below(p, mem, n - 1).push(n - 1)
    } else {
        offsets_below(p, mem, n - 1)
    }
}

/// Every offset of `mem` at which the pattern matches, in ascending order.
pub open spec fn match_offsets(p: Seq<Matcher>, mem: Seq<u8>) -> Seq<int> {
    offsets_below(p, mem, mem.len() as int)
}

/// The lowest offset at which the pattern matches, if any.
pub open spec fn first_offset(p: Seq<Matcher>, mem: Seq<u8>) -> Option<int> {
    if match_offsets(p, mem).len() > 0 {
        Some(match_offsets(p, mem)[0])
    } else {
        None
    }
}

proof fn lemma_offsets_below_prefix(p: Seq<Matcher>, mem: Seq<u8>, j: int, n: int)
    requires
        0 <= j <= n,
    ensures
        offsets_below(p, mem, j).len() <= offsets_below(p, mem, n).len(),
        offsets_below(p, mem, n).subrange(0, offsets_below(p, mem, j).len() as int)
            =~= offsets_below(p, mem, j),
    decreases n - j,
{
    if j < n {
        lemma_offsets_below_prefix(p, mem, j, n - 1);
    }
}

proof fn lemma_offsets_below_exact(p: Seq<Matcher>, mem: Seq<u8>, n: int)
    ensures
        forall|k: int|
            0 <= k < offsets_below(p, mem, n).len() ==> {
                let o = #[trigger] offsets_below(p, mem, n)[k];
                0 <= o < n && matches_at(p, mem, o)
            },
        forall|i: int|
            0 <= i < n && #[trigger] matches_at(p, mem, i) ==> offsets_below(p, mem, n).contains(
                i,
            ),
        forall|a: int, b: int|
            0 <= a < b < offsets_below(p, mem, n).len() ==> offsets_below(p, mem, n)[a]
                < offsets_below(p, mem, n)[b],
    decreases n,
{
    if n > 0 {
        lemma_offsets_below_exact(p, mem, n - 1);
        let prev = offsets_below(p, mem, n - 1);
        let cur = offsets_below(p, mem, n);
        assert forall|i: int| 0 <= i < n && #[trigger] matches_at(p, mem, i) implies cur.contains(
            i,
        ) by {
            if i < n - 1 {
                let k = choose|k: int| 0 <= k < prev.len() && prev[k] == i;
                if matches_at(p, mem, n - 1) {
                    assert(cur[k] == i);
                }
            } else {
                assert(cur[cur.len() - 1] == i);
            }
        }
    }
}

/// The reported offsets are exactly the matching ones: each reported offset
/// matches, every matching offset (overlapping ones included) is reported,
/// and they come in strictly ascending order.
pub proof fn lemma_match_offsets_exact(p: Seq<Matcher>, mem: Seq<u8>)
    requires
        p.len() > 0,
    ensures
        forall|k: int|
            0 <= k < match_offsets(p, mem).len() ==> matches_at(
                p,
                mem,
                #[trigger] match_offsets(p, mem)[k],
            ),
        forall|i: int| #[trigger]
            matches_at(p, mem, i) ==> match_offsets(p, mem).contains(i),
        forall|a: int, b: int|
            0 <= a < b < match_offsets(p, mem).len() ==> match_offsets(p, mem)[a] < match_offsets(
                p,
                mem,
            )[b],
{
    lemma_offsets_below_exact(p, mem, mem.len() as int);
}

/// The first reported offset is the lowest matching one, and there is none
/// exactly when no window matches.
pub proof fn lemma_first_offset_lowest(p: Seq<Matcher>, mem: Seq<u8>)
    requires
        p.len() > 0,
    ensures
        first_offset(p, mem) matches Some(o) ==> matches_at(p, mem, o) && forall|j: int|
            0 <= j < o ==> !#[trigger] matches_at(p, mem, j),
        first_offset(p, mem) is None <==> forall|j: int| !#[trigger] matches_at(p, mem, j),
{
    lemma_match_offsets_exact(p, mem);
    let all = match_offsets(p, mem);
    if all.len() > 0 {
        assert forall|j: int| 0 <= j < all[0] implies !#[trigger] matches_at(p, mem, j) by {
            if matches_at(p, mem, j) {
                let k = choose|k: int| 0 <= k < all.len() && all[k] == j;
                if k > 0 {
                    assert(all[0] < all[k]);
                }
            }
        }
        assert(matches_at(p, mem, all[0]));
    } else {
        assert forall|j: int| !#[trigger] matches_at(p, mem, j) by {
            if matches_at(p, mem, j) {
                assert(all.contains(j));
            }
        }
    }
}

/// A wildcard accepts every byte value, so two regions that differ only
/// under the pattern's wildcard positions match at the same offset alike.
pub proof fn lemma_wildcard_accepts_any(p: Seq<Matcher>, mem1: Seq<u8>, mem2: Seq<u8>, i: int)
    requires
        mem1.len() == mem2.len(),
        forall|k: int|
            0 <= k < p.len() && 0 <= i + k < mem1.len() && #[trigger] p[k] != Matcher::Wildcard
                ==> mem1[i + k] == mem2[i + k],
    ensures
        forall|b: u8| #[trigger] accepts(Matcher::Wildcard, b),
        matches_at(p, mem1, i) == matches_at(p, mem2, i),
{
    if matches_at(p, mem1, i) {
        assert forall|k: int| 0 <= k < p.len() implies #[trigger] accepts(p[k], mem2[i + k]) by {
            assert(accepts(p[k], mem1[i + k]));
        }
    }
    if matches_at(p, mem2, i) {
        assert forall|k: int| 0 <= k < p.len() implies #[trigger] accepts(p[k], mem1[i + k]) by {
            assert(accepts(p[k], mem2[i + k]));
        }
    }
}

pub(crate) proof fn lemma_offsets_in_region(p: Seq<Matcher>, mem: Seq<u8>)
    ensures
        forall|k: int|
            0 <= k < match_offsets(p, mem).len() ==> 0 <= #[trigger] match_offsets(p, mem)[k]
                < mem.len(),
{
    lemma_offsets_below_exact(p, mem, mem.len() as int);
}

/// Whether the window of `mem` at offset `i` matches.
fn window_matches(p: &Vec<Matcher>, mem: &[u8], i: usize) -> (r: bool)
    requires
        i + p@.len() <= mem@.len(),
    ensures
        r == matches_at(p@, mem@, i as int),
{
    let m = p.len();
    let n = mem.len();
    let mut k: usize = 0;
    while k < m
        invariant
            m == p@.len(),
            n == mem@.len(),
            i + m <= mem@.len(),
            k <= m,
            forall|kk: int| 0 <= kk < k ==> #[trigger] accepts(p@[kk], mem@[i + kk]),
        decreases m - k,
    {
        match p[k] {
            Matcher::Exact(b) => {
                if mem[i + k] != b {
                    assert(!accepts(p@[k as int], mem@[i + k]));
                    return false;
                }
            },
            Matcher::Wildcard => {},
        }
        k = k + 1;
    }
    true
}

/// Moving a window over `mem` by `s` skips no match when the byte under the
/// pattern's last position is `c`: none of the `s - 1` positions before the
/// last accepts `c`.
pub open spec fn safe_shift(p: Seq<Matcher>, c: u8, s: int) -> bool {
    &&& 1 <= s <= p.len()
    &&& forall|j: int| p.len() - 1 - s < j < p.len() - 1 ==> !#[trigger] accepts(p[j], c)
}

/// The skip table of a wildcard-aware Horspool search: for each byte value,
/// the distance from the last position of the pattern back to the nearest
/// earlier position that accepts it (the whole length where none does).
fn shift_table(p: &Vec<Matcher>) -> (t: Vec<usize>)
    requires
        p@.len() > 0,
    ensures
        t@.len() == 256,
        forall|c: u8| safe_shift(p@, c, #[trigger] t@[c as int] as int),
{
    let m = p.len();
    let mut t: Vec<usize> = Vec::new();
    let mut c: usize = 0;
    while c < 256
        invariant
            c <= 256,
            t@.len() == c,
            forall|k: int| 0 <= k < c ==> t@[k] == m,
        decreases 256 - c,
    {
        t.push(m);
        c = c + 1;
    }
    let mut j: usize = 0;
    while j < m - 1
        invariant
            m == p@.len(),
            m > 0,
            j <= m - 1,
            t@.len() == 256,
            forall|c: u8| 1 <= #[trigger] t@[c as int] <= m,
            forall|c: u8, jj: int|
                0 <= jj < j && m - 1 - t@[c as int] < jj ==> !#[trigger] accepts(p@[jj], c),
        decreases m - 1 - j,
    {
        let d = m - 1 - j;
        match p[j] {
            Matcher::Exact(b) => {
                let ghost t0 = t@;
                t.set(b as usize, d);
                assert forall|c: u8, jj: int|
                    0 <= jj < j + 1 && m - 1 - t@[c as int] < jj implies !#[trigger] accepts(
                    p@[jj],
                    c,
                ) by {
                    if c != b {
                        assert(t@[c as int] == t0[c as int]);
                    }
                }
            },
            Matcher::Wildcard => {
                let mut k: usize = 0;
                while k < 256
                    invariant
                        k <= 256,
                        t@.len() == 256,
                        1 <= d <= m,
                        forall|c: u8| 1 <= #[trigger] t@[c as int] <= m,
                        forall|c: u8| (c as int) < k ==> #[trigger] t@[c as int] == d,
                        forall|c: u8, jj: int|
                            0 <= jj < j && (c as int) >= k && m - 1 - t@[c as int] < jj
                                ==> !#[trigger] accepts(p@[jj], c),
                    decreases 256 - k,
                {
                    t.set(k, d);
                    k = k + 1;
                }
            },
        }
        j = j + 1;
    }
    t
}

proof fn lemma_skip_is_safe(p: Seq<Matcher>, mem: Seq<u8>, i: int, s: int)
    requires
        p.len() > 0,
        0 <= i,
        i + p.len() <= mem.len(),
        safe_shift(p, mem[i + p.len() - 1], s),
    ensures
        forall|x: int| i < x < i + s ==> !#[trigger] matches_at(p, mem, x),
{
    assert forall|x: int| i < x < i + s implies !#[trigger] matches_at(p, mem, x) by {
        let d = x - i;
        let k = p.len() - 1 - d;
        if matches_at(p, mem, x) {
            assert(accepts(p[k], mem[i + d + k]));
            assert(i + d + k == i + p.len() - 1);
        }
    }
}

proof fn lemma_no_matches_between(p: Seq<Matcher>, mem: Seq<u8>, a: int, b: int)
    requires
        0 <= a <= b,
        forall|k: int| a <= k < b ==> !#[trigger] matches_at(p, mem, k),
    ensures
        offsets_below(p, mem, b) == offsets_below(p, mem, a),
    decreases b - a,
{
    if a < b {
        assert(!matches_at(p, mem, b - 1));
        lemma_no_matches_between(p, mem, a, b - 1);
    }
}

impl Pattern {
    /// The lowest offset in `mem` at which the pattern matches, if any.
    pub fn find_first(&self, mem: &[u8]) -> (r: Option<usize>)
        ensures
            r matches Some(o) ==> first_offset(self@, mem@) == Some(o as int),
            r is None ==> first_offset(self@, mem@) is None,
    {
        let p = self.matchers();
        let m = p.len();
        let n = mem.len();
        let table = shift_table(p);
        let mut i: usize = 0;
        while m <= n - i
            invariant
                n == mem@.len(),
                m == self@.len(),
                m > 0,
                p@ == self@,
                i <= n,
                table@.len() == 256,
                forall|c: u8| safe_shift(p@, c, #[trigger] table@[c as int] as int),
                offsets_below(self@, mem@, i as int).len() == 0,
            decreases n - i,
        {
            if window_matches(p, mem, i) {
                proof {
                    lemma_offsets_below_prefix(self@, mem@, i + 1, n as int);
                    assert(offsets_below(self@, mem@, i + 1)[0] == i);
                }
                return Some(i);
            }
            let c = mem[i + m - 1];
            let s = table[c as usize];
            proof {
                assert(safe_shift(p@, c, table@[c as int] as int));
                lemma_skip_is_safe(self@, mem@, i as int, s as int);
                lemma_no_matches_between(self@, mem@, i as int, i + s);
            }
            i = i + s;
        }
        proof {
            lemma_no_matches_between(self@, mem@, i as int, n as int);
        }
        None
    }

    /// Every offset in `mem` at which the pattern matches, ascending,
    /// overlapping matches included.
    pub fn find_all(&self, mem: &[u8]) -> (r: Vec<usize>)
        ensures
            r@.len() == match_offsets(self@, mem@).len(),
            forall|k: int| 0 <= k < r@.len() ==> r@[k] == match_offsets(self@, mem@)[k],
    {
        let p = self.matchers();
        let m = p.len();
        let n = mem.len();
        let table = shift_table(p);
        let mut out: Vec<usize> = Vec::new();
        let mut i: usize = 0;
        while m <= n - i
            invariant
                n == mem@.len(),
                m == self@.len(),
                m > 0,
                p@ == self@,
                i <= n,
                table@.len() == 256,
                forall|c: u8| safe_shift(p@, c, #[trigger] table@[c as int] as int),
                out@.len() == offsets_below(self@, mem@, i as int).len(),
                forall|k: int|
                    0 <= k < out@.len() ==> out@[k] == offsets_below(self@, mem@, i as int)[k],
            decreases n - i,
        {
            if window_matches(p, mem, i) {
                out.push(i);
            }
            let c = mem[i + m - 1];
            let s = table[c as usize];
            proof {
                assert(safe_shift(p@, c, table@[c as int] as int));
                lemma_skip_is_safe(self@, mem@, i as int, s as int);
                lemma_no_matches_between(self@, mem@, i + 1, i + s);
            }
            i = i + s;
        }
        proof {
            lemma_no_matches_between(self@, mem@, i as int, n as int);
        }
        out
    }
}

} // verus!
