//! Search of byte patterns in a buffer: every occurrence of one pattern, or
//! of several patterns at once.

use vstd::prelude::*;

verus! {

/// Pattern `p` occurs in `h` at position `i`.
pub open spec fn occurs_at(h: Seq<u8>, p: Seq<u8>, i: int) -> bool {
    0 <= i && i + p.len() <= h.len() && h.subrange(i, i + p.len()) == p
}

/// `res` lists, in increasing order, exactly the positions at which `p`
/// occurs in `h` (occurrences may overlap).
pub open spec fn is_occurrence_list(h: Seq<u8>, p: Seq<u8>, res: Seq<usize>) -> bool {
    &&& forall|k: int| 0 <= k < res.len() ==> occurs_at(h, p, #[trigger] res[k] as int)
    &&& forall|k: int, l: int| 0 <= k < l < res.len() ==> #[trigger] res[k] < #[trigger] res[l]
    &&& forall|i: int| #[trigger] occurs_at(h, p, i) ==> exists|k: int| 0 <= k < res.len() && res[k] == i
}

/// Searcher for every occurrence of one nonempty pattern.
pub struct SimdSearcher {
    pattern: Vec<u8>,
    first_byte: u8,
    pattern_len: usize,
}

impl View for SimdSearcher {
    type V = Seq<u8>;

    closed spec fn view(&self) -> Seq<u8> {
        self.pattern@
    }
}

/// Whether `window` starts with `pattern`.
pub fn verify_pattern(window: &[u8], pattern: &[u8]) -> (r: bool)
    ensures
        r == (window@.len() >= pattern@.len() && window@.subrange(0, pattern@.len() as int) == pattern@),
{
    if window.len() < pattern.len() {
        return false;
    }
    let mut i: usize = 0;
    while i < pattern.len()
        invariant
            window@.len() >= pattern@.len(),
            i <= pattern@.len(),
            forall|k: int| 0 <= k < i ==> window@[k] == pattern@[k],
        decreases pattern@.len() - i,
    {
        if window[i] != pattern[i] {
            proof {
                assert(window@.subrange(0, pattern@.len() as int)[i as int] != pattern@[i as int]);
            }
            return false;
        }
        i = i + 1;
    }
    proof { assert(window@.subrange(0, pattern@.len() as int) =~= pattern@); }
    true
}

/// Whether `pattern` occurs in `haystack` at `i`.
fn occurs(haystack: &[u8], pattern: &[u8], i: usize) -> (r: bool)
    ensures
        r == occurs_at(haystack@, pattern@, i as int),
{
    let n = haystack.len();
    if pattern.len() > n || i > n - pattern.len() {
        return false;
    }
    let window = vstd::slice::slice_subrange(haystack, i, i + pattern.len());
    let r = verify_pattern(window, pattern);
    proof {
        assert(window@.subrange(0, pattern@.len() as int) =~= window@);
    }
    r
}

/// Every position of `byte` in `haystack`, in increasing order.
pub fn find_all_bytes(haystack: &[u8], byte: u8) -> (res: Vec<usize>)
    ensures
        is_occurrence_list(haystack@, seq![byte], res@),
{
    let mut results: Vec<usize> = Vec::new();
    let n = haystack.len();
    let mut i: usize = 0;
    while i < n
        invariant
            n == haystack@.len(),
            i <= n,
            forall|k: int| 0 <= k < results@.len() ==> occurs_at(haystack@, seq![byte], #[trigger] results@[k] as int),
            forall|k: int| 0 <= k < results@.len() ==> #[trigger] results@[k] < i,
            forall|k: int, l: int| 0 <= k < l < results@.len() ==> #[trigger] results@[k] < #[trigger] results@[l],
            forall|j: int| 0 <= j < i && #[trigger] occurs_at(haystack@, seq![byte], j) ==> exists|k: int|
                0 <= k < results@.len() && results@[k] == j,
        decreases n - i,
    {
        proof {
            assert(occurs_at(haystack@, seq![byte], i as int) <==> haystack@[i as int] == byte) by {
                if haystack@[i as int] == byte {
                    assert(haystack@.subrange(i as int, i + 1) =~= seq![byte]);
                }
                if occurs_at(haystack@, seq![byte], i as int) {
                    assert(haystack@.subrange(i as int, i + 1)[0] == haystack@[i as int]);
                }
            }
        }
        let ghost old_results = results@;
        if haystack[i] == byte {
            results.push(i);
            proof {
                assert(results@[results@.len() - 1] == i);
            }
        }
        proof {
            assert forall|j: int| 0 <= j < i + 1 && #[trigger] occurs_at(haystack@, seq![byte], j) implies exists|k: int|
                0 <= k < results@.len() && results@[k] == j by {
                if j == i {
                    assert(results@[results@.len() - 1] == j);
                } else {
                    let k = choose|k: int| 0 <= k < old_results.len() && old_results[k] == j;
                    assert(results@[k] == old_results[k]);
                }
            }
        }
        i = i + 1;
    }
    proof {
        assert forall|j: int| #[trigger] occurs_at(haystack@, seq![byte], j) implies exists|k: int|
            0 <= k < results@.len() && results@[k] == j by {
            assert(j < n);
        }
    }
    results
}

impl SimdSearcher {
    #[verifier::type_invariant]
    spec fn inv(&self) -> bool {
        &&& self.pattern@.len() > 0
        &&& self.pattern_len == self.pattern@.len()
        &&& self.first_byte == self.pattern@[0]
    }

    /// A searcher for the nonempty `pattern`.
    pub fn new(pattern: &[u8]) -> (s: Self)
        requires
            pattern@.len() > 0,
        ensures
            s@ == pattern@,
    {
        let v = vstd::slice::slice_to_vec(pattern);
        SimdSearcher { first_byte: pattern[0], pattern_len: pattern.len(), pattern: v }
    }

    /// Every position at which the pattern occurs in `haystack`, in
    /// increasing order; occurrences may overlap.
    pub fn find_all(&self, haystack: &[u8]) -> (res: Vec<usize>)
        ensures
            is_occurrence_list(haystack@, self@, res@),
    {
        proof { use_type_invariant(self); }
        if self.pattern_len > haystack.len() {
            let res: Vec<usize> = Vec::new();
            proof {
                assert forall|i: int| #[trigger] occurs_at(haystack@, self@, i) implies exists|k: int|
                    0 <= k < res@.len() && res@[k] == i by {}
            }
            return res;
        }
        if self.pattern_len == 1 {
            proof { assert(self@ =~= seq![self.first_byte]); }
            return find_all_bytes(haystack, self.first_byte);
        }
        self.find_all_fallback(haystack)
    }

    /// Every position at which the pattern occurs, by comparing the pattern
    /// at each position in turn.
    fn find_all_fallback(&self, haystack: &[u8]) -> (res: Vec<usize>)
        ensures
            is_occurrence_list(haystack@, self@, res@),
    {
        proof { use_type_invariant(self); }
        let mut results: Vec<usize> = Vec::new();
        let n = haystack.len();
        let p = self.pattern.as_slice();
        let plen = self.pattern_len;
        if n < plen {
            proof {
                assert forall|i: int| #[trigger] occurs_at(haystack@, self@, i) implies exists|k: int|
                    0 <= k < results@.len() && results@[k] == i by {}
            }
            return results;
        }
        let mut i: usize = 0;
        while i <= n - plen
            invariant
                n == haystack@.len(),
                plen == p@.len(),
                p@ == self@,
                plen <= n,
                plen >= 1,
                i <= n - plen + 1,
                forall|k: int| 0 <= k < results@.len() ==> occurs_at(haystack@, p@, #[trigger] results@[k] as int),
                forall|k: int| 0 <= k < results@.len() ==> #[trigger] results@[k] < i,
                forall|k: int, l: int| 0 <= k < l < results@.len() ==> #[trigger] results@[k] < #[trigger] results@[l],
                forall|j: int| 0 <= j < i && #[trigger] occurs_at(haystack@, p@, j) ==> exists|k: int|
                    0 <= k < results@.len() && results@[k] == j,
            decreases n - plen + 1 - i,
        {
            let ghost old_results = results@;
            if occurs(haystack, p, i) {
                results.push(i);
                proof { assert(results@[results@.len() - 1] == i); }
            }
            proof {
                assert forall|j: int| 0 <= j < i + 1 && #[trigger] occurs_at(haystack@, p@, j) implies exists|k: int|
                    0 <= k < results@.len() && results@[k] == j by {
                    if j == i {
                        assert(results@[results@.len() - 1] == j);
                    } else {
                        let k = choose|k: int| 0 <= k < old_results.len() && old_results[k] == j;
                        assert(results@[k] == old_results[k]);
                    }
                }
            }
            i = i + 1;
        }
        results
    }

    /// The first position at which the pattern occurs in `haystack`.
    pub fn find_first(&self, haystack: &[u8]) -> (res: Option<usize>)
        ensures
            res matches Some(i) ==> occurs_at(haystack@, self@, i as int) && forall|j: int|
                0 <= j < i ==> !#[trigger] occurs_at(haystack@, self@, j),
            res is None ==> forall|j: int| !#[trigger] occurs_at(haystack@, self@, j),
    {
        let all = self.find_all(haystack);
        if all.len() == 0 {
            proof {
                assert forall|j: int| !#[trigger] occurs_at(haystack@, self@, j) by {
                    if occurs_at(haystack@, self@, j) {
                        let k = choose|k: int| 0 <= k < all@.len() && all@[k] == j;
                    }
                }
            }
            None
        } else {
            let first = all[0];
            proof {
                assert(occurs_at(haystack@, self@, all@[0] as int));
                assert forall|j: int| 0 <= j < first implies !#[trigger] occurs_at(haystack@, self@, j) by {
                    if occurs_at(haystack@, self@, j) {
                        let k = choose|k: int| 0 <= k < all@.len() && all@[k] == j;
                        if k > 0 {
                            assert(all@[0] < all@[k]);
                        }
                    }
                }
            }
            Some(first)
        }
    }
}

/// `(a_idx, a_pos)` comes before `(b_idx, b_pos)`: by position, then by
/// pattern index.
pub open spec fn match_before(a: (usize, usize), b: (usize, usize)) -> bool {
    a.1 < b.1 || (a.1 == b.1 && a.0 < b.0)
}

/// `res` lists, ordered by position and then pattern index, exactly the
/// pairs `(i, pos)` such that pattern `i` of `patterns` occurs at `pos`.
pub open spec fn is_batch_match_list(h: Seq<u8>, patterns: Seq<Seq<u8>>, res: Seq<(usize, usize)>) -> bool {
    &&& forall|k: int| 0 <= k < res.len() ==> (#[trigger] res[k]).0 < patterns.len() && occurs_at(h, patterns[res[k].0 as int], res[k].1 as int)
    &&& forall|k: int, l: int| 0 <= k < l < res.len() ==> match_before(#[trigger] res[k], #[trigger] res[l])
    &&& forall|i: int, pos: int| 0 <= i < patterns.len() && #[trigger] occurs_at(h, patterns[i], pos) ==> exists|k: int|
        0 <= k < res.len() && res[k] == (i as usize, pos as usize)
}

/// Searcher for several patterns at once.
pub struct BatchSimdSearcher {
    searchers: Vec<(usize, SimdSearcher)>,
}

impl View for BatchSimdSearcher {
    type V = Seq<Seq<u8>>;

    closed spec fn view(&self) -> Seq<Seq<u8>> {
        self.searchers@.map_values(|e: (usize, SimdSearcher)| e.1@)
    }
}

impl BatchSimdSearcher {
    #[verifier::type_invariant]
    spec fn inv(&self) -> bool {
        forall|k: int| 0 <= k < self.searchers@.len() ==> (#[trigger] self.searchers@[k]).0 == k
            && self.searchers@[k].1@.len() > 0
    }

    /// A searcher for `patterns`, each nonempty; pattern `i` is reported
    /// under index `i`.
    pub fn new(patterns: &[&[u8]]) -> (s: Self)
        requires
            forall|i: int| 0 <= i < patterns@.len() ==> (#[trigger] patterns@[i])@.len() > 0,
        ensures
            s@.len() == patterns@.len(),
            forall|i: int| 0 <= i < patterns@.len() ==> #[trigger] s@[i] == patterns@[i]@,
    {
        let mut searchers: Vec<(usize, SimdSearcher)> = Vec::new();
        let mut i: usize = 0;
        while i < patterns.len()
            invariant
                i <= patterns@.len(),
                searchers@.len() == i,
                forall|k: int| 0 <= k < patterns@.len() ==> (#[trigger] patterns@[k])@.len() > 0,
                forall|k: int| 0 <= k < i ==> (#[trigger] searchers@[k]).0 == k && searchers@[k].1@ == patterns@[k]@
                    && searchers@[k].1@.len() > 0,
            decreases patterns@.len() - i,
        {
            let s = SimdSearcher::new(patterns[i]);
            searchers.push((i, s));
            i = i + 1;
        }
        BatchSimdSearcher { searchers }
    }

    /// Every pair `(i, pos)` such that pattern `i` occurs at `pos` in
    /// `haystack`, ordered by position, then by pattern index.
    pub fn find_all(&self, haystack: &[u8]) -> (res: Vec<(usize, usize)>)
        ensures
            is_batch_match_list(haystack@, self@, res@),
    {
        proof { use_type_invariant(self); }
        let mut results: Vec<(usize, usize)> = Vec::new();
        let n = haystack.len();
        let m = self.searchers.len();
        let ghost pats = self@;
        proof {
            assert forall|k: int| 0 <= k < m implies (#[trigger] pats[k]).len() > 0 by {
                assert(pats[k] == self.searchers@[k].1@);
            }
        }
        let mut pos: usize = 0;
        while pos < n
            invariant
                n == haystack@.len(),
                m == self.searchers@.len(),
                pats == self@,
                pats.len() == m,
                pos <= n,
                forall|k: int| 0 <= k < m ==> (#[trigger] self.searchers@[k]).0 == k,
                forall|k: int| 0 <= k < m ==> (#[trigger] pats[k]).len() > 0,
                forall|k: int| 0 <= k < results@.len() ==> (#[trigger] results@[k]).0 < m
                    && occurs_at(haystack@, pats[results@[k].0 as int], results@[k].1 as int)
                    && results@[k].1 < pos,
                forall|k: int, l: int| 0 <= k < l < results@.len() ==> match_before(#[trigger] results@[k], #[trigger] results@[l]),
                forall|i: int, p: int| 0 <= i < m && 0 <= p < pos && #[trigger] occurs_at(haystack@, pats[i], p) ==> exists|k: int|
                    0 <= k < results@.len() && results@[k] == (i as usize, p as usize),
            decreases n - pos,
        {
            let mut idx: usize = 0;
            while idx < m
                invariant
                    n == haystack@.len(),
                    m == self.searchers@.len(),
                    pats == self@,
                    pats.len() == m,
                    pos < n,
                    idx <= m,
                    forall|k: int| 0 <= k < m ==> (#[trigger] self.searchers@[k]).0 == k,
                    forall|k: int| 0 <= k < results@.len() ==> (#[trigger] results@[k]).0 < m
                        && occurs_at(haystack@, pats[results@[k].0 as int], results@[k].1 as int)
                        && (results@[k].1 < pos || (results@[k].1 == pos && results@[k].0 < idx)),
                    forall|k: int, l: int| 0 <= k < l < results@.len() ==> match_before(#[trigger] results@[k], #[trigger] results@[l]),
                    forall|i: int, p: int| 0 <= i < m && 0 <= p < pos && #[trigger] occurs_at(haystack@, pats[i], p) ==> exists|k: int|
                        0 <= k < results@.len() && results@[k] == (i as usize, p as usize),
                    forall|i: int| 0 <= i < idx && #[trigger] occurs_at(haystack@, pats[i], pos as int) ==> exists|k: int|
                        0 <= k < results@.len() && results@[k] == (i as usize, pos),
                decreases m - idx,
            {
                let entry = &self.searchers[idx];
                let sig_idx = entry.0;
                let searcher = &entry.1;
                proof {
                    use_type_invariant(searcher);
                    assert(pats[idx as int] == searcher@);
                }
                let ghost old_results = results@;
                if occurs(haystack, searcher.pattern.as_slice(), pos) {
                    results.push((sig_idx, pos));
                    proof { assert(results@[results@.len() - 1] == (idx, pos)); }
                }
                proof {
                    assert forall|i: int, p: int| 0 <= i < m && 0 <= p < pos && #[trigger] occurs_at(haystack@, pats[i], p) implies exists|k: int|
                        0 <= k < results@.len() && results@[k] == (i as usize, p as usize) by {
                        let k = choose|k: int| 0 <= k < old_results.len() && old_results[k] == (i as usize, p as usize);
                        assert(results@[k] == old_results[k]);
                    }
                    assert forall|i: int| 0 <= i < idx + 1 && #[trigger] occurs_at(haystack@, pats[i], pos as int) implies exists|k: int|
                        0 <= k < results@.len() && results@[k] == (i as usize, pos) by {
                        if i == idx {
                            assert(results@[results@.len() - 1] == (i as usize, pos));
                        } else {
                            let k = choose|k: int| 0 <= k < old_results.len() && old_results[k] == (i as usize, pos);
                            assert(results@[k] == old_results[k]);
                        }
                    }
                }
                idx = idx + 1;
            }
            pos = pos + 1;
        }
        proof {
            assert forall|i: int, p: int| 0 <= i < m && #[trigger] occurs_at(haystack@, pats[i], p) implies exists|k: int|
                0 <= k < results@.len() && results@[k] == (i as usize, p as usize) by {
                assert(p < n);
            }
        }
        results
    }
}

} // verus!
