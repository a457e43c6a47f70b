//! Names of recovered files: the extension, a per-type number of at least
//! six digits, and the extension again.

use vstd::prelude::*;
use vstd::string::StringExecFns;

use crate::carver::{bump_type_count, counts_keyed_by_type, type_count};
use crate::file_types::{FileType, extension_of};

verus! {

/// The decimal digit `d` (below 10).
pub open spec fn dec_digit(d: int) -> char {
    (('0' as int) + d) as char
}

/// The last `count` decimal digits of `n`, leading zeros included.
pub open spec fn last_digits(n: nat, count: nat) -> Seq<char>
    decreases count,
{
    if count == 0 {
        Seq::empty()
    } else {
        last_digits(n / 10, (count - 1) as nat).push(dec_digit((n % 10) as int))
    }
}

/// How many decimal digits `n` has.
pub open spec fn digit_count(n: nat) -> nat
    decreases n,
{
    if n < 10 {
        1
    } else {
        1 + digit_count(n / 10)
    }
}

/// `n` in decimal, padded with zeros on the left to `width` digits.
pub open spec fn zero_padded(n: nat, width: nat) -> Seq<char> {
    last_digits(n, if digit_count(n) < width { width } else { digit_count(n) })
}

/// Name of the `counter`-th recovered file of type `t`, such as
/// `jpg_000001.jpg`.
pub open spec fn carved_file_name(t: FileType, counter: nat) -> Seq<char> {
    extension_of(t)@ + seq!['_'] + zero_padded(counter, 6) + seq!['.'] + extension_of(t)@
}

/// The text of decimal digit `d`.
fn digit_text(d: u64) -> (s: &'static str)
    requires
        d < 10,
    ensures
        s@ == seq![dec_digit(d as int)],
{
    proof {
        reveal_strlit("0");
        reveal_strlit("1");
        reveal_strlit("2");
        reveal_strlit("3");
        reveal_strlit("4");
        reveal_strlit("5");
        reveal_strlit("6");
        reveal_strlit("7");
        reveal_strlit("8");
        reveal_strlit("9");
    }
    if d == 0 {
        "0"
    } else if d == 1 {
        "1"
    } else if d == 2 {
        "2"
    } else if d == 3 {
        "3"
    } else if d == 4 {
        "4"
    } else if d == 5 {
        "5"
    } else if d == 6 {
        "6"
    } else if d == 7 {
        "7"
    } else if d == 8 {
        "8"
    } else {
        "9"
    }
}

/// Appends the last `count` decimal digits of `n` to `s`.
fn append_last_digits(s: &mut String, n: u64, count: u64)
    ensures
        final(s)@ == old(s)@ + last_digits(n as nat, count as nat),
    decreases count,
{
    if count > 0 {
        append_last_digits(s, n / 10, count - 1);
        s.append(digit_text(n % 10));
    }
}

/// How many decimal digits `n` has.
fn digit_count_of(n: u64) -> (c: u64)
    ensures
        c == digit_count(n as nat),
{
    let mut c: u64 = 1;
    let mut m: u64 = n;
    while m >= 10
        invariant
            c + digit_count(m as nat) == 1 + digit_count(n as nat),
            c >= 1,
        decreases m,
    {
        proof {
            lemma_digit_count_small(n as nat);
            lemma_digit_count_small(m as nat / 10);
            assert(digit_count(m as nat) == 1 + digit_count(m as nat / 10));
        }
        c = c + 1;
        m = m / 10;
    }
    c
}

/// A number has at most as many digits as its value (for values from 1).
proof fn lemma_digit_count_small(n: nat)
    ensures
        digit_count(n) <= if n == 0 { 1 } else { n },
        digit_count(n) >= 1,
    decreases n,
{
    if n >= 10 {
        lemma_digit_count_small(n / 10);
    }
}

/// Numbers the recovered files of each type.
pub struct FileNamer {
    counts: std::collections::HashMap<u64, usize>,
}

impl FileNamer {
    /// How many names were given to files of type `t`.
    pub closed spec fn given(&self, t: FileType) -> int {
        type_count(self.counts@, t)
    }

    /// Every count is kept for a type.
    pub closed spec fn wf(&self) -> bool {
        counts_keyed_by_type(self.counts@)
    }

    /// A namer that has named nothing.
    pub fn new() -> (n: Self)
        ensures
            n.wf(),
            forall|t: FileType| n.given(t) == 0,
    {
        FileNamer { counts: std::collections::HashMap::new() }
    }

    /// The name of the next recovered file of type `file_type`: its
    /// extension, an underscore, its number among the files of its type
    /// (from 1, at least six digits), a dot and the extension again.
    pub fn next_name(&mut self, file_type: FileType) -> (name: String)
        requires
            old(self).wf(),
            old(self).given(file_type) < u32::MAX,
        ensures
            final(self).wf(),
            forall|u: FileType| final(self).given(u) == old(self).given(u) + if u == file_type { 1int } else { 0int },
            name@ == carved_file_name(file_type, (old(self).given(file_type) + 1) as nat),
    {
        let counter = bump_type_count(&mut self.counts, file_type);
        let sig = file_type.get_signature();
        let ext = sig.extension;
        let mut name = String::from_str(ext);
        proof {
            reveal_strlit("_");
            reveal_strlit(".");
        }
        name.append("_");
        let digits = digit_count_of(counter as u64);
        let width = if digits < 6 { 6 } else { digits };
        append_last_digits(&mut name, counter as u64, width);
        name.append(".");
        name.append(ext);
        name
    }
}

/// `10^n`.
pub open spec fn pow10(n: nat) -> nat
    decreases n,
{
    if n == 0 { 1 } else { 10 * pow10((n - 1) as nat) }
}

/// `last_digits` gives as many digits as asked.
proof fn lemma_last_digits_len(n: nat, count: nat)
    ensures
        last_digits(n, count).len() == count,
    decreases count,
{
    if count > 0 {
        lemma_last_digits_len(n / 10, (count - 1) as nat);
    }
}

/// A number is below `10` to the power of its digit count.
proof fn lemma_digit_count_bound(n: nat)
    ensures
        n < pow10(digit_count(n)),
    decreases n,
{
    if n >= 10 {
        lemma_digit_count_bound(n / 10);
        let q = n / 10;
        let p = pow10(digit_count(q));
        assert(digit_count(n) == 1 + digit_count(q));
        assert(pow10(digit_count(n)) == 10 * p);
        assert(n < 10 * p) by (nonlinear_arith)
            requires q == n / 10, q < p, n >= 0;
    } else {
        assert(pow10(1) == 10 * pow10(0));
    }
}

/// Powers of ten grow with the exponent.
proof fn lemma_pow10_monotone(a: nat, b: nat)
    requires
        a <= b,
    ensures
        pow10(a) <= pow10(b),
    decreases b,
{
    if a < b {
        lemma_pow10_monotone(a, (b - 1) as nat);
    }
}

/// Two numbers below `10^count` with the same last `count` digits are
/// equal.
proof fn lemma_last_digits_injective(n: nat, m: nat, count: nat)
    requires
        n < pow10(count),
        m < pow10(count),
        last_digits(n, count) == last_digits(m, count),
    ensures
        n == m,
    decreases count,
{
    if count > 0 {
        let c1 = (count - 1) as nat;
        let a = last_digits(n / 10, c1);
        let b = last_digits(m / 10, c1);
        assert(last_digits(n, count).last() == dec_digit((n % 10) as int));
        assert(last_digits(m, count).last() == dec_digit((m % 10) as int));
        assert((('0' as int) + (n % 10) as int) as char == (('0' as int) + (m % 10) as int) as char);
        assert(n % 10 == m % 10);
        assert(last_digits(n, count).drop_last() == a);
        assert(last_digits(m, count).drop_last() == b);
        assert(n / 10 < pow10(c1));
        assert(m / 10 < pow10(c1));
        lemma_last_digits_injective(n / 10, m / 10, c1);
    }
}

/// Different numbers give different zero-padded texts.
proof fn lemma_zero_padded_injective(n: nat, m: nat, width: nat)
    requires
        n != m,
    ensures
        zero_padded(n, width) != zero_padded(m, width),
{
    let wn = if digit_count(n) < width { width } else { digit_count(n) };
    let wm = if digit_count(m) < width { width } else { digit_count(m) };
    lemma_last_digits_len(n, wn);
    lemma_last_digits_len(m, wm);
    if wn == wm {
        lemma_digit_count_bound(n);
        lemma_digit_count_bound(m);
        lemma_pow10_monotone(digit_count(n), wn);
        lemma_pow10_monotone(digit_count(m), wm);
        if zero_padded(n, width) == zero_padded(m, width) {
            lemma_last_digits_injective(n, m, wn);
        }
    }
}

/// Files of one type are given different names: the names of the `n`-th
/// and `m`-th file of a type differ when `n` and `m` do, so no recovered
/// file overwrites another of its type.
pub proof fn lemma_carved_names_distinct(t: FileType, n: nat, m: nat)
    requires
        n != m,
    ensures
        carved_file_name(t, n) != carved_file_name(t, m),
{
    let e = extension_of(t)@;
    let zn = zero_padded(n, 6);
    let zm = zero_padded(m, 6);
    lemma_zero_padded_injective(n, m, 6);
    let an = e + seq!['_'] + zn + seq!['.'] + e;
    let am = e + seq!['_'] + zm + seq!['.'] + e;
    if an == am {
        if zn.len() == zm.len() {
            assert(an.subrange(e.len() as int + 1, e.len() as int + 1 + zn.len() as int) =~= zn);
            assert(am.subrange(e.len() as int + 1, e.len() as int + 1 + zm.len() as int) =~= zm);
        } else {
            assert(an.len() != am.len());
        }
    }
}

} // verus!
