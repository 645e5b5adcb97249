//! Small verified byte-string helpers shared by the task executors:
//! copying, case folding, prefix and substring tests, and whitespace
//! trimming, each specified over the sequence view of its input.

use vstd::prelude::*;

verus! {

/// ASCII space.
pub const SPACE: u8 = 0x20;
/// ASCII horizontal tab.
pub const TAB: u8 = 0x09;
/// ASCII line feed.
pub const NEWLINE: u8 = 0x0a;
/// ASCII carriage return.
pub const CARRIAGE: u8 = 0x0d;

/// ASCII whitespace, as the task protocols use it.
pub open spec fn is_space_byte(b: u8) -> bool {
    b == SPACE || b == TAB || b == NEWLINE || b == CARRIAGE
}

/// An upper-case ASCII letter folded to lower case; all else unchanged.
pub open spec fn lower_byte(b: u8) -> u8 {
    if 0x41 <= b <= 0x5a {
        (b + 0x20) as u8
    } else {
        b
    }
}

/// The whole sequence folded to lower case.
pub open spec fn lower_seq(s: Seq<u8>) -> Seq<u8> {
    s.map_values(|b: u8| lower_byte(b))
}

/// `n` stands in `h` at position `i`.
pub open spec fn occurs_at(h: Seq<u8>, n: Seq<u8>, i: int) -> bool {
    0 <= i && i + n.len() <= h.len() && h.subrange(i, i + n.len()) == n
}

/// `n` stands somewhere in `h`.
pub open spec fn contains_seq(h: Seq<u8>, n: Seq<u8>) -> bool {
    exists|i: int| occurs_at(h, n, i)
}

/// The text with every occurrence of a marker removed: scanned left to
/// right, matches skipped whole, exactly as replacing the marker by nothing
/// writes it.
pub open spec fn strip_all(s: Seq<u8>, pat: Seq<u8>) -> Seq<u8>
    decreases s.len(),
{
    if pat.len() == 0 || s.len() < pat.len() {
        s
    } else if s.subrange(0, pat.len() as int) == pat {
        strip_all(s.skip(pat.len() as int), pat)
    } else {
        seq![s[0]] + strip_all(s.skip(1), pat)
    }
}

/// Start of the sequence with leading whitespace removed.
pub open spec fn trim_start_idx(s: Seq<u8>, i: int) -> int
    decreases s.len() - i,
{
    if 0 <= i < s.len() && is_space_byte(s[i]) {
        trim_start_idx(s, i + 1)
    } else {
        i
    }
}

/// End of the sequence with trailing whitespace removed.
pub open spec fn trim_end_idx(s: Seq<u8>, j: int) -> int
    decreases j,
{
    if 0 < j <= s.len() && is_space_byte(s[j - 1]) {
        trim_end_idx(s, j - 1)
    } else {
        j
    }
}

/// The sequence with whitespace removed from both ends.
pub open spec fn trimmed(s: Seq<u8>) -> Seq<u8> {
    let a = trim_start_idx(s, 0);
    let b = trim_end_idx(s, s.len() as int);
    if a <= b {
        s.subrange(a, b)
    } else {
        Seq::empty()
    }
}

/// The sequence views of a list of byte vectors, in order.
pub open spec fn views_of(vs: Seq<Vec<u8>>) -> Seq<Seq<u8>> {
    vs.map_values(|v: Vec<u8>| v@)
}

/// Taking views keeps the length.
pub broadcast proof fn lemma_views_of_len(vs: Seq<Vec<u8>>)
    ensures
        #[trigger] views_of(vs).len() == vs.len(),
{
}

/// Taking views keeps each position.
pub broadcast proof fn lemma_views_of_index(vs: Seq<Vec<u8>>, k: int)
    requires
        0 <= k < vs.len(),
    ensures
        #[trigger] views_of(vs)[k] == vs[k]@,
{
}

/// A fresh copy of a byte vector.
pub fn copy_bytes(v: &Vec<u8>) -> (r: Vec<u8>)
    ensures
        r@ == v@,
{
    let mut out: Vec<u8> = Vec::new();
    out.extend_from_slice(v.as_slice());
    proof {
        assert(out@ =~= v@);
    }
    out
}

/// The input folded to ASCII lower case.
pub fn to_lower(s: &[u8]) -> (r: Vec<u8>)
    ensures
        r@ == lower_seq(s@),
{
    let mut out: Vec<u8> = Vec::new();
    let n = s.len();
    let mut i: usize = 0;
    while i < n
        invariant
            i <= n,
            n == s.len(),
            out@ == lower_seq(s@.subrange(0, i as int)),
        decreases n - i,
    {
        let b = s[i];
        if 0x41 <= b && b <= 0x5a {
            out.push(b + 0x20);
        } else {
            out.push(b);
        }
        i = i + 1;
        proof {
            assert(out@ =~= lower_seq(s@.subrange(0, i as int)));
        }
    }
    proof {
        assert(s@.subrange(0, n as int) =~= s@);
    }
    out
}

/// Whether `n` stands in `h` at position `i`.
pub fn occurs_here(h: &[u8], n: &[u8], i: usize) -> (r: bool)
    requires
        i + n.len() <= h.len(),
    ensures
        r == occurs_at(h@, n@, i as int),
{
    let mut m: usize = 0;
    while m < n.len()
        invariant
            m <= n.len(),
            i + n.len() <= h.len(),
            forall|q: int| 0 <= q < m ==> h@[i + q] == n@[q],
        decreases n.len() - m,
    {
        if h[i + m] != n[m] {
            proof {
                assert(!occurs_at(h@, n@, i as int)) by {
                    if occurs_at(h@, n@, i as int) {
                        assert(h@.subrange(i as int, i + n@.len())[m as int] == n@[m as int]);
                    }
                }
            }
            return false;
        }
        m = m + 1;
    }
    proof {
        assert(h@.subrange(i as int, i + n@.len()) =~= n@);
    }
    true
}

/// Whether `n` stands anywhere in `h`.
pub fn contains_bytes(h: &[u8], n: &[u8]) -> (r: bool)
    ensures
        r == contains_seq(h@, n@),
{
    if n.len() > h.len() {
        proof {
            assert(!contains_seq(h@, n@)) by {
                if contains_seq(h@, n@) {
                    let i = choose|i: int| occurs_at(h@, n@, i);
                }
            }
        }
        return false;
    }
    let last = h.len() - n.len();
    let mut i: usize = 0;
    while i <= last
        invariant
            i <= last + 1,
            last == h.len() - n.len(),
            n.len() <= h.len(),
            forall|q: int| 0 <= q < i ==> !occurs_at(h@, n@, q),
        decreases last + 1 - i,
    {
        if occurs_here(h, n, i) {
            return true;
        }
        proof {
            // an empty needle occurs everywhere, so it was not empty
            assert(n@.len() > 0) by {
                if n@.len() == 0 {
                    assert(h@.subrange(i as int, i as int) =~= n@);
                }
            }
        }
        i = i + 1;
    }
    proof {
        assert(!contains_seq(h@, n@)) by {
            if contains_seq(h@, n@) {
                let q = choose|q: int| occurs_at(h@, n@, q);
                assert(q <= last);
            }
        }
    }
    false
}

/// Whether `h` starts with `n`.
pub fn starts_with(h: &[u8], n: &[u8]) -> (r: bool)
    ensures
        r == occurs_at(h@, n@, 0),
{
    if n.len() > h.len() {
        return false;
    }
    occurs_here(h, n, 0)
}

/// Remove every occurrence of a marker from the text.
pub fn strip_all_bytes(s: &[u8], pat: &[u8]) -> (r: Vec<u8>)
    requires
        pat@.len() >= 1,
    ensures
        r@ == strip_all(s@, pat@),
{
    let n = s.len();
    let p = pat.len();
    let mut out: Vec<u8> = Vec::new();
    let mut i: usize = 0;
    proof {
        assert(s@.skip(0) =~= s@);
    }
    while i < n
        invariant
            i <= n,
            n == s@.len(),
            p == pat@.len(),
            p >= 1,
            strip_all(s@, pat@) == out@ + strip_all(s@.skip(i as int), pat@),
        decreases n - i,
    {
        if n - i >= p && occurs_here(s, pat, i) {
            proof {
                assert(s@.skip(i as int).subrange(0, p as int) =~= pat@) by {
                    assert(forall|m: int| 0 <= m < p ==> s@.subrange(i as int, i + p as int)[m]
                        == #[trigger] pat@[m]);
                    assert(forall|m: int| 0 <= m < p ==> s@.skip(i as int)[m] == s@[i + m]);
                }
                assert(s@.skip(i as int).skip(p as int) =~= s@.skip(i as int + p as int));
            }
            i = i + p;
        } else {
            let ghost prev = out@;
            out.push(s[i]);
            proof {
                assert(s@.skip(i as int)[0] == s@[i as int]);
                assert(s@.skip(i as int).skip(1) =~= s@.skip(i as int + 1));
                if n - i >= p {
                    assert(s@.skip(i as int).subrange(0, p as int) != pat@) by {
                        if s@.skip(i as int).subrange(0, p as int) == pat@ {
                            assert(s@.subrange(i as int, i + p as int) =~= pat@) by {
                                assert(forall|m: int| 0 <= m < p ==> s@.skip(i as int).subrange(
                                    0,
                                    p as int,
                                )[m] == #[trigger] pat@[m]);
                                assert(forall|m: int| 0 <= m < p ==> s@.skip(i as int)[m] == s@[i
                                    + m]);
                            }
                        }
                    }
                } else {
                    assert(strip_all(s@.skip(i as int), pat@) == s@.skip(i as int));
                    assert(strip_all(s@.skip(i as int + 1), pat@) == s@.skip(i as int + 1));
                    assert(s@.skip(i as int) =~= seq![s@[i as int]] + s@.skip(i as int + 1));
                }
                assert(out@ + strip_all(s@.skip(i as int + 1), pat@) =~= prev + strip_all(
                    s@.skip(i as int),
                    pat@,
                ));
            }
            i = i + 1;
        }
    }
    proof {
        assert(s@.skip(n as int) =~= Seq::<u8>::empty());
        assert(strip_all(Seq::<u8>::empty(), pat@) =~= Seq::<u8>::empty());
        assert(out@ =~= strip_all(s@, pat@));
    }
    out
}

/// Trimming starts within the sequence.
pub proof fn lemma_trim_start_bounds(s: Seq<u8>, i: int)
    requires
        0 <= i <= s.len(),
    ensures
        i <= trim_start_idx(s, i) <= s.len(),
    decreases s.len() - i,
{
    if 0 <= i < s.len() && is_space_byte(s[i]) {
        lemma_trim_start_bounds(s, i + 1);
    }
}

/// Trimming ends within the sequence.
pub proof fn lemma_trim_end_bounds(s: Seq<u8>, j: int)
    requires
        0 <= j <= s.len(),
    ensures
        0 <= trim_end_idx(s, j) <= j,
    decreases j,
{
    if 0 < j <= s.len() && is_space_byte(s[j - 1]) {
        lemma_trim_end_bounds(s, j - 1);
    }
}

/// The input with ASCII whitespace removed from both ends.
pub fn trim_bytes(s: &[u8]) -> (r: Vec<u8>)
    ensures
        r@ == trimmed(s@),
{
    let n = s.len();
    let mut a: usize = 0;
    while a < n && (s[a] == SPACE || s[a] == TAB || s[a] == NEWLINE || s[a] == CARRIAGE)
        invariant
            a <= n,
            n == s.len(),
            trim_start_idx(s@, 0) == trim_start_idx(s@, a as int),
        decreases n - a,
    {
        a = a + 1;
    }
    proof {
        assert(trim_start_idx(s@, a as int) == a as int);
    }
    let mut b: usize = n;
    while b > a && (s[b - 1] == SPACE || s[b - 1] == TAB || s[b - 1] == NEWLINE || s[b - 1]
        == CARRIAGE)
        invariant
            a <= b <= n,
            n == s.len(),
            trim_end_idx(s@, n as int) == trim_end_idx(s@, b as int),
        decreases b,
    {
        b = b - 1;
    }
    proof {
        if b > a {
            assert(trim_end_idx(s@, b as int) == b as int);
        } else {
            lemma_trim_end_le(s@, b as int);
        }
        assert(Seq::<u8>::empty() =~= s@.subrange(a as int, a as int));
    }
    let mut out: Vec<u8> = Vec::new();
    let mut m = a;
    while m < b
        invariant
            a <= m <= b <= n,
            n == s.len(),
            out@ == s@.subrange(a as int, m as int),
        decreases b - m,
    {
        out.push(s[m]);
        m = m + 1;
        proof {
            assert(out@ =~= s@.subrange(a as int, m as int));
        }
    }
    proof {
        assert(out@ =~= trimmed(s@));
    }
    out
}

/// Trimming the end never lengthens the sequence.
proof fn lemma_trim_end_le(s: Seq<u8>, j: int)
    ensures
        trim_end_idx(s, j) <= j,
    decreases j,
{
    if 0 < j <= s.len() && is_space_byte(s[j - 1]) {
        lemma_trim_end_le(s, j - 1);
    }
}

} // verus!
