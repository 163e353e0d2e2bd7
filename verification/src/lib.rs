//! Reversible, order-independent compaction of four values drawn from a
//! 32-letter alphabet into a single 16-bit code, by combinatorial-number-system
//! (combinadic) ranking: each multiset of four values in `[0, 32)` gets a
//! unique rank in `[0, 52360)`, and every such rank names exactly one multiset.

pub mod choice;

use vstd::multiset::Multiset;
use vstd::prelude::*;

use crate::choice::lemma_nm_monotone;
use crate::choice::lemma_nm_one_slot;
use crate::choice::lemma_total_count;
use crate::choice::multichoose;
use crate::choice::num_multisets;

verus! {

/// The four entries run downward: the canonical order of a quadruple.
pub open spec fn sorted_desc(s: Seq<u8>) -> bool
    recommends
        s.len() == 4,
{
    s[0] >= s[1] && s[1] >= s[2] && s[2] >= s[3]
}

/// Every entry is a letter of the 32-value alphabet.
pub open spec fn in_alphabet(s: Seq<u8>) -> bool
    recommends
        s.len() == 4,
{
    s[0] < 32 && s[1] < 32 && s[2] < 32 && s[3] < 32
}

/// The four entries as a multiset: what a quadruple means once order is
/// forgotten.
pub open spec fn mset4(s: Seq<u8>) -> Multiset<u8>
    recommends
        s.len() == 4,
{
    Multiset::empty().insert(s[0]).insert(s[1]).insert(s[2]).insert(s[3])
}

/// The combinadic rank of a descending quadruple: each term counts the
/// multisets that order before it once the earlier digits are fixed. The last
/// digit stands alone because `num_multisets(n, 1) == n`.
pub open spec fn code_of(s: Seq<u8>) -> int
    recommends
        s.len() == 4,
{
    num_multisets(s[0] as nat, 4) + num_multisets(s[1] as nat, 3) + num_multisets(s[2] as nat, 2)
        + s[3]
}

/// The last two digits contribute less than one step of the two-slot count:
/// the digit-2 term can never spill into the next digit-2 value.
proof fn lemma_pair_bound(v2: u8, v3: u8)
    requires
        v3 <= v2,
    ensures
        num_multisets(v2 as nat, 2) + v3 < num_multisets((v2 + 1) as nat, 2),
{
    lemma_nm_one_slot((v2 + 1) as nat);
    assert(num_multisets((v2 + 1) as nat, 2) == num_multisets(v2 as nat, 2) + num_multisets(
        (v2 + 1) as nat,
        1,
    ));
}

/// The last three digits contribute less than one step of the three-slot
/// count.
proof fn lemma_triple_bound(v1: u8, v2: u8, v3: u8)
    requires
        v2 <= v1,
        v3 <= v2,
    ensures
        num_multisets(v1 as nat, 3) + num_multisets(v2 as nat, 2) + v3 < num_multisets(
            (v1 + 1) as nat,
            3,
        ),
{
    lemma_pair_bound(v2, v3);
    lemma_nm_monotone((v2 + 1) as nat, (v1 + 1) as nat, 2);
    assert(num_multisets((v1 + 1) as nat, 3) == num_multisets(v1 as nat, 3) + num_multisets(
        (v1 + 1) as nat,
        2,
    ));
}

/// A descending quadruple's code stays below the next value of its leading
/// digit: the tail never spills over. This is what makes the greedy decoder
/// pick the right leading digit.
proof fn lemma_code_head_bound(s: Seq<u8>)
    requires
        s.len() == 4,
        sorted_desc(s),
    ensures
        code_of(s) < num_multisets((s[0] + 1) as nat, 4),
{
    lemma_triple_bound(s[1], s[2], s[3]);
    lemma_nm_monotone((s[1] + 1) as nat, (s[0] + 1) as nat, 3);
    assert(num_multisets((s[0] + 1) as nat, 4) == num_multisets(s[0] as nat, 4) + num_multisets(
        (s[0] + 1) as nat,
        3,
    ));
}

/// Codes cover at most `[0, 52360)`: every valid quadruple ranks below the
/// total number of multisets.
pub proof fn lemma_code_bound(s: Seq<u8>)
    requires
        s.len() == 4,
        sorted_desc(s),
        in_alphabet(s),
    ensures
        0 <= code_of(s) < 52360,
{
    lemma_code_head_bound(s);
    lemma_nm_monotone((s[0] + 1) as nat, 32, 4);
    lemma_total_count();
}

/// Ranking is injective: two descending quadruples with the same code are the
/// same quadruple. Together with the encoder's and decoder's contracts this
/// is the round trip: decoding an encoding gives back the sorted input.
pub proof fn lemma_code_injective(s: Seq<u8>, t: Seq<u8>)
    requires
        s.len() == 4,
        t.len() == 4,
        sorted_desc(s),
        sorted_desc(t),
        in_alphabet(s),
        in_alphabet(t),
        code_of(s) == code_of(t),
    ensures
        s =~= t,
{
    if s[0] < t[0] {
        lemma_code_head_bound(s);
        lemma_nm_monotone((s[0] + 1) as nat, t[0] as nat, 4);
        assert(false);
    }
    if t[0] < s[0] {
        lemma_code_head_bound(t);
        lemma_nm_monotone((t[0] + 1) as nat, s[0] as nat, 4);
        assert(false);
    }
    if s[1] < t[1] {
        lemma_triple_bound(s[1], s[2], s[3]);
        lemma_nm_monotone((s[1] + 1) as nat, t[1] as nat, 3);
        assert(false);
    }
    if t[1] < s[1] {
        lemma_triple_bound(t[1], t[2], t[3]);
        lemma_nm_monotone((t[1] + 1) as nat, s[1] as nat, 3);
        assert(false);
    }
    if s[2] < t[2] {
        lemma_pair_bound(s[2], s[3]);
        lemma_nm_monotone((s[2] + 1) as nat, t[2] as nat, 2);
        assert(false);
    }
    if t[2] < s[2] {
        lemma_pair_bound(t[2], t[3]);
        lemma_nm_monotone((t[2] + 1) as nat, s[2] as nat, 2);
        assert(false);
    }
    assert forall|i: int| 0 <= i < 4 implies s[i] == t[i] by {
        assert(i == 0 || i == 1 || i == 2 || i == 3);
    }
}

/// A multiset of four letters has exactly one descending arrangement, so any
/// two permutations of a quadruple sort to the same sequence and therefore
/// encode to the same code.
pub proof fn lemma_sorted_unique(s: Seq<u8>, t: Seq<u8>)
    requires
        s.len() == 4,
        t.len() == 4,
        sorted_desc(s),
        sorted_desc(t),
        mset4(s) == mset4(t),
    ensures
        s =~= t,
{
    lemma_mset4_count(s, s[0]);
    lemma_mset4_count(s, s[1]);
    lemma_mset4_count(s, s[2]);
    lemma_mset4_count(s, s[3]);
    lemma_mset4_count(s, t[0]);
    lemma_mset4_count(s, t[1]);
    lemma_mset4_count(s, t[2]);
    lemma_mset4_count(s, t[3]);
    lemma_mset4_count(t, s[0]);
    lemma_mset4_count(t, s[1]);
    lemma_mset4_count(t, s[2]);
    lemma_mset4_count(t, s[3]);
    lemma_mset4_count(t, t[0]);
    lemma_mset4_count(t, t[1]);
    lemma_mset4_count(t, t[2]);
    lemma_mset4_count(t, t[3]);
    assert forall|i: int| 0 <= i < 4 implies s[i] == t[i] by {
        assert(i == 0 || i == 1 || i == 2 || i == 3);
    }
}

/// A quadruple's multiset counts a letter exactly as often as it appears
/// among the four entries.
proof fn lemma_mset4_count(s: Seq<u8>, v: u8)
    requires
        s.len() == 4,
    ensures
        mset4(s).count(v) == (if s[0] == v {
            1int
        } else {
            0int
        }) + (if s[1] == v {
            1int
        } else {
            0int
        }) + (if s[2] == v {
            1int
        } else {
            0int
        }) + (if s[3] == v {
            1int
        } else {
            0int
        }),
{
}

/// One step of unranking at the spec level: the largest digit whose count
/// still fits under `c`, found by walking up from `n`.
proof fn find_digit(c: nat, r: nat, n: nat) -> (d: nat)
    requires
        1 <= r <= 4,
        n < 32,
        num_multisets(n, r) <= c,
        c < num_multisets(32, r),
    ensures
        n <= d < 32,
        num_multisets(d, r) <= c,
        c < num_multisets((d + 1) as nat, r),
    decreases 32 - n,
{
    if n == 31 {
        31
    } else if c < num_multisets((n + 1) as nat, r) {
        n
    } else {
        find_digit(c, r, (n + 1) as nat)
    }
}

/// Ranking is surjective: every value in `[0, 52360)` is the code of some
/// descending quadruple. With `lemma_code_injective` this makes the encoding
/// a bijection between multisets and codes.
pub proof fn lemma_code_surjective(c: int)
    requires
        0 <= c < 52360,
    ensures
        exists|s: Seq<u8>|
            s.len() == 4 && sorted_desc(s) && in_alphabet(s) && code_of(s) == c,
{
    lemma_total_count();
    assert(num_multisets(0, 4) == 0);
    let c0 = c as nat;
    let d0 = find_digit(c0, 4, 0);
    assert(num_multisets((d0 + 1) as nat, 4) == num_multisets(d0, 4) + num_multisets(
        (d0 + 1) as nat,
        3,
    ));
    lemma_nm_monotone((d0 + 1) as nat, 32, 3);
    let c1 = (c0 - num_multisets(d0, 4)) as nat;
    assert(num_multisets(0, 3) == 0);
    let d1 = find_digit(c1, 3, 0);
    if d1 > d0 {
        lemma_nm_monotone((d0 + 1) as nat, d1, 3);
        assert(false);
    }
    assert(num_multisets((d1 + 1) as nat, 3) == num_multisets(d1, 3) + num_multisets(
        (d1 + 1) as nat,
        2,
    ));
    lemma_nm_monotone((d1 + 1) as nat, 32, 2);
    let c2 = (c1 - num_multisets(d1, 3)) as nat;
    assert(num_multisets(0, 2) == 0);
    let d2 = find_digit(c2, 2, 0);
    if d2 > d1 {
        lemma_nm_monotone((d1 + 1) as nat, d2, 2);
        assert(false);
    }
    assert(num_multisets((d2 + 1) as nat, 2) == num_multisets(d2, 2) + num_multisets(
        (d2 + 1) as nat,
        1,
    ));
    lemma_nm_one_slot((d2 + 1) as nat);
    let c3 = (c2 - num_multisets(d2, 2)) as nat;
    let s = seq![d0 as u8, d1 as u8, d2 as u8, c3 as u8];
    assert(s.len() == 4 && sorted_desc(s) && in_alphabet(s) && code_of(s) == c);
}

/// A quadruple that carries the same multiset as one whose entries are all
/// alphabet letters consists of alphabet letters itself.
proof fn lemma_alphabet_carries(q: Seq<u8>, s: Seq<u8>)
    requires
        q.len() == 4,
        s.len() == 4,
        mset4(s) == mset4(q),
        in_alphabet(q),
    ensures
        in_alphabet(s),
{
    lemma_mset4_count(s, s[0]);
    lemma_mset4_count(s, s[1]);
    lemma_mset4_count(s, s[2]);
    lemma_mset4_count(s, s[3]);
    lemma_mset4_count(q, s[0]);
    lemma_mset4_count(q, s[1]);
    lemma_mset4_count(q, s[2]);
    lemma_mset4_count(q, s[3]);
}

/// The round trip: encoding a quadruple `q` and decoding the code again gives
/// exactly the descending sort of `q`. Here `s` is any quadruple the encoder
/// may leave behind (descending, same multiset as `q`) and `t` any quadruple
/// the decoder may return for its code (descending, in range, same code);
/// both are then the one descending arrangement of `q`'s multiset.
pub proof fn lemma_round_trip(q: Seq<u8>, s: Seq<u8>, t: Seq<u8>)
    requires
        q.len() == 4,
        in_alphabet(q),
        s.len() == 4,
        sorted_desc(s),
        mset4(s) == mset4(q),
        t.len() == 4,
        sorted_desc(t),
        in_alphabet(t),
        code_of(t) == code_of(s),
    ensures
        t =~= s,
        mset4(t) == mset4(q),
{
    lemma_alphabet_carries(q, s);
    lemma_code_injective(s, t);
}

/// Pack 4 values below 32 into a 16-bit code. The values are preserved as a
/// multiset, but their order is not: the array is sorted descending in place
/// and the code ranks the resulting multiset. Decode with `unpack4x5`.
pub fn pack4x5(list: &mut [u8; 4]) -> (code: u16)
    requires
        in_alphabet(old(list)@),
    ensures
        sorted_desc(final(list)@),
        in_alphabet(final(list)@),
        mset4(final(list)@) == mset4(old(list)@),
        code == code_of(final(list)@),
        code < 52360,
{
    let mut v0: u8 = list[0];
    let mut v1: u8 = list[1];
    let mut v2: u8 = list[2];
    let mut v3: u8 = list[3];
    // A five-comparator sorting network for four entries, descending.
    if v0 < v1 {
        let t = v0;
        v0 = v1;
        v1 = t;
    }
    if v2 < v3 {
        let t = v2;
        v2 = v3;
        v3 = t;
    }
    if v0 < v2 {
        let t = v0;
        v0 = v2;
        v2 = t;
    }
    if v1 < v3 {
        let t = v1;
        v1 = v3;
        v3 = t;
    }
    if v1 < v2 {
        let t = v1;
        v1 = v2;
        v2 = t;
    }
    *list = [v0, v1, v2, v3];
    proof {
        assert(mset4(list@) =~= mset4(old(list)@));
        lemma_code_bound(list@);
    }
    multichoose(v0, 4) + multichoose(v1, 3) + multichoose(v2, 2) + (v3 as u16)
}

/// One digit of the decoder: the largest `digit` whose choice count still
/// fits under `*sum`, found by binary search over the 32-letter alphabet.
/// The count at `digit` (the floor) is subtracted from `*sum`.
fn binary_unchoose(sum: &mut u16, r: u8) -> (digit: u8)
    requires
        1 <= r <= 4,
        *old(sum) < num_multisets(32, r as nat),
    ensures
        digit < 32,
        num_multisets(digit as nat, r as nat) <= *old(sum),
        *old(sum) < num_multisets((digit + 1) as nat, r as nat),
        *final(sum) == *old(sum) - num_multisets(digit as nat, r as nat),
{
    let s: u16 = *sum;
    let mut lo: u8 = 0;
    let mut hi: u8 = 32;
    let mut step: u8 = 16;
    let mut floor: u16 = 0;

    while lo + 1 != hi
        invariant
            1 <= r <= 4,
            lo < hi,
            hi <= 32,
            (step >= 1 && hi == lo + 2 * step) || (step == 0 && hi == lo + 1),
            step == 16 || step == 8 || step == 4 || step == 2 || step == 1 || step == 0,
            floor == num_multisets(lo as nat, r as nat),
            floor <= s,
            s < num_multisets(hi as nat, r as nat),
        decreases step,
    {
        let probe: u8 = lo + step;
        let level: u16 = multichoose(probe, r);
        if s >= level {
            lo = probe;
            floor = level;
        } else {
            hi = hi - step;
        }
        proof {
            assert(step >> 1u8 == step / 2) by (bit_vector);
        }
        step = step >> 1;
    }
    *sum = s - floor;
    lo
}

/// Unpack a code produced by `pack4x5` into the 4 values it ranks, in
/// descending order: the unique descending quadruple with that code.
pub fn unpack4x5(packed: u16) -> (list: [u8; 4])
    requires
        packed < 52360,
    ensures
        sorted_desc(list@),
        in_alphabet(list@),
        code_of(list@) == packed,
{
    proof {
        lemma_total_count();
    }
    let mut rem: u16 = packed;
    let d0 = binary_unchoose(&mut rem, 4);
    proof {
        assert(num_multisets((d0 + 1) as nat, 4) == num_multisets(d0 as nat, 4) + num_multisets(
            (d0 + 1) as nat,
            3,
        ));
        lemma_nm_monotone((d0 + 1) as nat, 32, 3);
    }
    let d1 = binary_unchoose(&mut rem, 3);
    proof {
        if d1 > d0 {
            lemma_nm_monotone((d0 + 1) as nat, d1 as nat, 3);
            assert(false);
        }
        assert(num_multisets((d1 + 1) as nat, 3) == num_multisets(d1 as nat, 3) + num_multisets(
            (d1 + 1) as nat,
            2,
        ));
        lemma_nm_monotone((d1 + 1) as nat, 32, 2);
    }
    let d2 = binary_unchoose(&mut rem, 2);
    proof {
        if d2 > d1 {
            lemma_nm_monotone((d1 + 1) as nat, d2 as nat, 2);
            assert(false);
        }
        assert(num_multisets((d2 + 1) as nat, 2) == num_multisets(d2 as nat, 2) + num_multisets(
            (d2 + 1) as nat,
            1,
        ));
        lemma_nm_one_slot((d2 + 1) as nat);
    }
    let d3 = rem as u8;
    [d0, d1, d2, d3]
}

} // verus!
