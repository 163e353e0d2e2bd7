//! The choice-count function: how many size-`r` multisets can be drawn from an
//! alphabet of `n` values, together with the arithmetic facts about it that the
//! encoder and decoder rely on.

use vstd::prelude::*;

verus! {

/// The number of distinct size-`r` multisets drawable from an alphabet of `n`
/// values, i.e. the binomial coefficient `C(n + r - 1, r)`, stated by Pascal's
/// recurrence: a multiset either avoids the last letter (`n - 1` letters left)
/// or contains it at least once (`r - 1` slots left).
pub open spec fn num_multisets(n: nat, r: nat) -> nat
    decreases n + r,
{
    if r == 0 {
        1
    } else if n == 0 {
        0
    } else {
        num_multisets((n - 1) as nat, r) + num_multisets(n, (r - 1) as nat)
    }
}

/// With a single slot, the count is just the alphabet size: each multiset is
/// one choice of letter.
pub proof fn lemma_nm_one_slot(n: nat)
    ensures
        num_multisets(n, 1) == n,
    decreases n,
{
    if n > 0 {
        lemma_nm_one_slot((n - 1) as nat);
        assert(num_multisets(n, 0) == 1);
    }
}

/// With no letters at all there is no multiset of any positive size.
pub proof fn lemma_nm_empty(r: nat)
    requires
        r >= 1,
    ensures
        num_multisets(0, r) == 0,
{
}

/// With a single letter there is exactly one multiset of any size: that many
/// copies of the letter.
pub proof fn lemma_nm_one_letter(r: nat)
    ensures
        num_multisets(1, r) == 1,
    decreases r,
{
    if r > 0 {
        lemma_nm_one_letter((r - 1) as nat);
        assert(num_multisets(0, r) == 0);
    }
}

/// The count never shrinks as the alphabet grows.
pub proof fn lemma_nm_monotone(n1: nat, n2: nat, r: nat)
    requires
        n1 <= n2,
    ensures
        num_multisets(n1, r) <= num_multisets(n2, r),
    decreases n2 - n1,
{
    if n1 < n2 {
        lemma_nm_monotone(n1, (n2 - 1) as nat, r);
    }
}

/// Closed form for two slots: `num_multisets(n, 2) == n * (n + 1) / 2`,
/// stated multiplied out so that no division appears.
pub proof fn lemma_nm_two_slots(n: nat)
    ensures
        2 * num_multisets(n, 2) == n * (n + 1),
    decreases n,
{
    if n > 0 {
        lemma_nm_two_slots((n - 1) as nat);
        lemma_nm_one_slot(n);
        assert(num_multisets(n, 2) == num_multisets((n - 1) as nat, 2) + num_multisets(n, 1));
        assert(2 * num_multisets((n - 1) as nat, 2) == (n - 1) * n);
        assert((n - 1) * n + 2 * n == n * (n + 1)) by (nonlinear_arith);
        assert(2 * num_multisets(n, 2) == n * (n + 1));
    } else {
        assert(num_multisets(n, 2) == 0);
        assert(2 * num_multisets(n, 2) == n * (n + 1));
    }
}

/// Closed form for three slots: `num_multisets(n, 3) == n * (n + 1) * (n + 2) / 6`.
pub proof fn lemma_nm_three_slots(n: nat)
    ensures
        6 * num_multisets(n, 3) == n * (n + 1) * (n + 2),
    decreases n,
{
    if n > 0 {
        lemma_nm_three_slots((n - 1) as nat);
        lemma_nm_two_slots(n);
        assert(num_multisets(n, 3) == num_multisets((n - 1) as nat, 3) + num_multisets(n, 2));
        assert(6 * num_multisets(n, 3) == n * (n + 1) * (n + 2)) by (nonlinear_arith)
            requires
                n >= 1,
                num_multisets(n, 3) == num_multisets((n - 1) as nat, 3) + num_multisets(n, 2),
                6 * num_multisets((n - 1) as nat, 3) == (n - 1) * n * (n + 1),
                2 * num_multisets(n, 2) == n * (n + 1),
        ;
    } else {
        assert(num_multisets(n, 3) == 0);
        assert(n * (n + 1) * (n + 2) == 0) by (nonlinear_arith)
            requires
                n == 0,
        ;
    }
}

/// Closed form for four slots:
/// `num_multisets(n, 4) == n * (n + 1) * (n + 2) * (n + 3) / 24`.
pub proof fn lemma_nm_four_slots(n: nat)
    ensures
        24 * num_multisets(n, 4) == n * (n + 1) * (n + 2) * (n + 3),
    decreases n,
{
    if n > 0 {
        lemma_nm_four_slots((n - 1) as nat);
        lemma_nm_three_slots(n);
        assert(num_multisets(n, 4) == num_multisets((n - 1) as nat, 4) + num_multisets(n, 3));
        assert(24 * num_multisets(n, 4) == n * (n + 1) * (n + 2) * (n + 3)) by (nonlinear_arith)
            requires
                n >= 1,
                num_multisets(n, 4) == num_multisets((n - 1) as nat, 4) + num_multisets(n, 3),
                24 * num_multisets((n - 1) as nat, 4) == (n - 1) * n * (n + 1) * (n + 2),
                6 * num_multisets(n, 3) == n * (n + 1) * (n + 2),
        ;
    } else {
        assert(num_multisets(n, 4) == 0);
        assert(n * (n + 1) * (n + 2) * (n + 3) == 0) by (nonlinear_arith)
            requires
                n == 0,
        ;
    }
}

/// The whole code space: 52360 multisets of size 4 over 32 letters, so every
/// code is below 52360.
pub proof fn lemma_total_count()
    ensures
        num_multisets(32, 4) == 52360,
{
    lemma_nm_four_slots(32);
    assert(32nat * (32nat + 1) * (32nat + 2) * (32nat + 3) == 1256640) by (nonlinear_arith);
}

/// Fixed-point reciprocal of 3 in 0.16 format, rounded up: multiplying by it
/// and shifting right by 16 divides exactly by 3 on the domain below.
const ONE_THIRD_15Q16: u32 = 0x5556;

/// Division by 3 through one multiply and one shift. Exact only because the
/// dividend is a multiple of 3 and small; the contract keeps it on that domain.
fn div3(n: u32) -> (q: u32)
    requires
        n % 3 == 0,
        n < 0x10000,
    ensures
        q == n / 3,
{
    let wide: u32 = n * ONE_THIRD_15Q16;
    proof {
        assert(wide >> 16u32 == n / 3) by (bit_vector)
            requires
                wide == n * 0x5556 && n % 3 == 0 && n < 0x10000,
        ;
    }
    wide >> 16
}

/// The choice count, computed. `r` is the multiset size (1 to 4), `n` the
/// alphabet size (0 to 32). The closed form `C(n + r - 1, r)` is specialized
/// per `r`: the factorials cancel to the product `n * ... * (n + r - 1)`
/// divided by `r!`, taken apart into single exact divisions.
pub fn multichoose(n: u8, r: u8) -> (count: u16)
    requires
        1 <= r <= 4,
        n <= 32,
    ensures
        count == num_multisets(n as nat, r as nat),
{
    if n == 0 {
        proof {
            assert(num_multisets(0, r as nat) == 0);
        }
        0
    } else if n == 1 {
        proof {
            lemma_nm_one_letter(r as nat);
        }
        1
    } else if n == 2 {
        proof {
            reveal_with_fuel(num_multisets, 8);
            if r == 1 {
                assert(num_multisets(n as nat, r as nat) == num_multisets(2, 1));
            } else if r == 2 {
                assert(num_multisets(n as nat, r as nat) == num_multisets(2, 2));
            } else if r == 3 {
                assert(num_multisets(n as nat, r as nat) == num_multisets(2, 3));
            } else {
                assert(num_multisets(n as nat, r as nat) == num_multisets(2, 4));
            }
        }
        r as u16 + 1
    } else if n == 3 {
        // For 3 letters the count collapses to the triangular numbers
        // (r + 1)(r + 2) / 2.
        proof {
            assert((r as u16 + 1) * (r as u16 + 2) <= 30) by (bit_vector)
                requires
                    r <= 4,
            ;
        }
        let t: u16 = (r as u16 + 1) * (r as u16 + 2);
        proof {
            assert((r == 1 ==> t >> 1u16 == 3) && (r == 2 ==> t >> 1u16 == 6) && (r == 3 ==> t
                >> 1u16 == 10) && (r == 4 ==> t >> 1u16 == 15)) by (bit_vector)
                requires
                    t == (r as u16 + 1) * (r as u16 + 2),
            ;
            reveal_with_fuel(num_multisets, 10);
            if r == 1 {
                assert(num_multisets(n as nat, r as nat) == num_multisets(3, 1));
            } else if r == 2 {
                assert(num_multisets(n as nat, r as nat) == num_multisets(3, 2));
            } else if r == 3 {
                assert(num_multisets(n as nat, r as nat) == num_multisets(3, 3));
            } else {
                assert(num_multisets(n as nat, r as nat) == num_multisets(3, 4));
            }
        }
        t >> 1
    } else {
        let nn: u32 = n as u32;
        proof {
            lemma_nm_one_slot(n as nat);
            lemma_nm_two_slots(n as nat);
            assert(nn * (nn + 1) <= 1056 && (nn * (nn + 1)) % 2 == 0) by (nonlinear_arith)
                requires
                    nn <= 32,
            ;
        }
        let square: u32 = nn * (nn + 1);
        proof {
            assert(square >> 1u32 == square / 2) by (bit_vector);
        }
        let half_square: u32 = square >> 1;
        if r == 1 {
            proof {
                assert(n as u16 == num_multisets(n as nat, r as nat));
            }
            n as u16
        } else if r == 2 {
            proof {
                assert(half_square == num_multisets(n as nat, r as nat));
            }
            half_square as u16
        } else {
            proof {
                lemma_nm_three_slots(n as nat);
                // 2 * half_square * (n + 2) == n(n+1)(n+2) == 6 * num_multisets(n, 3),
                // so the product below is three times the three-slot count.
                assert(nn * (nn + 1) * (nn + 2) == 2 * (square / 2 * (nn + 2))) by (nonlinear_arith)
                    requires
                        square == nn * (nn + 1) && square % 2 == 0,
                ;
                assert(half_square * (nn + 2) <= 17952) by (nonlinear_arith)
                    requires
                        half_square <= 528 && nn <= 32,
                ;
            }
            let triple: u32 = half_square * (nn + 2);
            proof {
                assert(triple == 3 * num_multisets(n as nat, 3));
                assert(triple % 3 == 0);
            }
            let third: u32 = div3(triple);
            if r == 3 {
                proof {
                    assert(third == num_multisets(n as nat, r as nat));
                }
                third as u16
            } else {
                proof {
                    lemma_nm_four_slots(n as nat);
                    assert(nn * (nn + 1) * (nn + 2) * (nn + 3) == (nn * (nn + 1) * (nn + 2)) * (nn
                        + 3)) by (nonlinear_arith);
                    assert(third * (nn + 3) <= 209440) by (nonlinear_arith)
                        requires
                            third <= 5984 && nn <= 32,
                    ;
                }
                let quad: u32 = third * (nn + 3);
                proof {
                    // quad == num_multisets(n, 3) * (n + 3) == 4 * num_multisets(n, 4)
                    assert(quad == 4 * num_multisets(n as nat, 4)) by (nonlinear_arith)
                        requires
                            quad == third * (nn + 3),
                            third == num_multisets(n as nat, 3),
                            6 * num_multisets(n as nat, 3) == nn * (nn + 1) * (nn + 2),
                            24 * num_multisets(n as nat, 4) == nn * (nn + 1) * (nn + 2) * (nn + 3),
                    ;
                    assert(quad >> 2u32 == quad / 4) by (bit_vector);
                    assert(quad >> 2u32 == num_multisets(n as nat, r as nat));
                }
                (quad >> 2) as u16
            }
        }
    }
}

} // verus!
