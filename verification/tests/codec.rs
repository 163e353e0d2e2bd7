use combinadic::choice::multichoose;
use combinadic::pack4x5;
use combinadic::unpack4x5;

#[test]
fn test_multichoose() {
    assert_eq!(multichoose(1, 1), 1);
    assert_eq!(multichoose(16, 1), 16);
    assert_eq!(multichoose(1, 2), 1);
    assert_eq!(multichoose(3, 2), 6);
    assert_eq!(multichoose(5, 2), 15);
    assert_eq!(multichoose(16, 2), 136);
    assert_eq!(multichoose(32, 2), 528);
    assert_eq!(multichoose(1, 3), 1);
    assert_eq!(multichoose(2, 3), 4);
    assert_eq!(multichoose(13, 3), 455);
    assert_eq!(multichoose(29, 3), 4495);
    assert_eq!(multichoose(32, 3), 5984);
    assert_eq!(multichoose(1, 4), 1);
    assert_eq!(multichoose(2, 4), 5);
    assert_eq!(multichoose(17, 4), 4845);
    assert_eq!(multichoose(29, 4), 35960);
    assert_eq!(multichoose(32, 4), 52360);
}

#[test]
fn test_pack4x5() {
    assert_eq!(pack4x5(&mut [0, 0, 0, 0]), 0);
    assert_eq!(pack4x5(&mut [1, 0, 0, 0]), 1);
    assert_eq!(pack4x5(&mut [0, 0, 1, 0]), 1);
    assert_eq!(pack4x5(&mut [1, 0, 1, 0]), 2);
    assert_eq!(pack4x5(&mut [1, 1, 1, 1]), 4);
    assert_eq!(pack4x5(&mut [2, 0, 0, 0]), 5);
    assert_eq!(pack4x5(&mut [8, 0, 0, 0]), 330);
    assert_eq!(pack4x5(&mut [8, 5, 4, 3]), 378);
    assert_eq!(pack4x5(&mut [8, 8, 8, 8]), 494);
    assert_eq!(pack4x5(&mut [14, 12, 12, 4]), 2826);
    assert_eq!(pack4x5(&mut [31, 0, 0, 0]), 46376);
    assert_eq!(pack4x5(&mut [11, 22, 9, 30]), 43019);
}

#[test]
fn test_unpack4x5() {
    assert_eq!(unpack4x5(0), [0, 0, 0, 0]);
    assert_eq!(unpack4x5(1), [1, 0, 0, 0]);
    assert_eq!(unpack4x5(2), [1, 1, 0, 0]);
    assert_eq!(unpack4x5(4), [1, 1, 1, 1]);
    assert_eq!(unpack4x5(5), [2, 0, 0, 0]);
    assert_eq!(unpack4x5(330), [8, 0, 0, 0]);
    assert_eq!(unpack4x5(378), [8, 5, 4, 3]);
    assert_eq!(unpack4x5(494), [8, 8, 8, 8]);
    assert_eq!(unpack4x5(2826), [14, 12, 12, 4]);
    assert_eq!(unpack4x5(46376), [31, 0, 0, 0]);
    assert_eq!(unpack4x5(43019), [30, 22, 11, 9]);
}

/// One slot offers one multiset per letter: multichoose(n, 1) == n.
#[test]
fn test_multichoose_single_slot_is_identity() {
    for n in 0..=32u8 {
        assert_eq!(multichoose(n, 1), n as u16);
    }
}

/// An empty alphabet offers nothing; a one-letter alphabet offers exactly one
/// multiset of every size.
#[test]
fn test_multichoose_degenerate_alphabets() {
    for r in 1..=4u8 {
        assert_eq!(multichoose(0, r), 0);
        assert_eq!(multichoose(1, r), 1);
    }
}

/// Every one of the 52360 descending quadruples survives the round trip, and
/// every code stays in range.
#[test]
fn test_round_trip_all_multisets() {
    for v0 in 0..32u8 {
        for v1 in 0..=v0 {
            for v2 in 0..=v1 {
                for v3 in 0..=v2 {
                    let mut list = [v0, v1, v2, v3];
                    let code = pack4x5(&mut list);
                    assert!(code <= 52359);
                    assert_eq!(unpack4x5(code), [v0, v1, v2, v3]);
                }
            }
        }
    }
}

/// Every code in [0, 52359] decodes to a descending in-range quadruple that
/// encodes back to the same code: the ranking is a bijection.
#[test]
fn test_every_code_names_one_multiset() {
    let mut seen: u32 = 0;
    for code in 0..=52359u16 {
        let list = unpack4x5(code);
        assert!(list[0] >= list[1] && list[1] >= list[2] && list[2] >= list[3]);
        assert!(list[0] < 32);
        let mut again = list;
        assert_eq!(pack4x5(&mut again), code);
        seen += 1;
    }
    assert_eq!(seen, 52360);
}

/// The code of a quadruple does not depend on the order of its entries.
#[test]
fn test_permutation_invariance() {
    let quads: [[u8; 4]; 4] = [[8, 5, 4, 3], [11, 22, 9, 30], [7, 7, 0, 31], [6, 6, 6, 6]];
    let orders: [[usize; 4]; 24] = [
        [0, 1, 2, 3],
        [0, 1, 3, 2],
        [0, 2, 1, 3],
        [0, 2, 3, 1],
        [0, 3, 1, 2],
        [0, 3, 2, 1],
        [1, 0, 2, 3],
        [1, 0, 3, 2],
        [1, 2, 0, 3],
        [1, 2, 3, 0],
        [1, 3, 0, 2],
        [1, 3, 2, 0],
        [2, 0, 1, 3],
        [2, 0, 3, 1],
        [2, 1, 0, 3],
        [2, 1, 3, 0],
        [2, 3, 0, 1],
        [2, 3, 1, 0],
        [3, 0, 1, 2],
        [3, 0, 2, 1],
        [3, 1, 0, 2],
        [3, 1, 2, 0],
        [3, 2, 0, 1],
        [3, 2, 1, 0],
    ];
    for q in quads.iter() {
        let mut first = *q;
        let expected = pack4x5(&mut first);
        for order in orders.iter() {
            let mut arranged = [q[order[0]], q[order[1]], q[order[2]], q[order[3]]];
            assert_eq!(pack4x5(&mut arranged), expected);
        }
    }
}

/// After packing, the caller-supplied array holds the same four values sorted
/// descending.
#[test]
fn test_pack_sorts_in_place() {
    let mut list = [11, 22, 9, 30];
    pack4x5(&mut list);
    assert_eq!(list, [30, 22, 11, 9]);
    let mut ties = [5, 9, 9, 2];
    pack4x5(&mut ties);
    assert_eq!(ties, [9, 9, 5, 2]);
}
