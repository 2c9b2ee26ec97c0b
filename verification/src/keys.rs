//! Keys of the persistent log: byte strings in lexicographic order, and the
//! fixed-width big-endian form of a sequence number.

use vstd::arithmetic::div_mod::lemma_div_denominator;
use vstd::prelude::*;

verus! {

/// `a` and `b` agree on their first `at` bytes, and right after them `a`
/// comes first: it ends there while `b` goes on, or it has the smaller byte.
pub open spec fn parts_at(a: Seq<u8>, b: Seq<u8>, at: int) -> bool {
    &&& 0 <= at <= a.len()
    &&& at < b.len()
    &&& forall|i: int| 0 <= i < at ==> a[i] == b[i]
    &&& at < a.len() ==> a[at] < b[at]
}

/// The strict lexicographic order of byte strings, by which the log orders
/// its keys.
pub open spec fn key_before(a: Seq<u8>, b: Seq<u8>) -> bool {
    exists|at: int| parts_at(a, b, at)
}

/// No key comes before itself.
pub proof fn lemma_key_before_irreflexive(a: Seq<u8>)
    ensures
        !key_before(a, a),
{
}

/// The order of keys is transitive.
pub proof fn lemma_key_before_transitive(a: Seq<u8>, b: Seq<u8>, c: Seq<u8>)
    requires
        key_before(a, b),
        key_before(b, c),
    ensures
        key_before(a, c),
{
    let first = choose|at: int| parts_at(a, b, at);
    let second = choose|at: int| parts_at(b, c, at);
    if first <= second {
        assert(parts_at(a, c, first));
    } else {
        assert(parts_at(a, c, second));
    }
}

/// Of two keys at most one comes before the other.
pub proof fn lemma_key_before_asymmetric(a: Seq<u8>, b: Seq<u8>)
    requires
        key_before(a, b),
    ensures
        !key_before(b, a),
{
    if key_before(b, a) {
        lemma_key_before_transitive(a, b, a);
        lemma_key_before_irreflexive(a);
    }
}

/// Of two different keys one comes before the other.
pub proof fn lemma_key_before_total(a: Seq<u8>, b: Seq<u8>)
    ensures
        a == b || key_before(a, b) || key_before(b, a),
{
    if a != b {
        if exists|i: int| 0 <= i < a.len() && i < b.len() && a[i] != b[i] {
            let at = choose_first_difference(a, b);
            if a[at] < b[at] {
                assert(parts_at(a, b, at));
            } else {
                assert(parts_at(b, a, at));
            }
        } else if a.len() < b.len() {
            assert(parts_at(a, b, a.len() as int));
        } else if b.len() < a.len() {
            assert(parts_at(b, a, b.len() as int));
        } else {
            assert(a =~= b);
        }
    }
}

/// The first position at which two keys differ, where there is one.
proof fn choose_first_difference(a: Seq<u8>, b: Seq<u8>) -> (at: int)
    requires
        exists|i: int| 0 <= i < a.len() && i < b.len() && a[i] != b[i],
    ensures
        0 <= at < a.len(),
        at < b.len(),
        a[at] != b[at],
        forall|i: int| 0 <= i < at ==> a[i] == b[i],
{
    let some = choose|i: int| 0 <= i < a.len() && i < b.len() && a[i] != b[i];
    first_difference_up_to(a, b, some)
}

/// The first position at which two keys differ, given one at which they do.
proof fn first_difference_up_to(a: Seq<u8>, b: Seq<u8>, bound: int) -> (at: int)
    requires
        0 <= bound < a.len(),
        bound < b.len(),
        a[bound] != b[bound],
    ensures
        0 <= at <= bound,
        a[at] != b[at],
        forall|i: int| 0 <= i < at ==> a[i] == b[i],
    decreases bound,
{
    if exists|i: int| 0 <= i < bound && a[i] != b[i] {
        let earlier = choose|i: int| 0 <= i < bound && a[i] != b[i];
        first_difference_up_to(a, b, earlier)
    } else {
        bound
    }
}

/// How one key stands to another in the order of keys.
#[derive(Clone, Copy, Debug, PartialEq, Eq, Structural)]
pub enum KeyOrder {
    /// The first key comes before the second.
    Before,
    /// The two keys are the same.
    Same,
    /// The first key comes after the second.
    After,
}

/// Compares two keys.
pub fn key_order(a: &[u8], b: &[u8]) -> (order: KeyOrder)
    ensures
        match order {
            KeyOrder::Before => key_before(a@, b@),
            KeyOrder::Same => a@ == b@,
            KeyOrder::After => key_before(b@, a@),
        },
{
    let mut i: usize = 0;
    while i < a.len() && i < b.len()
        invariant
            i <= a@.len(),
            i <= b@.len(),
            forall|j: int| 0 <= j < i ==> a@[j] == b@[j],
        decreases a@.len() - i,
    {
        if a[i] < b[i] {
            assert(parts_at(a@, b@, i as int));
            return KeyOrder::Before;
        }
        if a[i] > b[i] {
            assert(parts_at(b@, a@, i as int));
            return KeyOrder::After;
        }
        i += 1;
    }
    if i < b.len() {
        assert(parts_at(a@, b@, i as int));
        KeyOrder::Before
    } else if i < a.len() {
        assert(parts_at(b@, a@, i as int));
        KeyOrder::After
    } else {
        assert(a@ =~= b@);
        KeyOrder::Same
    }
}

/// The number of bytes of a sequence key.
pub const KEY_WIDTH: usize = 8;

/// The key under which the log stores the entry with sequence number
/// `number`: the number as eight bytes, most significant byte first.
pub open spec fn sequence_key(number: u64) -> Seq<u8> {
    seq![
        (number / 0x100_0000_0000_0000) as u8,
        (number / 0x1_0000_0000_0000 % 0x100) as u8,
        (number / 0x100_0000_0000 % 0x100) as u8,
        (number / 0x1_0000_0000 % 0x100) as u8,
        (number / 0x100_0000 % 0x100) as u8,
        (number / 0x1_0000 % 0x100) as u8,
        (number / 0x100 % 0x100) as u8,
        (number % 0x100) as u8,
    ]
}

/// Builds the key for a sequence number.
pub fn make_sequence_key(number: u64) -> (key: Vec<u8>)
    ensures
        key@ == sequence_key(number),
{
    let mut key: Vec<u8> = Vec::new();
    key.push((number / 0x100_0000_0000_0000) as u8);
    key.push((number / 0x1_0000_0000_0000 % 0x100) as u8);
    key.push((number / 0x100_0000_0000 % 0x100) as u8);
    key.push((number / 0x1_0000_0000 % 0x100) as u8);
    key.push((number / 0x100_0000 % 0x100) as u8);
    key.push((number / 0x1_0000 % 0x100) as u8);
    key.push((number / 0x100 % 0x100) as u8);
    key.push((number % 0x100) as u8);
    assert(key@ =~= sequence_key(number));
    key
}

/// Sequence keys come in the order of their numbers, and different numbers
/// have different keys.
pub proof fn lemma_sequence_keys_order(a: u64, b: u64)
    ensures
        a < b <==> key_before(sequence_key(a), sequence_key(b)),
        a == b <==> sequence_key(a) == sequence_key(b),
{
    if a < b {
        lemma_smaller_number_smaller_key(a, b);
        lemma_key_before_irreflexive(sequence_key(b));
    } else if b < a {
        lemma_smaller_number_smaller_key(b, a);
        lemma_key_before_asymmetric(sequence_key(b), sequence_key(a));
        lemma_key_before_irreflexive(sequence_key(a));
    } else {
        lemma_key_before_irreflexive(sequence_key(a));
    }
}

/// The number made of all but the last `dropped` bytes of the key of
/// `number`.
spec fn leading_part(number: u64, dropped: nat) -> int
    decreases dropped,
{
    if dropped == 0 {
        number as int
    } else {
        leading_part(number, (dropped - 1) as nat) / 0x100
    }
}

/// Each byte of a sequence key is the last byte of a leading part of the
/// number.
proof fn lemma_key_bytes(number: u64)
    ensures
        sequence_key(number).len() == 8,
        forall|i: int|
            0 <= i < 8 ==> #[trigger] sequence_key(number)[i] == leading_part(
                number,
                (7 - i) as nat,
            ) % 0x100,
        leading_part(number, 8) == 0,
{
    let n = number as int;
    reveal_with_fuel(leading_part, 9);
    lemma_div_denominator(n, 0x100, 0x100);
    lemma_div_denominator(n, 0x1_0000, 0x100);
    lemma_div_denominator(n, 0x100_0000, 0x100);
    lemma_div_denominator(n, 0x1_0000_0000, 0x100);
    lemma_div_denominator(n, 0x100_0000_0000, 0x100);
    lemma_div_denominator(n, 0x1_0000_0000_0000, 0x100);
    lemma_div_denominator(n, 0x100_0000_0000_0000, 0x100);
    assert(leading_part(number, 1) == n / 0x100);
    assert(leading_part(number, 2) == n / 0x1_0000);
    assert(leading_part(number, 3) == n / 0x100_0000);
    assert(leading_part(number, 4) == n / 0x1_0000_0000);
    assert(leading_part(number, 5) == n / 0x100_0000_0000);
    assert(leading_part(number, 6) == n / 0x1_0000_0000_0000);
    assert(leading_part(number, 7) == n / 0x100_0000_0000_0000);
}

/// Of two numbers with the same bytes down to a place, the leading parts
/// down to that place are the same.
proof fn lemma_same_bytes_same_part(a: u64, b: u64, dropped: nat)
    requires
        dropped <= 8,
        forall|i: int| 0 <= i < 8 - dropped ==> sequence_key(a)[i] == sequence_key(b)[i],
    ensures
        leading_part(a, dropped) == leading_part(b, dropped),
    decreases 8 - dropped,
{
    lemma_key_bytes(a);
    lemma_key_bytes(b);
    if dropped < 8 {
        lemma_same_bytes_same_part(a, b, dropped + 1);
        let i = 7 - dropped;
        assert(sequence_key(a)[i] == leading_part(a, (7 - i) as nat) % 0x100);
        assert(sequence_key(b)[i] == leading_part(b, (7 - i) as nat) % 0x100);
        assert(leading_part(a, dropped + 1) == leading_part(a, dropped) / 0x100);
        assert(leading_part(b, dropped + 1) == leading_part(b, dropped) / 0x100);
    }
}

/// The leading parts of the smaller of two numbers are not the larger ones.
proof fn lemma_leading_part_monotonic(a: u64, b: u64, dropped: nat)
    requires
        a <= b,
    ensures
        leading_part(a, dropped) <= leading_part(b, dropped),
    decreases dropped,
{
    if dropped > 0 {
        lemma_leading_part_monotonic(a, b, (dropped - 1) as nat);
    }
}

/// The key of the smaller of two numbers comes first.
proof fn lemma_smaller_number_smaller_key(a: u64, b: u64)
    requires
        a < b,
    ensures
        key_before(sequence_key(a), sequence_key(b)),
{
    let ka = sequence_key(a);
    let kb = sequence_key(b);
    lemma_key_bytes(a);
    lemma_key_bytes(b);
    if forall|i: int| 0 <= i < 8 ==> ka[i] == kb[i] {
        lemma_same_bytes_same_part(a, b, 0);
    } else {
        let some = choose|i: int| 0 <= i < 8 && ka[i] != kb[i];
        let at = first_difference_up_to(ka, kb, some);
        let dropped = (7 - at) as nat;
        lemma_same_bytes_same_part(a, b, dropped + 1);
        lemma_leading_part_monotonic(a, b, dropped);
        assert(leading_part(a, dropped + 1) == leading_part(a, dropped) / 0x100);
        assert(leading_part(b, dropped + 1) == leading_part(b, dropped) / 0x100);
        assert(ka[at] == leading_part(a, (7 - at) as nat) % 0x100);
        assert(kb[at] == leading_part(b, (7 - at) as nat) % 0x100);
        assert(parts_at(ka, kb, at));
    }
}

} // verus!
