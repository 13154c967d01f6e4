//! The nonce counter: sixteen bytes read as a little-endian unsigned number.
//!
//! Everything here is stated over [`le_value`], the number a byte sequence
//! stands for, so that carrying and borrowing across bytes are proved to be
//! plain addition modulo `256^16`.

use vstd::prelude::*;

verus! {

/// Width of a nonce in bytes.
pub const NONCE_SIZE: usize = 16;

/// `256^n`.
pub open spec fn pow256(n: nat) -> nat
    decreases n,
{
    if n == 0 {
        1
    } else {
        256 * pow256((n - 1) as nat)
    }
}

/// The number that `bytes` stands for, least significant byte first.
pub open spec fn le_value(bytes: Seq<u8>) -> nat
    decreases bytes.len(),
{
    if bytes.len() == 0 {
        0
    } else {
        bytes[0] as nat + 256 * le_value(bytes.drop_first())
    }
}

/// The `len` low bytes of `value`, least significant byte first.
pub open spec fn le_bytes(value: nat, len: nat) -> Seq<u8>
    decreases len,
{
    if len == 0 {
        Seq::empty()
    } else {
        seq![(value % 256) as u8] + le_bytes(value / 256, (len - 1) as nat)
    }
}

/// The counter `nonce` moved by `delta` steps, wrapping at both ends of its
/// range.
pub open spec fn shifted(nonce: Seq<u8>, delta: int) -> Seq<u8> {
    le_bytes(((le_value(nonce) + delta) % (pow256(nonce.len()) as int)) as nat, nonce.len())
}

/// Signed distance from `current` to `candidate` on the circle of byte
/// values, in `-128 ..= 127`.
pub open spec fn cyclic_distance(candidate: u8, current: u8) -> int {
    let forward = (candidate - current) % 256;
    if forward >= 128 {
        forward - 256
    } else {
        forward
    }
}

/// Whether a carry that enters at byte `from` reaches byte `i`: every byte
/// in between is full.
pub open spec fn carry_reaches(bytes: Seq<u8>, from: int, i: int) -> bool {
    from <= i && forall|j: int| from <= j < i ==> bytes[j] == 255
}

/// Whether a borrow that enters at byte `from` reaches byte `i`: every byte
/// in between is empty.
pub open spec fn borrow_reaches(bytes: Seq<u8>, from: int, i: int) -> bool {
    from <= i && forall|j: int| from <= j < i ==> bytes[j] == 0
}

/// The bytes after one has been added at byte `from`: each byte that the
/// carry reaches steps up, a full one to zero, and the others stay.
pub open spec fn carried(bytes: Seq<u8>, from: int) -> Seq<u8> {
    Seq::new(
        bytes.len(),
        |i: int|
            if carry_reaches(bytes, from, i) {
                if bytes[i] == 255 {
                    0u8
                } else {
                    (bytes[i] + 1) as u8
                }
            } else {
                bytes[i]
            },
    )
}

/// The bytes after one has been taken at byte `from`: each byte that the
/// borrow reaches steps down, an empty one to 255, and the others stay.
pub open spec fn borrowed(bytes: Seq<u8>, from: int) -> Seq<u8> {
    Seq::new(
        bytes.len(),
        |i: int|
            if borrow_reaches(bytes, from, i) {
                if bytes[i] == 0 {
                    255u8
                } else {
                    (bytes[i] - 1) as u8
                }
            } else {
                bytes[i]
            },
    )
}

/// The bytes after the low byte has been set to `low` and the upper bytes
/// have followed it: up by one where the low byte went forward past 255,
/// down by one where it went back past zero.
pub open spec fn resumed(bytes: Seq<u8>, low: u8) -> Seq<u8> {
    let d = cyclic_distance(low, bytes[0]);
    let upper = if d > 0 && low < bytes[0] {
        carried(bytes, 1)
    } else if d < 0 && low > bytes[0] {
        borrowed(bytes, 1)
    } else {
        bytes
    };
    upper.update(0, low)
}

/// No power of 256 is zero.
pub proof fn lemma_pow256_positive(n: nat)
    ensures
        pow256(n) > 0,
    decreases n,
{
    if n > 0 {
        lemma_pow256_positive((n - 1) as nat);
    }
}

/// A byte sequence stands for a number below `256^len`.
pub proof fn lemma_value_bound(bytes: Seq<u8>)
    ensures
        le_value(bytes) < pow256(bytes.len()),
    decreases bytes.len(),
{
    if bytes.len() > 0 {
        lemma_value_bound(bytes.drop_first());
    }
}

/// Replacing byte `i` moves the value by the difference of the two bytes,
/// weighted by `256^i`.
pub proof fn lemma_value_update(bytes: Seq<u8>, i: int, byte: u8)
    requires
        0 <= i < bytes.len(),
    ensures
        le_value(bytes.update(i, byte)) == le_value(bytes) + (byte - bytes[i]) * pow256(i as nat),
    decreases i,
{
    let after = bytes.update(i, byte);
    let d = byte - bytes[i];
    if i == 0 {
        assert(after.drop_first() =~= bytes.drop_first());
        assert(d * pow256(0) == d) by (nonlinear_arith)
            requires
                pow256(0) == 1,
        ;
    } else {
        lemma_value_update(bytes.drop_first(), i - 1, byte);
        assert(after.drop_first() =~= bytes.drop_first().update(i - 1, byte));
        let p = pow256((i - 1) as nat);
        assert(bytes.drop_first()[i - 1] == bytes[i]);
        assert(pow256(i as nat) == 256 * p);
        assert(256 * (d * p) == d * (256 * p)) by (nonlinear_arith);
    }
}

/// Writing a value out in bytes and reading it back loses nothing.
pub proof fn lemma_bytes_of_value(bytes: Seq<u8>)
    ensures
        le_bytes(le_value(bytes), bytes.len()) == bytes,
    decreases bytes.len(),
{
    if bytes.len() > 0 {
        let rest = bytes.drop_first();
        lemma_bytes_of_value(rest);
        let v = le_value(bytes);
        assert(v % 256 == bytes[0] && v / 256 == le_value(rest)) by {
            let b = bytes[0] as int;
            let r = le_value(rest) as int;
            assert((b + 256 * r) % 256 == b && (b + 256 * r) / 256 == r) by (nonlinear_arith)
                requires
                    0 <= b < 256,
                    0 <= r,
            ;
        }
        assert(le_bytes(v, bytes.len()) =~= bytes);
    } else {
        assert(le_bytes(le_value(bytes), bytes.len()) =~= bytes);
    }
}

/// Reading back the `len` low bytes of a value gives the value modulo
/// `256^len`.
pub proof fn lemma_value_of_bytes(value: nat, len: nat)
    ensures
        le_bytes(value, len).len() == len,
        le_value(le_bytes(value, len)) == value % pow256(len),
    decreases len,
{
    if len > 0 {
        let rest = le_bytes(value / 256, (len - 1) as nat);
        lemma_value_of_bytes(value / 256, (len - 1) as nat);
        lemma_pow256_positive((len - 1) as nat);
        let whole = le_bytes(value, len);
        assert(whole.drop_first() =~= rest);
        let m = pow256((len - 1) as nat) as int;
        let v = value as int;
        vstd::arithmetic::div_mod::lemma_mod_breakdown(v, 256, m);
    }
}

/// A number that differs from `x` by a multiple of `m` and lies in `0 .. m`
/// is `x % m`.
pub proof fn lemma_wrapped(x: int, m: int, q: int, r: int)
    requires
        0 <= r < m,
        x == q * m + r,
    ensures
        x % m == r,
{
    vstd::arithmetic::div_mod::lemma_fundamental_div_mod_converse(x, m, q, r);
}

/// Adds one at byte `from` and carries upward; a carry out of the last byte
/// is dropped.
fn carry_from(nonce: &mut [u8; 16], from: usize)
    requires
        from <= 16,
    ensures
        final(nonce)@ == carried(old(nonce)@, from as int),
        le_value(final(nonce)@) == (le_value(old(nonce)@) + pow256(from as nat)) % pow256(16),
{
    let ghost before = nonce@;
    let mut i: usize = from;
    while i < 16
        invariant
            from <= i <= 16,
            before == old(nonce)@,
            le_value(nonce@) + pow256(i as nat) == le_value(before) + pow256(from as nat),
            forall|j: int| from <= j < i ==> before[j] == 255 && nonce@[j] == 0,
            forall|j: int| 0 <= j < 16 && !(from <= j < i) ==> nonce@[j] == before[j],
        decreases 16 - i,
    {
        let byte: u8 = nonce[i];
        if byte == 255 {
            proof {
                lemma_value_update(nonce@, i as int, 0u8);
                assert(pow256((i + 1) as nat) == 256 * pow256(i as nat));
                assert((0 - 255) * pow256(i as nat) + 256 * pow256(i as nat) == pow256(i as nat))
                    by (nonlinear_arith);
            }
            nonce[i] = 0;
            i += 1;
        } else {
            proof {
                lemma_value_update(nonce@, i as int, (byte + 1) as u8);
                assert(((byte + 1) - byte) * pow256(i as nat) == pow256(i as nat))
                    by (nonlinear_arith);
            }
            nonce[i] = byte + 1;
            proof {
                lemma_value_bound(nonce@);
                lemma_wrapped(
                    (le_value(before) + pow256(from as nat)) as int,
                    pow256(16) as int,
                    0,
                    le_value(nonce@) as int,
                );
                assert(before[i as int] != 255);
                assert(nonce@ =~= carried(before, from as int));
            }
            return ;
        }
    }
    proof {
        lemma_value_bound(nonce@);
        lemma_wrapped(
            (le_value(before) + pow256(from as nat)) as int,
            pow256(16) as int,
            1,
            le_value(nonce@) as int,
        );
        assert(nonce@ =~= carried(before, from as int));
    }
}

/// Subtracts one at byte `from` and borrows upward; a borrow out of the last
/// byte is dropped.
fn borrow_from(nonce: &mut [u8; 16], from: usize)
    requires
        from <= 16,
    ensures
        final(nonce)@ == borrowed(old(nonce)@, from as int),
        le_value(final(nonce)@) == (le_value(old(nonce)@) - pow256(from as nat)) % (pow256(
            16,
        ) as int),
{
    let ghost before = nonce@;
    let mut i: usize = from;
    while i < 16
        invariant
            from <= i <= 16,
            before == old(nonce)@,
            le_value(nonce@) - pow256(i as nat) == le_value(before) - pow256(from as nat),
            forall|j: int| from <= j < i ==> before[j] == 0 && nonce@[j] == 255,
            forall|j: int| 0 <= j < 16 && !(from <= j < i) ==> nonce@[j] == before[j],
        decreases 16 - i,
    {
        let byte: u8 = nonce[i];
        if byte == 0 {
            proof {
                lemma_value_update(nonce@, i as int, 255u8);
                assert(pow256((i + 1) as nat) == 256 * pow256(i as nat));
                assert((255 - 0) * pow256(i as nat) - 256 * pow256(i as nat) == -pow256(i as nat))
                    by (nonlinear_arith);
            }
            nonce[i] = 255;
            i += 1;
        } else {
            proof {
                lemma_value_update(nonce@, i as int, (byte - 1) as u8);
                assert(((byte - 1) - byte) * pow256(i as nat) == -pow256(i as nat))
                    by (nonlinear_arith);
            }
            nonce[i] = byte - 1;
            proof {
                lemma_value_bound(nonce@);
                lemma_wrapped(
                    le_value(before) - pow256(from as nat),
                    pow256(16) as int,
                    0,
                    le_value(nonce@) as int,
                );
                assert(before[i as int] != 0);
                assert(nonce@ =~= borrowed(before, from as int));
            }
            return ;
        }
    }
    proof {
        lemma_value_bound(nonce@);
        lemma_wrapped(
            le_value(before) - pow256(from as nat),
            pow256(16) as int,
            -1,
            le_value(nonce@) as int,
        );
        assert(nonce@ =~= borrowed(before, from as int));
    }
}

/// Moves the counter one step forward, carrying across all sixteen bytes.
/// The result is given twice: as the counter's number plus one, and byte by
/// byte.
pub fn increment(nonce: &mut [u8; 16])
    ensures
        final(nonce)@ == shifted(old(nonce)@, 1),
        final(nonce)@ == carried(old(nonce)@, 0),
{
    carry_from(nonce, 0);
    proof {
        lemma_bytes_of_value(nonce@);
    }
}

/// Moves the counter one step back, borrowing across all sixteen bytes.
/// The result is given twice: as the counter's number minus one, and byte by
/// byte.
pub fn decrement(nonce: &mut [u8; 16])
    ensures
        final(nonce)@ == shifted(old(nonce)@, -1),
        final(nonce)@ == borrowed(old(nonce)@, 0),
{
    borrow_from(nonce, 0);
    proof {
        lemma_bytes_of_value(nonce@);
    }
}

/// Signed distance from `current` to `candidate` on the circle of byte
/// values.
pub fn distance(candidate: u8, current: u8) -> (d: i8)
    ensures
        d == cyclic_distance(candidate, current),
{
    let forward: u8 = candidate.wrapping_sub(current);
    proof {
        lemma_distance_cases(candidate, current);
    }
    if forward >= 128 {
        (forward as i16 - 256) as i8
    } else {
        forward as i8
    }
}

/// A carry or a borrow that enters above the low byte does not look at the
/// low byte: it may be set before or after.
pub proof fn lemma_low_byte_apart(bytes: Seq<u8>, low: u8)
    requires
        bytes.len() > 0,
    ensures
        carried(bytes.update(0, low), 1) == carried(bytes, 1).update(0, low),
        borrowed(bytes.update(0, low), 1) == borrowed(bytes, 1).update(0, low),
{
    let placed = bytes.update(0, low);
    assert forall|i: int| 1 <= i < bytes.len() implies carry_reaches(placed, 1, i)
        == carry_reaches(bytes, 1, i) && borrow_reaches(placed, 1, i) == borrow_reaches(
        bytes,
        1,
        i,
    ) by {
        if carry_reaches(bytes, 1, i) {
            assert forall|j: int| 1 <= j < i implies placed[j] == 255 by {
                assert(bytes[j] == 255);
            }
        }
        if carry_reaches(placed, 1, i) {
            assert forall|j: int| 1 <= j < i implies bytes[j] == 255 by {
                assert(placed[j] == 255);
            }
        }
        if borrow_reaches(bytes, 1, i) {
            assert forall|j: int| 1 <= j < i implies placed[j] == 0 by {
                assert(bytes[j] == 0);
            }
        }
        if borrow_reaches(placed, 1, i) {
            assert forall|j: int| 1 <= j < i implies bytes[j] == 0 by {
                assert(placed[j] == 0);
            }
        }
    }
    assert(carried(placed, 1) =~= carried(bytes, 1).update(0, low));
    assert(borrowed(placed, 1) =~= borrowed(bytes, 1).update(0, low));
}

/// The distance is the plain difference of the two bytes, brought into
/// `-128 ..= 127` by one turn of the circle where it lies outside.
pub proof fn lemma_distance_cases(candidate: u8, current: u8)
    ensures
        -128 <= cyclic_distance(candidate, current) <= 127,
        -128 <= candidate - current <= 127 ==> cyclic_distance(candidate, current) == candidate
            - current,
        candidate - current > 127 ==> cyclic_distance(candidate, current) == candidate - current
            - 256,
        candidate - current < -128 ==> cyclic_distance(candidate, current) == candidate - current
            + 256,
{
    let plain = candidate - current;
    if plain >= 0 {
        lemma_wrapped(plain, 256, 0, plain);
    } else {
        lemma_wrapped(plain, 256, -1, plain + 256);
    }
}

/// Sets the low byte to `low` and moves the upper bytes with it: the counter
/// lands on the value nearest to where it stood whose low byte is `low`.
/// The result is given twice: as the counter's number moved by the distance
/// of the two low bytes, and byte by byte.
pub fn resume_at(nonce: &mut [u8; 16], low: u8)
    ensures
        final(nonce)@ == shifted(old(nonce)@, cyclic_distance(low, old(nonce)@[0])),
        final(nonce)@ == resumed(old(nonce)@, low),
{
    let current: u8 = nonce[0];
    let d: i8 = distance(low, current);
    let ghost start = le_value(nonce@) as int;
    let ghost modulus = pow256(16) as int;
    proof {
        lemma_low_byte_apart(nonce@, low);
        lemma_distance_cases(low, current);
        lemma_value_update(nonce@, 0, low);
        assert(pow256(0) == 1);
        assert(pow256(1) == 256) by {
            assert(pow256(1) == 256 * pow256(0));
        }
        assert((low - current) * pow256(0) == low - current) by (nonlinear_arith)
            requires
                pow256(0) == 1,
        ;
    }
    nonce[0] = low;
    let ghost moved = le_value(nonce@) as int;
    assert(moved == start + (low - current));
    if d > 0 && low < current {
        carry_from(nonce, 1);
        assert(le_value(nonce@) == (moved + 256) % modulus);
        assert(moved + 256 == start + d);
    } else if d < 0 && low > current {
        borrow_from(nonce, 1);
        assert(le_value(nonce@) == (moved - 256) % modulus);
        assert(moved - 256 == start + d);
    } else {
        proof {
            assert(moved == start + d);
            lemma_value_bound(nonce@);
            lemma_wrapped(start + d, modulus, 0, moved);
        }
    }
    assert(le_value(nonce@) == (start + d) % modulus);
    proof {
        lemma_bytes_of_value(nonce@);
    }
}

/// For the byte one step ahead, resuming is incrementing.
pub proof fn lemma_resumed_next(bytes: Seq<u8>, low: u8)
    requires
        bytes.len() > 0,
        cyclic_distance(low, bytes[0]) == 1,
    ensures
        resumed(bytes, low) == carried(bytes, 0),
{
    lemma_distance_cases(low, bytes[0]);
    let next = carried(bytes, 0);
    if bytes[0] == 255 {
        assert(low == 0);
        let above = carried(bytes, 1).update(0, low);
        assert forall|i: int| 0 <= i < bytes.len() implies #[trigger] next[i] == above[i] by {
            if i >= 1 {
                if carry_reaches(bytes, 1, i) {
                    assert forall|j: int| 0 <= j < i implies bytes[j] == 255 by {}
                }
                assert(carry_reaches(bytes, 0, i) == carry_reaches(bytes, 1, i));
            }
        }
        assert(above =~= next);
    } else {
        assert(low == bytes[0] + 1);
        let placed = bytes.update(0, low);
        assert forall|i: int| 0 <= i < bytes.len() implies #[trigger] next[i] == placed[i] by {
            if i >= 1 {
                assert(!carry_reaches(bytes, 0, i)) by {
                    assert(bytes[0] != 255);
                }
            }
        }
        assert(placed =~= next);
    }
}

/// Shifting by nothing leaves the counter as it is.
pub proof fn lemma_shifted_zero(nonce: Seq<u8>)
    ensures
        shifted(nonce, 0) == nonce,
{
    lemma_value_bound(nonce);
    lemma_wrapped(le_value(nonce) as int, pow256(nonce.len()) as int, 0, le_value(nonce) as int);
    lemma_bytes_of_value(nonce);
}

/// A shifted counter keeps its width and stands for the shifted value.
pub proof fn lemma_shifted_value(nonce: Seq<u8>, delta: int)
    ensures
        shifted(nonce, delta).len() == nonce.len(),
        le_value(shifted(nonce, delta)) == (le_value(nonce) + delta) % (pow256(
            nonce.len(),
        ) as int),
{
    let m = pow256(nonce.len()) as int;
    lemma_pow256_positive(nonce.len());
    let target = ((le_value(nonce) + delta) % m) as nat;
    lemma_value_of_bytes(target, nonce.len());
    vstd::arithmetic::div_mod::lemma_mod_twice(le_value(nonce) + delta, m);
}

/// Two shifts in a row are one shift by the sum.
pub proof fn lemma_shifted_twice(nonce: Seq<u8>, first: int, second: int)
    ensures
        shifted(shifted(nonce, first), second) == shifted(nonce, first + second),
{
    let m = pow256(nonce.len()) as int;
    let v = le_value(nonce) as int;
    lemma_pow256_positive(nonce.len());
    lemma_shifted_value(nonce, first);
    vstd::arithmetic::div_mod::lemma_add_mod_noop(v + first, second, m);
    vstd::arithmetic::div_mod::lemma_mod_twice(v + first, m);
    vstd::arithmetic::div_mod::lemma_add_mod_noop((v + first) % m, second, m);
}

/// The low byte of a shifted sixteen-byte counter is the old low byte moved
/// by the same number of steps around the circle of byte values.
pub proof fn lemma_shifted_low_byte(nonce: Seq<u8>, delta: int)
    requires
        nonce.len() == 16,
    ensures
        shifted(nonce, delta)[0] == (nonce[0] + delta) % 256,
{
    let m = pow256(16) as int;
    let rest = pow256(15) as int;
    let v = le_value(nonce) as int;
    lemma_pow256_positive(15);
    assert(m == 256 * rest);
    let target = (v + delta) % m;
    // the low byte of the shifted counter is target % 256
    assert(shifted(nonce, delta)[0] == (target % 256) as u8);
    // target differs from v + delta by a multiple of 256
    vstd::arithmetic::div_mod::lemma_fundamental_div_mod(v + delta, m);
    let q = (v + delta) / m;
    assert(v + delta == m * q + target);
    assert(m * q == 256 * (rest * q)) by (nonlinear_arith)
        requires
            m == 256 * rest,
    ;
    let upper = le_value(nonce.drop_first()) as int;
    assert(v == nonce[0] + 256 * upper);
    // hence target == nonce[0] + delta + 256 * (upper - rest * q)
    vstd::arithmetic::div_mod::lemma_mod_multiples_vanish(upper - rest * q, nonce[0] + delta, 256);
    assert(256 * (upper - rest * q) == 256 * upper - 256 * (rest * q)) by (nonlinear_arith);
}

/// Moving a byte by `delta` steps around the circle puts it at distance
/// `delta`, as long as `delta` is a distance at all.
pub proof fn lemma_distance_of_step(low: u8, delta: int)
    requires
        -128 <= delta <= 127,
    ensures
        cyclic_distance(((low + delta) % 256) as u8, low) == delta,
{
    let moved = (low + delta) % 256;
    vstd::arithmetic::div_mod::lemma_fundamental_div_mod(low + delta, 256);
    let q = (low + delta) / 256;
    assert(moved - low == delta - 256 * q);
    vstd::arithmetic::div_mod::lemma_mod_multiples_vanish(-q, delta, 256);
    assert(256 * (-q) + delta == moved - low);
    if delta >= 0 {
        vstd::arithmetic::div_mod::lemma_small_mod(delta as nat, 256);
    } else {
        vstd::arithmetic::div_mod::lemma_mod_multiples_vanish(1, delta, 256);
        vstd::arithmetic::div_mod::lemma_small_mod((delta + 256) as nat, 256);
    }
}

} // verus!
