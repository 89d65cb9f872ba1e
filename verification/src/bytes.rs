//! Little-endian integers as byte sequences.

use vstd::prelude::*;

verus! {

/// The `width` low-order base-256 digits of `n`, least significant first.
pub open spec fn le_bytes(n: nat, width: nat) -> Seq<u8>
    decreases width,
{
    if width == 0 {
        Seq::empty()
    } else {
        seq![(n % 256) as u8] + le_bytes(n / 256, (width - 1) as nat)
    }
}

/// The number whose base-256 digits, least significant first, are `digits`.
pub open spec fn le_value(digits: Seq<u8>) -> nat
    decreases digits.len(),
{
    if digits.len() == 0 {
        0
    } else {
        digits[0] as nat + 256 * le_value(digits.drop_first())
    }
}

/// 256 to the power `k`: how many numbers `k` bytes can hold.
pub open spec fn pow256(k: nat) -> nat
    decreases k,
{
    if k == 0 {
        1
    } else {
        256 * pow256((k - 1) as nat)
    }
}

/// The four bytes of `x`, least significant first.
pub open spec fn u32_bytes(x: u32) -> Seq<u8> {
    le_bytes(x as nat, 4)
}

/// The eight bytes of `x`, least significant first.
pub open spec fn u64_bytes(x: u64) -> Seq<u8> {
    le_bytes(x as nat, 8)
}

/// The 32-bit number stored at offset `at`.
pub open spec fn u32_at(data: Seq<u8>, at: int) -> u32 {
    le_value(data.subrange(at, at + 4)) as u32
}

/// The 64-bit number stored at offset `at`.
pub open spec fn u64_at(data: Seq<u8>, at: int) -> u64 {
    le_value(data.subrange(at, at + 8)) as u64
}

pub proof fn lemma_pow256()
    ensures
        pow256(4) == 0x1_0000_0000,
        pow256(8) == 0x1_0000_0000_0000_0000,
{
    reveal_with_fuel(pow256, 9);
}

pub broadcast proof fn lemma_le_bytes_len(n: nat, width: nat)
    ensures
        (#[trigger] le_bytes(n, width)).len() == width,
    decreases width,
{
    if width > 0 {
        lemma_le_bytes_len(n / 256, (width - 1) as nat);
    }
}

/// `k` bytes hold a number below 256 to the power `k`.
pub proof fn lemma_le_value_bound(digits: Seq<u8>)
    ensures
        le_value(digits) < pow256(digits.len()),
    decreases digits.len(),
{
    if digits.len() > 0 {
        lemma_le_value_bound(digits.drop_first());
    }
}

/// Reading back the `width` bytes of a number that fits in them gives the number.
pub proof fn lemma_value_of_bytes(n: nat, width: nat)
    requires
        n < pow256(width),
    ensures
        le_value(le_bytes(n, width)) == n,
    decreases width,
{
    if width > 0 {
        let rest = le_bytes(n / 256, (width - 1) as nat);
        lemma_value_of_bytes(n / 256, (width - 1) as nat);
        assert(le_bytes(n, width).drop_first() =~= rest);
    }
}

/// Writing out the number that some bytes hold gives those bytes.
pub proof fn lemma_bytes_of_value(digits: Seq<u8>)
    ensures
        le_bytes(le_value(digits), digits.len()) == digits,
    decreases digits.len(),
{
    if digits.len() > 0 {
        let rest = digits.drop_first();
        lemma_bytes_of_value(rest);
        assert(le_value(digits) % 256 == digits[0] as nat);
        assert(le_value(digits) / 256 == le_value(rest));
        assert(seq![digits[0]] + rest =~= digits);
    }
}

/// The 32-bit number whose bytes stand at offset `at` is read back from there.
pub proof fn lemma_u32_stored(data: Seq<u8>, at: int, x: u32)
    requires
        0 <= at,
        at + 4 <= data.len(),
        data.subrange(at, at + 4) =~= u32_bytes(x),
    ensures
        u32_at(data, at) == x,
{
    lemma_pow256();
    lemma_value_of_bytes(x as nat, 4);
}

/// The 64-bit number whose bytes stand at offset `at` is read back from there.
pub proof fn lemma_u64_stored(data: Seq<u8>, at: int, x: u64)
    requires
        0 <= at,
        at + 8 <= data.len(),
        data.subrange(at, at + 8) =~= u64_bytes(x),
    ensures
        u64_at(data, at) == x,
{
    lemma_pow256();
    lemma_value_of_bytes(x as nat, 8);
}

/// The bytes of the 32-bit number read at offset `at` are the four bytes there.
pub proof fn lemma_u32_loaded(data: Seq<u8>, at: int)
    requires
        0 <= at,
        at + 4 <= data.len(),
    ensures
        u32_at(data, at) == le_value(data.subrange(at, at + 4)),
        u32_bytes(u32_at(data, at)) == data.subrange(at, at + 4),
{
    let digits = data.subrange(at, at + 4);
    lemma_pow256();
    lemma_le_value_bound(digits);
    lemma_bytes_of_value(digits);
}

/// The bytes of the 64-bit number read at offset `at` are the eight bytes there.
pub proof fn lemma_u64_loaded(data: Seq<u8>, at: int)
    requires
        0 <= at,
        at + 8 <= data.len(),
    ensures
        u64_at(data, at) == le_value(data.subrange(at, at + 8)),
        u64_bytes(u64_at(data, at)) == data.subrange(at, at + 8),
{
    let digits = data.subrange(at, at + 8);
    lemma_pow256();
    lemma_le_value_bound(digits);
    lemma_bytes_of_value(digits);
}

/// Two neighbouring stretches of `data` make one.
pub proof fn lemma_join(data: Seq<u8>, from: int, mid: int, to: int)
    requires
        0 <= from <= mid <= to <= data.len(),
    ensures
        data.subrange(from, mid) + data.subrange(mid, to) == data.subrange(from, to),
{
    assert(data.subrange(from, mid) + data.subrange(mid, to) =~= data.subrange(from, to));
}

/// Three stretches that follow one another can be taken together either way.
pub proof fn lemma_regroup(a: Seq<u8>, b: Seq<u8>, c: Seq<u8>)
    ensures
        a + b + c == a + (b + c),
{
    assert(a + b + c =~= a + (b + c));
}

/// Stretches that follow one another.
pub open spec fn concat(parts: Seq<Seq<u8>>) -> Seq<u8>
    decreases parts.len(),
{
    if parts.len() == 0 {
        Seq::empty()
    } else {
        concat(parts.drop_last()) + parts.last()
    }
}

/// Stretches that follow one another, split off at the front.
pub proof fn lemma_concat_first(parts: Seq<Seq<u8>>)
    requires
        parts.len() > 0,
    ensures
        concat(parts) == parts[0] + concat(parts.drop_first()),
    decreases parts.len(),
{
    let others = parts.drop_first();
    if others.len() == 0 {
        assert(concat(parts.drop_last()) =~= Seq::<u8>::empty());
        assert(concat(parts) =~= parts[0] + concat(others));
    } else {
        let init = parts.drop_last();
        lemma_concat_first(init);
        assert(init.drop_first() =~= others.drop_last());
        lemma_regroup(parts[0], concat(others.drop_last()), parts.last());
    }
}

/// Two stretches cut short are a part of the first, or all of it and a part of the second.
pub proof fn lemma_cut(a: Seq<u8>, b: Seq<u8>, len: int)
    requires
        0 <= len <= a.len() + b.len(),
    ensures
        (a + b).take(len) == if len < a.len() {
            a.take(len)
        } else {
            a + b.take(len - a.len())
        },
{
    assert((a + b).take(len) =~= if len < a.len() {
        a.take(len)
    } else {
        a + b.take(len - a.len())
    });
}

/// A stretch at the front and the one that follows it make a longer one.
pub proof fn lemma_take_on(data: Seq<u8>, first: int, more: int)
    requires
        0 <= first,
        0 <= more,
        first + more <= data.len(),
    ensures
        data.take(first) + data.skip(first).take(more) == data.take(first + more),
{
    assert(data.take(first) + data.skip(first).take(more) =~= data.take(first + more));
}

/// A byte of the first of two stretches, changed.
pub proof fn lemma_change_in_front(a: Seq<u8>, b: Seq<u8>, at: int, byte: u8)
    requires
        0 <= at < a.len(),
    ensures
        (a + b).update(at, byte).take(a.len() as int) == a.update(at, byte),
{
    assert((a + b).update(at, byte).take(a.len() as int) =~= a.update(at, byte));
}

/// A stretch with others on both sides.
pub proof fn lemma_middle(a: Seq<u8>, b: Seq<u8>, c: Seq<u8>)
    ensures
        (a + b + c).subrange(a.len() as int, (a.len() + b.len()) as int) == b,
{
    assert((a + b + c).subrange(a.len() as int, (a.len() + b.len()) as int) =~= b);
}

/// What follows a stretch at the front.
pub proof fn lemma_skip_front(a: Seq<u8>, b: Seq<u8>)
    ensures
        (a + b).skip(a.len() as int) == b,
{
    assert((a + b).skip(a.len() as int) =~= b);
}

/// Appends `more` to `out`.
pub fn push_bytes(out: &mut Vec<u8>, more: &[u8])
    ensures
        final(out)@ == old(out)@ + more@,
{
    let ghost before = out@;
    out.extend_from_slice(more);
    assert(out@ =~= before + more@);
}

/// Appends the `width` low-order bytes of `n`, least significant first.
pub fn push_le(out: &mut Vec<u8>, n: u64, width: usize)
    ensures
        final(out)@ == old(out)@ + le_bytes(n as nat, width as nat),
{
    let ghost before = out@;
    let mut rest: u64 = n;
    let mut left: usize = width;
    assert(before + le_bytes(n as nat, width as nat) =~= out@ + le_bytes(rest as nat, left as nat));
    while left > 0
        invariant
            before + le_bytes(n as nat, width as nat) == out@ + le_bytes(rest as nat, left as nat),
        decreases left,
    {
        let ghost tail = le_bytes((rest / 256) as nat, (left - 1) as nat);
        let ghost written = out@;
        out.push((rest % 256) as u8);
        assert(written + le_bytes(rest as nat, left as nat) =~= out@ + tail);
        rest = rest / 256;
        left = left - 1;
    }
    assert(out@ + le_bytes(rest as nat, 0) =~= out@);
}

/// Reads the `width`-byte number at offset `at`.
pub fn read_le(data: &[u8], at: usize, width: usize) -> (n: u64)
    requires
        width <= 8,
        at + width <= data.len(),
    ensures
        n == le_value(data@.subrange(at as int, at + width)),
        n < pow256(width as nat),
{
    let mut value: u64 = 0;
    let mut left: usize = width;
    assert(data@.subrange(at + width, at + width) =~= Seq::<u8>::empty());
    while left > 0
        invariant
            left <= width <= 8,
            at + width <= data.len(),
            value == le_value(data@.subrange(at + left, at + width)),
        decreases left,
    {
        let ghost tail = data@.subrange(at + left, at + width);
        left = left - 1;
        proof {
            lemma_le_value_bound(tail);
            reveal_with_fuel(pow256, 9);
            assert(data@.subrange(at + left, at + width).drop_first() =~= tail);
        }
        value = value * 256 + data[at + left] as u64;
    }
    proof {
        lemma_le_value_bound(data@.subrange(at as int, at + width));
    }
    value
}

/// Reads the 64-bit number at offset `at`.
pub fn read_u64(data: &[u8], at: usize) -> (n: u64)
    requires
        at + 8 <= data.len(),
    ensures
        n == u64_at(data@, at as int),
{
    read_le(data, at, 8)
}

/// Reads the 32-bit number at offset `at`.
pub fn read_u32(data: &[u8], at: usize) -> (n: u32)
    requires
        at + 4 <= data.len(),
    ensures
        n == u32_at(data@, at as int),
        n == le_value(data@.subrange(at as int, at + 4)),
{
    let n: u64 = read_le(data, at, 4);
    proof {
        lemma_pow256();
    }
    n as u32
}

/// Byte `i` of a number is its digit of weight 256 to the power `i`.
pub proof fn law_bytes_are_digits(n: nat, width: nat, i: int)
    requires
        0 <= i < width,
    ensures
        le_bytes(n, width).len() == width,
        le_bytes(n, width)[i] == (n as int / vstd::arithmetic::power::pow(256, i as nat)) % 256,
    decreases width,
{
    lemma_le_bytes_len(n, width);
    reveal(vstd::arithmetic::power::pow);
    if i > 0 {
        let weight = vstd::arithmetic::power::pow(256, (i - 1) as nat);
        law_bytes_are_digits(n / 256, (width - 1) as nat, i - 1);
        vstd::arithmetic::power::lemma_pow_positive(256, (i - 1) as nat);
        vstd::arithmetic::div_mod::lemma_div_denominator(n as int, 256, weight);
        assert(le_bytes(n, width)[i] == le_bytes(n / 256, (width - 1) as nat)[i - 1]);
    }
}

/// One more byte adds its digit with the weight of its place.
pub proof fn law_digits_have_weights(digits: Seq<u8>, digit: u8)
    ensures
        le_value(Seq::<u8>::empty()) == 0,
        le_value(digits.push(digit)) == le_value(digits) + digit * vstd::arithmetic::power::pow(
            256,
            digits.len(),
        ),
    decreases digits.len(),
{
    let more = digits.push(digit);
    reveal(vstd::arithmetic::power::pow);
    if digits.len() > 0 {
        let rest = digits.drop_first();
        let weight = vstd::arithmetic::power::pow(256, rest.len());
        law_digits_have_weights(rest, digit);
        assert(more.drop_first() =~= rest.push(digit));
        assert(256 * (digit * weight) == digit * (256 * weight)) by (nonlinear_arith);
    } else {
        assert(more.drop_first() =~= Seq::<u8>::empty());
        assert(le_value(more.drop_first()) == 0);
    }
}

/// The lowest digit of a stretch and the number that the others hold.
proof fn lemma_first_digit(data: Seq<u8>, from: int, to: int)
    requires
        0 <= from < to <= data.len(),
    ensures
        le_value(data.subrange(from, to)) == data[from] + 256 * le_value(
            data.subrange(from + 1, to),
        ),
{
    assert(data.subrange(from, to).drop_first() =~= data.subrange(from + 1, to));
}

/// The 32-bit number stored at an offset is made up of the four bytes there.
pub proof fn law_u32_at(data: Seq<u8>, at: int)
    requires
        0 <= at,
        at + 4 <= data.len(),
    ensures
        u32_at(data, at) == data[at] + 0x100 * data[at + 1] + 0x1_0000 * data[at + 2] + 0x100_0000
            * data[at + 3],
{
    let end = at + 4;
    lemma_u32_loaded(data, at);
    lemma_first_digit(data, at, end);
    lemma_first_digit(data, at + 1, end);
    lemma_first_digit(data, at + 2, end);
    lemma_first_digit(data, at + 3, end);
    assert(le_value(data.subrange(end, end)) == 0);
}

/// The 64-bit number stored at an offset is made up of the eight bytes there.
pub proof fn law_u64_at(data: Seq<u8>, at: int)
    requires
        0 <= at,
        at + 8 <= data.len(),
    ensures
        u64_at(data, at) == data[at] + 0x100 * data[at + 1] + 0x1_0000 * data[at + 2] + 0x100_0000
            * data[at + 3] + 0x1_0000_0000 * data[at + 4] + 0x100_0000_0000 * data[at + 5]
            + 0x1_0000_0000_0000 * data[at + 6] + 0x100_0000_0000_0000 * data[at + 7],
{
    let end = at + 8;
    lemma_u64_loaded(data, at);
    lemma_first_digit(data, at, end);
    lemma_first_digit(data, at + 1, end);
    lemma_first_digit(data, at + 2, end);
    lemma_first_digit(data, at + 3, end);
    lemma_first_digit(data, at + 4, end);
    lemma_first_digit(data, at + 5, end);
    lemma_first_digit(data, at + 6, end);
    lemma_first_digit(data, at + 7, end);
    assert(le_value(data.subrange(end, end)) == 0);
}

/// Adding a stretch at the end adds its bytes at the end.
pub proof fn law_concat_grows(parts: Seq<Seq<u8>>, part: Seq<u8>)
    ensures
        concat(Seq::<Seq<u8>>::empty()) == Seq::<u8>::empty(),
        concat(parts.push(part)) == concat(parts) + part,
{
    assert(parts.push(part).drop_last() =~= parts);
}

} // verus!
