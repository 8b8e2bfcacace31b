//! The byte layouts that messages are made of: fixed-width integers and
//! length-prefixed byte strings, and why no two of them can be confused.
use vstd::arithmetic::power::pow;
use vstd::prelude::*;

verus! {

/// Why a message could not be read: the bytes are not the start of any.
#[derive(Debug, Clone, Copy, PartialEq, Eq, Structural)]
pub struct InvalidData;

/// What `bincode` reports when it fails.
#[verifier::external_type_specification]
#[verifier::external_body]
pub struct ExBincodeErrorKind(bincode::ErrorKind);

/// The `width` low-order bytes of `n`, least significant first.
pub open spec fn le_bytes(n: nat, width: nat) -> Seq<u8>
    decreases width,
{
    if width == 0 {
        Seq::empty()
    } else {
        seq![(n % 256) as u8] + le_bytes(n / 256, (width - 1) as nat)
    }
}

/// The `width` low-order bytes of `n`, most significant first.
pub open spec fn be_bytes(n: nat, width: nat) -> Seq<u8>
    decreases width,
{
    if width == 0 {
        Seq::empty()
    } else {
        be_bytes(n / 256, (width - 1) as nat).push((n % 256) as u8)
    }
}

/// A byte string on the wire: its length in eight bytes, then its contents.
pub open spec fn field_bytes(contents: Seq<u8>) -> Seq<u8> {
    le_bytes(contents.len(), 8) + contents
}

/// An integer written in `width` bytes takes `width` bytes.
pub proof fn lemma_le_bytes_len(n: nat, width: nat)
    ensures
        le_bytes(n, width).len() == width,
    decreases width,
{
    if width > 0 {
        lemma_le_bytes_len(n / 256, (width - 1) as nat);
    }
}

/// Two integers that fit in `width` bytes and are written alike are equal.
pub proof fn lemma_le_bytes_injective(a: nat, b: nat, width: nat)
    requires
        a < pow(256, width),
        b < pow(256, width),
        le_bytes(a, width) == le_bytes(b, width),
    ensures
        a == b,
    decreases width,
{
    reveal_with_fuel(pow, 2);
    if width > 0 {
        let rest = (width - 1) as nat;
        let (la, lb) = (le_bytes(a, width), le_bytes(b, width));
        assert(la[0] == (a % 256) as u8 && lb[0] == (b % 256) as u8);
        assert(la.skip(1) =~= le_bytes(a / 256, rest));
        assert(lb.skip(1) =~= le_bytes(b / 256, rest));
        assert(pow(256, width) == 256 * pow(256, rest));
        lemma_le_bytes_injective(a / 256, b / 256, rest);
    }
}

/// What four and eight bytes can hold.
pub proof fn lemma_word_ranges()
    ensures
        pow(256, 4) == u32::MAX + 1,
        pow(256, 8) == u64::MAX + 1,
{
    reveal_with_fuel(pow, 9);
}

/// Where two encodings that start with a fixed-width integer agree, the
/// integers agree and so does what follows them.
pub proof fn lemma_split_integer(a: nat, b: nat, width: nat, after_a: Seq<u8>, after_b: Seq<u8>)
    requires
        a < pow(256, width),
        b < pow(256, width),
        le_bytes(a, width) + after_a == le_bytes(b, width) + after_b,
    ensures
        a == b,
        after_a == after_b,
{
    lemma_le_bytes_len(a, width);
    lemma_le_bytes_len(b, width);
    let (left, right) = (le_bytes(a, width) + after_a, le_bytes(b, width) + after_b);
    assert(left.take(width as int) =~= le_bytes(a, width));
    assert(right.take(width as int) =~= le_bytes(b, width));
    assert(left.skip(width as int) =~= after_a);
    assert(right.skip(width as int) =~= after_b);
    lemma_le_bytes_injective(a, b, width);
}

/// Where two encodings that start with a byte string agree, the byte strings
/// agree and so does what follows them.
pub proof fn lemma_split_field(a: Seq<u8>, b: Seq<u8>, after_a: Seq<u8>, after_b: Seq<u8>)
    requires
        a.len() <= u64::MAX,
        b.len() <= u64::MAX,
        field_bytes(a) + after_a == field_bytes(b) + after_b,
    ensures
        a == b,
        after_a == after_b,
{
    lemma_word_ranges();
    assert(field_bytes(a) + after_a =~= le_bytes(a.len(), 8) + (a + after_a));
    assert(field_bytes(b) + after_b =~= le_bytes(b.len(), 8) + (b + after_b));
    lemma_split_integer(a.len(), b.len(), 8, a + after_a, b + after_b);
    let n = a.len() as int;
    assert((a + after_a).take(n) =~= a);
    assert((b + after_b).take(n) =~= b);
    assert((a + after_a).skip(n) =~= after_a);
    assert((b + after_b).skip(n) =~= after_b);
}

/// Concatenation is associative.
pub proof fn lemma_regroup(a: Seq<u8>, b: Seq<u8>, c: Seq<u8>)
    ensures
        (a + b) + c == a + (b + c),
{
    assert((a + b) + c =~= a + (b + c));
}

/// A sequence is one of its prefixes followed by the rest.
pub proof fn lemma_prefix_rest(prefix: Seq<u8>, whole: Seq<u8>)
    requires
        prefix.is_prefix_of(whole),
    ensures
        whole == prefix + whole.skip(prefix.len() as int),
{
    assert(whole =~= prefix + whole.skip(prefix.len() as int));
}

/// Whether two byte strings are the same.
pub fn same_bytes(a: &[u8], b: &[u8]) -> (same: bool)
    ensures
        same == (a@ == b@),
{
    if a.len() != b.len() {
        return false;
    }
    for i in 0..a.len()
        invariant
            a@.len() == b@.len(),
            forall|j: int| 0 <= j < i ==> a@[j] == b@[j],
    {
        if a[i] != b[i] {
            return false;
        }
    }
    assert(a@ =~= b@);
    true
}

/// Eight bytes, least significant first, hold the number that they add up to.
pub proof fn law_little_endian(n: nat)
    requires
        n <= u64::MAX,
    ensures
        le_bytes(n, 8).len() == 8,
        le_bytes(n, 8)[0] + 0x100 * le_bytes(n, 8)[1] + 0x1_0000 * le_bytes(n, 8)[2] + 0x100_0000
            * le_bytes(n, 8)[3] + 0x1_0000_0000 * le_bytes(n, 8)[4] + 0x100_0000_0000 * le_bytes(n, 8)[5]
            + 0x1_0000_0000_0000 * le_bytes(n, 8)[6] + 0x100_0000_0000_0000 * le_bytes(n, 8)[7] == n,
        n <= u32::MAX ==> le_bytes(n, 4) == le_bytes(n, 8).take(4),
        n <= u16::MAX ==> le_bytes(n, 2) == le_bytes(n, 8).take(2),
{
    reveal_with_fuel(le_bytes, 9);
    assert(le_bytes(n, 4) =~= le_bytes(n, 8).take(4));
    assert(le_bytes(n, 2) =~= le_bytes(n, 8).take(2));
}

/// The last digit of a number to the base 256, and the digits before it.
proof fn lemma_last_digit(n: int, before: int, last: int)
    requires
        n == 256 * before + last,
        0 <= last < 256,
    ensures
        n % 256 == last,
        n / 256 == before,
{
}

/// The eight digits of a number to the base 256.
proof fn lemma_eight_digits(n: int, digits: Seq<u8>)
    requires
        digits.len() == 8,
        0x100_0000_0000_0000 * digits[0] + 0x1_0000_0000_0000 * digits[1] + 0x100_0000_0000 * digits[2]
            + 0x1_0000_0000 * digits[3] + 0x100_0000 * digits[4] + 0x1_0000 * digits[5] + 0x100
            * digits[6] + digits[7] == n,
    ensures
        digits == be_bytes(n as nat, 8),
{
    let d = digits;
    let n1 = 0x1_0000_0000_0000 * d[0] + 0x100_0000_0000 * d[1] + 0x1_0000_0000 * d[2] + 0x100_0000 * d[3]
        + 0x1_0000 * d[4] + 0x100 * d[5] + d[6];
    let n2 = 0x100_0000_0000 * d[0] + 0x1_0000_0000 * d[1] + 0x100_0000 * d[2] + 0x1_0000 * d[3] + 0x100
        * d[4] + d[5];
    let n3 = 0x1_0000_0000 * d[0] + 0x100_0000 * d[1] + 0x1_0000 * d[2] + 0x100 * d[3] + d[4];
    let n4 = 0x100_0000 * d[0] + 0x1_0000 * d[1] + 0x100 * d[2] + d[3];
    let n5 = 0x1_0000 * d[0] + 0x100 * d[1] + d[2];
    let n6 = 0x100 * d[0] + d[1];
    let n7 = d[0] as int;
    lemma_last_digit(n, n1, d[7] as int);
    lemma_last_digit(n1, n2, d[6] as int);
    lemma_last_digit(n2, n3, d[5] as int);
    lemma_last_digit(n3, n4, d[4] as int);
    lemma_last_digit(n4, n5, d[3] as int);
    lemma_last_digit(n5, n6, d[2] as int);
    lemma_last_digit(n6, n7, d[1] as int);
    assert(be_bytes(0, 0) =~= d.take(0));
    assert(be_bytes(n7 as nat, 1) =~= d.take(1));
    assert(be_bytes(n6 as nat, 2) =~= d.take(2));
    assert(be_bytes(n5 as nat, 3) =~= d.take(3));
    assert(be_bytes(n4 as nat, 4) =~= d.take(4));
    assert(be_bytes(n3 as nat, 5) =~= d.take(5));
    assert(be_bytes(n2 as nat, 6) =~= d.take(6));
    assert(be_bytes(n1 as nat, 7) =~= d.take(7));
    assert(be_bytes(n as nat, 8) =~= d.take(8));
    assert(d.take(8) =~= d);
}

/// Eight bytes hold a number, most significant first, exactly if they add up to it.
pub proof fn law_big_endian(n: u64, bytes: Seq<u8>)
    ensures
        bytes == be_bytes(n as nat, 8) <==> bytes.len() == 8 && 0x100_0000_0000_0000 * bytes[0]
            + 0x1_0000_0000_0000 * bytes[1] + 0x100_0000_0000 * bytes[2] + 0x1_0000_0000 * bytes[3]
            + 0x100_0000 * bytes[4] + 0x1_0000 * bytes[5] + 0x100 * bytes[6] + bytes[7] == n,
{
    let (n1, n2, n3) = (n / 256, n / 256 / 256, n / 256 / 256 / 256);
    let (n4, n5, n6) = (n3 / 256, n3 / 256 / 256, n3 / 256 / 256 / 256);
    let n7 = n6 / 256;
    let digits = seq![
        n7 as u8,
        (n6 % 256) as u8,
        (n5 % 256) as u8,
        (n4 % 256) as u8,
        (n3 % 256) as u8,
        (n2 % 256) as u8,
        (n1 % 256) as u8,
        (n % 256) as u8,
    ];
    lemma_eight_digits(n as int, digits);
    if bytes.len() == 8 && 0x100_0000_0000_0000 * bytes[0] + 0x1_0000_0000_0000 * bytes[1]
        + 0x100_0000_0000 * bytes[2] + 0x1_0000_0000 * bytes[3] + 0x100_0000 * bytes[4] + 0x1_0000
        * bytes[5] + 0x100 * bytes[6] + bytes[7] == n {
        lemma_eight_digits(n as int, bytes);
    }
}

/// Byte strings are the same exactly if they are equally long and the same everywhere.
pub proof fn law_byte_strings_are_compared_whole(a: &[u8], b: &[u8], same: bool)
    requires
        call_ensures(same_bytes, (a, b), same),
    ensures
        same <==> a@.len() == b@.len() && forall|i: int| 0 <= i < a@.len() ==> #[trigger] a@[i] == b@[i],
        call_requires(same_bytes, (a, b)),
{
    if a@.len() == b@.len() && forall|i: int| 0 <= i < a@.len() ==> #[trigger] a@[i] == b@[i] {
        assert(a@ =~= b@);
    }
}

} // verus!
