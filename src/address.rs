//! Conversions between IPv4 addresses as octets, as integers and as
//! dotted-decimal text, and between prefix lengths and masks.
use vstd::prelude::*;
use vstd::arithmetic::div_mod::lemma_fundamental_div_mod;
use vstd::arithmetic::mul::lemma_mul_is_commutative;
use vstd::arithmetic::power2::{
    lemma2_to64, lemma_pow2_pos, lemma_pow2_strictly_increases, lemma_pow2_unfold, pow2,
};
use vstd::bits::{lemma_u64_shl_is_mul, lemma_u64_shr_is_div};
use vstd::string::*;
use crate::error::VlsmError;

verus! {

/// Number of addresses in the whole IPv4 space.
pub open spec fn address_space() -> nat {
    0x1_0000_0000
}

/// The four octets of `v`, most significant first.
pub open spec fn octets_of(v: nat) -> Seq<u8> {
    seq![
        (v / 0x100_0000 % 256) as u8,
        (v / 0x1_0000 % 256) as u8,
        (v / 0x100 % 256) as u8,
        (v % 256) as u8,
    ]
}

/// The integer that four octets spell, most significant first.
pub open spec fn value_of(o: Seq<u8>) -> nat {
    (o[0] * 0x100_0000 + o[1] * 0x1_0000 + o[2] * 0x100 + o[3]) as nat
}

/// The mask of a prefix length: `prefix` one bits followed by zero bits.
pub open spec fn mask_of(prefix: nat) -> nat {
    (address_space() - pow2((32 - prefix) as nat)) as nat
}

/// The address with its host bits cleared.
pub open spec fn network_id_of(address: nat, prefix: nat) -> nat {
    address / pow2((32 - prefix) as nat) * pow2((32 - prefix) as nat)
}

/// How many of the 32 bits of `m` are set.
pub open spec fn count_ones(m: nat, bits: nat) -> nat
    decreases bits,
{
    if bits == 0 {
        0
    } else {
        m % 2 + count_ones(m / 2, (bits - 1) as nat)
    }
}

/// The prefix length a mask stands for: the number of its one bits.
pub open spec fn mask_prefix_len(m: nat) -> nat {
    count_ones(m, 32)
}

pub open spec fn digit_char(d: nat) -> char {
    seq!['0', '1', '2', '3', '4', '5', '6', '7', '8', '9'][d as int]
}

/// The decimal digits of `n`, without leading zeros.
pub open spec fn decimal(n: nat) -> Seq<char>
    decreases n,
{
    if n < 10 {
        seq![digit_char(n)]
    } else {
        decimal(n / 10).push(digit_char(n % 10))
    }
}

/// Dotted-decimal text of four octets, such as `192.168.0.1`.
pub open spec fn dotted(o: Seq<u8>) -> Seq<char> {
    decimal(o[0] as nat) + seq!['.'] + decimal(o[1] as nat) + seq!['.'] + decimal(o[2] as nat)
        + seq!['.'] + decimal(o[3] as nat)
}

/// Packing four octets and unpacking the result gives the octets back.
pub proof fn lemma_octets_round_trip(v: u32)
    ensures
        value_of(octets_of(v as nat)) == v,
        octets_of(v as nat).len() == 4,
{
    assert((v / 0x100_0000 % 256) * 0x100_0000 + (v / 0x1_0000 % 256) * 0x1_0000 + (v / 0x100
        % 256) * 0x100 + v % 256 == v) by (bit_vector);
}

/// Reading an integer from four octets and writing it back gives the octets.
pub proof fn lemma_value_round_trip(o: Seq<u8>)
    requires
        o.len() == 4,
    ensures
        value_of(o) < address_space(),
        octets_of(value_of(o)) == o,
{
    let (a, b, c, d) = (o[0], o[1], o[2], o[3]);
    let v: u32 = (a * 0x100_0000 + b * 0x1_0000 + c * 0x100 + d) as u32;
    assert(v / 0x100_0000 % 256 == a && v / 0x1_0000 % 256 == b && v / 0x100 % 256 == c && v
        % 256 == d) by (bit_vector)
        requires
            v == a * 0x100_0000 + b * 0x1_0000 + c * 0x100 + d,
    ;
    assert(octets_of(value_of(o)) =~= o);
}

/// Big-endian packing of four octets into one integer; any other number of
/// octets is not an address.
pub fn convert_cidr_to_binary(cidr: Vec<u8>) -> (r: Result<u32, VlsmError>)
    ensures
        cidr@.len() == 4 ==> r == Ok::<u32, VlsmError>(value_of(cidr@) as u32),
        cidr@.len() != 4 ==> r == Err::<u32, VlsmError>(VlsmError::InvalidAddress),
{
    if cidr.len() != 4 {
        return Err(VlsmError::InvalidAddress);
    }
    let mut binary: u32 = cidr[0] as u32;
    binary = binary * 256 + cidr[1] as u32;
    binary = binary * 256 + cidr[2] as u32;
    binary = binary * 256 + cidr[3] as u32;
    Ok(binary)
}

/// The four octets of an address, most significant first.
pub fn convert_binary_to_cidr(binary: u32) -> (r: Vec<u8>)
    ensures
        r@ == octets_of(binary as nat),
{
    let mut network_id: Vec<u8> = Vec::new();
    network_id.push((binary >> 24 & 0xFF) as u8);
    network_id.push((binary >> 16 & 0xFF) as u8);
    network_id.push((binary >> 8 & 0xFF) as u8);
    network_id.push((binary & 0xFF) as u8);
    assert((binary >> 24 & 0xFF) == binary / 0x100_0000 % 256 && (binary >> 16 & 0xFF) == binary
        / 0x1_0000 % 256 && (binary >> 8 & 0xFF) == binary / 0x100 % 256 && (binary & 0xFF)
        == binary % 256) by (bit_vector);
    assert(network_id@ =~= octets_of(binary as nat));
    network_id
}

/// Counting the one bits of `pow2(k) - pow2(j)` over its low `k` bits gives `k - j`.
proof fn lemma_count_ones_of_run(k: nat, j: nat)
    requires
        j <= k,
    ensures
        count_ones((pow2(k) - pow2(j)) as nat, k) == k - j,
    decreases k,
{
    lemma_pow2_pos(k);
    lemma_pow2_pos(j);
    if j < k {
        lemma_pow2_strictly_increases(j, k);
    }
    if k > 0 {
        lemma_pow2_unfold(k);
        let m = (pow2(k) - pow2(j)) as nat;
        if j == 0 {
            assert(pow2(0) == 1) by {
                lemma2_to64();
            }
            assert(m % 2 == 1 && m / 2 == pow2((k - 1) as nat) - pow2(0));
            lemma_count_ones_of_run((k - 1) as nat, 0);
        } else {
            lemma_pow2_unfold(j);
            assert(m % 2 == 0 && m / 2 == pow2((k - 1) as nat) - pow2((j - 1) as nat));
            lemma_count_ones_of_run((k - 1) as nat, (j - 1) as nat);
        }
    } else {
        assert(pow2(0) == 1) by {
            lemma2_to64();
        }
    }
}

/// The mask of a prefix length, read back as octets and counted, gives the
/// prefix length again.
pub proof fn lemma_mask_prefix_round_trip(prefix: nat)
    requires
        prefix <= 32,
    ensures
        mask_of(prefix) < address_space(),
        mask_prefix_len(value_of(octets_of(mask_of(prefix)))) == prefix,
{
    lemma_pow2_pos((32 - prefix) as nat);
    assert(pow2(32) == address_space()) by {
        lemma2_to64();
    }
    if prefix > 0 {
        lemma_pow2_strictly_increases((32 - prefix) as nat, 32);
    }
    lemma_count_ones_of_run(32, (32 - prefix) as nat);
    lemma_octets_round_trip(mask_of(prefix) as u32);
}

/// The mask of a prefix length as an integer.
pub(crate) fn prefix_mask(prefix: u8) -> (r: u32)
    requires
        prefix <= 32,
    ensures
        r == mask_of(prefix as nat),
{
    let host: u64 = (32 - prefix) as u64;
    let mask: u64 = (0xFFFF_FFFFu64 << host) & 0xFFFF_FFFF;
    assert(mask == 0x1_0000_0000u64 - (1u64 << host)) by (bit_vector)
        requires
            host <= 32,
            mask == (0xFFFF_FFFFu64 << host) & 0xFFFF_FFFF,
    ;
    proof {
        vstd::bits::lemma_u64_pow2_no_overflow(host as nat);
        lemma_u64_shl_is_mul(1, host);
        lemma_pow2_pos(host as nat);
    }
    mask as u32
}

/// The mask of a prefix length as four octets. A prefix length over 32 is
/// refused.
pub fn convert_prefix_to_mask(prefix: u8) -> (r: Result<Vec<u8>, VlsmError>)
    ensures
        match r {
            Ok(v) => prefix <= 32 && v@ == octets_of(mask_of(prefix as nat)),
            Err(e) => prefix > 32 && e == VlsmError::InvalidPrefix,
        },
{
    if prefix > 32 {
        return Err(VlsmError::InvalidPrefix);
    }
    Ok(convert_binary_to_cidr(prefix_mask(prefix)))
}

/// The network address of `binary_ip` under a prefix length: its host bits
/// cleared.
pub fn get_network_id(binary_ip: u32, prefix: u8) -> (r: u32)
    requires
        prefix <= 32,
    ensures
        r == network_id_of(binary_ip as nat, prefix as nat),
{
    let offset: u64 = (32 - prefix) as u64;
    let ip: u64 = binary_ip as u64;
    let high: u64 = ip >> offset;
    proof {
        lemma_u64_shr_is_div(ip, offset);
        lemma_pow2_pos(offset as nat);
        lemma_fundamental_div_mod(ip as int, pow2(offset as nat) as int);
        lemma_mul_is_commutative(high as int, pow2(offset as nat) as int);
        lemma_u64_shl_is_mul(high, offset);
    }
    (high << offset) as u32
}

/// One decimal digit as text.
fn digit_text(d: u8) -> (r: &'static str)
    requires
        d < 10,
    ensures
        r@ == seq![digit_char(d as nat)],
{
    proof {
        reveal_strlit("0");
        reveal_strlit("1");
        reveal_strlit("2");
        reveal_strlit("3");
        reveal_strlit("4");
        reveal_strlit("5");
        reveal_strlit("6");
        reveal_strlit("7");
        reveal_strlit("8");
        reveal_strlit("9");
    }
    let r = if d == 0 {
        "0"
    } else if d == 1 {
        "1"
    } else if d == 2 {
        "2"
    } else if d == 3 {
        "3"
    } else if d == 4 {
        "4"
    } else if d == 5 {
        "5"
    } else if d == 6 {
        "6"
    } else if d == 7 {
        "7"
    } else if d == 8 {
        "8"
    } else {
        "9"
    };
    assert(r@ =~= seq![digit_char(d as nat)]);
    r
}

/// Appends the decimal digits of `n` to `s`.
fn push_decimal(s: &mut String, n: u8)
    ensures
        final(s)@ == old(s)@ + decimal(n as nat),
    decreases n,
{
    if n >= 10 {
        push_decimal(s, n / 10);
    }
    s.append(digit_text(n % 10));
    assert(final(s)@ =~= old(s)@ + decimal(n as nat));
}

/// Dotted-decimal text of an address given as four octets.
pub fn convert_cidr_to_string(cidr: Vec<u8>) -> (r: String)
    requires
        cidr@.len() == 4,
    ensures
        r@ == dotted(cidr@),
{
    proof {
        reveal_strlit(".");
    }
    let mut text = String::new();
    push_decimal(&mut text, cidr[0]);
    text.append(".");
    push_decimal(&mut text, cidr[1]);
    text.append(".");
    push_decimal(&mut text, cidr[2]);
    text.append(".");
    push_decimal(&mut text, cidr[3]);
    assert(text@ =~= dotted(cidr@));
    text
}

} // verus!
