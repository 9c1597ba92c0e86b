//! Reading a base network written as `A.B.C.D/prefix`.
use vstd::prelude::*;
use vstd::string::*;
use crate::error::VlsmError;

verus! {

/// The pieces of `s` between occurrences of `sep`; there is always at least one.
pub open spec fn split_on(s: Seq<char>, sep: char) -> Seq<Seq<char>>
    decreases s.len(),
{
    if s.len() == 0 {
        seq![Seq::empty()]
    } else {
        let parts = split_on(s.drop_last(), sep);
        if s.last() == sep {
            parts.push(Seq::empty())
        } else {
            parts.update(parts.len() - 1, parts.last().push(s.last()))
        }
    }
}

pub open spec fn is_digit(c: char) -> bool {
    '0' <= c && c <= '9'
}

/// A non-empty run of decimal digits.
pub open spec fn is_number(t: Seq<char>) -> bool {
    t.len() > 0 && forall|i: int| 0 <= i < t.len() ==> is_digit(#[trigger] t[i])
}

/// The value of a run of decimal digits.
pub open spec fn number_value(t: Seq<char>) -> nat
    decreases t.len(),
{
    if t.len() == 0 {
        0
    } else {
        (number_value(t.drop_last()) * 10 + (t.last() as u32 - '0' as u32)) as nat
    }
}

/// A decimal number no larger than `limit`.
pub open spec fn is_number_within(t: Seq<char>, limit: nat) -> bool {
    is_number(t) && number_value(t) <= limit
}

/// The octets and prefix length of `A.B.C.D/prefix`: four decimal octets up to
/// 255 and one decimal prefix length up to 32.
pub open spec fn parse_network(s: Seq<char>) -> Result<(Seq<u8>, u8), VlsmError> {
    let parts = split_on(s, '/');
    let fields = split_on(parts[0], '.');
    if !(fields.len() == 4 && forall|i: int| 0 <= i < 4 ==> is_number_within(#[trigger] fields[i], 255)) {
        Err(VlsmError::InvalidAddress)
    } else if !(parts.len() == 2 && is_number_within(parts[1], 32)) {
        Err(VlsmError::InvalidPrefix)
    } else {
        Ok((Seq::new(4, |i: int| number_value(fields[i]) as u8), number_value(parts[1]) as u8))
    }
}

proof fn lemma_split_nonempty(s: Seq<char>, sep: char)
    ensures
        split_on(s, sep).len() >= 1,
    decreases s.len(),
{
    if s.len() > 0 {
        lemma_split_nonempty(s.drop_last(), sep);
    }
}

proof fn lemma_number_monotone(t: Seq<char>, i: int, j: int)
    requires
        0 <= i <= j <= t.len(),
        forall|k: int| 0 <= k < t.len() ==> is_digit(#[trigger] t[k]),
    ensures
        number_value(t.take(i)) <= number_value(t.take(j)),
    decreases j - i,
{
    if i < j {
        lemma_number_monotone(t, i, j - 1);
        assert(t.take(j).drop_last() =~= t.take(j - 1));
        assert(is_digit(t[j - 1]));
    }
}

/// The characters of `s`, one by one.
fn chars_of(s: &str) -> (r: Vec<char>)
    ensures
        r@ == s@,
{
    let n = s.unicode_len();
    let mut chars: Vec<char> = Vec::new();
    let mut i: usize = 0;
    while i < n
        invariant
            n == s@.len(),
            i <= n,
            chars@ == s@.take(i as int),
        decreases n - i,
    {
        chars.push(s.get_char(i));
        i = i + 1;
        assert(chars@ =~= s@.take(i as int));
    }
    assert(s@.take(n as int) =~= s@);
    chars
}

/// The pieces of `s` between occurrences of `sep`.
fn split_chars(s: &Vec<char>, sep: char) -> (r: Vec<Vec<char>>)
    ensures
        r@.len() == split_on(s@, sep).len(),
        forall|i: int| 0 <= i < r@.len() ==> (#[trigger] r@[i])@ == split_on(s@, sep)[i],
{
    let mut parts: Vec<Vec<char>> = Vec::new();
    let mut current: Vec<char> = Vec::new();
    let mut i: usize = 0;
    assert(s@.take(0) =~= Seq::<char>::empty());
    while i < s.len()
        invariant
            i <= s@.len(),
            parts@.len() + 1 == split_on(s@.take(i as int), sep).len(),
            forall|k: int| 0 <= k < parts@.len() ==> (#[trigger] parts@[k])@ == split_on(s@.take(i as int), sep)[k],
            current@ == split_on(s@.take(i as int), sep).last(),
        decreases s@.len() - i,
    {
        let ghost before = s@.take(i as int);
        proof {
            lemma_split_nonempty(before, sep);
            assert(s@.take(i + 1).drop_last() =~= before);
        }
        if s[i] == sep {
            parts.push(current);
            current = Vec::new();
        } else {
            current.push(s[i]);
        }
        i = i + 1;
    }
    assert(s@.take(s@.len() as int) =~= s@);
    parts.push(current);
    parts
}

/// The value of a decimal number in `t` when it is no larger than `limit`.
fn parse_decimal(t: &Vec<char>, limit: u32) -> (r: Option<u32>)
    requires
        limit <= 255,
    ensures
        match r {
            Some(v) => is_number_within(t@, limit as nat) && v == number_value(t@),
            None => !is_number_within(t@, limit as nat),
        },
{
    if t.len() == 0 {
        return None;
    }
    let mut value: u32 = 0;
    let mut i: usize = 0;
    assert(t@.take(0) =~= Seq::<char>::empty());
    while i < t.len()
        invariant
            i <= t@.len(),
            limit <= 255,
            value == number_value(t@.take(i as int)),
            value <= limit,
            forall|k: int| 0 <= k < i ==> is_digit(#[trigger] t@[k]),
        decreases t@.len() - i,
    {
        let c = t[i];
        if !('0' <= c && c <= '9') {
            return None;
        }
        assert(t@.take(i + 1).drop_last() =~= t@.take(i as int));
        value = value * 10 + (c as u32 - '0' as u32);
        i = i + 1;
        if value > limit {
            proof {
                if is_number(t@) {
                    lemma_number_monotone(t@, i as int, t@.len() as int);
                    assert(t@.take(t@.len() as int) =~= t@);
                }
            }
            return None;
        }
    }
    assert(t@.take(t@.len() as int) =~= t@);
    Some(value)
}

/// Splits `A.B.C.D/prefix` into its four octets and its prefix length.
#[verifier::loop_isolation(false)]
pub fn network_parser(network: String) -> (r: Result<(Vec<u8>, u8), VlsmError>)
    ensures
        match r {
            Ok((octets, prefix)) => parse_network(network@) == Ok::<(Seq<u8>, u8), VlsmError>(
                (octets@, prefix),
            ),
            Err(e) => parse_network(network@) == Err::<(Seq<u8>, u8), VlsmError>(e),
        },
{
    let chars = chars_of(network.as_str());
    let parts = split_chars(&chars, '/');
    proof {
        lemma_split_nonempty(chars@, '/');
    }
    let fields = split_chars(&parts[0], '.');
    if fields.len() != 4 {
        return Err(VlsmError::InvalidAddress);
    }
    let mut octets: Vec<u8> = Vec::new();
    let mut k: usize = 0;
    while k < 4
        invariant
            fields@.len() == 4,
            k <= 4,
            octets@.len() == k,
            forall|j: int| 0 <= j < k ==> is_number_within(#[trigger] fields@[j]@, 255),
            forall|j: int| 0 <= j < k ==> #[trigger] octets@[j] == number_value(fields@[j]@) as u8,
        decreases 4 - k,
    {
        match parse_decimal(&fields[k], 255) {
            Some(v) => octets.push(v as u8),
            None => return Err(VlsmError::InvalidAddress),
        }
        k = k + 1;
    }
    proof {
        let pieces = split_on(split_on(network@, '/')[0], '.');
        assert forall|i: int| 0 <= i < 4 implies is_number_within(#[trigger] pieces[i], 255)
            && fields@[i]@ == pieces[i] by {
            assert(is_number_within(fields@[i]@, 255));
        }
    }
    if parts.len() != 2 {
        return Err(VlsmError::InvalidPrefix);
    }
    match parse_decimal(&parts[1], 32) {
        Some(p) => {
            let ghost pieces = split_on(split_on(network@, '/')[0], '.');
            assert(parts@[1]@ == split_on(network@, '/')[1]);
            assert(octets@ =~= Seq::new(4, |i: int| number_value(pieces[i]) as u8)) by {
                assert forall|i: int| 0 <= i < 4 implies #[trigger] octets@[i] == number_value(
                    pieces[i],
                ) as u8 by {
                    assert(fields@[i]@ == pieces[i]);
                }
            }
            Ok((octets, p as u8))
        },
        None => {
            assert(parts@[1]@ == split_on(network@, '/')[1]);
            Err(VlsmError::InvalidPrefix)
        },
    }
}

} // verus!
