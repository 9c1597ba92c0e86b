//! Ordering of requests and the placement of their blocks in the base network.
use vstd::prelude::*;
use vstd::arithmetic::div_mod::{lemma_fundamental_div_mod, lemma_mod_multiples_basic};
use vstd::arithmetic::mul::{lemma_mul_is_commutative, lemma_mul_is_distributive_add};
use vstd::arithmetic::power2::{
    lemma2_to64, lemma_pow2_adds, lemma_pow2_pos, lemma_pow2_strictly_increases, pow2,
};
use vstd::bits::lemma_u64_shl_is_mul;
use vstd::seq_lib::to_multiset_build;
use crate::address::{
    convert_cidr_to_binary, get_network_id, mask_of, network_id_of, prefix_mask, value_of,
};
use crate::parse::{network_parser, parse_network};
use crate::error::VlsmError;
use crate::sizing::{block_bits, block_size, get_allocated_size_and_prefix, lemma_block_bits_monotone};

verus! {

/// A named request for a subnet with room for `needed_size` hosts.
#[derive(Debug, Clone, PartialEq, Eq)]
pub struct Subnet {
    pub name: String,
    pub needed_size: u32,
}

/// One placed subnet: its block, mask, usable range and broadcast address.
/// Addresses are 32-bit integers; `range` holds the first and last usable
/// address.
#[derive(Debug, PartialEq, Eq)]
pub struct VLSM {
    pub name: String,
    pub needed_size: u32,
    pub allocated_size: u64,
    pub network_address: u32,
    pub prefix: u8,
    pub subnet_mask: u32,
    pub range: (u32, u32),
    pub broadcast: u32,
}

/// `x` placed into `s` after every request that needs at least as many hosts.
pub open spec fn insert_by_need(s: Seq<Subnet>, x: Subnet) -> Seq<Subnet>
    decreases s.len(),
{
    if s.len() == 0 {
        seq![x]
    } else if s.last().needed_size >= x.needed_size {
        s.push(x)
    } else {
        insert_by_need(s.drop_last(), x).push(s.last())
    }
}

/// The requests ordered by need, largest first; requests of equal need keep
/// their order.
pub open spec fn sorted_by_need(s: Seq<Subnet>) -> Seq<Subnet>
    decreases s.len(),
{
    if s.len() == 0 {
        s
    } else {
        insert_by_need(sorted_by_need(s.drop_last()), s.last())
    }
}

/// Needs never grow from one request to the next.
pub open spec fn is_descending(s: Seq<Subnet>) -> bool {
    forall|i: int, j: int| 0 <= i < j < s.len() ==> s[i].needed_size >= s[j].needed_size
}

/// Addresses taken by the blocks of all of `s`.
pub open spec fn total_size(s: Seq<Subnet>) -> nat
    decreases s.len(),
{
    if s.len() == 0 {
        0
    } else {
        total_size(s.drop_last()) + block_size(s.last().needed_size as nat)
    }
}

/// Every request of `s` gets a block no larger than a base network of prefix
/// `base_prefix`.
pub open spec fn fits_base(s: Seq<Subnet>, base_prefix: nat) -> bool {
    forall|i: int| 0 <= i < s.len() ==> block_bits(#[trigger] s[i].needed_size as nat) <= 32 - base_prefix
}

/// The placed subnet of request `s` in the block that starts at `network`.
pub open spec fn block_for(s: Subnet, network: nat) -> VLSM {
    let bits = block_bits(s.needed_size as nat);
    let size = pow2(bits);
    let prefix = (32 - bits) as nat;
    VLSM {
        name: s.name,
        needed_size: s.needed_size,
        allocated_size: size as u64,
        network_address: network as u32,
        prefix: prefix as u8,
        subnet_mask: mask_of(prefix) as u32,
        range: ((network + 1) as u32, (network + size - 2) as u32),
        broadcast: (network + size - 1) as u32,
    }
}

/// The plan for `subnets` in the base network `base_network/base_prefix`: the
/// requests, largest first, each in the block right after the previous one,
/// starting at the base network address. It fails on a prefix length over 32,
/// on a request whose block alone is larger than the base network, and on
/// requests whose blocks together are.
pub open spec fn allocation_plan(base_network: u32, base_prefix: u8, subnets: Seq<Subnet>) -> Result<
    Seq<VLSM>,
    VlsmError,
> {
    let sorted = sorted_by_need(subnets);
    let start = network_id_of(base_network as nat, base_prefix as nat);
    if base_prefix > 32 {
        Err(VlsmError::InvalidPrefix)
    } else if !fits_base(sorted, base_prefix as nat) {
        Err(VlsmError::PrefixExhausted)
    } else if total_size(sorted) > pow2((32 - base_prefix) as nat) {
        Err(VlsmError::AddressSpaceExhausted)
    } else {
        Ok(Seq::new(sorted.len(), |i: int| block_for(sorted[i], start + total_size(sorted.take(i)))))
    }
}

/// Blocks that follow one another without gap or overlap, each starting at a
/// multiple of its own size.
pub open spec fn blocks_tile(v: Seq<VLSM>) -> bool {
    &&& forall|i: int|
        0 <= i < v.len() ==> (#[trigger] v[i]).broadcast == v[i].network_address + v[i].allocated_size - 1
    &&& forall|i: int|
        0 <= i < v.len() - 1 ==> (#[trigger] v[i + 1]).network_address == v[i].network_address
            + v[i].allocated_size
    &&& forall|i: int, j: int| 0 <= i < j < v.len() ==> #[trigger] v[i].broadcast < #[trigger] v[j].network_address
    &&& forall|i: int| 0 <= i < v.len() ==> (#[trigger] v[i]).network_address as int % v[i].allocated_size as int == 0
}

proof fn lemma_insert_at(s: Seq<Subnet>, x: Subnet, j: int)
    requires
        0 <= j <= s.len(),
        forall|k: int| j <= k < s.len() ==> s[k].needed_size < x.needed_size,
        j == 0 || s[j - 1].needed_size >= x.needed_size,
    ensures
        insert_by_need(s, x) == s.insert(j, x),
    decreases s.len(),
{
    if s.len() == 0 {
        assert(seq![x] =~= s.insert(j, x));
    } else if s.last().needed_size >= x.needed_size {
        assert(s.push(x) =~= s.insert(j, x));
    } else {
        lemma_insert_at(s.drop_last(), x, j);
        assert(s.drop_last().insert(j, x).push(s.last()) =~= s.insert(j, x));
    }
}

proof fn lemma_insert_lower_bound(s: Seq<Subnet>, x: Subnet, b: u32)
    requires
        x.needed_size >= b,
        forall|k: int| 0 <= k < s.len() ==> s[k].needed_size >= b,
    ensures
        insert_by_need(s, x).len() == s.len() + 1,
        forall|k: int| 0 <= k < insert_by_need(s, x).len() ==> insert_by_need(s, x)[k].needed_size >= b,
    decreases s.len(),
{
    if s.len() > 0 && s.last().needed_size < x.needed_size {
        lemma_insert_lower_bound(s.drop_last(), x, b);
    }
}

proof fn lemma_insert_descending(s: Seq<Subnet>, x: Subnet)
    requires
        is_descending(s),
    ensures
        is_descending(insert_by_need(s, x)),
    decreases s.len(),
{
    if s.len() > 0 && s.last().needed_size < x.needed_size {
        let last = s.last();
        lemma_insert_descending(s.drop_last(), x);
        lemma_insert_lower_bound(s.drop_last(), x, last.needed_size);
    }
}

/// Requests come out of the ordering largest first.
pub proof fn lemma_sorted_descending(s: Seq<Subnet>)
    ensures
        is_descending(sorted_by_need(s)),
        sorted_by_need(s).len() == s.len(),
    decreases s.len(),
{
    if s.len() > 0 {
        lemma_sorted_descending(s.drop_last());
        lemma_insert_descending(sorted_by_need(s.drop_last()), s.last());
        lemma_insert_lower_bound(sorted_by_need(s.drop_last()), s.last(), 0);
    }
}

proof fn lemma_insert_same_requests(s: Seq<Subnet>, x: Subnet)
    ensures
        insert_by_need(s, x).to_multiset() == s.to_multiset().insert(x),
    decreases s.len(),
{
    to_multiset_build(s, x);
    if s.len() == 0 {
        assert(seq![x] =~= s.push(x));
    } else if s.last().needed_size < x.needed_size {
        let rest = s.drop_last();
        lemma_insert_same_requests(rest, x);
        to_multiset_build(insert_by_need(rest, x), s.last());
        to_multiset_build(rest, s.last());
        assert(rest.push(s.last()) =~= s);
        assert(rest.to_multiset().insert(x).insert(s.last()) =~= rest.to_multiset().insert(
            s.last(),
        ).insert(x));
    }
}

/// Ordering by need only moves requests: none is added or lost.
pub proof fn lemma_sorted_same_requests(s: Seq<Subnet>)
    ensures
        sorted_by_need(s).to_multiset() == s.to_multiset(),
    decreases s.len(),
{
    if s.len() > 0 {
        lemma_sorted_same_requests(s.drop_last());
        lemma_insert_same_requests(sorted_by_need(s.drop_last()), s.last());
        to_multiset_build(s.drop_last(), s.last());
        assert(s.drop_last().push(s.last()) =~= s);
    }
}

proof fn lemma_total_step(s: Seq<Subnet>, i: int)
    requires
        0 <= i < s.len(),
    ensures
        total_size(s.take(i + 1)) == total_size(s.take(i)) + block_size(s[i].needed_size as nat),
{
    assert(s.take(i + 1).drop_last() =~= s.take(i));
}

proof fn lemma_total_monotone(s: Seq<Subnet>, i: int, j: int)
    requires
        0 <= i <= j <= s.len(),
    ensures
        total_size(s.take(i)) <= total_size(s.take(j)),
    decreases j - i,
{
    if i < j {
        lemma_total_step(s, j - 1);
        lemma_total_monotone(s, i, j - 1);
    }
}

/// The base network's block ends within the address space.
proof fn lemma_base_block_fits(base_network: u32, base_prefix: nat)
    requires
        base_prefix <= 32,
    ensures
        network_id_of(base_network as nat, base_prefix) + pow2((32 - base_prefix) as nat)
            <= 0x1_0000_0000,
{
    let room = pow2((32 - base_prefix) as nat);
    let count = pow2(base_prefix);
    lemma_pow2_pos((32 - base_prefix) as nat);
    lemma_pow2_adds(base_prefix, (32 - base_prefix) as nat);
    lemma2_to64();
    lemma_fundamental_div_mod(base_network as int, room as int);
    let q = base_network as int / room as int;
    assert(q < count) by (nonlinear_arith)
        requires
            base_network as int == room * q + base_network as int % room as int,
            0 <= base_network as int % room as int,
            base_network < count * room,
            room > 0,
    ;
    assert(q * room + room <= count * room) by (nonlinear_arith)
        requires
            q < count,
            room > 0,
    ;
}

/// Orders the requests by need, largest first; requests of equal need keep
/// their order.
pub fn sort(subnets: &mut Vec<Subnet>)
    ensures
        final(subnets)@ == sorted_by_need(old(subnets)@),
        final(subnets)@.to_multiset() == old(subnets)@.to_multiset(),
        is_descending(final(subnets)@),
{
    proof {
        lemma_sorted_same_requests(subnets@);
        lemma_sorted_descending(subnets@);
    }
    let ghost original = subnets@;
    let mut sorted: Vec<Subnet> = Vec::new();
    let ghost mut done: int = 0;
    assert(original.take(0) =~= Seq::<Subnet>::empty());
    while subnets.len() > 0
        invariant
            0 <= done <= original.len(),
            subnets@ == original.skip(done),
            sorted@ == sorted_by_need(original.take(done)),
        decreases subnets.len(),
    {
        let x = subnets.remove(0);
        let mut j: usize = sorted.len();
        while j > 0 && sorted[j - 1].needed_size < x.needed_size
            invariant
                j <= sorted.len(),
                forall|k: int| j <= k < sorted.len() ==> sorted[k].needed_size < x.needed_size,
            decreases j,
        {
            j = j - 1;
        }
        proof {
            lemma_insert_at(sorted@, x, j as int);
            assert(original.take(done + 1).drop_last() =~= original.take(done));
            assert(original.take(done + 1).last() == x);
            assert(subnets@ =~= original.skip(done + 1));
            done = done + 1;
        }
        sorted.insert(j, x);
    }
    assert(original.take(done) =~= original);
    *subnets = sorted;
}

/// Blocks of at least `pow2(b)` addresses each, laid end to end, take a
/// multiple of `pow2(b)` addresses.
proof fn lemma_total_aligned(s: Seq<Subnet>, i: int, b: nat)
    requires
        0 <= i <= s.len(),
        forall|k: int| 0 <= k < i ==> b <= block_bits(#[trigger] s[k].needed_size as nat),
    ensures
        total_size(s.take(i)) % pow2(b) == 0,
    decreases i,
{
    let m = pow2(b);
    lemma_pow2_pos(b);
    if i == 0 {
        assert(s.take(0).len() == 0);
    } else {
        lemma_total_aligned(s, i - 1, b);
        lemma_total_step(s, i - 1);
        let bits = block_bits(s[i - 1].needed_size as nat);
        lemma_pow2_adds(b, (bits - b) as nat);
        let prior = total_size(s.take(i - 1));
        lemma_fundamental_div_mod(prior as int, m as int);
        let x = prior as int / m as int;
        let y = pow2((bits - b) as nat) as int;
        lemma_mul_is_distributive_add(m as int, x, y);
        lemma_mod_multiples_basic(x + y, m as int);
        lemma_mul_is_commutative(m as int, x + y);
    }
}

/// A block placed after larger ones, from the start of the base network,
/// starts at a multiple of its own size.
proof fn lemma_block_aligned(base_network: u32, base_prefix: nat, sorted: Seq<Subnet>, i: int)
    requires
        base_prefix <= 32,
        0 <= i < sorted.len(),
        is_descending(sorted),
        fits_base(sorted, base_prefix),
    ensures
        (network_id_of(base_network as nat, base_prefix) + total_size(sorted.take(i))) % block_size(
            sorted[i].needed_size as nat,
        ) == 0,
{
    let b = block_bits(sorted[i].needed_size as nat);
    let m = pow2(b);
    assert forall|k: int| 0 <= k < i implies b <= block_bits(#[trigger] sorted[k].needed_size as nat) by {
        lemma_block_bits_monotone(sorted[i].needed_size as nat, sorted[k].needed_size as nat);
    }
    lemma_total_aligned(sorted, i, b);
    let host = (32 - base_prefix) as nat;
    let start = network_id_of(base_network as nat, base_prefix);
    lemma_pow2_pos(b);
    lemma_pow2_adds(b, (host - b) as nat);
    let t = total_size(sorted.take(i));
    let q = (base_network as nat / pow2(host)) as int;
    assert(start == q * pow2(host));
    lemma_fundamental_div_mod(t as int, m as int);
    assert(start + t == m * (q * pow2((host - b) as nat) + t / m)) by (nonlinear_arith)
        requires
            start == q * pow2(host),
            pow2(host) == m * pow2((host - b) as nat),
            t == m * (t / m) + t % m,
            t % m == 0,
    ;
    lemma_mod_multiples_basic(q * pow2((host - b) as nat) + (t / m) as int, m as int);
    lemma_mul_is_commutative(m as int, q * pow2((host - b) as nat) + (t / m) as int);
}

/// The blocks of a successful plan follow one another from the base network
/// address, without gap or overlap.
#[verifier::rlimit(40)]
pub proof fn lemma_plan_blocks_tile(base_network: u32, base_prefix: u8, subnets: Seq<Subnet>)
    ensures
        allocation_plan(base_network, base_prefix, subnets) is Ok ==> blocks_tile(
            allocation_plan(base_network, base_prefix, subnets)->Ok_0,
        ),
{
    let sorted = sorted_by_need(subnets);
    let start = network_id_of(base_network as nat, base_prefix as nat);
    if allocation_plan(base_network, base_prefix, subnets) is Ok {
        let v = allocation_plan(base_network, base_prefix, subnets)->Ok_0;
        lemma_base_block_fits(base_network, base_prefix as nat);
        assert(sorted.take(sorted.len() as int) =~= sorted);
        assert forall|i: int| 0 <= i < sorted.len() implies start + total_size(sorted.take(i + 1))
            <= 0x1_0000_0000 && 2 <= block_size(#[trigger] sorted[i].needed_size as nat)
            <= 0x1_0000_0000 by {
            lemma_total_monotone(sorted, i + 1, sorted.len() as int);
            crate::sizing::lemma_block_is_smallest(sorted[i].needed_size as nat);
            if block_bits(sorted[i].needed_size as nat) < 32 {
                lemma_pow2_strictly_increases(block_bits(sorted[i].needed_size as nat), 32);
            }
            lemma2_to64();
        }
        assert forall|i: int| 0 <= i < sorted.len() implies total_size(sorted.take(i + 1))
            == total_size(sorted.take(i)) + block_size(#[trigger] sorted[i].needed_size as nat) by {
            lemma_total_step(sorted, i);
        }
        assert forall|i: int, j: int| 0 <= i < j < v.len() implies #[trigger] v[i].broadcast
            < #[trigger] v[j].network_address by {
            lemma_total_monotone(sorted, i + 1, j);
        }
        lemma_sorted_descending(subnets);
        assert forall|i: int| 0 <= i < v.len() implies (#[trigger] v[i]).network_address
            as int % v[i].allocated_size as int == 0 by {
            lemma_block_aligned(base_network, base_prefix as nat, sorted, i);
        }
    }
}

/// Planning is a function of its inputs: two runs on the same base network and
/// requests give the same blocks.
pub proof fn lemma_allocation_deterministic(
    base_network: u32,
    base_prefix: u8,
    subnets: Seq<Subnet>,
    first: Result<Seq<VLSM>, VlsmError>,
    second: Result<Seq<VLSM>, VlsmError>,
)
    requires
        first == allocation_plan(base_network, base_prefix, subnets),
        second == allocation_plan(base_network, base_prefix, subnets),
    ensures
        first == second,
{
}

/// Places the requests, largest first, in consecutive blocks of the base
/// network `base_network/base_prefix`, or tells why they do not fit.
#[verifier::rlimit(40)]
pub fn allocate(base_network: u32, base_prefix: u8, subnets: Vec<Subnet>) -> (r: Result<
    Vec<VLSM>,
    VlsmError,
>)
    ensures
        match r {
            Ok(v) => allocation_plan(base_network, base_prefix, subnets@) == Ok::<
                Seq<VLSM>,
                VlsmError,
            >(v@) && blocks_tile(v@),
            Err(e) => allocation_plan(base_network, base_prefix, subnets@) == Err::<
                Seq<VLSM>,
                VlsmError,
            >(e),
        },
{
    if base_prefix > 32 {
        return Err(VlsmError::InvalidPrefix);
    }
    let ghost original = subnets@;
    let mut requests = subnets;
    sort(&mut requests);
    let ghost sorted = requests@;
    proof {
        lemma_sorted_descending(original);
        lemma_base_block_fits(base_network, base_prefix as nat);
        lemma_plan_blocks_tile(base_network, base_prefix, original);
    }
    let start: u32 = get_network_id(base_network, base_prefix);
    let host: u64 = (32 - base_prefix) as u64;
    proof {
        vstd::bits::lemma_u64_pow2_no_overflow(host as nat);
        lemma_u64_shl_is_mul(1, host);
    }
    let end: u64 = start as u64 + (1u64 << host);
    let mut cursor: u64 = start as u64;
    let mut placed: Vec<VLSM> = Vec::new();
    let mut i: usize = 0;
    assert(sorted.take(0) =~= Seq::<Subnet>::empty());
    while i < requests.len()
        invariant
            original == subnets@,
            requests@ == sorted,
            sorted == sorted_by_need(original),
            is_descending(sorted),
            base_prefix <= 32,
            start == network_id_of(base_network as nat, base_prefix as nat),
            end == start + pow2((32 - base_prefix) as nat),
            end <= 0x1_0000_0000,
            i <= sorted.len(),
            placed@.len() == i,
            cursor == start + total_size(sorted.take(i as int)),
            cursor <= end,
            i > 0 ==> block_bits(sorted[0].needed_size as nat) <= 32 - base_prefix,
            forall|k: int| 0 <= k < i ==> block_bits(#[trigger] sorted[k].needed_size as nat) <= 32 - base_prefix,
            forall|k: int|
                0 <= k < i ==> #[trigger] placed@[k] == block_for(sorted[k], start as nat + total_size(sorted.take(k))),
        decreases sorted.len() - i,
    {
        let (prefix, size) = match get_allocated_size_and_prefix(base_prefix, requests[i].needed_size) {
            Ok(ps) => ps,
            Err(e) => {
                assert(!fits_base(sorted, base_prefix as nat));
                return Err(e);
            },
        };
        proof {
            lemma_total_step(sorted, i as int);
            lemma2_to64();
            if block_bits(sorted[i as int].needed_size as nat) < 32 {
                lemma_pow2_strictly_increases(block_bits(sorted[i as int].needed_size as nat), 32);
            }
        }
        if cursor + size > end {
            proof {
                lemma_total_monotone(sorted, i as int + 1, sorted.len() as int);
                assert(sorted.take(sorted.len() as int) =~= sorted);
                assert forall|k: int| 0 <= k < sorted.len() implies block_bits(
                    #[trigger] sorted[k].needed_size as nat,
                ) <= 32 - base_prefix by {
                    if k > 0 {
                        lemma_block_bits_monotone(sorted[k].needed_size as nat, sorted[0].needed_size as nat);
                    }
                }
            }
            return Err(VlsmError::AddressSpaceExhausted);
        }
        proof {
            crate::sizing::lemma_block_is_smallest(requests[i as int].needed_size as nat);
        }
        let name = requests[i].name.clone();
        let block = VLSM {
            name: name,
            needed_size: requests[i].needed_size,
            allocated_size: size,
            network_address: cursor as u32,
            prefix: prefix,
            subnet_mask: prefix_mask(prefix),
            range: ((cursor + 1) as u32, (cursor + size - 2) as u32),
            broadcast: (cursor + size - 1) as u32,
        };
        placed.push(block);
        cursor = cursor + size;
        i = i + 1;
    }
    proof {
        assert(sorted.take(sorted.len() as int) =~= sorted);
        assert(placed@ =~= Seq::new(
            sorted.len(),
            |k: int| block_for(sorted[k], start as nat + total_size(sorted.take(k))),
        ));
    }
    Ok(placed)
}

/// Plans `input_subnets` in the base network written as `A.B.C.D/prefix`.
pub fn vlsm(ipv4: String, input_subnets: Vec<Subnet>) -> (r: Result<Vec<VLSM>, VlsmError>)
    ensures
        match parse_network(ipv4@) {
            Err(e) => r == Err::<Vec<VLSM>, VlsmError>(e),
            Ok((octets, prefix)) => match r {
                Ok(v) => allocation_plan(value_of(octets) as u32, prefix, input_subnets@) == Ok::<
                    Seq<VLSM>,
                    VlsmError,
                >(v@),
                Err(e) => allocation_plan(value_of(octets) as u32, prefix, input_subnets@) == Err::<
                    Seq<VLSM>,
                    VlsmError,
                >(e),
            },
        },
{
    let (octets, prefix) = match network_parser(ipv4) {
        Ok(parsed) => parsed,
        Err(e) => return Err(e),
    };
    let base_network = match convert_cidr_to_binary(octets) {
        Ok(b) => b,
        Err(e) => return Err(e),
    };
    allocate(base_network, prefix, input_subnets)
}

} // verus!
