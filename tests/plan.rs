use vlsm_calc::{
    allocate, convert_binary_to_cidr, convert_cidr_to_binary, convert_cidr_to_string,
    convert_prefix_to_mask, get_allocated_size_and_prefix, get_network_id, network_parser, sort,
    vlsm, Subnet, VlsmError, VLSM,
};

fn subnet(name: &str, needed_size: u32) -> Subnet {
    Subnet { name: name.to_string(), needed_size }
}

fn text(address: u32) -> String {
    convert_cidr_to_string(convert_binary_to_cidr(address))
}

fn ip(a: u8, b: u8, c: u8, d: u8) -> u32 {
    convert_cidr_to_binary(vec![a, b, c, d]).unwrap()
}

fn check_block(
    block: &VLSM,
    name: &str,
    needed: u32,
    size: u64,
    prefix: u8,
    network: &str,
    range: (&str, &str),
    broadcast: &str,
) {
    assert_eq!(block.name, name);
    assert_eq!(block.needed_size, needed);
    assert_eq!(block.allocated_size, size);
    assert_eq!(block.prefix, prefix);
    assert_eq!(text(block.network_address), network);
    assert_eq!(text(block.range.0), range.0);
    assert_eq!(text(block.range.1), range.1);
    assert_eq!(text(block.broadcast), broadcast);
}

#[test]
fn three_subnets_in_a_class_c() {
    let reqs = vec![subnet("C", 2), subnet("A", 50), subnet("B", 10)];
    let plan = vlsm("192.168.0.0/24".to_string(), reqs).unwrap();
    assert_eq!(plan.len(), 3);
    check_block(&plan[0], "A", 50, 64, 26, "192.168.0.0", ("192.168.0.1", "192.168.0.62"), "192.168.0.63");
    check_block(&plan[1], "B", 10, 16, 28, "192.168.0.64", ("192.168.0.65", "192.168.0.78"), "192.168.0.79");
    check_block(&plan[2], "C", 2, 4, 30, "192.168.0.80", ("192.168.0.81", "192.168.0.82"), "192.168.0.83");
    assert_eq!(text(plan[0].subnet_mask), "255.255.255.192");
    assert_eq!(text(plan[1].subnet_mask), "255.255.255.240");
    assert_eq!(text(plan[2].subnet_mask), "255.255.255.252");
}

#[test]
fn request_larger_than_base_block_fails() {
    let r = vlsm("10.0.0.0/30".to_string(), vec![subnet("big", 100)]);
    assert_eq!(r, Err(VlsmError::PrefixExhausted));
}

#[test]
fn requests_together_larger_than_base_block_fail() {
    let r = vlsm("10.0.0.0/26".to_string(), vec![subnet("a", 50), subnet("b", 10)]);
    assert_eq!(r, Err(VlsmError::AddressSpaceExhausted));
}

#[test]
fn exactly_filling_the_base_block_succeeds() {
    let r = vlsm("10.0.0.0/26".to_string(), vec![subnet("a", 30), subnet("b", 30)]).unwrap();
    assert_eq!(r.len(), 2);
    assert_eq!(text(r[1].broadcast), "10.0.0.63");
}

#[test]
fn empty_request_list_gives_empty_plan() {
    let r = vlsm("192.168.0.0/24".to_string(), vec![]);
    assert_eq!(r, Ok(vec![]));
}

#[test]
fn mask_counts_back_to_its_prefix() {
    for p in 0u8..=32 {
        let mask = convert_prefix_to_mask(p).unwrap();
        let ones: u32 = mask.iter().map(|o| o.count_ones()).sum();
        assert_eq!(ones, p as u32);
        let value = convert_cidr_to_binary(mask).unwrap();
        assert_eq!(value.leading_ones(), p as u32);
    }
}

#[test]
fn mask_values() {
    assert_eq!(convert_prefix_to_mask(0), Ok(vec![0, 0, 0, 0]));
    assert_eq!(convert_prefix_to_mask(24), Ok(vec![255, 255, 255, 0]));
    assert_eq!(convert_prefix_to_mask(27), Ok(vec![255, 255, 255, 224]));
    assert_eq!(convert_prefix_to_mask(32), Ok(vec![255, 255, 255, 255]));
    assert_eq!(convert_prefix_to_mask(33), Err(VlsmError::InvalidPrefix));
}

#[test]
fn octets_round_trip() {
    for v in [0u32, 1, 255, 256, 0xC0A8_0001, 0x7FFF_FFFF, 0x8000_0000, u32::MAX] {
        assert_eq!(convert_cidr_to_binary(convert_binary_to_cidr(v)), Ok(v));
    }
    assert_eq!(convert_binary_to_cidr(0xC0A8_0A01), vec![192, 168, 10, 1]);
    assert_eq!(convert_cidr_to_binary(vec![10, 0, 0, 1]), Ok(0x0A00_0001));
}

#[test]
fn wrong_octet_count_is_invalid_address() {
    assert_eq!(convert_cidr_to_binary(vec![10, 0, 0]), Err(VlsmError::InvalidAddress));
    assert_eq!(convert_cidr_to_binary(vec![10, 0, 0, 1, 2]), Err(VlsmError::InvalidAddress));
}

#[test]
fn block_sizes_are_smallest_powers_of_two() {
    assert_eq!(get_allocated_size_and_prefix(0, 0), Ok((31, 2)));
    assert_eq!(get_allocated_size_and_prefix(0, 1), Ok((30, 4)));
    assert_eq!(get_allocated_size_and_prefix(0, 2), Ok((30, 4)));
    assert_eq!(get_allocated_size_and_prefix(0, 3), Ok((29, 8)));
    assert_eq!(get_allocated_size_and_prefix(0, 50), Ok((26, 64)));
    assert_eq!(get_allocated_size_and_prefix(0, 62), Ok((26, 64)));
    assert_eq!(get_allocated_size_and_prefix(0, 63), Ok((25, 128)));
    for needed in [0u32, 1, 5, 14, 15, 254, 255, 1000, 65534, 65535] {
        let (_, size) = get_allocated_size_and_prefix(0, needed).unwrap();
        assert!(size - 2 >= needed as u64);
        assert!(size == 2 || size / 2 - 2 < needed as u64);
    }
}

#[test]
fn block_sizes_at_the_top_of_the_range() {
    assert_eq!(get_allocated_size_and_prefix(0, 0x7FFF_FFFE), Ok((1, 0x8000_0000)));
    assert_eq!(get_allocated_size_and_prefix(0, 0x7FFF_FFFF), Ok((0, 0x1_0000_0000)));
    assert_eq!(get_allocated_size_and_prefix(0, 0xFFFF_FFFE), Ok((0, 0x1_0000_0000)));
    assert_eq!(get_allocated_size_and_prefix(0, u32::MAX), Err(VlsmError::PrefixExhausted));
}

#[test]
fn block_larger_than_base_prefix_is_refused() {
    assert_eq!(get_allocated_size_and_prefix(24, 254), Ok((24, 256)));
    assert_eq!(get_allocated_size_and_prefix(24, 255), Err(VlsmError::PrefixExhausted));
    assert_eq!(get_allocated_size_and_prefix(33, 1), Err(VlsmError::InvalidPrefix));
}

#[test]
fn network_id_clears_host_bits() {
    assert_eq!(get_network_id(ip(192, 168, 1, 77), 24), ip(192, 168, 1, 0));
    assert_eq!(get_network_id(ip(192, 168, 1, 77), 26), ip(192, 168, 1, 64));
    assert_eq!(get_network_id(ip(192, 168, 1, 77), 32), ip(192, 168, 1, 77));
    assert_eq!(get_network_id(ip(192, 168, 1, 77), 0), 0);
}

#[test]
fn unaligned_base_is_normalized() {
    let r = vlsm("192.168.0.77/24".to_string(), vec![subnet("a", 5)]).unwrap();
    assert_eq!(text(r[0].network_address), "192.168.0.0");
}

#[test]
fn blocks_follow_one_another_without_overlap() {
    let reqs = vec![subnet("a", 3), subnet("b", 100), subnet("c", 0), subnet("d", 20), subnet("e", 7)];
    let r = allocate(ip(172, 16, 0, 0), 16, reqs).unwrap();
    assert_eq!(r[0].network_address, ip(172, 16, 0, 0));
    for i in 0..r.len() {
        assert_eq!(r[i].broadcast as u64, r[i].network_address as u64 + r[i].allocated_size - 1);
        assert_eq!(r[i].network_address as u64 % r[i].allocated_size, 0);
        if i + 1 < r.len() {
            assert_eq!(r[i + 1].network_address as u64, r[i].network_address as u64 + r[i].allocated_size);
        }
        for j in i + 1..r.len() {
            assert!(r[i].broadcast < r[j].network_address);
        }
    }
}

#[test]
fn planning_twice_gives_the_same_plan() {
    let reqs = vec![subnet("x", 12), subnet("y", 12), subnet("z", 40)];
    let first = vlsm("10.1.0.0/24".to_string(), reqs.clone());
    let second = vlsm("10.1.0.0/24".to_string(), reqs);
    assert!(first.is_ok());
    assert_eq!(first, second);
}

#[test]
fn equal_needs_keep_their_order() {
    let mut reqs = vec![subnet("p", 5), subnet("q", 9), subnet("r", 5), subnet("s", 9), subnet("t", 1)];
    sort(&mut reqs);
    let names: Vec<&str> = reqs.iter().map(|s| s.name.as_str()).collect();
    assert_eq!(names, vec!["q", "s", "p", "r", "t"]);
}

#[test]
fn invalid_base_prefix() {
    assert_eq!(allocate(0, 33, vec![subnet("a", 1)]), Err(VlsmError::InvalidPrefix));
    assert_eq!(vlsm("10.0.0.0/33".to_string(), vec![]), Err(VlsmError::InvalidPrefix));
}

#[test]
fn parser_reads_octets_and_prefix() {
    assert_eq!(network_parser("192.168.0.0/24".to_string()), Ok((vec![192, 168, 0, 0], 24)));
    assert_eq!(network_parser("0.0.0.0/0".to_string()), Ok((vec![0, 0, 0, 0], 0)));
    assert_eq!(network_parser("255.255.255.255/32".to_string()), Ok((vec![255, 255, 255, 255], 32)));
}

#[test]
fn parser_refuses_malformed_addresses() {
    assert_eq!(network_parser("192.168.0.256/24".to_string()), Err(VlsmError::InvalidAddress));
    assert_eq!(network_parser("192.168.0/24".to_string()), Err(VlsmError::InvalidAddress));
    assert_eq!(network_parser("192.168..0/24".to_string()), Err(VlsmError::InvalidAddress));
    assert_eq!(network_parser("a.b.c.d/24".to_string()), Err(VlsmError::InvalidAddress));
    assert_eq!(vlsm("1.2.3.4.5/8".to_string(), vec![]), Err(VlsmError::InvalidAddress));
}

#[test]
fn parser_refuses_malformed_prefixes() {
    assert_eq!(network_parser("10.0.0.0".to_string()), Err(VlsmError::InvalidPrefix));
    assert_eq!(network_parser("10.0.0.0/".to_string()), Err(VlsmError::InvalidPrefix));
    assert_eq!(network_parser("10.0.0.0/33".to_string()), Err(VlsmError::InvalidPrefix));
    assert_eq!(network_parser("10.0.0.0/8/8".to_string()), Err(VlsmError::InvalidPrefix));
}

#[test]
fn dotted_decimal_text() {
    assert_eq!(convert_cidr_to_string(vec![10, 0, 255, 7]), "10.0.255.7");
    assert_eq!(convert_cidr_to_string(vec![192, 168, 100, 99]), "192.168.100.99");
}

#[test]
fn zero_host_request_gets_two_addresses() {
    let r = vlsm("10.0.0.0/30".to_string(), vec![subnet("z", 0), subnet("w", 0)]).unwrap();
    assert_eq!(r[0].allocated_size, 2);
    assert_eq!(r[0].prefix, 31);
    assert_eq!(text(r[1].network_address), "10.0.0.2");
    assert_eq!(text(r[1].broadcast), "10.0.0.3");
}
