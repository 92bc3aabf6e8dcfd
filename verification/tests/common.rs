use slipmesh::common::addr::{
    format_ipv4, format_ipv6, parse_ip, parse_ipv4, parse_socket, IpAddr, SocketAddr,
};
use slipmesh::common::cidr::{format_cidr, parse_cidr, CidrError};
use slipmesh::common::keys::{
    decode_key, encode_key, generate_private_key, public_key_from_private, KeyError,
};
use slipmesh::common::netlink::awg::{push_obfuscation_attrs, u32_range_pack, DeviceAttr};
use slipmesh::common::netlink::rt::{
    default_iface, destination_of, is_missing_link, is_missing_route, list_links, list_links_by_kind,
    routes_matching, split_families, to_remove, KernelRoute, Link, LinkAttr, RouteAttr,
};
use slipmesh::common::obfuscation::{is_unset, layer, remainder, Obfuscation};

fn v4(a: u8, b: u8, c: u8, d: u8) -> IpAddr {
    IpAddr::V4(u32::from_be_bytes([a, b, c, d]))
}

/// An IPv6 address from its first and its last group.
fn v6(first: u128, last: u128) -> IpAddr {
    IpAddr::V6((first << 112) + last)
}

#[test]
fn cidr_parse_cidr_accepts_ipv4() {
    assert_eq!(parse_cidr("10.0.0.1/24").unwrap(), (v4(10, 0, 0, 1), 24));
}

#[test]
fn cidr_parse_cidr_accepts_ipv6() {
    assert_eq!(parse_cidr("fe80::1/64").unwrap(), (v6(0xfe80, 1), 64));
}

#[test]
fn cidr_parse_cidr_rejects_prefix_over_family_max() {
    assert!(parse_cidr("10.0.0.1/33").is_err());
    assert!(parse_cidr("fe80::1/129").is_err());
    assert_eq!(parse_cidr("10.0.0.1/33"), Err(CidrError::PrefixTooLong));
}

#[test]
fn cidr_parse_cidr_rejects_missing_slash() {
    assert!(parse_cidr("10.0.0.1").is_err());
    assert_eq!(parse_cidr("10.0.0.1"), Err(CidrError::MissingSlash));
    assert!(slipmesh::router::cidr::parse_cidr("10.0.0.0").is_err());
}

#[test]
fn rt_parse_cidr_rejects_prefix_over_family_max() {
    assert!(parse_cidr("10.0.0.1/33").is_err());
    assert!(parse_cidr("fe80::1/129").is_err());
}

#[test]
fn rt_parse_cidr_rejects_missing_slash() {
    assert!(parse_cidr("10.0.0.1").is_err());
}

#[test]
fn other_malformed_cidrs_are_told_apart() {
    assert_eq!(parse_cidr("10.0.0/24"), Err(CidrError::InvalidAddress));
    assert_eq!(parse_cidr("10.0.0.1/x"), Err(CidrError::InvalidPrefix));
    assert_eq!(parse_cidr("10.0.0.1/256"), Err(CidrError::InvalidPrefix));
    assert_eq!(format_cidr(v4(10, 0, 0, 1), 24), "10.0.0.1/24");
}

#[test]
fn addresses_are_written_in_their_canonical_form() {
    for (a, s) in [
        (0u128, "::"),
        (1, "::1"),
        (0xfe80 << 112, "fe80::"),
        ((0xfd00 << 112) + (0x62 << 96) + 1, "fd00:62::1"),
        (0x0001_0000_0000_0002_0000_0000_0000_0003, "1:0:0:2::3"),
        (0x0001_0000_0002_0003_0004_0005_0006_0007, "1:0:2:3:4:5:6:7"),
        (u128::MAX, "ffff:ffff:ffff:ffff:ffff:ffff:ffff:ffff"),
    ] {
        assert_eq!(format_ipv6(a), s);
        assert_eq!(parse_ip(s), Some(IpAddr::V6(a)));
    }
    for (a, s) in [(0u32, "0.0.0.0"), (0x0a3e_0001, "10.62.0.1"), (u32::MAX, "255.255.255.255")] {
        assert_eq!(format_ipv4(a), s);
        assert_eq!(parse_ipv4(s), Some(a));
    }
    assert_eq!(format_ipv6(0xffff_0102_0304), "::ffff:1.2.3.4");
    assert_eq!(parse_ip("::ffff:1.2.3.4"), Some(v6(0, 0xffff_0102_0304)));
    for s in ["", "1.2.3", "01.2.3.4", "1.2.3.256", ":::", "1::2::3", "g::", "12345::"] {
        assert_eq!(parse_ip(s), None, "{s}");
    }
}

#[test]
fn an_endpoint_has_an_address_and_a_port() {
    assert_eq!(
        parse_socket("203.0.113.7:51820"),
        Some(SocketAddr { ip: v4(203, 0, 113, 7), scope: 0, port: 51820 })
    );
    assert_eq!(
        parse_socket("[fe80::1%3]:80"),
        Some(SocketAddr { ip: v6(0xfe80, 1), scope: 3, port: 80 })
    );
    for s in ["203.0.113.7", "203.0.113.7:", "203.0.113.7:65536", "fe80::1:80"] {
        assert_eq!(parse_socket(s), None, "{s}");
    }
}

#[test]
fn to_remove_empty_current_removes_nothing() {
    assert_eq!(to_remove(&[], &[(v4(10, 0, 0, 1), 31)]), Vec::new());
}

#[test]
fn to_remove_matching_current_removes_nothing() {
    let desired = (v4(10, 0, 0, 1), 31);
    assert_eq!(to_remove(&[desired], &[desired]), Vec::new());
}

#[test]
fn to_remove_flags_a_single_stale_address() {
    let stale = (v4(10, 62, 255, 6), 31);
    let desired = (v4(10, 62, 255, 10), 31);
    assert_eq!(to_remove(&[stale], &[desired]), vec![stale]);
}

#[test]
fn to_remove_keeps_desired_and_flags_every_other_one() {
    let stale_a = (v4(10, 0, 0, 2), 31);
    let stale_b = (v4(10, 0, 0, 4), 31);
    let desired = (v4(10, 0, 0, 6), 31);
    let mut removed = to_remove(&[stale_a, desired, stale_b], &[desired]);
    removed.sort();
    assert_eq!(removed, vec![stale_a, stale_b]);
}

#[test]
fn to_remove_works_for_ipv6_too() {
    let stale = (v6(0xfe80, 1), 64);
    let desired = (v6(0xfe80, 2), 64);
    assert_eq!(to_remove(&[stale], &[desired]), vec![stale]);
}

#[test]
fn to_remove_keeps_every_entry_in_a_multi_address_desired_set() {
    let global = (v6(0xfd00, 1), 128);
    let link_local = (v6(0xfe80, 1), 64);
    let stale = (v6(0xfe80, 0xdead), 64);
    let mut removed = to_remove(&[global, link_local, stale], &[global, link_local]);
    removed.sort();
    assert_eq!(removed, vec![stale]);
}

#[test]
fn addresses_are_sorted_by_family() {
    let cidrs: Vec<String> =
        ["10.0.0.1/24", "fe80::1/64", "10.0.0.2/24"].iter().map(|s| s.to_string()).collect();
    let f = split_families(&cidrs).unwrap();
    assert_eq!(f.v4, vec![(v4(10, 0, 0, 1), 24), (v4(10, 0, 0, 2), 24)]);
    assert_eq!(f.v6, vec![(v6(0xfe80, 1), 64)]);
    assert_eq!(split_families(&vec!["x".to_string()]), Err(CidrError::MissingSlash));
}

#[test]
fn the_kernel_says_when_something_is_not_there() {
    assert!(is_missing_link(-19) && !is_missing_link(-3));
    assert!(is_missing_route(-3) && !is_missing_route(-19));
}

#[test]
fn links_are_listed_by_name_and_kind() {
    let links = vec![
        Link {
            index: 4,
            attributes: vec![
                LinkAttr::Other,
                LinkAttr::Name("mesh-a".to_string()),
                LinkAttr::Kind("amneziawg".to_string()),
            ],
        },
        Link { index: 5, attributes: vec![LinkAttr::Name("eth0".to_string())] },
        Link { index: 6, attributes: vec![LinkAttr::Kind("amneziawg".to_string())] },
    ];
    assert_eq!(list_links(&links), vec![("mesh-a".to_string(), 4), ("eth0".to_string(), 5)]);
    assert_eq!(list_links_by_kind(&links, "amneziawg"), vec![("mesh-a".to_string(), 4)]);
}

#[test]
fn only_the_daemons_own_routes_are_listed() {
    let route = |protocol: u8, index: u32, dest: Option<IpAddr>| KernelRoute {
        protocol,
        prefix_len: 32,
        attributes: dest
            .into_iter()
            .map(RouteAttr::Destination)
            .chain([RouteAttr::Other, RouteAttr::OutputInterface(index)])
            .collect(),
    };
    let routes = vec![
        route(99, 4, Some(v4(10, 0, 0, 1))),
        route(12, 4, Some(v4(10, 0, 0, 2))),
        route(99, 5, Some(v4(10, 0, 0, 3))),
        route(99, 4, None),
    ];
    assert_eq!(routes_matching(&routes, 4, 99), vec!["10.0.0.1/32"]);
    assert_eq!(destination_of(&routes[3]), None);
    assert_eq!(destination_of(&routes[1]), Some((v4(10, 0, 0, 2), 32)));
}

#[test]
fn the_first_default_route_with_an_interface_counts() {
    let route = |prefix_len: u8, attributes: Vec<RouteAttr>| KernelRoute {
        protocol: 4,
        prefix_len,
        attributes,
    };
    let routes = vec![
        route(24, vec![RouteAttr::OutputInterface(1)]),
        route(0, vec![RouteAttr::Other]),
        route(0, vec![RouteAttr::Other, RouteAttr::OutputInterface(7)]),
        route(0, vec![RouteAttr::OutputInterface(8)]),
    ];
    assert_eq!(default_iface(&routes), Some(7));
    assert_eq!(default_iface(&vec![]), None);
}

fn push(o: &Obfuscation) -> Vec<DeviceAttr> {
    let mut attrs = Vec::new();
    push_obfuscation_attrs(&mut attrs, o).unwrap();
    attrs
}

#[test]
fn default_obfuscation_still_pushes_every_junk_and_header_attribute() {
    let attrs = push(&Obfuscation::default());
    assert!(attrs.contains(&DeviceAttr::JC(0)));
    assert!(attrs.contains(&DeviceAttr::Jmin(0)));
    assert!(attrs.contains(&DeviceAttr::Jmax(0)));
    assert!(attrs.contains(&DeviceAttr::S1(0)));
    assert!(attrs.contains(&DeviceAttr::S2(0)));
    assert!(attrs.contains(&DeviceAttr::S3(0)));
    assert!(attrs.contains(&DeviceAttr::S4(0)));
}

#[test]
fn default_obfuscation_headers_are_the_real_wireguard_message_types_not_zero() {
    let attrs = push(&Obfuscation::default());
    assert!(attrs.contains(&DeviceAttr::H1Range(u32_range_pack(1, 1))));
    assert!(attrs.contains(&DeviceAttr::H2Range(u32_range_pack(2, 2))));
    assert!(attrs.contains(&DeviceAttr::H3Range(u32_range_pack(3, 3))));
    assert!(attrs.contains(&DeviceAttr::H4Range(u32_range_pack(4, 4))));
}

#[test]
fn explicit_obfuscation_values_are_used_verbatim() {
    let o = Obfuscation {
        jc: Some(4),
        jmin: Some(40),
        jmax: Some(70),
        h1: Some(12345),
        ..Obfuscation::default()
    };
    let attrs = push(&o);
    assert!(attrs.contains(&DeviceAttr::JC(4)));
    assert!(attrs.contains(&DeviceAttr::Jmin(40)));
    assert!(attrs.contains(&DeviceAttr::Jmax(70)));
    assert!(attrs.contains(&DeviceAttr::H1Range(u32_range_pack(12345, 12345))));
    assert!(attrs.contains(&DeviceAttr::H2Range(u32_range_pack(2, 2))));
}

#[test]
fn unset_decoy_and_timing_fields_are_omitted_not_defaulted() {
    let attrs = push(&Obfuscation::default());
    assert!(!attrs.iter().any(|a| matches!(a, DeviceAttr::I1(_))));
    assert!(!attrs.iter().any(|a| matches!(a, DeviceAttr::HeaderProtectionKey(_))));
    assert!(!attrs.iter().any(|a| matches!(a, DeviceAttr::RekeyAfterTime(_))));
}

#[test]
fn a_malformed_header_protection_key_is_refused() {
    let o = Obfuscation {
        header_protection_key: Some("AAAA".to_string()),
        ..Obfuscation::default()
    };
    let mut attrs = Vec::new();
    assert_eq!(push_obfuscation_attrs(&mut attrs, &o), Err(KeyError::WrongLength));
}

#[test]
fn layers_go_field_by_field() {
    let a = Obfuscation { jc: Some(1), ..Obfuscation::default() };
    let b = Obfuscation { jc: Some(2), i1: Some("x".to_string()), ..Obfuscation::default() };
    let r = layer(&a, &b);
    assert_eq!(r.jc, Some(1));
    assert_eq!(r.i1, Some("x".to_string()));
    let rest = remainder(&a, &b);
    assert_eq!(rest.jc, None);
    assert_eq!(rest.i1, Some("x".to_string()));
    assert!(is_unset(&Obfuscation::default()) && !is_unset(&a));
}

#[test]
fn generates_a_key_common_keys_can_decode() {
    decode_key(&generate_private_key()).expect("generated key must be valid base64 32 bytes");
}

#[test]
fn generates_different_keys_on_each_call() {
    assert_ne!(generate_private_key(), generate_private_key());
}

#[test]
fn derives_a_public_key_common_keys_can_decode() {
    let private = generate_private_key();
    let public = public_key_from_private(&private).expect("valid private key");
    decode_key(&public).expect("derived public key must be valid base64 32 bytes");
}

#[test]
fn derives_the_same_public_key_for_the_same_private_key() {
    let private = generate_private_key();
    assert_eq!(
        public_key_from_private(&private).unwrap(),
        public_key_from_private(&private).unwrap()
    );
}

#[test]
fn derives_different_public_keys_for_different_private_keys() {
    let a = public_key_from_private(&generate_private_key()).unwrap();
    let b = public_key_from_private(&generate_private_key()).unwrap();
    assert_ne!(a, b);
}

#[test]
fn rejects_a_malformed_private_key() {
    assert!(public_key_from_private("not-valid-base64!!").is_err());
    assert_eq!(public_key_from_private("not-valid-base64!!"), Err(KeyError::InvalidBase64));
    assert_eq!(public_key_from_private("AAAA"), Err(KeyError::WrongLength));
}

#[test]
fn a_key_reads_back_from_its_text() {
    let mut key = [0u8; 32];
    key[0] = 0xff;
    key[31] = 7;
    let text = encode_key(&key);
    assert_eq!(text, "/wAAAAAAAAAAAAAAAAAAAAAAAAAAAAAAAAAAAAAAAAc=");
    assert_eq!(decode_key(&format!("  {text}\n")), Ok(key));
}

#[test]
fn the_public_key_is_the_one_of_the_curve() {
    let private = encode_key(&[
        0x77, 0x07, 0x6d, 0x0a, 0x73, 0x18, 0xa5, 0x7d, 0x3c, 0x16, 0xc1, 0x72, 0x51, 0xb2, 0x66,
        0x45, 0xdf, 0x4c, 0x2f, 0x87, 0xeb, 0xc0, 0x99, 0x2a, 0xb1, 0x77, 0xfb, 0xa5, 0x1d, 0xb9,
        0x2c, 0x2a,
    ]);
    let public = encode_key(&[
        0x85, 0x20, 0xf0, 0x09, 0x89, 0x30, 0xa7, 0x54, 0x74, 0x8b, 0x7d, 0xdc, 0xb4, 0x3e, 0xf7,
        0x5a, 0x0d, 0xbf, 0x3a, 0x0d, 0x26, 0x38, 0x1a, 0xf4, 0xeb, 0xa4, 0xa9, 0x8e, 0xaa, 0x9b,
        0x4e, 0x6a,
    ]);
    assert_eq!(public_key_from_private(&private), Ok(public));
}

#[test]
fn an_address_reads_back_from_its_text() {
    let written = [
        (v4(0, 0, 0, 0), 0, "0.0.0.0/0"),
        (v4(203, 0, 113, 255), 32, "203.0.113.255/32"),
        (IpAddr::V6(0), 0, "::/0"),
        (IpAddr::V6(1), 128, "::1/128"),
        (v6(0xfe80, 0xa1b2), 64, "fe80::a1b2/64"),
        (IpAddr::V6(0xffff_c000_0201), 96, "::ffff:192.0.2.1/96"),
        (IpAddr::V6(u128::MAX), 128, "ffff:ffff:ffff:ffff:ffff:ffff:ffff:ffff/128"),
        (
            IpAddr::V6(0x2001_0db8_0000_0000_0001_0000_0000_0001),
            32,
            "2001:db8::1:0:0:1/32",
        ),
        (
            IpAddr::V6(0x2001_0db8_0000_0001_0001_0001_0001_0001),
            32,
            "2001:db8:0:1:1:1:1:1/32",
        ),
    ];
    for (a, prefix, text) in written {
        assert_eq!(format_cidr(a, prefix), text);
        assert_eq!(parse_cidr(text), Ok((a, prefix)));
    }
}
