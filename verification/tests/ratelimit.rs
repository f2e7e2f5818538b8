use efflux::ratelimit::{
    client_ip, first_forwarded, is_login_path, is_private, let_through, Ip, Limiter,
    LOGIN_BURST,
};

fn v4(text: &str) -> Ip {
    let parts: Vec<u32> = text.split('.').map(|p| p.parse().unwrap()).collect();
    Ip::V4((parts[0] << 24) | (parts[1] << 16) | (parts[2] << 8) | parts[3])
}

fn ip(text: &str) -> Ip {
    v4(text)
}

const NOW: u64 = 5_000_000_000_000;

#[test]
fn burst_runs_out_then_refuses() {
    let mut limiter = Limiter::login();
    for _ in 0..LOGIN_BURST as usize {
        assert!(limiter.check(ip("203.0.113.7"), NOW).is_ok());
    }
    assert!(limiter.check(ip("203.0.113.7"), NOW).is_err());
    // another address is unaffected
    assert!(limiter.check(ip("203.0.113.8"), NOW).is_ok());
}

#[test]
fn direct_request_uses_peer_address() {
    let forwarded = Some(v4(&first_forwarded("1.2.3.4")));
    let peer = Some(ip("198.51.100.9"));
    assert_eq!(client_ip(forwarded, peer), Some(ip("198.51.100.9")));
}

#[test]
fn proxy_request_uses_forwarded_for() {
    let forwarded = Some(v4(&first_forwarded("1.2.3.4, 10.0.0.1")));
    let peer = Some(ip("127.0.0.1"));
    assert_eq!(client_ip(forwarded, peer), Some(ip("1.2.3.4")));
    assert_eq!(client_ip(None, peer), Some(ip("127.0.0.1")));
}

#[test]
fn refusal_names_the_wait_and_the_wait_is_enough() {
    let mut limiter = Limiter::login();
    let who = ip("203.0.113.9");
    for _ in 0..5 {
        assert!(limiter.check(who, NOW).is_ok());
    }
    // 12 a minute: a token every five seconds
    assert_eq!(limiter.check(who, NOW), Err(5));
    assert_eq!(limiter.check(who, NOW + 4_000_000_000), Err(1));
    assert!(limiter.check(who, NOW + 5_000_000_000).is_ok());
}

#[test]
fn api_limiter_refills_quickly() {
    let mut limiter = Limiter::api();
    let who = Ip::V6(1);
    for _ in 0..60 {
        assert!(limiter.check(who, NOW).is_ok());
    }
    assert_eq!(limiter.check(who, NOW), Err(1));
    // 30 a second: a token every 1/30 s
    assert!(limiter.check(who, NOW + 34_000_000).is_ok());
}

#[test]
fn limiter_without_refill_waits_forever() {
    let mut limiter = Limiter::new(0, 1);
    assert!(limiter.check(ip("10.0.0.1"), NOW).is_ok());
    assert_eq!(limiter.check(ip("10.0.0.1"), NOW + 1), Err(u64::MAX));
}

#[test]
fn idle_addresses_are_forgotten_once_many_are_seen() {
    let mut limiter = Limiter::new(0, 1);
    for k in 0..256u32 {
        assert!(limiter.check(Ip::V4(k), NOW).is_ok());
    }
    // the bucket of address 0 is empty and never refills (this request
    // meets a full table and sweeps, but nothing is idle yet)
    assert!(limiter.check(Ip::V4(0), NOW).is_err());
    for _ in 0..63 {
        assert!(limiter.check(Ip::V4(5), NOW).is_err());
    }
    // the 64th request after that sweeps again: ten minutes on, address 0
    // has been idle that long and starts afresh
    let later = NOW + 600_000_000_000;
    assert!(limiter.check(Ip::V4(0), later).is_ok());
}

#[test]
fn private_addresses() {
    assert!(is_private(ip("127.0.0.1")));
    assert!(is_private(ip("10.1.2.3")));
    assert!(is_private(ip("172.16.0.1")));
    assert!(is_private(ip("172.31.255.255")));
    assert!(!is_private(ip("172.32.0.1")));
    assert!(is_private(ip("192.168.1.1")));
    assert!(is_private(ip("169.254.9.9")));
    assert!(is_private(ip("0.0.0.0")));
    assert!(!is_private(ip("8.8.8.8")));
    assert!(is_private(Ip::V6(1)));
    assert!(is_private(Ip::V6(0)));
    assert!(is_private(Ip::V6(0xfd12u128 << 112)));
    assert!(is_private(Ip::V6(0xfe80u128 << 112)));
    assert!(!is_private(Ip::V6(0x2001u128 << 112)));
}

#[test]
fn guards() {
    let mut limiter = Limiter::new(0, 0);
    assert!(let_through(&mut limiter, false, false, Some(ip("1.1.1.1")), NOW).is_ok());
    assert!(let_through(&mut limiter, true, true, Some(ip("1.1.1.1")), NOW).is_ok());
    assert!(let_through(&mut limiter, true, false, None, NOW).is_ok());
    assert!(let_through(&mut limiter, true, false, Some(ip("1.1.1.1")), NOW).is_err());
    assert!(is_login_path("/api/auth/login"));
    assert!(!is_login_path("/api/moments"));
    assert_eq!(first_forwarded("  9.9.9.9 ,1.1.1.1"), "9.9.9.9");
}
