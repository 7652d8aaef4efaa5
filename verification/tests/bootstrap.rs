//! Classification of bootstrap entries.

use kdht::krpc::KAddress;
use kdht::ns::HostPort;
use kdht::ns::ResolveError;
use kdht::ns::parse_bootstrap_entry;

#[test]
fn test_entry_literal_address() {
    assert_eq!(
        parse_bootstrap_entry(b"1.2.3.4:56789"),
        Ok(HostPort::Addr(KAddress { ip: 0x01020304, port: 56789 }))
    );
}

#[test]
fn test_entry_host_with_default_port() {
    assert_eq!(
        parse_bootstrap_entry(b"router.utorrent.com"),
        Ok(HostPort::Lookup(b"router.utorrent.com".to_vec(), 6881))
    );
}

#[test]
fn test_entry_host_with_port() {
    assert_eq!(
        parse_bootstrap_entry(b"router.bittorrent.com:6881"),
        Ok(HostPort::Lookup(b"router.bittorrent.com".to_vec(), 6881))
    );
}

#[test]
fn test_entry_invalid_port() {
    assert_eq!(
        parse_bootstrap_entry(b"host:99999"),
        Err(ResolveError::InvalidPort(b"99999".to_vec()))
    );
    assert_eq!(
        parse_bootstrap_entry(b"host:12ab"),
        Err(ResolveError::InvalidPort(b"12ab".to_vec()))
    );
    assert_eq!(
        parse_bootstrap_entry(b"host:"),
        Err(ResolveError::InvalidPort(b"".to_vec()))
    );
}

#[test]
fn test_entry_invalid_addr() {
    assert_eq!(
        parse_bootstrap_entry(b"a:b:c"),
        Err(ResolveError::InvalidAddr(b"a:b:c".to_vec()))
    );
}
