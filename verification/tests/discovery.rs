use soma::discovery::{
    conclude_scan, DiscoveryNetworkError, ProbeResponse, ScanAction, ScanSession, SegmentOutcome,
    SegmentStatus,
};
use soma::host::{IpAddress, ManagementStatus};
use soma::probe::ProbeError;
use soma::range::{AddressRange, Segment};
use soma::registry::{HostRecord, HostRegistry};
use soma::report::Reachability;

fn registry(records: &[(&str, &str)]) -> HostRegistry {
    let records: Vec<HostRecord> = records
        .iter()
        .map(|(n, a)| HostRecord { hostname: n.to_string(), ip_address: a.to_string() })
        .collect();
    HostRegistry::load(&records).unwrap()
}

fn answer(ip: u32, name: Option<&str>) -> ProbeResponse {
    ProbeResponse {
        ip_address: IpAddress::V4(ip),
        responded: true,
        rtt_ms: 4,
        resolved_name: name.map(|n| n.to_string()),
    }
}

fn silence(ip: u32) -> ProbeResponse {
    ProbeResponse { ip_address: IpAddress::V4(ip), responded: false, rtt_ms: 0, resolved_name: None }
}

fn reached(index: u128) -> SegmentStatus {
    SegmentStatus { index, error: None }
}

#[test]
fn two_known_and_two_unknown_responders() {
    let registry =
        registry(&[("host1.example.com", "192.168.1.10"), ("host2.example.com", "192.168.1.11")]);
    let responses = vec![
        answer(0xc0a8_010a, None),
        answer(0xc0a8_010b, None),
        silence(0xc0a8_010c),
        answer(0xc0a8_010f, Some("unknown-device")),
        answer(0xc0a8_0114, Some("printer")),
    ];
    let report = conclude_scan(&registry, &vec![reached(0)], &responses).unwrap();
    let managed: Vec<_> = report
        .devices
        .iter()
        .filter(|d| d.management_status == ManagementStatus::Managed)
        .collect();
    let unmanaged: Vec<_> = report
        .devices
        .iter()
        .filter(|d| d.management_status == ManagementStatus::Unmanaged)
        .collect();
    assert_eq!(managed.len(), 2);
    assert_eq!(unmanaged.len(), 2);
    assert_eq!(report.devices.len(), 4);
    assert_eq!(report.devices[0].hostname.as_deref(), Some("host1.example.com"));
    assert_eq!(report.devices[0].ip_address, IpAddress::V4(0xc0a8_010a));
    assert_eq!(report.devices[0].reachability, Reachability::Online);
    assert_eq!(report.devices[0].rtt_ms, Some(4));
    assert_eq!(report.devices[1].hostname.as_deref(), Some("host2.example.com"));
    assert_eq!(report.devices[2].hostname.as_deref(), Some("unknown-device"));
    assert_eq!(report.devices[2].management_status, ManagementStatus::Unmanaged);
    assert_eq!(report.devices[2].reachability, Reachability::Online);
    assert_eq!(report.devices[3].hostname.as_deref(), Some("printer"));
    assert!(report.devices.iter().all(|d| !d.confirmed));
    assert!(report.failed_segments.is_empty());
}

#[test]
fn silent_registered_hosts_are_listed_as_unknown() {
    let registry = registry(&[("a", "10.0.0.1"), ("b", "10.0.0.2"), ("c", "10.0.0.3")]);
    let responses = vec![silence(0x0a00_0001), answer(0x0a00_0002, None), answer(0x0a00_0009, None)];
    let report = conclude_scan(&registry, &vec![reached(0)], &responses).unwrap();
    assert_eq!(report.devices.len(), 4);
    assert_eq!(report.devices[0].hostname.as_deref(), Some("b"));
    assert_eq!(report.devices[0].management_status, ManagementStatus::Managed);
    assert_eq!(report.devices[1].hostname, None);
    assert_eq!(report.devices[1].ip_address, IpAddress::V4(0x0a00_0009));
    assert_eq!(report.devices[1].management_status, ManagementStatus::Unmanaged);
    assert_eq!(report.devices[2].hostname.as_deref(), Some("a"));
    assert_eq!(report.devices[2].ip_address, IpAddress::V4(0x0a00_0001));
    assert_eq!(report.devices[2].management_status, ManagementStatus::Managed);
    assert_eq!(report.devices[2].reachability, Reachability::Unknown);
    assert_eq!(report.devices[2].rtt_ms, None);
    assert_eq!(report.devices[3].hostname.as_deref(), Some("c"));
    assert_eq!(report.devices[3].reachability, Reachability::Unknown);
}

#[test]
fn a_resolved_name_matches_where_the_address_does_not() {
    let registry = registry(&[("a", "10.0.0.1"), ("b", "10.0.0.2")]);
    let responses = vec![answer(0x0a00_0063, Some("b")), answer(0x0a00_0001, Some("b"))];
    let report = conclude_scan(&registry, &vec![reached(0)], &responses).unwrap();
    assert_eq!(report.devices.len(), 2);
    assert_eq!(report.devices[0].hostname.as_deref(), Some("b"));
    assert_eq!(report.devices[0].ip_address, IpAddress::V4(0x0a00_0063));
    assert_eq!(report.devices[0].management_status, ManagementStatus::Managed);
    // The address decides before the name does.
    assert_eq!(report.devices[1].hostname.as_deref(), Some("a"));
    assert_eq!(report.devices[1].management_status, ManagementStatus::Managed);
}

#[test]
fn a_failed_segment_is_recorded_not_fatal() {
    let registry = registry(&[("a", "10.0.0.1")]);
    let segments = vec![
        SegmentStatus { index: 0, error: Some(ProbeError::NetworkUnreachable) },
        reached(1),
        SegmentStatus { index: 2, error: Some(ProbeError::AttemptTimeout) },
    ];
    let report = conclude_scan(&registry, &segments, &vec![answer(0x0a00_0001, None)]).unwrap();
    assert_eq!(
        report.failed_segments,
        vec![
            SegmentStatus { index: 0, error: Some(ProbeError::NetworkUnreachable) },
            SegmentStatus { index: 2, error: Some(ProbeError::AttemptTimeout) },
        ]
    );
    assert_eq!(report.devices.len(), 1);
}

#[test]
fn a_scan_without_a_reachable_segment_fails() {
    let registry = registry(&[("a", "10.0.0.1")]);
    let segments = vec![
        SegmentStatus { index: 0, error: Some(ProbeError::NetworkUnreachable) },
        SegmentStatus { index: 1, error: Some(ProbeError::NetworkUnreachable) },
    ];
    let r = conclude_scan(&registry, &segments, &Vec::new());
    assert_eq!(r.err(), Some(DiscoveryNetworkError { segments_tried: 2 }));
    let none = conclude_scan(&registry, &Vec::new(), &Vec::new());
    assert_eq!(none.err(), Some(DiscoveryNetworkError { segments_tried: 0 }));
}

#[test]
fn an_empty_registry_lists_responders_as_unmanaged() {
    let registry = HostRegistry::new();
    let report =
        conclude_scan(&registry, &vec![reached(0)], &vec![answer(1, None), silence(2)]).unwrap();
    assert_eq!(report.devices.len(), 1);
    assert_eq!(report.devices[0].management_status, ManagementStatus::Unmanaged);
}

fn full(ipv4_text: &str) -> AddressRange {
    AddressRange::parse(ipv4_text).unwrap()
}

fn segment(index: u128, first: u32, last: u32) -> Segment {
    Segment { index, first: IpAddress::V4(first), last: IpAddress::V4(last) }
}

#[test]
fn a_scan_refuses_a_zero_unit_or_ceiling() {
    assert!(ScanSession::new(full("10.0.0.0/24"), 0, 4).is_none());
    assert!(ScanSession::new(full("10.0.0.0/24"), 16, 0).is_none());
    assert!(ScanSession::new(full("10.0.0.0/24"), 0, 0).is_none());
    assert!(ScanSession::new(full("10.0.0.0/24"), 1, 1).is_some());
}

#[test]
fn a_scan_hands_out_units_in_order_under_the_ceiling() {
    // Sixteen addresses in units of three: six units, at most two in flight.
    let mut scan = ScanSession::new(full("10.0.0.0/28"), 3, 2).unwrap();
    assert!(!scan.is_done());
    assert_eq!(scan.next_step(), ScanAction::Probe { segment: segment(0, 0x0a00_0000, 0x0a00_0002) });
    assert_eq!(scan.next_step(), ScanAction::Probe { segment: segment(1, 0x0a00_0003, 0x0a00_0005) });
    assert_eq!(scan.next_step(), ScanAction::Wait);
    assert_eq!(scan.next_step(), ScanAction::Wait);
    assert!(scan.complete(1, SegmentOutcome::Reached(vec![answer(0x0a00_0004, None)])));
    assert_eq!(scan.next_step(), ScanAction::Probe { segment: segment(2, 0x0a00_0006, 0x0a00_0008) });
    assert_eq!(scan.next_step(), ScanAction::Wait);
    assert!(scan.complete(0, SegmentOutcome::Unreachable(ProbeError::NetworkUnreachable)));
    assert!(scan.complete(2, SegmentOutcome::Reached(Vec::new())));
    assert!(!scan.complete(2, SegmentOutcome::Reached(Vec::new())));
    assert!(!scan.complete(3, SegmentOutcome::Reached(Vec::new())));
    assert_eq!(scan.next_step(), ScanAction::Probe { segment: segment(3, 0x0a00_0009, 0x0a00_000b) });
    assert_eq!(scan.next_step(), ScanAction::Probe { segment: segment(4, 0x0a00_000c, 0x0a00_000e) });
    assert_eq!(scan.next_step(), ScanAction::Wait);
    assert!(scan.complete(3, SegmentOutcome::Reached(vec![silence(0x0a00_0009), answer(0x0a00_000a, None)])));
    assert_eq!(scan.next_step(), ScanAction::Probe { segment: segment(5, 0x0a00_000f, 0x0a00_000f) });
    assert_eq!(scan.next_step(), ScanAction::Wait);
    assert!(!scan.is_done());
    assert!(scan.complete(5, SegmentOutcome::Reached(Vec::new())));
    assert_eq!(scan.next_step(), ScanAction::Wait);
    assert!(scan.complete(4, SegmentOutcome::Unreachable(ProbeError::AttemptTimeout)));
    assert!(scan.is_done());
    assert_eq!(scan.next_step(), ScanAction::Done);
    assert_eq!(scan.next_step(), ScanAction::Done);
    assert!(!scan.complete(4, SegmentOutcome::Reached(Vec::new())));
    let ended: Vec<u128> = scan.statuses().iter().map(|s| s.index).collect();
    assert_eq!(ended, vec![1, 0, 2, 3, 5, 4]);
    let answered: Vec<IpAddress> = scan.responses().iter().map(|r| r.ip_address).collect();
    assert_eq!(
        answered,
        vec![IpAddress::V4(0x0a00_0004), IpAddress::V4(0x0a00_0009), IpAddress::V4(0x0a00_000a)]
    );
}

#[test]
fn a_scan_session_concludes_with_what_it_collected() {
    let registry = registry(&[("a", "10.0.0.1"), ("b", "10.0.0.2")]);
    let mut scan = ScanSession::new(full("10.0.0.0/30"), 2, 8).unwrap();
    assert_eq!(scan.next_step(), ScanAction::Probe { segment: segment(0, 0x0a00_0000, 0x0a00_0001) });
    assert_eq!(scan.next_step(), ScanAction::Probe { segment: segment(1, 0x0a00_0002, 0x0a00_0003) });
    assert_eq!(scan.next_step(), ScanAction::Wait);
    // Nothing has ended yet: no unit was reached.
    assert_eq!(scan.conclude(&registry).err(), Some(DiscoveryNetworkError { segments_tried: 0 }));
    assert!(scan.complete(1, SegmentOutcome::Unreachable(ProbeError::NetworkUnreachable)));
    assert_eq!(scan.conclude(&registry).err(), Some(DiscoveryNetworkError { segments_tried: 1 }));
    assert!(scan.complete(
        0,
        SegmentOutcome::Reached(vec![silence(0x0a00_0000), answer(0x0a00_0001, None)])
    ));
    assert_eq!(scan.next_step(), ScanAction::Done);
    let report = scan.conclude(&registry).unwrap();
    assert_eq!(
        report.failed_segments,
        vec![SegmentStatus { index: 1, error: Some(ProbeError::NetworkUnreachable) }]
    );
    assert_eq!(report.devices.len(), 2);
    assert_eq!(report.devices[0].hostname.as_deref(), Some("a"));
    assert_eq!(report.devices[0].reachability, Reachability::Online);
    assert_eq!(report.devices[1].hostname.as_deref(), Some("b"));
    assert_eq!(report.devices[1].reachability, Reachability::Unknown);
}

#[test]
fn a_scan_of_one_address_is_one_unit() {
    let mut scan = ScanSession::new(full("10.0.0.7"), 64, 3).unwrap();
    assert_eq!(scan.next_step(), ScanAction::Probe { segment: segment(0, 0x0a00_0007, 0x0a00_0007) });
    assert_eq!(scan.next_step(), ScanAction::Wait);
    assert!(scan.complete(0, SegmentOutcome::Reached(Vec::new())));
    assert_eq!(scan.next_step(), ScanAction::Done);
}

#[test]
fn the_widest_scan_starts_at_the_first_address() {
    let whole = AddressRange::parse("::/0").unwrap();
    let mut scan = ScanSession::new(whole, 1, 1).unwrap();
    assert_eq!(
        scan.next_step(),
        ScanAction::Probe { segment: Segment { index: 0, first: IpAddress::V6(0), last: IpAddress::V6(0) } }
    );
    assert!(scan.complete(0, SegmentOutcome::Reached(Vec::new())));
    assert_eq!(
        scan.next_step(),
        ScanAction::Probe { segment: Segment { index: 1, first: IpAddress::V6(1), last: IpAddress::V6(1) } }
    );
    assert!(!scan.is_done());
}
