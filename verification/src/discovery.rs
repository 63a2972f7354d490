//! Network discovery: which units of a range to probe next, and what the
//! devices that answered are.
//!
//! A device that answers is managed where the registry knows its address
//! or, failing that, the name it resolves to; it is unmanaged otherwise.
//! Registered hosts that did not answer are listed too, as managed hosts of
//! unknown reachability: a scan shows presence, never absence.

use vstd::prelude::*;
use vstd::seq_lib::seq_to_set_is_finite;
use vstd::set_lib::{lemma_int_range, lemma_subset_equality, set_int_range};
use crate::host::{HostView, IpAddress, ManagementStatus};
use crate::probe::ProbeError;
use crate::registry::{has_name, index_at, index_named, is_first_at, HostRegistry};
use crate::range::{segment_of, AddressRange, RangeView, Segment};
use crate::report::Reachability;

verus! {

/// What came back from one address of the range.
#[derive(Debug)]
pub struct ProbeResponse {
    pub ip_address: IpAddress,
    pub responded: bool,
    /// The round-trip time of the answer.
    pub rtt_ms: u64,
    /// The name that the address resolves to, where the caller looked it up
    /// and found one.
    pub resolved_name: Option<String>,
}

/// The mathematical value of a [`ProbeResponse`].
pub struct ResponseView {
    pub ip_address: IpAddress,
    pub responded: bool,
    pub rtt_ms: u64,
    pub resolved_name: Option<Seq<char>>,
}

/// The value of a name that may be missing.
pub open spec fn optional_name(name: Option<String>) -> Option<Seq<char>> {
    match name {
        Some(n) => Some(n@),
        None => None,
    }
}

impl View for ProbeResponse {
    type V = ResponseView;

    open spec fn view(&self) -> ResponseView {
        ResponseView {
            ip_address: self.ip_address,
            responded: self.responded,
            rtt_ms: self.rtt_ms,
            resolved_name: optional_name(self.resolved_name),
        }
    }
}

/// A device as a scan lists it.
#[derive(Debug)]
pub struct DiscoveredDevice {
    /// The registered name of a managed device; the resolved name, if any,
    /// of an unmanaged one.
    pub hostname: Option<String>,
    pub ip_address: IpAddress,
    pub management_status: ManagementStatus,
    /// `Online` for a device that answered, `Unknown` for a registered host
    /// that did not.
    pub reachability: Reachability,
    pub rtt_ms: Option<u64>,
    /// Set by the operator to have the device entered into the registry; a
    /// scan never sets it.
    pub confirmed: bool,
}

/// The mathematical value of a [`DiscoveredDevice`].
pub struct DeviceView {
    pub hostname: Option<Seq<char>>,
    pub ip_address: IpAddress,
    pub management_status: ManagementStatus,
    pub reachability: Reachability,
    pub rtt_ms: Option<u64>,
    pub confirmed: bool,
}

impl View for DiscoveredDevice {
    type V = DeviceView;

    open spec fn view(&self) -> DeviceView {
        DeviceView {
            hostname: optional_name(self.hostname),
            ip_address: self.ip_address,
            management_status: self.management_status,
            reachability: self.reachability,
            rtt_ms: self.rtt_ms,
            confirmed: self.confirmed,
        }
    }
}

impl Clone for DiscoveredDevice {
    fn clone(&self) -> (r: DiscoveredDevice)
        ensures
            r@ == self@,
    {
        DiscoveredDevice {
            hostname: match &self.hostname {
                Some(n) => Some(n.clone()),
                None => None,
            },
            ip_address: self.ip_address,
            management_status: self.management_status,
            reachability: self.reachability,
            rtt_ms: self.rtt_ms,
            confirmed: self.confirmed,
        }
    }
}

/// The values of a sequence of responses.
pub open spec fn response_views(responses: Seq<ProbeResponse>) -> Seq<ResponseView> {
    Seq::new(responses.len(), |i: int| responses[i]@)
}

/// The values of a sequence of devices.
pub open spec fn device_views(devices: Seq<DiscoveredDevice>) -> Seq<DeviceView> {
    Seq::new(devices.len(), |i: int| devices[i]@)
}

/// The registered host that a response belongs to: the first host at its
/// address or, where there is none, the host of the name it resolves to.
pub open spec fn match_index(hosts: Seq<HostView>, response: ResponseView) -> Option<int> {
    match index_at(hosts, response.ip_address) {
        Some(i) => Some(i),
        None => match response.resolved_name {
            Some(name) => index_named(hosts, name),
            None => None,
        },
    }
}

/// The device that a response shows.
pub open spec fn classify(hosts: Seq<HostView>, response: ResponseView) -> DeviceView {
    match match_index(hosts, response) {
        Some(i) => DeviceView {
            hostname: Some(hosts[i].hostname),
            ip_address: response.ip_address,
            management_status: ManagementStatus::Managed,
            reachability: Reachability::Online,
            rtt_ms: Some(response.rtt_ms),
            confirmed: false,
        },
        None => DeviceView {
            hostname: response.resolved_name,
            ip_address: response.ip_address,
            management_status: ManagementStatus::Unmanaged,
            reachability: Reachability::Online,
            rtt_ms: Some(response.rtt_ms),
            confirmed: false,
        },
    }
}

/// The devices that answered, in the order of their responses.
pub open spec fn responder_devices(
    hosts: Seq<HostView>,
    responses: Seq<ResponseView>,
) -> Seq<DeviceView>
    decreases responses.len(),
{
    if responses.len() == 0 {
        Seq::empty()
    } else {
        let before = responder_devices(hosts, responses.drop_last());
        if responses.last().responded {
            before.push(classify(hosts, responses.last()))
        } else {
            before
        }
    }
}

/// Some response that was answered belongs to the host at place `k`.
pub open spec fn seen(hosts: Seq<HostView>, responses: Seq<ResponseView>, k: int) -> bool {
    exists|j: int|
        0 <= j < responses.len() && (#[trigger] responses[j]).responded && match_index(
            hosts,
            responses[j],
        ) == Some(k)
}

/// The listing of a registered host that did not answer.
pub open spec fn absent_device(host: HostView) -> DeviceView {
    DeviceView {
        hostname: Some(host.hostname),
        ip_address: host.ip_address,
        management_status: ManagementStatus::Managed,
        reachability: Reachability::Unknown,
        rtt_ms: None,
        confirmed: false,
    }
}

/// The listings of those of the first `upto` hosts that did not answer, in
/// registry order.
pub open spec fn absent_devices(
    hosts: Seq<HostView>,
    responses: Seq<ResponseView>,
    upto: int,
) -> Seq<DeviceView>
    decreases upto,
{
    if upto <= 0 {
        Seq::empty()
    } else {
        let before = absent_devices(hosts, responses, upto - 1);
        if seen(hosts, responses, upto - 1) {
            before
        } else {
            before.push(absent_device(hosts[upto - 1]))
        }
    }
}

/// What a scan lists: the devices that answered, then the registered hosts
/// that did not.
pub open spec fn scan_devices(hosts: Seq<HostView>, responses: Seq<ResponseView>) -> Seq<
    DeviceView,
> {
    responder_devices(hosts, responses) + absent_devices(hosts, responses, hosts.len() as int)
}

/// How the probing of one unit of the range ended: `error` is `None` where
/// the unit could be reached.
#[derive(Clone, Copy, Debug, PartialEq, Eq, Structural)]
pub struct SegmentStatus {
    pub index: u128,
    pub error: Option<ProbeError>,
}

/// Some unit could be reached.
pub open spec fn any_reached(segments: Seq<SegmentStatus>) -> bool {
    exists|i: int| 0 <= i < segments.len() && (#[trigger] segments[i]).error is None
}

/// The units that could not be reached, in order.
pub open spec fn failed_segments(segments: Seq<SegmentStatus>) -> Seq<SegmentStatus>
    decreases segments.len(),
{
    if segments.len() == 0 {
        Seq::empty()
    } else {
        let before = failed_segments(segments.drop_last());
        if segments.last().error is Some {
            before.push(segments.last())
        } else {
            before
        }
    }
}

/// No unit of the range could be reached.
#[derive(Clone, Copy, Debug, PartialEq, Eq, Structural)]
pub struct DiscoveryNetworkError {
    /// How many units were tried.
    pub segments_tried: usize,
}

/// The result of a scan.
#[derive(Debug)]
pub struct ScanReport {
    pub devices: Vec<DiscoveredDevice>,
    /// The units that could not be reached.
    pub failed_segments: Vec<SegmentStatus>,
}

/// The registered host that `response` belongs to.
fn match_of(registry: &HostRegistry, response: &ProbeResponse) -> (m: Option<usize>)
    ensures
        match m {
            Some(k) => k < registry@.len() && match_index(registry@, response@) == Some(k as int),
            None => match_index(registry@, response@) is None,
        },
{
    match registry.position_by_address(response.ip_address) {
        Some(i) => Some(i),
        None => match &response.resolved_name {
            Some(name) => registry.position(name),
            None => None,
        },
    }
}

/// Draws up the result of a scan of `registry`'s network from how the
/// units of the range ended and what the addresses of the reached units
/// answered.
///
/// A unit that could not be reached is recorded and is no error. The scan
/// fails only where no unit could be reached.
pub fn conclude_scan(
    registry: &HostRegistry,
    segments: &Vec<SegmentStatus>,
    responses: &Vec<ProbeResponse>,
) -> (r: Result<ScanReport, DiscoveryNetworkError>)
    ensures
        match r {
            Ok(report) => {
                &&& any_reached(segments@)
                &&& device_views(report.devices@) == scan_devices(
                    registry@,
                    response_views(responses@),
                )
                &&& report.failed_segments@ == failed_segments(segments@)
            },
            Err(e) => !any_reached(segments@) && e.segments_tried == segments.len(),
        },
{
    let ghost hosts = registry@;
    let ghost answers = response_views(responses@);
    let s = segments.len();
    let mut failed: Vec<SegmentStatus> = Vec::new();
    let mut reached = false;
    let mut i: usize = 0;
    while i < s
        invariant
            i <= s,
            s == segments.len(),
            failed@ == failed_segments(segments@.take(i as int)),
            reached == any_reached(segments@.take(i as int)),
        decreases s - i,
    {
        let ghost done = segments@.take(i as int);
        let ghost next = segments@.take(i + 1);
        proof {
            assert(next.drop_last() == done);
            assert(next.last() == segments[i as int]);
        }
        let status = segments[i];
        if status.error.is_some() {
            failed.push(status);
            proof {
                if any_reached(done) {
                    let k = choose|k: int| 0 <= k < done.len() && (#[trigger] done[k]).error is None;
                    assert(next[k].error is None);
                }
                if any_reached(next) {
                    let k = choose|k: int| 0 <= k < next.len() && (#[trigger] next[k]).error is None;
                    assert(done[k].error is None);
                }
            }
        } else {
            reached = true;
            assert(next[i as int].error is None);
        }
        i += 1;
    }
    assert(segments@.take(s as int) == segments@);
    if !reached {
        return Err(DiscoveryNetworkError { segments_tried: s });
    }
    let n = registry.len();
    let mut answered: Vec<bool> = Vec::new();
    let mut k: usize = 0;
    while k < n
        invariant
            k <= n,
            answered.len() == k,
            forall|x: int| 0 <= x < k ==> !(#[trigger] answered[x]),
        decreases n - k,
    {
        answered.push(false);
        k += 1;
    }
    let m = responses.len();
    let mut devices: Vec<DiscoveredDevice> = Vec::new();
    let mut j: usize = 0;
    while j < m
        invariant
            j <= m,
            m == responses.len(),
            n == registry@.len(),
            hosts == registry@,
            answers == response_views(responses@),
            answered.len() == n,
            device_views(devices@) == responder_devices(hosts, answers.take(j as int)),
            forall|x: int|
                0 <= x < n ==> (#[trigger] answered[x]) == seen(hosts, answers.take(j as int), x),
        decreases m - j,
    {
        let ghost done = answers.take(j as int);
        let ghost next = answers.take(j + 1);
        let ghost listed = device_views(devices@);
        let ghost marks = answered@;
        proof {
            assert(next.drop_last() == done);
            assert(next.last() == responses[j as int]@);
            assert(forall|x: int| 0 <= x < j ==> next[x] == done[x]);
        }
        let response = &responses[j];
        let mut matched: Option<usize> = None;
        if response.responded {
            matched = match_of(registry, response);
            match matched {
                Some(x) => {
                    answered.set(x, true);
                    let host = registry.get(x).unwrap();
                    devices.push(
                        DiscoveredDevice {
                            hostname: Some(host.hostname.clone()),
                            ip_address: response.ip_address,
                            management_status: ManagementStatus::Managed,
                            reachability: Reachability::Online,
                            rtt_ms: Some(response.rtt_ms),
                            confirmed: false,
                        },
                    );
                },
                None => {
                    devices.push(
                        DiscoveredDevice {
                            hostname: match &response.resolved_name {
                                Some(name) => Some(name.clone()),
                                None => None,
                            },
                            ip_address: response.ip_address,
                            management_status: ManagementStatus::Unmanaged,
                            reachability: Reachability::Online,
                            rtt_ms: Some(response.rtt_ms),
                            confirmed: false,
                        },
                    );
                },
            }
            assert(device_views(devices@) =~= listed.push(classify(hosts, next.last())));
        } else {
            assert(device_views(devices@) =~= listed);
        }
        proof {
            assert forall|x: int| 0 <= x < n implies (#[trigger] answered[x]) == seen(
                hosts,
                next,
                x,
            ) by {
                let hit = response.responded && matched == Some(x as usize);
                assert(answered[x] == (marks[x] || hit));
                if seen(hosts, done, x) {
                    let w = choose|w: int|
                        0 <= w < done.len() && (#[trigger] done[w]).responded && match_index(
                            hosts,
                            done[w],
                        ) == Some(x);
                    assert(next[w].responded && match_index(hosts, next[w]) == Some(x));
                }
                if hit {
                    assert(next[j as int].responded && match_index(hosts, next[j as int]) == Some(
                        x,
                    ));
                }
                if seen(hosts, next, x) {
                    let w = choose|w: int|
                        0 <= w < next.len() && (#[trigger] next[w]).responded && match_index(
                            hosts,
                            next[w],
                        ) == Some(x);
                    if w < j {
                        assert(done[w].responded && match_index(hosts, done[w]) == Some(x));
                    }
                }
            }
        }
        j += 1;
    }
    assert(answers.take(m as int) == answers);
    let ghost responders = device_views(devices@);
    let mut k: usize = 0;
    while k < n
        invariant
            k <= n,
            n == registry@.len(),
            hosts == registry@,
            answered.len() == n,
            forall|x: int| 0 <= x < n ==> (#[trigger] answered[x]) == seen(hosts, answers, x),
            device_views(devices@) == responders + absent_devices(hosts, answers, k as int),
        decreases n - k,
    {
        let ghost listed = device_views(devices@);
        if !answered[k] {
            let host = registry.get(k).unwrap();
            devices.push(
                DiscoveredDevice {
                    hostname: Some(host.hostname.clone()),
                    ip_address: host.ip_address,
                    management_status: ManagementStatus::Managed,
                    reachability: Reachability::Unknown,
                    rtt_ms: None,
                    confirmed: false,
                },
            );
            assert(device_views(devices@) =~= listed.push(absent_device(hosts[k as int])));
        } else {
            assert(device_views(devices@) =~= listed);
        }
        assert(device_views(devices@) =~= responders + absent_devices(hosts, answers, k + 1));
        k += 1;
    }
    Ok(ScanReport { devices, failed_segments: failed })
}

/// In the listing of a scan a device is managed exactly when it bears the
/// name of a registered host; a device that is not managed has answered.
pub proof fn lemma_managed_iff_registered(
    hosts: Seq<HostView>,
    responses: Seq<ResponseView>,
    d: int,
)
    requires
        0 <= d < scan_devices(hosts, responses).len(),
    ensures
        ({
            let device = scan_devices(hosts, responses)[d];
            &&& device.management_status == ManagementStatus::Managed <==> (
            device.hostname matches Some(name) && has_name(hosts, name))
            &&& device.management_status == ManagementStatus::Unmanaged ==> device.reachability
                == Reachability::Online
        }),
{
    let answered = responder_devices(hosts, responses);
    if d < answered.len() {
        lemma_responder_devices(hosts, responses, d);
    } else {
        lemma_absent_devices(hosts, responses, hosts.len() as int, d - answered.len());
    }
}

/// Every device that answered is listed as `classify` shows it.
proof fn lemma_responder_devices(hosts: Seq<HostView>, responses: Seq<ResponseView>, d: int)
    requires
        0 <= d < responder_devices(hosts, responses).len(),
    ensures
        exists|j: int|
            0 <= j < responses.len() && (#[trigger] responses[j]).responded && responder_devices(
                hosts,
                responses,
            )[d] == classify(hosts, responses[j]),
        ({
            let device = responder_devices(hosts, responses)[d];
            &&& device.management_status == ManagementStatus::Managed <==> (
            device.hostname matches Some(name) && has_name(hosts, name))
            &&& device.reachability == Reachability::Online
        }),
    decreases responses.len(),
{
    let before = responder_devices(hosts, responses.drop_last());
    if d < before.len() {
        lemma_responder_devices(hosts, responses.drop_last(), d);
        let j = choose|j: int|
            0 <= j < responses.drop_last().len() && (#[trigger] responses.drop_last()[j]).responded
                && before[d] == classify(hosts, responses.drop_last()[j]);
        assert(responses[j].responded && responder_devices(hosts, responses)[d] == classify(
            hosts,
            responses[j],
        ));
    } else {
        let j = responses.len() - 1;
        let response = responses[j];
        assert(response.responded);
        match index_at(hosts, response.ip_address) {
            Some(i) => {
                assert(is_first_at(hosts, response.ip_address, i));
                assert(hosts[i].hostname == hosts[i].hostname);
            },
            None => {},
        }
    }
}

/// Every registered host that did not answer is listed under its name.
proof fn lemma_absent_devices(
    hosts: Seq<HostView>,
    responses: Seq<ResponseView>,
    upto: int,
    d: int,
)
    requires
        0 <= upto <= hosts.len(),
        0 <= d < absent_devices(hosts, responses, upto).len(),
    ensures
        exists|k: int|
            0 <= k < upto && absent_devices(hosts, responses, upto)[d] == absent_device(
                #[trigger] hosts[k],
            ),
    decreases upto,
{
    let before = absent_devices(hosts, responses, upto - 1);
    if d < before.len() {
        lemma_absent_devices(hosts, responses, upto - 1, d);
        let k = choose|k: int|
            0 <= k < upto - 1 && before[d] == absent_device(#[trigger] hosts[k]);
        assert(absent_devices(hosts, responses, upto)[d] == absent_device(hosts[k]));
    } else {
        assert(absent_devices(hosts, responses, upto)[d] == absent_device(hosts[upto - 1]));
    }
}

/// How the probing of one unit ended.
#[derive(Debug)]
pub enum SegmentOutcome {
    /// The unit could be reached; these are the answers of its addresses.
    Reached(Vec<ProbeResponse>),
    /// The unit could not be reached at all.
    Unreachable(ProbeError),
}

impl SegmentOutcome {
    /// The error of an unreachable unit.
    pub open spec fn error(&self) -> Option<ProbeError> {
        match self {
            SegmentOutcome::Reached(_) => None,
            SegmentOutcome::Unreachable(error) => Some(*error),
        }
    }

    /// The answers of a reached unit.
    pub open spec fn responses(&self) -> Seq<ResponseView> {
        match self {
            SegmentOutcome::Reached(responses) => response_views(responses@),
            SegmentOutcome::Unreachable(_) => Seq::empty(),
        }
    }
}

/// The mathematical value of a [`ScanSession`].
pub struct ScanView {
    pub range: RangeView,
    /// How many addresses a unit holds.
    pub unit: nat,
    /// How many units may be in flight at once.
    pub ceiling: nat,
    /// How many units have been handed out; they are handed out in order,
    /// from unit zero on.
    pub handed_out: nat,
    /// The units in flight, in the order in which they were handed out.
    pub flying: Seq<u128>,
    /// How the units that ended did end, in the order in which they ended.
    pub statuses: Seq<SegmentStatus>,
    /// The answers of the reached units, in the order in which the units
    /// ended.
    pub responses: Seq<ResponseView>,
}

impl ScanView {
    /// How many units the range has.
    pub open spec fn total(self) -> nat {
        self.range.last_unit(self.unit) + 1
    }

    /// The invariant of a scan: no more units are in flight than the
    /// ceiling allows, and every unit that was handed out is either in
    /// flight or has ended, never both and never twice.
    pub open spec fn wf(self) -> bool {
        &&& self.range.wf()
        &&& self.unit >= 1
        &&& self.ceiling >= 1
        &&& self.handed_out <= self.total()
        &&& self.flying.len() <= self.ceiling
        &&& self.flying.len() + self.statuses.len() == self.handed_out
        &&& forall|i: int| 0 <= i < self.flying.len() ==> (#[trigger] self.flying[i]) < self.handed_out
        &&& forall|i: int, k: int|
            0 <= i < k < self.flying.len() ==> (#[trigger] self.flying[i]) != (
            #[trigger] self.flying[k])
        &&& forall|j: int|
            0 <= j < self.statuses.len() ==> (#[trigger] self.statuses[j]).index < self.handed_out
        &&& forall|j: int, k: int|
            0 <= j < k < self.statuses.len() ==> (#[trigger] self.statuses[j]).index != (
            #[trigger] self.statuses[k]).index
        &&& forall|i: int, j: int|
            0 <= i < self.flying.len() && 0 <= j < self.statuses.len() ==> (
            #[trigger] self.flying[i]) != (#[trigger] self.statuses[j]).index
    }

    /// Every unit has been handed out and has ended.
    pub open spec fn done(self) -> bool {
        self.handed_out == self.total() && self.flying.len() == 0
    }

    /// The scan as it starts: nothing handed out, nothing recorded.
    pub open spec fn initial(range: RangeView, unit: nat, ceiling: nat) -> ScanView {
        ScanView {
            range,
            unit,
            ceiling,
            handed_out: 0,
            flying: Seq::empty(),
            statuses: Seq::empty(),
            responses: Seq::empty(),
        }
    }

    /// Whether a unit can be handed out now.
    pub open spec fn can_probe(self) -> bool {
        self.handed_out < self.total() && self.flying.len() < self.ceiling
    }

    /// The scan after the next unit has been handed out.
    pub open spec fn probing(self) -> ScanView {
        ScanView {
            handed_out: self.handed_out + 1,
            flying: self.flying.push(self.handed_out as u128),
            ..self
        }
    }

    /// The scan after the unit `unit`, which was in flight, has ended with
    /// the given error, if any, and the given answers.
    pub open spec fn completed(
        self,
        unit: u128,
        error: Option<ProbeError>,
        responses: Seq<ResponseView>,
    ) -> ScanView {
        ScanView {
            flying: self.flying.remove(self.flying.index_of(unit)),
            statuses: self.statuses.push(SegmentStatus { index: unit, error }),
            responses: self.responses + responses,
            ..self
        }
    }
}

/// Handing out a unit keeps the invariant of a scan.
pub proof fn lemma_probing_wf(scan: ScanView)
    requires
        scan.wf(),
        scan.can_probe(),
    ensures
        scan.probing().wf(),
{
    let next = scan.probing();
    assert forall|i: int, k: int| 0 <= i < k < next.flying.len() implies (
    #[trigger] next.flying[i]) != (#[trigger] next.flying[k]) by {
        if k == scan.flying.len() {
            assert(scan.flying[i] < scan.handed_out);
        } else {
            assert(scan.flying[i] != scan.flying[k]);
        }
    }
    assert forall|i: int, j: int|
        0 <= i < next.flying.len() && 0 <= j < next.statuses.len() implies (
    #[trigger] next.flying[i]) != (#[trigger] next.statuses[j]).index by {
        if i == scan.flying.len() {
            assert(scan.statuses[j].index < scan.handed_out);
        } else {
            assert(scan.flying[i] != scan.statuses[j].index);
        }
    }
    assert forall|i: int| 0 <= i < next.flying.len() implies (#[trigger] next.flying[i])
        < next.handed_out by {
        if i < scan.flying.len() {
            assert(scan.flying[i] < scan.handed_out);
        }
    }
    assert forall|j: int| 0 <= j < next.statuses.len() implies (
    #[trigger] next.statuses[j]).index < next.handed_out by {
        assert(scan.statuses[j].index < scan.handed_out);
    }
}

/// The end of a unit in flight keeps the invariant of a scan.
pub proof fn lemma_completed_wf(
    scan: ScanView,
    at: int,
    error: Option<ProbeError>,
    responses: Seq<ResponseView>,
)
    requires
        scan.wf(),
        0 <= at < scan.flying.len(),
    ensures
        scan.flying.index_of(scan.flying[at]) == at,
        scan.completed(scan.flying[at], error, responses).wf(),
{
    let unit = scan.flying[at];
    let found = scan.flying.index_of(unit);
    assert(scan.flying.contains(unit));
    assert(0 <= found < scan.flying.len() && scan.flying[found] == unit);
    if found < at {
        assert(scan.flying[found] != scan.flying[at]);
    } else if at < found {
        assert(scan.flying[at] != scan.flying[found]);
    }
    let next = scan.completed(unit, error, responses);
    assert forall|i: int| 0 <= i < next.flying.len() implies (#[trigger] next.flying[i])
        < next.handed_out && next.flying[i] != unit by {
        if i < at {
            assert(next.flying[i] == scan.flying[i]);
            assert(scan.flying[i] != scan.flying[at]);
        } else {
            assert(next.flying[i] == scan.flying[i + 1]);
            assert(scan.flying[at] != scan.flying[i + 1]);
        }
    }
    assert forall|i: int, k: int| 0 <= i < k < next.flying.len() implies (
    #[trigger] next.flying[i]) != (#[trigger] next.flying[k]) by {
        let i0 = if i < at {
            i
        } else {
            i + 1
        };
        let k0 = if k < at {
            k
        } else {
            k + 1
        };
        assert(next.flying[i] == scan.flying[i0]);
        assert(next.flying[k] == scan.flying[k0]);
        assert(scan.flying[i0] != scan.flying[k0]);
    }
    assert forall|j: int| 0 <= j < next.statuses.len() implies (
    #[trigger] next.statuses[j]).index < next.handed_out by {
        if j < scan.statuses.len() {
            assert(scan.statuses[j].index < scan.handed_out);
        } else {
            assert(scan.flying[at] < scan.handed_out);
        }
    }
    assert forall|j: int, k: int| 0 <= j < k < next.statuses.len() implies (
    #[trigger] next.statuses[j]).index != (#[trigger] next.statuses[k]).index by {
        if k == scan.statuses.len() {
            assert(scan.flying[at] != scan.statuses[j].index);
        } else {
            assert(scan.statuses[j].index != scan.statuses[k].index);
        }
    }
    assert forall|i: int, j: int|
        0 <= i < next.flying.len() && 0 <= j < next.statuses.len() implies (
    #[trigger] next.flying[i]) != (#[trigger] next.statuses[j]).index by {
        let i0 = if i < at {
            i
        } else {
            i + 1
        };
        assert(next.flying[i] == scan.flying[i0]);
        if j < scan.statuses.len() {
            assert(scan.flying[i0] != scan.statuses[j].index);
        }
    }
}

/// A scan that is done has covered its range: every unit of the range has
/// ended, and none has ended twice.
pub proof fn lemma_done_scan_covers_range(scan: ScanView, unit: nat)
    requires
        scan.wf(),
        scan.done(),
        unit < scan.total(),
    ensures
        scan.statuses.len() == scan.total(),
        exists|j: int|
            0 <= j < scan.statuses.len() && (#[trigger] scan.statuses[j]).index == unit,
{
    let indices = Seq::new(scan.statuses.len(), |j: int| scan.statuses[j].index as int);
    let all = set_int_range(0, scan.total() as int);
    assert(indices.no_duplicates()) by {
        assert forall|i: int, j: int|
            0 <= i < indices.len() && 0 <= j < indices.len() && i != j implies indices[i]
            != indices[j] by {
            if i < j {
                assert(scan.statuses[i].index != scan.statuses[j].index);
            } else {
                assert(scan.statuses[j].index != scan.statuses[i].index);
            }
        }
    }
    indices.unique_seq_to_set();
    seq_to_set_is_finite(indices);
    lemma_int_range(0, scan.total() as int);
    assert(indices.to_set().subset_of(all)) by {
        assert forall|v: int| indices.to_set().contains(v) implies all.contains(v) by {
            let j = choose|j: int| 0 <= j < indices.len() && indices[j] == v;
            assert(scan.statuses[j].index < scan.handed_out);
        }
    }
    lemma_subset_equality(indices.to_set(), all);
    assert(all.contains(unit as int));
    assert(indices.to_set().contains(unit as int));
    let j = choose|j: int| 0 <= j < indices.len() && indices[j] == unit as int;
    assert(scan.statuses[j].index == unit);
}

/// What the caller of a scan is to do next.
#[derive(Clone, Copy, Debug, PartialEq, Eq, Structural)]
pub enum ScanAction {
    /// Probe the addresses of this unit.
    Probe { segment: Segment },
    /// Wait for a unit in flight to end.
    Wait,
    /// Every unit has been probed.
    Done,
}

/// One scan of a range: it hands out the units of the range, never more
/// at once than the ceiling allows, and collects how they ended.
#[derive(Debug)]
pub struct ScanSession {
    range: AddressRange,
    unit: u128,
    ceiling: usize,
    last_unit: u128,
    next_unit: u128,
    exhausted: bool,
    flying: Vec<u128>,
    statuses: Vec<SegmentStatus>,
    responses: Vec<ProbeResponse>,
}

impl View for ScanSession {
    type V = ScanView;

    closed spec fn view(&self) -> ScanView {
        ScanView {
            range: self.range@,
            unit: self.unit as nat,
            ceiling: self.ceiling as nat,
            handed_out: if self.exhausted {
                (self.last_unit + 1) as nat
            } else {
                self.next_unit as nat
            },
            flying: self.flying@,
            statuses: self.statuses@,
            responses: response_views(self.responses@),
        }
    }
}

impl ScanSession {
    /// The invariant of a scan: see [`ScanView::wf`].
    #[verifier::type_invariant]
    pub closed spec fn wf(&self) -> bool {
        &&& self@.wf()
        &&& self.unit >= 1
        &&& self.last_unit == self.range@.last_unit(self.unit as nat)
        &&& !self.exhausted ==> self.next_unit <= self.last_unit
    }

    /// A scan of `range` in units of `unit` addresses with at most `ceiling`
    /// units in flight, or `None` where `unit` or `ceiling` is zero.
    pub fn new(range: AddressRange, unit: u128, ceiling: usize) -> (r: Option<ScanSession>)
        ensures
            match r {
                Some(scan) => scan@ == ScanView::initial(range@, unit as nat, ceiling as nat)
                    && scan@.wf(),
                None => unit == 0 || ceiling == 0,
            },
            unit > 0 && ceiling > 0 ==> r is Some,
    {
        if ceiling == 0 {
            return None;
        }
        match range.last_unit(unit) {
            None => None,
            Some(last_unit) => {
                proof {
                    use_type_invariant(&range);
                }
                let responses: Vec<ProbeResponse> = Vec::new();
                assert(response_views(responses@) =~= Seq::<ResponseView>::empty());
                Some(
                    ScanSession {
                        range,
                        unit,
                        ceiling,
                        last_unit,
                        next_unit: 0,
                        exhausted: false,
                        flying: Vec::new(),
                        statuses: Vec::new(),
                        responses,
                    },
                )
            },
        }
    }

    /// Takes what the scan has collected out of it, leaving a scan of the
    /// same range that has not begun.
    fn take_collected(&mut self) -> (parts: (Vec<u128>, Vec<SegmentStatus>, Vec<ProbeResponse>))
        ensures
            parts.0@ == old(self)@.flying,
            parts.1@ == old(self)@.statuses,
            response_views(parts.2@) == old(self)@.responses,
            old(self).wf(),
            final(self).range == old(self).range,
            final(self).unit == old(self).unit,
            final(self).ceiling == old(self).ceiling,
            final(self).last_unit == old(self).last_unit,
    {
        proof {
            use_type_invariant(&*self);
        }
        let responses: Vec<ProbeResponse> = Vec::new();
        assert(response_views(responses@) =~= Seq::<ResponseView>::empty());
        let mut taken = ScanSession {
            range: self.range,
            unit: self.unit,
            ceiling: self.ceiling,
            last_unit: self.last_unit,
            next_unit: 0,
            exhausted: false,
            flying: Vec::new(),
            statuses: Vec::new(),
            responses,
        };
        std::mem::swap(self, &mut taken);
        (taken.flying, taken.statuses, taken.responses)
    }

    /// Decides what the caller is to do next: probe the next unit while
    /// units are left and fewer are in flight than the ceiling allows; wait
    /// while units are in flight; be done otherwise.
    pub fn next_step(&mut self) -> (action: ScanAction)
        ensures
            old(self)@.wf(),
            final(self)@.wf(),
            if old(self)@.can_probe() {
                &&& action == (ScanAction::Probe {
                    segment: segment_of(
                        old(self)@.range,
                        old(self)@.unit,
                        old(self)@.handed_out,
                    ),
                })
                &&& final(self)@ == old(self)@.probing()
            } else {
                &&& action == if old(self)@.flying.len() > 0 {
                    ScanAction::Wait
                } else {
                    ScanAction::Done
                }
                &&& final(self)@ == old(self)@
            },
    {
        proof {
            use_type_invariant(&*self);
        }
        let ghost before = self@;
        if !self.exhausted && self.flying.len() < self.ceiling {
            let index = self.next_unit;
            let segment = self.range.segment(self.unit, index).unwrap();
            let exhausted = index == self.last_unit;
            let next_unit = if exhausted {
                index
            } else {
                index + 1
            };
            let range = self.range;
            let unit = self.unit;
            let ceiling = self.ceiling;
            let last_unit = self.last_unit;
            let (mut flying, statuses, responses) = self.take_collected();
            flying.push(index);
            proof {
                lemma_probing_wf(before);
            }
            *self = ScanSession {
                range,
                unit,
                ceiling,
                last_unit,
                next_unit,
                exhausted,
                flying,
                statuses,
                responses,
            };
            ScanAction::Probe { segment }
        } else if self.flying.len() > 0 {
            ScanAction::Wait
        } else {
            ScanAction::Done
        }
    }

    /// Records how the unit `unit` ended, and says whether that unit was in
    /// flight. A report for a unit that is not in flight changes nothing.
    pub fn complete(&mut self, unit: u128, outcome: SegmentOutcome) -> (accepted: bool)
        ensures
            old(self)@.wf(),
            final(self)@.wf(),
            accepted == old(self)@.flying.contains(unit),
            final(self)@ == if accepted {
                old(self)@.completed(unit, outcome.error(), outcome.responses())
            } else {
                old(self)@
            },
    {
        proof {
            use_type_invariant(&*self);
        }
        let ghost before = self@;
        let n = self.flying.len();
        let mut at: usize = 0;
        while at < n && self.flying[at] != unit
            invariant
                at <= n,
                n == self.flying.len(),
                self@ == before,
                forall|k: int| 0 <= k < at ==> (#[trigger] self.flying[k]) != unit,
            decreases n - at,
        {
            at += 1;
        }
        if at == n {
            return false;
        }
        let range = self.range;
        let unit_size = self.unit;
        let ceiling = self.ceiling;
        let last_unit = self.last_unit;
        let next_unit = self.next_unit;
        let exhausted = self.exhausted;
        let (mut flying, mut statuses, mut responses) = self.take_collected();
        proof {
            lemma_completed_wf(before, at as int, outcome.error(), outcome.responses());
        }
        flying.remove(at);
        let ghost collected = response_views(responses@);
        match outcome {
            SegmentOutcome::Reached(mut found) => {
                let ghost answers = response_views(found@);
                responses.append(&mut found);
                assert(response_views(responses@) =~= collected + answers);
                statuses.push(SegmentStatus { index: unit, error: None });
            },
            SegmentOutcome::Unreachable(error) => {
                assert(response_views(responses@) =~= collected + Seq::<ResponseView>::empty());
                statuses.push(SegmentStatus { index: unit, error: Some(error) });
            },
        }
        *self = ScanSession {
            range,
            unit: unit_size,
            ceiling,
            last_unit,
            next_unit,
            exhausted,
            flying,
            statuses,
            responses,
        };
        true
    }

    /// Whether every unit has been handed out and has ended.
    pub fn is_done(&self) -> (done: bool)
        ensures
            done == self@.done(),
    {
        proof {
            use_type_invariant(self);
        }
        self.exhausted && self.flying.len() == 0
    }

    /// How the units that ended did end, in the order in which they ended.
    pub fn statuses(&self) -> (statuses: &Vec<SegmentStatus>)
        ensures
            statuses@ == self@.statuses,
            self@.wf(),
    {
        proof {
            use_type_invariant(self);
        }
        &self.statuses
    }

    /// The answers collected so far.
    pub fn responses(&self) -> (responses: &Vec<ProbeResponse>)
        ensures
            response_views(responses@) == self@.responses,
    {
        &self.responses
    }

    /// Draws up the result of the scan from what has been collected: see
    /// [`conclude_scan`].
    pub fn conclude(&self, registry: &HostRegistry) -> (r: Result<
        ScanReport,
        DiscoveryNetworkError,
    >)
        ensures
            match r {
                Ok(report) => {
                    &&& any_reached(self@.statuses)
                    &&& device_views(report.devices@) == scan_devices(registry@, self@.responses)
                    &&& report.failed_segments@ == failed_segments(self@.statuses)
                },
                Err(e) => !any_reached(self@.statuses) && e.segments_tried
                    == self@.statuses.len(),
            },
    {
        conclude_scan(registry, &self.statuses, &self.responses)
    }
}

} // verus!
