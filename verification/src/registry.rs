//! The registry of managed hosts: the source of truth for whether a host is
//! ours.

use vstd::prelude::*;
use crate::address::ip_value;
use crate::discovery::{device_views, DeviceView, DiscoveredDevice};
use crate::host::{check_hostname, is_hostname, Host, HostView, IpAddress, ManagementStatus};

verus! {

/// One entry of a registry as it is stored: a name and an address, both as
/// text.
#[derive(Debug)]
pub struct HostRecord {
    pub hostname: String,
    pub ip_address: String,
}

/// Why a registry could not be loaded. `index` is the place of the first
/// record at fault.
#[derive(Clone, Copy, Debug, PartialEq, Eq, Structural)]
pub enum RegistryError {
    /// The record's name is no host name, or its address no IP address.
    InvalidHostSpec { index: usize },
    /// The record's name stands in an earlier record too.
    DuplicateHostname { index: usize },
}

impl RegistryError {
    /// The place of the record at fault.
    pub open spec fn index(self) -> usize {
        match self {
            RegistryError::InvalidHostSpec { index } => index,
            RegistryError::DuplicateHostname { index } => index,
        }
    }
}

/// The values of a sequence of hosts.
pub open spec fn host_views(hosts: Seq<Host>) -> Seq<HostView> {
    Seq::new(hosts.len(), |i: int| hosts[i]@)
}

/// No two of `hosts` have the same name.
pub open spec fn names_distinct(hosts: Seq<HostView>) -> bool {
    forall|i: int, j: int|
        0 <= i < j < hosts.len() ==> (#[trigger] hosts[i]).hostname != (#[trigger] hosts[j]).hostname
}

/// What holds of the hosts of every registry: their names are well formed
/// and distinct, and each of them is managed.
pub open spec fn registry_wf(hosts: Seq<HostView>) -> bool {
    &&& names_distinct(hosts)
    &&& forall|i: int|
        0 <= i < hosts.len() ==> is_hostname((#[trigger] hosts[i]).hostname)
            && hosts[i].management_status == ManagementStatus::Managed
}

/// Some host of `hosts` is named `name`.
pub open spec fn has_name(hosts: Seq<HostView>, name: Seq<char>) -> bool {
    exists|i: int| 0 <= i < hosts.len() && (#[trigger] hosts[i]).hostname == name
}

/// `i` is the place of the first of `hosts` at the address `address`.
pub open spec fn is_first_at(hosts: Seq<HostView>, address: IpAddress, i: int) -> bool {
    &&& 0 <= i < hosts.len()
    &&& hosts[i].ip_address == address
    &&& forall|k: int| 0 <= k < i ==> (#[trigger] hosts[k]).ip_address != address
}

/// No host of `hosts` is at the address `address`.
pub open spec fn none_at(hosts: Seq<HostView>, address: IpAddress) -> bool {
    forall|k: int| 0 <= k < hosts.len() ==> (#[trigger] hosts[k]).ip_address != address
}

/// The place of the first of `hosts` at `address`.
pub open spec fn index_at(hosts: Seq<HostView>, address: IpAddress) -> Option<int> {
    if exists|i: int| is_first_at(hosts, address, i) {
        Some(choose|i: int| is_first_at(hosts, address, i))
    } else {
        None
    }
}

/// The place of the one of `hosts` that is named `name`.
pub open spec fn index_named(hosts: Seq<HostView>, name: Seq<char>) -> Option<int> {
    if has_name(hosts, name) {
        Some(choose|i: int| 0 <= i < hosts.len() && (#[trigger] hosts[i]).hostname == name)
    } else {
        None
    }
}

/// There is only one first host at an address.
pub proof fn lemma_index_at(hosts: Seq<HostView>, address: IpAddress, i: int)
    requires
        is_first_at(hosts, address, i),
    ensures
        index_at(hosts, address) == Some(i),
{
    let c = choose|c: int| is_first_at(hosts, address, c);
    if c < i {
        assert(hosts[c].ip_address != address);
    } else if i < c {
        assert(hosts[i].ip_address != address);
    }
}

/// Where names are distinct there is only one host of a name.
pub proof fn lemma_index_named(hosts: Seq<HostView>, name: Seq<char>, i: int)
    requires
        names_distinct(hosts),
        0 <= i < hosts.len(),
        hosts[i].hostname == name,
    ensures
        index_named(hosts, name) == Some(i),
{
    let c = choose|c: int| 0 <= c < hosts.len() && (#[trigger] hosts[c]).hostname == name;
    if c < i {
        assert(hosts[c].hostname != hosts[i].hostname);
    } else if i < c {
        assert(hosts[i].hostname != hosts[c].hostname);
    }
}

/// The hosts after the host named `name`, if there is one, has been moved
/// to `address`.
pub open spec fn with_address(
    hosts: Seq<HostView>,
    name: Seq<char>,
    address: IpAddress,
) -> Seq<HostView> {
    match index_named(hosts, name) {
        Some(i) => hosts.update(i, HostView { ip_address: address, ..hosts[i] }),
        None => hosts,
    }
}

/// What became of one device handed to a merge.
#[derive(Clone, Copy, Debug, PartialEq, Eq, Structural)]
pub enum MergeOutcome {
    /// The device was confirmed and its name was free: it is registered now.
    Added,
    /// A host of that name is registered at that address.
    AlreadyRegistered,
    /// A host of that name is registered at the address `registered`, and
    /// the device was seen at another. The registry keeps what it had.
    Conflict { registered: IpAddress },
    /// The name is free, but the device was not confirmed.
    Unconfirmed,
    /// The device has no name, or one that is no host name.
    Unnamed,
}

/// What becomes of `device` when it is merged into `hosts`.
pub open spec fn merge_outcome(hosts: Seq<HostView>, device: DeviceView) -> MergeOutcome {
    match device.hostname {
        Some(name) => if !is_hostname(name) {
            MergeOutcome::Unnamed
        } else {
            match index_named(hosts, name) {
                Some(i) => if hosts[i].ip_address == device.ip_address {
                    MergeOutcome::AlreadyRegistered
                } else {
                    MergeOutcome::Conflict { registered: hosts[i].ip_address }
                },
                None => if device.confirmed {
                    MergeOutcome::Added
                } else {
                    MergeOutcome::Unconfirmed
                },
            }
        },
        None => MergeOutcome::Unnamed,
    }
}

/// The hosts after `device` has been merged into `hosts`: a device that is
/// added comes last, and nothing else changes.
pub open spec fn merged_one(hosts: Seq<HostView>, device: DeviceView) -> Seq<HostView> {
    if merge_outcome(hosts, device) == MergeOutcome::Added {
        hosts.push(
            HostView {
                hostname: device.hostname->0,
                ip_address: device.ip_address,
                management_status: ManagementStatus::Managed,
            },
        )
    } else {
        hosts
    }
}

/// The hosts after `devices` have been merged into `hosts` one by one.
pub open spec fn merged(hosts: Seq<HostView>, devices: Seq<DeviceView>) -> Seq<HostView>
    decreases devices.len(),
{
    if devices.len() == 0 {
        hosts
    } else {
        merged_one(merged(hosts, devices.drop_last()), devices.last())
    }
}

/// What became of each of `devices`, in their order.
pub open spec fn merge_outcomes(hosts: Seq<HostView>, devices: Seq<DeviceView>) -> Seq<
    MergeOutcome,
> {
    Seq::new(devices.len(), |i: int| merge_outcome(merged(hosts, devices.take(i)), devices[i]))
}

/// Merging one device keeps the registry's invariant and every host it
/// had, at its place and with its address.
pub proof fn lemma_merged_one(hosts: Seq<HostView>, device: DeviceView)
    requires
        registry_wf(hosts),
    ensures
        registry_wf(merged_one(hosts, device)),
        hosts.len() <= merged_one(hosts, device).len() <= hosts.len() + 1,
        merged_one(hosts, device).take(hosts.len() as int) == hosts,
{
    let after = merged_one(hosts, device);
    assert(after.take(hosts.len() as int) =~= hosts);
    if merge_outcome(hosts, device) == MergeOutcome::Added {
        let name = device.hostname->0;
        assert(!has_name(hosts, name));
        assert forall|i: int, j: int| 0 <= i < j < after.len() implies (
        #[trigger] after[i]).hostname != (#[trigger] after[j]).hostname by {
            if j == hosts.len() {
                assert(hosts[i].hostname != name);
            } else {
                assert(hosts[i].hostname != hosts[j].hostname);
            }
        }
        assert forall|i: int| 0 <= i < after.len() implies is_hostname(
            (#[trigger] after[i]).hostname,
        ) && after[i].management_status == ManagementStatus::Managed by {
            if i < hosts.len() {
                assert(is_hostname(hosts[i].hostname));
            }
        }
    }
}

/// A merge never overwrites: it keeps the registry's invariant and every
/// host the registry had, at its place and with its address.
pub proof fn lemma_merge_keeps_hosts(hosts: Seq<HostView>, devices: Seq<DeviceView>)
    requires
        registry_wf(hosts),
    ensures
        registry_wf(merged(hosts, devices)),
        hosts.len() <= merged(hosts, devices).len() <= hosts.len() + devices.len(),
        merged(hosts, devices).take(hosts.len() as int) == hosts,
    decreases devices.len(),
{
    if devices.len() == 0 {
        assert(hosts.take(hosts.len() as int) =~= hosts);
    } else {
        let before = merged(hosts, devices.drop_last());
        lemma_merge_keeps_hosts(hosts, devices.drop_last());
        lemma_merged_one(before, devices.last());
        let after = merged(hosts, devices);
        assert(after.take(hosts.len() as int) =~= after.take(before.len() as int).take(
            hosts.len() as int,
        ));
    }
}

/// The fault, if any, of the record at `index`, given the hosts that the
/// records before it gave: a malformed name or address first, then a name
/// that is already taken.
pub open spec fn record_defect(
    earlier: Seq<HostView>,
    hostname: Seq<char>,
    ip_address: Seq<char>,
    index: usize,
) -> Option<RegistryError> {
    if !is_hostname(hostname) || ip_value(ip_address) is None {
        Some(RegistryError::InvalidHostSpec { index })
    } else if has_name(earlier, hostname) {
        Some(RegistryError::DuplicateHostname { index })
    } else {
        None
    }
}

/// The host that a record without fault stands for.
pub open spec fn record_host(hostname: Seq<char>, ip_address: Seq<char>) -> HostView {
    HostView {
        hostname,
        ip_address: ip_value(ip_address)->0,
        management_status: ManagementStatus::Managed,
    }
}

/// The hosts that `records` stand for, in order.
pub open spec fn record_hosts(records: Seq<HostRecord>) -> Seq<HostView> {
    Seq::new(records.len(), |i: int| record_host(records[i].hostname@, records[i].ip_address@))
}

/// The place of the one of `hosts` that is named `name`.
fn find_name(hosts: &Vec<Host>, name: &String) -> (r: Option<usize>)
    ensures
        match r {
            Some(i) => i < hosts.len() && hosts[i as int]@.hostname == name@,
            None => !has_name(host_views(hosts@), name@),
        },
{
    let n = hosts.len();
    let mut i: usize = 0;
    while i < n
        invariant
            i <= n,
            n == hosts.len(),
            forall|k: int| 0 <= k < i ==> (#[trigger] host_views(hosts@)[k]).hostname != name@,
        decreases n - i,
    {
        assert(host_views(hosts@)[i as int] == hosts[i as int]@);
        if hosts[i].hostname == *name {
            return Some(i);
        }
        i += 1;
    }
    None
}

/// The registry of managed hosts, in the order in which they were entered.
pub struct HostRegistry {
    hosts: Vec<Host>,
}

impl View for HostRegistry {
    type V = Seq<HostView>;

    closed spec fn view(&self) -> Seq<HostView> {
        host_views(self.hosts@)
    }
}

impl HostRegistry {
    /// The invariant of a registry: the names of its hosts are well formed
    /// and distinct, and each of its hosts is managed.
    #[verifier::type_invariant]
    pub open spec fn wf(&self) -> bool {
        registry_wf(self@)
    }

    /// A registry without hosts.
    pub fn new() -> (registry: HostRegistry)
        ensures
            registry@ == Seq::<HostView>::empty(),
    {
        let hosts: Vec<Host> = Vec::new();
        assert(host_views(hosts@) =~= Seq::<HostView>::empty());
        HostRegistry { hosts }
    }

    /// Builds a registry from stored records, in their order. Every record
    /// must hold a well-formed host name and an IP address, and no name may
    /// stand twice; the first record at fault is named. No records give an
    /// empty registry, which is no error.
    pub fn load(records: &Vec<HostRecord>) -> (r: Result<HostRegistry, RegistryError>)
        ensures
            match r {
                Ok(registry) => {
                    &&& registry@ == record_hosts(records@)
                    &&& registry.wf()
                    &&& forall|i: int|
                        0 <= i < records.len() ==> record_defect(
                            record_hosts(records@).take(i),
                            (#[trigger] records[i]).hostname@,
                            records[i].ip_address@,
                            i as usize,
                        ) is None
                },
                Err(e) => {
                    &&& e.index() < records.len()
                    &&& forall|i: int|
                        0 <= i < e.index() ==> record_defect(
                            record_hosts(records@).take(i),
                            (#[trigger] records[i]).hostname@,
                            records[i].ip_address@,
                            i as usize,
                        ) is None
                    &&& record_defect(
                        record_hosts(records@).take(e.index() as int),
                        records[e.index() as int].hostname@,
                        records[e.index() as int].ip_address@,
                        e.index(),
                    ) == Some(e)
                },
            },
    {
        let ghost all = record_hosts(records@);
        let n = records.len();
        let mut hosts: Vec<Host> = Vec::new();
        let mut i: usize = 0;
        assert(host_views(hosts@) =~= all.take(0));
        while i < n
            invariant
                i <= n,
                n == records.len(),
                all == record_hosts(records@),
                host_views(hosts@) == all.take(i as int),
                registry_wf(host_views(hosts@)),
                forall|k: int|
                    0 <= k < i ==> record_defect(
                        all.take(k),
                        (#[trigger] records[k]).hostname@,
                        records[k].ip_address@,
                        k as usize,
                    ) is None,
            decreases n - i,
        {
            let record = &records[i];
            if !check_hostname(record.hostname.as_str()) {
                return Err(RegistryError::InvalidHostSpec { index: i });
            }
            let ip_address = match IpAddress::parse(record.ip_address.as_str()) {
                Some(a) => a,
                None => {
                    return Err(RegistryError::InvalidHostSpec { index: i });
                },
            };
            match find_name(&hosts, &record.hostname) {
                Some(k) => {
                    assert(host_views(hosts@)[k as int] == hosts[k as int]@);
                    return Err(RegistryError::DuplicateHostname { index: i });
                },
                None => {},
            }
            let ghost before = host_views(hosts@);
            hosts.push(
                Host {
                    hostname: record.hostname.clone(),
                    ip_address,
                    management_status: ManagementStatus::Managed,
                },
            );
            proof {
                let after = host_views(hosts@);
                assert(after =~= before.push(all[i as int]));
                assert(after =~= all.take(i + 1));
                assert forall|a: int, b: int| 0 <= a < b < after.len() implies (
                #[trigger] after[a]).hostname != (#[trigger] after[b]).hostname by {
                    if b == i {
                        assert(before[a].hostname != all[i as int].hostname);
                    } else {
                        assert(before[a].hostname != before[b].hostname);
                    }
                }
                assert forall|k: int| 0 <= k < after.len() implies is_hostname(
                    (#[trigger] after[k]).hostname,
                ) && after[k].management_status == ManagementStatus::Managed by {
                    if k < i {
                        assert(is_hostname(before[k].hostname));
                    }
                }
            }
            i += 1;
        }
        assert(all.take(n as int) == all);
        Ok(HostRegistry { hosts })
    }

    /// The hosts of the registry, in the order in which they were entered.
    pub fn list(&self) -> (hosts: &Vec<Host>)
        ensures
            host_views(hosts@) == self@,
            self.wf(),
    {
        proof {
            use_type_invariant(self);
        }
        &self.hosts
    }

    /// How many hosts the registry holds.
    pub fn len(&self) -> (n: usize)
        ensures
            n == self@.len(),
    {
        self.hosts.len()
    }

    /// Whether the registry holds no host.
    pub fn is_empty(&self) -> (empty: bool)
        ensures
            empty == (self@.len() == 0),
    {
        self.hosts.len() == 0
    }

    /// The place of the host named `hostname`, if the registry holds one.
    pub fn position(&self, hostname: &String) -> (r: Option<usize>)
        ensures
            match r {
                Some(i) => index_named(self@, hostname@) == Some(i as int) && i < self@.len()
                    && self@[i as int].hostname == hostname@,
                None => index_named(self@, hostname@) is None,
            },
    {
        proof {
            use_type_invariant(self);
        }
        match find_name(&self.hosts, hostname) {
            Some(i) => {
                proof {
                    assert(self@[i as int] == self.hosts[i as int]@);
                    lemma_index_named(self@, hostname@, i as int);
                }
                Some(i)
            },
            None => None,
        }
    }

    /// The host named `hostname`, or `None` where the registry holds none.
    pub fn lookup(&self, hostname: &str) -> (r: Option<&Host>)
        ensures
            match r {
                Some(host) => index_named(self@, hostname@) is Some && host@
                    == self@[index_named(self@, hostname@)->0],
                None => !has_name(self@, hostname@),
            },
    {
        let key = String::from_str(hostname);
        match self.position(&key) {
            Some(i) => {
                assert(self@[i as int] == self.hosts[i as int]@);
                Some(&self.hosts[i])
            },
            None => None,
        }
    }

    /// The place of the first host at `address`, if the registry holds one.
    pub fn position_by_address(&self, address: IpAddress) -> (r: Option<usize>)
        ensures
            match r {
                Some(i) => index_at(self@, address) == Some(i as int) && is_first_at(
                    self@,
                    address,
                    i as int,
                ),
                None => index_at(self@, address) is None && none_at(self@, address),
            },
    {
        let n = self.hosts.len();
        let mut i: usize = 0;
        while i < n
            invariant
                i <= n,
                n == self.hosts.len(),
                forall|k: int| 0 <= k < i ==> (#[trigger] self@[k]).ip_address != address,
            decreases n - i,
        {
            assert(self@[i as int] == self.hosts[i as int]@);
            if self.hosts[i].ip_address == address {
                proof {
                    lemma_index_at(self@, address, i as int);
                }
                return Some(i);
            }
            i += 1;
        }
        assert(index_at(self@, address) is None) by {
            if exists|i: int| is_first_at(self@, address, i) {
                let i = choose|i: int| is_first_at(self@, address, i);
                assert(self@[i].ip_address != address);
            }
        }
        None
    }

    /// The host at index `i`, if there is one.
    pub fn get(&self, i: usize) -> (r: Option<&Host>)
        ensures
            match r {
                Some(host) => i < self@.len() && host@ == self@[i as int],
                None => i >= self@.len(),
            },
    {
        if i < self.hosts.len() {
            assert(self@[i as int] == self.hosts[i as int]@);
            Some(&self.hosts[i])
        } else {
            None
        }
    }

    /// Takes the hosts out of the registry, which is left empty until they
    /// are put back.
    fn take_hosts(&mut self) -> (hosts: Vec<Host>)
        ensures
            host_views(hosts@) == old(self)@,
            registry_wf(old(self)@),
    {
        proof {
            use_type_invariant(&*self);
        }
        let mut taken = HostRegistry::new();
        std::mem::swap(self, &mut taken);
        taken.hosts
    }

    /// Moves the host named `hostname` to `address`, and says whether there
    /// is such a host. This is how an operator settles a conflict that a
    /// merge has reported; nothing else changes a registered address.
    pub fn confirm_address(&mut self, hostname: &str, address: IpAddress) -> (found: bool)
        ensures
            found == has_name(old(self)@, hostname@),
            final(self)@ == with_address(old(self)@, hostname@, address),
            final(self).wf(),
    {
        let ghost before = self@;
        let key = String::from_str(hostname);
        let mut hosts = self.take_hosts();
        let found = match find_name(&hosts, &key) {
            Some(i) => {
                assert(before[i as int] == hosts[i as int]@);
                proof {
                    lemma_index_named(before, hostname@, i as int);
                }
                let moved = Host {
                    hostname: hosts[i].hostname.clone(),
                    ip_address: address,
                    management_status: ManagementStatus::Managed,
                };
                hosts.set(i, moved);
                proof {
                    let after = with_address(before, hostname@, address);
                    assert(host_views(hosts@) =~= after);
                    assert forall|a: int, b: int| 0 <= a < b < after.len() implies (
                    #[trigger] after[a]).hostname != (#[trigger] after[b]).hostname by {
                        assert(before[a].hostname != before[b].hostname);
                    }
                    assert forall|k: int| 0 <= k < after.len() implies is_hostname(
                        (#[trigger] after[k]).hostname,
                    ) && after[k].management_status == ManagementStatus::Managed by {
                        assert(is_hostname(before[k].hostname));
                    }
                }
                true
            },
            None => false,
        };
        *self = HostRegistry { hosts };
        found
    }

    /// Merges the devices of a scan into the registry, one by one and in
    /// their order, and says what became of each.
    ///
    /// A device is added where it bears a well-formed name that is not
    /// registered and the operator has confirmed it. A host that is
    /// registered is never changed: where a device bears its name and
    /// another address, the conflict is reported and the registry keeps
    /// what it had.
    pub fn merge_discovered(&mut self, devices: &Vec<DiscoveredDevice>) -> (outcomes: Vec<
        MergeOutcome,
    >)
        ensures
            final(self)@ == merged(old(self)@, device_views(devices@)),
            outcomes@ == merge_outcomes(old(self)@, device_views(devices@)),
            final(self).wf(),
            final(self)@.take(old(self)@.len() as int) == old(self)@,
    {
        let ghost before = self@;
        let ghost all = device_views(devices@);
        let mut hosts = self.take_hosts();
        let n = devices.len();
        let mut outcomes: Vec<MergeOutcome> = Vec::new();
        let mut i: usize = 0;
        while i < n
            invariant
                i <= n,
                n == devices.len(),
                all == device_views(devices@),
                registry_wf(before),
                registry_wf(host_views(hosts@)),
                host_views(hosts@) == merged(before, all.take(i as int)),
                outcomes.len() == i,
                forall|k: int|
                    0 <= k < i ==> #[trigger] outcomes[k] == merge_outcome(
                        merged(before, all.take(k)),
                        all[k],
                    ),
            decreases n - i,
        {
            let ghost current = host_views(hosts@);
            proof {
                assert(all.take(i + 1).drop_last() == all.take(i as int));
                assert(all.take(i + 1).last() == devices[i as int]@);
                lemma_merged_one(current, all[i as int]);
            }
            let device = &devices[i];
            let outcome = match &device.hostname {
                None => MergeOutcome::Unnamed,
                Some(name) => {
                    if !check_hostname(name.as_str()) {
                        MergeOutcome::Unnamed
                    } else {
                        match find_name(&hosts, name) {
                            Some(k) => {
                                assert(current[k as int] == hosts[k as int]@);
                                proof {
                                    lemma_index_named(current, name@, k as int);
                                }
                                let registered = hosts[k].ip_address;
                                if registered == device.ip_address {
                                    MergeOutcome::AlreadyRegistered
                                } else {
                                    MergeOutcome::Conflict { registered }
                                }
                            },
                            None => {
                                if device.confirmed {
                                    hosts.push(
                                        Host {
                                            hostname: name.clone(),
                                            ip_address: device.ip_address,
                                            management_status: ManagementStatus::Managed,
                                        },
                                    );
                                    MergeOutcome::Added
                                } else {
                                    MergeOutcome::Unconfirmed
                                }
                            },
                        }
                    }
                },
            };
            assert(outcome == merge_outcome(current, all[i as int]));
            assert(host_views(hosts@) =~= merged_one(current, all[i as int]));
            outcomes.push(outcome);
            i += 1;
        }
        proof {
            assert(all.take(n as int) == all);
            lemma_merge_keeps_hosts(before, all);
            assert(outcomes@ =~= merge_outcomes(before, all));
        }
        *self = HostRegistry { hosts };
        outcomes
    }
}

} // verus!
