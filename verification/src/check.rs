//! The targets of a check: the hosts named on request or, where none is
//! named, every registered host.

use vstd::prelude::*;
use crate::address::{ip_value, parse_ip};
use crate::host::{
    check_hostname_chars, is_hostname, target_views, HostView, ManagementStatus, ProbeTarget,
    ProbeTargetView,
};
use crate::registry::{index_at, index_named, HostRegistry};
use crate::text::chars_of;

verus! {

/// A requested target is neither an IP address nor a registered name nor a
/// well-formed host name. `index` is its place in the request.
#[derive(Clone, Copy, Debug, PartialEq, Eq, Structural)]
pub struct InvalidHostSpec {
    pub index: usize,
}

/// The target that a registered host is checked as.
pub open spec fn registered_target(host: HostView) -> ProbeTargetView {
    ProbeTargetView {
        hostname: host.hostname,
        address: Some(host.ip_address),
        management_status: ManagementStatus::Managed,
    }
}

/// The targets of a check of every registered host, in registry order.
pub open spec fn registered_targets(hosts: Seq<HostView>) -> Seq<ProbeTargetView> {
    Seq::new(hosts.len(), |i: int| registered_target(hosts[i]))
}

/// The target that `text` asks for, if it asks for one.
///
/// An IP address is checked at that address, and is managed where a
/// registered host is at it. A registered name is checked at the address it
/// is registered at. Any other well-formed host name is checked once the
/// caller has resolved it, and is not managed. The target goes by the name
/// it was asked for.
pub open spec fn target_for(hosts: Seq<HostView>, text: Seq<char>) -> Option<ProbeTargetView> {
    match ip_value(text) {
        Some(address) => Some(
            ProbeTargetView {
                hostname: text,
                address: Some(address),
                management_status: if index_at(hosts, address) is Some {
                    ManagementStatus::Managed
                } else {
                    ManagementStatus::Unmanaged
                },
            },
        ),
        None => match index_named(hosts, text) {
            Some(i) => Some(
                ProbeTargetView {
                    hostname: text,
                    address: Some(hosts[i].ip_address),
                    management_status: ManagementStatus::Managed,
                },
            ),
            None => if is_hostname(text) {
                Some(
                    ProbeTargetView {
                        hostname: text,
                        address: None,
                        management_status: ManagementStatus::Unmanaged,
                    },
                )
            } else {
                None
            },
        },
    }
}

/// The target that `text` asks for.
fn resolve_one(registry: &HostRegistry, text: &String) -> (r: Option<ProbeTarget>)
    ensures
        match r {
            Some(target) => target_for(registry@, text@) == Some(target@),
            None => target_for(registry@, text@) is None,
        },
{
    let chars = chars_of(text.as_str());
    match parse_ip(&chars) {
        Some(address) => {
            let management_status = match registry.position_by_address(address) {
                Some(_) => ManagementStatus::Managed,
                None => ManagementStatus::Unmanaged,
            };
            Some(ProbeTarget { hostname: text.clone(), address: Some(address), management_status })
        },
        None => match registry.position(text) {
            Some(i) => {
                let host = registry.get(i).unwrap();
                Some(
                    ProbeTarget {
                        hostname: text.clone(),
                        address: Some(host.ip_address),
                        management_status: ManagementStatus::Managed,
                    },
                )
            },
            None => {
                if check_hostname_chars(&chars) {
                    Some(
                        ProbeTarget {
                            hostname: text.clone(),
                            address: None,
                            management_status: ManagementStatus::Unmanaged,
                        },
                    )
                } else {
                    None
                }
            },
        },
    }
}

/// Settles what a check is to probe.
///
/// Without explicit targets these are the registered hosts, in registry
/// order; an empty registry gives no targets, which is no error. With
/// explicit targets these are the targets asked for, one for each and in
/// their order, and the first that asks for none is an error.
pub fn resolve_targets(registry: &HostRegistry, explicit: &Vec<String>) -> (r: Result<
    Vec<ProbeTarget>,
    InvalidHostSpec,
>)
    ensures
        match r {
            Ok(targets) => if explicit.len() == 0 {
                target_views(targets@) == registered_targets(registry@)
            } else {
                &&& targets.len() == explicit.len()
                &&& forall|i: int|
                    0 <= i < explicit.len() ==> target_for(registry@, (#[trigger] explicit[i])@)
                        == Some(targets[i]@)
            },
            Err(e) => {
                &&& e.index < explicit.len()
                &&& target_for(registry@, explicit[e.index as int]@) is None
                &&& forall|i: int|
                    0 <= i < e.index ==> target_for(registry@, (#[trigger] explicit[i])@) is Some
            },
        },
{
    let mut targets: Vec<ProbeTarget> = Vec::new();
    if explicit.len() == 0 {
        let n = registry.len();
        let mut i: usize = 0;
        while i < n
            invariant
                i <= n,
                n == registry@.len(),
                targets.len() == i,
                forall|k: int|
                    0 <= k < i ==> (#[trigger] targets[k])@ == registered_target(registry@[k]),
            decreases n - i,
        {
            let host = registry.get(i).unwrap();
            targets.push(
                ProbeTarget {
                    hostname: host.hostname.clone(),
                    address: Some(host.ip_address),
                    management_status: ManagementStatus::Managed,
                },
            );
            i += 1;
        }
        assert(target_views(targets@) =~= registered_targets(registry@));
        return Ok(targets);
    }
    let n = explicit.len();
    let mut i: usize = 0;
    while i < n
        invariant
            i <= n,
            n == explicit.len(),
            targets.len() == i,
            forall|k: int|
                0 <= k < i ==> target_for(registry@, (#[trigger] explicit[k])@) == Some(
                    targets[k]@,
                ),
        decreases n - i,
    {
        match resolve_one(registry, &explicit[i]) {
            Some(target) => {
                targets.push(target);
            },
            None => {
                return Err(InvalidHostSpec { index: i });
            },
        }
        i += 1;
    }
    Ok(targets)
}

} // verus!
