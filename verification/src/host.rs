//! Hosts and the addresses they are reached at.

use vstd::prelude::*;
use crate::text::{chars_of, field_views, split, split_fields};

verus! {

/// Whether a host is under the operator's administrative control.
#[derive(Clone, Copy, Debug, PartialEq, Eq, Structural)]
pub enum ManagementStatus {
    /// Present in the registry.
    Managed,
    /// Seen on the network, absent from the registry.
    Unmanaged,
}

/// An IP address, held as the integer that its octets spell in network order.
#[derive(Clone, Copy, Debug, PartialEq, Eq, Structural)]
pub enum IpAddress {
    V4(u32),
    V6(u128),
}

/// A host known by name.
#[derive(Debug)]
pub struct Host {
    pub hostname: String,
    pub ip_address: IpAddress,
    pub management_status: ManagementStatus,
}

/// The mathematical value of a [`Host`].
pub struct HostView {
    pub hostname: Seq<char>,
    pub ip_address: IpAddress,
    pub management_status: ManagementStatus,
}

impl View for Host {
    type V = HostView;

    open spec fn view(&self) -> HostView {
        HostView {
            hostname: self.hostname@,
            ip_address: self.ip_address,
            management_status: self.management_status,
        }
    }
}

impl Clone for Host {
    fn clone(&self) -> (r: Host)
        ensures
            r@ == self@,
    {
        Host {
            hostname: self.hostname.clone(),
            ip_address: self.ip_address,
            management_status: self.management_status,
        }
    }
}

impl Host {
    /// The host as it is shown to the user: by its name.
    pub fn to_text(&self) -> (text: String)
        ensures
            text@ == self@.hostname,
    {
        self.hostname.clone()
    }
}

/// A character that may stand in a label of a host name: a letter, a digit
/// or a hyphen.
pub open spec fn is_label_char(c: char) -> bool {
    ||| 'a' <= c <= 'z'
    ||| 'A' <= c <= 'Z'
    ||| '0' <= c <= '9'
    ||| c == '-'
}

/// A label of a host name: one to sixty-three label characters, neither the
/// first nor the last of them a hyphen.
pub open spec fn is_label(label: Seq<char>) -> bool {
    &&& 1 <= label.len() <= 63
    &&& forall|i: int| 0 <= i < label.len() ==> is_label_char(#[trigger] label[i])
    &&& label[0] != '-'
    &&& label[label.len() - 1] != '-'
}

/// A well-formed host name: at most 253 characters, made of labels
/// separated by dots.
pub open spec fn is_hostname(name: Seq<char>) -> bool {
    &&& 1 <= name.len() <= 253
    &&& forall|i: int|
        0 <= i < split_fields(name, '.').len() ==> is_label(#[trigger] split_fields(name, '.')[i])
}

/// Whether `label` is a label of a host name.
fn check_label(label: &Vec<char>) -> (ok: bool)
    ensures
        ok == is_label(label@),
{
    let n = label.len();
    if n == 0 || n > 63 {
        return false;
    }
    if label[0] == '-' || label[n - 1] == '-' {
        return false;
    }
    let mut i: usize = 0;
    while i < n
        invariant
            i <= n,
            n == label.len(),
            forall|k: int| 0 <= k < i ==> is_label_char(#[trigger] label[k]),
        decreases n - i,
    {
        let c = label[i];
        let ok = ('a' <= c && c <= 'z') || ('A' <= c && c <= 'Z') || ('0' <= c && c <= '9') || c
            == '-';
        if !ok {
            assert(!is_label_char(label[i as int]));
            return false;
        }
        i += 1;
    }
    true
}

/// Whether `chars` spell a well-formed host name.
pub fn check_hostname_chars(chars: &Vec<char>) -> (ok: bool)
    ensures
        ok == is_hostname(chars@),
{
    let n = chars.len();
    if n == 0 || n > 253 {
        return false;
    }
    let labels = split(chars, '.');
    let m = labels.len();
    let mut i: usize = 0;
    while i < m
        invariant
            i <= m,
            m == labels.len(),
            field_views(labels@) == split_fields(chars@, '.'),
            forall|k: int| 0 <= k < i ==> is_label(#[trigger] split_fields(chars@, '.')[k]),
        decreases m - i,
    {
        assert(field_views(labels@)[i as int] == labels[i as int]@);
        if !check_label(&labels[i]) {
            return false;
        }
        i += 1;
    }
    true
}

/// Whether `name` is a well-formed host name.
pub fn check_hostname(name: &str) -> (ok: bool)
    ensures
        ok == is_hostname(name@),
{
    let chars = chars_of(name);
    check_hostname_chars(&chars)
}

/// A host that a check was requested for. Its address is known when the
/// request named a registered host or an address; a bare name that is not
/// registered has none until the caller resolves it.
#[derive(Debug)]
pub struct ProbeTarget {
    pub hostname: String,
    pub address: Option<IpAddress>,
    pub management_status: ManagementStatus,
}

/// The mathematical value of a [`ProbeTarget`].
pub struct ProbeTargetView {
    pub hostname: Seq<char>,
    pub address: Option<IpAddress>,
    pub management_status: ManagementStatus,
}

impl View for ProbeTarget {
    type V = ProbeTargetView;

    open spec fn view(&self) -> ProbeTargetView {
        ProbeTargetView {
            hostname: self.hostname@,
            address: self.address,
            management_status: self.management_status,
        }
    }
}

impl Clone for ProbeTarget {
    fn clone(&self) -> (r: ProbeTarget)
        ensures
            r@ == self@,
    {
        ProbeTarget {
            hostname: self.hostname.clone(),
            address: self.address,
            management_status: self.management_status,
        }
    }
}

/// The values of a sequence of targets.
pub open spec fn target_views(targets: Seq<ProbeTarget>) -> Seq<ProbeTargetView> {
    Seq::new(targets.len(), |i: int| targets[i]@)
}

/// The names that `targets` were requested under, in order.
pub open spec fn target_names(targets: Seq<ProbeTarget>) -> Seq<Seq<char>> {
    Seq::new(targets.len(), |i: int| targets[i]@.hostname)
}

} // verus!
