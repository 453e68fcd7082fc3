use crate::monitor::{lemma_push_capped_bounded, push_capped, SystemMonitor};
use crate::text::{chars_of, contains, contains_seq, same_chars, to_uppercase, uppercase_of};
use vstd::prelude::*;

verus! {

/// The traffic of one network interface since the previous refresh.
pub struct InterfaceTraffic {
    /// The OS-assigned interface name, such as `"Ethernet"` or `"Wi-Fi"`.
    pub name: String,
    /// Bytes received since the previous refresh.
    pub received: u64,
    /// Bytes transmitted since the previous refresh.
    pub transmitted: u64,
}

/// An uppercased interface name names a loopback interface:
/// `"Loopback Pseudo-Interface N"` on Windows, `"lo"` on Linux.
pub open spec fn is_loopback_name(upper: Seq<char>) -> bool {
    contains_seq(upper, "LOOPBACK"@) || upper == "LO"@
}

/// The interface counts towards the totals.
pub open spec fn counted(iface: InterfaceTraffic) -> bool {
    !is_loopback_name(uppercase_of(iface.name@))
}

/// Bytes received over the non-loopback interfaces.
pub open spec fn received_total(ifaces: Seq<InterfaceTraffic>) -> nat
    decreases ifaces.len(),
{
    if ifaces.len() == 0 {
        0
    } else {
        received_total(ifaces.drop_last()) + if counted(ifaces.last()) {
            ifaces.last().received as nat
        } else {
            0
        }
    }
}

/// Bytes transmitted over the non-loopback interfaces.
pub open spec fn transmitted_total(ifaces: Seq<InterfaceTraffic>) -> nat
    decreases ifaces.len(),
{
    if ifaces.len() == 0 {
        0
    } else {
        transmitted_total(ifaces.drop_last()) + if counted(ifaces.last()) {
            ifaces.last().transmitted as nat
        } else {
            0
        }
    }
}

proof fn lemma_totals_monotone(ifaces: Seq<InterfaceTraffic>, i: int)
    requires
        0 <= i <= ifaces.len(),
    ensures
        received_total(ifaces.take(i)) <= received_total(ifaces),
        transmitted_total(ifaces.take(i)) <= transmitted_total(ifaces),
    decreases ifaces.len() - i,
{
    if i < ifaces.len() {
        lemma_totals_monotone(ifaces, i + 1);
        assert(ifaces.take(i + 1).drop_last() =~= ifaces.take(i));
    } else {
        assert(ifaces.take(i) =~= ifaces);
    }
}

proof fn lemma_totals_remove(ifaces: Seq<InterfaceTraffic>, j: int)
    requires
        0 <= j < ifaces.len(),
    ensures
        received_total(ifaces) == received_total(ifaces.remove(j)) + if counted(ifaces[j]) {
            ifaces[j].received as nat
        } else {
            0
        },
        transmitted_total(ifaces) == transmitted_total(ifaces.remove(j)) + if counted(ifaces[j]) {
            ifaces[j].transmitted as nat
        } else {
            0
        },
    decreases ifaces.len(),
{
    if j == ifaces.len() - 1 {
        assert(ifaces.remove(j) =~= ifaces.drop_last());
    } else {
        let d = ifaces.drop_last();
        lemma_totals_remove(d, j);
        assert(ifaces.remove(j).drop_last() =~= d.remove(j));
        assert(ifaces.remove(j).last() == ifaces.last());
        assert(d[j] == ifaces[j]);
    }
}

/// The totals do not depend on the order in which the interfaces are
/// listed (the operating system hands them out in no fixed order), and a
/// loopback interface adds nothing to them.
pub proof fn lemma_totals_order_independent(a: Seq<InterfaceTraffic>, b: Seq<InterfaceTraffic>)
    requires
        a.to_multiset() == b.to_multiset(),
    ensures
        received_total(a) == received_total(b),
        transmitted_total(a) == transmitted_total(b),
        forall|lo: InterfaceTraffic|
            !counted(lo) ==> #[trigger] received_total(a.push(lo)) == received_total(a)
                && transmitted_total(a.push(lo)) == transmitted_total(a),
    decreases a.len(),
{
    broadcast use vstd::multiset::group_multiset_axioms;

    assert forall|lo: InterfaceTraffic|
        !counted(lo) implies #[trigger] received_total(a.push(lo)) == received_total(a)
            && transmitted_total(a.push(lo)) == transmitted_total(a) by {
        assert(a.push(lo).drop_last() =~= a);
    }
    if a.len() == 0 {
        vstd::seq_lib::to_multiset_len(b);
        vstd::seq_lib::to_multiset_len(a);
    } else {
        let x = a.last();
        let d = a.drop_last();
        assert(d.push(x) =~= a);
        vstd::seq_lib::to_multiset_build(d, x);
        assert(b.to_multiset().count(x) > 0);
        vstd::seq_lib::to_multiset_contains(b, x);
        let j = choose|j: int| 0 <= j < b.len() && b[j] == x;
        vstd::seq_lib::to_multiset_remove(b, j);
        assert(b.remove(j).to_multiset() =~= d.to_multiset());
        lemma_totals_order_independent(d, b.remove(j));
        lemma_totals_remove(b, j);
    }
}

/// How one interface changes the totals, for every list and interface: one
/// whose uppercased name neither contains `"LOOPBACK"` nor is `"LO"` adds all
/// of its received and all of its transmitted bytes, whatever either count
/// is; a loopback interface adds nothing.
pub proof fn lemma_totals_add_interface(a: Seq<InterfaceTraffic>, x: InterfaceTraffic)
    ensures
        !contains_seq(uppercase_of(x.name@), "LOOPBACK"@) && uppercase_of(x.name@) != "LO"@ ==> {
            &&& received_total(a.push(x)) == received_total(a) + x.received
            &&& transmitted_total(a.push(x)) == transmitted_total(a) + x.transmitted
        },
        contains_seq(uppercase_of(x.name@), "LOOPBACK"@) || uppercase_of(x.name@) == "LO"@ ==> {
            &&& received_total(a.push(x)) == received_total(a)
            &&& transmitted_total(a.push(x)) == transmitted_total(a)
        },
{
    assert(a.push(x).drop_last() =~= a);
}

/// The totals of two lists of interfaces together are the sums of their
/// totals.
pub proof fn lemma_totals_concat(a: Seq<InterfaceTraffic>, b: Seq<InterfaceTraffic>)
    ensures
        received_total(a + b) == received_total(a) + received_total(b),
        transmitted_total(a + b) == transmitted_total(a) + transmitted_total(b),
    decreases b.len(),
{
    if b.len() == 0 {
        assert(a + b =~= a);
    } else {
        lemma_totals_concat(a, b.drop_last());
        assert((a + b).drop_last() =~= a + b.drop_last());
        assert((a + b).last() == b.last());
    }
}

/// Whether the interface called `name` is a loopback interface (checked
/// case-insensitively through `str::to_uppercase`).
pub fn is_loopback_interface(name: &str) -> (res: bool)
    ensures
        res == is_loopback_name(uppercase_of(name@)),
{
    let upper = to_uppercase(name);
    let u = chars_of(upper.as_str());
    contains(&u, &chars_of("LOOPBACK")) || same_chars(&u, &chars_of("LO"))
}

/// The bytes received and transmitted over all non-loopback interfaces, or
/// `None` when either sum does not fit in a `u64`.
pub fn network_traffic_totals(ifaces: &Vec<InterfaceTraffic>) -> (res: Option<(u64, u64)>)
    ensures
        res == (if received_total(ifaces@) <= u64::MAX && transmitted_total(ifaces@) <= u64::MAX {
            Some((received_total(ifaces@) as u64, transmitted_total(ifaces@) as u64))
        } else {
            None
        }),
{
    let mut total_recv: u64 = 0;
    let mut total_sent: u64 = 0;
    let mut i: usize = 0;
    assert(ifaces@.take(0) =~= Seq::<InterfaceTraffic>::empty());
    while i < ifaces.len()
        invariant
            i <= ifaces@.len(),
            total_recv == received_total(ifaces@.take(i as int)),
            total_sent == transmitted_total(ifaces@.take(i as int)),
        decreases ifaces@.len() - i,
    {
        let iface = &ifaces[i];
        assert(ifaces@.take(i + 1).drop_last() =~= ifaces@.take(i as int));
        if !is_loopback_interface(iface.name.as_str()) {
            match total_recv.checked_add(iface.received) {
                Some(r) => total_recv = r,
                None => {
                    proof {
                        lemma_totals_monotone(ifaces@, i + 1);
                    }
                    return None;
                },
            }
            match total_sent.checked_add(iface.transmitted) {
                Some(s) => total_sent = s,
                None => {
                    proof {
                        lemma_totals_monotone(ifaces@, i + 1);
                    }
                    return None;
                },
            }
        }
        i += 1;
    }
    assert(ifaces@.take(i as int) =~= ifaces@);
    Some((total_recv, total_sent))
}

/// Records one download and one upload rate sample (computed by the caller
/// from the totals above): each goes to the back of its history, capped at
/// `max_history`.
pub fn refresh_network<T>(app: &mut SystemMonitor<T>, recv_kbs: T, sent_kbs: T)
    ensures
        final(app)@ == old(app)@.with_net(
            push_capped(old(app)@.net_recv, recv_kbs, old(app)@.max_history),
            push_capped(old(app)@.net_sent, sent_kbs, old(app)@.max_history),
        ),
        old(app)@.wf() ==> final(app)@.wf(),
{
    let max = app.max_history;
    proof {
        if old(app)@.wf() {
            lemma_push_capped_bounded(old(app)@.net_recv, recv_kbs, max as nat);
            lemma_push_capped_bounded(old(app)@.net_sent, sent_kbs, max as nat);
        }
    }
    SystemMonitor::push_history(&mut app.net_recv_history, recv_kbs, max);
    SystemMonitor::push_history(&mut app.net_sent_history, sent_kbs, max);
}

} // verus!
