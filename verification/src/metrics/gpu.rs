use crate::platform::gpu::{extract_luid_from_name, luid_of};
use crate::text::{chars_of, same_chars, strings_view};
use vstd::prelude::*;

verus! {

/// The grouping of GPU engine instances by LUID: `groups` lists the
/// distinct LUIDs, `member[i]` is the index in `groups` of the LUID of
/// instance `i` (or `None` when its name carries none), and every group has
/// at least one member.
pub open spec fn is_luid_grouping(
    names: Seq<Seq<char>>,
    groups: Seq<Seq<char>>,
    member: Seq<Option<usize>>,
) -> bool {
    &&& member.len() == names.len()
    &&& forall|a: int, b: int|
        0 <= a < groups.len() && 0 <= b < groups.len() && a != b ==> groups[a] != groups[b]
    &&& forall|i: int|
        0 <= i < names.len() ==> match #[trigger] member[i] {
            Some(g) => g < groups.len() && luid_of(names[i]) == Some(groups[g as int]),
            None => luid_of(names[i]) is None,
        }
    &&& forall|g: int| 0 <= g < groups.len() ==> #[trigger] has_member(member, g)
}

/// Some instance belongs to group `g`.
pub open spec fn has_member(member: Seq<Option<usize>>, g: int) -> bool {
    exists|i: int| 0 <= i < member.len() && member[i] == Some(g as usize)
}

/// Two instances with LUIDs share a group exactly when their LUIDs are
/// equal, so a group's utilization sums all processes on one adapter and
/// nothing else.
pub proof fn lemma_same_group_iff_same_luid(
    names: Seq<Seq<char>>,
    groups: Seq<Seq<char>>,
    member: Seq<Option<usize>>,
    i: int,
    j: int,
)
    requires
        is_luid_grouping(names, groups, member),
        0 <= i < names.len(),
        0 <= j < names.len(),
        luid_of(names[i]) is Some,
        luid_of(names[j]) is Some,
    ensures
        member[i] is Some,
        member[j] is Some,
        (member[i] == member[j]) <==> (luid_of(names[i]) == luid_of(names[j])),
{
    let mi = member[i];
    let mj = member[j];
    if let (Some(gi), Some(gj)) = (mi, mj) {
        if gi != gj {
            assert(groups[gi as int] != groups[gj as int]);
        }
    }
}

/// Groups GPU engine instances by the LUID their names carry, so that the
/// utilization of all processes on one adapter can be summed. Groups come in
/// the order of their first instance.
pub fn group_instances_by_luid(names: &Vec<String>) -> (res: (Vec<String>, Vec<Option<usize>>))
    ensures
        is_luid_grouping(strings_view(names@), strings_view(res.0@), res.1@),
{
    let ghost nv = strings_view(names@);
    let mut groups: Vec<String> = Vec::new();
    let mut member: Vec<Option<usize>> = Vec::new();
    let mut i: usize = 0;
    while i < names.len()
        invariant
            i <= names@.len(),
            nv == strings_view(names@),
            is_luid_grouping(nv.take(i as int), strings_view(groups@), member@),
        decreases names@.len() - i,
    {
        let ghost gv = strings_view(groups@);
        let ghost old_member = member@;
        assert(nv.take(i + 1).drop_last() =~= nv.take(i as int));
        match extract_luid_from_name(names[i].as_str()) {
            Some(l) => {
                let lc = chars_of(l.as_str());
                let mut g: usize = 0;
                while g < groups.len() && !same_chars(&chars_of(groups[g].as_str()), &lc)
                    invariant
                        g <= groups@.len(),
                        gv == strings_view(groups@),
                        lc@ == l@,
                        forall|h: int| 0 <= h < g ==> gv[h] != l@,
                    decreases groups@.len() - g,
                {
                    g += 1;
                }
                if g == groups.len() {
                    groups.push(l);
                    assert(strings_view(groups@) =~= gv.push(lc@));
                }
                member.push(Some(g));
            },
            None => {
                member.push(None);
            },
        }
        proof {
            let nt = nv.take(i + 1);
            let gv2 = strings_view(groups@);
            assert forall|k: int| 0 <= k < nt.len() implies match #[trigger] member@[k] {
                Some(g) => g < gv2.len() && luid_of(nt[k]) == Some(gv2[g as int]),
                None => luid_of(nt[k]) is None,
            } by {
                if k < i {
                    assert(member@[k] == old_member[k]);
                    assert(nt[k] == nv.take(i as int)[k]);
                }
            }
            assert forall|g: int| 0 <= g < gv2.len() implies #[trigger] has_member(member@, g) by {
                if g < gv.len() {
                    assert(has_member(old_member, g));
                    let k = choose|k: int|
                        0 <= k < old_member.len() && old_member[k] == Some(g as usize);
                    assert(member@[k] == Some(g as usize));
                } else {
                    assert(member@[i as int] == Some(g as usize));
                }
            }
        }
        i += 1;
    }
    assert(nv.take(i as int) =~= nv);
    (groups, member)
}

} // verus!
