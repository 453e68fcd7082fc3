use crate::platform::gpu::{extract_luid_from_name, luid_of, opt_view, VendorMap};
use crate::text::{
    contains, contains_seq,
    lemma_lex_asym, lemma_lex_total, lemma_lex_trans, lemma_strictly_sorted_unique, chars_of,
    lex_less, lex_lt, same_chars, strictly_sorted, strings_view,
};
use vstd::prelude::*;

verus! {

/// Some engine name in `names` carries the LUID `k`.
pub open spec fn names_carry_luid(names: Seq<Seq<char>>, k: Seq<char>) -> bool {
    exists|i: int| 0 <= i < names.len() && luid_of(names[i]) == Some(k)
}

/// `luids` is the ascending list, without repetition, of the LUIDs that the
/// engine names carry.
pub open spec fn sorted_unique_luids(names: Seq<Seq<char>>, luids: Seq<Seq<char>>) -> bool {
    &&& strictly_sorted(luids)
    &&& forall|k: Seq<char>| luids.contains(k) <==> names_carry_luid(names, k)
}

/// The positional pairing of LUIDs with captions: the `i`-th LUID maps to the
/// `i`-th caption, for every `i` below both lengths.
pub open spec fn positional_map(luids: Seq<Seq<char>>, captions: Seq<Seq<char>>) -> Map<
    Seq<char>,
    Seq<char>,
> {
    Map::new(
        |k: Seq<char>| exists|i: int| 0 <= i < luids.len() && i < captions.len() && luids[i] == k,
        |k: Seq<char>|
            captions[choose|i: int| 0 <= i < luids.len() && i < captions.len() && luids[i] == k],
    )
}

/// Inserts `x` into the strictly ascending list `luids` unless it is there.
fn insert_sorted(luids: &mut Vec<String>, x: String)
    requires
        strictly_sorted(strings_view(old(luids)@)),
    ensures
        strictly_sorted(strings_view(final(luids)@)),
        forall|k: Seq<char>|
            strings_view(final(luids)@).contains(k) <==> (strings_view(old(luids)@).contains(k)
                || k == x@),
{
    let ghost old_v = strings_view(luids@);
    let xc = chars_of(x.as_str());
    let mut p: usize = 0;
    while p < luids.len() && lex_less(&chars_of(luids[p].as_str()), &xc)
        invariant
            p <= luids@.len(),
            old_v == strings_view(luids@),
            xc@ == x@,
            forall|j: int| 0 <= j < p ==> lex_lt(old_v[j], x@),
        decreases luids@.len() - p,
    {
        p += 1;
    }
    if p < luids.len() && same_chars(&chars_of(luids[p].as_str()), &xc) {
        assert(old_v[p as int] == x@);
        return ;
    }
    let ghost xv = x@;
    luids.insert(p, x);
    let ghost new_v = strings_view(luids@);
    assert(new_v =~= old_v.insert(p as int, xv));
    assert forall|i: int, j: int| 0 <= i < j < new_v.len() implies lex_lt(new_v[i], new_v[j]) by {
        if p < old_v.len() {
            lemma_lex_total(old_v[p as int], xv);
            lemma_lex_asym(old_v[p as int], xv);
        }
        if j < p {
        } else if j == p {
        } else if i > p {
        } else {
            if j - 1 > p {
                lemma_lex_trans(xv, old_v[p as int], old_v[j - 1]);
            }
            if i < p {
                lemma_lex_trans(old_v[i], xv, old_v[j - 1]);
            }
        }
    }
    assert forall|k: Seq<char>| new_v.contains(k) <==> (old_v.contains(k) || k == xv) by {
        if new_v.contains(k) {
            let i = choose|i: int| 0 <= i < new_v.len() && new_v[i] == k;
            if i < p {
                assert(old_v[i] == k);
            } else if i > p {
                assert(old_v[i - 1] == k);
            }
        }
        if old_v.contains(k) {
            let i = choose|i: int| 0 <= i < old_v.len() && old_v[i] == k;
            if i < p {
                assert(new_v[i] == k);
            } else {
                assert(new_v[i + 1] == k);
            }
        }
        if k == xv {
            assert(new_v[p as int] == k);
        }
    }
}

/// The LUIDs that the engine names carry, ascending and without repetition.
pub fn sorted_engine_luids(engine_names: &Vec<String>) -> (res: Vec<String>)
    ensures
        sorted_unique_luids(strings_view(engine_names@), strings_view(res@)),
{
    let ghost names = strings_view(engine_names@);
    let mut luids: Vec<String> = Vec::new();
    let mut i: usize = 0;
    while i < engine_names.len()
        invariant
            i <= engine_names@.len(),
            names == strings_view(engine_names@),
            strictly_sorted(strings_view(luids@)),
            forall|k: Seq<char>|
                strings_view(luids@).contains(k) <==> exists|j: int|
                    0 <= j < i && luid_of(names[j]) == Some(k),
        decreases engine_names@.len() - i,
    {
        let found = extract_luid_from_name(engine_names[i].as_str());
        let ghost before = strings_view(luids@);
        match found {
            Some(l) => {
                let ghost lv = l@;
                insert_sorted(&mut luids, l);
                assert forall|k: Seq<char>|
                    strings_view(luids@).contains(k) <==> exists|j: int|
                        0 <= j < i + 1 && luid_of(names[j]) == Some(k) by {
                    if k == lv {
                        assert(luid_of(names[i as int]) == Some(k));
                    }
                    if exists|j: int| 0 <= j < i + 1 && luid_of(names[j]) == Some(k) {
                        let j = choose|j: int| 0 <= j < i + 1 && luid_of(names[j]) == Some(k);
                        if j < i {
                            assert(before.contains(k));
                        }
                    }
                }
            },
            None => {
                assert forall|k: Seq<char>|
                    strings_view(luids@).contains(k) <==> exists|j: int|
                        0 <= j < i + 1 && luid_of(names[j]) == Some(k) by {
                    if exists|j: int| 0 <= j < i + 1 && luid_of(names[j]) == Some(k) {
                        let j = choose|j: int| 0 <= j < i + 1 && luid_of(names[j]) == Some(k);
                        assert(j != i);
                    }
                }
            },
        }
        i += 1;
    }
    luids
}

/// Build the LUID-to-vendor-caption map.
///
/// `engine_names` are the `Name` fields of the GPU engine rows and `captions`
/// the `Caption` fields of the video controllers, in enumeration order (an
/// absent caption is the empty string). The distinct LUIDs that the engine
/// names carry are sorted alphabetically, which follows PCI enumeration order,
/// and the `i`-th LUID is paired with the `i`-th video controller.
pub fn build_gpu_vendor_map(engine_names: &Vec<String>, captions: &Vec<String>) -> (res: VendorMap)
    ensures
        exists|luids: Seq<Seq<char>>|
            sorted_unique_luids(strings_view(engine_names@), luids) && res@ == positional_map(
                luids,
                strings_view(captions@),
            ),
{
    let luids = sorted_engine_luids(engine_names);
    let ghost lv = strings_view(luids@);
    let ghost cv = strings_view(captions@);
    let mut map = VendorMap::new();
    let mut i: usize = 0;
    assert(map@ =~= positional_map(lv.take(0), cv));
    while i < luids.len() && i < captions.len()
        invariant
            i <= luids@.len(),
            lv == strings_view(luids@),
            cv == strings_view(captions@),
            strictly_sorted(lv),
            map@ == positional_map(lv.take(i as int), cv),
        decreases luids@.len() - i,
    {
        let key = luids[i].clone();
        let caption = captions[i].clone();
        map.insert(key, caption);
        proof {
            let t0 = lv.take(i as int);
            let t1 = lv.take(i + 1);
            assert forall|j: int| 0 <= j < i implies t0[j] != lv[i as int] by {
                lemma_lex_asym(lv[j], lv[i as int]);
            }
            let m1 = positional_map(t1, cv);
            let m0 = positional_map(t0, cv).insert(lv[i as int], cv[i as int]);
            assert forall|k: Seq<char>| m1.contains_key(k) <==> m0.contains_key(k) by {
                if m1.contains_key(k) {
                    let j = choose|j: int| 0 <= j < t1.len() && j < cv.len() && t1[j] == k;
                    if j < i {
                        assert(t0[j] == k);
                    }
                }
                if positional_map(t0, cv).contains_key(k) {
                    let j = choose|j: int| 0 <= j < t0.len() && j < cv.len() && t0[j] == k;
                    assert(t1[j] == k);
                }
                if k == lv[i as int] {
                    assert(t1[i as int] == k);
                }
            }
            assert forall|k: Seq<char>| #[trigger] m1.contains_key(k) implies m1[k] == m0[k] by {
                let j = choose|j: int| 0 <= j < t1.len() && j < cv.len() && t1[j] == k;
                if j < i {
                    assert(t0[j] == k);
                    let j0 = choose|j0: int| 0 <= j0 < t0.len() && j0 < cv.len() && t0[j0] == k;
                    if j0 != j {
                        lemma_lex_asym(lv[j0], lv[j]);
                        lemma_lex_asym(lv[j], lv[j0]);
                    }
                } else {
                    assert(j == i);
                }
            }
            assert(m1 =~= m0);
        }
        i += 1;
    }
    proof {
        let m = positional_map(lv, cv);
        let t = lv.take(i as int);
        assert forall|k: Seq<char>| m.contains_key(k) <==> positional_map(t, cv).contains_key(k) by {
            if m.contains_key(k) {
                let j = choose|j: int| 0 <= j < lv.len() && j < cv.len() && lv[j] == k;
                assert(t[j] == k);
            }
        }
        assert forall|k: Seq<char>| #[trigger] m.contains_key(k) implies m[k] == positional_map(
            t,
            cv,
        )[k] by {
            let j = choose|j: int| 0 <= j < lv.len() && j < cv.len() && lv[j] == k;
            let j1 = choose|j1: int| 0 <= j1 < t.len() && j1 < cv.len() && t[j1] == k;
            if j != j1 {
                lemma_lex_asym(lv[j], lv[j1]);
                lemma_lex_asym(lv[j1], lv[j]);
            }
        }
        assert(m =~= positional_map(t, cv));
    }
    map
}

/// The vendor map depends on the engine names only through the set of LUIDs
/// they carry: reordering or repeating engine rows leaves it unchanged.
pub proof fn lemma_vendor_map_depends_on_luid_set(
    names1: Seq<Seq<char>>,
    names2: Seq<Seq<char>>,
    captions: Seq<Seq<char>>,
    luids1: Seq<Seq<char>>,
    luids2: Seq<Seq<char>>,
)
    requires
        sorted_unique_luids(names1, luids1),
        sorted_unique_luids(names2, luids2),
        forall|k: Seq<char>| names_carry_luid(names1, k) <==> names_carry_luid(names2, k),
    ensures
        positional_map(luids1, captions) == positional_map(luids2, captions),
{
    lemma_strictly_sorted_unique(luids1, luids2);
}


/// The GPU engine types whose utilization is tracked.
#[derive(Debug, Clone, Copy, PartialEq, Eq, Structural)]
pub enum EngineKind {
    /// Shader workload (`engtype_3D`).
    ThreeD,
    /// Hardware video decode (`engtype_VideoDecode`).
    VideoDecode,
}

/// The tracked engine type that a GPU engine row's name carries.
pub open spec fn engine_kind_of(name: Seq<char>) -> Option<EngineKind> {
    if contains_seq(name, "engtype_3D"@) {
        Some(EngineKind::ThreeD)
    } else if contains_seq(name, "engtype_VideoDecode"@) {
        Some(EngineKind::VideoDecode)
    } else {
        None
    }
}

/// The engine rule over every row name: a name is a 3D row exactly when it
/// contains `"engtype_3D"`, a VideoDecode row exactly when it contains
/// `"engtype_VideoDecode"` and not `"engtype_3D"`, and is skipped exactly when
/// it contains neither.
pub proof fn lemma_engine_kind_rule(name: Seq<char>)
    ensures
        (engine_kind_of(name) == Some(EngineKind::ThreeD)) <==> contains_seq(name, "engtype_3D"@),
        (engine_kind_of(name) == Some(EngineKind::VideoDecode)) <==> (contains_seq(
            name,
            "engtype_VideoDecode"@,
        ) && !contains_seq(name, "engtype_3D"@)),
        (engine_kind_of(name) is None) <==> (!contains_seq(name, "engtype_3D"@) && !contains_seq(
            name,
            "engtype_VideoDecode"@,
        )),
{
}

/// Which tracked engine type a GPU engine row belongs to; `None` for Copy,
/// Compute, VR, GDI Render and the other engines, which are skipped.
pub fn gpu_engine_kind(name: &str) -> (res: Option<EngineKind>)
    ensures
        res == engine_kind_of(name@),
{
    let v = chars_of(name);
    if contains(&v, &chars_of("engtype_3D")) {
        Some(EngineKind::ThreeD)
    } else if contains(&v, &chars_of("engtype_VideoDecode")) {
        Some(EngineKind::VideoDecode)
    } else {
        None
    }
}

} // verus!
