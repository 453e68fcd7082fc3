use crate::text::{
    chars_of, contains_seq, find_char_from, find_seq, first_char_index, first_match_index, has_char,
    is_first_char, lemma_first_char_index, lemma_first_match_index, lowercase_of, match_at,
    matches_at, same_chars, string_of, to_lowercase, contains,
};
use vstd::prelude::*;

verus! {

/// Classifies a GPU LUID as integrated or discrete.
#[derive(Debug, Clone, Copy, PartialEq, Eq, Structural)]
pub enum GpuClass {
    IGpu,
    DGpu,
    Unknown,
}

/// The text that follows the LUID marker of a GPU engine instance name:
/// after the first `"_luid_"` (the `pid_N_luid_...` form), or else after a
/// leading `"luid_"` (the legacy form); `None` when neither is present.
pub open spec fn text_after_luid_marker(name: Seq<char>) -> Option<Seq<char>> {
    if contains_seq(name, "_luid_"@) {
        Some(name.skip(first_match_index(name, "_luid_"@) + "_luid_"@.len()))
    } else if matches_at(name, "luid_"@, 0) {
        Some(name.skip("luid_"@.len() as int))
    } else {
        None
    }
}

/// The second `'_'`-separated field of `after` when `after` is split into at
/// most three fields (the low half of the LUID), provided `after` has a
/// `'_'` at all; `None` otherwise.
pub open spec fn second_field(after: Seq<char>) -> Option<Seq<char>> {
    if has_char(after, '_') {
        let rest = after.skip(first_char_index(after, '_') + 1);
        if has_char(rest, '_') {
            Some(rest.take(first_char_index(rest, '_')))
        } else {
            Some(rest)
        }
    } else {
        None
    }
}

/// The LUID that a GPU engine instance name carries: the second field after
/// the LUID marker, when that field starts with `"0x"`.
pub open spec fn luid_of(name: Seq<char>) -> Option<Seq<char>> {
    match text_after_luid_marker(name) {
        Some(after) => match second_field(after) {
            Some(field) => if matches_at(field, "0x"@, 0) {
                Some(field)
            } else {
                None
            },
            None => None,
        },
        None => None,
    }
}

/// The field after the first `'_'` of `hi + "_" + lo + tail` is `lo` when
/// `hi` and `lo` hold no `'_'` and `tail` is empty or starts with `'_'`.
pub proof fn lemma_second_field(hi: Seq<char>, lo: Seq<char>, tail: Seq<char>)
    requires
        !has_char(hi, '_'),
        !has_char(lo, '_'),
        tail.len() == 0 || tail[0] == '_',
    ensures
        second_field(hi + seq!['_'] + lo + tail) == Some(lo),
{
    let after = hi + seq!['_'] + lo + tail;
    assert(is_first_char(after, '_', hi.len() as int)) by {
        assert forall|j: int| 0 <= j < hi.len() implies after[j] != '_' by {
            assert(after[j] == hi[j]);
        }
    }
    lemma_first_char_index(after, '_', hi.len() as int);
    let rest = after.skip(hi.len() + 1int);
    assert(rest =~= lo + tail);
    if tail.len() == 0 {
        assert(!has_char(rest, '_')) by {
            if has_char(rest, '_') {
                let k = choose|k: int| 0 <= k < rest.len() && rest[k] == '_';
                assert(lo[k] == '_');
            }
        }
        assert(rest =~= lo);
    } else {
        assert(is_first_char(rest, '_', lo.len() as int)) by {
            assert forall|j: int| 0 <= j < lo.len() implies rest[j] != '_' by {
                assert(rest[j] == lo[j]);
            }
        }
        lemma_first_char_index(rest, '_', lo.len() as int);
        assert(rest.take(lo.len() as int) =~= lo);
    }
}

/// The two documented name formats give the LUID's low half: for
/// `"pid_<digits>_luid_<hi>_<lo>..."` and, when the name holds no other
/// `"_luid_"`, for `"luid_<hi>_<lo>..."`, where `<hi>` and `<lo>` hold no
/// `'_'`, `<lo>` starts with `"0x"` and what follows it is empty or starts
/// with `'_'`.
pub proof fn lemma_luid_of_documented_formats(
    digits: Seq<char>,
    hi: Seq<char>,
    lo: Seq<char>,
    tail: Seq<char>,
)
    requires
        forall|i: int| 0 <= i < digits.len() ==> '0' <= #[trigger] digits[i] <= '9',
        !has_char(hi, '_'),
        !has_char(lo, '_'),
        matches_at(lo, "0x"@, 0),
        tail.len() == 0 || tail[0] == '_',
    ensures
        luid_of("pid_"@ + digits + "_luid_"@ + hi + seq!['_'] + lo + tail) == Some(lo),
        !contains_seq("luid_"@ + hi + seq!['_'] + lo + tail, "_luid_"@) ==> luid_of(
            "luid_"@ + hi + seq!['_'] + lo + tail,
        ) == Some(lo),
{
    reveal_strlit("pid_");
    reveal_strlit("_luid_");
    reveal_strlit("luid_");
    lemma_second_field(hi, lo, tail);
    let after = hi + seq!['_'] + lo + tail;
    let name = "pid_"@ + digits + "_luid_"@ + hi + seq!['_'] + lo + tail;
    let p: int = 4 + digits.len() as int;
    assert(name =~= ("pid_"@ + digits) + ("_luid_"@ + after));
    assert(matches_at(name, "_luid_"@, p)) by {
        assert(name.subrange(p, p + 6) =~= "_luid_"@);
    }
    assert forall|j: int| 0 <= j < p implies !matches_at(name, "_luid_"@, j) by {
        if matches_at(name, "_luid_"@, j) {
            assert(name.subrange(j, j + 6)[0] == '_');
            assert(name.subrange(j, j + 6)[1] == 'l');
            assert(name[j] == '_');
            assert(name[j + 1] == 'l');
            if j < 4 {
                assert(j == 3);
                if digits.len() > 0 {
                    assert(name[4] == digits[0]);
                } else {
                    assert(name[4] == '_');
                }
            } else {
                assert(name[j] == digits[j - 4]);
            }
        }
    }
    lemma_first_match_index(name, "_luid_"@, p);
    assert(name.skip(p + 6) =~= after);
    let legacy = "luid_"@ + after;
    assert(legacy =~= "luid_"@ + hi + seq!['_'] + lo + tail);
    assert(matches_at(legacy, "luid_"@, 0)) by {
        assert(legacy.subrange(0, 5) =~= "luid_"@);
    }
    assert(legacy.skip(5) =~= after);
}

/// The view of an optional string.
pub open spec fn opt_view(o: Option<String>) -> Option<Seq<char>> {
    match o {
        Some(s) => Some(s@),
        None => None,
    }
}

/// Extract the LUID hex string from a GPU engine instance name.
///
/// The name appears in two formats depending on the Windows version:
///   `"pid_1234_luid_0x00000000_0x00017D0F_phys_0_eng_0_engtype_3D"` and
///   `"luid_0x00000000_0x00017D0F_phys_0_eng_0_engtype_3D"`.
/// The result is the *second* hex segment after the marker, e.g. `"0x00017D0F"`.
pub fn extract_luid_from_name(name: &str) -> (res: Option<String>)
    ensures
        opt_view(res) == luid_of(name@),
{
    let v = chars_of(name);
    let n = v.len();
    let marker = chars_of("_luid_");
    let legacy = chars_of("luid_");
    let start: usize = match find_seq(&v, &marker) {
        Some(pos) => {
            proof {
                lemma_first_match_index(v@, marker@, pos as int);
            }
            pos + marker.len()
        },
        None => {
            if match_at(&v, &legacy, 0) {
                legacy.len()
            } else {
                return None;
            }
        },
    };
    let ghost after = v@.skip(start as int);
    assert(text_after_luid_marker(name@) == Some(after));
    let i1 = match find_char_from(&v, '_', start) {
        Some(i) => i,
        None => {
            assert(!has_char(after, '_'));
            return None;
        },
    };
    proof {
        assert(is_first_char(after, '_', i1 - start));
        lemma_first_char_index(after, '_', i1 - start);
    }
    let ghost rest = after.skip(i1 - start + 1);
    assert(rest =~= v@.skip(i1 + 1));
    let end: usize = match find_char_from(&v, '_', i1 + 1) {
        Some(j) => {
            proof {
                assert(is_first_char(rest, '_', j - (i1 + 1)));
                lemma_first_char_index(rest, '_', j - (i1 + 1));
            }
            j
        },
        None => {
            assert(!has_char(rest, '_'));
            v.len()
        },
    };
    let ghost field = v@.subrange(i1 + 1, end as int);
    assert(second_field(after) == Some(field));
    let field_chars = string_of(&v, i1 + 1, end);
    let hex = chars_of("0x");
    let fc = chars_of(field_chars.as_str());
    if match_at(&fc, &hex, 0) {
        Some(field_chars)
    } else {
        None
    }
}


/// A map from LUID strings to the caption of the video controller that the
/// LUID stands for.
pub struct VendorMap {
    entries: Vec<(String, String)>,
}

/// The views of the key-value pairs of a list of string pairs.
pub open spec fn pairs_view(entries: Seq<(String, String)>) -> Seq<(Seq<char>, Seq<char>)> {
    entries.map_values(|e: (String, String)| (e.0@, e.1@))
}

/// No key occurs twice in `pairs`.
pub open spec fn keys_distinct(pairs: Seq<(Seq<char>, Seq<char>)>) -> bool {
    forall|i: int, j: int|
        0 <= i < pairs.len() && 0 <= j < pairs.len() && i != j ==> pairs[i].0 != pairs[j].0
}

/// The map that a list of pairs with distinct keys stands for.
pub open spec fn pairs_to_map(pairs: Seq<(Seq<char>, Seq<char>)>) -> Map<Seq<char>, Seq<char>> {
    Map::new(
        |k: Seq<char>| exists|i: int| 0 <= i < pairs.len() && pairs[i].0 == k,
        |k: Seq<char>| pairs[choose|i: int| 0 <= i < pairs.len() && pairs[i].0 == k].1,
    )
}

/// In a list with distinct keys, the map gives each key the value listed with it.
pub proof fn lemma_pairs_to_map_at(pairs: Seq<(Seq<char>, Seq<char>)>, i: int)
    requires
        keys_distinct(pairs),
        0 <= i < pairs.len(),
    ensures
        pairs_to_map(pairs).contains_key(pairs[i].0),
        pairs_to_map(pairs)[pairs[i].0] == pairs[i].1,
{
    let k = pairs[i].0;
    assert(exists|j: int| 0 <= j < pairs.len() && pairs[j].0 == k);
    let c = choose|j: int| 0 <= j < pairs.len() && pairs[j].0 == k;
    assert(c == i);
}

impl View for VendorMap {
    type V = Map<Seq<char>, Seq<char>>;

    closed spec fn view(&self) -> Map<Seq<char>, Seq<char>> {
        pairs_to_map(pairs_view(self.entries@))
    }
}

impl VendorMap {
    #[verifier::type_invariant]
    closed spec fn distinct_keys(self) -> bool {
        keys_distinct(pairs_view(self.entries@))
    }

    /// An empty map.
    pub fn new() -> (res: Self)
        ensures
            res@ == Map::<Seq<char>, Seq<char>>::empty(),
    {
        let res = VendorMap { entries: Vec::new() };
        assert(res@ =~= Map::<Seq<char>, Seq<char>>::empty());
        res
    }

    /// The number of LUIDs in the map.
    pub fn len(&self) -> (res: usize)
        ensures
            res == self@.len(),
    {
        proof {
            use_type_invariant(self);
            self.lemma_dom_len();
        }
        self.entries.len()
    }

    proof fn lemma_dom_len(&self)
        requires
            keys_distinct(pairs_view(self.entries@)),
        ensures
            self@.dom() == pairs_view(self.entries@).map_values(
                |p: (Seq<char>, Seq<char>)| p.0,
            ).to_set(),
            self@.len() == self.entries@.len(),
    {
        let pv = pairs_view(self.entries@);
        let ks = pv.map_values(|p: (Seq<char>, Seq<char>)| p.0);
        assert(self@.dom() =~= ks.to_set()) by {
            assert forall|k: Seq<char>| self@.dom().contains(k) implies ks.to_set().contains(k) by {
                let i = choose|i: int| 0 <= i < pv.len() && pv[i].0 == k;
                assert(ks[i] == k);
            }
            assert forall|k: Seq<char>| ks.to_set().contains(k) implies self@.dom().contains(k) by {
                let i = choose|i: int| 0 <= i < ks.len() && ks[i] == k;
                assert(pv[i].0 == k);
            }
        }
        assert(ks.no_duplicates());
        ks.unique_seq_to_set();
    }

    /// The index of `key` in the entry list, if present.
    fn position(&self, key: &str) -> (res: Option<usize>)
        ensures
            res matches Some(i) ==> i < self.entries@.len() && self.entries@[i as int].0@ == key@,
            res is None ==> !self@.contains_key(key@),
    {
        let mut i: usize = 0;
        let ghost pv = pairs_view(self.entries@);
        let kc = chars_of(key);
        while i < self.entries.len()
            invariant
                i <= self.entries@.len(),
                pv == pairs_view(self.entries@),
                kc@ == key@,
                forall|j: int| 0 <= j < i ==> pv[j].0 != key@,
            decreases self.entries@.len() - i,
        {
            let eq = same_chars(&chars_of(self.entries[i].0.as_str()), &kc);
            assert(pv[i as int].0 == self.entries@[i as int].0@);
            if eq {
                return Some(i);
            }
            i += 1;
        }
        None
    }

    /// Inserts `value` under `key`, replacing the value held for `key` before.
    pub fn insert(&mut self, key: String, value: String)
        ensures
            final(self)@ == old(self)@.insert(key@, value@),
    {
        proof {
            use_type_invariant(&*self);
        }
        let ghost old_pv = pairs_view(self.entries@);
        let ghost kv = key@;
        let ghost vv = value@;
        match self.position(key.as_str()) {
            Some(i) => {
                let mut entries = Vec::new();
                std::mem::swap(&mut entries, &mut self.entries);
                entries.set(i, (key, value));
                let ghost pv = pairs_view(entries@);
                assert(pv =~= old_pv.update(i as int, (kv, vv)));
                assert(old_pv[i as int].0 == kv);
                assert(keys_distinct(pv)) by {
                    assert forall|a: int, b: int|
                        0 <= a < pv.len() && 0 <= b < pv.len() && a != b implies pv[a].0
                        != pv[b].0 by {
                        assert(old_pv[a].0 != old_pv[b].0);
                    }
                }
                assert(pairs_to_map(pv) =~= pairs_to_map(old_pv).insert(kv, vv)) by {
                    assert forall|k: Seq<char>| #[trigger]
                        pairs_to_map(pv).contains_key(k) implies pairs_to_map(old_pv).insert(
                        kv,
                        vv,
                    ).contains_key(k) by {
                        let j = choose|j: int| 0 <= j < pv.len() && pv[j].0 == k;
                        if j != i {
                            assert(old_pv[j].0 == k);
                        }
                    }
                    assert forall|k: Seq<char>| #[trigger]
                        pairs_to_map(old_pv).insert(kv, vv).contains_key(k) implies pairs_to_map(
                        pv,
                    ).contains_key(k) by {
                        if k != kv {
                            let j = choose|j: int| 0 <= j < old_pv.len() && old_pv[j].0 == k;
                            assert(pv[j].0 == k);
                        } else {
                            assert(pv[i as int].0 == k);
                        }
                    }
                    assert forall|k: Seq<char>| #[trigger]
                        pairs_to_map(pv).contains_key(k) implies pairs_to_map(pv)[k] == pairs_to_map(
                        old_pv,
                    ).insert(kv, vv)[k] by {
                        let j = choose|j: int| 0 <= j < pv.len() && pv[j].0 == k;
                        lemma_pairs_to_map_at(pv, j);
                        if j != i {
                            lemma_pairs_to_map_at(old_pv, j);
                        }
                    }
                }
                self.entries = entries;
            },
            None => {
                let mut entries = Vec::new();
                std::mem::swap(&mut entries, &mut self.entries);
                entries.push((key, value));
                let ghost pv = pairs_view(entries@);
                assert(pv =~= old_pv.push((kv, vv)));
                assert(keys_distinct(pv)) by {
                    assert forall|j: int| 0 <= j < old_pv.len() implies old_pv[j].0 != kv by {
                        if old_pv[j].0 == kv {
                            assert(pairs_to_map(old_pv).contains_key(kv));
                        }
                    }
                }
                assert(pairs_to_map(pv) =~= pairs_to_map(old_pv).insert(kv, vv)) by {
                    assert forall|k: Seq<char>| #[trigger]
                        pairs_to_map(pv).contains_key(k) implies pairs_to_map(old_pv).insert(
                        kv,
                        vv,
                    ).contains_key(k) by {
                        let j = choose|j: int| 0 <= j < pv.len() && pv[j].0 == k;
                        if j < old_pv.len() {
                            assert(old_pv[j].0 == k);
                        }
                    }
                    assert forall|k: Seq<char>| #[trigger]
                        pairs_to_map(old_pv).insert(kv, vv).contains_key(k) implies pairs_to_map(
                        pv,
                    ).contains_key(k) by {
                        if k != kv {
                            let j = choose|j: int| 0 <= j < old_pv.len() && old_pv[j].0 == k;
                            assert(pv[j].0 == k);
                        } else {
                            assert(pv[old_pv.len() as int].0 == k);
                        }
                    }
                    assert forall|k: Seq<char>| #[trigger]
                        pairs_to_map(pv).contains_key(k) implies pairs_to_map(pv)[k] == pairs_to_map(
                        old_pv,
                    ).insert(kv, vv)[k] by {
                        let j = choose|j: int| 0 <= j < pv.len() && pv[j].0 == k;
                        lemma_pairs_to_map_at(pv, j);
                        if j < old_pv.len() {
                            lemma_pairs_to_map_at(old_pv, j);
                        }
                    }
                }
                self.entries = entries;
            },
        }
    }

    /// The caption held for `key`, if any.
    pub fn get(&self, key: &str) -> (res: Option<&String>)
        ensures
            res matches Some(v) ==> self@.contains_key(key@) && self@[key@] == v@,
            res is None ==> !self@.contains_key(key@),
    {
        proof {
            use_type_invariant(self);
        }
        match self.position(key) {
            Some(i) => {
                proof {
                    lemma_pairs_to_map_at(pairs_view(self.entries@), i as int);
                }
                Some(&self.entries[i].1)
            },
            None => None,
        }
    }
}

/// The class that a vendor caption names: Intel is integrated, NVIDIA, AMD
/// and Radeon are discrete (tested on the lowercased caption, in that order).
pub open spec fn vendor_class(caption: Seq<char>) -> GpuClass {
    let v = lowercase_of(caption);
    if contains_seq(v, "intel"@) {
        GpuClass::IGpu
    } else if contains_seq(v, "nvidia"@) || contains_seq(v, "amd"@) || contains_seq(v, "radeon"@) {
        GpuClass::DGpu
    } else {
        GpuClass::Unknown
    }
}

/// The class of a LUID from the fallback table of known adapters.
pub open spec fn known_luid_class(luid: Seq<char>) -> GpuClass {
    if luid == "0x00017A19"@ || luid == "0x00017C9F"@ {
        GpuClass::IGpu
    } else if luid == "0x00017D0F"@ {
        GpuClass::DGpu
    } else {
        GpuClass::Unknown
    }
}

/// How `classify_luid` classifies `luid` against `vendors`: by the vendor
/// caption when that names a known vendor, else by the fallback table.
pub open spec fn luid_class(luid: Seq<char>, vendors: Map<Seq<char>, Seq<char>>) -> GpuClass {
    if vendors.contains_key(luid) && vendor_class(vendors[luid]) != GpuClass::Unknown {
        vendor_class(vendors[luid])
    } else {
        known_luid_class(luid)
    }
}

/// The keyword rules of the classification, over every LUID and vendor map:
/// a caption that mentions Intel (case-insensitively) makes the adapter
/// integrated; otherwise one that mentions NVIDIA, AMD or Radeon makes it
/// discrete; a LUID without such a caption is classified only by the table of
/// known adapters, and is `Unknown` when it is not in it.
pub proof fn lemma_classification_keywords(luid: Seq<char>, vendors: Map<Seq<char>, Seq<char>>)
    ensures
        vendors.contains_key(luid) && contains_seq(lowercase_of(vendors[luid]), "intel"@)
            ==> luid_class(luid, vendors) == GpuClass::IGpu,
        vendors.contains_key(luid) && !contains_seq(lowercase_of(vendors[luid]), "intel"@) && (
        contains_seq(lowercase_of(vendors[luid]), "nvidia"@) || contains_seq(
            lowercase_of(vendors[luid]),
            "amd"@,
        ) || contains_seq(lowercase_of(vendors[luid]), "radeon"@)) ==> luid_class(luid, vendors)
            == GpuClass::DGpu,
        !(vendors.contains_key(luid) && (contains_seq(lowercase_of(vendors[luid]), "intel"@)
            || contains_seq(lowercase_of(vendors[luid]), "nvidia"@) || contains_seq(
            lowercase_of(vendors[luid]),
            "amd"@,
        ) || contains_seq(lowercase_of(vendors[luid]), "radeon"@))) ==> luid_class(luid, vendors)
            == (if luid == "0x00017A19"@ || luid == "0x00017C9F"@ {
            GpuClass::IGpu
        } else if luid == "0x00017D0F"@ {
            GpuClass::DGpu
        } else {
            GpuClass::Unknown
        }),
{
}

/// Classify a LUID as iGPU or dGPU.
///
/// Primary: keyword match on the vendor caption held for the LUID.
/// Fallback: LUIDs known from one particular machine; anything else is
/// `Unknown`.
pub fn classify_luid(luid: &str, vendor_map: &VendorMap) -> (res: GpuClass)
    ensures
        res == luid_class(luid@, vendor_map@),
{
    if let Some(vendor) = vendor_map.get(luid) {
        let v = to_lowercase(vendor.as_str());
        let vc = chars_of(v.as_str());
        if contains(&vc, &chars_of("intel")) {
            return GpuClass::IGpu;
        }
        if contains(&vc, &chars_of("nvidia")) || contains(&vc, &chars_of("amd")) || contains(
            &vc,
            &chars_of("radeon"),
        ) {
            return GpuClass::DGpu;
        }
    }
    let l = chars_of(luid);
    if same_chars(&l, &chars_of("0x00017A19")) || same_chars(&l, &chars_of("0x00017C9F")) {
        GpuClass::IGpu
    } else if same_chars(&l, &chars_of("0x00017D0F")) {
        GpuClass::DGpu
    } else {
        GpuClass::Unknown
    }
}

} // verus!
