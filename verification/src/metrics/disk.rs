use crate::monitor::{
    disks_view, lemma_push_capped_bounded, push_capped, DiskHistory, SystemMonitor, MAX_HISTORY,
};
use crate::text::{
    append_str, chars_of, push_char, same_chars, split_whitespace, string_of, strings_view, to_uppercase,
    uppercase_of, whitespace_tokens,
};
use std::collections::VecDeque;
use vstd::prelude::*;
use vstd::utf8::encode_utf8;

verus! {

/// The token ends with a drive-letter colon.
pub open spec fn ends_with_colon(t: Seq<char>) -> bool {
    t.len() > 0 && t.last() == ':'
}

/// The uppercased tokens of `tokens` that end with `':'`, in order.
pub open spec fn colon_tokens_upper(tokens: Seq<Seq<char>>) -> Seq<Seq<char>>
    decreases tokens.len(),
{
    if tokens.len() == 0 {
        seq![]
    } else {
        let prev = colon_tokens_upper(tokens.drop_last());
        if ends_with_colon(tokens.last()) {
            prev.push(uppercase_of(tokens.last()))
        } else {
            prev
        }
    }
}

/// The drive letters that a physical-disk instance name such as
/// `"0 C: D:"` lists: the whitespace-separated tokens after the leading
/// disk index that end with `':'`, uppercased.
pub open spec fn drive_letters_of(instance: Seq<char>) -> Seq<Seq<char>> {
    let tokens = whitespace_tokens(instance);
    if tokens.len() == 0 {
        seq![]
    } else {
        colon_tokens_upper(tokens.drop_first())
    }
}

/// The drive letters of a physical-disk instance name (e.g. `"0 C: D:"` gives
/// `["C:", "D:"]`); an instance without drive letters (a system or
/// unformatted partition) gives an empty list.
pub fn pdh_instance_to_drive_letters(instance: &str) -> (res: Vec<String>)
    ensures
        strings_view(res@) == drive_letters_of(instance@),
{
    let tokens = split_whitespace(&chars_of(instance));
    let ghost tv = strings_view(tokens@);
    let mut res: Vec<String> = Vec::new();
    if tokens.len() == 0 {
        assert(strings_view(res@) =~= seq![]);
        return res;
    }
    let mut i: usize = 1;
    assert(tv.drop_first().take(0) =~= seq![]);
    while i < tokens.len()
        invariant
            1 <= i <= tokens@.len(),
            tv == strings_view(tokens@),
            tv == whitespace_tokens(instance@),
            strings_view(res@) == colon_tokens_upper(tv.drop_first().take(i - 1)),
        decreases tokens@.len() - i,
    {
        let tc = chars_of(tokens[i].as_str());
        let ghost before = strings_view(res@);
        assert(tv.drop_first().take(i as int).drop_last() =~= tv.drop_first().take(i - 1));
        assert(tv.drop_first().take(i as int).last() == tc@);
        if tc.len() > 0 && tc[tc.len() - 1] == ':' {
            let up = to_uppercase(tokens[i].as_str());
            res.push(up);
            assert(strings_view(res@) =~= before.push(uppercase_of(tc@)));
        }
        i += 1;
    }
    assert(tv.drop_first().take(i - 1) =~= tv.drop_first());
    res
}

proof fn lemma_colon_tokens_filter(tokens: Seq<Seq<char>>)
    ensures
        colon_tokens_upper(tokens) == tokens.filter(|t: Seq<char>| t.len() > 0 && t.last() == ':').map_values(
            |t: Seq<char>| uppercase_of(t),
        ),
    decreases tokens.len(),
{
    reveal(Seq::filter);
    if tokens.len() > 0 {
        lemma_colon_tokens_filter(tokens.drop_last());
        let f = tokens.drop_last().filter(|t: Seq<char>| t.len() > 0 && t.last() == ':');
        if tokens.last().len() > 0 && tokens.last().last() == ':' {
            assert(f.push(tokens.last()).map_values(|t: Seq<char>| uppercase_of(t)) =~= f.map_values(
                |t: Seq<char>| uppercase_of(t),
            ).push(uppercase_of(tokens.last())));
        }
    } else {
        assert(tokens.filter(|t: Seq<char>| t.len() > 0 && t.last() == ':').map_values(
            |t: Seq<char>| uppercase_of(t),
        ) =~= seq![]);
    }
}

/// The drive letters of every instance name are all of its whitespace tokens
/// after the first that end with `':'`, uppercased, in order and without a
/// cap on their number.
pub proof fn lemma_drive_letters_are_colon_tokens(instance: Seq<char>)
    ensures
        drive_letters_of(instance) == (if whitespace_tokens(instance).len() == 0 {
            Seq::<Seq<char>>::empty()
        } else {
            whitespace_tokens(instance).drop_first().filter(
                |t: Seq<char>| t.len() > 0 && t.last() == ':',
            ).map_values(|t: Seq<char>| uppercase_of(t))
        }),
{
    let tokens = whitespace_tokens(instance);
    if tokens.len() > 0 {
        lemma_colon_tokens_filter(tokens.drop_first());
    }
}

proof fn lemma_known_letters_filter(letters: Seq<Seq<char>>, known: Set<Seq<char>>)
    ensures
        known_letters(letters, known) == letters.filter(|l: Seq<char>| known.contains(l)),
    decreases letters.len(),
{
    reveal(Seq::filter);
    if letters.len() > 0 {
        lemma_known_letters_filter(letters.drop_last(), known);
    }
}

/// The drive letters of the instance that are drive keys of mounted volumes,
/// in order.
pub open spec fn mounted_letters_of(instance: Seq<char>, known: Set<Seq<char>>) -> Seq<Seq<char>> {
    drive_letters_of(instance).filter(|l: Seq<char>| known.contains(l))
}

/// The key of every physical-disk instance is made of exactly its drive
/// letters that belong to mounted volumes: those letters, in order, joined
/// with single spaces; an instance with no such letter gets no key. Every
/// part of a key is the drive key of a mounted volume and a letter of the
/// instance.
pub proof fn lemma_disk_key_uses_mounted_letters(instance: Seq<char>, known: Set<Seq<char>>)
    ensures
        disk_key_for(instance, known) == if mounted_letters_of(instance, known).len() == 0 {
            None
        } else {
            Some(join_with_spaces(mounted_letters_of(instance, known)))
        },
        forall|i: int|
            0 <= i < mounted_letters_of(instance, known).len() ==> known.contains(
                #[trigger] mounted_letters_of(instance, known)[i],
            ) && drive_letters_of(instance).contains(mounted_letters_of(instance, known)[i]),
{
    let letters = drive_letters_of(instance);
    lemma_known_letters_filter(letters, known);
    let mounted = mounted_letters_of(instance, known);
    assert forall|i: int| 0 <= i < mounted.len() implies known.contains(#[trigger] mounted[i])
        && letters.contains(mounted[i]) by {
        letters.lemma_filter_pred(|l: Seq<char>| known.contains(l), i);
        assert(mounted.contains(mounted[i]));
        letters.lemma_filter_contains_rev(|l: Seq<char>| known.contains(l), mounted[i]);
    }
}

/// Every disk entry that recording adds is keyed by the key of one of the
/// recorded samples' instances; entries present before keep their keys.
pub proof fn lemma_new_disk_keys_come_from_samples<T>(
    disks: Seq<(Seq<char>, Seq<T>)>,
    known: Set<Seq<char>>,
    samples: Seq<DiskSample<T>>,
    max_len: nat,
)
    ensures
        forall|i: int|
            disks.len() <= i < apply_disk_samples(disks, known, samples, max_len).len() ==> exists|
                j: int,
            |
                0 <= j < samples.len() && disk_key_for(samples[j].instance@, known) == Some(
                    #[trigger] apply_disk_samples(disks, known, samples, max_len)[i].0,
                ),
    decreases samples.len(),
{
    if samples.len() > 0 {
        let d = samples.drop_last();
        lemma_new_disk_keys_come_from_samples(disks, known, d, max_len);
        lemma_disk_order_kept(disks, known, d, max_len);
        let prev = apply_disk_samples(disks, known, d, max_len);
        let r = apply_disk_samples(disks, known, samples, max_len);
        assert forall|i: int| disks.len() <= i < r.len() implies exists|j: int|
            0 <= j < samples.len() && disk_key_for(samples[j].instance@, known) == Some(
                #[trigger] r[i].0,
            ) by {
            match disk_key_for(samples.last().instance@, known) {
                Some(k) => {
                    if exists|m: int| 0 <= m < prev.len() && prev[m].0 == k {
                        lemma_first_key_exists(prev, k);
                        let m = choose|m: int| is_first_key(prev, k, m);
                        if i == m {
                            assert(r[i].0 == prev[i].0);
                        }
                        assert(r[i].0 == prev[i].0);
                    } else if i == prev.len() {
                        assert(r[i].0 == k);
                        assert(samples[samples.len() - 1] == samples.last());
                    } else {
                        assert(r[i].0 == prev[i].0);
                    }
                },
                None => {},
            }
            if i < prev.len() && r[i].0 == prev[i].0 {
                let j = choose|j: int|
                    0 <= j < d.len() && disk_key_for(d[j].instance@, known) == Some(
                        #[trigger] prev[i].0,
                    );
                assert(samples[j] == d[j]);
            }
        }
    }
}

/// Whether a physical-disk instance is the `"_Total"` aggregate over all
/// disks, which gets no card of its own.
pub fn is_disk_total_instance(instance: &str) -> (res: bool)
    ensures
        res == (instance@ == "_Total"@),
{
    same_chars(&chars_of(instance), &chars_of("_Total"))
}

/// The drive key (such as `"C:"`) that an uppercased mount point gives: its
/// first two characters, when the second byte of its UTF-8 encoding is `':'`.
pub open spec fn mount_drive_key(upper: Seq<char>) -> Option<Seq<char>> {
    let bytes = encode_utf8(upper);
    if bytes.len() >= 2 && bytes[1] == 0x3Au8 {
        Some(upper.take(2))
    } else {
        None
    }
}

/// When the second byte of a string's UTF-8 encoding is `':'`, the string
/// begins with an ASCII character and `':'`, and those two characters are
/// encoded by its first two bytes: the drive key is the byte prefix the
/// mount point starts with.
pub proof fn lemma_mount_drive_key(upper: Seq<char>)
    requires
        encode_utf8(upper).len() >= 2,
        encode_utf8(upper)[1] == 0x3Au8,
    ensures
        upper.len() >= 2,
        (upper[0] as u32) < 0x80,
        upper[1] == ':',
        encode_utf8(upper.take(2)) == encode_utf8(upper).take(2),
{
    let bytes = encode_utf8(upper);
    assert(upper.len() > 0);
    let c0 = upper[0] as u32;
    vstd::utf8::char_is_scalar(upper[0]);
    let rest = upper.drop_first();
    assert(bytes == vstd::utf8::encode_scalar(c0) + encode_utf8(rest));
    if c0 > 0x7F {
        if c0 <= 0x7FF {
            assert(bytes[1] == vstd::utf8::last_continuation_byte(c0));
            assert((0x80u8 | (c0 & 0x3F) as u8) != 0x3Au8) by (bit_vector);
        } else if c0 <= 0xFFFF {
            assert(bytes[1] == vstd::utf8::second_last_continuation_byte(c0));
            assert((0x80u8 | ((c0 >> 6) & 0x3F) as u8) != 0x3Au8) by (bit_vector);
        } else {
            assert(bytes[1] == vstd::utf8::third_last_continuation_byte(c0));
            assert((0x80u8 | ((c0 >> 12) & 0x3F) as u8) != 0x3Au8) by (bit_vector);
        }
    }
    assert(vstd::utf8::encode_scalar(c0).len() == 1);
    if rest.len() == 0 {
        assert(encode_utf8(rest) =~= Seq::<u8>::empty());
    }
    assert(rest.len() > 0);
    let c1 = rest[0] as u32;
    vstd::utf8::char_is_scalar(rest[0]);
    assert(encode_utf8(rest) == vstd::utf8::encode_scalar(c1) + encode_utf8(rest.drop_first()));
    assert(bytes[1] == vstd::utf8::encode_scalar(c1)[0]);
    if c1 > 0x7F {
        if c1 <= 0x7FF {
            assert((0xC0u8 | ((c1 >> 6) & 0x1F) as u8) != 0x3Au8) by (bit_vector);
        } else if c1 <= 0xFFFF {
            assert((0xE0u8 | ((c1 >> 12) & 0x0F) as u8) != 0x3Au8) by (bit_vector);
        } else {
            assert((0xF0u8 | ((c1 >> 18) & 0x7) as u8) != 0x3Au8) by (bit_vector);
        }
    }
    assert(((c1 & 0x7F) as u8) == 0x3Au8 && c1 <= 0x7F ==> c1 == 0x3A) by (bit_vector);
    assert(c1 == 0x3A);
    vstd::utf8::char_u32_cast(rest[0], c1);
    vstd::utf8::char_u32_cast(':', 0x3Au32);
    assert(upper[1] == ':');
    let t = upper.take(2);
    assert(t.drop_first().drop_first() =~= Seq::<char>::empty());
    assert(encode_utf8(t.drop_first().drop_first()) =~= Seq::<u8>::empty());
    assert(t[0] == upper[0]);
    assert(t.drop_first()[0] == rest[0]);
    assert(encode_utf8(t) == vstd::utf8::encode_scalar(c0) + encode_utf8(t.drop_first()));
    assert(encode_utf8(t.drop_first()) == vstd::utf8::encode_scalar(c1) + encode_utf8(
        t.drop_first().drop_first(),
    ));
    assert(vstd::utf8::encode_scalar(c1).len() == 1);
    assert(encode_utf8(t) =~= bytes.take(2));
}


/// The drive keys that the mounted volumes provide, from their mount points.
pub open spec fn known_drive_keys(mounts: Seq<Seq<char>>) -> Set<Seq<char>> {
    Set::new(
        |k: Seq<char>|
            exists|i: int|
                0 <= i < mounts.len() && mount_drive_key(uppercase_of(mounts[i])) == Some(k),
    )
}

/// The letters of `letters` that are in `known`, in order.
pub open spec fn known_letters(letters: Seq<Seq<char>>, known: Set<Seq<char>>) -> Seq<Seq<char>>
    decreases letters.len(),
{
    if letters.len() == 0 {
        seq![]
    } else {
        let prev = known_letters(letters.drop_last(), known);
        if known.contains(letters.last()) {
            prev.push(letters.last())
        } else {
            prev
        }
    }
}

/// The parts joined with single spaces between them.
pub open spec fn join_with_spaces(parts: Seq<Seq<char>>) -> Seq<char>
    decreases parts.len(),
{
    if parts.len() == 0 {
        seq![]
    } else if parts.len() == 1 {
        parts[0]
    } else {
        join_with_spaces(parts.drop_last()) + seq![' '] + parts.last()
    }
}

/// The key under which a physical-disk instance is shown: its drive letters
/// that belong to mounted volumes, joined with spaces (such as `"C: D:"`);
/// `None` when it has none.
pub open spec fn disk_key_for(instance: Seq<char>, known: Set<Seq<char>>) -> Option<Seq<char>> {
    let mapped = known_letters(drive_letters_of(instance), known);
    if mapped.len() == 0 {
        None
    } else {
        Some(join_with_spaces(mapped))
    }
}

/// `i` is the first position of `key` among the disk entries.
pub open spec fn is_first_key<T>(disks: Seq<(Seq<char>, Seq<T>)>, key: Seq<char>, i: int) -> bool {
    &&& 0 <= i < disks.len()
    &&& disks[i].0 == key
    &&& forall|j: int| 0 <= j < i ==> disks[j].0 != key
}

/// Records one active-time sample for `key`: it is pushed onto the history
/// held under `key`, or, when there is none, a new entry for `key` is
/// appended to the display order with a history that starts from it.
pub open spec fn record_disk_sample<T>(
    disks: Seq<(Seq<char>, Seq<T>)>,
    key: Seq<char>,
    value: T,
    max_len: nat,
) -> Seq<(Seq<char>, Seq<T>)> {
    if exists|i: int| 0 <= i < disks.len() && disks[i].0 == key {
        let i = choose|i: int| is_first_key(disks, key, i);
        disks.update(i, (key, push_capped(disks[i].1, value, max_len)))
    } else {
        disks.push((key, push_capped(seq![], value, max_len)))
    }
}

/// One active-time reading of a physical-disk instance.
pub struct DiskSample<T> {
    /// The raw instance name, such as `"0 C: D:"`.
    pub instance: String,
    /// The share of elapsed time the disk was busy.
    pub active_pct: T,
}

/// The disk entries after recording `samples`, in order; samples whose
/// instance has no mounted drive letter are skipped.
pub open spec fn apply_disk_samples<T>(
    disks: Seq<(Seq<char>, Seq<T>)>,
    known: Set<Seq<char>>,
    samples: Seq<DiskSample<T>>,
    max_len: nat,
) -> Seq<(Seq<char>, Seq<T>)>
    decreases samples.len(),
{
    if samples.len() == 0 {
        disks
    } else {
        let prev = apply_disk_samples(disks, known, samples.drop_last(), max_len);
        match disk_key_for(samples.last().instance@, known) {
            Some(k) => record_disk_sample(prev, k, samples.last().active_pct, max_len),
            None => prev,
        }
    }
}

/// Recording samples never reorders or removes a disk entry: the entries
/// present before keep their keys and positions, and new keys are appended.
pub proof fn lemma_disk_order_kept<T>(
    disks: Seq<(Seq<char>, Seq<T>)>,
    known: Set<Seq<char>>,
    samples: Seq<DiskSample<T>>,
    max_len: nat,
)
    ensures
        disks.len() <= apply_disk_samples(disks, known, samples, max_len).len(),
        forall|i: int|
            0 <= i < disks.len() ==> #[trigger] apply_disk_samples(
                disks,
                known,
                samples,
                max_len,
            )[i].0 == disks[i].0,
    decreases samples.len(),
{
    if samples.len() > 0 {
        lemma_disk_order_kept(disks, known, samples.drop_last(), max_len);
        let prev = apply_disk_samples(disks, known, samples.drop_last(), max_len);
        if let Some(k) = disk_key_for(samples.last().instance@, known) {
            if exists|i: int| 0 <= i < prev.len() && prev[i].0 == k {
                let i = choose|i: int| is_first_key(prev, k, i);
                lemma_first_key_exists(prev, k);
                assert forall|j: int| 0 <= j < disks.len() implies #[trigger] apply_disk_samples(
                    disks,
                    known,
                    samples,
                    max_len,
                )[j].0 == disks[j].0 by {
                    assert(prev[j].0 == disks[j].0);
                }
            } else {
                assert forall|j: int| 0 <= j < disks.len() implies #[trigger] apply_disk_samples(
                    disks,
                    known,
                    samples,
                    max_len,
                )[j].0 == disks[j].0 by {
                    assert(prev[j].0 == disks[j].0);
                }
            }
        }
    }
}

/// When some entry holds `key`, a first such entry exists.
pub proof fn lemma_first_key_exists<T>(disks: Seq<(Seq<char>, Seq<T>)>, key: Seq<char>)
    requires
        exists|i: int| 0 <= i < disks.len() && disks[i].0 == key,
    ensures
        is_first_key(disks, key, choose|i: int| is_first_key(disks, key, i)),
    decreases disks.len(),
{
    if disks.last().0 == key && !(exists|i: int| 0 <= i < disks.len() - 1 && disks[i].0 == key) {
        assert(is_first_key(disks, key, disks.len() - 1));
    } else if exists|i: int| 0 <= i < disks.len() - 1 && disks[i].0 == key {
        let d = disks.drop_last();
        assert(exists|i: int| 0 <= i < d.len() && d[i].0 == key) by {
            let i = choose|i: int| 0 <= i < disks.len() - 1 && disks[i].0 == key;
            assert(d[i] == disks[i]);
        }
        lemma_first_key_exists(d, key);
        let f = choose|i: int| is_first_key(d, key, i);
        assert(is_first_key(d, key, f));
        assert(disks[f].0 == d[f].0);
        assert forall|j: int| 0 <= j < f implies disks[j].0 != key by {
            assert(disks[j] == d[j]);
        }
        assert(is_first_key(disks, key, f));
    } else {
        let i = choose|i: int| 0 <= i < disks.len() && disks[i].0 == key;
        assert(i == disks.len() - 1);
        assert(is_first_key(disks, key, disks.len() - 1));
    }
}

/// The first entry found holding `key` is the one `record_disk_sample` names.
proof fn lemma_first_key_unique<T>(disks: Seq<(Seq<char>, Seq<T>)>, key: Seq<char>, i: int)
    requires
        is_first_key(disks, key, i),
    ensures
        (choose|j: int| is_first_key(disks, key, j)) == i,
{
    let f = choose|j: int| is_first_key(disks, key, j);
    assert(is_first_key(disks, key, f));
    if f < i {
        assert(disks[f].0 != key);
    } else if i < f {
        assert(disks[i].0 != key);
    }
}

/// The parts joined with single spaces.
fn join_parts(parts: &Vec<String>) -> (res: String)
    ensures
        res@ == join_with_spaces(strings_view(parts@)),
{
    let ghost pv = strings_view(parts@);
    let mut res = String::new();
    let mut i: usize = 0;
    assert(pv.take(0) =~= seq![]);
    while i < parts.len()
        invariant
            i <= parts@.len(),
            pv == strings_view(parts@),
            res@ == join_with_spaces(pv.take(i as int)),
        decreases parts@.len() - i,
    {
        let ghost before = res@;
        assert(pv.take(i + 1).drop_last() =~= pv.take(i as int));
        if i > 0 {
            push_char(&mut res, ' ');
            append_str(&mut res, parts[i].as_str());
            assert(res@ =~= before + seq![' '] + pv[i as int]);
        } else {
            append_str(&mut res, parts[i].as_str());
            assert(res@ =~= pv.take(1)[0]);
        }
        i += 1;
    }
    assert(pv.take(i as int) =~= pv);
    res
}

/// Whether some string of `v` holds the characters `c`.
fn holds_string(v: &Vec<String>, c: &Vec<char>) -> (res: bool)
    ensures
        res == strings_view(v@).contains(c@),
{
    let ghost sv = strings_view(v@);
    let mut j: usize = 0;
    while j < v.len()
        invariant
            j <= v@.len(),
            sv == strings_view(v@),
            forall|k: int| 0 <= k < j ==> sv[k] != c@,
        decreases v@.len() - j,
    {
        if same_chars(&chars_of(v[j].as_str()), c) {
            assert(sv[j as int] == c@);
            return true;
        }
        j += 1;
    }
    false
}

/// The drive keys that the mount points provide.
fn drive_keys(mount_points: &Vec<String>) -> (res: Vec<String>)
    ensures
        forall|k: Seq<char>|
            strings_view(res@).contains(k) <==> known_drive_keys(strings_view(mount_points@)).contains(k),
{
    let ghost mv = strings_view(mount_points@);
    let mut keys: Vec<String> = Vec::new();
    let mut i: usize = 0;
    while i < mount_points.len()
        invariant
            i <= mount_points@.len(),
            mv == strings_view(mount_points@),
            forall|k: Seq<char>|
                strings_view(keys@).contains(k) <==> exists|j: int|
                    0 <= j < i && mount_drive_key(uppercase_of(mv[j])) == Some(k),
        decreases mount_points@.len() - i,
    {
        let upper = to_uppercase(mount_points[i].as_str());
        let ghost before = strings_view(keys@);
        let ghost u = upper@;
        let bytes: &[u8] = upper.as_str().as_bytes();
        assert(bytes@ == encode_utf8(u));
        if bytes.len() >= 2 && bytes[1] == 0x3Au8 {
            proof {
                lemma_mount_drive_key(u);
            }
            let key = string_of(&chars_of(upper.as_str()), 0, 2);
            keys.push(key);
            assert(strings_view(keys@) =~= before.push(u.take(2)));
            assert(mv[i as int] == mount_points@[i as int]@);
            assert(mount_drive_key(uppercase_of(mv[i as int])) == Some(u.take(2)));
            assert forall|k: Seq<char>|
                strings_view(keys@).contains(k) <==> exists|j: int|
                    0 <= j < i + 1 && mount_drive_key(uppercase_of(mv[j])) == Some(k) by {
                if k == u.take(2) {
                    assert(strings_view(keys@)[before.len() as int] == k);
                    assert(mount_drive_key(uppercase_of(mv[i as int])) == Some(k));
                }
                if strings_view(keys@).contains(k) {
                    let m = choose|m: int| 0 <= m < strings_view(keys@).len() && strings_view(keys@)[m] == k;
                    if m < before.len() {
                        assert(before[m] == k);
                        assert(before.contains(k));
                        let j = choose|j: int| 0 <= j < i && mount_drive_key(uppercase_of(mv[j])) == Some(k);
                        assert(0 <= j < i + 1 && mount_drive_key(uppercase_of(mv[j])) == Some(k));
                    } else {
                        assert(k == u.take(2));
                    }
                }
                if exists|j: int| 0 <= j < i + 1 && mount_drive_key(uppercase_of(mv[j])) == Some(k) {
                    let j = choose|j: int| 0 <= j < i + 1 && mount_drive_key(uppercase_of(mv[j])) == Some(k);
                    if j < i {
                        assert(before.contains(k));
                        let m = choose|m: int| 0 <= m < before.len() && before[m] == k;
                        assert(strings_view(keys@)[m] == k);
                    }
                }
            }
        } else {
            assert(mv[i as int] == mount_points@[i as int]@);
            assert(mount_drive_key(uppercase_of(mv[i as int])) is None);
            assert forall|k: Seq<char>|
                strings_view(keys@).contains(k) <==> exists|j: int|
                    0 <= j < i + 1 && mount_drive_key(uppercase_of(mv[j])) == Some(k) by {
                if exists|j: int| 0 <= j < i + 1 && mount_drive_key(uppercase_of(mv[j])) == Some(k) {
                    let j = choose|j: int| 0 <= j < i + 1 && mount_drive_key(uppercase_of(mv[j])) == Some(k);
                    assert(j < i);
                }
            }
        }
        i += 1;
    }
    keys
}


/// Every history is within `max_len` and no key occurs twice.
pub open spec fn disks_wf<T>(disks: Seq<(Seq<char>, Seq<T>)>, max_len: nat) -> bool {
    &&& forall|i: int| 0 <= i < disks.len() ==> #[trigger] disks[i].1.len() <= max_len
    &&& forall|i: int, j: int|
        0 <= i < disks.len() && 0 <= j < disks.len() && i != j ==> disks[i].0 != disks[j].0
}

/// Recording a sample keeps the histories within the cap and the keys distinct.
pub proof fn lemma_record_keeps_wf<T>(
    disks: Seq<(Seq<char>, Seq<T>)>,
    key: Seq<char>,
    value: T,
    max_len: nat,
)
    requires
        disks_wf(disks, max_len),
    ensures
        disks_wf(record_disk_sample(disks, key, value, max_len), max_len),
{
    let r = record_disk_sample(disks, key, value, max_len);
    if exists|i: int| 0 <= i < disks.len() && disks[i].0 == key {
        lemma_first_key_exists(disks, key);
        let i = choose|i: int| is_first_key(disks, key, i);
        lemma_push_capped_bounded(disks[i].1, value, max_len);
        assert forall|a: int| 0 <= a < r.len() implies #[trigger] r[a].1.len() <= max_len by {
            if a != i {
                assert(r[a] == disks[a]);
            }
        }
    } else {
        lemma_push_capped_bounded(Seq::<T>::empty(), value, max_len);
        assert forall|a: int| 0 <= a < r.len() implies #[trigger] r[a].1.len() <= max_len by {
            if a < disks.len() {
                assert(r[a] == disks[a]);
            }
        }
    }
}

/// Pushes `value` onto the history held under `key`, or appends a new entry
/// for `key` when there is none.
fn record_sample<T>(disks: &mut Vec<DiskHistory<T>>, key: String, value: T, max_len: usize)
    ensures
        disks_view(final(disks)@) == record_disk_sample(
            disks_view(old(disks)@),
            key@,
            value,
            max_len as nat,
        ),
{
    let ghost dv = disks_view(disks@);
    let ghost kv = key@;
    let kc = chars_of(key.as_str());
    let mut g: usize = 0;
    while g < disks.len() && !same_chars(&chars_of(disks[g].key.as_str()), &kc)
        invariant
            g <= disks@.len(),
            dv == disks_view(disks@),
            kc@ == kv,
            forall|h: int| 0 <= h < g ==> dv[h].0 != kv,
        decreases disks@.len() - g,
    {
        g += 1;
    }
    if g < disks.len() {
        proof {
            assert(is_first_key(dv, kv, g as int));
            lemma_first_key_unique(dv, kv, g as int);
        }
        SystemMonitor::push_history(&mut disks[g].history, value, max_len);
        assert(disks_view(disks@) =~= dv.update(
            g as int,
            (kv, push_capped(dv[g as int].1, value, max_len as nat)),
        ));
    } else {
        let mut h: VecDeque<T> = VecDeque::with_capacity(MAX_HISTORY);
        SystemMonitor::push_history(&mut h, value, max_len);
        disks.push(DiskHistory { key, history: h });
        assert(disks_view(disks@) =~= dv.push((kv, push_capped(Seq::<T>::empty(), value, max_len as nat))));
    }
}

/// Records per-disk active-time samples.
///
/// `mount_points` are the mount points of the mounted volumes (such as
/// `"C:\\"`); their uppercased two-character drive prefixes are the drive
/// letters that can be shown. For each sample, in order, the instance's
/// drive letters that belong to a mounted volume are joined with spaces into
/// the disk's key; a sample with none is skipped. A key seen for the first
/// time is appended to the display order with a new history; every history
/// is capped at `max_history`.
pub fn refresh_disk<T: Copy>(
    app: &mut SystemMonitor<T>,
    mount_points: &Vec<String>,
    samples: &Vec<DiskSample<T>>,
)
    ensures
        final(app)@ == old(app)@.with_disks(
            apply_disk_samples(
                old(app)@.disks,
                known_drive_keys(strings_view(mount_points@)),
                samples@,
                old(app)@.max_history,
            ),
        ),
        old(app)@.wf() ==> final(app)@.wf(),
        old(app)@.disks.len() <= final(app)@.disks.len(),
        forall|i: int|
            0 <= i < old(app)@.disks.len() ==> #[trigger] final(app)@.disks[i].0 == old(
                app,
            )@.disks[i].0,
{
    let known = drive_keys(mount_points);
    let ghost ks = known_drive_keys(strings_view(mount_points@));
    let ghost start = old(app)@;
    let max = app.max_history;
    let mut i: usize = 0;
    assert(samples@.take(0) =~= Seq::<DiskSample<T>>::empty());
    assert(app@ =~= start.with_disks(start.disks));
    while i < samples.len()
        invariant
            i <= samples@.len(),
            max == app.max_history,
            start == old(app)@,
            max == start.max_history,
            forall|k: Seq<char>| strings_view(known@).contains(k) <==> ks.contains(k),
            app@ == start.with_disks(
                apply_disk_samples(start.disks, ks, samples@.take(i as int), max as nat),
            ),
            start.wf() ==> disks_wf(app@.disks, max as nat),
        decreases samples@.len() - i,
    {
        assert(samples@.take(i + 1).drop_last() =~= samples@.take(i as int));
        assert(samples@.take(i + 1).last() == samples@[i as int]);
        let letters = pdh_instance_to_drive_letters(samples[i].instance.as_str());
        let ghost lv = strings_view(letters@);
        let mut mapped: Vec<String> = Vec::new();
        let mut j: usize = 0;
        assert(lv.take(0) =~= Seq::<Seq<char>>::empty());
        while j < letters.len()
            invariant
                j <= letters@.len(),
                lv == strings_view(letters@),
                forall|k: Seq<char>| strings_view(known@).contains(k) <==> ks.contains(k),
                strings_view(mapped@) == known_letters(lv.take(j as int), ks),
            decreases letters@.len() - j,
        {
            let ghost before = strings_view(mapped@);
            assert(lv.take(j + 1).drop_last() =~= lv.take(j as int));
            assert(lv.take(j + 1).last() == lv[j as int]);
            let lc = chars_of(letters[j].as_str());
            if holds_string(&known, &lc) {
                mapped.push(letters[j].clone());
                assert(strings_view(mapped@) =~= before.push(lv[j as int]));
            }
            j += 1;
        }
        assert(lv.take(j as int) =~= lv);
        let ghost prev = app@.disks;
        if mapped.len() > 0 {
            let key = join_parts(&mapped);
            let v = samples[i].active_pct;
            record_sample(&mut app.disk_active_histories, key, v, max);
            proof {
                if start.wf() {
                    lemma_record_keeps_wf(prev, key@, v, max as nat);
                }
            }
        }
        assert(app@ =~= start.with_disks(
            apply_disk_samples(start.disks, ks, samples@.take(i + 1), max as nat),
        ));
        i += 1;
    }
    assert(samples@.take(i as int) =~= samples@);
    proof {
        lemma_disk_order_kept(start.disks, ks, samples@, max as nat);
    }
}

} // verus!
