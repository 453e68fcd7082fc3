use vstd::prelude::*;

verus! {

/// What `str::to_uppercase` returns for a string with the given characters.
pub uninterp spec fn uppercase_of(s: Seq<char>) -> Seq<char>;

/// What `str::to_lowercase` returns for a string with the given characters.
pub uninterp spec fn lowercase_of(s: Seq<char>) -> Seq<char>;

/// `str::to_uppercase`: the contract only ties the result to the input through
/// `uppercase_of`; the Unicode case mapping itself is left unstated.
#[verifier::external_body]
pub(crate) fn to_uppercase(s: &str) -> (res: String)
    ensures
        res@ == uppercase_of(s@),
{
    s.to_uppercase()
}

/// `str::to_lowercase`: the contract only ties the result to the input through
/// `lowercase_of`; the Unicode case mapping itself is left unstated.
#[verifier::external_body]
pub(crate) fn to_lowercase(s: &str) -> (res: String)
    ensures
        res@ == lowercase_of(s@),
{
    s.to_lowercase()
}

/// `String::push`: appends one character at the end.
#[verifier::external_body]
pub(crate) fn push_char(s: &mut String, c: char)
    ensures
        final(s)@ == old(s)@.push(c),
{
    s.push(c)
}

/// The characters of `s`, in order.
pub fn chars_of(s: &str) -> (res: Vec<char>)
    ensures
        res@ == s@,
{
    let mut res: Vec<char> = Vec::new();
    for c in it: s.chars()
        invariant
            res@ == it.seq().take(it.index()),
    {
        res.push(c);
    }
    res
}

/// The characters `v[lo..hi]` as a `String`.
pub fn string_of(v: &Vec<char>, lo: usize, hi: usize) -> (res: String)
    requires
        lo <= hi <= v@.len(),
    ensures
        res@ == v@.subrange(lo as int, hi as int),
{
    let mut res = String::new();
    let mut k = lo;
    while k < hi
        invariant
            lo <= k <= hi <= v@.len(),
            res@ == v@.subrange(lo as int, k as int),
        decreases hi - k,
    {
        push_char(&mut res, v[k]);
        assert(v@.subrange(lo as int, k + 1) =~= v@.subrange(lo as int, k as int).push(v@[k as int]));
        k += 1;
    }
    res
}

/// The views of a sequence of strings.
pub open spec fn strings_view(v: Seq<String>) -> Seq<Seq<char>> {
    v.map_values(|s: String| s@)
}

/// `char::is_whitespace`: membership in the Unicode `White_Space` property.
pub open spec fn is_unicode_whitespace(c: char) -> bool {
    let u = c as u32;
    ||| 0x9 <= u && u <= 0xD
    ||| u == 0x20
    ||| u == 0x85
    ||| u == 0xA0
    ||| u == 0x1680
    ||| 0x2000 <= u && u <= 0x200A
    ||| u == 0x2028
    ||| u == 0x2029
    ||| u == 0x202F
    ||| u == 0x205F
    ||| u == 0x3000
}

/// Whether `c` is a Unicode whitespace character.
pub fn is_whitespace(c: char) -> (res: bool)
    ensures
        res == is_unicode_whitespace(c),
{
    let u = c as u32;
    (0x9 <= u && u <= 0xD) || u == 0x20 || u == 0x85 || u == 0xA0 || u == 0x1680 || (0x2000 <= u
        && u <= 0x200A) || u == 0x2028 || u == 0x2029 || u == 0x202F || u == 0x205F || u == 0x3000
}

/// One past the last index of the run of non-whitespace characters that
/// starts at `i`.
pub open spec fn token_end(s: Seq<char>, i: int) -> int
    decreases s.len() - i,
{
    if i >= s.len() || is_unicode_whitespace(s[i]) {
        i
    } else {
        token_end(s, i + 1)
    }
}

/// A token run starts at `i`, stays within `s` and holds no whitespace.
pub proof fn lemma_token_end_bounds(s: Seq<char>, i: int)
    requires
        i <= s.len(),
    ensures
        i <= token_end(s, i) <= s.len(),
        forall|k: int| i <= k < token_end(s, i) ==> !is_unicode_whitespace(#[trigger] s[k]),
    decreases s.len() - i,
{
    if i < s.len() && !is_unicode_whitespace(s[i]) {
        lemma_token_end_bounds(s, i + 1);
    }
}

/// The maximal runs of non-whitespace characters of `s` that start at or
/// after index `i`, in order.
pub open spec fn tokens_from(s: Seq<char>, i: int) -> Seq<Seq<char>>
    decreases s.len() - i,
{
    if i >= s.len() {
        seq![]
    } else if is_unicode_whitespace(s[i]) {
        tokens_from(s, i + 1)
    } else {
        let e = token_end(s, i + 1);
        proof {
            lemma_token_end_bounds(s, i + 1);
        }
        seq![s.subrange(i, e)] + tokens_from(s, e)
    }
}

/// What `str::split_whitespace` yields: the maximal runs of non-whitespace
/// characters, in order.
pub open spec fn whitespace_tokens(s: Seq<char>) -> Seq<Seq<char>> {
    tokens_from(s, 0)
}

/// The whitespace-separated tokens of `v`.
pub fn split_whitespace(v: &Vec<char>) -> (res: Vec<String>)
    ensures
        strings_view(res@) == whitespace_tokens(v@),
{
    let n = v.len();
    let mut res: Vec<String> = Vec::new();
    let mut i: usize = 0;
    while i < n
        invariant
            n == v@.len(),
            i <= n,
            strings_view(res@) + tokens_from(v@, i as int) == whitespace_tokens(v@),
        decreases n - i,
    {
        if is_whitespace(v[i]) {
            i += 1;
        } else {
            let mut j: usize = i + 1;
            proof {
                lemma_token_end_bounds(v@, (i + 1) as int);
            }
            while j < n && !is_whitespace(v[j])
                invariant
                    n == v@.len(),
                    i < j <= n,
                    token_end(v@, (i + 1) as int) == token_end(v@, j as int),
                decreases n - j,
            {
                j += 1;
            }
            let tok = string_of(v, i, j);
            let ghost before = strings_view(res@);
            res.push(tok);
            assert(strings_view(res@) =~= before.push(tok@));
            assert(strings_view(res@) + tokens_from(v@, j as int) =~= before + tokens_from(
                v@,
                i as int,
            ));
            i = j;
        }
    }
    assert(strings_view(res@) + tokens_from(v@, n as int) =~= strings_view(res@));
    res
}

/// `p` occurs in `s` at index `i`.
pub open spec fn matches_at(s: Seq<char>, p: Seq<char>, i: int) -> bool {
    0 <= i && i + p.len() <= s.len() && s.subrange(i, i + p.len()) == p
}

/// `p` occurs somewhere in `s`.
pub open spec fn contains_seq(s: Seq<char>, p: Seq<char>) -> bool {
    exists|i: int| matches_at(s, p, i)
}

/// Whether `p` occurs in `s` at index `i`.
pub fn match_at(s: &Vec<char>, p: &Vec<char>, i: usize) -> (res: bool)
    ensures
        res == matches_at(s@, p@, i as int),
{
    if i > s.len() || p.len() > s.len() - i {
        return false;
    }
    let mut k: usize = 0;
    while k < p.len()
        invariant
            i + p@.len() <= s@.len() <= usize::MAX,
            k <= p@.len(),
            forall|m: int| 0 <= m < k ==> s@[i + m] == p@[m],
        decreases p@.len() - k,
    {
        if s[i + k] != p[k] {
            assert(s@.subrange(i as int, i + p@.len())[k as int] != p@[k as int]);
            return false;
        }
        k += 1;
    }
    assert(s@.subrange(i as int, i + p@.len()) =~= p@);
    true
}

/// The first index at which `p` occurs in `s`, if any.
pub fn find_seq(s: &Vec<char>, p: &Vec<char>) -> (res: Option<usize>)
    ensures
        res matches Some(i) ==> matches_at(s@, p@, i as int) && forall|j: int|
            0 <= j < i ==> !matches_at(s@, p@, j),
        res is None ==> !contains_seq(s@, p@),
{
    let mut i: usize = 0;
    while i < s.len()
        invariant
            i <= s@.len(),
            forall|j: int| 0 <= j < i ==> !matches_at(s@, p@, j),
        decreases s@.len() - i,
    {
        if match_at(s, p, i) {
            return Some(i);
        }
        i += 1;
    }
    if match_at(s, p, i) {
        return Some(i);
    }
    assert forall|j: int| !matches_at(s@, p@, j) by {
        if 0 <= j && j <= i {
        }
    }
    None
}

/// Whether `p` occurs anywhere in `s`.
pub fn contains(s: &Vec<char>, p: &Vec<char>) -> (res: bool)
    ensures
        res == contains_seq(s@, p@),
{
    find_seq(s, p).is_some()
}


/// `c` occurs in `s`.
pub open spec fn has_char(s: Seq<char>, c: char) -> bool {
    exists|i: int| 0 <= i < s.len() && s[i] == c
}

/// `k` is the index of the first `c` in `s`.
pub open spec fn is_first_char(s: Seq<char>, c: char, k: int) -> bool {
    &&& 0 <= k < s.len()
    &&& s[k] == c
    &&& forall|j: int| 0 <= j < k ==> s[j] != c
}

/// The index of the first `c` in `s` (meaningful when `has_char(s, c)`).
pub open spec fn first_char_index(s: Seq<char>, c: char) -> int {
    choose|k: int| is_first_char(s, c, k)
}

/// A first occurrence found is the one `first_char_index` names.
pub proof fn lemma_first_char_index(s: Seq<char>, c: char, k: int)
    requires
        is_first_char(s, c, k),
    ensures
        has_char(s, c),
        first_char_index(s, c) == k,
{
    let f = first_char_index(s, c);
    assert(is_first_char(s, c, f));
    if f < k {
        assert(s[f] != c);
    } else if k < f {
        assert(s[k] != c);
    }
}

/// `k` is the index of the first occurrence of `p` in `s`.
pub open spec fn is_first_match(s: Seq<char>, p: Seq<char>, k: int) -> bool {
    &&& matches_at(s, p, k)
    &&& forall|j: int| 0 <= j < k ==> !matches_at(s, p, j)
}

/// The index of the first occurrence of `p` in `s` (meaningful when
/// `contains_seq(s, p)`).
pub open spec fn first_match_index(s: Seq<char>, p: Seq<char>) -> int {
    choose|k: int| is_first_match(s, p, k)
}

/// A first occurrence found is the one `first_match_index` names.
pub proof fn lemma_first_match_index(s: Seq<char>, p: Seq<char>, k: int)
    requires
        is_first_match(s, p, k),
    ensures
        contains_seq(s, p),
        first_match_index(s, p) == k,
{
    let f = first_match_index(s, p);
    assert(is_first_match(s, p, f));
    if f < k {
        assert(!matches_at(s, p, f));
    } else if k < f {
        assert(!matches_at(s, p, k));
    }
}

/// The first index at or after `from` that holds `c`, if any.
pub fn find_char_from(v: &Vec<char>, c: char, from: usize) -> (res: Option<usize>)
    requires
        from <= v@.len(),
    ensures
        res matches Some(k) ==> from <= k < v@.len() && v@[k as int] == c && forall|j: int|
            from <= j < k ==> v@[j] != c,
        res is None ==> forall|j: int| from <= j < v@.len() ==> v@[j] != c,
{
    let mut k = from;
    while k < v.len()
        invariant
            from <= k <= v@.len(),
            forall|j: int| from <= j < k ==> v@[j] != c,
        decreases v@.len() - k,
    {
        if v[k] == c {
            return Some(k);
        }
        k += 1;
    }
    None
}

/// Whether `a` and `b` hold the same characters.
pub fn same_chars(a: &Vec<char>, b: &Vec<char>) -> (res: bool)
    ensures
        res == (a@ == b@),
{
    if a.len() != b.len() {
        return false;
    }
    let r = match_at(a, b, 0);
    assert(r ==> a@.subrange(0, b@.len() as int) =~= a@);
    if !r {
        assert(!matches_at(a@, b@, 0));
        assert(a@ != b@) by {
            if a@ == b@ {
                assert(a@.subrange(0, b@.len() as int) =~= b@);
            }
        }
    }
    r
}


/// Code-point lexicographic order on strings. UTF-8 preserves code-point
/// order, so this is the byte-wise order that `String`'s `Ord` uses (see
/// `lemma_lex_lt_is_utf8_order`).
pub open spec fn lex_lt(a: Seq<char>, b: Seq<char>) -> bool
    decreases a.len(),
{
    if a.len() == 0 {
        b.len() > 0
    } else if b.len() == 0 {
        false
    } else if a[0] != b[0] {
        (a[0] as u32) < (b[0] as u32)
    } else {
        lex_lt(a.drop_first(), b.drop_first())
    }
}

/// `lex_lt` is irreflexive and asymmetric.
pub proof fn lemma_lex_asym(a: Seq<char>, b: Seq<char>)
    ensures
        lex_lt(a, b) ==> !lex_lt(b, a),
        !lex_lt(a, a),
    decreases a.len(),
{
    if a.len() > 0 && b.len() > 0 && a[0] == b[0] {
        lemma_lex_asym(a.drop_first(), b.drop_first());
    }
    if a.len() > 0 {
        lemma_lex_asym(a.drop_first(), a.drop_first());
    }
}

/// `lex_lt` is transitive.
pub proof fn lemma_lex_trans(a: Seq<char>, b: Seq<char>, c: Seq<char>)
    requires
        lex_lt(a, b),
        lex_lt(b, c),
    ensures
        lex_lt(a, c),
    decreases a.len(),
{
    if a.len() > 0 && b.len() > 0 && c.len() > 0 && a[0] == b[0] && b[0] == c[0] {
        lemma_lex_trans(a.drop_first(), b.drop_first(), c.drop_first());
    }
}

/// Two different strings are ordered one way or the other.
pub proof fn lemma_lex_total(a: Seq<char>, b: Seq<char>)
    requires
        a != b,
    ensures
        lex_lt(a, b) || lex_lt(b, a),
    decreases a.len(),
{
    if a.len() == 0 && b.len() == 0 {
        assert(a =~= b);
    }
    if a.len() > 0 && b.len() > 0 && a[0] != b[0] {
        vstd::utf8::char_u32_cast(a[0], a[0] as u32);
        vstd::utf8::char_u32_cast(b[0], b[0] as u32);
        assert((a[0] as u32) != (b[0] as u32));
    }
    if a.len() > 0 && b.len() > 0 && a[0] == b[0] {
        if a.drop_first() == b.drop_first() {
            assert(a =~= seq![a[0]] + a.drop_first());
            assert(b =~= seq![b[0]] + b.drop_first());
        }
        lemma_lex_total(a.drop_first(), b.drop_first());
    }
}

/// Whether `a` comes strictly before `b` in code-point lexicographic order.
pub fn lex_less(a: &Vec<char>, b: &Vec<char>) -> (res: bool)
    ensures
        res == lex_lt(a@, b@),
{
    let mut k: usize = 0;
    assert(a@.skip(0) =~= a@);
    assert(b@.skip(0) =~= b@);
    while k < a.len() && k < b.len() && a[k] == b[k]
        invariant
            k <= a@.len(),
            k <= b@.len(),
            lex_lt(a@, b@) == lex_lt(a@.skip(k as int), b@.skip(k as int)),
        decreases a@.len() - k,
    {
        assert(a@.skip(k as int).drop_first() =~= a@.skip(k + 1));
        assert(b@.skip(k as int).drop_first() =~= b@.skip(k + 1));
        k += 1;
    }
    if k == a.len() {
        k < b.len()
    } else if k == b.len() {
        false
    } else {
        (a[k] as u32) < (b[k] as u32)
    }
}

/// The strings of `s` ascend strictly in `lex_lt` order.
pub open spec fn strictly_sorted(s: Seq<Seq<char>>) -> bool {
    forall|i: int, j: int| 0 <= i < j < s.len() ==> lex_lt(s[i], s[j])
}

/// Two strictly ascending lists with the same elements are the same list.
pub proof fn lemma_strictly_sorted_unique(a: Seq<Seq<char>>, b: Seq<Seq<char>>)
    requires
        strictly_sorted(a),
        strictly_sorted(b),
        forall|k: Seq<char>| a.contains(k) <==> b.contains(k),
    ensures
        a == b,
    decreases a.len(),
{
    if a.len() == 0 {
        if b.len() > 0 {
            assert(b.contains(b[0]));
        }
        assert(a =~= b);
    } else if b.len() == 0 {
        assert(a.contains(a[0]));
    } else {
        assert(a.contains(a[0]));
        assert(b.contains(b[0]));
        let ia = choose|i: int| 0 <= i < a.len() && a[i] == b[0];
        let ib = choose|i: int| 0 <= i < b.len() && b[i] == a[0];
        if a[0] != b[0] {
            assert(ia > 0 && ib > 0);
            assert(lex_lt(a[0], b[0]));
            assert(lex_lt(b[0], a[0]));
            lemma_lex_asym(a[0], b[0]);
        }
        let ta = a.drop_first();
        let tb = b.drop_first();
        assert forall|k: Seq<char>| ta.contains(k) <==> tb.contains(k) by {
            if ta.contains(k) {
                let i = choose|i: int| 0 <= i < ta.len() && ta[i] == k;
                assert(a[i + 1] == k);
                lemma_lex_asym(a[0], k);
                assert(b.contains(k));
                let j = choose|j: int| 0 <= j < b.len() && b[j] == k;
                if j == 0 {
                    assert(lex_lt(a[0], a[i + 1]));
                }
                assert(tb[j - 1] == k);
            }
            if tb.contains(k) {
                let i = choose|i: int| 0 <= i < tb.len() && tb[i] == k;
                assert(b[i + 1] == k);
                lemma_lex_asym(b[0], k);
                assert(a.contains(k));
                let j = choose|j: int| 0 <= j < a.len() && a[j] == k;
                if j == 0 {
                    assert(lex_lt(b[0], b[i + 1]));
                }
                assert(ta[j - 1] == k);
            }
        }
        lemma_strictly_sorted_unique(ta, tb);
        assert(a =~= seq![a[0]] + ta);
        assert(b =~= seq![b[0]] + tb);
    }
}


/// Lexicographic order on byte strings: the order of `[u8]`, and of `str`
/// and `String` through their UTF-8 bytes.
pub open spec fn bytes_lt(a: Seq<u8>, b: Seq<u8>) -> bool
    decreases a.len(),
{
    if a.len() == 0 {
        b.len() > 0
    } else if b.len() == 0 {
        false
    } else if a[0] != b[0] {
        a[0] < b[0]
    } else {
        bytes_lt(a.drop_first(), b.drop_first())
    }
}

proof fn lemma_bytes_lt_asym(a: Seq<u8>, b: Seq<u8>)
    ensures
        bytes_lt(a, b) ==> !bytes_lt(b, a),
    decreases a.len(),
{
    if a.len() > 0 && b.len() > 0 && a[0] == b[0] {
        lemma_bytes_lt_asym(a.drop_first(), b.drop_first());
    }
}

proof fn lemma_bytes_lt_common_prefix(p: Seq<u8>, x: Seq<u8>, y: Seq<u8>)
    ensures
        bytes_lt(p + x, p + y) == bytes_lt(x, y),
    decreases p.len(),
{
    if p.len() == 0 {
        assert(p + x =~= x);
        assert(p + y =~= y);
    } else {
        assert((p + x).drop_first() =~= p.drop_first() + x);
        assert((p + y).drop_first() =~= p.drop_first() + y);
        lemma_bytes_lt_common_prefix(p.drop_first(), x, y);
    }
}

proof fn lemma_bytes_lt_first_difference(x: Seq<u8>, y: Seq<u8>, k: int)
    requires
        0 <= k < x.len(),
        k < y.len(),
        x[k] != y[k],
        forall|j: int| 0 <= j < k ==> x[j] == y[j],
    ensures
        bytes_lt(x, y) == (x[k] < y[k]),
    decreases k,
{
    if k > 0 {
        lemma_bytes_lt_first_difference(x.drop_first(), y.drop_first(), k - 1);
    }
}

/// The UTF-8 encodings of two scalars are ordered as the scalars are, and
/// the first byte where they differ lies within both, so whatever follows
/// either encoding does not matter.
proof fn lemma_encode_scalar_order(c: u32, d: u32, x: Seq<u8>, y: Seq<u8>)
    requires
        vstd::utf8::is_scalar(c),
        vstd::utf8::is_scalar(d),
        c < d,
    ensures
        bytes_lt(vstd::utf8::encode_scalar(c) + x, vstd::utf8::encode_scalar(d) + y),
{
    let ec = vstd::utf8::encode_scalar(c);
    let ed = vstd::utf8::encode_scalar(d);
    let u = ec + x;
    let v = ed + y;
    if c <= 0x7F {
        if d <= 0x7F {
            assert(c <= 0x7F && d <= 0x7F && c < d ==> ((c & 0x7F) as u8) < ((d & 0x7F) as u8))
                by (bit_vector);
        } else if d <= 0x7FF {
            assert(c <= 0x7F ==> ((c & 0x7F) as u8) < (0xC0u8 | ((d >> 6) & 0x1F) as u8))
                by (bit_vector);
        } else if d <= 0xFFFF {
            assert(c <= 0x7F ==> ((c & 0x7F) as u8) < (0xE0u8 | ((d >> 12) & 0x0F) as u8))
                by (bit_vector);
        } else {
            assert(c <= 0x7F ==> ((c & 0x7F) as u8) < (0xF0u8 | ((d >> 18) & 0x7) as u8))
                by (bit_vector);
        }
        lemma_bytes_lt_first_difference(u, v, 0);
    } else if c <= 0x7FF {
        if d <= 0x7FF {
            if (c >> 6) == (d >> 6) {
                assert((c >> 6) == (d >> 6) ==> (0xC0u8 | ((c >> 6) & 0x1F) as u8) == (0xC0u8 | ((d
                    >> 6) & 0x1F) as u8)) by (bit_vector);
                assert(c < d && (c >> 6) == (d >> 6) ==> (0x80u8 | (c & 0x3F) as u8) < (0x80u8 | (d
                    & 0x3F) as u8)) by (bit_vector);
                lemma_bytes_lt_first_difference(u, v, 1);
            } else {
                assert(0x80 <= c && c <= 0x7FF && d <= 0x7FF && c < d && (c >> 6) != (d >> 6) ==> (
                0xC0u8 | ((c >> 6) & 0x1F) as u8) < (0xC0u8 | ((d >> 6) & 0x1F) as u8))
                    by (bit_vector);
                lemma_bytes_lt_first_difference(u, v, 0);
            }
        } else if d <= 0xFFFF {
            assert(c <= 0x7FF && 0x800 <= d ==> (0xC0u8 | ((c >> 6) & 0x1F) as u8) < (0xE0u8 | ((d
                >> 12) & 0x0F) as u8)) by (bit_vector);
            lemma_bytes_lt_first_difference(u, v, 0);
        } else {
            assert(c <= 0x7FF ==> (0xC0u8 | ((c >> 6) & 0x1F) as u8) < (0xF0u8 | ((d >> 18) & 0x7)
                as u8)) by (bit_vector);
            lemma_bytes_lt_first_difference(u, v, 0);
        }
    } else if c <= 0xFFFF {
        if d <= 0xFFFF {
            if (c >> 12) != (d >> 12) {
                assert(0x800 <= c && c <= 0xFFFF && d <= 0xFFFF && c < d && (c >> 12) != (d >> 12)
                    ==> (0xE0u8 | ((c >> 12) & 0x0F) as u8) < (0xE0u8 | ((d >> 12) & 0x0F) as u8))
                    by (bit_vector);
                lemma_bytes_lt_first_difference(u, v, 0);
            } else if ((c >> 6) & 0x3F) != ((d >> 6) & 0x3F) {
                assert((c >> 12) == (d >> 12) ==> (0xE0u8 | ((c >> 12) & 0x0F) as u8) == (0xE0u8 | ((d
                    >> 12) & 0x0F) as u8)) by (bit_vector);
                assert(c < d && (c >> 12) == (d >> 12) && ((c >> 6) & 0x3F) != ((d >> 6) & 0x3F) ==> (
                0x80u8 | ((c >> 6) & 0x3F) as u8) < (0x80u8 | ((d >> 6) & 0x3F) as u8))
                    by (bit_vector);
                lemma_bytes_lt_first_difference(u, v, 1);
            } else {
                assert((c >> 12) == (d >> 12) ==> (0xE0u8 | ((c >> 12) & 0x0F) as u8) == (0xE0u8 | ((d
                    >> 12) & 0x0F) as u8)) by (bit_vector);
                assert(((c >> 6) & 0x3F) == ((d >> 6) & 0x3F) ==> (0x80u8 | ((c >> 6) & 0x3F) as u8)
                    == (0x80u8 | ((d >> 6) & 0x3F) as u8)) by (bit_vector);
                assert(c < d && (c >> 12) == (d >> 12) && ((c >> 6) & 0x3F) == ((d >> 6) & 0x3F) ==> (
                0x80u8 | (c & 0x3F) as u8) < (0x80u8 | (d & 0x3F) as u8)) by (bit_vector);
                lemma_bytes_lt_first_difference(u, v, 2);
            }
        } else {
            assert(c <= 0xFFFF ==> (0xE0u8 | ((c >> 12) & 0x0F) as u8) < (0xF0u8 | ((d >> 18) & 0x7)
                as u8)) by (bit_vector);
            lemma_bytes_lt_first_difference(u, v, 0);
        }
    } else {
        if (c >> 18) != (d >> 18) {
            assert(0x10000 <= c && c < d && d <= 0x10FFFF && (c >> 18) != (d >> 18) ==> (0xF0u8 | ((c
                >> 18) & 0x7) as u8) < (0xF0u8 | ((d >> 18) & 0x7) as u8)) by (bit_vector);
            lemma_bytes_lt_first_difference(u, v, 0);
        } else {
            assert((c >> 18) == (d >> 18) ==> (0xF0u8 | ((c >> 18) & 0x7) as u8) == (0xF0u8 | ((d
                >> 18) & 0x7) as u8)) by (bit_vector);
            if ((c >> 12) & 0x3F) != ((d >> 12) & 0x3F) {
                assert(c < d && (c >> 18) == (d >> 18) && ((c >> 12) & 0x3F) != ((d >> 12) & 0x3F)
                    ==> (0x80u8 | ((c >> 12) & 0x3F) as u8) < (0x80u8 | ((d >> 12) & 0x3F) as u8))
                    by (bit_vector);
                lemma_bytes_lt_first_difference(u, v, 1);
            } else {
                assert(((c >> 12) & 0x3F) == ((d >> 12) & 0x3F) ==> (0x80u8 | ((c >> 12) & 0x3F) as u8)
                    == (0x80u8 | ((d >> 12) & 0x3F) as u8)) by (bit_vector);
                if ((c >> 6) & 0x3F) != ((d >> 6) & 0x3F) {
                    assert(c < d && (c >> 18) == (d >> 18) && ((c >> 12) & 0x3F) == ((d >> 12) & 0x3F)
                        && ((c >> 6) & 0x3F) != ((d >> 6) & 0x3F) ==> (0x80u8 | ((c >> 6) & 0x3F) as u8)
                        < (0x80u8 | ((d >> 6) & 0x3F) as u8)) by (bit_vector);
                    lemma_bytes_lt_first_difference(u, v, 2);
                } else {
                    assert(((c >> 6) & 0x3F) == ((d >> 6) & 0x3F) ==> (0x80u8 | ((c >> 6) & 0x3F) as u8)
                        == (0x80u8 | ((d >> 6) & 0x3F) as u8)) by (bit_vector);
                    assert(c < d && (c >> 18) == (d >> 18) && ((c >> 12) & 0x3F) == ((d >> 12) & 0x3F)
                        && ((c >> 6) & 0x3F) == ((d >> 6) & 0x3F) ==> (0x80u8 | (c & 0x3F) as u8) < (
                    0x80u8 | (d & 0x3F) as u8)) by (bit_vector);
                    lemma_bytes_lt_first_difference(u, v, 3);
                }
            }
        }
    }
}

/// The code-point order `lex_lt` is the byte-wise order of the UTF-8
/// encodings, i.e. the order in which `String`'s `Ord` (and so `sort`)
/// puts strings.
pub proof fn lemma_lex_lt_is_utf8_order(a: Seq<char>, b: Seq<char>)
    ensures
        lex_lt(a, b) == bytes_lt(vstd::utf8::encode_utf8(a), vstd::utf8::encode_utf8(b)),
    decreases a.len(),
{
    let ea = vstd::utf8::encode_utf8(a);
    let eb = vstd::utf8::encode_utf8(b);
    if a.len() == 0 {
        if b.len() > 0 {
            vstd::utf8::char_is_scalar(b[0]);
            assert(eb == vstd::utf8::encode_scalar(b[0] as u32) + vstd::utf8::encode_utf8(
                b.drop_first(),
            ));
        }
    } else if b.len() == 0 {
    } else {
        vstd::utf8::char_is_scalar(a[0]);
        vstd::utf8::char_is_scalar(b[0]);
        let ca = a[0] as u32;
        let cb = b[0] as u32;
        let ra = vstd::utf8::encode_utf8(a.drop_first());
        let rb = vstd::utf8::encode_utf8(b.drop_first());
        assert(ea == vstd::utf8::encode_scalar(ca) + ra);
        assert(eb == vstd::utf8::encode_scalar(cb) + rb);
        if a[0] == b[0] {
            lemma_lex_lt_is_utf8_order(a.drop_first(), b.drop_first());
            lemma_bytes_lt_common_prefix(vstd::utf8::encode_scalar(ca), ra, rb);
            assert(vstd::utf8::encode_scalar(ca) + ra =~= ea);
        } else {
            vstd::utf8::char_u32_cast(a[0], ca);
            vstd::utf8::char_u32_cast(b[0], cb);
            if ca < cb {
                lemma_encode_scalar_order(ca, cb, ra, rb);
            } else {
                lemma_encode_scalar_order(cb, ca, rb, ra);
                lemma_bytes_lt_asym(eb, ea);
            }
        }
    }
}

/// Appends the characters of `t` to `s`.
pub fn append_str(s: &mut String, t: &str)
    ensures
        final(s)@ == old(s)@ + t@,
{
    let tc = chars_of(t);
    let mut k: usize = 0;
    while k < tc.len()
        invariant
            k <= tc@.len(),
            tc@ == t@,
            s@ == old(s)@ + tc@.take(k as int),
        decreases tc@.len() - k,
    {
        push_char(s, tc[k]);
        assert(tc@.take(k + 1) =~= tc@.take(k as int).push(tc@[k as int]));
        k += 1;
    }
    assert(tc@.take(k as int) =~= tc@);
}

} // verus!
