use vstd::prelude::*;
use vstd::utf8::encode_utf8;

verus! {

/// The UTF-8 bytes of a file name.
pub open spec fn name_bytes(s: String) -> Seq<u8> {
    encode_utf8(s@)
}

/// Whether a file name ends in `.json`.
pub open spec fn is_json_name(b: Seq<u8>) -> bool {
    b.len() >= 5 && b.subrange(b.len() - 5, b.len() as int) == seq![46u8, 106u8, 115u8, 111u8, 110u8]
}

/// The index of the first `c` in `s`, or `s.len()` where there is none.
pub open spec fn find_byte(s: Seq<u8>, c: u8) -> nat
    decreases s.len(),
{
    if s.len() == 0 {
        0
    } else if s[0] == c {
        0
    } else {
        1 + find_byte(s.drop_first(), c)
    }
}

/// The second field of `b` split at `_`, if `b` holds a `_` at all.
pub open spec fn second_field(b: Seq<u8>) -> Option<Seq<u8>> {
    let i = find_byte(b, 95u8);
    if i == b.len() {
        None
    } else {
        let rest = b.subrange(i as int + 1, b.len() as int);
        Some(rest.subrange(0, find_byte(rest, 95u8) as int))
    }
}

pub open spec fn is_digit(c: u8) -> bool {
    48 <= c <= 57
}

pub open spec fn all_digits(d: Seq<u8>) -> bool {
    forall|i: int| 0 <= i < d.len() ==> is_digit(#[trigger] d[i])
}

/// The number that the decimal digits `d` write.
pub open spec fn digits_value(d: Seq<u8>) -> int
    decreases d.len(),
{
    if d.len() == 0 {
        0
    } else {
        digits_value(d.drop_last()) * 10 + (d.last() - 48)
    }
}

/// A `u32` written in decimal: an optional `+`, at least one digit, nothing
/// else, and a value that fits.
pub open spec fn parse_u32(t: Seq<u8>) -> Option<u32> {
    let d = if t.len() > 0 && t[0] == 43u8 { t.drop_first() } else { t };
    if d.len() > 0 && all_digits(d) && digits_value(d) <= u32::MAX {
        Some(digits_value(d) as u32)
    } else {
        None
    }
}

/// A file name without its `.json` extension, if it has one.
pub open spec fn map_stem(b: Seq<u8>) -> Seq<u8> {
    if is_json_name(b) {
        b.subrange(0, b.len() - 5)
    } else {
        b
    }
}

/// The number by which a map file is ordered: the second `_`-separated
/// field of its stem read as a `u32`, if that succeeds.
pub open spec fn map_number(b: Seq<u8>) -> Option<u32> {
    match second_field(map_stem(b)) {
        Some(t) => parse_u32(t),
        None => None,
    }
}

/// Byte-wise lexicographic order, strict: the order of `str`.
pub open spec fn lex_lt(a: Seq<u8>, b: Seq<u8>) -> bool
    decreases a.len(),
{
    if b.len() == 0 {
        false
    } else if a.len() == 0 {
        true
    } else if a[0] != b[0] {
        a[0] < b[0]
    } else {
        lex_lt(a.drop_first(), b.drop_first())
    }
}

/// Whether map file `a` may come before map file `b`: numbered names by
/// number, numbered before unnumbered, unnumbered names by their text.
pub open spec fn map_le(a: Seq<u8>, b: Seq<u8>) -> bool {
    match (map_number(a), map_number(b)) {
        (Some(x), Some(y)) => x <= y,
        (Some(_), None) => true,
        (None, Some(_)) => false,
        (None, None) => !lex_lt(b, a),
    }
}

/// Each name may come before the next one.
pub open spec fn maps_sorted(s: Seq<String>) -> bool {
    forall|i: int| 0 <= i < s.len() - 1 ==> map_le(name_bytes(#[trigger] s[i]), name_bytes(s[i + 1]))
}

/// The names of `s` that end in `.json`, in order.
pub open spec fn json_names(s: Seq<String>) -> Seq<String>
    decreases s.len(),
{
    if s.len() == 0 {
        s
    } else if is_json_name(name_bytes(s.last())) {
        json_names(s.drop_last()).push(s.last())
    } else {
        json_names(s.drop_last())
    }
}

proof fn lemma_find_byte(s: Seq<u8>, c: u8, i: int)
    requires
        0 <= i <= s.len(),
        forall|j: int| 0 <= j < i ==> s[j] != c,
        i == s.len() || s[i] == c,
    ensures
        find_byte(s, c) == i,
    decreases i,
{
    if i > 0 {
        assert forall|j: int| 0 <= j < i - 1 implies s.drop_first()[j] != c by {
            assert(s.drop_first()[j] == s[j + 1]);
        }
        lemma_find_byte(s.drop_first(), c, i - 1);
    }
}

/// The index of the first `c` in `b[lo..hi]`, or `hi`.
fn find_from(b: &[u8], lo: usize, hi: usize, c: u8) -> (r: usize)
    requires
        lo <= hi <= b@.len(),
    ensures
        r == lo + find_byte(b@.subrange(lo as int, hi as int), c),
        r <= hi,
{
    let mut i: usize = lo;
    while i < hi && b[i] != c
        invariant
            lo <= i <= hi <= b@.len(),
            forall|j: int| lo <= j < i ==> b@[j] != c,
        decreases hi - i,
    {
        i = i + 1;
    }
    let ghost s = b@.subrange(lo as int, hi as int);
    proof {
        assert forall|j: int| 0 <= j < i - lo implies s[j] != c by {
            assert(s[j] == b@[lo + j]);
        }
        lemma_find_byte(s, c, i - lo);
    }
    i
}

proof fn lemma_digits_value_nonneg(d: Seq<u8>)
    requires
        all_digits(d),
    ensures
        digits_value(d) >= 0,
    decreases d.len(),
{
    if d.len() > 0 {
        assert(all_digits(d.drop_last())) by {
            assert forall|i: int| 0 <= i < d.drop_last().len() implies is_digit(#[trigger] d.drop_last()[i]) by {
                assert(d.drop_last()[i] == d[i]);
            }
        }
        lemma_digits_value_nonneg(d.drop_last());
    }
}

/// A prefix of digits writes no larger a number than the whole.
proof fn lemma_digits_value_prefix(d: Seq<u8>, k: int)
    requires
        all_digits(d),
        0 <= k <= d.len(),
    ensures
        digits_value(d.subrange(0, k)) <= digits_value(d),
    decreases d.len(),
{
    if k < d.len() {
        let e = d.drop_last();
        assert(all_digits(e)) by {
            assert forall|i: int| 0 <= i < e.len() implies is_digit(#[trigger] e[i]) by {
                assert(e[i] == d[i]);
            }
        }
        lemma_digits_value_prefix(e, k);
        assert(e.subrange(0, k) =~= d.subrange(0, k));
        lemma_digits_value_nonneg(e);
        assert(is_digit(d[d.len() - 1]));
    } else {
        assert(d.subrange(0, k) =~= d);
    }
}

/// `parse_u32` of `b[lo..hi]`, as `str::parse::<u32>` reads it.
fn parse_field(b: &[u8], lo: usize, hi: usize) -> (r: Option<u32>)
    requires
        lo <= hi <= b@.len(),
    ensures
        r == parse_u32(b@.subrange(lo as int, hi as int)),
{
    let ghost t = b@.subrange(lo as int, hi as int);
    let mut start: usize = lo;
    if lo < hi && b[lo] == 43u8 {
        start = lo + 1;
    }
    let ghost d = b@.subrange(start as int, hi as int);
    assert(d =~= (if t.len() > 0 && t[0] == 43u8 { t.drop_first() } else { t }));
    if start == hi {
        return None;
    }
    let mut acc: u64 = 0;
    let mut i: usize = start;
    while i < hi
        invariant
            lo <= start <= i <= hi <= b@.len(),
            d == b@.subrange(start as int, hi as int),
            t == b@.subrange(lo as int, hi as int),
            d == (if t.len() > 0 && t[0] == 43u8 { t.drop_first() } else { t }),
            d.len() > 0,
            all_digits(d.subrange(0, i - start)),
            acc as int == digits_value(d.subrange(0, i - start)),
            acc <= u32::MAX,
        decreases hi - i,
    {
        let c = b[i];
        let ghost pre = d.subrange(0, i - start);
        let ghost next = d.subrange(0, i - start + 1);
        assert(next.drop_last() =~= pre);
        assert(next.last() == c);
        if c < 48u8 || c > 57u8 {
            assert(!all_digits(d)) by {
                assert(d[i - start] == c);
            }
            return None;
        }
        assert(all_digits(next)) by {
            assert forall|j: int| 0 <= j < next.len() implies is_digit(#[trigger] next[j]) by {
                if j < pre.len() {
                    assert(next[j] == pre[j]);
                }
            }
        }
        let v: u64 = acc * 10 + (c - 48u8) as u64;
        if v > 4294967295u64 {
            proof {
                if all_digits(d) {
                    lemma_digits_value_prefix(d, i - start + 1);
                }
            }
            return None;
        }
        acc = v;
        i = i + 1;
    }
    assert(d.subrange(0, i - start) =~= d);
    Some(acc as u32)
}

/// The number by which the map file `name` is ordered, if it has one.
pub fn number_of_map(name: &String) -> (r: Option<u32>)
    ensures
        r == map_number(name_bytes(*name)),
{
    let b = name.as_str().as_bytes();
    let n: usize = if is_map_file(name) { b.len() - 5 } else { b.len() };
    let ghost stem = b@.subrange(0, n as int);
    assert(stem =~= map_stem(b@));
    let i = find_from(b, 0, n, 95u8);
    if i == n {
        return None;
    }
    let j = find_from(b, i + 1, n, 95u8);
    let ghost rest = stem.subrange(i + 1, n as int);
    assert(rest =~= b@.subrange(i + 1, n as int));
    assert(rest.subrange(0, find_byte(rest, 95u8) as int) =~= b@.subrange(i + 1, j as int));
    parse_field(b, i + 1, j)
}

/// `a < b` in byte-wise lexicographic order.
fn bytes_lt(a: &[u8], b: &[u8]) -> (r: bool)
    ensures
        r == lex_lt(a@, b@),
{
    let mut i: usize = 0;
    assert(a@.subrange(0, a@.len() as int) =~= a@);
    assert(b@.subrange(0, b@.len() as int) =~= b@);
    while i < a.len() && i < b.len() && a[i] == b[i]
        invariant
            i <= a@.len(),
            i <= b@.len(),
            lex_lt(a@, b@) == lex_lt(a@.subrange(i as int, a@.len() as int), b@.subrange(i as int, b@.len() as int)),
        decreases a@.len() - i,
    {
        let ghost sa = a@.subrange(i as int, a@.len() as int);
        let ghost sb = b@.subrange(i as int, b@.len() as int);
        assert(sa.drop_first() =~= a@.subrange(i + 1, a@.len() as int));
        assert(sb.drop_first() =~= b@.subrange(i + 1, b@.len() as int));
        i = i + 1;
    }
    let ghost sa = a@.subrange(i as int, a@.len() as int);
    let ghost sb = b@.subrange(i as int, b@.len() as int);
    if i == b.len() {
        false
    } else if i == a.len() {
        true
    } else {
        assert(sa[0] == a@[i as int] && sb[0] == b@[i as int]);
        a[i] < b[i]
    }
}

/// Whether map file `a` may come before map file `b` in a listing.
pub fn map_precedes(a: &String, b: &String) -> (r: bool)
    ensures
        r == map_le(name_bytes(*a), name_bytes(*b)),
{
    match (number_of_map(a), number_of_map(b)) {
        (Some(x), Some(y)) => x <= y,
        (Some(_), None) => true,
        (None, Some(_)) => false,
        (None, None) => !bytes_lt(b.as_str().as_bytes(), a.as_str().as_bytes()),
    }
}

proof fn lemma_lex_asymmetric(a: Seq<u8>, b: Seq<u8>)
    ensures
        lex_lt(a, b) ==> !lex_lt(b, a),
    decreases a.len(),
{
    if a.len() > 0 && b.len() > 0 && a[0] == b[0] {
        lemma_lex_asymmetric(a.drop_first(), b.drop_first());
    }
}

/// Any two map files may come one before the other, in one order or both.
proof fn lemma_map_le_total(a: Seq<u8>, b: Seq<u8>)
    ensures
        map_le(a, b) || map_le(b, a),
{
    lemma_lex_asymmetric(a, b);
}

/// Inserting `x` after the names that may precede it keeps the order and
/// adds `x` to what the sequence holds.
proof fn lemma_insert_sorted(s: Seq<String>, p: int, x: String)
    requires
        0 <= p <= s.len(),
        maps_sorted(s),
        p == 0 || map_le(name_bytes(s[p - 1]), name_bytes(x)),
        forall|k: int| p <= k < s.len() ==> !map_le(name_bytes(#[trigger] s[k]), name_bytes(x)),
    ensures
        maps_sorted(s.insert(p, x)),
        s.insert(p, x).to_multiset() == s.to_multiset().insert(x),
{
    let t = s.insert(p, x);
    assert(t.remove(p) =~= s);
    assert(t[p] == x);
    t.to_multiset_ensures();
    assert(t.remove(p).to_multiset() == t.to_multiset().remove(t[p]));
    assert(t.contains(x));
    assert(t.to_multiset().count(x) > 0);
    assert(t.to_multiset() =~= s.to_multiset().insert(x)) by {
        broadcast use vstd::multiset::group_multiset_axioms;
    }
    assert forall|k: int| 0 <= k < t.len() - 1 implies
        map_le(name_bytes(#[trigger] t[k]), name_bytes(t[k + 1])) by {
        if k + 1 < p {
            assert(t[k] == s[k] && t[k + 1] == s[k + 1]);
        } else if k + 1 == p {
            assert(t[k] == s[k]);
        } else if k == p {
            assert(t[k + 1] == s[k]);
            lemma_map_le_total(name_bytes(s[k]), name_bytes(x));
        } else {
            assert(t[k] == s[k - 1] && t[k + 1] == s[k]);
        }
    }
}

/// The names in the order of a map listing: numbered names by number, then
/// the others by their text. The result holds the same names.
pub fn sort_maps(names: Vec<String>) -> (r: Vec<String>)
    ensures
        r@.to_multiset() == names@.to_multiset(),
        maps_sorted(r@),
{
    let mut r: Vec<String> = Vec::new();
    let mut i: usize = 0;
    assert(names@.subrange(0, 0) =~= r@);
    while i < names.len()
        invariant
            i <= names@.len(),
            r@.to_multiset() == names@.subrange(0, i as int).to_multiset(),
            maps_sorted(r@),
        decreases names@.len() - i,
    {
        let x = names[i].clone();
        let mut p: usize = r.len();
        while p > 0 && !map_precedes(&r[p - 1], &x)
            invariant
                p <= r@.len(),
                forall|k: int| p <= k < r@.len() ==> !map_le(name_bytes(#[trigger] r@[k]), name_bytes(x)),
            decreases p,
        {
            p = p - 1;
        }
        let ghost old_r = r@;
        r.insert(p, x);
        proof {
            lemma_insert_sorted(old_r, p as int, x);
            assert(names@.subrange(0, i + 1) =~= names@.subrange(0, i as int).push(x));
            names@.subrange(0, i as int).to_multiset_ensures();
        }
        i = i + 1;
    }
    assert(names@.subrange(0, i as int) =~= names@);
    r
}

/// Whether the file `name` ends in `.json`.
pub fn is_map_file(name: &String) -> (r: bool)
    ensures
        r == is_json_name(name_bytes(*name)),
{
    let b = name.as_str().as_bytes();
    let n = b.len();
    if n < 5 {
        return false;
    }
    let r = b[n - 5] == 46u8 && b[n - 4] == 106u8 && b[n - 3] == 115u8 && b[n - 2] == 111u8
        && b[n - 1] == 110u8;
    let ghost tail = b@.subrange(n - 5, n as int);
    let ghost json = seq![46u8, 106u8, 115u8, 111u8, 110u8];
    if r {
        assert(tail =~= json);
    } else {
        assert(tail != json) by {
            if tail == json {
                assert(tail[0] == json[0] && tail[1] == json[1] && tail[2] == json[2]
                    && tail[3] == json[3] && tail[4] == json[4]);
            }
        }
    }
    r
}

/// The names of `names` that end in `.json`, in order.
pub fn json_maps(names: &Vec<String>) -> (r: Vec<String>)
    ensures
        r@ == json_names(names@),
{
    let mut r: Vec<String> = Vec::new();
    let mut i: usize = 0;
    assert(names@.subrange(0, 0) =~= Seq::<String>::empty());
    while i < names.len()
        invariant
            i <= names@.len(),
            r@ == json_names(names@.subrange(0, i as int)),
        decreases names@.len() - i,
    {
        let ghost pre = names@.subrange(0, i as int);
        let ghost next = names@.subrange(0, i + 1);
        assert(next.drop_last() =~= pre);
        assert(next.last() == names@[i as int]);
        if is_map_file(&names[i]) {
            r.push(names[i].clone());
        }
        i = i + 1;
    }
    assert(names@.subrange(0, i as int) =~= names@);
    r
}

/// The map listing of a directory whose files are `names`: the names that
/// end in `.json`, numbered names first by number, then the others by text.
pub fn list_maps(names: Vec<String>) -> (r: Vec<String>)
    ensures
        r@.to_multiset() == json_names(names@).to_multiset(),
        maps_sorted(r@),
{
    sort_maps(json_maps(&names))
}

} // verus!
