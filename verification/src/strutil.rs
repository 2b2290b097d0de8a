//! Verified helpers for working with strings character by character:
//! equality, prefix tests, splitting on a separator, and decimal
//! conversion in both directions.

use vstd::prelude::*;

verus! {

/// Character-wise equality of two string slices.
pub fn str_eq(a: &str, b: &str) -> (r: bool)
    ensures
        r == (a@ == b@),
{
    let alen = a.unicode_len();
    let blen = b.unicode_len();
    if alen != blen {
        assert(a@ != b@) by {
            assert(a@.len() != b@.len());
        }
        return false;
    }
    let mut i: usize = 0;
    while i < alen
        invariant
            0 <= i <= alen,
            alen == a@.len(),
            alen == b@.len(),
            forall|j: int| 0 <= j < i ==> a@[j] == b@[j],
        decreases alen - i,
    {
        if a.get_char(i) != b.get_char(i) {
            assert(a@ != b@);
            return false;
        }
        i += 1;
    }
    assert(a@ =~= b@);
    true
}

/// `p` is a prefix of `s`.
pub open spec fn spec_starts_with(s: Seq<char>, p: Seq<char>) -> bool {
    p.len() <= s.len() && s.subrange(0, p.len() as int) == p
}

pub fn starts_with(s: &str, p: &str) -> (r: bool)
    ensures
        r == spec_starts_with(s@, p@),
{
    let slen = s.unicode_len();
    let plen = p.unicode_len();
    if plen > slen {
        return false;
    }
    let mut i: usize = 0;
    while i < plen
        invariant
            0 <= i <= plen,
            plen == p@.len(),
            slen == s@.len(),
            plen <= slen,
            forall|j: int| 0 <= j < i ==> s@[j] == p@[j],
        decreases plen - i,
    {
        if s.get_char(i) != p.get_char(i) {
            assert(s@.subrange(0, p@.len() as int)[i as int] != p@[i as int]);
            return false;
        }
        i += 1;
    }
    assert(s@.subrange(0, p@.len() as int) =~= p@);
    true
}

/// Relies on String::push: appends exactly one character to the string.
#[verifier::external_body]
pub fn push_char(s: &mut String, c: char)
    ensures
        final(s)@ == old(s)@.push(c),
{
    s.push(c)
}

/// The pieces of `s` between occurrences of `sep`, in order; a string
/// without the separator is a single piece, so the result is never empty.
pub open spec fn spec_split(s: Seq<char>, sep: char) -> Seq<Seq<char>>
    decreases s.len(),
{
    if s.len() == 0 {
        seq![Seq::<char>::empty()]
    } else if s[0] == sep {
        seq![Seq::<char>::empty()] + spec_split(s.skip(1), sep)
    } else {
        let rest = spec_split(s.skip(1), sep);
        seq![seq![s[0]] + rest[0]] + rest.skip(1)
    }
}

pub proof fn lemma_split_len(s: Seq<char>, sep: char)
    ensures
        spec_split(s, sep).len() >= 1,
    decreases s.len(),
{
    if s.len() > 0 {
        lemma_split_len(s.skip(1), sep);
    }
}

/// Extending the input by one character either starts a fresh piece or
/// extends the last piece.
proof fn lemma_split_push(s: Seq<char>, c: char, sep: char)
    ensures
        c == sep ==> spec_split(s.push(c), sep) == spec_split(s, sep).push(Seq::<char>::empty()),
        c != sep ==> ({
            let r = spec_split(s, sep);
            spec_split(s.push(c), sep) == r.update(r.len() - 1, r.last().push(c))
        }),
    decreases s.len(),
{
    lemma_split_len(s, sep);
    if s.len() == 0 {
        assert(s.push(c).skip(1) =~= Seq::<char>::empty());
        assert(s.push(c)[0] == c);
        if c == sep {
            assert(spec_split(s, sep) =~~= seq![Seq::<char>::empty()]);
            assert(spec_split(s.push(c).skip(1), sep) =~~= seq![Seq::<char>::empty()]);
            assert(spec_split(s.push(c), sep) =~~= seq![Seq::<char>::empty()] + spec_split(
                s.push(c).skip(1),
                sep,
            ));
            assert(spec_split(s.push(c), sep) =~~= spec_split(s, sep).push(Seq::<char>::empty()));
        } else {
            let r = spec_split(s, sep);
            assert(seq![s.push(c)[0]] + spec_split(s.push(c).skip(1), sep)[0] =~~= r.last().push(c));
            assert(spec_split(s.push(c), sep) =~~= r.update(r.len() - 1, r.last().push(c)));
        }
    } else {
        lemma_split_push(s.skip(1), c, sep);
        lemma_split_len(s.skip(1), sep);
        assert(s.push(c).skip(1) =~= s.skip(1).push(c));
        let r = spec_split(s, sep);
        let rr = spec_split(s.skip(1), sep);
        if s[0] == sep {
            if c == sep {
                assert(spec_split(s.push(c), sep) =~~= r.push(Seq::<char>::empty()));
            } else {
                assert(spec_split(s.push(c), sep) =~~= r.update(r.len() - 1, r.last().push(c)));
            }
        } else {
            if c == sep {
                assert(spec_split(s.push(c), sep) =~~= r.push(Seq::<char>::empty()));
            } else {
                let rr2 = spec_split(s.skip(1).push(c), sep);
                if rr.len() == 1 {
                    assert(spec_split(s.push(c), sep) =~~= r.update(r.len() - 1, r.last().push(c)));
                } else {
                    assert(rr2.skip(1) =~= rr.skip(1).update(rr.skip(1).len() - 1, rr.skip(1).last().push(c)));
                    assert(spec_split(s.push(c), sep) =~~= r.update(r.len() - 1, r.last().push(c)));
                }
            }
        }
    }
}

/// Split `s` at every occurrence of `sep`.
pub fn string_split(s: &str, sep: char) -> (v: Vec<String>)
    ensures
        v.deep_view() == spec_split(s@, sep),
{
    let len = s.unicode_len();
    let mut v: Vec<String> = Vec::new();
    let mut cur: String = String::new();
    let mut i: usize = 0;
    while i < len
        invariant
            0 <= i <= len,
            len == s@.len(),
            v.deep_view().push(cur@) == spec_split(s@.take(i as int), sep),
        decreases len - i,
    {
        let c = s.get_char(i);
        proof {
            assert(s@.take(i as int).push(s@[i as int]) =~= s@.take(i + 1));
            lemma_split_push(s@.take(i as int), s@[i as int], sep);
            lemma_split_len(s@.take(i as int), sep);
        }
        if c == sep {
            let ghost prev = v.deep_view();
            v.push(cur);
            cur = String::new();
            proof {
                assert(v.deep_view() =~~= prev.push(spec_split(s@.take(i as int), sep).last()));
                assert(v.deep_view().push(cur@) =~~= spec_split(s@.take(i + 1), sep));
            }
        } else {
            push_char(&mut cur, c);
            proof {
                let r = spec_split(s@.take(i as int), sep);
                assert(r.update(r.len() - 1, r.last().push(c)) =~~= v.deep_view().push(cur@));
            }
        }
        i += 1;
    }
    proof {
        assert(s@.take(len as int) =~= s@);
    }
    let ghost prev = v.deep_view();
    v.push(cur);
    proof {
        assert(v.deep_view() =~~= prev.push(cur@));
    }
    v
}

/// The split of a `String`, unless it is empty, in which case there are
/// no pieces at all.
pub fn no_empty_split(s: &String, sep: char) -> (v: Vec<String>)
    ensures
        s@.len() == 0 ==> v.deep_view() == Seq::<Seq<char>>::empty(),
        s@.len() > 0 ==> v.deep_view() == spec_split(s@, sep),
{
    if s.as_str().unicode_len() == 0 {
        let v: Vec<String> = Vec::new();
        assert(v.deep_view() =~~= Seq::<Seq<char>>::empty());
        v
    } else {
        string_split(s.as_str(), sep)
    }
}

/// Lexicographic order on character sequences by code point, the order
/// `String`'s own comparison gives.
pub open spec fn spec_str_le(a: Seq<char>, b: Seq<char>) -> bool
    decreases a.len(),
{
    if a.len() == 0 {
        true
    } else if b.len() == 0 {
        false
    } else if (a[0] as int) < (b[0] as int) {
        true
    } else if (a[0] as int) > (b[0] as int) {
        false
    } else {
        spec_str_le(a.skip(1), b.skip(1))
    }
}

pub fn str_le(a: &str, b: &str) -> (r: bool)
    ensures
        r == spec_str_le(a@, b@),
{
    let alen = a.unicode_len();
    let blen = b.unicode_len();
    let mut i: usize = 0;
    proof {
        assert(a@.skip(0) =~= a@);
        assert(b@.skip(0) =~= b@);
    }
    loop
        invariant
            0 <= i,
            i <= alen,
            i <= blen,
            alen == a@.len(),
            blen == b@.len(),
            forall|j: int| 0 <= j < i ==> a@[j] == b@[j],
            spec_str_le(a@, b@) == spec_str_le(a@.skip(i as int), b@.skip(i as int)),
        decreases alen - i,
    {
        if i >= alen {
            return true;
        }
        if i >= blen {
            return false;
        }
        let ca = a.get_char(i);
        let cb = b.get_char(i);
        if (ca as u32) < (cb as u32) {
            return true;
        }
        if (ca as u32) > (cb as u32) {
            return false;
        }
        proof {
            assert(a@.skip(i as int).skip(1) =~= a@.skip(i + 1));
            assert(b@.skip(i as int).skip(1) =~= b@.skip(i + 1));
        }
        i += 1;
    }
}

/// Any two strings are comparable in the lexicographic order.
pub proof fn lemma_str_le_total(a: Seq<char>, b: Seq<char>)
    ensures
        spec_str_le(a, b) || spec_str_le(b, a),
    decreases a.len(),
{
    if a.len() > 0 && b.len() > 0 && a[0] == b[0] {
        lemma_str_le_total(a.skip(1), b.skip(1));
    }
}

/// Two strings each at or before the other are the same string.
pub proof fn lemma_str_le_antisym(a: Seq<char>, b: Seq<char>)
    requires
        spec_str_le(a, b),
        spec_str_le(b, a),
    ensures
        a == b,
    decreases a.len(),
{
    if a.len() == 0 {
        assert(a =~= b);
    } else {
        assert(b.len() > 0);
        assert(a[0] == b[0]);
        lemma_str_le_antisym(a.skip(1), b.skip(1));
        assert(a =~= b) by {
            assert(a.skip(1).len() == b.skip(1).len());
            assert forall|i: int| 0 <= i < a.len() implies a[i] == b[i] by {
                if i > 0 {
                    assert(a.skip(1)[i - 1] == a[i]);
                    assert(b.skip(1)[i - 1] == b[i]);
                }
            }
        }
    }
}

/// The lexicographic order is transitive.
pub proof fn lemma_str_le_trans(a: Seq<char>, b: Seq<char>, c: Seq<char>)
    requires
        spec_str_le(a, b),
        spec_str_le(b, c),
    ensures
        spec_str_le(a, c),
    decreases a.len(),
{
    if a.len() > 0 {
        assert(b.len() > 0);
        assert(c.len() > 0);
        if a[0] == b[0] && b[0] == c[0] {
            lemma_str_le_trans(a.skip(1), b.skip(1), c.skip(1));
        }
    }
}

/// Where `x` lands in `s` when inserted in front of the first element
/// it is not greater than.
pub open spec fn spec_insert_sorted(x: Seq<char>, s: Seq<Seq<char>>) -> Seq<Seq<char>>
    decreases s.len(),
{
    if s.len() == 0 {
        seq![x]
    } else if spec_str_le(x, s[0]) {
        seq![x] + s
    } else {
        seq![s[0]] + spec_insert_sorted(x, s.skip(1))
    }
}

/// Insertion sort of a sequence of strings.
pub open spec fn spec_sort_strings(s: Seq<Seq<char>>) -> Seq<Seq<char>>
    decreases s.len(),
{
    if s.len() == 0 {
        Seq::<Seq<char>>::empty()
    } else {
        spec_insert_sorted(s[0], spec_sort_strings(s.skip(1)))
    }
}

fn insert_sorted(x: String, v: Vec<String>) -> (r: Vec<String>)
    ensures
        r.deep_view() == spec_insert_sorted(x@, v.deep_view()),
    decreases v@.len(),
{
    let ghost gv = v.deep_view();
    let mut v = v;
    if v.len() == 0 {
        let mut r: Vec<String> = Vec::new();
        r.push(x);
        proof {
            assert(r.deep_view() =~~= spec_insert_sorted(x@, gv));
        }
        r
    } else if str_le(x.as_str(), v[0].as_str()) {
        let mut r: Vec<String> = Vec::new();
        r.push(x);
        let mut i: usize = 0;
        let n = v.len();
        while i < n
            invariant
                0 <= i <= n,
                n == v@.len(),
                v.deep_view() == gv,
                r.deep_view() == seq![x@] + gv.subrange(0, i as int),
            decreases n - i,
        {
            let ghost prev = r.deep_view();
            let s = v[i].clone();
            r.push(s);
            proof {
                assert(r.deep_view() =~~= prev.push(gv[i as int]));
                assert(r.deep_view() =~~= seq![x@] + gv.subrange(0, i + 1));
            }
            i += 1;
        }
        proof {
            assert(gv.subrange(0, n as int) =~~= gv);
            assert(r.deep_view() =~~= spec_insert_sorted(x@, gv));
        }
        r
    } else {
        let first = v.remove(0);
        proof {
            assert(v.deep_view() =~~= gv.skip(1));
        }
        let rest = insert_sorted(x, v);
        let mut r: Vec<String> = Vec::new();
        r.push(first);
        let ghost mid = r.deep_view();
        let mut i: usize = 0;
        let n = rest.len();
        while i < n
            invariant
                0 <= i <= n,
                n == rest@.len(),
                rest.deep_view() == spec_insert_sorted(x@, gv.skip(1)),
                r.deep_view() == seq![gv[0]] + rest.deep_view().subrange(0, i as int),
            decreases n - i,
        {
            let ghost prev = r.deep_view();
            let s = rest[i].clone();
            r.push(s);
            proof {
                assert(r.deep_view() =~~= prev.push(rest.deep_view()[i as int]));
                assert(r.deep_view() =~~= seq![gv[0]] + rest.deep_view().subrange(0, i + 1));
            }
            i += 1;
        }
        proof {
            assert(rest.deep_view().subrange(0, n as int) =~~= rest.deep_view());
            assert(r.deep_view() =~~= spec_insert_sorted(x@, gv));
        }
        r
    }
}

/// Sort strings into the lexicographic order `spec_str_le` describes.
pub fn sort_strings(v: Vec<String>) -> (r: Vec<String>)
    ensures
        r.deep_view() == spec_sort_strings(v.deep_view()),
    decreases v@.len(),
{
    let ghost gv = v.deep_view();
    let mut v = v;
    if v.len() == 0 {
        let r: Vec<String> = Vec::new();
        proof {
            assert(r.deep_view() =~~= spec_sort_strings(gv));
        }
        r
    } else {
        let first = v.remove(0);
        proof {
            assert(v.deep_view() =~~= gv.skip(1));
        }
        let rest = sort_strings(v);
        insert_sorted(first, rest)
    }
}

/// All the strings of `s` joined together, in order.
pub open spec fn spec_flatten_strs(s: Seq<Seq<char>>) -> Seq<char>
    decreases s.len(),
{
    if s.len() == 0 {
        Seq::<char>::empty()
    } else {
        s[0] + spec_flatten_strs(s.skip(1))
    }
}

pub proof fn lemma_flatten_push(s: Seq<Seq<char>>, x: Seq<char>)
    ensures
        spec_flatten_strs(s.push(x)) == spec_flatten_strs(s) + x,
    decreases s.len(),
{
    if s.len() == 0 {
        assert(s.push(x).skip(1) =~~= Seq::<Seq<char>>::empty());
        assert(spec_flatten_strs(Seq::<Seq<char>>::empty()) =~= Seq::<char>::empty());
        assert(spec_flatten_strs(s.push(x)) == s.push(x)[0] + spec_flatten_strs(
            s.push(x).skip(1),
        ));
        assert(spec_flatten_strs(s.push(x)) =~= spec_flatten_strs(s) + x);
    } else {
        lemma_flatten_push(s.skip(1), x);
        assert(s.push(x).skip(1) =~~= s.skip(1).push(x));
        assert(spec_flatten_strs(s.push(x)) == s.push(x)[0] + spec_flatten_strs(
            s.push(x).skip(1),
        ));
        assert(spec_flatten_strs(s.push(x)) =~= spec_flatten_strs(s) + x);
    }
}

/// The decimal digit characters and their values.
pub open spec fn spec_is_digit(c: char) -> bool {
    '0' <= c && c <= '9'
}

pub open spec fn spec_digit_val(c: char) -> int {
    c as int - '0' as int
}

pub open spec fn spec_all_digits(s: Seq<char>) -> bool {
    forall|i: int| 0 <= i < s.len() ==> spec_is_digit(#[trigger] s[i])
}

/// Value of a digit string, most significant digit first.
pub open spec fn spec_dec_val(s: Seq<char>) -> int
    decreases s.len(),
{
    if s.len() == 0 {
        0
    } else {
        spec_dec_val(s.drop_last()) * 10 + spec_digit_val(s.last())
    }
}

/// The integer denoted by `s` under Rust's integer `FromStr` grammar:
/// an optional sign followed by one or more decimal digits.
pub open spec fn spec_parse_int(s: Seq<char>) -> Option<int> {
    let body = if s.len() > 0 && (s[0] == '+' || s[0] == '-') {
        s.skip(1)
    } else {
        s
    };
    if body.len() >= 1 && spec_all_digits(body) {
        if s.len() > 0 && s[0] == '-' {
            Some(-spec_dec_val(body))
        } else {
            Some(spec_dec_val(body))
        }
    } else {
        None
    }
}

proof fn lemma_dec_val_bounds(s: Seq<char>)
    requires
        spec_all_digits(s),
    ensures
        spec_dec_val(s) >= 0,
    decreases s.len(),
{
    if s.len() > 0 {
        assert(spec_is_digit(s[s.len() - 1]));
        lemma_dec_val_bounds(s.drop_last());
    }
}

/// Scan the digits of `body`, keeping the exact value while it is small and
/// saturating above `CAP_SENTINEL` once it can no longer be an `i8`/`u8`.
const CAP_SENTINEL: u32 = 1000;

fn scan_digits(s: &str, start: usize) -> (r: Option<u32>)
    requires
        start <= s@.len(),
    ensures
        match r {
            Option::None => !(s@.skip(start as int).len() >= 1 && spec_all_digits(s@.skip(start as int))),
            Option::Some(acc) => {
                &&& s@.skip(start as int).len() >= 1
                &&& spec_all_digits(s@.skip(start as int))
                &&& (acc <= CAP_SENTINEL ==> acc == spec_dec_val(s@.skip(start as int)))
                &&& (acc > CAP_SENTINEL ==> spec_dec_val(s@.skip(start as int)) > CAP_SENTINEL)
                &&& acc <= 10009
            },
        },
{
    let len = s.unicode_len();
    if start >= len {
        return None;
    }
    let mut acc: u32 = 0;
    let mut i: usize = start;
    while i < len
        invariant
            start <= i <= len,
            len == s@.len(),
            spec_all_digits(s@.subrange(start as int, i as int)),
            acc <= CAP_SENTINEL ==> acc == spec_dec_val(s@.subrange(start as int, i as int)),
            acc > CAP_SENTINEL ==> spec_dec_val(s@.subrange(start as int, i as int)) > CAP_SENTINEL,
            acc <= 10009,
        decreases len - i,
    {
        let c = s.get_char(i);
        if c < '0' || c > '9' {
            assert(!spec_is_digit(s@.skip(start as int)[i - start]));
            return None;
        }
        let d: u32 = (c as u32) - ('0' as u32);
        proof {
            let pre = s@.subrange(start as int, i as int);
            assert(s@.subrange(start as int, i + 1).drop_last() =~= pre);
            lemma_dec_val_bounds(pre);
        }
        if acc > CAP_SENTINEL {
            proof {
                let pre = s@.subrange(start as int, i as int);
                lemma_dec_val_bounds(pre);
                assert(spec_dec_val(s@.subrange(start as int, i + 1)) > CAP_SENTINEL);
            }
        } else {
            acc = acc * 10 + d;
        }
        i += 1;
    }
    proof {
        assert(s@.subrange(start as int, len as int) =~= s@.skip(start as int));
    }
    Some(acc)
}

/// Rust's `str::parse::<i8>`.
pub fn parse_i8(s: &str) -> (r: Option<i8>)
    ensures
        match r {
            Option::Some(v) => spec_parse_int(s@) == Option::Some(v as int),
            Option::None => match spec_parse_int(s@) {
                Option::Some(n) => n < -128 || n > 127,
                Option::None => true,
            },
        },
{
    let len = s.unicode_len();
    if len == 0 {
        return None;
    }
    let first = s.get_char(0);
    let neg = first == '-';
    let signed = neg || first == '+';
    let start: usize = if signed {
        1
    } else {
        0
    };
    proof {
        if !signed {
            assert(s@.skip(0) =~= s@);
        }
    }
    match scan_digits(s, start) {
        None => None,
        Some(acc) => {
            if neg {
                if acc <= 128 {
                    proof {
                        assert(acc == spec_dec_val(s@.skip(1)));
                    }
                    if acc == 128 {
                        Some(-128)
                    } else {
                        Some(-(acc as i8))
                    }
                } else {
                    None
                }
            } else {
                if acc <= 127 {
                    Some(acc as i8)
                } else {
                    None
                }
            }
        },
    }
}

/// Rust's `str::parse::<u8>`.
pub fn parse_u8(s: &str) -> (r: Option<u8>)
    ensures
        match r {
            Option::Some(v) => s@.len() > 0 && s@[0] != '-' && spec_parse_int(s@) == Option::Some(v as int),
            Option::None => match spec_parse_int(s@) {
                Option::Some(n) => n < 0 || n > 255 || (s@.len() > 0 && s@[0] == '-'),
                Option::None => true,
            },
        },
{
    let len = s.unicode_len();
    if len == 0 {
        return None;
    }
    let first = s.get_char(0);
    if first == '-' {
        return None;
    }
    let start: usize = if first == '+' {
        1
    } else {
        0
    };
    proof {
        if first != '+' {
            assert(s@.skip(0) =~= s@);
        }
    }
    match scan_digits(s, start) {
        None => None,
        Some(acc) => {
            if acc <= 255 {
                Some(acc as u8)
            } else {
                None
            }
        },
    }
}

/// The decimal digits of `n`, most significant first.
pub open spec fn spec_nat_string(n: int) -> Seq<char>
    decreases n,
{
    if n < 0 {
        Seq::<char>::empty()
    } else if n < 10 {
        seq![spec_digit_char(n)]
    } else {
        spec_nat_string(n / 10).push(spec_digit_char(n % 10))
    }
}

pub open spec fn spec_digit_char(d: int) -> char {
    if d == 0 {
        '0'
    } else if d == 1 {
        '1'
    } else if d == 2 {
        '2'
    } else if d == 3 {
        '3'
    } else if d == 4 {
        '4'
    } else if d == 5 {
        '5'
    } else if d == 6 {
        '6'
    } else if d == 7 {
        '7'
    } else if d == 8 {
        '8'
    } else {
        '9'
    }
}

fn digit_char(d: u64) -> (c: char)
    requires
        d < 10,
    ensures
        c == spec_digit_char(d as int),
{
    if d == 0 {
        '0'
    } else if d == 1 {
        '1'
    } else if d == 2 {
        '2'
    } else if d == 3 {
        '3'
    } else if d == 4 {
        '4'
    } else if d == 5 {
        '5'
    } else if d == 6 {
        '6'
    } else if d == 7 {
        '7'
    } else if d == 8 {
        '8'
    } else {
        '9'
    }
}

/// `n` written in decimal.
pub fn u64_to_string(n: u64) -> (r: String)
    ensures
        r@ == spec_nat_string(n as int),
    decreases n,
{
    if n < 10 {
        let mut r = String::new();
        push_char(&mut r, digit_char(n));
        proof {
            assert(r@ =~= spec_nat_string(n as int));
        }
        r
    } else {
        let mut r = u64_to_string(n / 10);
        push_char(&mut r, digit_char(n % 10));
        r
    }
}

/// The signed decimal rendering of `n`: a minus sign for negatives,
/// then the digits.
pub open spec fn spec_int_string(n: int) -> Seq<char> {
    if n < 0 {
        seq!['-'] + spec_nat_string(-n)
    } else {
        spec_nat_string(n)
    }
}

/// `n` written in decimal, with a sign when negative.
pub fn i8_to_string(n: i8) -> (r: String)
    ensures
        r@ == spec_int_string(n as int),
{
    if n >= 0 {
        u64_to_string(n as u64)
    } else {
        let mut r = String::new();
        push_char(&mut r, '-');
        let mag: u64 = if n == -128 {
            128
        } else {
            (-n) as u64
        };
        let digits = u64_to_string(mag);
        let out = r.concat(digits.as_str());
        proof {
            assert(out@ =~= spec_int_string(n as int));
        }
        out
    }
}

} // verus!
