//! Character-level text utilities: decimal rendering of integers,
//! decimal parsing, substring search, whitespace trimming, prefix
//! tests, and lowercasing.
use vstd::prelude::*;

verus! {

/// The character standing for the decimal digit `d`.
pub open spec fn digit_char(d: int) -> char {
    ((48 + d) as u8) as char
}

/// The decimal rendering of a non-negative integer, most significant
/// digit first, without sign or padding.
pub open spec fn spec_dec(n: nat) -> Seq<char>
    decreases n,
{
    if n < 10 {
        seq![digit_char(n as int)]
    } else {
        spec_dec(n / 10) + seq![digit_char((n % 10) as int)]
    }
}

/// The decimal rendering of a signed integer: a leading '-' for
/// negative values, then the digits of the magnitude.
pub open spec fn spec_dec_i32(n: int) -> Seq<char> {
    if n < 0 {
        seq!['-'] + spec_dec((-n) as nat)
    } else {
        spec_dec(n as nat)
    }
}

/// A one-character string slice holding the digit `d`.
pub(crate) fn digit_str(d: u64) -> (r: &'static str)
    requires
        d < 10,
    ensures
        r@ =~= seq![digit_char(d as int)],
{
    proof {
        reveal_strlit("0");
        reveal_strlit("1");
        reveal_strlit("2");
        reveal_strlit("3");
        reveal_strlit("4");
        reveal_strlit("5");
        reveal_strlit("6");
        reveal_strlit("7");
        reveal_strlit("8");
        reveal_strlit("9");
    }
    match d {
        0 => "0",
        1 => "1",
        2 => "2",
        3 => "3",
        4 => "4",
        5 => "5",
        6 => "6",
        7 => "7",
        8 => "8",
        _ => "9",
    }
}

/// Renders `n` in decimal.
pub fn u64_to_string(n: u64) -> (r: String)
    ensures
        r@ == spec_dec(n as nat),
    decreases n,
{
    if n < 10 {
        let s: String = String::from_str(digit_str(n));
        proof {
            assert(s@ =~= spec_dec(n as nat));
        }
        s
    } else {
        let mut s: String = u64_to_string(n / 10);
        s.append(digit_str(n % 10));
        proof {
            assert(s@ =~= spec_dec(n as nat));
        }
        s
    }
}

/// Renders a signed integer in decimal, with a leading '-' when negative.
pub fn i32_to_string(n: i32) -> (r: String)
    ensures
        r@ == spec_dec_i32(n as int),
{
    if n >= 0 {
        let r = u64_to_string(n as u64);
        proof {
            assert(r@ =~= spec_dec_i32(n as int));
        }
        r
    } else {
        let magnitude: u64 = (-(n as i64)) as u64;
        let mut s: String = String::from_str("-");
        s.append(u64_to_string(magnitude).as_str());
        proof {
            reveal_strlit("-");
            assert(s@ =~= spec_dec_i32(n as int));
        }
        s
    }
}

/// Whether `c` is an ASCII decimal digit.
pub open spec fn is_digit(c: char) -> bool {
    48 <= c as u32 <= 57
}

/// The numeric value of an ASCII digit character.
pub open spec fn digit_val(c: char) -> int {
    c as u32 - 48
}

/// Whether every character of `s` is an ASCII decimal digit.
pub open spec fn all_digits(s: Seq<char>) -> bool {
    forall|i: int| 0 <= i < s.len() ==> is_digit(#[trigger] s[i])
}

/// The value of a sequence of decimal digits, most significant first.
pub open spec fn dec_value(s: Seq<char>) -> int
    decreases s.len(),
{
    if s.len() == 0 {
        0
    } else {
        dec_value(s.drop_last()) * 10 + digit_val(s.last())
    }
}

/// What `str::parse::<i32>` returns: an optional single leading sign,
/// then at least one digit and nothing else, with the value in range;
/// any other shape yields no value.
pub open spec fn spec_parse_i32(s: Seq<char>) -> Option<int> {
    if s.len() > 0 && (s[0] == '-' || s[0] == '+') {
        let ds = s.drop_first();
        if ds.len() > 0 && all_digits(ds) {
            let v = if s[0] == '-' {
                -dec_value(ds)
            } else {
                dec_value(ds)
            };
            if -0x8000_0000 <= v <= 0x7fff_ffff {
                Some(v)
            } else {
                None
            }
        } else {
            None
        }
    } else {
        if s.len() > 0 && all_digits(s) && dec_value(s) <= 0x7fff_ffff {
            Some(dec_value(s))
        } else {
            None
        }
    }
}

/// A sequence of digits has a non-negative value.
pub proof fn lemma_dec_value_nonneg(s: Seq<char>)
    requires
        all_digits(s),
    ensures
        dec_value(s) >= 0,
    decreases s.len(),
{
    if s.len() > 0 {
        assert(all_digits(s.drop_last()));
        lemma_dec_value_nonneg(s.drop_last());
    }
}

/// The decimal rendering of `n` consists of digits and reads back as `n`.
pub proof fn lemma_dec_of_spec_dec(n: nat)
    ensures
        spec_dec(n).len() > 0,
        all_digits(spec_dec(n)),
        dec_value(spec_dec(n)) == n,
    decreases n,
{
    if n < 10 {
        assert(spec_dec(n) =~= seq![digit_char(n as int)]);
        assert(is_digit(digit_char(n as int)));
        assert(spec_dec(n).drop_last() =~= Seq::<char>::empty());
        assert((48 + n) as u8 as char as u32 == 48 + n);
        assert(digit_val(digit_char(n as int)) == n);
        let s = spec_dec(n);
        assert(s.len() == 1);
        assert(dec_value(s) == dec_value(s.drop_last()) * 10 + digit_val(s.last()));
        assert(s.drop_last().len() == 0);
        assert(dec_value(s.drop_last()) == 0);
        assert(s.last() == digit_char(n as int));
        assert(dec_value(spec_dec(n)) == n);
    } else {
        lemma_dec_of_spec_dec(n / 10);
        let d = spec_dec(n / 10);
        assert(spec_dec(n) =~= d + seq![digit_char((n % 10) as int)]);
        assert(spec_dec(n).drop_last() =~= d);
        assert(spec_dec(n).last() == digit_char((n % 10) as int));
        assert(is_digit(digit_char((n % 10) as int)));
        assert(forall|i: int| 0 <= i < spec_dec(n).len() ==> is_digit(#[trigger] spec_dec(n)[i]));
        assert(digit_val(digit_char((n % 10) as int)) == n % 10);
        assert(dec_value(spec_dec(n)) == (n / 10) * 10 + n % 10);
    }
}

/// Parsing the decimal rendering of an in-range integer gives that
/// integer back.
pub proof fn lemma_parse_dec_round_trip(n: int)
    requires
        -0x8000_0000 <= n <= 0x7fff_ffff,
    ensures
        spec_parse_i32(spec_dec_i32(n)) == Some(n),
{
    if n >= 0 {
        lemma_dec_of_spec_dec(n as nat);
        let s = spec_dec(n as nat);
        assert(is_digit(s[0]));
        assert(s[0] as u32 != 45 && s[0] as u32 != 43);
        assert(s[0] != '-' && s[0] != '+');
    } else {
        lemma_dec_of_spec_dec((-n) as nat);
        let d = spec_dec((-n) as nat);
        let s = spec_dec_i32(n);
        assert(s[0] == '-');
        assert(s.drop_first() =~= d);
    }
}

/// Parses a decimal integer as `str::parse::<i32>` does.
pub fn parse_i32(s: &str) -> (r: Option<i32>)
    ensures
        spec_parse_i32(s@) == (match r {
            Some(v) => Some(v as int),
            None => None::<int>,
        }),
{
    let len = s.unicode_len();
    if len == 0 {
        return None;
    }
    let first = s.get_char(0);
    let has_sign = first == '-' || first == '+';
    let neg = first == '-';
    let start: usize = if has_sign {
        1
    } else {
        0
    };
    let ghost ds: Seq<char> = if has_sign {
        s@.drop_first()
    } else {
        s@
    };
    proof {
        assert(ds =~= s@.subrange(start as int, len as int));
    }
    if start == len {
        return None;
    }
    let mut i: usize = start;
    let mut acc: u64 = 0;
    let mut over: bool = false;
    while i < len
        invariant
            start <= i <= len,
            len == s@.len(),
            s@.len() > 0,
            has_sign == (s@[0] == '-' || s@[0] == '+'),
            start == (if has_sign {
                1int
            } else {
                0int
            }),
            ds == (if has_sign {
                s@.drop_first()
            } else {
                s@
            }),
            ds == s@.subrange(start as int, len as int),
            all_digits(s@.subrange(start as int, i as int)),
            !over ==> acc == dec_value(s@.subrange(start as int, i as int)),
            !over ==> acc <= 0xFFFF_FFFFu64 * 10 + 9,
            over ==> dec_value(s@.subrange(start as int, i as int)) > 0x8000_0000,
        decreases len - i,
    {
        let c = s.get_char(i);
        let u = c as u32;
        if u < 48 || u > 57 {
            proof {
                assert(ds[i - start] == s@[i as int]);
                assert(!is_digit(s@[i as int]));
                assert(!all_digits(ds));
            }
            return None;
        }
        let d = (u - 48) as u64;
        proof {
            let p = s@.subrange(start as int, i as int);
            let q = s@.subrange(start as int, i + 1);
            assert(q =~= p.push(s@[i as int]));
            assert(q.drop_last() =~= p);
            assert(q.last() == s@[i as int]);
            assert(is_digit(s@[i as int]));
            assert(dec_value(q) == dec_value(p) * 10 + digit_val(s@[i as int]));
            assert(digit_val(s@[i as int]) == d);
            if !over {
                assert(dec_value(p) == acc);
            } else {
                assert(all_digits(p));
                lemma_dec_value_nonneg(p);
            }
        }
        if over {
        } else if acc > 0xFFFF_FFFF {
            over = true;
        } else {
            acc = acc * 10 + d;
        }
        i += 1;
    }
    proof {
        assert(s@.subrange(start as int, i as int) =~= ds);
        assert(ds.len() > 0);
        assert(all_digits(ds));
    }
    if over {
        return None;
    }
    if neg {
        if acc > 0x8000_0000 {
            return None;
        }
        let v: i64 = -(acc as i64);
        proof {
            assert(-0x8000_0000 <= v <= 0);
        }
        Some(v as i32)
    } else {
        if acc > 0x7FFF_FFFF {
            return None;
        }
        Some(acc as i32)
    }
}

/// Whether `p` occurs as a contiguous run of `s` beginning at `i`.
pub open spec fn occurs_at(s: Seq<char>, p: Seq<char>, i: int) -> bool {
    0 <= i && i + p.len() <= s.len() && s.subrange(i, i + p.len()) == p
}

/// The index of the first occurrence of `p` in `s`, if any.
pub open spec fn spec_find(s: Seq<char>, p: Seq<char>) -> Option<int>
    decreases s.len(),
{
    if p.len() > s.len() {
        None
    } else if s.subrange(0, p.len() as int) == p {
        Some(0)
    } else if s.len() == 0 {
        None
    } else {
        match spec_find(s.drop_first(), p) {
            Some(i) => Some(i + 1),
            None => None,
        }
    }
}

/// Whether `p` occurs anywhere in `s`.
pub open spec fn spec_contains(s: Seq<char>, p: Seq<char>) -> bool {
    spec_find(s, p) is Some
}

/// Whether `p` is a prefix of `s`.
pub open spec fn spec_starts_with(s: Seq<char>, p: Seq<char>) -> bool {
    p.len() <= s.len() && s.subrange(0, p.len() as int) == p
}

/// `spec_find` names the first occurrence: an occurrence lies there and
/// none earlier; absence means no occurrence at all.
pub proof fn lemma_find_characterizes(s: Seq<char>, p: Seq<char>)
    ensures
        match spec_find(s, p) {
            Some(i) => occurs_at(s, p, i) && (forall|j: int| 0 <= j < i ==> !occurs_at(s, p, j)),
            None => forall|j: int| !occurs_at(s, p, j),
        },
    decreases s.len(),
{
    if p.len() > s.len() {
        assert(forall|j: int| !occurs_at(s, p, j));
    } else if s.subrange(0, p.len() as int) == p {
        assert(occurs_at(s, p, 0));
    } else if s.len() == 0 {
        assert(s.subrange(0, p.len() as int) =~= p);
        assert(false);
    } else {
        lemma_find_characterizes(s.drop_first(), p);
        assert forall|j: int| 0 <= j && j + p.len() <= s.len() - 1 implies (#[trigger] occurs_at(
            s.drop_first(),
            p,
            j,
        )) == occurs_at(s, p, j + 1) by {
            assert(s.drop_first().subrange(j, j + p.len() as int) =~= s.subrange(
                j + 1,
                j + 1 + p.len(),
            ));
        }
        assert(!occurs_at(s, p, 0));
        match spec_find(s.drop_first(), p) {
            Some(i) => {
                assert(occurs_at(s.drop_first(), p, i));
                assert(occurs_at(s, p, i + 1));
                assert(forall|j: int| 0 <= j < i + 1 ==> !occurs_at(s, p, j)) by {
                    assert forall|j: int| 1 <= j < i + 1 implies !occurs_at(s, p, j) by {
                        assert(!occurs_at(s.drop_first(), p, j - 1));
                    }
                }
            },
            None => {
                assert(forall|j: int| !occurs_at(s, p, j)) by {
                    assert forall|j: int| 1 <= j implies !occurs_at(s, p, j) by {
                        assert(!occurs_at(s.drop_first(), p, j - 1));
                    }
                }
            },
        }
    }
}

/// Tests whether `p` is a prefix of `s`, character by character.
pub fn starts_with_chars(s: &str, p: &str) -> (r: bool)
    ensures
        r == spec_starts_with(s@, p@),
{
    let slen = s.unicode_len();
    let plen = p.unicode_len();
    if plen > slen {
        return false;
    }
    let mut k: usize = 0;
    while k < plen
        invariant
            plen <= slen,
            k <= plen,
            slen == s@.len(),
            plen == p@.len(),
            forall|m: int| 0 <= m < k ==> s@[m] == p@[m],
        decreases plen - k,
    {
        if s.get_char(k) != p.get_char(k) {
            proof {
                assert(s@.subrange(0, plen as int)[k as int] != p@[k as int]);
            }
            return false;
        }
        k += 1;
    }
    proof {
        assert(s@.subrange(0, plen as int) =~= p@);
    }
    true
}

/// Finds the first occurrence of `p` in `s`.
pub fn find_first(s: &str, p: &str) -> (r: Option<usize>)
    ensures
        spec_find(s@, p@) == (match r {
            Some(i) => Some(i as int),
            None => None::<int>,
        }),
{
    let slen = s.unicode_len();
    let plen = p.unicode_len();
    proof {
        lemma_find_characterizes(s@, p@);
    }
    if plen > slen {
        return None;
    }
    if plen == 0 {
        proof {
            assert(s@.subrange(0, 0) =~= p@);
        }
        return Some(0);
    }
    let mut i: usize = 0;
    while i <= slen - plen
        invariant
            plen <= slen,
            slen == s@.len(),
            plen == p@.len(),
            plen >= 1,
            i <= slen - plen + 1,
            forall|j: int| 0 <= j < i ==> !occurs_at(s@, p@, j),
        decreases slen - i,
    {
        let tail = s.substring_char(i, slen);
        if starts_with_chars(tail, p) {
            proof {
                assert(tail@.subrange(0, plen as int) =~= s@.subrange(i as int, i + plen));
                assert(occurs_at(s@, p@, i as int));
                lemma_find_characterizes(s@, p@);
                match spec_find(s@, p@) {
                    Some(x) => {
                        assert(!(x < i) && !(i < x));
                    },
                    None => {
                        assert(false);
                    },
                }
            }
            return Some(i);
        }
        proof {
            assert(tail@.subrange(0, plen as int) =~= s@.subrange(i as int, i + plen));
            assert(!occurs_at(s@, p@, i as int));
        }
        i += 1;
    }
    proof {
        assert(forall|j: int| i <= j ==> !occurs_at(s@, p@, j));
        lemma_find_characterizes(s@, p@);
        assert(spec_find(s@, p@) is None);
    }
    None
}

/// Whether `c` has Unicode's White_Space property, the set of
/// characters `str::trim` removes.
pub open spec fn is_space_char(c: char) -> bool {
    let u = c as u32;
    u == 0x9 || u == 0xA || u == 0xB || u == 0xC || u == 0xD || u == 0x20 || u == 0x85 || u == 0xA0
        || u == 0x1680 || (0x2000 <= u && u <= 0x200A) || u == 0x2028 || u == 0x2029 || u == 0x202F
        || u == 0x205F || u == 0x3000
}

/// `s` with its leading whitespace removed.
pub open spec fn spec_trim_start(s: Seq<char>) -> Seq<char>
    decreases s.len(),
{
    if s.len() > 0 && is_space_char(s[0]) {
        spec_trim_start(s.drop_first())
    } else {
        s
    }
}

/// `s` with its trailing whitespace removed.
pub open spec fn spec_trim_end(s: Seq<char>) -> Seq<char>
    decreases s.len(),
{
    if s.len() > 0 && is_space_char(s.last()) {
        spec_trim_end(s.drop_last())
    } else {
        s
    }
}

/// `s` with surrounding whitespace removed, as `str::trim` leaves it.
pub open spec fn spec_trim(s: Seq<char>) -> Seq<char> {
    spec_trim_end(spec_trim_start(s))
}

/// Tests `c` for the White_Space property.
fn is_space(c: char) -> (r: bool)
    ensures
        r == is_space_char(c),
{
    let u = c as u32;
    u == 0x9 || u == 0xA || u == 0xB || u == 0xC || u == 0xD || u == 0x20 || u == 0x85 || u == 0xA0
        || u == 0x1680 || (0x2000 <= u && u <= 0x200A) || u == 0x2028 || u == 0x2029 || u == 0x202F
        || u == 0x205F || u == 0x3000
}

/// Dropping a whitespace prefix does not change the trimmed front.
proof fn lemma_trim_start_skip(s: Seq<char>, a: int)
    requires
        0 <= a <= s.len(),
        forall|j: int| 0 <= j < a ==> is_space_char(#[trigger] s[j]),
    ensures
        spec_trim_start(s) == spec_trim_start(s.subrange(a, s.len() as int)),
    decreases a,
{
    if a == 0 {
        assert(s.subrange(0, s.len() as int) =~= s);
    } else {
        assert(is_space_char(s[0]));
        let t = s.drop_first();
        assert(forall|j: int| 0 <= j < a - 1 ==> is_space_char(#[trigger] t[j]));
        lemma_trim_start_skip(t, a - 1);
        assert(t.subrange(a - 1, t.len() as int) =~= s.subrange(a, s.len() as int));
    }
}

/// Dropping a whitespace suffix does not change the trimmed back.
proof fn lemma_trim_end_take(s: Seq<char>, b: int)
    requires
        0 <= b <= s.len(),
        forall|j: int| b <= j < s.len() ==> is_space_char(#[trigger] s[j]),
    ensures
        spec_trim_end(s) == spec_trim_end(s.subrange(0, b)),
    decreases s.len() - b,
{
    if b == s.len() {
        assert(s.subrange(0, s.len() as int) =~= s);
    } else {
        assert(is_space_char(s.last()));
        let t = s.drop_last();
        assert(t =~= s.subrange(0, s.len() - 1));
        lemma_trim_end_take(t, b);
        assert(t.subrange(0, b) =~= s.subrange(0, b));
    }
}

/// Removes surrounding whitespace, as `str::trim` does.
pub fn trim_chars(s: &str) -> (r: String)
    ensures
        r@ == spec_trim(s@),
{
    let len = s.unicode_len();
    let mut a: usize = 0;
    while a < len && is_space(s.get_char(a))
        invariant
            a <= len,
            len == s@.len(),
            forall|j: int| 0 <= j < a ==> is_space_char(#[trigger] s@[j]),
        decreases len - a,
    {
        a += 1;
    }
    proof {
        lemma_trim_start_skip(s@, a as int);
        if a < len {
            assert(!is_space_char(s@.subrange(a as int, len as int)[0]));
        }
        assert(spec_trim_start(s@) == s@.subrange(a as int, len as int));
    }
    let mut b: usize = len;
    while b > a && is_space(s.get_char(b - 1))
        invariant
            a <= b <= len,
            len == s@.len(),
            spec_trim_start(s@) == s@.subrange(a as int, len as int),
            a < len ==> !is_space_char(s@[a as int]),
            forall|j: int| b <= j < len ==> is_space_char(#[trigger] s@[j]),
        decreases b,
    {
        b -= 1;
    }
    proof {
        let t = s@.subrange(a as int, len as int);
        assert(forall|j: int| b - a <= j < t.len() ==> is_space_char(#[trigger] t[j]));
        lemma_trim_end_take(t, b - a);
        assert(t.subrange(0, b - a) =~= s@.subrange(a as int, b as int));
        if b > a {
            assert(!is_space_char(s@[b - 1]));
            assert(s@.subrange(a as int, b as int).last() == s@[b - 1]);
        }
        assert(spec_trim_end(s@.subrange(a as int, b as int)) == s@.subrange(a as int, b as int));
        assert(spec_trim(s@) == s@.subrange(a as int, b as int));
    }
    let piece = s.substring_char(a, b);
    String::from_str(piece)
}

/// The lowercase image of a character sequence, as `str::to_lowercase`
/// computes it; the result depends on the characters alone.
pub uninterp spec fn lower_of(s: Seq<char>) -> Seq<char>;

/// Relies on str::to_lowercase: returns the Unicode lowercase form of
/// the input, a function of the input characters alone; an empty input
/// gives an empty result.
#[verifier::external_body]
pub(crate) fn lowercase(s: &str) -> (r: String)
    ensures
        r@ == lower_of(s@),
        s@.len() == 0 ==> r@.len() == 0,
{
    s.to_lowercase()
}

} // verus!
