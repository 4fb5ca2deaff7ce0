use vstd::prelude::*;
use vstd::string::StringSliceAdditionalSpecFns;

verus! {

pub open spec fn is_digit(b: u8) -> bool {
    48 <= b <= 57
}

/// The decimal value of a string of digits.
pub open spec fn digits_value(s: Seq<u8>) -> nat
    decreases s.len(),
{
    if s.len() == 0 {
        0
    } else {
        digits_value(s.drop_last()) * 10 + (s.last() - 48) as nat
    }
}

/// One or more digits worth at most 255, and their value.
pub open spec fn decimal_byte(d: Seq<u8>) -> Option<u8> {
    if d.len() > 0 && (forall|i: int| 0 <= i < d.len() ==> is_digit(#[trigger] d[i])) && digits_value(d) <= 255 {
        Some(digits_value(d) as u8)
    } else {
        None
    }
}

/// A byte value written in decimal, as `u8`'s `FromStr` reads it: an optional
/// `+`, then one or more digits, leading zeros allowed, worth at most 255.
pub open spec fn octet_of(s: Seq<u8>) -> Option<u8> {
    if s.len() > 0 && s[0] == 43 { decimal_byte(s.drop_first()) } else { decimal_byte(s) }
}

/// The position of the first byte `b` at or after `from`, or `s.len()` if none.
pub open spec fn index_of(s: Seq<u8>, from: int, b: u8) -> int
    decreases s.len() - from,
{
    if from >= s.len() {
        s.len() as int
    } else if s[from] == b {
        from
    } else {
        index_of(s, from + 1, b)
    }
}

/// The position of the first `.` at or after `from`, or `s.len()` if none.
pub open spec fn dot_index(s: Seq<u8>, from: int) -> int {
    index_of(s, from, 46)
}

/// The address whose four bytes, most significant first, are `a.b.c.d`.
pub open spec fn address_from_octets(a: u8, b: u8, c: u8, d: u8) -> u32 {
    (a * 16777216 + b * 65536 + c * 256 + d) as u32
}

/// The IPv4 address that text such as `192.168.1.0` denotes: exactly four
/// fields parted by three dots, each a byte value in decimal.
pub open spec fn address_of(s: Seq<u8>) -> Option<u32> {
    let p1 = dot_index(s, 0);
    let p2 = dot_index(s, p1 + 1);
    let p3 = dot_index(s, p2 + 1);
    if p3 < s.len() && dot_index(s, p3 + 1) == s.len() {
        match (
            octet_of(s.subrange(0, p1)),
            octet_of(s.subrange(p1 + 1, p2)),
            octet_of(s.subrange(p2 + 1, p3)),
            octet_of(s.subrange(p3 + 1, s.len() as int)),
        ) {
            (Some(a), Some(b), Some(c), Some(d)) => Some(address_from_octets(a, b, c, d)),
            _ => None,
        }
    } else {
        None
    }
}

proof fn lemma_digits_grow(s: Seq<u8>, k: int)
    requires
        0 <= k <= s.len(),
        forall|i: int| 0 <= i < s.len() ==> is_digit(#[trigger] s[i]),
    ensures
        digits_value(s.subrange(0, k)) <= digits_value(s),
    decreases s.len() - k,
{
    if k < s.len() {
        lemma_digits_grow(s, k + 1);
        let t = s.subrange(0, k + 1);
        assert(t.drop_last() =~= s.subrange(0, k));
        assert(is_digit(s[k]));
    } else {
        assert(s.subrange(0, k) =~= s);
    }
}

/// The position of the first byte `b` at or after `from`, or `s.len()`.
pub fn find_byte(s: &[u8], from: usize, b: u8) -> (r: usize)
    requires
        from <= s@.len(),
    ensures
        r == index_of(s@, from as int, b),
        from <= r <= s@.len(),
{
    let mut i = from;
    while i < s.len() && s[i] != b
        invariant
            from <= i <= s@.len(),
            index_of(s@, i as int, b) == index_of(s@, from as int, b),
        decreases s@.len() - i,
    {
        i = i + 1;
    }
    i
}

fn parse_octet(s: &[u8], lo: usize, hi: usize) -> (r: Option<u8>)
    requires
        lo <= hi <= s@.len(),
    ensures
        r == octet_of(s@.subrange(lo as int, hi as int)),
{
    let ghost f = s@.subrange(lo as int, hi as int);
    let start: usize = if lo < hi && s[lo] == 43 { lo + 1 } else { lo };
    let ghost d = s@.subrange(start as int, hi as int);
    proof {
        if f.len() > 0 && f[0] == 43 {
            assert(d =~= f.drop_first());
        } else {
            assert(d =~= f);
        }
    }
    if start == hi {
        return None;
    }
    let mut value: u32 = 0;
    let mut i = start;
    while i < hi
        invariant
            start <= i <= hi <= s@.len(),
            d == s@.subrange(start as int, hi as int),
            f == s@.subrange(lo as int, hi as int),
            d == (if f.len() > 0 && f[0] == 43 { f.drop_first() } else { f }),
            d.len() > 0,
            forall|k: int| start <= k < i ==> is_digit(#[trigger] s@[k]),
            value == digits_value(s@.subrange(start as int, i as int)),
            value <= 255,
        decreases hi - i,
    {
        let b = s[i];
        if b < 48 || b > 57 {
            proof {
                assert(d[i - start] == b);
                assert(!is_digit(d[i - start]));
                assert(!(forall|k: int| 0 <= k < d.len() ==> is_digit(#[trigger] d[k])));
                assert(decimal_byte(d).is_none());
            }
            return None;
        }
        proof {
            assert(s@.subrange(start as int, i + 1).drop_last() =~= s@.subrange(start as int, i as int));
        }
        value = value * 10 + (b - 48) as u32;
        if value > 255 {
            proof {
                let t = s@.subrange(start as int, i + 1);
                assert(t.drop_last() =~= s@.subrange(start as int, i as int));
                assert(t.last() == b);
                assert(digits_value(t) == value);
                assert(t =~= d.subrange(0, i + 1 - start));
                if forall|k: int| 0 <= k < d.len() ==> is_digit(#[trigger] d[k]) {
                    lemma_digits_grow(d, i + 1 - start);
                    assert(digits_value(d) > 255);
                    assert(decimal_byte(d).is_none());
                } else {
                    assert(decimal_byte(d).is_none());
                }
                assert(decimal_byte(d).is_none());
            }
            return None;
        }
        i = i + 1;
    }
    assert(s@.subrange(start as int, i as int) =~= d);
    Some(value as u8)
}

/// The address that dotted-decimal text denotes, or `None` where the text is
/// not four byte values parted by dots.
pub fn parse_ip(text: &str) -> (r: Option<u32>)
    ensures
        r == address_of(text.spec_bytes()),
{
    parse_ip_bytes(text.as_bytes())
}

/// As `parse_ip`, on the text's bytes.
pub fn parse_ip_bytes(s: &[u8]) -> (r: Option<u32>)
    ensures
        r == address_of(s@),
{
    let n = s.len();
    let p1 = find_byte(s, 0, 46);
    if p1 >= n {
        return None;
    }
    let p2 = find_byte(s, p1 + 1, 46);
    if p2 >= n {
        return None;
    }
    let p3 = find_byte(s, p2 + 1, 46);
    if p3 >= n {
        return None;
    }
    let p4 = find_byte(s, p3 + 1, 46);
    if p4 != n {
        return None;
    }
    let a = parse_octet(s, 0, p1);
    let b = parse_octet(s, p1 + 1, p2);
    let c = parse_octet(s, p2 + 1, p3);
    let d = parse_octet(s, p3 + 1, n);
    match (a, b, c, d) {
        (Some(a), Some(b), Some(c), Some(d)) => {
            let v: u32 = a as u32 * 16777216 + b as u32 * 65536 + c as u32 * 256 + d as u32;
            Some(v)
        },
        _ => None,
    }
}

/// The range that a row's two fields denote, or `None` where either field is
/// not an address.
pub fn parse_range(start: &str, end: &str) -> (r: Option<(u32, u32)>)
    ensures
        r == match (address_of(start.spec_bytes()), address_of(end.spec_bytes())) {
            (Some(a), Some(b)) => Some((a, b)),
            _ => None,
        },
{
    match (parse_ip(start), parse_ip(end)) {
        (Some(a), Some(b)) => Some((a, b)),
        _ => None,
    }
}

/// A byte value in decimal, without leading zeros.
pub open spec fn octet_text(n: u8) -> Seq<u8> {
    if n >= 100 {
        seq![(48 + n / 100) as u8, (48 + (n / 10) % 10) as u8, (48 + n % 10) as u8]
    } else if n >= 10 {
        seq![(48 + n / 10) as u8, (48 + n % 10) as u8]
    } else {
        seq![(48 + n) as u8]
    }
}

/// The dotted-decimal text of an address, such as `10.0.0.254`.
pub open spec fn ip_text(a: u32) -> Seq<u8> {
    octet_text((a / 16777216) as u8) + seq![46u8] + octet_text(((a / 65536) % 256) as u8) + seq![46u8]
        + octet_text(((a / 256) % 256) as u8) + seq![46u8] + octet_text((a % 256) as u8)
}

proof fn lemma_octet_text(n: u8)
    ensures
        octet_of(octet_text(n)) == Some(n),
        1 <= octet_text(n).len() <= 3,
        forall|i: int| 0 <= i < octet_text(n).len() ==> is_digit(#[trigger] octet_text(n)[i]),
{
    let t = octet_text(n);
    assert(digits_value(Seq::<u8>::empty()) == 0);
    if n >= 100 {
        assert(t.drop_last() =~= seq![(48 + n / 100) as u8, (48 + (n / 10) % 10) as u8]);
        assert(t.drop_last().drop_last() =~= seq![(48 + n / 100) as u8]);
        assert(t.drop_last().drop_last().drop_last() =~= Seq::<u8>::empty());
        let (x, y, z) = (n / 100, (n / 10) % 10, n % 10);
        assert(t.drop_last().drop_last().last() == 48 + x);
        assert(digits_value(t.drop_last().drop_last()) == x);
        assert(digits_value(t.drop_last()) == x * 10 + y);
        assert(digits_value(t) == (x * 10 + y) * 10 + z);
        assert(n == x * 100 + y * 10 + z);
    } else if n >= 10 {
        assert(t.drop_last() =~= seq![(48 + n / 10) as u8]);
        assert(t.drop_last().drop_last() =~= Seq::<u8>::empty());
        assert(t.drop_last().last() == 48 + n / 10);
        assert(digits_value(t.drop_last()) == n / 10);
        assert(digits_value(t) == (n / 10) * 10 + n % 10);
    } else {
        assert(t.drop_last() =~= Seq::<u8>::empty());
        assert(digits_value(t) == n);
    }
}

proof fn lemma_index_at(s: Seq<u8>, from: int, p: int, b: u8)
    requires
        0 <= from <= p <= s.len(),
        forall|k: int| from <= k < p ==> #[trigger] s[k] != b,
        p < s.len() ==> s[p] == b,
    ensures
        index_of(s, from, b) == p,
    decreases p - from,
{
    if from < p {
        lemma_index_at(s, from + 1, p, b);
    }
}

proof fn lemma_octets_compose(a: u32)
    ensures
        address_from_octets(
            (a / 16777216) as u8,
            ((a / 65536) % 256) as u8,
            ((a / 256) % 256) as u8,
            (a % 256) as u8,
        ) == a,
{
    let q1 = a / 256;
    let q2 = q1 / 256;
    let q3 = q2 / 256;
    assert(a == q1 * 256 + a % 256);
    assert(q1 == q2 * 256 + q1 % 256);
    assert(q2 == q3 * 256 + q2 % 256);
    assert(a / 65536 == q2) by {
        vstd::arithmetic::div_mod::lemma_div_denominator(a as int, 256, 256);
    }
    assert(a / 16777216 == q3) by {
        vstd::arithmetic::div_mod::lemma_div_denominator(a as int, 65536, 256);
    }
    assert(q3 < 256);
}

/// Reading back the text of an address gives the address.
#[verifier::rlimit(50)]
pub proof fn lemma_ip_text_round_trip(a: u32)
    ensures
        address_of(ip_text(a)) == Some(a),
        forall|i: int| 0 <= i < ip_text(a).len() ==> #[trigger] ip_text(a)[i] != 10u8,
{
    let o1 = (a / 16777216) as u8;
    let o2 = ((a / 65536) % 256) as u8;
    let o3 = ((a / 256) % 256) as u8;
    let o4 = (a % 256) as u8;
    let (t1, t2, t3, t4) = (octet_text(o1), octet_text(o2), octet_text(o3), octet_text(o4));
    lemma_octet_text(o1);
    lemma_octet_text(o2);
    lemma_octet_text(o3);
    lemma_octet_text(o4);
    let s = ip_text(a);
    let p1 = t1.len() as int;
    let p2 = p1 + 1 + t2.len();
    let p3 = p2 + 1 + t3.len();
    assert(s.len() == p3 + 1 + t4.len());
    assert forall|k: int| 0 <= k < p1 implies s[k] == #[trigger] t1[k] by {}
    assert forall|k: int| p1 < k < p2 implies s[k] == #[trigger] t2[k - p1 - 1] by {}
    assert forall|k: int| p2 < k < p3 implies s[k] == #[trigger] t3[k - p2 - 1] by {}
    assert forall|k: int| p3 < k < s.len() implies s[k] == #[trigger] t4[k - p3 - 1] by {}
    assert(s[p1] == 46 && s[p2] == 46 && s[p3] == 46);
    assert forall|k: int| 0 <= k < p1 implies #[trigger] s[k] != 46u8 by { assert(is_digit(t1[k])); }
    assert forall|k: int| p1 + 1 <= k < p2 implies #[trigger] s[k] != 46u8 by { assert(is_digit(t2[k - p1 - 1])); }
    assert forall|k: int| p2 + 1 <= k < p3 implies #[trigger] s[k] != 46u8 by { assert(is_digit(t3[k - p2 - 1])); }
    assert forall|k: int| p3 + 1 <= k < s.len() implies #[trigger] s[k] != 46u8 by { assert(is_digit(t4[k - p3 - 1])); }
    lemma_index_at(s, 0, p1, 46);
    lemma_index_at(s, p1 + 1, p2, 46);
    lemma_index_at(s, p2 + 1, p3, 46);
    lemma_index_at(s, p3 + 1, s.len() as int, 46);
    assert(s.subrange(0, p1) =~= t1);
    assert(s.subrange(p1 + 1, p2) =~= t2);
    assert(s.subrange(p2 + 1, p3) =~= t3);
    assert(s.subrange(p3 + 1, s.len() as int) =~= t4);
    lemma_octets_compose(a);
    assert forall|i: int| 0 <= i < s.len() implies #[trigger] s[i] != 10u8 by {
        if i < p1 { assert(is_digit(t1[i])); }
        else if p1 < i < p2 { assert(is_digit(t2[i - p1 - 1])); }
        else if p2 < i < p3 { assert(is_digit(t3[i - p2 - 1])); }
        else if p3 < i { assert(is_digit(t4[i - p3 - 1])); }
    }
}

fn push_octet(v: &mut Vec<u8>, n: u8)
    ensures
        final(v)@ == old(v)@ + octet_text(n),
{
    if n >= 100 {
        v.push(48 + n / 100);
        v.push(48 + (n / 10) % 10);
        v.push(48 + n % 10);
    } else if n >= 10 {
        v.push(48 + n / 10);
        v.push(48 + n % 10);
    } else {
        v.push(48 + n);
    }
    assert(v@ =~= old(v)@ + octet_text(n));
}

/// Appends the dotted-decimal text of `a` to `v`.
pub fn push_ip_text(v: &mut Vec<u8>, a: u32)
    ensures
        final(v)@ == old(v)@ + ip_text(a),
{
    push_octet(v, (a / 16777216) as u8);
    v.push(46);
    push_octet(v, ((a / 65536) % 256) as u8);
    v.push(46);
    push_octet(v, ((a / 256) % 256) as u8);
    v.push(46);
    push_octet(v, (a % 256) as u8);
    assert(v@ =~= old(v)@ + ip_text(a));
}

/// The dotted-decimal text of `a`.
pub fn format_ip(a: u32) -> (r: Vec<u8>)
    ensures
        r@ == ip_text(a),
{
    let mut v: Vec<u8> = Vec::new();
    push_ip_text(&mut v, a);
    assert(v@ =~= ip_text(a));
    v
}

} // verus!
