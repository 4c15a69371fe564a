use vstd::prelude::*;

verus! {

/// Outcome of comparing received bytes with a fixed literal: `Some(true)`
/// when they start with it, `None` while they are still a strict prefix of
/// it, `Some(false)` when they can no longer match.
pub open spec fn prefix_match(rest: Seq<u8>, lit: Seq<u8>) -> Option<bool> {
    if rest.len() >= lit.len() {
        Some(rest.take(lit.len() as int) == lit)
    } else if rest == lit.take(rest.len() as int) {
        None
    } else {
        Some(false)
    }
}

/// Index of the first `c` at or after `i`.
pub open spec fn find_byte(buf: Seq<u8>, i: int, c: u8) -> Option<int>
    decreases buf.len() - i,
{
    if i < 0 || i >= buf.len() {
        None
    } else if buf[i] == c {
        Some(i)
    } else {
        find_byte(buf, i + 1, c)
    }
}

/// Index of the first `\r\n` that starts at or after `i`.
pub open spec fn find_crlf(buf: Seq<u8>, i: int) -> Option<int>
    decreases buf.len() - i,
{
    if i < 0 || i + 1 >= buf.len() {
        None
    } else if buf[i] == 13u8 && buf[i + 1] == 10u8 {
        Some(i)
    } else {
        find_crlf(buf, i + 1)
    }
}

pub open spec fn lower(b: u8) -> u8 {
    if 65 <= b <= 90 {
        (b + 32) as u8
    } else {
        b
    }
}

/// `line` begins with `name` (given in lower case), ignoring ASCII case.
pub open spec fn has_name(line: Seq<u8>, name: Seq<u8>) -> bool {
    line.len() >= name.len() && forall|j: int| 0 <= j < name.len() ==> lower(#[trigger] line[j]) == name[j]
}

/// Index of the first byte at or after `i` that is neither a space nor a tab.
pub open spec fn skip_ws(s: Seq<u8>, i: int) -> int
    decreases s.len() - i,
{
    if 0 <= i < s.len() && (s[i] == 32u8 || s[i] == 9u8) {
        skip_ws(s, i + 1)
    } else {
        i
    }
}

pub open spec fn is_digit(b: u8) -> bool {
    48 <= b <= 57
}

/// The decimal number written by the digits of `s`.
pub open spec fn decimal(s: Seq<u8>) -> nat
    decreases s.len(),
{
    if s.len() == 0 {
        0
    } else {
        decimal(s.drop_last()) * 10 + (s.last() - 48) as nat
    }
}

pub open spec fn all_digits(s: Seq<u8>) -> bool {
    forall|j: int| 0 <= j < s.len() ==> is_digit(#[trigger] s[j])
}

pub proof fn lemma_prefix_match_extends(rest: Seq<u8>, lit: Seq<u8>, q: Seq<u8>)
    requires
        prefix_match(rest, lit) is Some,
    ensures
        prefix_match(rest + q, lit) == prefix_match(rest, lit),
{
    let r2 = rest + q;
    if rest.len() >= lit.len() {
        assert(r2.take(lit.len() as int) =~= rest.take(lit.len() as int));
    } else {
        assert(rest != lit.take(rest.len() as int));
        let j = choose|j: int| 0 <= j < rest.len() && rest[j] != lit[j];
        assert(0 <= j < rest.len() && rest[j] != lit[j]) by {
            assert(!(rest =~= lit.take(rest.len() as int)));
        }
        if r2.len() >= lit.len() {
            assert(r2.take(lit.len() as int)[j] != lit[j]);
        } else {
            assert(r2[j] != lit.take(r2.len() as int)[j]);
        }
    }
}

pub proof fn lemma_find_byte_extends(buf: Seq<u8>, i: int, c: u8, q: Seq<u8>)
    requires
        find_byte(buf, i, c) is Some,
    ensures
        find_byte(buf + q, i, c) == find_byte(buf, i, c),
    decreases buf.len() - i,
{
    if buf[i] != c {
        lemma_find_byte_extends(buf, i + 1, c, q);
    }
}

pub proof fn lemma_find_byte_range(buf: Seq<u8>, i: int, c: u8)
    ensures
        find_byte(buf, i, c) matches Some(k) ==> i <= k < buf.len() && buf[k] == c,
    decreases buf.len() - i,
{
    if 0 <= i < buf.len() && buf[i] != c {
        lemma_find_byte_range(buf, i + 1, c);
    }
}

pub proof fn lemma_find_crlf_extends(buf: Seq<u8>, i: int, q: Seq<u8>)
    requires
        find_crlf(buf, i) is Some,
    ensures
        find_crlf(buf + q, i) == find_crlf(buf, i),
    decreases buf.len() - i,
{
    if !(buf[i] == 13u8 && buf[i + 1] == 10u8) {
        lemma_find_crlf_extends(buf, i + 1, q);
    }
}

pub proof fn lemma_find_crlf_range(buf: Seq<u8>, i: int)
    ensures
        find_crlf(buf, i) matches Some(k) ==> i <= k && k + 2 <= buf.len(),
    decreases buf.len() - i,
{
    if 0 <= i && i + 1 < buf.len() && !(buf[i] == 13u8 && buf[i + 1] == 10u8) {
        lemma_find_crlf_range(buf, i + 1);
    }
}

pub proof fn lemma_skip_ws_range(s: Seq<u8>, i: int)
    requires
        0 <= i <= s.len(),
    ensures
        i <= skip_ws(s, i) <= s.len(),
    decreases s.len() - i,
{
    if i < s.len() && (s[i] == 32u8 || s[i] == 9u8) {
        lemma_skip_ws_range(s, i + 1);
    }
}

pub proof fn lemma_decimal_prefix_le(s: Seq<u8>, i: int)
    requires
        0 <= i <= s.len(),
        all_digits(s),
    ensures
        decimal(s.take(i)) <= decimal(s),
    decreases s.len() - i,
{
    if i < s.len() {
        lemma_decimal_prefix_le(s, i + 1);
        let t = s.take(i + 1);
        assert(t.drop_last() =~= s.take(i));
        assert(t.last() == s[i]);
        assert(is_digit(s[i]));
        assert(decimal(t) == decimal(s.take(i)) * 10 + (s[i] - 48) as nat);
        assert(decimal(s.take(i)) * 10 >= decimal(s.take(i))) by (nonlinear_arith);
    } else {
        assert(s.take(i) =~= s);
    }
}

/// Compares `buf[start..]` with `lit`, as `prefix_match` states.
pub fn match_literal(buf: &[u8], start: usize, lit: &[u8]) -> (r: Option<bool>)
    requires
        start <= buf@.len(),
    ensures
        r == prefix_match(buf@.skip(start as int), lit@),
{
    let ghost rest = buf@.skip(start as int);
    let avail = buf.len() - start;
    let n = if avail < lit.len() { avail } else { lit.len() };
    let mut j: usize = 0;
    while j < n
        invariant
            0 <= j <= n,
            n == if rest.len() < lit@.len() { rest.len() } else { lit@.len() },
            rest == buf@.skip(start as int),
            start + avail == buf@.len(),
            start + avail <= usize::MAX,
            avail == rest.len(),
            forall|k: int| 0 <= k < j ==> rest[k] == lit@[k],
        decreases n - j,
    {
        if buf[start + j] != lit[j] {
            proof {
                assert(rest[j as int] != lit@[j as int]);
                if rest.len() >= lit@.len() {
                    assert(rest.take(lit@.len() as int)[j as int] != lit@[j as int]);
                } else {
                    assert(rest[j as int] != lit@.take(rest.len() as int)[j as int]);
                }
            }
            return Some(false);
        }
        j = j + 1;
    }
    if avail >= lit.len() {
        proof {
            assert(rest.take(lit@.len() as int) =~= lit@);
        }
        Some(true)
    } else {
        proof {
            assert(rest =~= lit@.take(rest.len() as int));
        }
        None
    }
}

/// Finds the first `c` at or after `start`.
pub fn scan_byte(buf: &[u8], start: usize, c: u8) -> (r: Option<usize>)
    requires
        start <= buf@.len(),
    ensures
        r matches Some(k) ==> find_byte(buf@, start as int, c) == Some(k as int),
        r is None ==> find_byte(buf@, start as int, c) is None,
{
    let mut i = start;
    while i < buf.len()
        invariant
            start <= i <= buf@.len(),
            find_byte(buf@, start as int, c) == find_byte(buf@, i as int, c),
        decreases buf@.len() - i,
    {
        if buf[i] == c {
            return Some(i);
        }
        i = i + 1;
    }
    None
}

/// Finds the first `\r\n` at or after `start`.
pub fn scan_crlf(buf: &[u8], start: usize) -> (r: Option<usize>)
    requires
        start <= buf@.len(),
    ensures
        r matches Some(k) ==> find_crlf(buf@, start as int) == Some(k as int),
        r is None ==> find_crlf(buf@, start as int) is None,
{
    let mut i = start;
    while buf.len() - i > 1
        invariant
            start <= i <= buf@.len(),
            find_crlf(buf@, start as int) == find_crlf(buf@, i as int),
        decreases buf@.len() - i,
    {
        if buf[i] == 13u8 && buf[i + 1] == 10u8 {
            return Some(i);
        }
        i = i + 1;
    }
    None
}

/// Whether `line` begins with the lower-case `name`, ignoring ASCII case.
pub fn starts_with_name(line: &[u8], name: &[u8]) -> (r: bool)
    ensures
        r == has_name(line@, name@),
{
    if line.len() < name.len() {
        return false;
    }
    let mut j: usize = 0;
    while j < name.len()
        invariant
            j <= name@.len() <= line@.len(),
            forall|k: int| 0 <= k < j ==> lower(#[trigger] line@[k]) == name@[k],
        decreases name@.len() - j,
    {
        let b = line[j];
        let l = if 65 <= b && b <= 90 { b + 32 } else { b };
        if l != name[j] {
            return false;
        }
        j = j + 1;
    }
    true
}

/// Skips spaces and tabs from `i`.
pub fn skip_spaces(s: &[u8], i: usize) -> (r: usize)
    requires
        i <= s@.len(),
    ensures
        r == skip_ws(s@, i as int),
{
    let mut k = i;
    while k < s.len() && (s[k] == 32u8 || s[k] == 9u8)
        invariant
            i <= k <= s@.len(),
            skip_ws(s@, i as int) == skip_ws(s@, k as int),
        decreases s@.len() - k,
    {
        k = k + 1;
    }
    k
}

/// Reads `s[from..]` as a decimal number that fits in a `usize`.
pub fn parse_decimal(s: &[u8], from: usize) -> (r: Option<usize>)
    requires
        from <= s@.len(),
    ensures
        ({
            let d = s@.skip(from as int);
            match r {
                Some(v) => d.len() > 0 && all_digits(d) && v == decimal(d),
                None => !(d.len() > 0 && all_digits(d) && decimal(d) <= usize::MAX),
            }
        }),
{
    let ghost d = s@.skip(from as int);
    if from == s.len() {
        return None;
    }
    let mut acc: usize = 0;
    let mut i = from;
    while i < s.len()
        invariant
            from <= i <= s@.len(),
            d == s@.skip(from as int),
            all_digits(d.take(i - from)),
            acc == decimal(d.take(i - from)),
        decreases s@.len() - i,
    {
        let b = s[i];
        proof {
            assert(d.take(i - from + 1).drop_last() =~= d.take(i - from));
            assert(d.take(i - from + 1).last() == b);
        }
        if !(48 <= b && b <= 57) {
            proof {
                assert(d[i - from] == b);
            }
            return None;
        }
        let digit = (b - 48) as usize;
        if acc > (usize::MAX - digit) / 10 {
            proof {
                assert(acc * 10 + digit > usize::MAX) by (nonlinear_arith)
                    requires acc > (usize::MAX - digit) / 10, digit <= 9;
                let t = d.take(i - from + 1);
                assert(t.drop_last() =~= d.take(i - from));
                assert(decimal(t) == acc * 10 + digit);
                if all_digits(d) {
                    lemma_decimal_prefix_le(d, i - from + 1);
                }
            }
            return None;
        }
        acc = acc * 10 + digit;
        proof {
            assert forall|k: int| 0 <= k < i - from + 1 implies is_digit(#[trigger] d.take(i - from + 1)[k]) by {
                if k < i - from {
                    assert(d.take(i - from + 1)[k] == d.take(i - from)[k]);
                }
            }
        }
        i = i + 1;
    }
    proof {
        assert(d.take(i - from) =~= d);
    }
    Some(acc)
}

} // verus!
