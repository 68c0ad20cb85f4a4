//! Byte-level helpers shared by the parsing and serialization stages:
//! equality of byte strings, splitting a line into tab-separated fields,
//! decimal parsing of coordinates, and decimal formatting of numbers.

use vstd::prelude::*;

verus! {

/// Tab, the field separator of both the region and the fragment format.
pub const TAB: u8 = 9;

/// True when the byte is an ASCII decimal digit.
pub open spec fn is_digit(b: u8) -> bool {
    0x30 <= b && b <= 0x39
}

/// Numeric value of an ASCII digit byte.
pub open spec fn digit_val(b: u8) -> nat {
    (b - 0x30) as nat
}

/// True when every byte of `s` is an ASCII decimal digit.
pub open spec fn all_digits(s: Seq<u8>) -> bool {
    forall|i: int| 0 <= i < s.len() ==> is_digit(s[i])
}

/// Value of a string of decimal digits, most significant first.
pub open spec fn dec_value(s: Seq<u8>) -> nat
    decreases s.len(),
{
    if s.len() == 0 {
        0
    } else {
        dec_value(s.drop_last()) * 10 + digit_val(s.last())
    }
}

/// The digit part of an unsigned decimal field: an optional leading `+`
/// sign is dropped, as unsigned parsing of the standard library drops it.
pub open spec fn dec_digits_of(s: Seq<u8>) -> Seq<u8> {
    if s.len() > 0 && s[0] == 0x2b {
        s.drop_first()
    } else {
        s
    }
}

/// The value of a well-formed unsigned decimal field that fits in `u32`,
/// and `None` for every other field.
pub open spec fn spec_parse_u32(s: Seq<u8>) -> Option<u32> {
    let d = dec_digits_of(s);
    if d.len() > 0 && all_digits(d) && dec_value(d) <= u32::MAX {
        Some(dec_value(d) as u32)
    } else {
        None
    }
}

/// The views of a list of owned lines.
pub open spec fn views_of(lines: Seq<Vec<u8>>) -> Seq<Seq<u8>> {
    lines.map_values(|l: Vec<u8>| l@)
}

/// Byte-string equality.
pub fn bytes_eq(a: &[u8], b: &[u8]) -> (r: bool)
    ensures
        r == (a@ == b@),
{
    if a.len() != b.len() {
        assert(a@ != b@) by {
            assert(a@.len() != b@.len());
        }
        return false;
    }
    let n = a.len();
    let mut i: usize = 0;
    while i < n
        invariant
            n == a@.len() == b@.len(),
            0 <= i <= n,
            forall|j: int| 0 <= j < i ==> a@[j] == b@[j],
        decreases n - i,
    {
        if a[i] != b[i] {
            assert(a@ != b@);
            return false;
        }
        i += 1;
    }
    assert(a@ =~= b@);
    true
}

/// The fields of `s` split on the separator `sep`: an empty line yields one
/// empty field, and a trailing separator yields a final empty field, as
/// splitting a string on a character does.
pub open spec fn spec_split(s: Seq<u8>, sep: u8) -> Seq<Seq<u8>>
    decreases s.len(),
{
    if s.len() == 0 {
        seq![s]
    } else if s[0] == sep {
        seq![Seq::<u8>::empty()] + spec_split(s.drop_first(), sep)
    } else {
        let rest = spec_split(s.drop_first(), sep);
        seq![seq![s[0]] + rest[0]] + rest.skip(1)
    }
}

/// Splitting always yields at least one field.
pub proof fn lemma_split_len(s: Seq<u8>, sep: u8)
    ensures
        spec_split(s, sep).len() >= 1,
    decreases s.len(),
{
    if s.len() > 0 {
        lemma_split_len(s.drop_first(), sep);
    }
}

/// `spec_split` steps at the first separator.
proof fn lemma_split_at_first_sep(s: Seq<u8>, sep: u8, i: int)
    requires
        0 <= i < s.len(),
        s[i] == sep,
        forall|j: int| 0 <= j < i ==> s[j] != sep,
    ensures
        spec_split(s, sep) == seq![s.take(i)] + spec_split(s.skip(i + 1), sep),
    decreases s.len(),
{
    if i == 0 {
        assert(s.take(0) =~= Seq::<u8>::empty());
        assert(s.drop_first() =~= s.skip(1));
        assert(seq![s.take(0)] + spec_split(s.skip(1), sep) =~= spec_split(s, sep));
    } else {
        let t = s.drop_first();
        assert(forall|j: int| 0 <= j < i - 1 ==> t[j] != sep);
        assert(t[i - 1] == sep);
        lemma_split_at_first_sep(t, sep, i - 1);
        lemma_split_len(t.skip(i), sep);
        let rest = spec_split(t, sep);
        assert(rest == seq![t.take(i - 1)] + spec_split(t.skip(i), sep));
        assert(rest[0] == t.take(i - 1));
        assert(seq![s[0]] + t.take(i - 1) =~= s.take(i));
        assert(rest.skip(1) =~= spec_split(t.skip(i), sep));
        assert(t.skip(i) =~= s.skip(i + 1));
        assert(spec_split(s, sep) =~= seq![s.take(i)] + spec_split(s.skip(i + 1), sep));
    }
}

/// `spec_split` of a separator-free string is that one field.
proof fn lemma_split_no_sep(s: Seq<u8>, sep: u8)
    requires
        forall|j: int| 0 <= j < s.len() ==> s[j] != sep,
    ensures
        spec_split(s, sep) == seq![s],
    decreases s.len(),
{
    if s.len() == 0 {
    } else {
        let t = s.drop_first();
        lemma_split_no_sep(t, sep);
        let rest = spec_split(t, sep);
        assert(rest[0] == t);
        assert(seq![s[0]] + t =~= s);
        assert(rest.skip(1) =~= Seq::<Seq<u8>>::empty());
        assert(spec_split(s, sep) =~= seq![s]);
    }
}

/// Splits a line into its fields on the byte `sep`.
pub fn split_fields(line: &[u8], sep: u8) -> (r: Vec<Vec<u8>>)
    ensures
        r@.map_values(|f: Vec<u8>| f@) == spec_split(line@, sep),
{
    let mut fields: Vec<Vec<u8>> = Vec::new();
    let mut cur: Vec<u8> = Vec::new();
    let n = line.len();
    let ghost mut start: int = 0;
    let mut i: usize = 0;
    proof {
        assert(line@.skip(0) =~= line@);
        assert(cur@ =~= line@.subrange(0, 0));
        assert(fields@.map_values(|f: Vec<u8>| f@) =~= Seq::<Seq<u8>>::empty());
    }
    while i < n
        invariant
            n == line@.len(),
            0 <= start <= i <= n,
            cur@ == line@.subrange(start, i as int),
            forall|j: int| start <= j < i ==> line@[j] != sep,
            spec_split(line@, sep) =~= fields@.map_values(|f: Vec<u8>| f@) + spec_split(
                line@.skip(start),
                sep,
            ),
        decreases n - i,
    {
        let b = line[i];
        if b == sep {
            let ghost tail = line@.skip(start);
            let ghost old_fields = fields@.map_values(|f: Vec<u8>| f@);
            proof {
                assert(tail[i - start] == sep);
                assert(forall|j: int| 0 <= j < i - start ==> tail[j] != sep);
                lemma_split_at_first_sep(tail, sep, i - start);
                assert(tail.take(i - start) =~= line@.subrange(start, i as int));
                assert(tail.skip(i - start + 1) =~= line@.skip(i + 1));
            }
            let done = cur;
            cur = Vec::new();
            fields.push(done);
            proof {
                assert(fields@.map_values(|f: Vec<u8>| f@) =~= old_fields.push(
                    line@.subrange(start, i as int),
                ));
                assert(old_fields.push(line@.subrange(start, i as int)) + spec_split(
                    line@.skip(i + 1),
                    sep,
                ) =~= old_fields + (seq![line@.subrange(start, i as int)] + spec_split(
                    line@.skip(i + 1),
                    sep,
                )));
                start = i as int + 1;
                assert(cur@ =~= line@.subrange(start, i + 1));
            }
        } else {
            cur.push(b);
            proof {
                assert(cur@ =~= line@.subrange(start, i + 1));
            }
        }
        i += 1;
    }
    let ghost old_fields = fields@.map_values(|f: Vec<u8>| f@);
    proof {
        let tail = line@.skip(start);
        assert(forall|j: int| 0 <= j < tail.len() ==> tail[j] != sep) by {
            assert(forall|j: int| 0 <= j < tail.len() ==> tail[j] == line@[j + start]);
        }
        lemma_split_no_sep(tail, sep);
        assert(cur@ =~= tail);
    }
    fields.push(cur);
    proof {
        assert(fields@.map_values(|f: Vec<u8>| f@) =~= old_fields.push(line@.skip(start)));
        assert(old_fields + seq![line@.skip(start)] =~= old_fields.push(line@.skip(start)));
        assert(fields@.map_values(|f: Vec<u8>| f@) =~= spec_split(line@, sep));
    }
    fields
}

/// On an all-digit string the value never shrinks as digits are appended.
proof fn lemma_dec_value_prefix(d: Seq<u8>, k: int)
    requires
        0 <= k <= d.len(),
        all_digits(d),
    ensures
        dec_value(d) >= dec_value(d.take(k)),
    decreases d.len() - k,
{
    if k < d.len() {
        assert(d.take(k + 1).drop_last() =~= d.take(k));
        assert(dec_value(d.take(k + 1)) == dec_value(d.take(k)) * 10 + digit_val(d.take(k + 1).last()));
        assert(dec_value(d.take(k)) * 10 >= dec_value(d.take(k))) by (nonlinear_arith);
        lemma_dec_value_prefix(d, k + 1);
    } else {
        assert(d.take(k) =~= d);
    }
}

/// Parses an unsigned 32-bit decimal field, exactly as the specification
/// `spec_parse_u32` describes it.
pub fn parse_u32(s: &[u8]) -> (r: Option<u32>)
    ensures
        r == spec_parse_u32(s@),
{
    let start: usize = if s.len() > 0 && s[0] == 0x2b {
        1
    } else {
        0
    };
    let ghost d = dec_digits_of(s@);
    proof {
        assert(d =~= s@.skip(start as int));
    }
    if s.len() == start {
        return None;
    }
    let n = s.len();
    let mut acc: u64 = 0;
    let mut i: usize = start;
    while i < n
        invariant
            n == s@.len(),
            start <= i <= n,
            d == dec_digits_of(s@),
            d == s@.skip(start as int),
            d.len() == n - start,
            forall|j: int| start <= j < i ==> is_digit(s@[j]),
            acc == dec_value(d.take(i - start)),
            acc <= u32::MAX,
        decreases n - i,
    {
        let b = s[i];
        if b < 0x30 || b > 0x39 {
            proof {
                assert(s@.skip(start as int)[i - start] == s@[i - start + start as int]);
                assert(d[i - start] == s@[i as int]);
                assert(!is_digit(d[i - start]));
                assert(!all_digits(d));
            }
            return None;
        }
        proof {
            assert(s@.skip(start as int)[i - start] == s@[i - start + start as int]);
            assert(d[i - start] == s@[i as int]);
            assert(is_digit(s@[i as int]));
        }
        proof {
            assert(acc * 10 + 9 <= 42949672959) by (nonlinear_arith)
                requires
                    acc <= u32::MAX,
            ;
        }
        let acc2: u64 = acc * 10 + (b - 0x30) as u64;
        proof {
            assert(d.take(i - start + 1).drop_last() =~= d.take(i - start));
            assert(d.take(i - start + 1).last() == d[i - start]);
            assert(dec_value(d.take(i - start + 1)) == dec_value(d.take(i - start)) * 10
                + digit_val(s@[i as int]));
            assert(acc2 == dec_value(d.take(i - start + 1)));
        }
        if acc2 > 0xffff_ffff {
            proof {
                if all_digits(d) {
                    lemma_dec_value_prefix(d, i - start + 1);
                    assert(dec_value(d) > u32::MAX);
                }
            }
            return None;
        }
        acc = acc2;
        i += 1;
    }
    proof {
        assert(d.take(n - start) =~= d);
        assert(all_digits(d)) by {
            assert(forall|j: int| 0 <= j < d.len() ==> d[j] == s@[j + start] && is_digit(s@[j + start]));
        }
    }
    Some(acc as u32)
}

/// Decimal representation of a number: most significant digit first,
/// no sign and no leading zeroes.
pub open spec fn dec_rep(n: nat) -> Seq<u8>
    decreases n,
{
    if n < 10 {
        seq![(0x30 + n) as u8]
    } else {
        dec_rep(n / 10).push((0x30 + n % 10) as u8)
    }
}

/// Formats a number in decimal.
pub fn u64_dec(x: u64) -> (r: Vec<u8>)
    ensures
        r@ == dec_rep(x as nat),
{
    let mut rev: Vec<u8> = Vec::new();
    let mut n: u64 = x;
    rev.push(0x30 + (n % 10) as u8);
    proof {
        assert(rev@.reverse() =~= seq![(0x30 + (x as nat) % 10) as u8]);
    }
    n = n / 10;
    while n > 0
        invariant
            dec_rep(x as nat) =~= if n > 0 {
                dec_rep(n as nat) + rev@.reverse()
            } else {
                rev@.reverse()
            },
        decreases n,
    {
        let d: u8 = 0x30 + (n % 10) as u8;
        let ghost old_rev = rev@;
        rev.push(d);
        proof {
            assert(rev@.reverse() =~= seq![d] + old_rev.reverse());
            if n >= 10 {
                assert(dec_rep(n as nat) == dec_rep((n as nat) / 10).push(d));
                assert(dec_rep((n as nat) / 10).push(d) + old_rev.reverse() =~= dec_rep(
                    (n as nat) / 10,
                ) + (seq![d] + old_rev.reverse()));
            } else {
                assert(dec_rep(n as nat) =~= seq![d]);
                assert(seq![d] + old_rev.reverse() =~= rev@.reverse());
            }
        }
        n = n / 10;
    }
    let mut r: Vec<u8> = Vec::new();
    let mut j: usize = rev.len();
    while j > 0
        invariant
            0 <= j <= rev@.len(),
            r@ =~= rev@.reverse().take(rev@.len() - j),
        decreases j,
    {
        j -= 1;
        r.push(rev[j]);
        proof {
            assert(r@ =~= rev@.reverse().take(rev@.len() - j));
        }
    }
    proof {
        assert(rev@.reverse().take(rev@.len() as int) =~= rev@.reverse());
    }
    r
}

} // verus!
