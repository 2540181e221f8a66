//! Parsing of the textual name-to-address symbol table.
//!
//! Each line holds a symbol name, a space, and a 16-bit hex address.  Blank
//! lines and generated link bookkeeping symbols are skipped; a malformed
//! address is a fatal error.  Later lines override earlier ones at lookup.

use vstd::prelude::*;
use crate::errors::ToolLibError;

verus! {

/// Value of an ASCII hex digit, or a negative marker for any other byte.
pub open spec fn hex_digit(b: u8) -> int {
    if 48 <= b <= 57 {
        b - 48
    } else if 65 <= b <= 70 {
        b - 55
    } else if 97 <= b <= 102 {
        b - 87
    } else {
        -1
    }
}

/// Parse hex digits left to right onto an accumulator; fails on a non-digit
/// or as soon as the value leaves the 16-bit range, as the standard
/// unsigned parse does.
pub open spec fn parse_hex_digits(s: Seq<u8>, acc: int) -> Option<int>
    decreases s.len(),
{
    if s.len() == 0 {
        Some(acc)
    } else if hex_digit(s[0]) < 0 {
        None
    } else if acc * 16 + hex_digit(s[0]) > 0xFFFF {
        None
    } else {
        parse_hex_digits(s.drop_first(), acc * 16 + hex_digit(s[0]))
    }
}

/// A 16-bit value parsed from hex text, with an optional leading plus and
/// at least one digit.
pub open spec fn parse_hex_u16(s: Seq<u8>) -> Option<int> {
    let t = if s.len() > 0 && s[0] == 43 {
        s.drop_first()
    } else {
        s
    };
    if t.len() == 0 {
        None
    } else {
        parse_hex_digits(t, 0)
    }
}

/// Parse a 16-bit hex address exactly as the standard library's unsigned
/// radix-16 parse accepts it.
pub fn hex_addr(s: &[u8]) -> (r: Option<u16>)
    ensures
        r matches Some(v) ==> parse_hex_u16(s@) == Some(v as int),
        r is None ==> parse_hex_u16(s@) is None,
{
    let mut i: usize = 0;
    if s.len() > 0 && s[0] == 43 {
        i = 1;
    }
    if i >= s.len() {
        return None;
    }
    let mut acc: u32 = 0;
    proof {
        if s@.len() > 0 && s@[0] == 43 {
            assert(s@.drop_first() =~= s@.skip(1));
        } else {
            assert(s@ =~= s@.skip(0));
        }
    }
    while i < s.len()
        invariant
            i <= s@.len(),
            acc <= 0xFFFF,
            parse_hex_u16(s@) == parse_hex_digits(s@.skip(i as int), acc as int),
        decreases s@.len() - i,
    {
        let b = s[i];
        let d: u32 = if 48 <= b && b <= 57 {
            (b - 48) as u32
        } else if 65 <= b && b <= 70 {
            (b - 55) as u32
        } else if 97 <= b && b <= 102 {
            (b - 87) as u32
        } else {
            return None;
        };
        if acc * 16 + d > 0xFFFF {
            return None;
        }
        acc = acc * 16 + d;
        proof {
            assert(s@.skip(i as int).drop_first() =~= s@.skip(i + 1));
        }
        i += 1;
    }
    proof {
        assert(s@.skip(s@.len() as int) =~= Seq::<u8>::empty());
    }
    Some(acc as u16)
}

/// ASCII whitespace, as trimming removes at a token's ends.
pub open spec fn is_space(b: u8) -> bool {
    b == 32 || (9 <= b <= 13)
}

/// A token with leading whitespace removed.
pub open spec fn trim_start_spec(s: Seq<u8>) -> Seq<u8>
    decreases s.len(),
{
    if s.len() > 0 && is_space(s[0]) {
        trim_start_spec(s.drop_first())
    } else {
        s
    }
}

/// A token with trailing whitespace removed.
pub open spec fn trim_end_spec(s: Seq<u8>) -> Seq<u8>
    decreases s.len(),
{
    if s.len() > 0 && is_space(s.last()) {
        trim_end_spec(s.drop_last())
    } else {
        s
    }
}

/// A token with whitespace removed at both ends.
pub open spec fn trim_spec(s: Seq<u8>) -> Seq<u8> {
    trim_end_spec(trim_start_spec(s))
}

/// Remove whitespace at both ends of a token.
pub fn trim_bytes(v: &[u8]) -> (r: Vec<u8>)
    ensures
        r@ == trim_spec(v@),
{
    let mut lo: usize = 0;
    proof {
        assert(v@ =~= v@.skip(0));
    }
    while lo < v.len() && is_space_byte(v[lo])
        invariant
            lo <= v@.len(),
            trim_start_spec(v@) == trim_start_spec(v@.skip(lo as int)),
        decreases v@.len() - lo,
    {
        proof {
            assert(v@.skip(lo as int).drop_first() =~= v@.skip(lo + 1));
        }
        lo += 1;
    }
    proof {
        assert(trim_start_spec(v@) == v@.skip(lo as int));
    }
    proof {
        assert(v@.skip(lo as int) =~= v@.subrange(lo as int, v@.len() as int));
    }
    let mut hi: usize = v.len();
    while hi > lo && is_space_byte(v[hi - 1])
        invariant
            lo <= hi <= v@.len(),
            trim_start_spec(v@) == v@.skip(lo as int),
            trim_end_spec(v@.skip(lo as int)) == trim_end_spec(v@.subrange(lo as int, hi as int)),
        decreases hi,
    {
        proof {
            assert(v@.subrange(lo as int, hi as int).drop_last() =~= v@.subrange(
                lo as int,
                hi - 1,
            ));
        }
        hi -= 1;
    }
    proof {
        assert(trim_spec(v@) == v@.subrange(lo as int, hi as int));
    }
    let mut r: Vec<u8> = Vec::new();
    let mut i: usize = lo;
    while i < hi
        invariant
            lo <= i <= hi <= v@.len(),
            r@ =~= v@.subrange(lo as int, i as int),
        decreases hi - i,
    {
        r.push(v[i]);
        proof {
            assert(r@ =~= v@.subrange(lo as int, i + 1));
        }
        i += 1;
    }
    proof {
        assert(r@ =~= trim_spec(v@));
    }
    r
}

/// Whether a byte is trimmed whitespace.
fn is_space_byte(b: u8) -> (r: bool)
    ensures
        r == is_space(b),
{
    b == 32 || (9 <= b && b <= 13)
}

/// Whether `p` is a prefix of `s`.
pub open spec fn is_prefix(p: Seq<u8>, s: Seq<u8>) -> bool {
    p.len() <= s.len() && s.take(p.len() as int) == p
}

/// A bookkeeping symbol name that the table skips: a generated headerless
/// word, or a dictionary link marker.
pub open spec fn skipped_name(n: Seq<u8>) -> bool {
    ||| is_prefix(seq![110u8, 111u8, 110u8, 97u8, 109u8, 101u8, 46u8], n)  // "noname."
    ||| is_prefix(seq![76u8, 73u8, 78u8, 75u8, 95u8], n)  // "LINK_"
    ||| is_prefix(seq![76u8, 65u8, 83u8, 84u8, 95u8], n)  // "LAST_"
}

/// Whether a trimmed name is one of the skipped bookkeeping symbols.
fn is_skipped_name(n: &Vec<u8>) -> (r: bool)
    ensures
        r == skipped_name(n@),
{
    let noname = n.len() >= 7 && n[0] == 110 && n[1] == 111 && n[2] == 110 && n[3] == 97 && n[4]
        == 109 && n[5] == 101 && n[6] == 46;
    let link = n.len() >= 5 && n[0] == 76 && n[1] == 73 && n[2] == 78 && n[3] == 75 && n[4] == 95;
    let last = n.len() >= 5 && n[0] == 76 && n[1] == 65 && n[2] == 83 && n[3] == 84 && n[4] == 95;
    proof {
        if n@.len() >= 7 {
            assert(n@.take(7) =~= seq![n@[0], n@[1], n@[2], n@[3], n@[4], n@[5], n@[6]]);
        }
        if n@.len() >= 5 {
            assert(n@.take(5) =~= seq![n@[0], n@[1], n@[2], n@[3], n@[4]]);
        }
    }
    noname || link || last
}

/// A token split at the first occurrence of byte `b`: the text before it,
/// and the text after it (empty when `b` does not occur).
pub open spec fn split_at_byte(s: Seq<u8>, b: u8) -> (Seq<u8>, Seq<u8>)
    decreases s.len(),
{
    if s.len() == 0 {
        (Seq::empty(), Seq::empty())
    } else if s[0] == b {
        (Seq::empty(), s.drop_first())
    } else {
        let r = split_at_byte(s.drop_first(), b);
        (seq![s[0]] + r.0, r.1)
    }
}

/// Where the first occurrence of `b` sits, the split is the prefix before
/// it and the suffix after it.
proof fn lemma_split_at_byte(s: Seq<u8>, b: u8, q: int)
    requires
        0 <= q <= s.len(),
        forall|x: int| 0 <= x < q ==> s[x] != b,
        q < s.len() ==> s[q] == b,
    ensures
        split_at_byte(s, b).0 == s.take(q),
        split_at_byte(s, b).1 == (if q < s.len() {
            s.skip(q + 1)
        } else {
            Seq::<u8>::empty()
        }),
    decreases s.len(),
{
    if s.len() == 0 {
        assert(s.take(0) =~= Seq::<u8>::empty());
    } else if q == 0 {
        assert(s.take(0) =~= Seq::<u8>::empty());
        assert(s.drop_first() =~= s.skip(1));
    } else {
        lemma_split_at_byte(s.drop_first(), b, q - 1);
        assert(seq![s[0]] + s.drop_first().take(q - 1) =~= s.take(q));
        if q < s.len() {
            assert(s.drop_first().skip(q) =~= s.skip(q + 1));
        }
    }
}

/// What one line contributes to the table: a malformed address (nothing at
/// all), a skipped line, or one (address, name) pair.
pub open spec fn line_entry(line: Seq<u8>) -> Option<Option<(u16, Seq<u8>)>> {
    let name = trim_spec(split_at_byte(line, 32).0);
    let addr = trim_spec(split_at_byte(line, 32).1);
    if name.len() == 0 || addr.len() == 0 {
        Some(None)
    } else if skipped_name(name) {
        Some(None)
    } else {
        match parse_hex_u16(addr) {
            Some(v) => Some(Some((v as u16, name))),
            None => None,
        }
    }
}

/// The suffix after a text's first line is shorter than the text.
proof fn lemma_line_rest_shorter(s: Seq<u8>)
    requires
        s.len() > 0,
    ensures
        split_at_byte(s, 10).1.len() < s.len(),
    decreases s.len(),
{
    if s[0] != 10 {
        if s.drop_first().len() > 0 {
            lemma_line_rest_shorter(s.drop_first());
        } else {
            assert(split_at_byte(s.drop_first(), 10).1 =~= Seq::<u8>::empty());
        }
        assert(split_at_byte(s, 10).1 == split_at_byte(s.drop_first(), 10).1);
    }
}

/// The (address, name) pairs of the whole text, in line order; nothing at
/// all when some line's address is malformed.
pub open spec fn table_entries(s: Seq<u8>) -> Option<Seq<(u16, Seq<u8>)>>
    decreases s.len(),
    via table_entries_dec
{
    if s.len() == 0 {
        Some(Seq::empty())
    } else {
        let parts = split_at_byte(s, 10);
        match line_entry(parts.0) {
            None => None,
            Some(None) => table_entries(parts.1),
            Some(Some(e)) => match table_entries(parts.1) {
                None => None,
                Some(rest) => Some(seq![e] + rest),
            },
        }
    }
}

#[via_fn]
proof fn table_entries_dec(s: Seq<u8>) {
    if s.len() > 0 {
        lemma_line_rest_shorter(s);
    }
}

/// The pairs as mathematical values.
pub open spec fn pairs_view(ps: Seq<(u16, Vec<u8>)>) -> Seq<(u16, Seq<u8>)> {
    ps.map_values(|pr: (u16, Vec<u8>)| (pr.0, pr.1@))
}

/// Parse the whole symbol table text into (address, name) pairs, in line
/// order.  Each line is split at its first space into a name and an
/// address; blank or bookkeeping lines are skipped, and a line whose
/// address is not 16-bit hex is a fatal error.  Every returned name is
/// nonempty, trimmed and not a bookkeeping symbol, and every address came
/// through the hex parse.
pub fn load_symbol_table(content: &[u8]) -> (r: Result<Vec<(u16, Vec<u8>)>, ToolLibError>)
    requires
        content@.len() < usize::MAX,
    ensures
        r is Ok <==> table_entries(content@) is Some,
        r matches Ok(ps) ==> table_entries(content@) == Some(pairs_view(ps@)),
        r matches Ok(ps) ==> forall|i: int|
            0 <= i < ps@.len() ==> {
                let n = (#[trigger] ps@[i]).1@;
                &&& n.len() > 0
                &&& !skipped_name(n)
                &&& n == trim_spec(n)
            },
{
    let mut pairs: Vec<(u16, Vec<u8>)> = Vec::new();
    let mut p: usize = 0;
    proof {
        assert(pairs_view(pairs@) =~= Seq::<(u16, Seq<u8>)>::empty());
        assert(content@.skip(0) =~= content@);
    }
    while p <= content.len()
        invariant
            content@.len() < usize::MAX,
            p <= content@.len() + 1,
            table_entries(content@) == (match (if p <= content@.len() {
                table_entries(content@.skip(p as int))
            } else {
                Some(Seq::<(u16, Seq<u8>)>::empty())
            }) {
                Option::None => Option::<Seq<(u16, Seq<u8>)>>::None,
                Option::Some(rest) => Option::Some(pairs_view(pairs@) + rest),
            }),
            forall|i: int|
                0 <= i < pairs@.len() ==> {
                    let n = (#[trigger] pairs@[i]).1@;
                    &&& n.len() > 0
                    &&& !skipped_name(n)
                    &&& n == trim_spec(n)
                },
        decreases content@.len() + 1 - p,
    {
        let ghost p0 = p;
        let ghost suffix = content@.skip(p0 as int);
        // collect one line
        let mut line: Vec<u8> = Vec::new();
        while p < content.len() && content[p] != 10
            invariant
                p0 <= p <= content@.len(),
                content@.len() < usize::MAX,
                suffix == content@.skip(p0 as int),
                line@ == content@.subrange(p0 as int, p as int),
                forall|x: int| p0 <= x < p ==> content@[x] != 10,
            decreases content@.len() - p,
        {
            let c = content[p];
            line.push(c);
            proof {
                assert(line@ =~= content@.subrange(p0 as int, p + 1));
            }
            p += 1;
        }
        proof {
            lemma_split_at_byte(suffix, 10, p - p0);
            assert(suffix.take(p - p0) =~= content@.subrange(p0 as int, p as int));
            assert(line@ == split_at_byte(suffix, 10).0);
            if (p as int) < content@.len() {
                assert(suffix.skip(p - p0 + 1) =~= content@.skip(p + 1));
            }
        }
        let ghost rest = split_at_byte(suffix, 10).1;
        p += 1;  // past the newline, or past the end to finish
        proof {
            if p <= content@.len() {
                assert(rest == content@.skip(p as int));
            } else {
                assert(rest =~= Seq::<u8>::empty());
                assert(table_entries(rest) == Some(Seq::<(u16, Seq<u8>)>::empty()));
            }
        }
        // split the line at its first space
        let mut name_raw: Vec<u8> = Vec::new();
        let mut addr_raw: Vec<u8> = Vec::new();
        let mut q: usize = 0;
        while q < line.len() && line[q] != 32
            invariant
                q <= line@.len(),
                name_raw@ == line@.subrange(0, q as int),
                forall|x: int| 0 <= x < q ==> line@[x] != 32,
            decreases line@.len() - q,
        {
            name_raw.push(line[q]);
            proof {
                assert(name_raw@ =~= line@.subrange(0, q + 1));
            }
            q += 1;
        }
        proof {
            lemma_split_at_byte(line@, 32, q as int);
            assert(line@.take(q as int) =~= line@.subrange(0, q as int));
            assert(name_raw@ == split_at_byte(line@, 32).0);
        }
        if q < line.len() {
            let mut q2: usize = q + 1;
            while q2 < line.len()
                invariant
                    q < q2 <= line@.len(),
                    addr_raw@ == line@.subrange(q + 1, q2 as int),
                decreases line@.len() - q2,
            {
                addr_raw.push(line[q2]);
                proof {
                    assert(addr_raw@ =~= line@.subrange(q + 1, q2 + 1));
                }
                q2 += 1;
            }
            proof {
                assert(line@.subrange(q + 1, line@.len() as int) =~= line@.skip(q + 1));
            }
        }
        proof {
            assert(addr_raw@ == split_at_byte(line@, 32).1);
        }
        let name = trim_bytes(name_raw.as_slice());
        let addr_txt = trim_bytes(addr_raw.as_slice());
        proof {
            if suffix.len() > 0 {
                assert(table_entries(suffix) == (match line_entry(line@) {
                    Option::None => Option::<Seq<(u16, Seq<u8>)>>::None,
                    Option::Some(Option::None) => table_entries(rest),
                    Option::Some(Option::Some(e)) => match table_entries(rest) {
                        Option::None => Option::None,
                        Option::Some(r2) => Option::Some(seq![e] + r2),
                    },
                }));
            } else {
                assert(line@ =~= Seq::<u8>::empty());
                assert(split_at_byte(line@, 32).0 =~= Seq::<u8>::empty());
                assert(split_at_byte(line@, 32).1 =~= Seq::<u8>::empty());
            }
        }
        if name.len() == 0 || addr_txt.len() == 0 {
            proof {
                if suffix.len() > 0 {
                    assert(line_entry(line@) == Some(Option::<(u16, Seq<u8>)>::None));
                }
            }
            continue ;
        }
        proof {
            assert(suffix.len() > 0) by {
                if suffix.len() == 0 {
                    assert(line@ =~= Seq::<u8>::empty());
                }
            }
        }
        if is_skipped_name(&name) {
            proof {
                assert(line_entry(line@) == Some(Option::<(u16, Seq<u8>)>::None));
            }
            continue ;
        }
        let addr = match hex_addr(addr_txt.as_slice()) {
            Some(a) => a,
            None => {
                proof {
                    assert(line_entry(line@) is None);
                    assert(table_entries(suffix) is None);
                    assert(table_entries(content@) is None);
                }
                return Err(
                    ToolLibError::Message("invalid symbol address in symbol table".to_string()),
                );
            },
        };
        proof {
            lemma_trim_idempotent(name_raw@);
            assert(line_entry(line@) == Some(Some((addr, name@))));
        }
        let ghost pairs0 = pairs@;
        pairs.push((addr, name));
        proof {
            assert(pairs_view(pairs@) =~= pairs_view(pairs0).push((addr, name@)));
            assert forall|r2: Seq<(u16, Seq<u8>)>| true implies pairs_view(pairs0) + (seq![
                (addr, name@),
            ] + r2) =~= pairs_view(pairs@) + r2 by {}
        }
    }
    proof {
        assert(pairs_view(pairs@) + Seq::<(u16, Seq<u8>)>::empty() =~= pairs_view(pairs@));
    }
    Ok(pairs)
}

/// Trimming an already-trimmed token changes nothing.
proof fn lemma_trim_idempotent(s: Seq<u8>)
    ensures
        trim_spec(trim_spec(s)) == trim_spec(s),
{
    let t = trim_start_spec(s);
    lemma_trim_start_no_leading_space(s);
    lemma_trim_end_no_trailing_space(t);
    let u = trim_end_spec(t);
    lemma_trim_end_keeps_first(t);
    assert(trim_start_spec(u) == u);
    assert(trim_end_spec(u) == u);
}

/// After trimming the start, the first byte is not whitespace.
proof fn lemma_trim_start_no_leading_space(s: Seq<u8>)
    ensures
        trim_start_spec(s).len() > 0 ==> !is_space(trim_start_spec(s)[0]),
    decreases s.len(),
{
    if s.len() > 0 && is_space(s[0]) {
        lemma_trim_start_no_leading_space(s.drop_first());
    }
}

/// After trimming the end, the last byte is not whitespace.
proof fn lemma_trim_end_no_trailing_space(s: Seq<u8>)
    ensures
        trim_end_spec(s).len() > 0 ==> !is_space(trim_end_spec(s).last()),
    decreases s.len(),
{
    if s.len() > 0 && is_space(s.last()) {
        lemma_trim_end_no_trailing_space(s.drop_last());
    }
}

/// Trimming the end keeps the first byte (when anything is left).
proof fn lemma_trim_end_keeps_first(s: Seq<u8>)
    ensures
        trim_end_spec(s).len() > 0 ==> trim_end_spec(s)[0] == s[0],
    decreases s.len(),
{
    if s.len() > 0 && is_space(s.last()) {
        lemma_trim_end_keeps_first(s.drop_last());
    }
}

/// The name recorded for an address, the latest matching line winning:
/// the returned pair is the matching one of largest index.
pub fn lookup(pairs: &Vec<(u16, Vec<u8>)>, addr: u16) -> (r: Option<&Vec<u8>>)
    ensures
        r matches Some(n) ==> exists|i: int|
            {
                &&& 0 <= i < pairs@.len()
                &&& (#[trigger] pairs@[i]).0 == addr
                &&& pairs@[i].1 == n
                &&& forall|j: int| i < j < pairs@.len() ==> (#[trigger] pairs@[j]).0 != addr
            },
        r is None ==> forall|i: int| 0 <= i < pairs@.len() ==> (#[trigger] pairs@[i]).0 != addr,
{
    let mut i: usize = pairs.len();
    while i > 0
        invariant
            i <= pairs@.len(),
            forall|j: int| i <= j < pairs@.len() ==> (#[trigger] pairs@[j]).0 != addr,
        decreases i,
    {
        i -= 1;
        if pairs[i].0 == addr {
            return Some(&pairs[i].1);
        }
    }
    None
}

} // verus!
