//! Byte-level text helpers shared by the PACE readers and writers: decimal
//! numbers, line splitting, token splitting, and hex encoding.
use vstd::prelude::*;

verus! {

pub const NEWLINE: u8 = 10;

pub const SPACE: u8 = 32;

/// `b` is an ASCII decimal digit.
pub open spec fn is_digit(b: u8) -> bool {
    48 <= b <= 57
}

pub open spec fn digit_val(b: u8) -> nat
    recommends
        is_digit(b),
{
    (b - 48) as nat
}

pub open spec fn all_digits(s: Seq<u8>) -> bool {
    forall|i: int| 0 <= i < s.len() ==> is_digit(#[trigger] s[i])
}

/// The numeric value of a digit string, most significant digit first.
pub open spec fn dec_value(s: Seq<u8>) -> nat
    decreases s.len(),
{
    if s.len() == 0 {
        0
    } else {
        dec_value(s.drop_last()) * 10 + digit_val(s.last())
    }
}

/// A token is a valid decimal numeral below `bound`.
pub open spec fn valid_number(s: Seq<u8>, bound: nat) -> bool {
    s.len() > 0 && all_digits(s) && dec_value(s) < bound
}

/// The canonical decimal numeral of `n` (no leading zeros, except for 0 itself).
pub open spec fn dec_repr(n: nat) -> Seq<u8>
    decreases n,
{
    if n < 10 {
        seq![(48 + n) as u8]
    } else {
        dec_repr(n / 10).push((48 + n % 10) as u8)
    }
}

pub proof fn lemma_dec_repr_digits(n: nat)
    ensures
        dec_repr(n).len() > 0,
        all_digits(dec_repr(n)),
    decreases n,
{
    if n >= 10 {
        lemma_dec_repr_digits(n / 10);
        assert forall|i: int| 0 <= i < dec_repr(n).len() implies is_digit(#[trigger] dec_repr(n)[i]) by {
            if i < dec_repr(n / 10).len() {
                assert(dec_repr(n)[i] == dec_repr(n / 10)[i]);
            }
        }
    }
}

pub proof fn lemma_dec_value_of_repr(n: nat)
    ensures
        dec_value(dec_repr(n)) == n,
    decreases n,
{
    if n < 10 {
        let s = dec_repr(n);
        assert(s.len() == 1);
        assert(s.last() == (48 + n) as u8);
        assert(s.drop_last() =~= Seq::<u8>::empty());
        assert(dec_value(s) == dec_value(s.drop_last()) * 10 + digit_val(s.last()));
        assert(digit_val((48 + n) as u8) == n);
    } else {
        lemma_dec_value_of_repr(n / 10);
        let s = dec_repr(n);
        assert(s == dec_repr(n / 10).push((48 + n % 10) as u8));
        assert(s.last() == (48 + n % 10) as u8);
        assert(s.len() == dec_repr(n / 10).len() + 1);
        assert(s.drop_last() =~= dec_repr(n / 10));
        assert(dec_value(s) == dec_value(s.drop_last()) * 10 + digit_val(s.last()));
        assert(digit_val((48 + n % 10) as u8) == n % 10);
        assert(dec_value(s) == (n / 10) * 10 + n % 10);
    }
}

/// Appending a digit multiplies the value by ten and adds the digit.
pub proof fn lemma_dec_value_push(s: Seq<u8>, b: u8)
    ensures
        dec_value(s.push(b)) == dec_value(s) * 10 + digit_val(b),
{
    assert(s.push(b).drop_last() =~= s);
}

/// The value of a digit string only grows when more digits follow.
pub proof fn lemma_dec_value_prefix_le(s: Seq<u8>, i: int)
    requires
        0 <= i <= s.len(),
    ensures
        dec_value(s.subrange(0, i)) <= dec_value(s),
    decreases s.len() - i,
{
    if i < s.len() {
        lemma_dec_value_prefix_le(s, i + 1);
        let p = s.subrange(0, i);
        let q = s.subrange(0, i + 1);
        assert(q.drop_last() =~= p);
        assert(dec_value(q) == dec_value(p) * 10 + digit_val(s[i]));
    } else {
        assert(s.subrange(0, i) =~= s);
    }
}

/// Parses a decimal numeral; `None` when the token is empty, holds a
/// non-digit, or its value does not fit in a `u64`.
pub fn parse_u64(s: &Vec<u8>) -> (r: Option<u64>)
    ensures
        r matches Some(v) ==> valid_number(s@, 0x1_0000_0000_0000_0000) && v == dec_value(s@),
        r is None ==> !valid_number(s@, 0x1_0000_0000_0000_0000),
{
    if s.len() == 0 {
        return None;
    }
    let mut val: u64 = 0;
    let mut i: usize = 0;
    while i < s.len()
        invariant
            0 <= i <= s.len(),
            all_digits(s@.subrange(0, i as int)),
            val == dec_value(s@.subrange(0, i as int)),
        decreases s.len() - i,
    {
        let b = s[i];
        if b < 48 || b > 57 {
            assert(!is_digit(s@[i as int]));
            return None;
        }
        let d = (b - 48) as u64;
        if val > (u64::MAX - d) / 10 {
            proof {
                let p = s@.subrange(0, i as int);
                let q = s@.subrange(0, i as int + 1);
                assert(q.drop_last() =~= p);
                assert(dec_value(q) == dec_value(p) * 10 + digit_val(b));
                lemma_dec_value_prefix_le(s@, i as int + 1);
            }
            return None;
        }
        proof {
            let p = s@.subrange(0, i as int);
            let q = s@.subrange(0, i as int + 1);
            assert(q.drop_last() =~= p);
            assert(dec_value(q) == dec_value(p) * 10 + digit_val(b));
        }
        val = val * 10 + d;
        i = i + 1;
    }
    proof {
        assert(s@.subrange(0, s@.len() as int) =~= s@);
    }
    Some(val)
}

/// Parses a decimal numeral that must fit in a `u32`.
pub fn parse_u32(s: &Vec<u8>) -> (r: Option<u32>)
    ensures
        r matches Some(v) ==> valid_number(s@, 0x1_0000_0000) && v == dec_value(s@),
        r is None ==> !valid_number(s@, 0x1_0000_0000),
{
    match parse_u64(s) {
        Some(v) => {
            if v < 0x1_0000_0000 {
                Some(v as u32)
            } else {
                None
            }
        },
        None => None,
    }
}

/// Writes `n` as its canonical decimal numeral.
pub fn u64_to_dec(n: u64) -> (r: Vec<u8>)
    ensures
        r@ == dec_repr(n as nat),
    decreases n,
{
    if n < 10 {
        let mut v: Vec<u8> = Vec::new();
        v.push(48 + n as u8);
        v
    } else {
        let mut v = u64_to_dec(n / 10);
        v.push(48 + (n % 10) as u8);
        v
    }
}

/// The first index holding `sep`, or the length when `sep` is absent.
pub open spec fn first_idx_of(s: Seq<u8>, sep: u8) -> int
    decreases s.len(),
{
    if s.len() == 0 {
        0
    } else if s[0] == sep {
        0
    } else {
        1 + first_idx_of(s.drop_first(), sep)
    }
}

pub proof fn lemma_first_idx_of(s: Seq<u8>, sep: u8)
    ensures
        0 <= first_idx_of(s, sep) <= s.len(),
        forall|i: int| 0 <= i < first_idx_of(s, sep) ==> s[i] != sep,
        first_idx_of(s, sep) < s.len() ==> s[first_idx_of(s, sep)] == sep,
        !s.contains(sep) ==> first_idx_of(s, sep) == s.len(),
    decreases s.len(),
{
    if s.len() > 0 && s[0] != sep {
        lemma_first_idx_of(s.drop_first(), sep);
        assert forall|i: int| 0 <= i < first_idx_of(s, sep) implies s[i] != sep by {
            if i > 0 {
                assert(s.drop_first()[i - 1] == s[i]);
            }
        }
        if !s.contains(sep) {
            assert forall|i: int| 0 <= i < s.drop_first().len() implies s.drop_first()[i] != sep by {
                assert(s[i + 1] == s.drop_first()[i]);
            }
            assert(!s.drop_first().contains(sep));
        }
        if first_idx_of(s.drop_first(), sep) == s.drop_first().len() {
            if s.contains(sep) {
                let j = choose|j: int| 0 <= j < s.len() && s[j] == sep;
                assert(s.drop_first()[j - 1] == sep);
                assert(s.drop_first().contains(sep));
            }
        }
    }
}

/// `s` split at every `NEWLINE`, with the final piece dropped when empty,
/// matching line-by-line reading of a text stream.
pub open spec fn split_lines(s: Seq<u8>) -> Seq<Seq<u8>>
    decreases s.len(),
    when s.len() >= 0
    via split_lines_decreases
{
    if s.len() == 0 {
        seq![]
    } else if !s.contains(NEWLINE) {
        seq![s]
    } else {
        let i = first_idx_of(s, NEWLINE);
        seq![s.subrange(0, i)] + split_lines(s.subrange(i + 1, s.len() as int))
    }
}

#[via_fn]
proof fn split_lines_decreases(s: Seq<u8>) {
    if s.len() > 0 && s.contains(NEWLINE) {
        lemma_first_idx_of(s, NEWLINE);
    }
}

/// Splitting after a terminated line yields that line and the split remainder.
pub proof fn lemma_split_lines_line(line: Seq<u8>, rest: Seq<u8>)
    requires
        !line.contains(NEWLINE),
    ensures
        split_lines(line + seq![NEWLINE] + rest) == seq![line] + split_lines(rest),
{
    let s = line + seq![NEWLINE] + rest;
    assert(s[line.len() as int] == NEWLINE);
    assert(s.contains(NEWLINE));
    lemma_first_idx_of(s, NEWLINE);
    assert forall|i: int| 0 <= i < line.len() implies s[i] != NEWLINE by {
        assert(s[i] == line[i]);
        assert(line.contains(line[i])) by {
            assert(line[i] == line[i]);
        }
    }
    assert(first_idx_of(s, NEWLINE) == line.len());
    assert(s.subrange(0, line.len() as int) =~= line);
    assert(s.subrange(line.len() as int + 1, s.len() as int) =~= rest);
}

/// Splits a byte string into its lines.
pub fn split_lines_exec(data: &[u8]) -> (r: Vec<Vec<u8>>)
    ensures
        r.deep_view() == split_lines(data@),
{
    let mut lines: Vec<Vec<u8>> = Vec::new();
    let mut cur: Vec<u8> = Vec::new();
    let mut i: usize = 0;
    proof {
        assert(cur@ + data@.subrange(0, data@.len() as int) =~= data@);
        assert(lines.deep_view() + split_lines(data@) =~~= split_lines(data@));
    }
    while i < data.len()
        invariant
            0 <= i <= data@.len(),
            !cur@.contains(NEWLINE),
            split_lines(data@) == lines.deep_view() + split_lines(
                cur@ + data@.subrange(i as int, data@.len() as int),
            ),
        decreases data@.len() - i,
    {
        let b = data[i];
        let ghost prev_rest = cur@ + data@.subrange(i as int, data@.len() as int);
        let ghost next_rest_tail = data@.subrange(i as int + 1, data@.len() as int);
        if b == NEWLINE {
            proof {
                assert(prev_rest =~= cur@ + seq![NEWLINE] + next_rest_tail);
                lemma_split_lines_line(cur@, next_rest_tail);
            }
            let ghost old_deep = lines.deep_view();
            let ghost old_cur = cur@;
            lines.push(cur);
            cur = Vec::new();
            proof {
                assert(lines.deep_view() =~~= old_deep.push(old_cur));
                assert(cur@ + next_rest_tail =~= next_rest_tail);
                assert(old_deep + (seq![old_cur] + split_lines(next_rest_tail)) =~~= old_deep.push(
                    old_cur,
                ) + split_lines(next_rest_tail));
            }
        } else {
            cur.push(b);
            proof {
                assert(cur@ + next_rest_tail =~= prev_rest);
            }
        }
        i = i + 1;
    }
    proof {
        assert(cur@ + data@.subrange(i as int, data@.len() as int) =~= cur@);
    }
    if cur.len() > 0 {
        let ghost old_deep = lines.deep_view();
        let ghost old_cur = cur@;
        proof {
            assert(split_lines(old_cur) =~= seq![old_cur]);
        }
        lines.push(cur);
        proof {
            assert(lines.deep_view() =~~= old_deep.push(old_cur));
            assert(old_deep + seq![old_cur] =~~= old_deep.push(old_cur));
        }
    } else {
        proof {
            assert(split_lines(cur@) =~= Seq::<Seq<u8>>::empty());
            assert(lines.deep_view() + split_lines(cur@) =~~= lines.deep_view());
        }
    }
    lines
}

/// `s` split at spaces, empty tokens dropped: the whitespace-tolerant
/// token list of one line.
pub open spec fn split_ws(s: Seq<u8>) -> Seq<Seq<u8>>
    decreases s.len(),
    when s.len() >= 0
    via split_ws_decreases
{
    if s.len() == 0 {
        seq![]
    } else if s[0] == SPACE {
        split_ws(s.drop_first())
    } else {
        let i = first_idx_of(s, SPACE);
        seq![s.subrange(0, i)] + split_ws(s.subrange(i, s.len() as int))
    }
}

#[via_fn]
proof fn split_ws_decreases(s: Seq<u8>) {
    if s.len() > 0 && s[0] != SPACE {
        lemma_first_idx_of(s, SPACE);
    }
}

/// A leading space does not change the token list.
pub proof fn lemma_split_ws_space(rest: Seq<u8>)
    ensures
        split_ws(seq![SPACE] + rest) == split_ws(rest),
{
    let s = seq![SPACE] + rest;
    assert(s[0] == SPACE);
    assert(s.drop_first() =~= rest);
}

/// A space-free token followed by a space boundary is split off whole.
pub proof fn lemma_split_ws_token(tok: Seq<u8>, rest: Seq<u8>)
    requires
        tok.len() > 0,
        !tok.contains(SPACE),
        rest.len() == 0 || rest[0] == SPACE,
    ensures
        split_ws(tok + rest) == seq![tok] + split_ws(rest),
{
    let s = tok + rest;
    assert forall|i: int| 0 <= i < tok.len() implies s[i] != SPACE by {
        assert(s[i] == tok[i]);
        assert(tok.contains(tok[i])) by {
            assert(tok[i] == tok[i]);
        }
    }
    lemma_first_idx_of(s, SPACE);
    if rest.len() == 0 {
        if s.contains(SPACE) {
            let j = choose|j: int| 0 <= j < s.len() && s[j] == SPACE;
            assert(false);
        }
        assert(first_idx_of(s, SPACE) == s.len());
        assert(s.subrange(0, s.len() as int) =~= tok);
        assert(s.subrange(s.len() as int, s.len() as int) =~= rest);
        assert(split_ws(rest) =~= Seq::<Seq<u8>>::empty());
    } else {
        assert(s[tok.len() as int] == SPACE);
        assert(s.contains(SPACE));
        assert(first_idx_of(s, SPACE) == tok.len());
        assert(s.subrange(0, tok.len() as int) =~= tok);
        assert(s.subrange(tok.len() as int, s.len() as int) =~= rest);
    }
}

/// Splits one line into its whitespace-separated tokens.
pub fn split_ws_exec(line: &Vec<u8>) -> (r: Vec<Vec<u8>>)
    ensures
        r.deep_view() == split_ws(line@),
{
    let mut toks: Vec<Vec<u8>> = Vec::new();
    let mut cur: Vec<u8> = Vec::new();
    let mut i: usize = 0;
    proof {
        assert(cur@ + line@.subrange(0, line@.len() as int) =~= line@);
        assert(toks.deep_view() + split_ws(line@) =~~= split_ws(line@));
    }
    while i < line.len()
        invariant
            0 <= i <= line@.len(),
            !cur@.contains(SPACE),
            split_ws(line@) == toks.deep_view() + split_ws(
                cur@ + line@.subrange(i as int, line@.len() as int),
            ),
        decreases line@.len() - i,
    {
        let b = line[i];
        let ghost prev_rest = cur@ + line@.subrange(i as int, line@.len() as int);
        let ghost next_tail = line@.subrange(i as int + 1, line@.len() as int);
        if b == SPACE {
            if cur.len() > 0 {
                proof {
                    assert(prev_rest =~= cur@ + (seq![SPACE] + next_tail));
                    assert((seq![SPACE] + next_tail)[0] == SPACE);
                    lemma_split_ws_token(cur@, seq![SPACE] + next_tail);
                    lemma_split_ws_space(next_tail);
                }
                let ghost old_deep = toks.deep_view();
                let ghost old_cur = cur@;
                toks.push(cur);
                cur = Vec::new();
                proof {
                    assert(toks.deep_view() =~~= old_deep.push(old_cur));
                    assert(cur@ + next_tail =~= next_tail);
                    assert(old_deep + (seq![old_cur] + split_ws(next_tail)) =~~= old_deep.push(
                        old_cur,
                    ) + split_ws(next_tail));
                }
            } else {
                proof {
                    assert(prev_rest =~= seq![SPACE] + next_tail);
                    lemma_split_ws_space(next_tail);
                    assert(cur@ + next_tail =~= next_tail);
                }
            }
        } else {
            cur.push(b);
            proof {
                assert(cur@ + next_tail =~= prev_rest);
            }
        }
        i = i + 1;
    }
    proof {
        assert(cur@ + line@.subrange(i as int, line@.len() as int) =~= cur@);
    }
    if cur.len() > 0 {
        let ghost old_deep = toks.deep_view();
        let ghost old_cur = cur@;
        proof {
            lemma_split_ws_token(old_cur, Seq::<u8>::empty());
            assert(old_cur + Seq::<u8>::empty() =~= old_cur);
            assert(split_ws(Seq::<u8>::empty()) =~= Seq::<Seq<u8>>::empty());
            assert(seq![old_cur] + Seq::<Seq<u8>>::empty() =~= seq![old_cur]);
        }
        toks.push(cur);
        proof {
            assert(toks.deep_view() =~~= old_deep.push(old_cur));
            assert(old_deep + seq![old_cur] =~~= old_deep.push(old_cur));
        }
    } else {
        proof {
            assert(split_ws(cur@) =~= Seq::<Seq<u8>>::empty());
            assert(toks.deep_view() + split_ws(cur@) =~~= toks.deep_view());
        }
    }
    toks
}

/// A digit string holds no separator and no comment or header marker.
pub proof fn lemma_digits_plain(s: Seq<u8>)
    requires
        all_digits(s),
    ensures
        !s.contains(NEWLINE),
        !s.contains(SPACE),
        s.len() > 0 ==> s[0] != 99 && s[0] != 112,
{
    if s.contains(NEWLINE) {
        let i = choose|i: int| 0 <= i < s.len() && s[i] == NEWLINE;
        assert(is_digit(s[i]));
    }
    if s.contains(SPACE) {
        let i = choose|i: int| 0 <= i < s.len() && s[i] == SPACE;
        assert(is_digit(s[i]));
    }
}

/// Concatenation holds a byte only where one of its parts does.
pub proof fn lemma_concat_not_contains(a: Seq<u8>, c: Seq<u8>, b: u8)
    requires
        !a.contains(b),
        !c.contains(b),
    ensures
        !(a + c).contains(b),
{
    if (a + c).contains(b) {
        let i = choose|i: int| 0 <= i < (a + c).len() && (a + c)[i] == b;
        if i < a.len() {
            assert(a[i] == b);
            assert(a.contains(b));
        } else {
            assert(c[i - a.len()] == b);
            assert(c.contains(b));
        }
    }
}

/// The lower-case hex digit of a nibble.
pub open spec fn hex_digit(n: u8) -> u8
    recommends
        n < 16,
{
    if n < 10 {
        (48 + n) as u8
    } else {
        (87 + n) as u8
    }
}

/// Lower-case hex encoding, two digits per byte.
pub open spec fn hex_of(bytes: Seq<u8>) -> Seq<u8>
    decreases bytes.len(),
{
    if bytes.len() == 0 {
        seq![]
    } else {
        hex_of(bytes.drop_last()).push(hex_digit(bytes.last() / 16)).push(
            hex_digit(bytes.last() % 16),
        )
    }
}

/// Hex-encodes a byte string with lower-case digits.
pub fn hex_of_exec(bytes: &Vec<u8>) -> (r: Vec<u8>)
    ensures
        r@ == hex_of(bytes@),
{
    let mut out: Vec<u8> = Vec::new();
    let mut i: usize = 0;
    proof {
        assert(bytes@.subrange(0, 0) =~= Seq::<u8>::empty());
    }
    while i < bytes.len()
        invariant
            0 <= i <= bytes@.len(),
            out@ == hex_of(bytes@.subrange(0, i as int)),
        decreases bytes@.len() - i,
    {
        let b = bytes[i];
        let hi = b / 16;
        let lo = b % 16;
        if hi < 10 {
            out.push(48 + hi);
        } else {
            out.push(87 + hi);
        }
        if lo < 10 {
            out.push(48 + lo);
        } else {
            out.push(87 + lo);
        }
        proof {
            let p = bytes@.subrange(0, i as int);
            let q = bytes@.subrange(0, i as int + 1);
            assert(q.drop_last() =~= p);
            assert(q.last() == b);
        }
        i = i + 1;
    }
    proof {
        assert(bytes@.subrange(0, i as int) =~= bytes@);
    }
    out
}

/// The four little-endian bytes of a 32-bit value.
pub open spec fn le4(n: u32) -> Seq<u8> {
    seq![
        (n % 256) as u8,
        ((n / 256) % 256) as u8,
        ((n / 65536) % 256) as u8,
        ((n / 16777216) % 256) as u8,
    ]
}

/// Appends the four little-endian bytes of `n`.
pub fn push_le4(out: &mut Vec<u8>, n: u32)
    ensures
        final(out)@ == old(out)@ + le4(n),
{
    out.push((n % 256) as u8);
    out.push(((n / 256) % 256) as u8);
    out.push(((n / 65536) % 256) as u8);
    out.push(((n / 16777216) % 256) as u8);
    proof {
        assert(out@ =~= old(out)@ + le4(n));
    }
}

} // verus!
