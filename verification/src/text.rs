//! Numbers as text.
use vstd::prelude::*;
use vstd::string::*;

verus! {

/// The lower-case digit for `d`, for `d` below 16.
pub open spec fn digit_char(d: nat) -> char {
    if d == 0 { '0' }
    else if d == 1 { '1' }
    else if d == 2 { '2' }
    else if d == 3 { '3' }
    else if d == 4 { '4' }
    else if d == 5 { '5' }
    else if d == 6 { '6' }
    else if d == 7 { '7' }
    else if d == 8 { '8' }
    else if d == 9 { '9' }
    else if d == 10 { 'a' }
    else if d == 11 { 'b' }
    else if d == 12 { 'c' }
    else if d == 13 { 'd' }
    else if d == 14 { 'e' }
    else { 'f' }
}

/// `n` in decimal, without leading zeros.
pub open spec fn dec_text(n: nat) -> Seq<char>
    decreases n,
{
    if n < 10 {
        seq![digit_char(n)]
    } else {
        dec_text(n / 10).push(digit_char(n % 10))
    }
}

/// The `width` low-order hexadecimal digits of `n`.
pub open spec fn hex_text(n: nat, width: nat) -> Seq<char>
    decreases width,
{
    if width == 0 {
        Seq::empty()
    } else {
        hex_text(n / 16, (width - 1) as nat).push(digit_char(n % 16))
    }
}

fn digit_str(d: u8) -> (r: &'static str)
    requires
        d < 16,
    ensures
        r@ == seq![digit_char(d as nat)],
{
    proof {
        reveal_strlit("0");
        reveal_strlit("1");
        reveal_strlit("2");
        reveal_strlit("3");
        reveal_strlit("4");
        reveal_strlit("5");
        reveal_strlit("6");
        reveal_strlit("7");
        reveal_strlit("8");
        reveal_strlit("9");
        reveal_strlit("a");
        reveal_strlit("b");
        reveal_strlit("c");
        reveal_strlit("d");
        reveal_strlit("e");
        reveal_strlit("f");
    }
    let r = match d {
        0 => "0",
        1 => "1",
        2 => "2",
        3 => "3",
        4 => "4",
        5 => "5",
        6 => "6",
        7 => "7",
        8 => "8",
        9 => "9",
        10 => "a",
        11 => "b",
        12 => "c",
        13 => "d",
        14 => "e",
        _ => "f",
    };
    assert(r@ =~= seq![digit_char(d as nat)]);
    r
}

/// Appends `n` in decimal.
pub fn push_dec(out: &mut String, n: u64)
    ensures
        final(out)@ == old(out)@ + dec_text(n as nat),
    decreases n,
{
    if n >= 10 {
        push_dec(out, n / 10);
    }
    let ghost mid = out@;
    out.append(digit_str((n % 10) as u8));
    proof {
        if n >= 10 {
            assert(old(out)@ + dec_text((n / 10) as nat) == mid);
            assert(out@ =~= old(out)@ + dec_text((n / 10) as nat).push(digit_char((n % 10) as nat)));
        } else {
            assert(out@ =~= old(out)@ + seq![digit_char(n as nat)]);
        }
    }
}

/// Appends the `width` low-order hexadecimal digits of `n`.
pub fn push_hex(out: &mut String, n: u64, width: usize)
    ensures
        final(out)@ == old(out)@ + hex_text(n as nat, width as nat),
    decreases width,
{
    if width > 0 {
        push_hex(out, n / 16, width - 1);
        out.append(digit_str((n % 16) as u8));
        proof {
            assert(out@ =~= old(out)@ + hex_text((n / 16) as nat, (width - 1) as nat).push(
                digit_char((n % 16) as nat),
            ));
        }
    } else {
        assert(out@ =~= old(out)@ + Seq::<char>::empty());
    }
}

/// `prefix` followed by `n` in decimal.
pub fn with_dec(prefix: &str, n: u64) -> (r: String)
    ensures
        r@ == prefix@ + dec_text(n as nat),
{
    let mut out = String::from_str(prefix);
    push_dec(&mut out, n);
    out
}

/// `a` followed by `b`.
pub fn join(a: &str, b: &str) -> (r: String)
    ensures
        r@ == a@ + b@,
{
    String::from_str(a).concat(b)
}


/// The value of a hexadecimal digit, in either case.
pub open spec fn hex_digit(c: char) -> Option<nat> {
    if '0' <= c <= '9' {
        Some((c as int - '0' as int) as nat)
    } else if 'a' <= c <= 'f' {
        Some((c as int - 'a' as int + 10) as nat)
    } else if 'A' <= c <= 'F' {
        Some((c as int - 'A' as int + 10) as nat)
    } else {
        None
    }
}

/// The number that a run of hexadecimal digits stands for, or the message for the
/// first character at which the run stops being a number of at most `max`.
pub open spec fn scan_hex(s: Seq<char>, max: nat) -> Result<nat, Seq<char>>
    decreases s.len(),
{
    if s.len() == 0 {
        Ok(0)
    } else {
        match scan_hex(s.drop_last(), max) {
            Err(e) => Err(e),
            Ok(v) => match hex_digit(s.last()) {
                None => Err("invalid digit found in string"@),
                Some(d) => if v * 16 + d > max {
                    Err("number too large to fit in target type"@)
                } else {
                    Ok(v * 16 + d)
                },
            },
        }
    }
}

/// A hexadecimal number of at most `max`, with an optional plus sign.
pub open spec fn parse_hex_text(s: Seq<char>, max: nat) -> Result<nat, Seq<char>> {
    if s.len() == 0 {
        Err("cannot parse integer from empty string"@)
    } else if s.len() > 1 && s[0] == '+' {
        scan_hex(s.subrange(1, s.len() as int), max)
    } else {
        scan_hex(s, max)
    }
}

fn hex_digit_of(c: char) -> (r: Option<u64>)
    ensures
        match r {
            Some(d) => hex_digit(c) == Some(d as nat) && d < 16,
            None => hex_digit(c) is None,
        },
{
    if '0' <= c && c <= '9' {
        Some(c as u64 - '0' as u64)
    } else if 'a' <= c && c <= 'f' {
        Some(c as u64 - 'a' as u64 + 10)
    } else if 'A' <= c && c <= 'F' {
        Some(c as u64 - 'A' as u64 + 10)
    } else {
        None
    }
}

/// Parses a hexadecimal number of at most `max`.
pub fn parse_hex(s: &str, max: u64) -> (r: Result<u64, &'static str>)
    ensures
        match r {
            Ok(v) => parse_hex_text(s@, max as nat) == Ok::<nat, Seq<char>>(v as nat) && v <= max,
            Err(t) => parse_hex_text(s@, max as nat) == Err::<nat, Seq<char>>(t@),
        },
{
    let len: usize = s.unicode_len();
    if len == 0 {
        return Err("cannot parse integer from empty string");
    }
    let start: usize = if len > 1 && s.get_char(0) == '+' { 1 } else { 0 };
    let ghost digits = s@.subrange(start as int, len as int);
    proof {
        if start == 0 {
            assert(digits =~= s@);
        }
    }
    let mut v: u64 = 0;
    let mut i: usize = start;
    while i < len
        invariant
            start <= i <= len,
            len == s@.len(),
            digits == s@.subrange(start as int, len as int),
            parse_hex_text(s@, max as nat) == scan_hex(digits, max as nat),
            scan_hex(digits.take(i - start), max as nat) == Ok::<nat, Seq<char>>(v as nat),
            v <= max,
        decreases len - i,
    {
        let c = s.get_char(i);
        let ghost before = digits.take(i - start);
        let ghost here = digits.take(i - start + 1);
        proof {
            assert(here.drop_last() =~= before);
            assert(here.last() == c);
        }
        match hex_digit_of(c) {
            None => {
                proof {
                    lemma_scan_stops(digits, i - start + 1, max as nat);
                }
                return Err("invalid digit found in string");
            },
            Some(d) => {
                let wide: u128 = v as u128 * 16 + d as u128;
                if wide > max as u128 {
                    proof {
                        lemma_scan_stops(digits, i - start + 1, max as nat);
                    }
                    return Err("number too large to fit in target type");
                }
                v = wide as u64;
            },
        }
        i = i + 1;
    }
    proof {
        assert(digits.take(len - start) =~= digits);
    }
    Ok(v)
}

/// An error in a prefix is the error of the whole.
proof fn lemma_scan_stops(s: Seq<char>, k: int, max: nat)
    requires
        0 <= k <= s.len(),
        scan_hex(s.take(k), max) is Err,
    ensures
        scan_hex(s, max) == scan_hex(s.take(k), max),
    decreases s.len() - k,
{
    if k < s.len() {
        assert(s.take(k + 1).drop_last() =~= s.take(k));
        lemma_scan_stops(s, k + 1, max);
    } else {
        assert(s.take(k) =~= s);
    }
}

/// Reading the digits of a number that fits gives the number.
pub proof fn lemma_scan_hex_text(n: nat, width: nat, max: nat)
    requires
        n <= max,
        n < vstd::arithmetic::power::pow(16, width),
    ensures
        scan_hex(hex_text(n, width), max) == Ok::<nat, Seq<char>>(n),
    decreases width,
{
    vstd::arithmetic::power::lemma_pow0(16);
    if width > 0 {
        assert(vstd::arithmetic::power::pow(16, width) == 16 * vstd::arithmetic::power::pow(
            16,
            (width - 1) as nat,
        )) by {
            reveal(vstd::arithmetic::power::pow);
        }
        lemma_scan_hex_text(n / 16, (width - 1) as nat, max);
        assert(hex_text(n, width).drop_last() =~= hex_text(n / 16, (width - 1) as nat));
        lemma_digit(n % 16);
    }
}

proof fn lemma_digit(d: nat)
    requires
        d < 16,
    ensures
        hex_digit(digit_char(d)) == Some(d),
        digit_char(d) != ':',
        digit_char(d) != '+',
{
}

pub proof fn lemma_hex_text_chars(n: nat, width: nat)
    ensures
        hex_text(n, width).len() == width,
        forall|i: int| 0 <= i < width ==> hex_text(n, width)[i] != ':' && hex_text(n, width)[i] != '+',
    decreases width,
{
    if width > 0 {
        lemma_hex_text_chars(n / 16, (width - 1) as nat);
        lemma_digit(n % 16);
    }
}

/// The pieces of `s` between colons.
pub open spec fn split_colons(s: Seq<char>) -> Seq<Seq<char>>
    decreases s.len(),
{
    if s.len() == 0 {
        seq![Seq::empty()]
    } else {
        let r = split_colons(s.drop_last());
        if s.last() == ':' {
            r.push(Seq::empty())
        } else {
            r.drop_last().push(r.last().push(s.last()))
        }
    }
}

proof fn lemma_split_nonempty(s: Seq<char>)
    ensures
        split_colons(s).len() > 0,
    decreases s.len(),
{
    if s.len() > 0 {
        lemma_split_nonempty(s.drop_last());
    }
}

/// A piece without colons extends the last piece.
pub proof fn lemma_split_extend(s: Seq<char>, t: Seq<char>)
    requires
        forall|i: int| 0 <= i < t.len() ==> t[i] != ':',
    ensures
        split_colons(s + t) == split_colons(s).drop_last().push(split_colons(s).last() + t),
    decreases t.len(),
{
    lemma_split_nonempty(s);
    if t.len() == 0 {
        assert(s + t =~= s);
        assert(split_colons(s).last() + t =~= split_colons(s).last());
        assert(split_colons(s).drop_last().push(split_colons(s).last()) =~= split_colons(s));
    } else {
        lemma_split_extend(s, t.drop_last());
        assert((s + t).drop_last() =~= s + t.drop_last());
        let r = split_colons(s + t.drop_last());
        assert(r.last().push(t.last()) =~= split_colons(s).last() + t);
        assert(r.drop_last() =~= split_colons(s).drop_last());
    }
}

/// A colon and a piece without colons add one piece.
pub proof fn lemma_split_next(s: Seq<char>, t: Seq<char>)
    requires
        forall|i: int| 0 <= i < t.len() ==> t[i] != ':',
    ensures
        split_colons(s.push(':') + t) == split_colons(s).push(t),
{
    lemma_split_extend(s.push(':'), t);
    assert(s.push(':').drop_last() =~= s);
    assert(split_colons(s.push(':')) == split_colons(s).push(Seq::empty()));
    assert(split_colons(s.push(':')).drop_last() =~= split_colons(s));
    assert(Seq::<char>::empty() + t =~= t);
}

/// The pieces of `s` from character `from` on, as index ranges.
pub fn split_ranges(s: &str) -> (r: Vec<(usize, usize)>)
    ensures
        r@.len() == split_colons(s@).len(),
        forall|k: int|
            0 <= k < r@.len() ==> (#[trigger] r@[k]).0 <= r@[k].1 <= s@.len() && s@.subrange(
                r@[k].0 as int,
                r@[k].1 as int,
            ) == split_colons(s@)[k],
{
    let len: usize = s.unicode_len();
    let mut done: Vec<(usize, usize)> = Vec::new();
    let mut start: usize = 0;
    let mut i: usize = 0;
    proof {
        assert(s@.take(0) =~= Seq::empty());
        assert(s@.subrange(0, 0) =~= Seq::empty());
    }
    while i < len
        invariant
            start <= i <= len,
            len == s@.len(),
            done@.len() + 1 == split_colons(s@.take(i as int)).len(),
            s@.subrange(start as int, i as int) == split_colons(s@.take(i as int)).last(),
            forall|k: int|
                0 <= k < done@.len() ==> (#[trigger] done@[k]).0 <= done@[k].1 <= s@.len()
                    && s@.subrange(done@[k].0 as int, done@[k].1 as int) == split_colons(
                    s@.take(i as int),
                )[k],
        decreases len - i,
    {
        let c = s.get_char(i);
        proof {
            assert(s@.take(i + 1).drop_last() =~= s@.take(i as int));
            assert(s@.take(i + 1).last() == c);
            assert(s@.subrange(start as int, i + 1) =~= s@.subrange(start as int, i as int).push(c));
            assert(s@.subrange(i + 1, i + 1) =~= Seq::empty());
        }
        if c == ':' {
            done.push((start, i));
            start = i + 1;
        }
        i = i + 1;
    }
    proof {
        assert(s@.take(len as int) =~= s@);
    }
    done.push((start, len));
    done
}

} // verus!
