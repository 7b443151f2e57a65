//! Base-62 positional notation over the alphabet `0-9`, `A-Z`, `a-z`.
use vstd::prelude::*;

verus! {

/// `String::push` appends one character at the end.
pub assume_specification[ String::push ](s: &mut String, ch: char)
    ensures
        final(s)@ == old(s)@.push(ch),
;

/// The symbol of digit value `d` (`d < 62`): digits, then upper case, then lower case.
pub open spec fn symbol(d: nat) -> char {
    (if d < 10 {
        48 + d
    } else if d < 36 {
        55 + d
    } else {
        61 + d
    }) as u8 as char
}

/// The digit value of `c`, or -1 when `c` is not one of the 62 symbols.
pub open spec fn digit_value(c: char) -> int {
    let u = c as u32;
    if 48 <= u <= 57 {
        u - 48
    } else if 65 <= u <= 90 {
        u - 55
    } else if 97 <= u <= 122 {
        u - 61
    } else {
        -1
    }
}

pub open spec fn is_symbol(c: char) -> bool {
    digit_value(c) >= 0
}

pub open spec fn all_symbols(s: Seq<char>) -> bool {
    forall|i: int| 0 <= i < s.len() ==> is_symbol(#[trigger] s[i])
}

/// The base-62 notation of `n`, most significant symbol first, without leading zeros.
pub open spec fn encoding(n: nat) -> Seq<char>
    decreases n,
{
    if n < 62 {
        seq![symbol(n)]
    } else {
        encoding(n / 62).push(symbol(n % 62))
    }
}

/// The number that a string of symbols denotes, read most significant first.
pub open spec fn value_of(s: Seq<char>) -> nat
    decreases s.len(),
{
    if s.len() == 0 {
        0
    } else {
        value_of(s.drop_last()) * 62 + digit_value(s.last()) as nat
    }
}

/// Why a token does not denote a 64-bit value.
#[derive(Debug, Clone, Copy, PartialEq, Eq, Structural)]
pub enum DecodeError {
    /// A character lies outside the 62-symbol alphabet.
    InvalidSymbol,
    /// The value does not fit in 64 bits.
    Overflow,
}

proof fn lemma_symbol_digit(d: nat)
    requires
        d < 62,
    ensures
        digit_value(symbol(d)) == d,
{
}

fn symbol_of(d: u64) -> (c: char)
    requires
        d < 62,
    ensures
        c == symbol(d as nat),
{
    let b: u8 = d as u8;
    if b < 10 {
        (48 + b) as char
    } else if b < 36 {
        (55 + b) as char
    } else {
        (61 + b) as char
    }
}

fn digit_of(c: char) -> (r: Option<u64>)
    ensures
        r == (if is_symbol(c) {
            Some(digit_value(c) as u64)
        } else {
            None
        }),
        r is Some ==> r->0 < 62,
{
    let u = c as u32;
    if 48 <= u && u <= 57 {
        Some((u - 48) as u64)
    } else if 65 <= u && u <= 90 {
        Some((u - 55) as u64)
    } else if 97 <= u && u <= 122 {
        Some((u - 61) as u64)
    } else {
        None
    }
}

/// Writes `num` in base 62, most significant symbol first; zero is `"0"`.
pub fn encode(num: u64) -> (r: String)
    ensures
        r@ == encoding(num as nat),
{
    let mut n: u64 = num;
    let mut rev: Vec<char> = Vec::new();
    while n >= 62
        invariant
            encoding(num as nat) == encoding(n as nat) + rev@.reverse(),
        decreases n,
    {
        let c = symbol_of(n % 62);
        proof {
            assert(encoding(n as nat) == encoding((n / 62) as nat).push(c));
            assert(rev@.push(c).reverse() =~= seq![c] + rev@.reverse());
            assert(encoding(n as nat) + rev@.reverse() =~= encoding((n / 62) as nat) + rev@.push(
                c,
            ).reverse());
        }
        rev.push(c);
        n = n / 62;
    }
    let c = symbol_of(n);
    rev.push(c);
    proof {
        assert(rev@.reverse() =~= seq![c] + rev@.drop_last().reverse());
    }
    let mut out = String::new();
    let mut k: usize = rev.len();
    while k > 0
        invariant
            k <= rev@.len(),
            out@ =~= rev@.reverse().subrange(0, rev@.len() - k),
        decreases k,
    {
        k = k - 1;
        out.push(rev[k]);
        assert(out@ =~= rev@.reverse().subrange(0, rev@.len() - k));
    }
    assert(out@ =~= rev@.reverse());
    out
}

/// Reads a base-62 token, most significant symbol first.
pub fn decode(s: &str) -> (r: Result<u64, DecodeError>)
    ensures
        match r {
            Ok(v) => all_symbols(s@) && v as nat == value_of(s@),
            Err(DecodeError::InvalidSymbol) => !all_symbols(s@),
            Err(DecodeError::Overflow) => all_symbols(s@) && value_of(s@) > u64::MAX,
        },
{
    let len = s.unicode_len();
    let mut i: usize = 0;
    while i < len
        invariant
            len == s@.len(),
            i <= len,
            forall|j: int| 0 <= j < i ==> is_symbol(#[trigger] s@[j]),
        decreases len - i,
    {
        if digit_of(s.get_char(i)).is_none() {
            return Err(DecodeError::InvalidSymbol);
        }
        i = i + 1;
    }
    let mut acc: u64 = 0;
    let mut i: usize = 0;
    while i < len
        invariant
            len == s@.len(),
            i <= len,
            all_symbols(s@),
            acc as nat == value_of(s@.subrange(0, i as int)),
        decreases len - i,
    {
        let c = s.get_char(i);
        let d = digit_of(c).unwrap();
        proof {
            assert(s@.subrange(0, i + 1).drop_last() =~= s@.subrange(0, i as int));
        }
        match acc.checked_mul(62) {
            Some(m) => match m.checked_add(d) {
                Some(v) => {
                    acc = v;
                },
                None => {
                    proof {
                        lemma_value_prefix_bound(s@, i as int + 1);
                    }
                    return Err(DecodeError::Overflow);
                },
            },
            None => {
                proof {
                    lemma_value_prefix_bound(s@, i as int + 1);
                }
                return Err(DecodeError::Overflow);
            },
        }
        i = i + 1;
    }
    assert(s@.subrange(0, len as int) =~= s@);
    Ok(acc)
}

/// A string of symbols denotes at least what any of its prefixes denotes.
proof fn lemma_value_prefix_bound(s: Seq<char>, k: int)
    requires
        all_symbols(s),
        0 <= k <= s.len(),
    ensures
        value_of(s.subrange(0, k)) <= value_of(s),
    decreases s.len() - k,
{
    if k < s.len() {
        lemma_value_prefix_bound(s, k + 1);
        let p = s.subrange(0, k + 1);
        assert(p.drop_last() =~= s.subrange(0, k));
        assert(is_symbol(p.last()));
        assert(value_of(p) == value_of(p.drop_last()) * 62 + digit_value(p.last()) as nat);
    } else {
        assert(s.subrange(0, k) =~= s);
    }
}

/// `s` without its leading zero symbols, keeping the last symbol.
pub open spec fn strip_leading_zeros(s: Seq<char>) -> Seq<char>
    decreases s.len(),
{
    if s.len() > 1 && s[0] == '0' {
        strip_leading_zeros(s.drop_first())
    } else {
        s
    }
}

proof fn lemma_digit_symbol(c: char)
    requires
        is_symbol(c),
    ensures
        symbol(digit_value(c) as nat) == c,
{
    vstd::utf8::char_u32_cast(c, c as u32);
    let u = c as u32;
    assert((u as u8) as u32 == u);
}

/// A leading zero symbol adds nothing to the value.
proof fn lemma_value_drop_leading_zero(s: Seq<char>)
    requires
        s.len() > 0,
        s[0] == '0',
    ensures
        value_of(s) == value_of(s.drop_first()),
    decreases s.len(),
{
    if s.len() > 1 {
        lemma_value_drop_leading_zero(s.drop_last());
        let t = s.drop_first();
        assert(s.drop_last().drop_first() =~= t.drop_last());
        assert(t.last() == s.last());
        assert(value_of(s) == value_of(s.drop_last()) * 62 + digit_value(s.last()) as nat);
        assert(value_of(t) == value_of(t.drop_last()) * 62 + digit_value(t.last()) as nat);
    } else {
        assert(s.drop_last() =~= Seq::<char>::empty());
        assert(s.drop_first() =~= Seq::<char>::empty());
        assert(value_of(s) == value_of(s.drop_last()) * 62 + digit_value(s.last()) as nat);
        assert(digit_value('0') == 0);
    }
}

/// A string of symbols whose first symbol is not zero is the encoding of
/// its value, and its value is at least 62 to the power of its length less one.
proof fn lemma_encoding_of_canonical(s: Seq<char>)
    requires
        s.len() > 0,
        all_symbols(s),
        s.len() == 1 || s[0] != '0',
    ensures
        encoding(value_of(s)) == s,
        s.len() > 1 ==> value_of(s) >= 62,
        s.len() == 1 || value_of(s) >= 1,
    decreases s.len(),
{
    let c = s.last();
    lemma_digit_symbol(c);
    if s.len() == 1 {
        assert(s.drop_last() =~= Seq::<char>::empty());
        assert(value_of(s) == value_of(s.drop_last()) * 62 + digit_value(c) as nat);
        assert(value_of(s) == digit_value(c));
        assert(encoding(value_of(s)) =~= s);
    } else {
        let p = s.drop_last();
        assert(p[0] == s[0]);
        assert forall|i: int| 0 <= i < p.len() implies is_symbol(#[trigger] p[i]) by {
            assert(p[i] == s[i]);
        }
        lemma_encoding_of_canonical(p);
        if p.len() == 1 {
            assert(p.drop_last() =~= Seq::<char>::empty());
            assert(p[0] != '0');
            assert(digit_value(p[0]) != 0);
        }
        let v = value_of(s);
        let d = digit_value(c) as nat;
        assert(v == value_of(p) * 62 + d);
        assert(v / 62 == value_of(p) && v % 62 == d);
        assert(encoding(v) == encoding(v / 62).push(symbol(v % 62)));
        assert(encoding(v) =~= s);
    }
}

/// Encoding a decoded token gives the token back without its leading zero
/// symbols; a token of zeros only comes back as a single zero.
pub proof fn lemma_canonical_form(s: Seq<char>)
    requires
        s.len() > 0,
        all_symbols(s),
    ensures
        encoding(value_of(s)) == strip_leading_zeros(s),
    decreases s.len(),
{
    if s.len() > 1 && s[0] == '0' {
        lemma_value_drop_leading_zero(s);
        let t = s.drop_first();
        assert forall|i: int| 0 <= i < t.len() implies is_symbol(#[trigger] t[i]) by {
            assert(t[i] == s[i + 1]);
        }
        lemma_canonical_form(t);
    } else {
        lemma_encoding_of_canonical(s);
    }
}

/// Decoding the encoding of any 64-bit value gives the value back.
pub proof fn lemma_round_trip(n: nat)
    ensures
        all_symbols(encoding(n)),
        value_of(encoding(n)) == n,
    decreases n,
{
    if n < 62 {
        lemma_symbol_digit(n);
        let e = seq![symbol(n)];
        assert(e.drop_last() =~= Seq::<char>::empty());
        assert(e.last() == symbol(n));
        assert(value_of(e) == value_of(e.drop_last()) * 62 + digit_value(e.last()) as nat);
    } else {
        lemma_round_trip(n / 62);
        lemma_symbol_digit(n % 62);
        let e = encoding(n);
        assert(e.drop_last() =~= encoding(n / 62));
        assert(e.last() == symbol(n % 62));
        assert(value_of(e) == value_of(e.drop_last()) * 62 + digit_value(e.last()) as nat);
        assert forall|i: int| 0 <= i < e.len() implies is_symbol(#[trigger] e[i]) by {
            if i < e.len() - 1 {
                assert(e[i] == encoding(n / 62)[i]);
            }
        }
    }
}

} // verus!
