use vstd::prelude::*;

verus! {

// Rendering of numbers as ASCII text, shared by the object codec, the digest
// utilities and the reflog line formatter.

/// The ASCII byte of a single digit (works for decimal, octal and the low
/// half of hexadecimal).
pub open spec fn digit_byte(d: nat) -> u8
    recommends
        d < 10,
{
    (48 + d) as u8
}

/// The decimal rendering of `n`, as ASCII bytes, without leading zeros.
pub open spec fn dec_bytes(n: nat) -> Seq<u8>
    decreases n,
{
    if n < 10 {
        seq![digit_byte(n)]
    } else {
        dec_bytes(n / 10).push(digit_byte(n % 10))
    }
}

/// The decimal rendering of `n`, as characters.
pub open spec fn dec_chars(n: nat) -> Seq<char> {
    dec_bytes(n).map_values(|b: u8| b as char)
}

/// The decimal rendering of a signed value: a leading '-' for negatives.
pub open spec fn dec_chars_int(v: int) -> Seq<char> {
    if v >= 0 {
        dec_chars(v as nat)
    } else {
        seq!['-'] + dec_chars((-v) as nat)
    }
}

/// `n` rendered as exactly two decimal digits.
pub open spec fn dec2_chars(n: nat) -> Seq<char>
    recommends
        n < 100,
{
    seq![digit_byte(n / 10) as char, digit_byte(n % 10) as char]
}

/// The last `k` octal digits of `m`, as ASCII bytes.
pub open spec fn oct_fixed_bytes(m: nat, k: nat) -> Seq<u8>
    decreases k,
{
    if k == 0 {
        seq![]
    } else {
        oct_fixed_bytes(m / 8, (k - 1) as nat).push(digit_byte(m % 8))
    }
}

/// A file mode rendered as octal, left-padded (or truncated) to 6 digits.
pub open spec fn octal6_bytes(m: nat) -> Seq<u8> {
    oct_fixed_bytes(m, 6)
}

/// Whether `b` is the ASCII byte of an octal digit.
pub open spec fn is_oct_digit_byte(b: u8) -> bool {
    48 <= b <= 55
}

/// The value denoted by a sequence of octal digit bytes, most significant
/// first.
pub open spec fn oct_val(s: Seq<u8>) -> nat
    decreases s.len(),
{
    if s.len() == 0 {
        0
    } else {
        oct_val(s.drop_last()) * 8 + (s.last() - 48) as nat
    }
}

/// `8^k`.
pub open spec fn pow8(k: nat) -> nat
    decreases k,
{
    if k == 0 {
        1
    } else {
        8 * pow8((k - 1) as nat)
    }
}

/// `8^k` grows with `k`.
pub proof fn lemma_pow8_mono(a: nat, b: nat)
    requires
        a <= b,
    ensures
        pow8(a) <= pow8(b),
    decreases b,
{
    if a < b {
        lemma_pow8_mono(a, (b - 1) as nat);
        assert(pow8(b) == 8 * pow8((b - 1) as nat));
    }
}

/// A fixed-width octal rendering has exactly `k` digit bytes, and decoding
/// it recovers the value modulo `8^k`.
pub proof fn lemma_oct_fixed_invert(m: nat, k: nat)
    ensures
        oct_fixed_bytes(m, k).len() == k,
        forall|i: int|
            0 <= i < k ==> is_oct_digit_byte(#[trigger] oct_fixed_bytes(m, k)[i]),
        m < pow8(k) ==> oct_val(oct_fixed_bytes(m, k)) == m,
    decreases k,
{
    if k > 0 {
        lemma_oct_fixed_invert(m / 8, (k - 1) as nat);
        let prefix = oct_fixed_bytes(m / 8, (k - 1) as nat);
        assert(oct_fixed_bytes(m, k) == prefix.push(digit_byte(m % 8)));
        assert forall|i: int|
            0 <= i < k implies is_oct_digit_byte(#[trigger] oct_fixed_bytes(m, k)[i]) by {
            if i < k - 1 {
                assert(oct_fixed_bytes(m, k)[i] == prefix[i]);
            } else {
                assert(oct_fixed_bytes(m, k)[i] == digit_byte(m % 8));
            }
        }
        if m < pow8(k) {
            assert(m / 8 < pow8((k - 1) as nat));
            assert(oct_fixed_bytes(m, k).drop_last() =~= prefix);
            assert(oct_val(oct_fixed_bytes(m, k))
                == oct_val(prefix) * 8 + ((digit_byte(m % 8) - 48) as nat));
            assert(oct_val(oct_fixed_bytes(m, k)) == (m / 8) * 8 + m % 8);
        }
    }
}

/// The ASCII byte of a hex digit, lowercase.
pub open spec fn hex_digit_byte(d: nat) -> u8
    recommends
        d < 16,
{
    if d < 10 {
        (48 + d) as u8
    } else {
        (87 + d) as u8
    }
}

/// The lowercase hex rendering of a byte sequence: two digits per byte,
/// byte `i` at offsets `2i` and `2i + 1`.
pub open spec fn hex_bytes(bs: Seq<u8>) -> Seq<u8>
    decreases bs.len(),
{
    if bs.len() == 0 {
        seq![]
    } else {
        seq![hex_digit_byte(bs[0] as nat / 16), hex_digit_byte(bs[0] as nat % 16)]
            + hex_bytes(bs.drop_first())
    }
}

/// The lowercase hex rendering, as characters.
pub open spec fn hex_chars(bs: Seq<u8>) -> Seq<char> {
    hex_bytes(bs).map_values(|b: u8| b as char)
}

/// Whether `c` is a hex digit (either case).
pub open spec fn is_hex_char(c: char) -> bool {
    (48 <= c as u32 && c as u32 <= 57)  // '0' ..= '9'
    || (97 <= c as u32 && c as u32 <= 102)  // 'a' ..= 'f'
    || (65 <= c as u32 && c as u32 <= 70)  // 'A' ..= 'F'
}

/// The numeric value of a hex digit character.
pub open spec fn hex_char_val(c: char) -> nat
    recommends
        is_hex_char(c),
{
    if 48 <= c as u32 && c as u32 <= 57 {
        (c as u32 - 48) as nat
    } else if 97 <= c as u32 && c as u32 <= 102 {
        (c as u32 - 87) as nat
    } else {
        (c as u32 - 55) as nat
    }
}

/// The bytes denoted by a sequence of hex digit characters, two per byte.
pub open spec fn hex_decode(chars: Seq<char>) -> Seq<u8>
    recommends
        chars.len() % 2 == 0,
{
    Seq::new(chars.len() / 2, |i: int|
        (16 * hex_char_val(chars[2 * i]) + hex_char_val(chars[2 * i + 1])) as u8)
}

/// The hex rendering has two digit bytes per input byte, in order.
pub proof fn lemma_hex_bytes_spec(bs: Seq<u8>)
    ensures
        hex_bytes(bs).len() == 2 * bs.len(),
        forall|i: int| 0 <= i < bs.len() ==> {
            &&& #[trigger] hex_bytes(bs)[2 * i] == hex_digit_byte(bs[i] as nat / 16)
            &&& hex_bytes(bs)[2 * i + 1] == hex_digit_byte(bs[i] as nat % 16)
        },
    decreases bs.len(),
{
    if bs.len() > 0 {
        lemma_hex_bytes_spec(bs.drop_first());
        assert forall|i: int| 0 <= i < bs.len() implies {
            &&& #[trigger] hex_bytes(bs)[2 * i] == hex_digit_byte(bs[i] as nat / 16)
            &&& hex_bytes(bs)[2 * i + 1] == hex_digit_byte(bs[i] as nat % 16)
        } by {
            if i > 0 {
                assert(hex_bytes(bs.drop_first())[2 * (i - 1)]
                    == hex_digit_byte(bs.drop_first()[i - 1] as nat / 16));
                assert(hex_bytes(bs)[2 * i] == hex_bytes(bs.drop_first())[2 * i - 2]);
                assert(hex_bytes(bs)[2 * i + 1] == hex_bytes(bs.drop_first())[2 * i - 1]);
                assert(bs.drop_first()[i - 1] == bs[i]);
            }
        }
    }
}

/// Hex renderings are ASCII, every character is a hex digit, and decoding
/// them recovers the original bytes.
pub proof fn lemma_hex_chars_invert(bs: Seq<u8>)
    ensures
        hex_chars(bs).len() == 2 * bs.len(),
        vstd::utf8::is_ascii_chars(hex_chars(bs)),
        forall|i: int| 0 <= i < hex_chars(bs).len() ==> is_hex_char(#[trigger] hex_chars(bs)[i]),
        hex_decode(hex_chars(bs)) == bs,
{
    lemma_hex_bytes_spec(bs);
    assert forall|i: int| 0 <= i < hex_chars(bs).len() implies {
        &&& is_hex_char(#[trigger] hex_chars(bs)[i])
        &&& '\0' <= hex_chars(bs)[i] <= '\u{7f}'
    } by {
        let j = i / 2;
        assert(0 <= j < bs.len());
        assert(hex_bytes(bs)[2 * j] == hex_digit_byte(bs[j] as nat / 16));
        if i % 2 == 0 {
            assert(i == 2 * j);
            assert(hex_bytes(bs)[i] == hex_digit_byte(bs[j] as nat / 16));
        } else {
            assert(i == 2 * j + 1);
            assert(hex_bytes(bs)[i] == hex_digit_byte(bs[j] as nat % 16));
        }
        assert(hex_chars(bs)[i] == hex_bytes(bs)[i] as char);
    }
    assert forall|i: int| 0 <= i < bs.len() implies hex_decode(hex_chars(bs))[i] == bs[i] by {
        assert(hex_bytes(bs)[2 * i] == hex_digit_byte(bs[i] as nat / 16));
        assert(hex_bytes(bs)[2 * i + 1] == hex_digit_byte(bs[i] as nat % 16));
        assert(hex_chars(bs)[2 * i] == hex_bytes(bs)[2 * i] as char);
        assert(hex_chars(bs)[2 * i + 1] == hex_bytes(bs)[2 * i + 1] as char);
        assert(hex_char_val(hex_digit_byte(bs[i] as nat / 16) as char) == bs[i] as nat / 16);
        assert(hex_char_val(hex_digit_byte(bs[i] as nat % 16) as char) == bs[i] as nat % 16);
    }
    assert(hex_decode(hex_chars(bs)) =~= bs);
}

/// Appends the decimal digits of `n` to `out`.
pub fn push_dec_u64(out: &mut Vec<u8>, n: u64)
    ensures
        final(out)@ == old(out)@ + dec_bytes(n as nat),
    decreases n,
{
    if n < 10 {
        out.push((48 + n) as u8);
        assert(out@ =~= old(out)@ + dec_bytes(n as nat));
    } else {
        push_dec_u64(out, n / 10);
        out.push((48 + n % 10) as u8);
        assert(out@ =~= old(out)@ + dec_bytes(n as nat));
    }
}

fn push_oct_fixed(out: &mut Vec<u8>, m: u32, k: u32)
    ensures
        final(out)@ == old(out)@ + oct_fixed_bytes(m as nat, k as nat),
    decreases k,
{
    if k == 0 {
        assert(out@ =~= old(out)@ + oct_fixed_bytes(m as nat, 0));
    } else {
        push_oct_fixed(out, m / 8, k - 1);
        out.push((48 + m % 8) as u8);
        assert(out@ =~= old(out)@ + oct_fixed_bytes(m as nat, k as nat));
    }
}

/// Appends the 6-octal-digit rendering of a mode to `out`.
pub fn push_octal6(out: &mut Vec<u8>, m: u32)
    ensures
        final(out)@ == old(out)@ + octal6_bytes(m as nat),
{
    push_oct_fixed(out, m, 6);
}

/// A one-character string slice for a decimal digit.
pub fn digit_str(d: u8) -> (r: &'static str)
    requires
        d < 10,
    ensures
        r@ == seq![digit_byte(d as nat) as char],
{
    match d {
        0 => {
            let r = "0";
            proof {
                reveal_strlit("0");
                assert(r@ =~= seq![digit_byte(0) as char]);
            }
            r
        },
        1 => {
            let r = "1";
            proof {
                reveal_strlit("1");
                assert(r@ =~= seq![digit_byte(1) as char]);
            }
            r
        },
        2 => {
            let r = "2";
            proof {
                reveal_strlit("2");
                assert(r@ =~= seq![digit_byte(2) as char]);
            }
            r
        },
        3 => {
            let r = "3";
            proof {
                reveal_strlit("3");
                assert(r@ =~= seq![digit_byte(3) as char]);
            }
            r
        },
        4 => {
            let r = "4";
            proof {
                reveal_strlit("4");
                assert(r@ =~= seq![digit_byte(4) as char]);
            }
            r
        },
        5 => {
            let r = "5";
            proof {
                reveal_strlit("5");
                assert(r@ =~= seq![digit_byte(5) as char]);
            }
            r
        },
        6 => {
            let r = "6";
            proof {
                reveal_strlit("6");
                assert(r@ =~= seq![digit_byte(6) as char]);
            }
            r
        },
        7 => {
            let r = "7";
            proof {
                reveal_strlit("7");
                assert(r@ =~= seq![digit_byte(7) as char]);
            }
            r
        },
        8 => {
            let r = "8";
            proof {
                reveal_strlit("8");
                assert(r@ =~= seq![digit_byte(8) as char]);
            }
            r
        },
        _ => {
            let r = "9";
            proof {
                reveal_strlit("9");
                assert(r@ =~= seq![digit_byte(9) as char]);
            }
            r
        },
    }
}

/// Appends the decimal digits of `n` to a string.
pub fn append_dec_u64(out: &mut String, n: u64)
    ensures
        final(out)@ == old(out)@ + dec_chars(n as nat),
    decreases n,
{
    if n < 10 {
        out.append(digit_str(n as u8));
        assert(out@ =~= old(out)@ + dec_chars(n as nat));
    } else {
        append_dec_u64(out, n / 10);
        out.append(digit_str((n % 10) as u8));
        assert(out@ =~= old(out)@ + dec_chars(n as nat));
    }
}

/// Appends the decimal rendering of a signed value to a string.
pub fn append_dec_i64(out: &mut String, v: i64)
    ensures
        final(out)@ == old(out)@ + dec_chars_int(v as int),
{
    if v >= 0 {
        append_dec_u64(out, v as u64);
    } else {
        let minus = "-";
        proof {
            reveal_strlit("-");
            assert(minus@ =~= seq!['-']);
        }
        out.append(minus);
        let m: u64 = (-(v as i128)) as u64;
        assert(m as nat == (-(v as int)) as nat);
        append_dec_u64(out, m);
        assert(out@ =~= old(out)@ + dec_chars_int(v as int));
    }
}

/// Appends `n` as exactly two decimal digits.
pub fn append_dec2(out: &mut String, n: u32)
    requires
        n < 100,
    ensures
        final(out)@ == old(out)@ + dec2_chars(n as nat),
{
    out.append(digit_str((n / 10) as u8));
    out.append(digit_str((n % 10) as u8));
    assert(out@ =~= old(out)@ + dec2_chars(n as nat));
}

} // verus!
