use crate::errors::DbError;
use vstd::prelude::*;
use vstd::string::StringExecFns;
use vstd::utf8::{decode_utf8, encode_utf8, is_ascii_chars, valid_utf8};

verus! {

// Segment files are named `<id>.dat` under the data directory, with the id
// written in canonical decimal: no sign, no leading zeros. No other naming
// is recognized.

/// The character for one decimal digit.
pub open spec fn digit_char(d: nat) -> char {
    if d == 0 {
        '0'
    } else if d == 1 {
        '1'
    } else if d == 2 {
        '2'
    } else if d == 3 {
        '3'
    } else if d == 4 {
        '4'
    } else if d == 5 {
        '5'
    } else if d == 6 {
        '6'
    } else if d == 7 {
        '7'
    } else if d == 8 {
        '8'
    } else {
        '9'
    }
}

/// The ASCII byte for one decimal digit.
pub open spec fn digit_byte(d: nat) -> u8 {
    (48 + d % 10) as u8
}

/// The canonical decimal digits of `n`, as bytes, most significant first.
pub open spec fn decimal_bytes(n: nat) -> Seq<u8>
    decreases n,
{
    if n < 10 {
        seq![digit_byte(n)]
    } else {
        decimal_bytes(n / 10).push(digit_byte(n % 10))
    }
}

/// The canonical decimal digits of `n`, as characters.
pub open spec fn decimal_chars(n: nat) -> Seq<char>
    decreases n,
{
    if n < 10 {
        seq![digit_char(n)]
    } else {
        decimal_chars(n / 10).push(digit_char(n % 10))
    }
}

/// The file name of segment `n` under `data_dir`: `<data_dir>/<n>.dat`.
pub open spec fn spec_dat_file_name(data_dir: Seq<char>, n: nat) -> Seq<char> {
    data_dir + seq!['/'] + decimal_chars(n) + seq!['.', 'd', 'a', 't']
}

/// `name` spells `<id>.dat` in canonical decimal.
pub open spec fn is_segment_file_name(name: Seq<u8>, id: nat) -> bool {
    name == decimal_bytes(id) + seq![46u8, 100u8, 97u8, 116u8]
}

/// Decimal digits are the ASCII bytes 48 through 57, never empty, and never
/// with a leading zero unless the number is zero itself; byte and character
/// digits line up.
proof fn lemma_decimal_bytes_props(n: nat)
    ensures
        decimal_bytes(n).len() >= 1,
        decimal_bytes(n).len() == decimal_chars(n).len(),
        forall|i: int| 0 <= i < decimal_bytes(n).len() ==> 48 <= #[trigger] decimal_bytes(n)[i]
            < 58,
        n >= 1 ==> decimal_bytes(n)[0] != 48,
        forall|i: int|
            0 <= i < decimal_bytes(n).len() ==> (#[trigger] decimal_bytes(n)[i] as char)
                == decimal_chars(n)[i],
    decreases n,
{
    lemma_digit_casts();
    if n < 10 {
    } else {
        lemma_decimal_bytes_props(n / 10);
        assert(n / 10 >= 1);
        assert(decimal_bytes(n)[0] == decimal_bytes(n / 10)[0]);
        assert forall|i: int| 0 <= i < decimal_bytes(n).len() implies 48 <= #[trigger] decimal_bytes(
            n,
        )[i] < 58 by {
            if i < decimal_bytes(n).len() - 1 {
                assert(decimal_bytes(n)[i] == decimal_bytes(n / 10)[i]);
            }
        }
        assert forall|i: int| 0 <= i < decimal_bytes(n).len() implies (#[trigger] decimal_bytes(
            n,
        )[i] as char) == decimal_chars(n)[i] by {
            if i < decimal_bytes(n).len() - 1 {
                assert(decimal_bytes(n)[i] == decimal_bytes(n / 10)[i]);
                assert(decimal_chars(n)[i] == decimal_chars(n / 10)[i]);
            }
        }
    }
}

/// Each digit's byte casts to its character, and stays in the ASCII range.
proof fn lemma_digit_casts()
    ensures
        forall|d: nat| #[trigger] digit_byte(d) < 58,
        forall|d: nat| digit_byte(d) >= 48,
        forall|d: nat| d < 10 ==> ((#[trigger] digit_byte(d)) as char) == digit_char(d),
{
    assert forall|d: nat| d < 10 implies ((#[trigger] digit_byte(d)) as char) == digit_char(
        d,
    ) by {
        if d == 0 {
            assert((48u8 as char) == '0');
        } else if d == 1 {
            assert((49u8 as char) == '1');
        } else if d == 2 {
            assert((50u8 as char) == '2');
        } else if d == 3 {
            assert((51u8 as char) == '3');
        } else if d == 4 {
            assert((52u8 as char) == '4');
        } else if d == 5 {
            assert((53u8 as char) == '5');
        } else if d == 6 {
            assert((54u8 as char) == '6');
        } else if d == 7 {
            assert((55u8 as char) == '7');
        } else if d == 8 {
            assert((56u8 as char) == '8');
        } else {
            assert((57u8 as char) == '9');
        }
    }
}

/// A run of ASCII bytes is valid UTF-8 and decodes to itself, byte for
/// character.
proof fn lemma_ascii_bytes_utf8(b: Seq<u8>)
    requires
        forall|i: int| 0 <= i < b.len() ==> #[trigger] b[i] < 0x80,
    ensures
        valid_utf8(b),
        decode_utf8(b) == Seq::new(b.len(), |i: int| b[i] as char),
{
    let c = Seq::new(b.len(), |i: int| b[i] as char);
    assert forall|i: int| 0 <= i < c.len() implies '\0' <= #[trigger] c[i] <= '\u{7f}' by {
        assert(b[i] < 0x80);
    }
    assert(is_ascii_chars(c));
    vstd::utf8::is_ascii_chars_encode_utf8(c);
    assert(encode_utf8(c) =~= b);
    vstd::utf8::encode_utf8_valid_utf8(c);
    vstd::utf8::encode_utf8_decode_utf8(c);
}

/// Decodes UTF-8 bytes into the string they spell; the caller owns the
/// claim that the bytes are valid UTF-8.
///
/// Relies on `String::from_utf8`: it returns `Ok` exactly on valid UTF-8
/// input, and the string then spells those bytes.
#[verifier::external_body]
pub fn string_from_bytes(v: Vec<u8>) -> (r: String)
    requires
        valid_utf8(v@),
    ensures
        encode_utf8(r@) == v@,
        r@ == decode_utf8(v@),
{
    String::from_utf8(v).unwrap()
}

/// Appends the canonical decimal digits of `i` to `v`.
fn push_decimal_bytes(v: &mut Vec<u8>, i: usize)
    ensures
        final(v)@ == old(v)@ + decimal_bytes(i as nat),
    decreases i,
{
    if i >= 10 {
        push_decimal_bytes(v, i / 10);
    }
    v.push(48 + ((i % 10) as u8));
    proof {
        assert(final(v)@ =~= old(v)@ + decimal_bytes(i as nat));
    }
}

/// The file that holds segment `i` under `data_dir`: `<data_dir>/<i>.dat`.
pub fn dat_file_name(data_dir: &str, i: usize) -> (r: String)
    ensures
        r@ == spec_dat_file_name(data_dir@, i as nat),
{
    let mut suffix: Vec<u8> = Vec::new();
    suffix.push(47);
    push_decimal_bytes(&mut suffix, i);
    suffix.push(46);
    suffix.push(100);
    suffix.push(97);
    suffix.push(116);
    proof {
        lemma_decimal_bytes_props(i as nat);
        assert(suffix@ =~= seq![47u8] + decimal_bytes(i as nat) + seq![46u8, 100u8, 97u8, 116u8]);
        assert forall|j: int| 0 <= j < suffix@.len() implies #[trigger] suffix@[j] < 0x80 by {
            if 1 <= j < 1 + decimal_bytes(i as nat).len() {
                assert(suffix@[j] == decimal_bytes(i as nat)[j - 1]);
            }
        }
        lemma_ascii_bytes_utf8(suffix@);
        assert((47u8 as char) == '/' && (46u8 as char) == '.' && (100u8 as char) == 'd' && (97u8
            as char) == 'a' && (116u8 as char) == 't');
        assert(decode_utf8(suffix@) =~= seq!['/'] + decimal_chars(i as nat) + seq![
            '.',
            'd',
            'a',
            't',
        ]);
    }
    let tail = string_from_bytes(suffix);
    let mut r = data_dir.to_owned();
    r.append(tail.as_str());
    proof {
        assert(r@ =~= spec_dat_file_name(data_dir@, i as nat));
    }
    r
}

/// The number a run of digit bytes spells, most significant first.
spec fn digits_value(s: Seq<u8>) -> int
    decreases s.len(),
{
    if s.len() == 0 {
        0
    } else {
        digits_value(s.drop_last()) * 10 + (s.last() - 48)
    }
}

proof fn lemma_digits_value_nonneg(s: Seq<u8>)
    requires
        forall|i: int| 0 <= i < s.len() ==> 48 <= #[trigger] s[i] < 58,
    ensures
        digits_value(s) >= 0,
    decreases s.len(),
{
    if s.len() > 0 {
        lemma_digits_value_nonneg(s.drop_last());
    }
}

/// The digits of `n` spell `n`.
proof fn lemma_decimal_bytes_value(n: nat)
    ensures
        digits_value(decimal_bytes(n)) == n,
    decreases n,
{
    if n < 10 {
        reveal_with_fuel(digits_value, 2);
        assert(decimal_bytes(n).drop_last() =~= Seq::<u8>::empty());
    } else {
        lemma_decimal_bytes_value(n / 10);
        assert(decimal_bytes(n).drop_last() =~= decimal_bytes(n / 10));
    }
}

/// A longer prefix of a digit run never spells a smaller number.
proof fn lemma_digits_value_monotone(s: Seq<u8>, i: int, j: int)
    requires
        forall|x: int| 0 <= x < s.len() ==> 48 <= #[trigger] s[x] < 58,
        0 <= i <= j <= s.len(),
    ensures
        digits_value(s.subrange(0, i)) <= digits_value(s.subrange(0, j)),
    decreases j - i,
{
    if i < j {
        lemma_digits_value_monotone(s, i, j - 1);
        let p = s.subrange(0, j);
        assert(p.drop_last() =~= s.subrange(0, j - 1));
        lemma_digits_value_nonneg(s.subrange(0, j - 1));
        assert forall|x: int| 0 <= x < s.subrange(0, j - 1).len() implies 48 <= #[trigger] s.subrange(
            0,
            j - 1,
        )[x] < 58 by {
            assert(s.subrange(0, j - 1)[x] == s[x]);
        }
        assert(digits_value(p) == digits_value(s.subrange(0, j - 1)) * 10 + (s[j - 1] - 48));
    }
}

/// A nonempty digit run without a leading zero spells a positive number.
proof fn lemma_digits_value_pos(s: Seq<u8>)
    requires
        s.len() >= 1,
        forall|i: int| 0 <= i < s.len() ==> 48 <= #[trigger] s[i] < 58,
        s[0] != 48,
    ensures
        digits_value(s) >= 1,
    decreases s.len(),
{
    if s.len() == 1 {
        reveal_with_fuel(digits_value, 2);
        assert(s.drop_last() =~= Seq::<u8>::empty());
        assert(s.last() == s[0]);
    } else {
        assert(s.drop_last()[0] == s[0]);
        lemma_digits_value_pos(s.drop_last());
    }
}

/// A nonempty digit run without a leading zero is the canonical spelling of
/// the number it spells.
proof fn lemma_digits_canonical(s: Seq<u8>)
    requires
        s.len() >= 1,
        forall|i: int| 0 <= i < s.len() ==> 48 <= #[trigger] s[i] < 58,
        s[0] != 48 || s.len() == 1,
    ensures
        s == decimal_bytes(digits_value(s) as nat),
    decreases s.len(),
{
    lemma_digits_value_nonneg(s);
    let v = digits_value(s) as nat;
    if s.len() == 1 {
        reveal_with_fuel(digits_value, 2);
        assert(s.drop_last() =~= Seq::<u8>::empty());
        assert(s.last() == s[0]);
        assert(v == s[0] - 48 < 10);
        assert(digit_byte(v) == s[0]);
        assert(s =~= decimal_bytes(v));
    } else {
        let p = s.drop_last();
        assert(p[0] == s[0]);
        lemma_digits_value_pos(p);
        lemma_digits_canonical(p);
        let vp = digits_value(p) as nat;
        assert(v == vp * 10 + (s.last() - 48));
        assert(v >= 10);
        assert(v / 10 == vp && v % 10 == s.last() - 48) by (nonlinear_arith)
            requires
                v == vp * 10 + (s.last() - 48),
                48 <= s.last() < 58,
                vp >= 0,
        ;
        assert(digit_byte(v % 10) == s.last());
        assert(s =~= decimal_bytes(v));
    }
}

/// Reads a segment file name: `Ok(id)` exactly when the name spells
/// `<id>.dat` with a positive id in canonical decimal that fits the machine;
/// anything else in the data directory is a configuration error,
/// `InvalidSegmentName`, never silently skipped.
pub fn segment_id_from_file_name(name: &[u8]) -> (r: Result<usize, DbError>)
    ensures
        r matches Ok(id) ==> id >= 1 && is_segment_file_name(name@, id as nat),
        r is Err ==> r == Err::<usize, DbError>(DbError::InvalidSegmentName) && forall|id: usize|
            id >= 1 ==> !is_segment_file_name(name@, id as nat),
{
    let n = name.len();
    let ghost suffix = seq![46u8, 100u8, 97u8, 116u8];
    if n < 5 {
        proof {
            assert forall|id: usize| id >= 1 implies !is_segment_file_name(name@, id as nat) by {
                lemma_decimal_bytes_props(id as nat);
            }
        }
        return Err(DbError::InvalidSegmentName);
    }
    if name[n - 4] != 46 || name[n - 3] != 100 || name[n - 2] != 97 || name[n - 1] != 116 {
        proof {
            assert forall|id: usize| id >= 1 implies !is_segment_file_name(name@, id as nat) by {
                lemma_decimal_bytes_props(id as nat);
                if is_segment_file_name(name@, id as nat) {
                    let d = decimal_bytes(id as nat);
                    assert(name@.len() == d.len() + 4);
                    assert(name@[name@.len() - 4] == suffix[0]);
                    assert(name@[name@.len() - 3] == suffix[1]);
                    assert(name@[name@.len() - 2] == suffix[2]);
                    assert(name@[name@.len() - 1] == suffix[3]);
                }
            }
        }
        return Err(DbError::InvalidSegmentName);
    }
    let digits_len = n - 4;
    if name[0] == 48 {
        proof {
            assert forall|id: usize| id >= 1 implies !is_segment_file_name(name@, id as nat) by {
                lemma_decimal_bytes_props(id as nat);
                if is_segment_file_name(name@, id as nat) {
                    assert(name@[0] == decimal_bytes(id as nat)[0]);
                }
            }
        }
        return Err(DbError::InvalidSegmentName);
    }
    let mut acc: usize = 0;
    let mut i: usize = 0;
    while i < digits_len
        invariant
            name@.len() == n,
            digits_len == n - 4,
            5 <= n <= usize::MAX,
            i <= digits_len,
            forall|x: int| 0 <= x < i ==> 48 <= #[trigger] name@[x] < 58,
            acc == digits_value(name@.subrange(0, i as int)),
            name@[0] != 48,
        decreases digits_len - i,
    {
        let b = name[i];
        if b < 48 || b > 57 {
            proof {
                assert forall|id: usize| id >= 1 implies !is_segment_file_name(
                    name@,
                    id as nat,
                ) by {
                    lemma_decimal_bytes_props(id as nat);
                    if is_segment_file_name(name@, id as nat) {
                        let d = decimal_bytes(id as nat);
                        assert(d.len() == digits_len);
                        assert(name@[i as int] == d[i as int]);
                    }
                }
            }
            return Err(DbError::InvalidSegmentName);
        }
        let d = (b - 48) as usize;
        if acc > (usize::MAX - d) / 10 {
            proof {
                assert(acc * 10 + d > usize::MAX) by (nonlinear_arith)
                    requires
                        acc > (usize::MAX - d) / 10,
                        0 <= d < 10,
                        acc >= 0,
                ;
                assert forall|id: usize| id >= 1 implies !is_segment_file_name(
                    name@,
                    id as nat,
                ) by {
                    lemma_decimal_bytes_props(id as nat);
                    if is_segment_file_name(name@, id as nat) {
                        let dig = decimal_bytes(id as nat);
                        assert(dig.len() == digits_len);
                        assert forall|x: int| 0 <= x < dig.len() implies 48 <= #[trigger] name@[x]
                            < 58 by {
                            assert(name@[x] == dig[x]);
                        }
                        assert(name@.subrange(0, i + 1).drop_last() =~= name@.subrange(
                            0,
                            i as int,
                        ));
                        assert(name@.subrange(0, i + 1).last() == name@[i as int]);
                        assert(digits_value(name@.subrange(0, i + 1)) == acc * 10 + d);
                        assert forall|x: int| 0 <= x < name@.subrange(0, digits_len as int).len()
                            implies 48 <= #[trigger] name@.subrange(0, digits_len as int)[x]
                            < 58 by {
                            assert(name@.subrange(0, digits_len as int)[x] == name@[x]);
                            assert(name@[x] == dig[x]);
                        }
                        lemma_digits_value_monotone(
                            name@.subrange(0, digits_len as int),
                            i + 1,
                            digits_len as int,
                        );
                        assert(name@.subrange(0, digits_len as int).subrange(0, i + 1)
                            =~= name@.subrange(0, i + 1));
                        assert(name@.subrange(0, digits_len as int).subrange(0, digits_len as int)
                            =~= name@.subrange(0, digits_len as int));
                        assert(name@.subrange(0, digits_len as int) =~= dig);
                        lemma_decimal_bytes_value(id as nat);
                        assert(id as int >= acc * 10 + d);
                        assert(false);
                    }
                }
            }
            return Err(DbError::InvalidSegmentName);
        }
        proof {
            assert(acc * 10 + d <= usize::MAX) by (nonlinear_arith)
                requires
                    acc <= (usize::MAX - d) / 10,
                    0 <= d < 10,
                    acc >= 0,
            ;
            assert(name@.subrange(0, i + 1).drop_last() =~= name@.subrange(0, i as int));
            assert(name@.subrange(0, i + 1).last() == name@[i as int]);
        }
        acc = acc * 10 + d;
        i = i + 1;
    }
    proof {
        let dig = name@.subrange(0, digits_len as int);
        assert forall|x: int| 0 <= x < dig.len() implies 48 <= #[trigger] dig[x] < 58 by {
            assert(dig[x] == name@[x]);
        }
        assert(dig[0] == name@[0]);
        lemma_digits_value_pos(dig);
        lemma_digits_canonical(dig);
        assert(acc == digits_value(dig));
        assert(dig == decimal_bytes(acc as nat));
        assert(name@ =~= dig + suffix);
    }
    Ok(acc)
}

} // verus!
