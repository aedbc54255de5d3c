use vstd::prelude::*;

use crate::text::chars_of;

verus! {

/// Why a segment could not be decoded.
#[derive(Debug, Clone, Copy, PartialEq, Eq, Structural)]
pub enum VLQError {
    /// A character outside the Base64 alphabet.
    InvalidCharacter,
    /// The segment ended in the middle of a number.
    IncompleteSequence,
    /// A decoded number, a running total built from decoded numbers, or a generated line
    /// index lies outside `i32`.
    ValueOutOfRange,
}

/// Accumulated values above this bound cannot decode to an `i32`.
const ACC_LIMIT: u64 = 8589934592;

pub open spec fn fits_i32(x: int) -> bool {
    i32::MIN <= x <= i32::MAX
}

/// The place value of the `k`-th five-bit digit of a number: `32^k`.
pub open spec fn weight(k: nat) -> int
    decreases k,
{
    if k == 0 {
        1
    } else {
        32 * weight((k - 1) as nat)
    }
}

/// The signed number of an accumulated value whose lowest bit is the sign.
pub open spec fn sign_decode(v: int) -> int {
    if v % 2 == 1 {
        -(v / 2)
    } else {
        v / 2
    }
}

/// What is known after a prefix of a segment: the numbers finished so far, the value
/// accumulated for the current number, and how many of its digits have been read.
pub struct ScanState {
    pub values: Seq<i32>,
    pub acc: int,
    pub digits: nat,
}

pub open spec fn scan_start() -> ScanState {
    ScanState { values: seq![], acc: 0, digits: 0 }
}

/// Reading one more character of a segment.
pub open spec fn scan_step(st: ScanState, c: char) -> Result<ScanState, VLQError> {
    match base64_value(c) {
        None => Err(VLQError::InvalidCharacter),
        Some(d) => {
            let acc = st.acc + (d % 32) * weight(st.digits);
            if d < 32 {
                let n = sign_decode(acc);
                if fits_i32(n) {
                    Ok(ScanState { values: st.values.push(n as i32), acc: 0, digits: 0 })
                } else {
                    Err(VLQError::ValueOutOfRange)
                }
            } else {
                Ok(ScanState { values: st.values, acc, digits: st.digits + 1 })
            }
        },
    }
}

/// Reading the characters of `s` from state `st`, stopping at the first failure.
pub open spec fn scan(st: ScanState, s: Seq<char>) -> Result<ScanState, VLQError>
    decreases s.len(),
{
    if s.len() == 0 {
        Ok(st)
    } else {
        match scan_step(st, s[0]) {
            Err(e) => Err(e),
            Ok(next) => scan(next, s.drop_first()),
        }
    }
}

/// The numbers that a segment encodes, or why it encodes none.
pub open spec fn decode_spec(s: Seq<char>) -> Result<Seq<i32>, VLQError> {
    match scan(scan_start(), s) {
        Err(e) => Err(e),
        Ok(st) => if st.digits != 0 {
            Err(VLQError::IncompleteSequence)
        } else {
            Ok(st.values)
        },
    }
}

/// The value whose lowest bit holds the sign of `n` and whose other bits hold `|n|`.
pub open spec fn sign_encode(n: int) -> nat {
    if n < 0 {
        (-2 * n + 1) as nat
    } else {
        (2 * n) as nat
    }
}

/// The characters of a value, five bits each, lowest first, with the continuation bit
/// set on every character but the last.
pub open spec fn encode_digits(v: nat) -> Seq<char>
    decreases v,
{
    if v < 32 {
        seq![base64_char(v as int)]
    } else {
        seq![base64_char((v % 32 + 32) as int)] + encode_digits(v / 32)
    }
}

/// The segment that encodes the single number `n`.
pub open spec fn encode_spec(n: int) -> Seq<char> {
    encode_digits(sign_encode(n))
}

/// The value of a character of the Base64 alphabet `A-Z a-z 0-9 + /`.
pub open spec fn base64_value(c: char) -> Option<int> {
    let u = c as u32 as int;
    if 65 <= u <= 90 {
        Some(u - 65)
    } else if 97 <= u <= 122 {
        Some(u - 71)
    } else if 48 <= u <= 57 {
        Some(u + 4)
    } else if u == 43 {
        Some(62)
    } else if u == 47 {
        Some(63)
    } else {
        None
    }
}

/// The character of the Base64 alphabet for a digit in `0..64`.
pub open spec fn base64_char(d: int) -> char {
    if d < 26 {
        (d + 65) as char
    } else if d < 52 {
        (d + 71) as char
    } else if d < 62 {
        (d - 4) as char
    } else if d == 62 {
        '+'
    } else {
        '/'
    }
}

proof fn lemma_base64_char(d: int)
    requires
        0 <= d < 64,
    ensures
        base64_value(base64_char(d)) == Some(d),
{
}

fn digit_of(c: char) -> (r: Option<u32>)
    ensures
        match r {
            Some(d) => base64_value(c) == Some(d as int),
            None => base64_value(c) is None,
        },
{
    let u = c as u32;
    if 65 <= u && u <= 90 {
        Some(u - 65)
    } else if 97 <= u && u <= 122 {
        Some(u - 71)
    } else if 48 <= u && u <= 57 {
        Some(u + 4)
    } else if u == 43 {
        Some(62)
    } else if u == 47 {
        Some(63)
    } else {
        None
    }
}

proof fn lemma_weight_bounds(k: nat)
    ensures
        weight(k) >= 1,
        k <= 6 ==> weight(k) <= 1073741824,
        k >= 7 ==> weight(k) >= 34359738368,
    decreases k,
{
    reveal_with_fuel(weight, 8);
    if k > 7 {
        lemma_weight_bounds((k - 1) as nat);
    }
}

proof fn lemma_scan_encoded(st: ScanState, v: nat)
    requires
        st.acc >= 0,
        fits_i32(sign_decode(st.acc + v * weight(st.digits))),
    ensures
        scan(st, encode_digits(v)) == Ok::<ScanState, VLQError>(
            ScanState {
                values: st.values.push(sign_decode(st.acc + v * weight(st.digits)) as i32),
                acc: 0,
                digits: 0,
            },
        ),
    decreases v,
{
    let w = weight(st.digits);
    lemma_weight_bounds(st.digits);
    let s = encode_digits(v);
    if v < 32 {
        lemma_base64_char(v as int);
        assert(s[0] == base64_char(v as int));
        assert(v % 32 == v);
        let next = ScanState {
            values: st.values.push(sign_decode(st.acc + v * w) as i32),
            acc: 0,
            digits: 0,
        };
        assert(scan_step(st, s[0]) == Ok::<ScanState, VLQError>(next));
        assert(s.drop_first() =~= Seq::<char>::empty());
        assert(scan(next, s.drop_first()) == Ok::<ScanState, VLQError>(next));
    } else {
        let d = (v % 32 + 32) as int;
        lemma_base64_char(d);
        assert(s[0] == base64_char(d));
        assert(s.drop_first() =~= encode_digits(v / 32));
        let next = ScanState { values: st.values, acc: st.acc + (v % 32) * w, digits: st.digits + 1 };
        assert(scan_step(st, s[0]) == Ok::<ScanState, VLQError>(next));
        assert(weight(next.digits) == 32 * w);
        assert((v % 32) * w >= 0) by (nonlinear_arith)
            requires
                w >= 1,
        ;
        assert(st.acc + (v % 32) * w + (v / 32) * (32 * w) == st.acc + v * w) by (nonlinear_arith)
            requires
                v == 32 * (v / 32) + v % 32,
        ;
        lemma_scan_encoded(next, v / 32);
    }
}

/// Decoding the encoding of a number that fits in `i32` gives back that number alone.
pub proof fn lemma_decode_encode(n: int)
    requires
        fits_i32(n),
    ensures
        decode_spec(encode_spec(n)) == Ok::<Seq<i32>, VLQError>(seq![n as i32]),
{
    let v = sign_encode(n);
    assert(sign_decode(v as int) == n);
    assert(v * weight(0) == v) by {
        reveal_with_fuel(weight, 1);
    }
    lemma_scan_encoded(scan_start(), v);
    assert(scan_start().values.push(n as i32) =~= seq![n as i32]);
}

/// A character of the alphabet whose digit has the continuation bit set.
pub open spec fn is_continuation(c: char) -> bool {
    base64_value(c) matches Some(d) && d >= 32
}

/// The state after reading only characters with the continuation bit set.
proof fn lemma_scan_continuations(st: ScanState, s: Seq<char>)
    requires
        forall|i: int| 0 <= i < s.len() ==> #[trigger] is_continuation(s[i]),
    ensures
        scan(st, s) matches Ok(end) && end.digits == st.digits + s.len(),
    decreases s.len(),
{
    if s.len() > 0 {
        assert(is_continuation(s[0]));
        let d = base64_value(s[0])->0;
        let next = ScanState { values: st.values, acc: st.acc + (d % 32) * weight(st.digits), digits: st.digits + 1 };
        assert(scan_step(st, s[0]) == Ok::<ScanState, VLQError>(next));
        assert forall|i: int| 0 <= i < s.drop_first().len() implies #[trigger] is_continuation(s.drop_first()[i]) by {
            assert(s.drop_first()[i] == s[i + 1]);
        }
        lemma_scan_continuations(next, s.drop_first());
    }
}

/// A non-empty segment made only of characters with the continuation bit set is an
/// unfinished number.
pub proof fn lemma_only_continuations_incomplete(s: Seq<char>)
    requires
        s.len() > 0,
        forall|i: int| 0 <= i < s.len() ==> #[trigger] is_continuation(s[i]),
    ensures
        decode_spec(s) == Err::<Seq<i32>, VLQError>(VLQError::IncompleteSequence),
{
    lemma_scan_continuations(scan_start(), s);
}

/// Decodes the segment `chars[start..end]`.
pub fn decode_range(chars: &Vec<char>, start: usize, end: usize) -> (r: Result<Vec<i32>, VLQError>)
    requires
        start <= end <= chars@.len(),
    ensures
        match r {
            Ok(v) => decode_spec(chars@.subrange(start as int, end as int)) == Ok::<Seq<i32>, VLQError>(v@),
            Err(e) => decode_spec(chars@.subrange(start as int, end as int)) == Err::<Seq<i32>, VLQError>(e),
        },
{
    let ghost seg = chars@.subrange(start as int, end as int);
    let mut values: Vec<i32> = Vec::new();
    let mut acc: u64 = 0;
    let mut big: bool = false;
    let mut digits: u32 = 0;
    let mut scale: u64 = 1;
    let ghost mut st = scan_start();
    let mut i: usize = start;
    proof {
        assert(chars@.subrange(i as int, end as int) == seg);
    }
    while i < end
        invariant
            start <= i <= end <= chars@.len(),
            seg == chars@.subrange(start as int, end as int),
            scan(st, chars@.subrange(i as int, end as int)) == scan(scan_start(), seg),
            values@ == st.values,
            st.acc >= 0,
            big <==> st.acc > ACC_LIMIT,
            !big ==> acc == st.acc,
            digits as int == if st.digits < 7 { st.digits as int } else { 7 },
            st.digits < 7 ==> scale == weight(st.digits),
        decreases end - i,
    {
        let ghost rest = chars@.subrange(i as int, end as int);
        proof {
            assert(rest[0] == chars@[i as int]);
            assert(rest.drop_first() =~= chars@.subrange(i + 1, end as int));
            lemma_weight_bounds(st.digits);
        }
        let c = chars[i];
        let d = match digit_of(c) {
            Some(d) => d,
            None => {
                return Err(VLQError::InvalidCharacter);
            },
        };
        let low: u64 = (d % 32) as u64;
        let ghost w = weight(st.digits);
        let ghost add = (d % 32) * w;
        let ghost new_acc = st.acc + add;
        proof {
            assert(low == d % 32);
            assert(add >= 0 && (low == 0 ==> add == 0) && (low >= 1 ==> add >= w)) by (nonlinear_arith)
                requires
                    w >= 1,
                    add == low * w,
            ;
            if st.digits < 7 {
                assert(scale == w);
            }
        }
        if !big && low != 0 {
            if digits >= 7 {
                big = true;
            } else {
                proof {
                    assert(low * scale <= 31 * 1073741824) by (nonlinear_arith)
                        requires
                            low <= 31,
                            scale <= 1073741824,
                    ;
                }
                acc = acc + low * scale;
                if acc > ACC_LIMIT {
                    big = true;
                }
            }
        }
        assert(big <==> new_acc > ACC_LIMIT);
        assert(!big ==> acc == new_acc);
        if d < 32 {
            if big {
                return Err(VLQError::ValueOutOfRange);
            }
            let half: i64 = (acc / 2) as i64;
            let n: i64 = if acc % 2 == 1 {
                -half
            } else {
                half
            };
            if n < -2147483648 || n > 2147483647 {
                return Err(VLQError::ValueOutOfRange);
            }
            values.push(n as i32);
            acc = 0;
            digits = 0;
            scale = 1;
            proof {
                st = ScanState { values: st.values.push(n as i32), acc: 0, digits: 0 };
            }
        } else {
            if digits < 7 {
                digits = digits + 1;
                scale = scale * 32;
            }
            proof {
                st = ScanState { values: st.values, acc: new_acc, digits: st.digits + 1 };
            }
        }
        i = i + 1;
    }
    proof {
        assert(chars@.subrange(i as int, end as int).len() == 0);
    }
    if digits != 0 {
        return Err(VLQError::IncompleteSequence);
    }
    Ok(values)
}

/// Decodes one segment into the signed numbers that it encodes, in order.
///
/// The empty segment encodes no numbers. A finished number outside `i32` fails with
/// `ValueOutOfRange`.
pub fn decode_vlq(input: &str) -> (r: Result<Vec<i32>, VLQError>)
    ensures
        match r {
            Ok(v) => decode_spec(input@) == Ok::<Seq<i32>, VLQError>(v@),
            Err(e) => decode_spec(input@) == Err::<Seq<i32>, VLQError>(e),
        },
{
    let chars = chars_of(input);
    proof {
        assert(chars@.subrange(0, chars@.len() as int) =~= input@);
    }
    decode_range(&chars, 0, chars.len())
}

} // verus!
