use crate::codec::text_from_utf8;
use vstd::prelude::*;
use vstd::utf8::{
    decode_utf8, encode_utf8, encode_utf8_decode_utf8, encode_utf8_valid_utf8, is_ascii_chars,
    is_ascii_chars_encode_utf8, valid_utf8,
};

verus! {

/// The code points of a text, in order.
pub open spec fn code_points(text: Seq<char>) -> Seq<int> {
    text.map_values(|c: char| c as int)
}

/// `0` to `9`.
pub open spec fn is_digit(c: int) -> bool {
    48 <= c <= 57
}

pub open spec fn all_digits(s: Seq<int>) -> bool {
    forall|i: int| 0 <= i < s.len() ==> is_digit(#[trigger] s[i])
}

/// The text opens with `+` or `-`.
pub open spec fn has_sign(s: Seq<int>) -> bool {
    s.len() > 0 && (s[0] == 43 || s[0] == 45)
}

/// What follows the sign, if there is one.
pub open spec fn unsigned_part(s: Seq<int>) -> Seq<int> {
    if has_sign(s) {
        s.drop_first()
    } else {
        s
    }
}

/// `b` is a run of `k` digits that either ends the text or is followed by one
/// point and a second run of digits; the two runs hold at least one digit.
pub open spec fn splits_at(b: Seq<int>, k: int) -> bool {
    &&& 0 <= k <= b.len()
    &&& all_digits(b.take(k))
    &&& k < b.len() ==> b[k] == 46 && all_digits(b.skip(k + 1)) && b.len() > 1
    &&& k == b.len() ==> b.len() > 0
}

/// The digits of `b`, the point at `k` left out.
pub open spec fn digits_of(b: Seq<int>, k: int) -> Seq<int> {
    if 0 <= k < b.len() {
        b.take(k) + b.skip(k + 1)
    } else {
        b
    }
}

/// The number that a run of digits writes in base ten.
pub open spec fn number(digits: Seq<int>) -> nat
    decreases digits.len(),
{
    if digits.len() == 0 {
        0
    } else {
        10 * number(digits.drop_last()) + (digits.last() - 48) as nat
    }
}

/// An exact decimal: `mantissa / 10^scale`, negated if `negative`. The sign is
/// kept apart from the mantissa, so that `-0` is told from `0`.
pub struct DecimalModel {
    pub negative: bool,
    pub mantissa: nat,
    pub scale: nat,
}

/// The value that a numeral denotes: `None` unless the text is an optional
/// sign, then digits, optionally one point and more digits, with at least one
/// digit in all. Exponents, blanks, `inf` and `nan` are no numerals.
pub open spec fn decimal_of(text: Seq<char>) -> Option<DecimalModel> {
    let s = code_points(text);
    let b = unsigned_part(s);
    if exists|k: int| splits_at(b, k) {
        let k = choose|k: int| splits_at(b, k);
        Some(
            DecimalModel {
                negative: s.len() > 0 && s[0] == 45,
                mantissa: number(digits_of(b, k)),
                scale: if k < b.len() {
                    (b.len() - k - 1) as nat
                } else {
                    0
                },
            },
        )
    } else {
        None
    }
}

/// The number that digit values, most significant first, write in base ten.
pub open spec fn magnitude(digits: Seq<u8>) -> nat
    decreases digits.len(),
{
    if digits.len() == 0 {
        0
    } else {
        10 * magnitude(digits.drop_last()) + digits.last() as nat
    }
}

/// An exact decimal of any length: its digits, most significant first, the
/// last `scale` of them behind the point.
#[derive(Clone, Debug, PartialEq, Eq)]
pub struct Decimal {
    pub negative: bool,
    pub digits: Vec<u8>,
    pub scale: usize,
}

impl Decimal {
    /// At least one digit, each below ten, and no more behind the point than
    /// there are.
    pub open spec fn wf(&self) -> bool {
        &&& self.digits@.len() > 0
        &&& self.scale <= self.digits@.len()
        &&& forall|i: int| 0 <= i < self.digits@.len() ==> #[trigger] self.digits@[i] <= 9
    }
}

impl View for Decimal {
    type V = DecimalModel;

    open spec fn view(&self) -> DecimalModel {
        DecimalModel {
            negative: self.negative,
            mantissa: magnitude(self.digits@),
            scale: self.scale as nat,
        }
    }
}

/// The characters `0` to `9` for digit values.
pub open spec fn digit_codes(values: Seq<u8>) -> Seq<u8> {
    values.map_values(|v: u8| (v + 48) as u8)
}

/// The shortest way to write a decimal with all its digits: `-` if it is
/// negative, the digits before the point and, if any stand behind it, the
/// point and those.
pub open spec fn numeral_bytes(negative: bool, digits: Seq<u8>, scale: int) -> Seq<u8> {
    let whole = digits.len() - scale;
    let sign = if negative {
        seq![45u8]
    } else {
        Seq::<u8>::empty()
    };
    let tail = if scale > 0 {
        seq![46u8] + digit_codes(digits.skip(whole))
    } else {
        Seq::<u8>::empty()
    };
    sign + digit_codes(digits.take(whole)) + tail
}

proof fn lemma_number_of_codes(codes: Seq<int>, values: Seq<u8>)
    requires
        codes.len() == values.len(),
        forall|i: int| 0 <= i < codes.len() ==> #[trigger] codes[i] == values[i] + 48,
    ensures
        number(codes) == magnitude(values),
    decreases codes.len(),
{
    if codes.len() > 0 {
        lemma_number_of_codes(codes.drop_last(), values.drop_last());
    }
}

/// Bytes below 128 are UTF-8 for the characters of the same numbers.
proof fn lemma_ascii_bytes(bytes: Seq<u8>)
    requires
        forall|i: int| 0 <= i < bytes.len() ==> #[trigger] bytes[i] < 128,
    ensures
        valid_utf8(bytes),
        decode_utf8(bytes).len() == bytes.len(),
        forall|i: int| 0 <= i < bytes.len() ==> #[trigger] code_points(decode_utf8(bytes))[i] == bytes[i],
{
    let chars = Seq::new(bytes.len(), |i: int| bytes[i] as char);
    assert(is_ascii_chars(chars));
    is_ascii_chars_encode_utf8(chars);
    assert(encode_utf8(chars) =~= bytes) by {
        assert forall|i: int| 0 <= i < bytes.len() implies encode_utf8(chars)[i] == bytes[i] by {
            assert(chars[i] as u8 == encode_utf8(chars)[i]);
        };
    };
    encode_utf8_valid_utf8(chars);
    encode_utf8_decode_utf8(chars);
}

/// The numeral written for a decimal is well-formed UTF-8.
proof fn lemma_numeral_is_valid(d: Decimal)
    requires
        d.wf(),
    ensures
        valid_utf8(numeral_bytes(d.negative, d.digits@, d.scale as int)),
{
    let digits = d.digits@;
    let whole = digits.len() - d.scale;
    let bytes = numeral_bytes(d.negative, digits, d.scale as int);
    let off: int = if d.negative {
        1
    } else {
        0
    };
    assert forall|i: int| 0 <= i < bytes.len() implies #[trigger] bytes[i] < 128 by {
        if i >= off && i < off + whole {
            assert(bytes[i] == digits[i - off] + 48);
        } else if i > off + whole {
            assert(bytes[i] == digits[i - off - 1] + 48);
        }
    };
    lemma_ascii_bytes(bytes);
}

/// The numeral written for a decimal denotes that decimal.
proof fn lemma_numeral_denotes(d: Decimal, text: Seq<char>)
    requires
        d.wf(),
        text == decode_utf8(numeral_bytes(d.negative, d.digits@, d.scale as int)),
    ensures
        decimal_of(text) == Some(d@),
{
    let digits = d.digits@;
    let n = digits.len() as int;
    let scale = d.scale as int;
    let whole = n - scale;
    let bytes = numeral_bytes(d.negative, digits, scale);
    let off: int = if d.negative {
        1
    } else {
        0
    };
    assert(bytes.len() == off + n + if scale > 0 {
        1int
    } else {
        0int
    });
    assert forall|i: int| 0 <= i < bytes.len() implies #[trigger] bytes[i] < 128 by {
        if i >= off && i < off + whole {
            assert(bytes[i] == digits[i - off] + 48);
        } else if i > off + whole {
            assert(bytes[i] == digits[i - off - 1] + 48);
        }
    };
    lemma_ascii_bytes(bytes);
    let s = code_points(text);
    assert(s.len() == bytes.len());
    let b = unsigned_part(s);
    assert(!d.negative ==> s[0] == bytes[0] && s[0] != 43 && s[0] != 45) by {
        if !d.negative {
            if whole > 0 {
                assert(bytes[0] == digits[0] + 48);
            }
        }
    };
    assert(d.negative ==> s[0] == bytes[0] && s[0] == 45);
    assert(b.len() == bytes.len() - off);
    assert forall|j: int| 0 <= j < b.len() implies #[trigger] b[j] == bytes[j + off] by {
        assert(s[j + off] == bytes[j + off]);
    };
    assert forall|j: int| 0 <= j < whole implies #[trigger] b[j] == digits[j] + 48 by {
        assert(bytes[j + off] == digits[j] + 48);
    };
    assert forall|j: int| whole < j < b.len() implies #[trigger] b[j] == digits[j - 1] + 48 by {
        assert(bytes[j + off] == digits[j - 1] + 48);
    };
    let k = whole;
    assert(all_digits(b.take(k)));
    if scale > 0 {
        assert(b[k] == 46);
        assert(all_digits(b.skip(k + 1))) by {
            assert forall|j: int| 0 <= j < b.skip(k + 1).len() implies is_digit(
                #[trigger] b.skip(k + 1)[j],
            ) by {
                assert(b.skip(k + 1)[j] == b[j + k + 1]);
            };
        };
        lemma_point_fixes_split(b, k);
    } else {
        assert(b.take(k) =~= b);
        lemma_digits_fix_split(b);
    }
    assert(splits_at(b, k));
    lemma_number_of_codes(digits_of(b, k), digits);
}

impl Decimal {
    /// Whether the digits and the scale are those of a decimal.
    pub fn is_well_formed(&self) -> (r: bool)
        ensures
            r == self.wf(),
    {
        let n = self.digits.len();
        if n == 0 || self.scale > n {
            return false;
        }
        let mut i: usize = 0;
        while i < n
            invariant
                i <= n,
                n == self.digits@.len(),
                forall|j: int| 0 <= j < i ==> #[trigger] self.digits@[j] <= 9,
            decreases n - i,
        {
            if self.digits[i] > 9 {
                return false;
            }
            i += 1;
        }
        true
    }

    /// The decimal as a numeral that denotes it exactly, for whoever rounds
    /// it to a machine number; `None` for digits or a scale that are none.
    pub fn to_text(&self) -> (r: Option<String>)
        ensures
            r is Some <==> self.wf(),
            r matches Some(text) ==> decimal_of(text@) == Some(self@) && text@ == decode_utf8(
                numeral_bytes(self.negative, self.digits@, self.scale as int),
            ),
    {
        if !self.is_well_formed() {
            return None;
        }
        let n = self.digits.len();
        let whole = n - self.scale;
        let ghost digits = self.digits@;
        let mut bytes: Vec<u8> = Vec::new();
        if self.negative {
            bytes.push(45u8);
        }
        let ghost sign = bytes@;
        let mut i: usize = 0;
        assert(bytes@ =~= sign + digit_codes(digits.take(0)));
        while i < whole
            invariant
                i <= whole <= n,
                n == digits.len(),
                digits == self.digits@,
                self.wf(),
                bytes@ == sign + digit_codes(digits.take(i as int)),
            decreases whole - i,
        {
            bytes.push(self.digits[i] + 48u8);
            assert(bytes@ =~= sign + digit_codes(digits.take(i + 1)));
            i += 1;
        }
        if self.scale > 0 {
            bytes.push(46u8);
            assert(bytes@ =~= sign + digit_codes(digits.take(whole as int)) + (seq![46u8]
                + digit_codes(digits.subrange(whole as int, i as int))));
            while i < n
                invariant
                    whole <= i <= n,
                    n == digits.len(),
                    digits == self.digits@,
                    self.wf(),
                    bytes@ == sign + digit_codes(digits.take(whole as int)) + (seq![46u8]
                        + digit_codes(digits.subrange(whole as int, i as int))),
                decreases n - i,
            {
                bytes.push(self.digits[i] + 48u8);
                assert(bytes@ =~= sign + digit_codes(digits.take(whole as int)) + (seq![46u8]
                    + digit_codes(digits.subrange(whole as int, i + 1))));
                i += 1;
            }
            assert(digits.subrange(whole as int, n as int) =~= digits.skip(whole as int));
        } else {
            assert(bytes@ =~= sign + digit_codes(digits.take(whole as int)) + Seq::<u8>::empty());
        }
        assert(bytes@ == numeral_bytes(self.negative, digits, self.scale as int));
        proof {
            lemma_numeral_denotes(*self, decode_utf8(bytes@));
            lemma_numeral_is_valid(*self);
        }
        text_from_utf8(bytes)
    }
}

/// A field that is no decimal numeral, with its text.
#[derive(Clone, Debug, PartialEq, Eq)]
pub struct MalformedNumber {
    pub text: String,
}

proof fn lemma_point_fixes_split(b: Seq<int>, k: int)
    requires
        0 <= k < b.len(),
        b[k] == 46,
        all_digits(b.take(k)),
    ensures
        forall|j: int| splits_at(b, j) ==> j == k,
{
    assert forall|j: int| splits_at(b, j) implies j == k by {
        if j < k {
            assert(b.take(k)[j] == b[j]);
        } else if j > k {
            assert(b.take(j)[k] == b[k]);
        }
    };
}

proof fn lemma_digits_fix_split(b: Seq<int>)
    requires
        all_digits(b),
    ensures
        forall|j: int| splits_at(b, j) ==> j == b.len(),
{
}

proof fn lemma_stray(b: Seq<int>, k: int)
    requires
        0 <= k < b.len(),
        all_digits(b.take(k)),
        !is_digit(b[k]),
        b[k] != 46,
    ensures
        forall|j: int| !splits_at(b, j),
{
    assert forall|j: int| !splits_at(b, j) by {
        if splits_at(b, j) {
            if j < k {
                assert(b.take(k)[j] == b[j]);
            } else if j > k {
                assert(b.take(j)[k] == b[k]);
            }
        }
    };
}

proof fn lemma_stray_behind_point(b: Seq<int>, k: int, at: int)
    requires
        0 <= k < at < b.len(),
        b[k] == 46,
        all_digits(b.take(k)),
        !is_digit(b[at]),
    ensures
        forall|j: int| !splits_at(b, j),
{
    lemma_point_fixes_split(b, k);
    assert forall|j: int| !splits_at(b, j) by {
        if splits_at(b, j) {
            assert(b.skip(k + 1)[at - k - 1] == b[at]);
        }
    };
}

/// A numeral holds signs, digits and points only.
proof fn lemma_numeral_is_ascii(text: Seq<char>)
    requires
        decimal_of(text) is Some,
    ensures
        is_ascii_chars(text),
{
    let s = code_points(text);
    let b = unsigned_part(s);
    let k = choose|k: int| splits_at(b, k);
    let off: int = if has_sign(s) {
        1
    } else {
        0
    };
    assert forall|i: int| 0 <= i < text.len() implies '\0' <= #[trigger] text[i] <= '\u{7f}' by {
        assert(s[i] == text[i] as int);
        if i >= off {
            let j = i - off;
            assert(b[j] == s[i]);
            if j < k {
                assert(b.take(k)[j] == b[j]);
            } else if j > k {
                assert(b.skip(k + 1)[j - k - 1] == b[j]);
            }
        }
    };
}

/// Reads a decimal numeral exactly. Nothing is rounded and no bound is put on
/// the value or its sign.
pub fn parse_decimal(text: &str) -> (r: Result<Decimal, MalformedNumber>)
    ensures
        match r {
            Ok(d) => d.wf() && decimal_of(text@) == Some(d@),
            Err(e) => decimal_of(text@) is None && e.text@ == text@,
        },
{
    if !text.is_ascii() {
        proof {
            if decimal_of(text@) is Some {
                lemma_numeral_is_ascii(text@);
            }
        }
        return Err(MalformedNumber { text: text.to_owned() });
    }
    let bytes = text.as_bytes();
    let n = bytes.len();
    let ghost s = code_points(text@);
    let ghost b = unsigned_part(s);
    proof {
        is_ascii_chars_encode_utf8(text@);
        assert forall|i: int| 0 <= i < n implies bytes@[i] as int == #[trigger] s[i] by {
            assert('\0' <= text@[i] <= '\u{7f}');
            assert(text@[i] as u8 == bytes@[i]);
        };
    }
    let negative = n > 0 && bytes[0] == 45u8;
    let start: usize = if n > 0 && (bytes[0] == 43u8 || bytes[0] == 45u8) {
        1
    } else {
        0
    };
    assert(b.len() == n - start);
    assert(forall|j: int| 0 <= j < b.len() ==> #[trigger] b[j] == s[j + start]);
    let mut digits: Vec<u8> = Vec::new();
    let ghost mut seen: Seq<int> = Seq::empty();
    let mut i: usize = start;
    assert(b.take(0) =~= seen);
    while i < n && 48u8 <= bytes[i] && bytes[i] <= 57u8
        invariant
            start <= i <= n,
            n == bytes@.len(),
            b.len() == n - start,
            forall|j: int| 0 <= j < n ==> bytes@[j] as int == #[trigger] s[j],
            forall|j: int| 0 <= j < b.len() ==> #[trigger] b[j] == s[j + start],
            seen == b.take(i - start),
            all_digits(seen),
            magnitude(digits@) == number(seen),
            digits@.len() == seen.len(),
            forall|j: int| 0 <= j < digits@.len() ==> #[trigger] digits@[j] <= 9,
        decreases n - i,
    {
        let ghost before = digits@;
        digits.push(bytes[i] - 48u8);
        proof {
            let c = b[i - start];
            assert(c == bytes@[i as int] as int);
            assert(digits@.drop_last() =~= before);
            assert(seen.push(c).drop_last() =~= seen);
            assert(b.take(i + 1 - start) =~= seen.push(c));
            seen = seen.push(c);
        }
        i += 1;
    }
    let ghost k: int = i - start;
    if i == n {
        proof {
            assert(b.take(k) =~= b);
            lemma_digits_fix_split(b);
        }
        if digits.len() == 0 {
            return Err(MalformedNumber { text: text.to_owned() });
        }
        assert(splits_at(b, k));
        return Ok(Decimal { negative, digits, scale: 0 });
    }
    if bytes[i] != 46u8 {
        proof {
            assert(b[k] == bytes@[i as int] as int);
            lemma_stray(b, k);
        }
        return Err(MalformedNumber { text: text.to_owned() });
    }
    let point = i;
    i += 1;
    assert(b[k] == 46);
    assert(b.subrange(k + 1, i - start) =~= Seq::<int>::empty());
    assert(seen + Seq::<int>::empty() =~= seen);
    while i < n && 48u8 <= bytes[i] && bytes[i] <= 57u8
        invariant
            start <= point < i <= n,
            k == point - start,
            n == bytes@.len(),
            b.len() == n - start,
            forall|j: int| 0 <= j < n ==> bytes@[j] as int == #[trigger] s[j],
            forall|j: int| 0 <= j < b.len() ==> #[trigger] b[j] == s[j + start],
            seen == b.take(k) + b.subrange(k + 1, i - start),
            all_digits(b.take(k)),
            all_digits(b.subrange(k + 1, i - start)),
            magnitude(digits@) == number(seen),
            digits@.len() == seen.len(),
            forall|j: int| 0 <= j < digits@.len() ==> #[trigger] digits@[j] <= 9,
        decreases n - i,
    {
        let ghost before = digits@;
        digits.push(bytes[i] - 48u8);
        proof {
            let c = b[i - start];
            assert(c == bytes@[i as int] as int);
            assert(digits@.drop_last() =~= before);
            assert(seen.push(c).drop_last() =~= seen);
            assert(b.take(k) + b.subrange(k + 1, i + 1 - start) =~= seen.push(c));
            assert(b.subrange(k + 1, i + 1 - start) =~= b.subrange(k + 1, i - start).push(c));
            seen = seen.push(c);
        }
        i += 1;
    }
    if i < n {
        proof {
            assert(b[i - start] == bytes@[i as int] as int);
            lemma_stray_behind_point(b, k, i - start);
        }
        return Err(MalformedNumber { text: text.to_owned() });
    }
    proof {
        lemma_point_fixes_split(b, k);
        assert(b.subrange(k + 1, i - start) =~= b.skip(k + 1));
    }
    if digits.len() == 0 {
        return Err(MalformedNumber { text: text.to_owned() });
    }
    assert(splits_at(b, k));
    Ok(Decimal { negative, digits, scale: n - point - 1 })
}

} // verus!
