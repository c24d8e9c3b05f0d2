use vstd::prelude::*;
use vstd::string::StringExecFns;

verus! {

/// Why a run of characters is not a `u32` in the requested radix. The
/// variants are the kinds of error that `u32::from_str_radix` reports.
#[derive(Debug, Clone, Copy, PartialEq, Eq, Structural)]
pub enum NumberError {
    /// There were no characters at all.
    Empty,
    /// A character is not a digit of the radix (or the text is a lone sign).
    InvalidDigit,
    /// The digits denote a value above `u32::MAX`.
    PosOverflow,
}

/// The value of `c` as a digit of `radix`, for a radix of at most 36:
/// `0`-`9`, then `a`-`z` and `A`-`Z` for ten and above.
pub open spec fn digit_value(c: char, radix: nat) -> Option<nat> {
    let v = c as int;
    let d: int = if 48 <= v <= 57 {
        v - 48
    } else if 97 <= v <= 122 {
        v - 87
    } else if 65 <= v <= 90 {
        v - 55
    } else {
        36
    };
    if d < radix {
        Some(d as nat)
    } else {
        None
    }
}

/// The number that the digits `s` denote in `radix` (characters that are not
/// digits count as zero; callers only apply it to digits).
pub open spec fn digits_value(s: Seq<char>, radix: nat) -> nat
    decreases s.len(),
{
    if s.len() == 0 {
        0
    } else {
        let d: nat = match digit_value(s.last(), radix) {
            Some(d) => d,
            None => 0,
        };
        digits_value(s.drop_last(), radix) * radix + d
    }
}

/// How many characters at the start of `s` are digits of `radix`.
pub open spec fn digit_run_len(s: Seq<char>, radix: nat) -> nat
    decreases s.len(),
{
    if s.len() == 0 {
        0
    } else if digit_value(s[0], radix) is None {
        0
    } else {
        1 + digit_run_len(s.drop_first(), radix)
    }
}

/// What `u32::from_str_radix(s, radix)` gives: an optional leading `+`,
/// then only digits, whose value must fit in a `u32`. When the text is wrong
/// in more than one way, the digits are read from the left and the first
/// problem met is the one reported: a value above `u32::MAX` among the leading
/// digits is an overflow, otherwise a stray character is an invalid digit.
pub open spec fn spec_from_str_radix(s: Seq<char>, radix: nat) -> Result<u32, NumberError> {
    if s.len() == 0 {
        Err(NumberError::Empty)
    } else {
        let digits = if s[0] == '+' {
            s.drop_first()
        } else {
            s
        };
        let k = digit_run_len(digits, radix);
        if digits_value(digits.take(k as int), radix) > u32::MAX {
            Err(NumberError::PosOverflow)
        } else if digits.len() == 0 || k < digits.len() {
            Err(NumberError::InvalidDigit)
        } else {
            Ok(digits_value(digits, radix) as u32)
        }
    }
}

/// A number written in decimal, or in hexadecimal after a `0x` or `0X`
/// prefix.
pub open spec fn spec_parse_dec_or_hex(s: Seq<char>) -> Result<u32, NumberError> {
    if s.len() >= 2 && s[0] == '0' && (s[1] == 'x' || s[1] == 'X') {
        spec_from_str_radix(s.skip(2), 16)
    } else {
        spec_from_str_radix(s, 10)
    }
}

proof fn lemma_digit_run_len(s: Seq<char>, radix: nat)
    ensures
        digit_run_len(s, radix) <= s.len(),
        forall|i: int| 0 <= i < digit_run_len(s, radix) ==> digit_value(#[trigger] s[i], radix) is Some,
        digit_run_len(s, radix) < s.len() ==> digit_value(s[digit_run_len(s, radix) as int], radix) is None,
    decreases s.len(),
{
    if s.len() > 0 && digit_value(s[0], radix) is Some {
        lemma_digit_run_len(s.drop_first(), radix);
        assert forall|i: int| 0 <= i < digit_run_len(s, radix) implies digit_value(#[trigger] s[i], radix) is Some by {
            if i > 0 {
                assert(s[i] == s.drop_first()[i - 1]);
            }
        }
    }
}

/// The run length is the first index that is not a digit.
proof fn lemma_digit_run_len_is(s: Seq<char>, radix: nat, k: int)
    requires
        0 <= k <= s.len(),
        forall|i: int| 0 <= i < k ==> digit_value(#[trigger] s[i], radix) is Some,
        k < s.len() ==> digit_value(s[k], radix) is None,
    ensures
        digit_run_len(s, radix) == k,
    decreases s.len(),
{
    if k > 0 {
        assert(digit_value(s[0], radix) is Some);
        assert forall|i: int| 0 <= i < k - 1 implies digit_value(#[trigger] s.drop_first()[i], radix) is Some by {
            assert(s.drop_first()[i] == s[i + 1]);
        }
        if k - 1 < s.len() - 1 {
            assert(s.drop_first()[k - 1] == s[k]);
        }
        lemma_digit_run_len_is(s.drop_first(), radix, k - 1);
    }
}

proof fn lemma_value_step(s: Seq<char>, radix: nat, i: int)
    requires
        0 <= i < s.len(),
        digit_value(s[i], radix) is Some,
    ensures
        digits_value(s.take(i + 1), radix) == digits_value(s.take(i), radix) * radix + digit_value(s[i], radix)->0,
{
    assert(s.take(i + 1).drop_last() =~= s.take(i));
}

/// Reading more digits never makes the value smaller.
proof fn lemma_value_monotone(s: Seq<char>, radix: nat, j: int, k: int)
    requires
        radix >= 1,
        0 <= j <= k <= s.len(),
        forall|i: int| 0 <= i < k ==> digit_value(#[trigger] s[i], radix) is Some,
    ensures
        digits_value(s.take(j), radix) <= digits_value(s.take(k), radix),
    decreases k - j,
{
    if j < k {
        lemma_value_monotone(s, radix, j, k - 1);
        lemma_value_step(s, radix, k - 1);
        let v = digits_value(s.take(k - 1), radix);
        assert(v <= v * radix) by (nonlinear_arith)
            requires radix >= 1;
    }
}

/// The value of `digit` as a digit of `radix`, as `char::to_digit` gives it.
fn to_digit(c: char, radix: u32) -> (res: Option<u32>)
    requires
        2 <= radix <= 36,
    ensures
        match res {
            Some(d) => digit_value(c, radix as nat) == Some(d as nat) && d < radix,
            None => digit_value(c, radix as nat) is None,
        },
{
    let v = c as u32;
    let d: u32 = if 48 <= v && v <= 57 {
        v - 48
    } else if 97 <= v && v <= 122 {
        v - 87
    } else if 65 <= v && v <= 90 {
        v - 55
    } else {
        36
    };
    if d < radix {
        Some(d)
    } else {
        None
    }
}

/// The digit that stands for `d` (below 16): `0`-`9`, then `a`-`f`.
pub open spec fn digit_char(d: nat) -> char {
    if d < 10 {
        (d + 48) as char
    } else {
        (d + 87) as char
    }
}

/// `n` written in `radix` (from 2 to 16) without leading zeros, with
/// lower-case letters for the digits above 9.
pub open spec fn radix_text(n: nat, radix: nat) -> Seq<char>
    decreases n,
{
    if radix < 2 || n < radix {
        seq![digit_char(n)]
    } else {
        proof {
            vstd::arithmetic::div_mod::lemma_div_decreases(n as int, radix as int);
        }
        radix_text(n / radix, radix).push(digit_char(n % radix))
    }
}

proof fn lemma_digit_char(d: nat, radix: nat)
    requires
        d < radix <= 16,
    ensures
        digit_value(digit_char(d), radix) == Some(d),
{
}

/// `radix_text` writes at least one digit, only digits of the radix, and
/// digits whose value is the number written.
pub proof fn lemma_radix_text(n: nat, radix: nat)
    requires
        2 <= radix <= 16,
    ensures
        radix_text(n, radix).len() > 0,
        forall|i: int|
            0 <= i < radix_text(n, radix).len() ==> digit_value(#[trigger] radix_text(n, radix)[i], radix)
                is Some,
        digits_value(radix_text(n, radix), radix) == n,
    decreases n,
{
    let t = radix_text(n, radix);
    if n < radix {
        lemma_digit_char(n, radix);
        assert(t.drop_last() =~= Seq::<char>::empty());
        assert(0 * radix == 0) by (nonlinear_arith);
        assert(digits_value(t.drop_last(), radix) == 0);
        assert(t.last() == digit_char(n));
        assert(digits_value(t, radix) == n);
    } else {
        vstd::arithmetic::div_mod::lemma_div_decreases(n as int, radix as int);
        vstd::arithmetic::div_mod::lemma_fundamental_div_mod(n as int, radix as int);
        let q = n / radix;
        let r = n % radix;
        lemma_radix_text(q, radix);
        lemma_digit_char(r, radix);
        assert(t.drop_last() =~= radix_text(q, radix));
        assert forall|i: int| 0 <= i < t.len() implies digit_value(#[trigger] t[i], radix) is Some by {
            if i < t.len() - 1 {
                assert(t[i] == radix_text(q, radix)[i]);
            }
        }
        assert(digits_value(t, radix) == q * radix + r);
        assert(q * radix == radix * q) by (nonlinear_arith);
        assert(n == radix * q + r);
    }
}

/// A digit is an ASCII letter or decimal digit.
pub proof fn lemma_digit_is_alnum(c: char, radix: nat)
    requires
        radix <= 36,
        digit_value(c, radix) is Some,
    ensures
        ('0' <= c <= '9') || ('a' <= c <= 'z') || ('A' <= c <= 'Z'),
{
}

/// A number written by `radix_text` is read back as itself.
proof fn lemma_from_str_radix_text(n: nat, radix: nat)
    requires
        2 <= radix <= 16,
        n <= u32::MAX,
    ensures
        spec_from_str_radix(radix_text(n, radix), radix) == Ok::<u32, NumberError>(n as u32),
{
    let t = radix_text(n, radix);
    lemma_radix_text(n, radix);
    assert(t[0] != '+') by {
        assert(digit_value(t[0], radix) is Some);
    }
    lemma_digit_run_len_is(t, radix, t.len() as int);
    assert(t.take(t.len() as int) =~= t);
}

/// `c` with an ASCII lower-case letter made upper-case.
pub open spec fn to_upper(c: char) -> char {
    if 'a' <= c <= 'z' {
        ((c as int) - 32) as char
    } else {
        c
    }
}

/// `t` with its ASCII lower-case letters made upper-case.
pub open spec fn upper_text(t: Seq<char>) -> Seq<char> {
    t.map_values(|c: char| to_upper(c))
}

/// Two runs whose characters are the same digits have the same value and
/// the same run of leading digits.
proof fn lemma_same_digits(a: Seq<char>, b: Seq<char>, radix: nat)
    requires
        a.len() == b.len(),
        forall|i: int| 0 <= i < a.len() ==> digit_value(#[trigger] a[i], radix) == digit_value(b[i], radix),
    ensures
        digits_value(a, radix) == digits_value(b, radix),
        digit_run_len(a, radix) == digit_run_len(b, radix),
    decreases a.len(),
{
    if a.len() > 0 {
        assert forall|i: int| 0 <= i < a.drop_last().len() implies digit_value(
            #[trigger] a.drop_last()[i],
            radix,
        ) == digit_value(b.drop_last()[i], radix) by {
            assert(a.drop_last()[i] == a[i] && b.drop_last()[i] == b[i]);
        }
        assert forall|i: int| 0 <= i < a.drop_first().len() implies digit_value(
            #[trigger] a.drop_first()[i],
            radix,
        ) == digit_value(b.drop_first()[i], radix) by {
            assert(a.drop_first()[i] == a[i + 1] && b.drop_first()[i] == b[i + 1]);
        }
        assert(digit_value(a[0], radix) == digit_value(b[0], radix));
        assert(digit_value(a.last(), radix) == digit_value(b.last(), radix));
        lemma_same_digits(a.drop_last(), b.drop_last(), radix);
        lemma_same_digits(a.drop_first(), b.drop_first(), radix);
    }
}

/// Upper-case letters are the same digits as lower-case ones.
proof fn lemma_upper_digits(t: Seq<char>, radix: nat)
    ensures
        upper_text(t).len() == t.len(),
        forall|i: int| 0 <= i < t.len() ==> digit_value(#[trigger] upper_text(t)[i], radix) == digit_value(t[i], radix),
{
    assert forall|i: int| 0 <= i < t.len() implies digit_value(#[trigger] upper_text(t)[i], radix) == digit_value(t[i], radix) by {
        let c = t[i];
        assert(upper_text(t)[i] == to_upper(c));
        if 'a' <= c <= 'z' {
            assert((to_upper(c) as int) == (c as int) - 32);
        }
    }
}

/// A number written in upper-case hexadecimal reads back as itself.
proof fn lemma_from_str_radix_upper(n: nat)
    requires
        n <= u32::MAX,
    ensures
        spec_from_str_radix(upper_text(radix_text(n, 16)), 16) == Ok::<u32, NumberError>(n as u32),
{
    let t = radix_text(n, 16);
    let u = upper_text(t);
    lemma_from_str_radix_text(n, 16);
    lemma_radix_text(n, 16);
    lemma_upper_digits(t, 16);
    lemma_same_digits(u, t, 16);
    let k = digit_run_len(t, 16) as int;
    lemma_digit_run_len(t, 16);
    assert forall|i: int| 0 <= i < u.take(k).len() implies digit_value(#[trigger] u.take(k)[i], 16) == digit_value(t.take(k)[i], 16) by {
        assert(u.take(k)[i] == u[i] && t.take(k)[i] == t[i]);
    }
    lemma_same_digits(u.take(k), t.take(k), 16);
    assert(digit_value(u[0], 16) is Some);
    assert(u[0] != '+');
    assert(t[0] != '+');
}

/// Every `u32` reads back as itself, whether written in decimal or in
/// hexadecimal after `0x` or `0X`, with lower-case or upper-case digits.
pub proof fn law_number_text_roundtrip(n: u32)
    ensures
        spec_parse_dec_or_hex(radix_text(n as nat, 10)) == Ok::<u32, NumberError>(n),
        spec_parse_dec_or_hex(seq!['0', 'x'] + radix_text(n as nat, 16)) == Ok::<u32, NumberError>(n),
        spec_parse_dec_or_hex(seq!['0', 'X'] + radix_text(n as nat, 16)) == Ok::<u32, NumberError>(n),
        spec_parse_dec_or_hex(seq!['0', 'x'] + upper_text(radix_text(n as nat, 16))) == Ok::<u32, NumberError>(n),
        spec_parse_dec_or_hex(seq!['0', 'X'] + upper_text(radix_text(n as nat, 16))) == Ok::<u32, NumberError>(n),
{
    lemma_from_str_radix_text(n as nat, 10);
    lemma_from_str_radix_text(n as nat, 16);
    lemma_from_str_radix_upper(n as nat);
    let uh = upper_text(radix_text(n as nat, 16));
    assert((seq!['0', 'x'] + uh).skip(2) =~= uh);
    assert((seq!['0', 'X'] + uh).skip(2) =~= uh);
    lemma_radix_text(n as nat, 10);
    let d = radix_text(n as nat, 10);
    if d.len() >= 2 {
        assert(digit_value(d[1], 10) is Some);
    }
    let h = radix_text(n as nat, 16);
    assert((seq!['0', 'x'] + h).skip(2) =~= h);
    assert((seq!['0', 'X'] + h).skip(2) =~= h);
}

/// Reads `s[start..end]` as `u32::from_str_radix` does.
pub fn from_str_radix_chars(s: &[char], start: usize, end: usize, radix: u32) -> (res: Result<u32, NumberError>)
    requires
        start <= end <= s@.len(),
        2 <= radix <= 36,
    ensures
        res == spec_from_str_radix(s@.subrange(start as int, end as int), radix as nat),
{
    let ghost text = s@.subrange(start as int, end as int);
    if start == end {
        return Err(NumberError::Empty);
    }
    let mut i = start;
    if s[start] == '+' {
        i = start + 1;
    }
    let ghost d0 = i as int;
    let ghost digits = s@.subrange(d0, end as int);
    assert(digits =~= (if text[0] == '+' { text.drop_first() } else { text }));
    if i == end {
        proof {
            lemma_digit_run_len(digits, radix as nat);
            assert(digits.take(0) =~= Seq::<char>::empty());
        }
        return Err(NumberError::InvalidDigit);
    }
    let mut acc: u32 = 0;
    assert(digits.take(0) =~= Seq::<char>::empty());
    while i < end
        invariant
            start <= d0 <= i <= end <= s@.len(),
            2 <= radix <= 36,
            digits == s@.subrange(d0, end as int),
            text == s@.subrange(start as int, end as int),
            text.len() > 0,
            digits == (if text[0] == '+' { text.drop_first() } else { text }),
            forall|j: int| 0 <= j < i - d0 ==> digit_value(#[trigger] digits[j], radix as nat) is Some,
            acc as nat == digits_value(digits.take(i - d0), radix as nat),
        decreases end - i,
    {
        let c = s[i];
        assert(c == digits[i - d0]);
        match to_digit(c, radix) {
            None => {
                proof {
                    lemma_digit_run_len_is(digits, radix as nat, i - d0);
                }
                return Err(NumberError::InvalidDigit);
            },
            Some(d) => {
                assert(acc as u64 * radix as u64 + d as u64 <= u32::MAX as u64 * 36 + 36) by (nonlinear_arith)
                    requires acc <= u32::MAX, radix <= 36, d < 36;
                let next: u64 = acc as u64 * radix as u64 + d as u64;
                proof {
                    lemma_value_step(digits, radix as nat, i - d0);
                }
                if next > u32::MAX as u64 {
                    proof {
                        lemma_digit_run_len(digits, radix as nat);
                        let k = digit_run_len(digits, radix as nat) as int;
                        assert forall|j: int| 0 <= j < i - d0 + 1 implies digit_value(#[trigger] digits[j], radix as nat) is Some by {}
                        if k < i - d0 + 1 {
                            assert(digit_value(digits[k], radix as nat) is Some);
                        }
                        lemma_value_monotone(digits, radix as nat, i - d0 + 1, k);
                    }
                    return Err(NumberError::PosOverflow);
                }
                acc = next as u32;
                i = i + 1;
            },
        }
    }
    proof {
        lemma_digit_run_len_is(digits, radix as nat, digits.len() as int);
        assert(digits.take(digits.len() as int) =~= digits);
    }
    Ok(acc)
}

/// Reads `s[start..end]` as a decimal number, or as a hexadecimal one after a
/// `0x` or `0X` prefix.
pub fn parse_dec_or_hex_chars(s: &[char], start: usize, end: usize) -> (res: Result<u32, NumberError>)
    requires
        start <= end <= s@.len(),
    ensures
        res == spec_parse_dec_or_hex(s@.subrange(start as int, end as int)),
{
    let ghost t = s@.subrange(start as int, end as int);
    if end - start >= 2 && s[start] == '0' && (s[start + 1] == 'x' || s[start + 1] == 'X') {
        assert(t.skip(2) =~= s@.subrange(start + 2, end as int));
        from_str_radix_chars(s, start + 2, end, 16)
    } else {
        from_str_radix_chars(s, start, end, 10)
    }
}

/// Reads `s` as a decimal number, or as a hexadecimal one after a `0x` or `0X`
/// prefix.
pub fn parse_dec_or_hex(s: &str) -> (res: Result<u32, NumberError>)
    ensures
        res == spec_parse_dec_or_hex(s@),
{
    let cs = chars_of(s);
    assert(cs@.subrange(0, cs@.len() as int) =~= cs@);
    parse_dec_or_hex_chars(cs.as_slice(), 0, cs.len())
}

/// What went wrong where a reader stopped.
#[derive(Debug, Clone, PartialEq, Eq)]
pub enum ParseErrorReason {
    /// The text does not have the expected shape here.
    Unexpected,
    /// A number field does not hold a `u32`.
    Number(NumberError),
    /// An attribute with this key (or this word) is not known.
    UnknownAttribute(String),
    /// The value of a `type:` attribute is not a symbol kind.
    UnknownSymbolKind(String),
    /// The value of a `scope:` attribute is not a symbol scope.
    UnknownSymbolScope(String),
    /// The value of a `data:` attribute is not a data kind.
    UnknownDataKind(String),
}

/// What `format!("{:?}", s)` writes for the text `s`: the text in double
/// quotes, with the characters that need it escaped.
pub uninterp spec fn debug_text(s: Seq<char>) -> Seq<char>;

/// `<str as Debug>::fmt`, through `format!("{s:?}")`. Claimed here only that
/// what it writes depends on the text alone, named `debug_text`; which
/// characters it escapes, and how, is not stated.
#[verifier::external_body]
pub(crate) fn debug_quoted(s: &str) -> (res: String)
    ensures
        res@ == debug_text(s@),
{
    format!("{s:?}")
}

/// `prefix` followed by `quoted`: a message that names a quoted text.
pub fn with_quoted(prefix: &str, quoted: &str) -> (res: String)
    ensures
        res@ == prefix@ + quoted@,
{
    prefix.to_owned().concat(quoted)
}

/// The message of a number that is not read, as `u32`'s parse error words
/// it.
pub open spec fn number_message(e: NumberError) -> Seq<char> {
    match e {
        NumberError::Empty => "cannot parse integer from empty string"@,
        NumberError::InvalidDigit => "invalid digit found in string"@,
        NumberError::PosOverflow => "number too large to fit in target type"@,
    }
}

impl NumberError {
    /// What went wrong, in words.
    pub fn message(&self) -> (res: String)
        ensures
            res@ == number_message(*self),
    {
        match self {
            NumberError::Empty => "cannot parse integer from empty string".to_owned(),
            NumberError::InvalidDigit => "invalid digit found in string".to_owned(),
            NumberError::PosOverflow => "number too large to fit in target type".to_owned(),
        }
    }
}

impl ParseErrorReason {
    /// What went wrong, in words: `unexpected input`, the number's message,
    /// or `unknown attribute: `, `unknown symbol kind: `, `unknown symbol
    /// scope: ` or `unknown obj data type: ` followed by the quoted name.
    pub fn message(&self) -> (res: String)
        ensures
            res@ == match self {
                ParseErrorReason::Unexpected => "unexpected input"@,
                ParseErrorReason::Number(e) => number_message(*e),
                ParseErrorReason::UnknownAttribute(k) => "unknown attribute: "@ + debug_text(k@),
                ParseErrorReason::UnknownSymbolKind(v) => "unknown symbol kind: "@ + debug_text(v@),
                ParseErrorReason::UnknownSymbolScope(v) => "unknown symbol scope: "@ + debug_text(v@),
                ParseErrorReason::UnknownDataKind(v) => "unknown obj data type: "@ + debug_text(v@),
            },
    {
        match self {
            ParseErrorReason::Unexpected => "unexpected input".to_owned(),
            ParseErrorReason::Number(e) => e.message(),
            ParseErrorReason::UnknownAttribute(k) => with_quoted(
                "unknown attribute: ",
                debug_quoted(k.as_str()).as_str(),
            ),
            ParseErrorReason::UnknownSymbolKind(v) => with_quoted(
                "unknown symbol kind: ",
                debug_quoted(v.as_str()).as_str(),
            ),
            ParseErrorReason::UnknownSymbolScope(v) => with_quoted(
                "unknown symbol scope: ",
                debug_quoted(v.as_str()).as_str(),
            ),
            ParseErrorReason::UnknownDataKind(v) => with_quoted(
                "unknown obj data type: ",
                debug_quoted(v.as_str()).as_str(),
            ),
        }
    }
}

/// Where a reader stopped, as a range of character positions, and why.
#[derive(Debug, Clone, PartialEq, Eq)]
pub struct ParseError {
    pub start: usize,
    pub end: usize,
    pub reason: ParseErrorReason,
}

/// The failure kept while reading: none yet, or the one reported so far.
pub type Failure = Option<ParseError>;

/// The failure that is kept when `e` is met while `before` is kept: `e` when
/// none is kept yet or when it starts further on than the one kept;
/// otherwise the one kept. Of two failures at the same position, the first
/// one met is kept.
pub open spec fn kept(before: Failure, e: ParseError) -> Failure {
    match before {
        None => Some(e),
        Some(b) => if e.start > b.start {
            Some(e)
        } else {
            Some(b)
        },
    }
}

/// The failure "unexpected input" at `pos` of `s`: it covers the character
/// there, or nothing at the end of the text.
pub open spec fn unexpected_at(s: Seq<char>, pos: int) -> ParseError {
    ParseError {
        start: pos as usize,
        end: (if pos < s.len() {
            pos + 1
        } else {
            pos
        }) as usize,
        reason: ParseErrorReason::Unexpected,
    }
}

/// `e` marks a range of character positions inside a text of `n` characters.
pub open spec fn within(e: ParseError, n: int) -> bool {
    e.start <= e.end <= n
}

/// The failure kept, if any, lies within a text of `n` characters.
pub open spec fn failure_within(f: Failure, n: int) -> bool {
    f matches Some(e) ==> within(e, n)
}

/// The failure kept after reading, `after`, got at least as far as the one
/// kept before, `before`, and lies within the text whenever that one did.
pub open spec fn kept_further(before: Failure, after: Failure, n: int) -> bool {
    &&& before matches Some(b) ==> after matches Some(a) && a.start >= b.start
    &&& failure_within(before, n) ==> failure_within(after, n)
}

/// Copies the characters of `s` into a vector.
pub fn chars_of(s: &str) -> (res: Vec<char>)
    ensures
        res@ == s@,
{
    broadcast use vstd::string::group_string_axioms;
    let mut v: Vec<char> = Vec::new();
    for c in it: s.chars()
        invariant
            v@ == it.seq().take(it.index() as int),
            it.seq() == s@,
    {
        v.push(c);
    }
    v
}

} // verus!
