//! Text: comparison, decimal numbers, trimming and splitting.

use vstd::prelude::*;
use vstd::string::*;
use vstd::utf8::*;

verus! {

/// UTF-8 encodes different texts differently.
pub proof fn lemma_utf8_injective(a: Seq<char>, b: Seq<char>)
    requires
        encode_utf8(a) == encode_utf8(b),
    ensures
        a == b,
{
    encode_utf8_decode_utf8(a);
    encode_utf8_decode_utf8(b);
}

/// Whether two texts are equal.
pub fn same_text(a: &str, b: &str) -> (r: bool)
    ensures
        r == (a@ == b@),
{
    let x = a.as_bytes();
    let y = b.as_bytes();
    if x.len() != y.len() {
        return false;
    }
    let mut i: usize = 0;
    while i < x.len()
        invariant
            i <= x.len(),
            x.len() == y.len(),
            x@ == encode_utf8(a@),
            y@ == encode_utf8(b@),
            forall|j: int| 0 <= j < i ==> x[j] == y[j],
        decreases x.len() - i,
    {
        if x[i] != y[i] {
            return false;
        }
        i += 1;
    }
    proof {
        assert(x@ =~= y@);
        lemma_utf8_injective(a@, b@);
    }
    true
}

/// Lexicographic order of byte strings.
pub open spec fn bytes_less(a: Seq<u8>, b: Seq<u8>) -> bool
    decreases a.len(),
{
    if b.len() == 0 {
        false
    } else if a.len() == 0 {
        true
    } else if a[0] != b[0] {
        a[0] < b[0]
    } else {
        bytes_less(a.drop_first(), b.drop_first())
    }
}

/// The order of texts: by their UTF-8 bytes, lexicographically.
pub open spec fn text_less(a: Seq<char>, b: Seq<char>) -> bool {
    bytes_less(encode_utf8(a), encode_utf8(b))
}

proof fn lemma_bytes_less_trans(a: Seq<u8>, b: Seq<u8>, c: Seq<u8>)
    requires
        bytes_less(a, b),
        bytes_less(b, c),
    ensures
        bytes_less(a, c),
    decreases a.len(),
{
    if a.len() > 0 && a[0] == b[0] && b[0] == c[0] {
        lemma_bytes_less_trans(a.drop_first(), b.drop_first(), c.drop_first());
    }
}

proof fn lemma_bytes_less_total(a: Seq<u8>, b: Seq<u8>)
    ensures
        a == b || bytes_less(a, b) || bytes_less(b, a),
        bytes_less(a, b) ==> a != b && !bytes_less(b, a),
    decreases a.len(),
{
    if a.len() > 0 && b.len() > 0 && a[0] == b[0] {
        lemma_bytes_less_total(a.drop_first(), b.drop_first());
        if a.drop_first() == b.drop_first() {
            assert(a =~= seq![a[0]] + a.drop_first());
            assert(b =~= seq![b[0]] + b.drop_first());
        }
    } else if a.len() == 0 && b.len() == 0 {
        assert(a =~= b);
    }
}

/// The order of texts is transitive.
pub proof fn lemma_text_less_trans(a: Seq<char>, b: Seq<char>, c: Seq<char>)
    requires
        text_less(a, b),
        text_less(b, c),
    ensures
        text_less(a, c),
{
    lemma_bytes_less_trans(encode_utf8(a), encode_utf8(b), encode_utf8(c));
}

/// Of two texts exactly one holds: they are equal, the first is less, or the second is.
pub proof fn lemma_text_less_total(a: Seq<char>, b: Seq<char>)
    ensures
        a == b || text_less(a, b) || text_less(b, a),
        text_less(a, b) ==> a != b && !text_less(b, a),
{
    lemma_bytes_less_total(encode_utf8(a), encode_utf8(b));
    if encode_utf8(a) == encode_utf8(b) {
        lemma_utf8_injective(a, b);
    }
}

/// Whether `a` comes before `b` in the order of texts.
pub fn text_before(a: &str, b: &str) -> (r: bool)
    ensures
        r == text_less(a@, b@),
{
    let x = a.as_bytes();
    let y = b.as_bytes();
    let mut i: usize = 0;
    proof {
        assert(x@.skip(0) =~= x@);
        assert(y@.skip(0) =~= y@);
    }
    loop
        invariant
            i <= x.len(),
            i <= y.len(),
            bytes_less(x@, y@) == bytes_less(x@.skip(i as int), y@.skip(i as int)),
            x@ == encode_utf8(a@),
            y@ == encode_utf8(b@),
        decreases x.len() - i,
    {
        if i >= y.len() {
            return false;
        }
        if i >= x.len() {
            return true;
        }
        if x[i] != y[i] {
            return x[i] < y[i];
        }
        proof {
            assert(x@.skip(i as int).drop_first() =~= x@.skip(i + 1));
            assert(y@.skip(i as int).drop_first() =~= y@.skip(i + 1));
        }
        i += 1;
    }
}

/// The character of a decimal digit.
pub open spec fn digit_char(d: nat) -> char {
    (d + 48) as char
}

/// The decimal digits of a natural number, without leading zeros.
pub open spec fn decimal_nat(n: nat) -> Seq<char>
    decreases n,
{
    if n < 10 {
        seq![digit_char(n)]
    } else {
        decimal_nat(n / 10).push(digit_char(n % 10))
    }
}

/// The decimal text of an integer.
pub open spec fn decimal(n: int) -> Seq<char> {
    if n < 0 {
        seq!['-'] + decimal_nat((-n) as nat)
    } else {
        decimal_nat(n as nat)
    }
}

fn digit_text(d: u64) -> (r: &'static str)
    requires
        d < 10,
    ensures
        r@ == seq![digit_char(d as nat)],
{
    proof {
        reveal_strlit("0");
        reveal_strlit("1");
        reveal_strlit("2");
        reveal_strlit("3");
        reveal_strlit("4");
        reveal_strlit("5");
        reveal_strlit("6");
        reveal_strlit("7");
        reveal_strlit("8");
        reveal_strlit("9");
    }
    if d == 0 {
        "0"
    } else if d == 1 {
        "1"
    } else if d == 2 {
        "2"
    } else if d == 3 {
        "3"
    } else if d == 4 {
        "4"
    } else if d == 5 {
        "5"
    } else if d == 6 {
        "6"
    } else if d == 7 {
        "7"
    } else if d == 8 {
        "8"
    } else {
        "9"
    }
}

fn append_decimal(out: &mut String, n: u64)
    ensures
        final(out)@ == old(out)@ + decimal_nat(n as nat),
    decreases n,
{
    if n >= 10 {
        append_decimal(out, n / 10);
    }
    out.append(digit_text(n % 10));
}

/// The decimal text of an unsigned number.
pub fn decimal_u64(n: u64) -> (r: String)
    ensures
        r@ == decimal(n as int),
{
    let mut out = String::new();
    append_decimal(&mut out, n);
    out
}

/// The decimal text of a signed number.
pub fn decimal_i64(n: i64) -> (r: String)
    ensures
        r@ == decimal(n as int),
{
    let mut out = String::new();
    if n < 0 {
        proof {
            reveal_strlit("-");
        }
        out.append("-");
        let magnitude: u64 = (-(n as i128)) as u64;
        append_decimal(&mut out, magnitude);
    } else {
        append_decimal(&mut out, n as u64);
    }
    out
}

/// Whether a character is an ASCII decimal digit.
pub open spec fn is_digit(c: char) -> bool {
    '0' <= c <= '9'
}

/// Whether a text holds ASCII decimal digits only; the empty text does.
pub open spec fn all_digits(s: Seq<char>) -> bool {
    forall|i: int| 0 <= i < s.len() ==> is_digit(#[trigger] s[i])
}

/// The number that a text of decimal digits writes; the empty text writes zero.
pub open spec fn digits_value(s: Seq<char>) -> nat
    decreases s.len(),
{
    if s.len() == 0 {
        0
    } else {
        digits_value(s.drop_last()) * 10 + (s.last() as nat - 48) as nat
    }
}

proof fn lemma_digits_value_prefix(s: Seq<char>, k: int)
    requires
        all_digits(s),
        0 <= k <= s.len(),
    ensures
        digits_value(s.take(k)) <= digits_value(s),
    decreases s.len(),
{
    if k == s.len() {
        assert(s.take(k) =~= s);
    } else {
        lemma_digits_value_prefix(s.drop_last(), k);
        assert(s.drop_last().take(k) =~= s.take(k));
    }
}

/// The decimal text of a number is made of digits and writes that number.
pub proof fn law_decimal_reads_back(n: nat)
    ensures
        decimal_nat(n).len() > 0,
        all_digits(decimal_nat(n)),
        digits_value(decimal_nat(n)) == n,
    decreases n,
{
    if n < 10 {
        assert(decimal_nat(n).drop_last() =~= Seq::<char>::empty());
        assert(digits_value(Seq::<char>::empty()) == 0);
    } else {
        law_decimal_reads_back(n / 10);
        assert(decimal_nat(n).drop_last() =~= decimal_nat(n / 10));
    }
}

/// Whether a text holds ASCII decimal digits only.
pub fn holds_digits(s: &str) -> (r: bool)
    ensures
        r == all_digits(s@),
{
    for c in it: s.chars()
        invariant
            it.seq() == s@,
            forall|j: int| 0 <= j < it.index() ==> is_digit(#[trigger] s@[j]),
    {
        if !('0' <= c && c <= '9') {
            assert(!is_digit(s@[it.index()]));
            return false;
        }
    }
    true
}

/// The number that a text of decimal digits writes, if it fits.
pub fn digits_u64(s: &str) -> (r: Option<u64>)
    requires
        all_digits(s@),
    ensures
        match r {
            Some(n) => n == digits_value(s@),
            None => digits_value(s@) > u64::MAX,
        },
{
    let mut value: u64 = 0;
    for c in it: s.chars()
        invariant
            it.seq() == s@,
            all_digits(s@),
            value == digits_value(s@.take(it.index())),
    {
        let ghost k = it.index();
        proof {
            assert(is_digit(s@[k]));
            assert(s@.take(k + 1).drop_last() =~= s@.take(k));
            lemma_digits_value_prefix(s@, k + 1);
        }
        let digit: u64 = (c as u32 - 48) as u64;
        let wide: u128 = value as u128 * 10 + digit as u128;
        if wide > u64::MAX as u128 {
            return None;
        }
        value = wide as u64;
    }
    proof {
        assert(s@.take(s@.len() as int) =~= s@);
    }
    Some(value)
}

/// The digits that a text begins with.
pub open spec fn leading_digits(s: Seq<char>) -> Seq<char>
    decreases s.len(),
{
    if s.len() > 0 && is_digit(s[0]) {
        seq![s[0]] + leading_digits(s.drop_first())
    } else {
        Seq::empty()
    }
}

proof fn lemma_leading_digits(s: Seq<char>, k: int)
    requires
        0 <= k <= s.len(),
        all_digits(s.take(k)),
    ensures
        k <= leading_digits(s).len() <= s.len(),
        all_digits(leading_digits(s)),
        leading_digits(s).take(k) == s.take(k),
        k < s.len() && !is_digit(s[k]) ==> leading_digits(s) == s.take(k),
        k == s.len() ==> leading_digits(s) == s,
    decreases s.len(),
{
    let digits = leading_digits(s);
    if s.len() > 0 && is_digit(s[0]) {
        let rest = s.drop_first();
        if k > 0 {
            assert(rest.take(k - 1) =~= s.take(k).drop_first());
            assert forall|i: int| 0 <= i < rest.take(k - 1).len() implies is_digit(
                #[trigger] rest.take(k - 1)[i],
            ) by {
                assert(s.take(k)[i + 1] == rest.take(k - 1)[i]);
            }
            lemma_leading_digits(rest, k - 1);
            assert(s.take(k) =~= seq![s[0]] + rest.take(k - 1));
            assert(digits.take(k) =~= seq![s[0]] + leading_digits(rest).take(k - 1));
            if k == s.len() {
                assert(s.take(k) =~= s);
            }
        } else {
            assert(rest.take(0) =~= Seq::empty());
            lemma_leading_digits(rest, 0);
            assert(digits.take(0) =~= s.take(0));
        }
    } else {
        if k > 0 {
            assert(is_digit(s.take(k)[0]));
        }
        assert(s.take(k) =~= Seq::empty());
        assert(digits.take(0) =~= s.take(0));
        if k == s.len() {
            assert(digits =~= s);
        }
    }
}

/// The unsigned 64-bit number that a text writes, if it does: digits, at least one, behind an
/// optional plus sign. Else the first thing that is wrong with it, from the left.
pub open spec fn unsigned_number(s: Seq<char>) -> Result<nat, Seq<char>> {
    let body = if s.len() > 0 && s[0] == '+' {
        s.skip(1)
    } else {
        s
    };
    let digits = leading_digits(body);
    if s.len() == 0 {
        Err("cannot parse integer from empty string"@)
    } else if digits_value(digits) > u64::MAX {
        Err("number too large to fit in target type"@)
    } else if body.len() == 0 || digits.len() < body.len() {
        Err("invalid digit found in string"@)
    } else {
        Ok(digits_value(digits))
    }
}

/// Reads an unsigned 64-bit number.
pub fn parse_u64(s: &str) -> (r: Result<u64, &'static str>)
    ensures
        match r {
            Ok(n) => unsigned_number(s@) == Ok::<nat, Seq<char>>(n as nat),
            Err(e) => unsigned_number(s@) == Err::<nat, Seq<char>>(e@),
        },
{
    let len = s.unicode_len();
    if len == 0 {
        return Err("cannot parse integer from empty string");
    }
    let body = if s.get_char(0) == '+' {
        s.substring_char(1, len)
    } else {
        s
    };
    proof {
        if s@[0] == '+' {
            assert(body@ =~= s@.skip(1));
        }
        assert(body@.take(0) =~= Seq::empty());
        lemma_leading_digits(body@, 0);
        assert(digits_value(Seq::<char>::empty()) == 0);
    }
    if body.is_empty() {
        proof {
            assert(leading_digits(body@) =~= Seq::empty());
        }
        return Err("invalid digit found in string");
    }
    let mut value: u64 = 0;
    for c in it: body.chars()
        invariant
            it.seq() == body@,
            body@.len() > 0,
            s@.len() > 0,
            body@ == (if s@[0] == '+' {
                s@.skip(1)
            } else {
                s@
            }),
            all_digits(body@.take(it.index())),
            value == digits_value(body@.take(it.index())),
    {
        let ghost k = it.index();
        let ghost digits = leading_digits(body@);
        proof {
            lemma_leading_digits(body@, k);
        }
        if !('0' <= c && c <= '9') {
            proof {
                assert(!is_digit(body@[k]));
            }
            return Err("invalid digit found in string");
        }
        proof {
            assert(body@.take(k + 1).drop_last() =~= body@.take(k));
            assert(body@.take(k + 1).last() == c);
            assert forall|i: int| 0 <= i < k + 1 implies is_digit(
                #[trigger] body@.take(k + 1)[i],
            ) by {
                if i < k {
                    assert(body@.take(k)[i] == body@.take(k + 1)[i]);
                }
            }
            lemma_leading_digits(body@, k + 1);
            lemma_digits_value_prefix(digits, k + 1);
        }
        let digit: u64 = (c as u32 - 48) as u64;
        let wide: u128 = value as u128 * 10 + digit as u128;
        if wide > u64::MAX as u128 {
            return Err("number too large to fit in target type");
        }
        value = wide as u64;
    }
    proof {
        assert(body@.take(body@.len() as int) =~= body@);
        lemma_leading_digits(body@, body@.len() as int);
    }
    Ok(value)
}

/// The part of a signed decimal text that holds its digits.
pub open spec fn unsigned_part(s: Seq<char>) -> Seq<char> {
    if s.len() > 0 && (s[0] == '-' || s[0] == '+') {
        s.skip(1)
    } else {
        s
    }
}

/// The integer that a text writes: digits, at least one, behind an optional sign.
pub open spec fn signed_value(s: Seq<char>) -> Option<int> {
    let digits = unsigned_part(s);
    if digits.len() == 0 || !all_digits(digits) {
        None
    } else if s[0] == '-' {
        Some(-(digits_value(digits) as int))
    } else {
        Some(digits_value(digits) as int)
    }
}

/// The decimal text of an integer writes that integer; none is cut or rounded.
pub proof fn law_decimal_keeps_integers(n: int)
    ensures
        signed_value(decimal(n)) == Some(n),
{
    let magnitude = if n < 0 {
        (-n) as nat
    } else {
        n as nat
    };
    let digits = decimal_nat(magnitude);
    law_decimal_reads_back(magnitude);
    assert(is_digit(digits[0]));
    if n < 0 {
        assert(unsigned_part(decimal(n)) =~= digits);
    } else {
        assert(unsigned_part(decimal(n)) =~= digits);
    }
}

/// Reads a 32-bit integer: digits behind an optional sign.
pub fn parse_i32(s: &str) -> (r: Option<i32>)
    ensures
        match r {
            Some(n) => signed_value(s@) == Some(n as int),
            None => match signed_value(s@) {
                Some(n) => n < i32::MIN || n > i32::MAX,
                None => true,
            },
        },
{
    let len = s.unicode_len();
    if len == 0 {
        return None;
    }
    let first = s.get_char(0);
    let negative = first == '-';
    let digits = if negative || first == '+' {
        s.substring_char(1, len)
    } else {
        s
    };
    proof {
        assert(digits@ =~= unsigned_part(s@));
    }
    if digits.is_empty() || !holds_digits(digits) {
        return None;
    }
    match digits_u64(digits) {
        Some(n) => {
            if negative {
                if n <= 2147483648 {
                    Some((-(n as i64)) as i32)
                } else {
                    None
                }
            } else if n <= 2147483647 {
                Some(n as i32)
            } else {
                None
            }
        },
        None => None,
    }
}

/// Whether a character is white space, by the Unicode property `White_Space`.
pub open spec fn is_white(c: char) -> bool {
    let n = c as u32;
    ||| 0x9 <= n <= 0xD
    ||| n == 0x20
    ||| n == 0x85
    ||| n == 0xA0
    ||| n == 0x1680
    ||| 0x2000 <= n <= 0x200A
    ||| n == 0x2028
    ||| n == 0x2029
    ||| n == 0x202F
    ||| n == 0x205F
    ||| n == 0x3000
}

/// Whether a character is white space.
pub fn is_white_space(c: char) -> (r: bool)
    ensures
        r == is_white(c),
{
    let n = c as u32;
    (0x9 <= n && n <= 0xD) || n == 0x20 || n == 0x85 || n == 0xA0 || n == 0x1680 || (0x2000 <= n
        && n <= 0x200A) || n == 0x2028 || n == 0x2029 || n == 0x202F || n == 0x205F || n == 0x3000
}

/// A text without its leading white space.
pub open spec fn trimmed_start(s: Seq<char>) -> Seq<char>
    decreases s.len(),
{
    if s.len() > 0 && is_white(s[0]) {
        trimmed_start(s.drop_first())
    } else {
        s
    }
}

/// A text without its trailing white space.
pub open spec fn trimmed_end(s: Seq<char>) -> Seq<char>
    decreases s.len(),
{
    if s.len() > 0 && is_white(s.last()) {
        trimmed_end(s.drop_last())
    } else {
        s
    }
}

/// A text without the white space around it.
pub open spec fn trimmed(s: Seq<char>) -> Seq<char> {
    trimmed_end(trimmed_start(s))
}

/// Whether a text holds white space only.
pub open spec fn all_white(s: Seq<char>) -> bool {
    forall|i: int| 0 <= i < s.len() ==> is_white(#[trigger] s[i])
}

proof fn lemma_trimmed_start_blank(s: Seq<char>)
    ensures
        trimmed_start(s).len() == 0 <==> all_white(s),
    decreases s.len(),
{
    if s.len() > 0 && is_white(s[0]) {
        lemma_trimmed_start_blank(s.drop_first());
        assert(forall|i: int| 0 < i < s.len() ==> s[i] == #[trigger] s.drop_first()[i - 1]);
        if all_white(s.drop_first()) {
            assert forall|i: int| 0 <= i < s.len() implies is_white(#[trigger] s[i]) by {
                if i > 0 {
                    assert(is_white(s.drop_first()[i - 1]));
                }
            }
        }
    }
}

proof fn lemma_trimmed_end_nonempty(s: Seq<char>)
    requires
        s.len() > 0,
        !is_white(s[0]),
    ensures
        trimmed_end(s).len() > 0,
    decreases s.len(),
{
    if is_white(s.last()) {
        lemma_trimmed_end_nonempty(s.drop_last());
    }
}

proof fn lemma_trimmed_start_head(s: Seq<char>)
    ensures
        trimmed_start(s).len() > 0 ==> !is_white(trimmed_start(s)[0]),
    decreases s.len(),
{
    if s.len() > 0 && is_white(s[0]) {
        lemma_trimmed_start_head(s.drop_first());
    }
}

/// Nothing is left of a trimmed text if and only if it holds white space only.
pub proof fn lemma_trimmed_blank(s: Seq<char>)
    ensures
        trimmed(s).len() == 0 <==> all_white(s),
{
    lemma_trimmed_start_blank(s);
    lemma_trimmed_start_head(s);
    if trimmed_start(s).len() > 0 {
        lemma_trimmed_end_nonempty(trimmed_start(s));
    }
}

/// Whether nothing but white space stands in a text.
pub fn is_blank(s: &str) -> (r: bool)
    ensures
        r == (trimmed(s@).len() == 0),
{
    proof {
        lemma_trimmed_blank(s@);
    }
    for c in it: s.chars()
        invariant
            it.seq() == s@,
            forall|j: int| 0 <= j < it.index() ==> is_white(#[trigger] s@[j]),
    {
        if !is_white_space(c) {
            proof {
                assert(!is_white(s@[it.index()]));
                lemma_trimmed_blank(s@);
            }
            return false;
        }
    }
    proof {
        lemma_trimmed_blank(s@);
    }
    true
}

/// The text without the white space around it.
pub fn trim(s: &str) -> (r: &str)
    ensures
        r@ == trimmed(s@),
{
    let len = s.unicode_len();
    let mut from: usize = 0;
    proof {
        assert(s@.skip(0) =~= s@);
    }
    while from < len && is_white_space(s.get_char(from))
        invariant
            len == s@.len(),
            from <= len,
            trimmed_start(s@.skip(from as int)) == trimmed_start(s@),
        decreases len - from,
    {
        proof {
            assert(s@.skip(from as int).drop_first() =~= s@.skip(from + 1));
        }
        from += 1;
    }
    let ghost start = trimmed_start(s@);
    proof {
        assert(start == s@.skip(from as int));
        assert(s@.subrange(from as int, len as int) =~= start);
    }
    let mut to: usize = len;
    while to > from && is_white_space(s.get_char(to - 1))
        invariant
            len == s@.len(),
            from <= to <= len,
            trimmed_end(s@.subrange(from as int, to as int)) == trimmed_end(start),
        decreases to,
    {
        proof {
            assert(s@.subrange(from as int, to as int).drop_last() =~= s@.subrange(
                from as int,
                to - 1,
            ));
        }
        to -= 1;
    }
    s.substring_char(from, to)
}

/// The place of the first occurrence of a character; behind the end if there is none.
pub open spec fn first_place(s: Seq<char>, wanted: char) -> int
    decreases s.len(),
{
    if s.len() == 0 {
        0
    } else if s[0] == wanted {
        0
    } else {
        1 + first_place(s.drop_first(), wanted)
    }
}

/// The place of the first occurrence of a character.
pub fn find_char(s: &str, wanted: char) -> (r: Option<usize>)
    ensures
        match r {
            Some(i) => i == first_place(s@, wanted) && i < s@.len() && s@.contains(wanted),
            None => first_place(s@, wanted) == s@.len() && !s@.contains(wanted),
        },
{
    let len = s.unicode_len();
    let mut i: usize = 0;
    proof {
        assert(s@.skip(0) =~= s@);
    }
    for c in it: s.chars()
        invariant
            it.seq() == s@,
            len == s@.len(),
            i == it.index(),
            forall|j: int| 0 <= j < it.index() ==> #[trigger] s@[j] != wanted,
            first_place(s@, wanted) == i + first_place(s@.skip(i as int), wanted),
    {
        proof {
            assert(s@.skip(i as int)[0] == c);
            assert(s@.skip(i as int).drop_first() =~= s@.skip(i + 1));
        }
        if c == wanted {
            assert(s@[i as int] == wanted);
            return Some(i);
        }
        i += 1;
    }
    None
}

/// The texts before and behind the first occurrence of a character, if there is one.
pub open spec fn split_first(s: Seq<char>, at: char) -> Option<(Seq<char>, Seq<char>)> {
    let i = first_place(s, at);
    if i < s.len() {
        Some((s.take(i), s.skip(i + 1)))
    } else {
        None
    }
}

/// The texts before and behind the first occurrence of a character, if there is one.
pub fn split_once(s: &str, at: char) -> (r: Option<(&str, &str)>)
    ensures
        match r {
            Some((head, tail)) => split_first(s@, at) == Some((head@, tail@)),
            None => split_first(s@, at) is None,
        },
{
    let len = s.unicode_len();
    match find_char(s, at) {
        Some(i) => {
            let head = s.substring_char(0, i);
            let tail = s.substring_char(i + 1, len);
            proof {
                assert(head@ =~= s@.take(i as int));
                assert(tail@ =~= s@.skip(i + 1));
            }
            Some((head, tail))
        },
        None => None,
    }
}

/// Whether a text begins with a prefix.
pub open spec fn begins_with(s: Seq<char>, prefix: Seq<char>) -> bool {
    s.len() >= prefix.len() && s.take(prefix.len() as int) == prefix
}

/// Whether a text ends with a suffix.
pub open spec fn ends_with(s: Seq<char>, suffix: Seq<char>) -> bool {
    s.len() >= suffix.len() && s.skip(s.len() - suffix.len()) == suffix
}

/// Whether `s` begins with `prefix`.
pub fn has_prefix(s: &str, prefix: &str) -> (r: bool)
    ensures
        r == begins_with(s@, prefix@),
{
    let n = prefix.unicode_len();
    if s.unicode_len() < n {
        return false;
    }
    let head = s.substring_char(0, n);
    proof {
        assert(head@ =~= s@.take(n as int));
    }
    same_text(head, prefix)
}

/// Whether `s` ends with `suffix`.
pub fn has_suffix(s: &str, suffix: &str) -> (r: bool)
    ensures
        r == ends_with(s@, suffix@),
{
    let n = suffix.unicode_len();
    let len = s.unicode_len();
    if len < n {
        return false;
    }
    let tail = s.substring_char(len - n, len);
    proof {
        assert(tail@ =~= s@.skip(len - n));
    }
    same_text(tail, suffix)
}

/// The ASCII lower case form of a character; other characters are unchanged.
pub open spec fn ascii_lower(c: char) -> char {
    if 'A' <= c <= 'Z' {
        (c as u32 + 32) as char
    } else {
        c
    }
}

/// A text with each ASCII letter in lower case.
pub open spec fn lowercase(s: Seq<char>) -> Seq<char> {
    s.map_values(|c: char| ascii_lower(c))
}

/// `str::to_ascii_lowercase` maps the letters `A` to `Z` to `a` to `z`, one for one, and
/// leaves every other character as it is.
pub assume_specification[ str::to_ascii_lowercase ](s: &str) -> (r: String)
    ensures
        r@ == lowercase(s@),
;

/// What [`String::from_utf8_lossy`] makes of some bytes.
pub uninterp spec fn utf8_replaced(bytes: Seq<u8>) -> Seq<char>;

/// The lossy text of some bytes: well-formed UTF-8 is decoded as it stands, and in other bytes
/// each ill-formed sequence becomes a replacement character.
pub open spec fn lossy(bytes: Seq<u8>) -> Seq<char> {
    if valid_utf8(bytes) {
        decode_utf8(bytes)
    } else {
        utf8_replaced(bytes)
    }
}

/// Decodes bytes with [`String::from_utf8_lossy`], which leaves well-formed UTF-8 as it stands.
/// Which replacement characters it puts into other bytes is named, not stated.
#[verifier::external_body]
pub(crate) fn lossy_text(bytes: &[u8]) -> (r: String)
    ensures
        r@ == (if valid_utf8(bytes@) {
            decode_utf8(bytes@)
        } else {
            utf8_replaced(bytes@)
        }),
{
    String::from_utf8_lossy(bytes).into_owned()
}

/// The lossy text of the UTF-8 bytes of a text is that text.
pub proof fn law_lossy_reads_back(s: Seq<char>)
    ensures
        lossy(encode_utf8(s)) == s,
{
    encode_utf8_valid_utf8(s);
    encode_utf8_decode_utf8(s);
}

/// The decimal text of an unsigned 64-bit number is read as that number.
pub proof fn law_decimal_is_a_number(n: u64)
    ensures
        unsigned_number(decimal(n as int)) == Ok::<nat, Seq<char>>(n as nat),
{
    let s = decimal(n as int);
    law_decimal_reads_back(n as nat);
    assert(is_digit(s[0]));
    assert(s.take(s.len() as int) =~= s);
    lemma_leading_digits(s, s.len() as int);
}

/// Digits write a number by their places: one more digit behind others makes ten times their
/// number and the digit.
pub proof fn law_digits_count_by_place(digits: Seq<char>, digit: char)
    requires
        '0' <= digit <= '9',
    ensures
        digits_value(Seq::<char>::empty()) == 0,
        digits_value(digits.push(digit)) == 10 * digits_value(digits) + (digit as nat - '0' as nat),
{
    assert(digits.push(digit).drop_last() =~= digits);
}

/// A text is split at the first occurrence of a character, and not at all where it has none.
pub proof fn law_split_at_the_first(head: Seq<char>, at: char, tail: Seq<char>)
    requires
        !head.contains(at),
    ensures
        split_first(head + seq![at] + tail, at) == Some((head, tail)),
        split_first(head, at) is None,
{
    lemma_first_place(head, at, tail);
    lemma_absent_place(head, at);
    let s = head + seq![at] + tail;
    assert(s.take(head.len() as int) =~= head);
    assert(s.skip(head.len() as int + 1) =~= tail);
}

proof fn lemma_first_place(head: Seq<char>, at: char, tail: Seq<char>)
    requires
        !head.contains(at),
    ensures
        first_place(head + seq![at] + tail, at) == head.len(),
    decreases head.len(),
{
    let s = head + seq![at] + tail;
    if head.len() > 0 {
        let rest = head.drop_first();
        assert(head.contains(head[0]));
        assert forall|i: int| 0 <= i < rest.len() implies rest[i] != at by {
            assert(head.contains(head[i + 1]));
        }
        lemma_first_place(rest, at, tail);
        assert(s.drop_first() =~= rest + seq![at] + tail);
    }
}

proof fn lemma_absent_place(s: Seq<char>, at: char)
    requires
        !s.contains(at),
    ensures
        first_place(s, at) == s.len(),
    decreases s.len(),
{
    if s.len() > 0 {
        let rest = s.drop_first();
        assert(s.contains(s[0]));
        assert forall|i: int| 0 <= i < rest.len() implies rest[i] != at by {
            assert(s.contains(s[i + 1]));
        }
        lemma_absent_place(rest, at);
    }
}

/// A text begins with a prefix just where it is that prefix with something behind it, and ends
/// with a suffix just where it is that suffix with something before it.
pub proof fn law_prefix_and_suffix(s: Seq<char>, part: Seq<char>)
    ensures
        begins_with(part + s, part),
        begins_with(s, part) ==> s == part + s.skip(part.len() as int),
        ends_with(s + part, part),
        ends_with(s, part) ==> s == s.take(s.len() - part.len()) + part,
{
    assert((part + s).take(part.len() as int) =~= part);
    assert((s + part).skip((s + part).len() - part.len()) =~= part);
    if begins_with(s, part) {
        assert(s =~= part + s.skip(part.len() as int));
    }
    if ends_with(s, part) {
        assert(s =~= s.take(s.len() - part.len()) + part);
    }
}

/// Trimming takes white space from both ends and nothing else: what stays is a stretch of the
/// text that begins and ends with other characters, and all around it is white space.
pub proof fn law_trimming_takes_white_space_only(s: Seq<char>) -> (r: (int, int))
    ensures
        0 <= r.0 <= r.1 <= s.len(),
        trimmed(s) == s.subrange(r.0, r.1),
        forall|i: int| 0 <= i < r.0 ==> is_white(#[trigger] s[i]),
        forall|i: int| r.1 <= i < s.len() ==> is_white(#[trigger] s[i]),
        r.0 < r.1 ==> !is_white(s[r.0]) && !is_white(s[r.1 - 1]),
{
    let from = lemma_trimmed_start_place(s);
    let rest = trimmed_start(s);
    let kept = lemma_trimmed_end_place(rest);
    assert(trimmed(s) =~= s.subrange(from, from + kept));
    assert forall|i: int| from + kept <= i < s.len() implies is_white(#[trigger] s[i]) by {
        assert(rest[i - from] == s[i]);
    }
    if kept > 0 {
        assert(rest[0] == s[from]);
        assert(rest[kept - 1] == s[from + kept - 1]);
    }
    (from, from + kept)
}

proof fn lemma_trimmed_start_place(s: Seq<char>) -> (from: int)
    ensures
        0 <= from <= s.len(),
        trimmed_start(s) == s.skip(from),
        forall|i: int| 0 <= i < from ==> is_white(#[trigger] s[i]),
        from < s.len() ==> !is_white(s[from]),
    decreases s.len(),
{
    if s.len() > 0 && is_white(s[0]) {
        let rest = s.drop_first();
        let from = lemma_trimmed_start_place(rest);
        assert(rest.skip(from) =~= s.skip(from + 1));
        assert forall|i: int| 0 <= i < from + 1 implies is_white(#[trigger] s[i]) by {
            if i > 0 {
                assert(rest[i - 1] == s[i]);
            }
        }
        from + 1
    } else {
        assert(s.skip(0) =~= s);
        0
    }
}

proof fn lemma_trimmed_end_place(s: Seq<char>) -> (to: int)
    ensures
        0 <= to <= s.len(),
        trimmed_end(s) == s.take(to),
        forall|i: int| to <= i < s.len() ==> is_white(#[trigger] s[i]),
        to > 0 ==> !is_white(s[to - 1]),
    decreases s.len(),
{
    if s.len() > 0 && is_white(s.last()) {
        let rest = s.drop_last();
        let to = lemma_trimmed_end_place(rest);
        assert(rest.take(to) =~= s.take(to));
        assert forall|i: int| to <= i < s.len() implies is_white(#[trigger] s[i]) by {
            if i < rest.len() {
                assert(rest[i] == s[i]);
            }
        }
        to
    } else {
        assert(s.take(s.len() as int) =~= s);
        s.len() as int
    }
}

/// Lower case changes the letters `A` to `Z` only, each to the letter 32 places on, and keeps the
/// length of a text.
pub proof fn law_lowercase_by_character(s: Seq<char>, i: int)
    requires
        0 <= i < s.len(),
    ensures
        lowercase(s).len() == s.len(),
        'A' <= s[i] <= 'Z' ==> lowercase(s)[i] as u32 == s[i] as u32 + 32,
        !('A' <= s[i] <= 'Z') ==> lowercase(s)[i] == s[i],
{
}

/// Byte strings are ordered by the first byte in which they differ; one that another goes on from
/// comes before it.
pub proof fn law_bytes_order(
    common: Seq<u8>,
    a: u8,
    b: u8,
    after_a: Seq<u8>,
    after_b: Seq<u8>,
)
    ensures
        a < b ==> bytes_less(common + seq![a] + after_a, common + seq![b] + after_b),
        a < b ==> !bytes_less(common + seq![b] + after_b, common + seq![a] + after_a),
        bytes_less(common, common + seq![a] + after_a),
        !bytes_less(common + seq![a] + after_a, common),
        !bytes_less(common, common),
    decreases common.len(),
{
    let x = common + seq![a] + after_a;
    let y = common + seq![b] + after_b;
    if common.len() > 0 {
        let rest = common.drop_first();
        law_bytes_order(rest, a, b, after_a, after_b);
        assert(x.drop_first() =~= rest + seq![a] + after_a);
        assert(y.drop_first() =~= rest + seq![b] + after_b);
    }
}

/// Bytes that are UTF-8 are shown as the text that they encode, and no character is replaced;
/// only other bytes are shown with replacements.
pub proof fn law_only_bad_bytes_are_replaced(bytes: Seq<u8>)
    ensures
        valid_utf8(bytes) ==> encode_utf8(lossy(bytes)) == bytes,
        !valid_utf8(bytes) ==> lossy(bytes) == utf8_replaced(bytes),
{
    if valid_utf8(bytes) {
        decode_utf8_encode_utf8(bytes);
    }
}

} // verus!
