//! Reading lines, words and numbers out of text.
use vstd::prelude::*;
use vstd::string::*;

use crate::text::{chars_of, decimal, digit, hex_digit, hexadecimal, join, split, split_text, text_between, texts};

verus! {

// Lines.

/// A line without the carriage return at its end.
pub open spec fn without_return(line: Seq<char>) -> Seq<char> {
    if line.len() > 0 && line.last() == '\r' {
        line.drop_last()
    } else {
        line
    }
}

/// The lines of a text. A line ends with a line feed, or a carriage return and
/// a line feed; the last line may lack its end.
pub open spec fn lines(s: Seq<char>) -> Seq<Seq<char>> {
    let parts = split(s, '\n');
    let ended = parts.drop_last().map_values(|p: Seq<char>| without_return(p));
    if parts.last().len() == 0 {
        ended
    } else {
        ended.push(parts.last())
    }
}

fn strip_return(line: &str) -> (r: String)
    ensures
        r@ == without_return(line@),
{
    let v = chars_of(line);
    let n: usize = v.len();
    if n > 0 && v[n - 1] == '\r' {
        let r = text_between(&v, 0, n - 1);
        assert(r@ =~= line@.drop_last());
        r
    } else {
        line.to_owned()
    }
}

/// The lines of a text.
pub fn lines_of(s: &str) -> (r: Vec<String>)
    ensures
        texts(r@) == lines(s@),
{
    let parts = split_text(s, '\n');
    let ghost views = split(s@, '\n');
    let ghost ended = views.drop_last().map_values(|p: Seq<char>| without_return(p));
    let n: usize = parts.len() - 1;
    assert(texts(parts@).len() == parts@.len());
    let mut out: Vec<String> = Vec::new();
    let mut i: usize = 0;
    while i < n
        invariant
            i <= n,
            n == parts@.len() - 1,
            views == texts(parts@),
            ended == views.drop_last().map_values(|p: Seq<char>| without_return(p)),
            texts(out@) =~= ended.take(i as int),
        decreases n - i,
    {
        let ghost before = texts(out@);
        let line = strip_return(parts[i].as_str());
        let ghost added = line@;
        out.push(line);
        assert(texts(out@) =~= before.push(added));
        i += 1;
    }
    assert(texts(out@) =~= ended);
    assert(views.last() == parts@[n as int]@);
    if !parts[n].as_str().is_empty() {
        out.push(parts[n].clone());
        assert(texts(out@) =~= ended.push(views.last()));
    }
    out
}

/// The first line of a text, empty if there is none.
pub fn first_line(s: &str) -> (r: String)
    ensures
        r@ == (if lines(s@).len() == 0 {
            Seq::<char>::empty()
        } else {
            lines(s@)[0]
        }),
{
    let all = lines_of(s);
    assert(texts(all@).len() == all@.len());
    if all.len() == 0 {
        String::new()
    } else {
        assert(texts(all@)[0] == all@[0]@);
        all[0].clone()
    }
}

// Whitespace.

/// Whether a character has the Unicode property White_Space.
pub open spec fn is_white(c: char) -> bool {
    ||| '\u{9}' <= c <= '\u{d}'
    ||| c == ' '
    ||| c == '\u{85}'
    ||| c == '\u{a0}'
    ||| c == '\u{1680}'
    ||| '\u{2000}' <= c <= '\u{200a}'
    ||| c == '\u{2028}'
    ||| c == '\u{2029}'
    ||| c == '\u{202f}'
    ||| c == '\u{205f}'
    ||| c == '\u{3000}'
}

/// Whether a character has the Unicode property White_Space.
pub fn white(c: char) -> (r: bool)
    ensures
        r == is_white(c),
{
    ('\u{9}' <= c && c <= '\u{d}') || c == ' ' || c == '\u{85}' || c == '\u{a0}' || c == '\u{1680}'
        || ('\u{2000}' <= c && c <= '\u{200a}') || c == '\u{2028}' || c == '\u{2029}' || c
        == '\u{202f}' || c == '\u{205f}' || c == '\u{3000}'
}

/// A text without the whitespace at its end.
pub open spec fn trimmed_end(s: Seq<char>) -> Seq<char>
    decreases s.len(),
{
    if s.len() > 0 && is_white(s.last()) {
        trimmed_end(s.drop_last())
    } else {
        s
    }
}

/// A text without the whitespace at its start.
pub open spec fn trimmed_start(s: Seq<char>) -> Seq<char>
    decreases s.len(),
{
    if s.len() > 0 && is_white(s[0]) {
        trimmed_start(s.drop_first())
    } else {
        s
    }
}

/// A text without the whitespace at either end.
pub open spec fn trimmed(s: Seq<char>) -> Seq<char> {
    trimmed_start(trimmed_end(s))
}

/// A text without the whitespace at either end.
pub fn trim_text(s: &str) -> (r: String)
    ensures
        r@ == trimmed(s@),
{
    let v = chars_of(s);
    let mut to: usize = v.len();
    assert(v@.take(to as int) =~= v@);
    while to > 0 && white(v[to - 1])
        invariant
            to <= v@.len(),
            trimmed_end(v@.take(to as int)) == trimmed_end(v@),
        decreases to,
    {
        assert(v@.take(to as int).drop_last() =~= v@.take(to - 1));
        to -= 1;
    }
    let ghost kept = v@.take(to as int);
    assert(kept == trimmed_end(v@));
    let mut from: usize = 0;
    assert(kept.skip(0) =~= kept);
    while from < to && white(v[from])
        invariant
            from <= to <= v@.len(),
            kept == v@.take(to as int),
            trimmed_start(kept.skip(from as int)) == trimmed_start(kept),
        decreases to - from,
    {
        assert(kept.skip(from as int).drop_first() =~= kept.skip(from + 1));
        assert(kept.skip(from as int)[0] == v@[from as int]);
        from += 1;
    }
    proof {
        let rest = kept.skip(from as int);
        if from < to {
            assert(rest[0] == v@[from as int]);
        }
        assert(rest =~= v@.subrange(from as int, to as int));
    }
    text_between(&v, from, to)
}

/// The words of a text: what stands between runs of whitespace.
pub open spec fn words(s: Seq<char>) -> Seq<Seq<char>>
    decreases s.len(),
{
    if s.len() == 0 {
        Seq::empty()
    } else {
        let front = words(s.drop_last());
        if is_white(s.last()) {
            front
        } else if s.len() == 1 || is_white(s[s.len() - 2]) {
            front.push(seq![s.last()])
        } else {
            front.update(front.len() - 1, front.last().push(s.last()))
        }
    }
}

/// The words of a text.
pub fn words_of(s: &str) -> (r: Vec<String>)
    ensures
        texts(r@) == words(s@),
{
    let v = chars_of(s);
    let mut done: Vec<String> = Vec::new();
    let mut current = String::new();
    let mut inside: bool = false;
    let mut i: usize = 0;
    assert(texts(done@) =~= words(v@.take(0)));
    while i < v.len()
        invariant
            i <= v@.len(),
            inside == (i > 0 && !is_white(v@[i - 1])),
            !inside ==> current@.len() == 0,
            (if inside {
                texts(done@).push(current@)
            } else {
                texts(done@)
            }) == words(v@.take(i as int)),
        decreases v@.len() - i,
    {
        let c = v[i];
        let ghost next = v@.take(i + 1);
        let ghost done_before = texts(done@);
        let ghost current_before = current@;
        proof {
            assert(next.drop_last() =~= v@.take(i as int));
            assert(next.last() == c);
            if i > 0 {
                assert(next[next.len() - 2] == v@[i - 1]);
            }
        }
        if white(c) {
            if inside {
                let mut word = String::new();
                std::mem::swap(&mut word, &mut current);
                done.push(word);
                assert(texts(done@) =~= done_before.push(current_before));
            }
            inside = false;
        } else {
            current.push(c);
            if inside {
                assert(done_before.push(current@) =~= done_before.push(current_before).update(
                    done_before.len() as int,
                    current_before.push(c),
                ));
            } else {
                assert(current@ =~= seq![c]);
            }
            inside = true;
        }
        i += 1;
    }
    assert(v@.take(v@.len() as int) =~= v@);
    if inside {
        let ghost before = texts(done@);
        let ghost last = current@;
        done.push(current);
        assert(texts(done@) =~= before.push(last));
    }
    done
}

// Fields.

/// The text before and after the first `sep`, if there is one.
pub open spec fn split_first(s: Seq<char>, sep: char) -> Option<(Seq<char>, Seq<char>)> {
    if s.contains(sep) {
        let at = s.index_of_first(sep)->0;
        Some((s.take(at), s.skip(at + 1)))
    } else {
        None
    }
}

/// The text before and after the first `sep`, if there is one.
pub fn split_at_first(s: &str, sep: char) -> (r: Option<(String, String)>)
    ensures
        match r {
            Some((a, b)) => split_first(s@, sep) == Some((a@, b@)),
            None => split_first(s@, sep) is None,
        },
{
    let v = chars_of(s);
    let mut i: usize = 0;
    while i < v.len()
        invariant
            i <= v@.len(),
            v@ == s@,
            forall|j: int| 0 <= j < i ==> v@[j] != sep,
        decreases v@.len() - i,
    {
        if v[i] == sep {
            let a = text_between(&v, 0, i);
            let b = text_between(&v, i + 1, v.len());
            proof {
                v@.index_of_first_ensures(sep);
                assert(v@.contains(sep)) by {
                    assert(v@[i as int] == sep);
                }
                assert(v@.index_of_first(sep)->0 == i);
                assert(a@ =~= s@.take(i as int));
                assert(b@ =~= s@.skip(i + 1));
            }
            return Some((a, b));
        }
        i += 1;
    }
    None
}

// Numbers.

/// Why a text is not a number.
#[derive(Debug, Clone, Copy, PartialEq, Eq, Structural)]
pub enum NumberError {
    /// The text is empty.
    Empty,
    /// Some character is not a digit.
    InvalidDigit,
    /// The number is too large.
    TooLarge,
}

impl NumberError {
    /// The text of the error.
    pub open spec fn text(self) -> Seq<char> {
        match self {
            NumberError::Empty => "cannot parse integer from empty string"@,
            NumberError::InvalidDigit => "invalid digit found in string"@,
            NumberError::TooLarge => "number too large to fit in target type"@,
        }
    }

    /// Describes the error.
    pub fn message(&self) -> (r: &'static str)
        ensures
            r@ == self.text(),
    {
        match self {
            NumberError::Empty => "cannot parse integer from empty string",
            NumberError::InvalidDigit => "invalid digit found in string",
            NumberError::TooLarge => "number too large to fit in target type",
        }
    }
}

/// The value of a digit in base ten or sixteen; letters count in either case.
pub open spec fn digit_value(c: char, radix: nat) -> Option<nat> {
    if '0' <= c <= '9' {
        Some((c as u32 - '0' as u32) as nat)
    } else if radix == 16 && 'a' <= c <= 'f' {
        Some((c as u32 - 'a' as u32 + 10) as nat)
    } else if radix == 16 && 'A' <= c <= 'F' {
        Some((c as u32 - 'A' as u32 + 10) as nat)
    } else {
        None
    }
}

/// The number that digits stand for, read from the left; the first character
/// that is no digit or makes the number too large decides.
pub open spec fn digits_value(s: Seq<char>, radix: nat, max: nat) -> Result<nat, NumberError>
    decreases s.len(),
{
    if s.len() == 0 {
        Ok(0)
    } else {
        match digits_value(s.drop_last(), radix, max) {
            Err(e) => Err(e),
            Ok(v) => match digit_value(s.last(), radix) {
                None => Err(NumberError::InvalidDigit),
                Some(d) => if v * radix + d > max {
                    Err(NumberError::TooLarge)
                } else {
                    Ok(v * radix + d)
                },
            },
        }
    }
}

/// The unsigned number that a text stands for. A plus sign may stand before
/// the digits.
pub open spec fn number(s: Seq<char>, radix: nat, max: nat) -> Result<nat, NumberError> {
    if s.len() == 0 {
        Err(NumberError::Empty)
    } else if s[0] == '+' && s.len() > 1 {
        digits_value(s.skip(1), radix, max)
    } else {
        digits_value(s, radix, max)
    }
}

fn digit_of(c: char, hex: bool) -> (r: Option<u64>)
    ensures
        match r {
            Some(d) => digit_value(c, if hex { 16nat } else { 10nat }) == Some(d as nat) && d < 16,
            None => digit_value(c, if hex { 16nat } else { 10nat }) is None,
        },
{
    let n: u32 = c as u32;
    if '0' <= c && c <= '9' {
        Some((n - 48) as u64)
    } else if hex && 'a' <= c && c <= 'f' {
        Some((n - 97 + 10) as u64)
    } else if hex && 'A' <= c && c <= 'F' {
        Some((n - 65 + 10) as u64)
    } else {
        None
    }
}

fn parse_number(s: &str, hex: bool, max: u64) -> (r: Result<u64, NumberError>)
    ensures
        match r {
            Ok(v) => number(s@, if hex { 16nat } else { 10nat }, max as nat) == Ok::<
                nat,
                NumberError,
            >(v as nat) && v <= max,
            Err(e) => number(s@, if hex { 16nat } else { 10nat }, max as nat) == Err::<
                nat,
                NumberError,
            >(e),
        },
{
    let v = chars_of(s);
    let n: usize = v.len();
    if n == 0 {
        return Err(NumberError::Empty);
    }
    let from: usize = if v[0] == '+' && n > 1 {
        1
    } else {
        0
    };
    let radix: u64 = if hex {
        16
    } else {
        10
    };
    let ghost digits = s@.skip(from as int);
    let ghost base = radix as nat;
    proof {
        if from == 0 {
            assert(digits =~= s@);
        }
    }
    let mut value: u64 = 0;
    let mut i: usize = from;
    assert(digits.take(0) =~= Seq::<char>::empty());
    while i < n
        invariant
            from <= i <= n,
            n == v@.len(),
            v@ == s@,
            digits == s@.skip(from as int),
            radix == 10 || radix == 16,
            base == radix,
            hex == (radix == 16),
            value <= max,
            digits_value(digits.take(i - from), base, max as nat) == Ok::<nat, NumberError>(
                value as nat,
            ),
            number(s@, base, max as nat) == digits_value(digits, base, max as nat),
        decreases n - i,
    {
        let ghost k = i - from;
        proof {
            assert(digits.take(k + 1).drop_last() =~= digits.take(k));
            assert(digits.take(k + 1).last() == v@[i as int]);
        }
        match digit_of(v[i], hex) {
            None => {
                proof {
                    lemma_error_stays(digits, base, max as nat, k + 1);
                }
                return Err(NumberError::InvalidDigit);
            },
            Some(d) => {
                let wide: u128 = value as u128 * radix as u128 + d as u128;
                if wide > max as u128 {
                    proof {
                        lemma_error_stays(digits, base, max as nat, k + 1);
                    }
                    return Err(NumberError::TooLarge);
                }
                value = wide as u64;
            },
        }
        i += 1;
    }
    assert(digits.take(digits.len() as int) =~= digits);
    Ok(value)
}

proof fn lemma_error_stays(s: Seq<char>, radix: nat, max: nat, n: int)
    requires
        0 <= n <= s.len(),
        digits_value(s.take(n), radix, max) is Err,
    ensures
        digits_value(s, radix, max) == digits_value(s.take(n), radix, max),
    decreases s.len() - n,
{
    if n < s.len() {
        assert(s.take(n + 1).drop_last() =~= s.take(n));
        lemma_error_stays(s, radix, max, n + 1);
    } else {
        assert(s.take(n) =~= s);
    }
}

/// A decimal number that fits in 32 bits.
pub fn parse_u32(s: &str) -> (r: Result<u32, NumberError>)
    ensures
        match r {
            Ok(v) => number(s@, 10, u32::MAX as nat) == Ok::<nat, NumberError>(v as nat),
            Err(e) => number(s@, 10, u32::MAX as nat) == Err::<nat, NumberError>(e),
        },
{
    match parse_number(s, false, u32::MAX as u64) {
        Ok(v) => Ok(v as u32),
        Err(e) => Err(e),
    }
}

/// A decimal number that fits in 64 bits.
pub fn parse_u64(s: &str) -> (r: Result<u64, NumberError>)
    ensures
        match r {
            Ok(v) => number(s@, 10, u64::MAX as nat) == Ok::<nat, NumberError>(v as nat),
            Err(e) => number(s@, 10, u64::MAX as nat) == Err::<nat, NumberError>(e),
        },
{
    parse_number(s, false, u64::MAX)
}

/// A hexadecimal number that fits in 64 bits.
pub fn parse_hex(s: &str) -> (r: Result<u64, NumberError>)
    ensures
        match r {
            Ok(v) => number(s@, 16, u64::MAX as nat) == Ok::<nat, NumberError>(v as nat),
            Err(e) => number(s@, 16, u64::MAX as nat) == Err::<nat, NumberError>(e),
        },
{
    parse_number(s, true, u64::MAX)
}

// Laws.

proof fn lemma_decimal_digits(n: nat, max: nat)
    requires
        n <= max,
    ensures
        digits_value(decimal(n), 10, max) == Ok::<nat, NumberError>(n),
        decimal(n).len() > 0,
        forall|i: int| 0 <= i < decimal(n).len() ==> '0' <= #[trigger] decimal(n)[i] <= '9',
    decreases n,
{
    assert(digit_value(digit(n % 10), 10) == Some(n % 10));
    if n < 10 {
        assert(decimal(n) =~= seq![digit(n)]);
        assert(decimal(n).drop_last() =~= Seq::<char>::empty());
        assert(digits_value(Seq::<char>::empty(), 10, max) == Ok::<nat, NumberError>(0));
    } else {
        lemma_decimal_digits(n / 10, max);
        assert(decimal(n).drop_last() =~= decimal(n / 10));
        assert((n / 10) * 10 + n % 10 == n);
        assert forall|i: int| 0 <= i < decimal(n).len() implies '0' <= #[trigger] decimal(n)[i]
            <= '9' by {
            if i < decimal(n / 10).len() {
                assert(decimal(n)[i] == decimal(n / 10)[i]);
            }
        }
    }
}

/// A number in decimal digits is read as that number where it is not too
/// large, and refused where it is.
pub proof fn law_decimals_are_read_back(n: nat, max: nat)
    ensures
        n <= max ==> number(decimal(n), 10, max) == Ok::<nat, NumberError>(n),
        n <= max ==> number(seq!['+'] + decimal(n), 10, max) == Ok::<nat, NumberError>(n),
        forall|i: int| 0 <= i < decimal(n).len() ==> '0' <= #[trigger] decimal(n)[i] <= '9',
        n > max ==> number(decimal(n), 10, max) == Err::<nat, NumberError>(NumberError::TooLarge),
{
    lemma_decimal_digits(n, n);
    assert(decimal(n)[0] != '+');
    let signed = seq!['+'] + decimal(n);
    assert(signed.skip(1) =~= decimal(n));
    if n <= max {
        lemma_decimal_digits(n, max);
    } else {
        lemma_decimal_too_large(n, max);
    }
}

proof fn lemma_decimal_too_large(n: nat, max: nat)
    requires
        n > max,
    ensures
        digits_value(decimal(n), 10, max) == Err::<nat, NumberError>(NumberError::TooLarge),
    decreases n,
{
    assert(digit_value(digit(n % 10), 10) == Some(n % 10));
    if n < 10 {
        assert(decimal(n).drop_last() =~= Seq::<char>::empty());
        assert(digits_value(Seq::<char>::empty(), 10, max) == Ok::<nat, NumberError>(0));
    } else {
        assert(decimal(n).drop_last() =~= decimal(n / 10));
        assert((n / 10) * 10 + n % 10 == n);
        if n / 10 > max {
            lemma_decimal_too_large(n / 10, max);
        } else {
            lemma_decimal_digits(n / 10, max);
        }
    }
}

proof fn lemma_hexadecimal_digits(n: nat, max: nat)
    requires
        n <= max,
    ensures
        digits_value(hexadecimal(n), 16, max) == Ok::<nat, NumberError>(n),
        hexadecimal(n).len() > 0,
        hexadecimal(n)[0] != '+',
    decreases n,
{
    assert(digit_value(hex_digit(n % 16), 16) == Some(n % 16));
    if n < 16 {
        assert(hexadecimal(n) =~= seq![hex_digit(n)]);
        assert(hexadecimal(n).drop_last() =~= Seq::<char>::empty());
        assert(digits_value(Seq::<char>::empty(), 16, max) == Ok::<nat, NumberError>(0));
    } else {
        lemma_hexadecimal_digits(n / 16, max);
        assert(hexadecimal(n).drop_last() =~= hexadecimal(n / 16));
        assert((n / 16) * 16 + n % 16 == n);
        assert(hexadecimal(n)[0] == hexadecimal(n / 16)[0]);
    }
}

/// A number in hexadecimal digits is read as that number.
pub proof fn law_hexadecimals_are_read_back(n: nat, max: nat)
    requires
        n <= max,
    ensures
        number(hexadecimal(n), 16, max) == Ok::<nat, NumberError>(n),
{
    lemma_hexadecimal_digits(n, max);
}

/// A text that ends each of its lines with a line feed has exactly those
/// lines, in order. A line may have a carriage return before its line feed.
pub proof fn law_lines_are_read_back(all: Seq<Seq<char>>)
    requires
        forall|i: int| 0 <= i < all.len() ==> !(#[trigger] all[i]).contains('\n'),
    ensures
        all.len() > 0 ==> lines(join(all, seq!['\n']) + seq!['\n']) == all.map_values(
            |line: Seq<char>|
                if line.len() > 0 && line.last() == '\r' {
                    line.drop_last()
                } else {
                    line
                },
        ),
        lines(Seq::<char>::empty()).len() == 0,
{
    if all.len() > 0 {
        let text = join(all, seq!['\n']);
        let empty = Seq::<char>::empty();
        crate::text::lemma_split_join(all, '\n');
        crate::text::lemma_split_concat(text, '\n', empty);
        assert(text + seq!['\n'] + empty =~= text + seq!['\n']);
        assert(split(empty, '\n') =~= seq![empty]);
        let parts = all + seq![empty];
        assert(split(text + seq!['\n'], '\n') == parts);
        assert(parts.drop_last() =~= all);
        assert(lines(text + seq!['\n']) =~= all.map_values(
            |line: Seq<char>|
                if line.len() > 0 && line.last() == '\r' {
                    line.drop_last()
                } else {
                    line
                },
        ));
    }
}

/// Splitting at the first separator gives what stands before it and all that
/// stands after it; a text without the separator is not split.
pub proof fn law_texts_are_split_at_the_first(a: Seq<char>, sep: char, b: Seq<char>)
    requires
        !a.contains(sep),
    ensures
        split_first(a + seq![sep] + b, sep) == Some((a, b)),
        split_first(a, sep) is None,
{
    let s = a + seq![sep] + b;
    assert(s[a.len() as int] == sep);
    assert(s.contains(sep));
    let at = s.index_of_first(sep);
    s.index_of_first_ensures(sep);
    assert forall|k: int| 0 <= k < a.len() implies s[k] != sep by {
        assert(s[k] == a[k]);
    }
    if split_first(s, sep) is Some {
        let (x, y) = split_first(s, sep)->0;
        assert(x =~= a);
        assert(y =~= b);
    }
}

} // verus!
