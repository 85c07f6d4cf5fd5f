//! Texts built from numbers and bytes.

use vstd::prelude::*;
use vstd::string::*;

verus! {

/// The character of a digit below sixteen, in lower case.
pub open spec fn digit_char(digit: int) -> char {
    if digit < 10 {
        ('0' as int + digit) as char
    } else {
        ('a' as int + digit - 10) as char
    }
}

/// Appends the digit of a number below sixteen.
fn push_digit(out: &mut String, digit: u8)
    requires
        digit < 16,
    ensures
        final(out)@ == old(out)@.push(digit_char(digit as int)),
{
    proof {
        reveal_strlit("0");
        reveal_strlit("1");
        reveal_strlit("2");
        reveal_strlit("3");
        reveal_strlit("4");
        reveal_strlit("5");
        reveal_strlit("6");
        reveal_strlit("7");
        reveal_strlit("8");
        reveal_strlit("9");
        reveal_strlit("a");
        reveal_strlit("b");
        reveal_strlit("c");
        reveal_strlit("d");
        reveal_strlit("e");
        reveal_strlit("f");
    }
    let text: &str = match digit {
        0 => "0",
        1 => "1",
        2 => "2",
        3 => "3",
        4 => "4",
        5 => "5",
        6 => "6",
        7 => "7",
        8 => "8",
        9 => "9",
        10 => "a",
        11 => "b",
        12 => "c",
        13 => "d",
        14 => "e",
        _ => "f",
    };
    assert(text@ =~= seq![digit_char(digit as int)]);
    out.append(text);
    assert(out@ =~= old(out)@.push(digit_char(digit as int)));
}

/// A number in decimal digits.
pub open spec fn decimal(n: nat) -> Seq<char>
    decreases n,
{
    if n < 10 {
        seq![digit_char(n as int)]
    } else {
        decimal(n / 10).push(digit_char((n % 10) as int))
    }
}

/// Appends a number in decimal digits.
pub fn push_decimal(out: &mut String, n: u64)
    ensures
        final(out)@ == old(out)@ + decimal(n as nat),
    decreases n,
{
    if n < 10 {
        push_digit(out, n as u8);
        assert(out@ =~= old(out)@ + decimal(n as nat));
    } else {
        push_decimal(out, n / 10);
        push_digit(out, (n % 10) as u8);
        assert(out@ =~= old(out)@ + decimal(n as nat));
    }
}

/// Bytes as pairs of lower case hexadecimal digits.
pub open spec fn hex(bytes: Seq<u8>) -> Seq<char> {
    Seq::new(
        2 * bytes.len(),
        |i: int|
            if i % 2 == 0 {
                digit_char((bytes[i / 2] / 16) as int)
            } else {
                digit_char((bytes[i / 2] % 16) as int)
            },
    )
}

/// Bytes as pairs of lower case hexadecimal digits.
pub fn to_hex(bytes: &Vec<u8>) -> (out: String)
    ensures
        out@ == hex(bytes@),
{
    let mut out: String = String::new();
    let mut i: usize = 0;
    while i < bytes.len()
        invariant
            i <= bytes.len(),
            out@ == hex(bytes@.take(i as int)),
        decreases bytes.len() - i,
    {
        let ghost before = out@;
        push_digit(&mut out, bytes[i] / 16);
        push_digit(&mut out, bytes[i] % 16);
        proof {
            let now = bytes@.take(i as int + 1);
            assert(out@.len() == 2 * now.len());
            assert forall|k: int| 0 <= k < out@.len() implies out@[k] == hex(now)[k] by {
                if k < 2 * i {
                    assert(before[k] == hex(bytes@.take(i as int))[k]);
                    assert(now[k / 2] == bytes@.take(i as int)[k / 2]);
                }
            }
            assert(out@ =~= hex(now));
        }
        i = i + 1;
    }
    assert(bytes@.take(bytes.len() as int) =~= bytes@);
    out
}

proof fn lemma_digit_injective(x: int, y: int)
    requires
        0 <= x < 16,
        0 <= y < 16,
        digit_char(x) == digit_char(y),
    ensures
        x == y,
{
    assert(digit_char(x) as int == if x < 10 {
        48 + x
    } else {
        87 + x
    });
    assert(digit_char(y) as int == if y < 10 {
        48 + y
    } else {
        87 + y
    });
}

/// The bytes of a file are told apart by its hexadecimal name.
pub proof fn lemma_hex_injective(a: Seq<u8>, b: Seq<u8>)
    requires
        hex(a) == hex(b),
    ensures
        a == b,
{
    assert(hex(a).len() == 2 * a.len());
    assert(hex(b).len() == 2 * b.len());
    assert forall|i: int| 0 <= i < a.len() implies a[i] == b[i] by {
        let (high, low) = (2 * i, 2 * i + 1);
        assert(high / 2 == i && low / 2 == i && high % 2 == 0 && low % 2 == 1);
        assert(hex(a)[high] == digit_char((a[i] / 16) as int));
        assert(hex(b)[high] == digit_char((b[i] / 16) as int));
        assert(hex(a)[low] == digit_char((a[i] % 16) as int));
        assert(hex(b)[low] == digit_char((b[i] % 16) as int));
        lemma_digit_injective((a[i] / 16) as int, (b[i] / 16) as int);
        lemma_digit_injective((a[i] % 16) as int, (b[i] % 16) as int);
        assert(a[i] == 16 * (a[i] / 16) + a[i] % 16);
        assert(b[i] == 16 * (b[i] / 16) + b[i] % 16);
    }
    assert(a =~= b);
}

/// Bytes as a list in square brackets, separated by commas.
pub open spec fn listed(bytes: Seq<u8>) -> Seq<char> {
    "["@ + separated(bytes) + "]"@
}

/// Bytes in decimal, separated by commas.
pub open spec fn separated(bytes: Seq<u8>) -> Seq<char>
    decreases bytes.len(),
{
    if bytes.len() == 0 {
        Seq::empty()
    } else if bytes.len() == 1 {
        decimal(bytes[0] as nat)
    } else {
        separated(bytes.drop_last()) + ", "@ + decimal(bytes.last() as nat)
    }
}

/// Appends bytes as a list in square brackets, separated by commas.
pub fn push_listed(out: &mut String, bytes: &Vec<u8>)
    ensures
        final(out)@ == old(out)@ + listed(bytes@),
{
    out.append("[");
    let mut i: usize = 0;
    while i < bytes.len()
        invariant
            i <= bytes.len(),
            out@ == old(out)@ + "["@ + separated(bytes@.take(i as int)),
        decreases bytes.len() - i,
    {
        proof {
            assert(bytes@.take(i as int + 1).drop_last() =~= bytes@.take(i as int));
        }
        if i > 0 {
            out.append(", ");
        }
        push_decimal(out, bytes[i] as u64);
        assert(out@ =~= old(out)@ + "["@ + separated(bytes@.take(i as int + 1)));
        i = i + 1;
    }
    out.append("]");
    assert(bytes@.take(bytes.len() as int) =~= bytes@);
    assert(out@ =~= old(out)@ + listed(bytes@));
}

/// The number that a digit below sixteen stands for, in lower case.
pub open spec fn digit_value(c: char) -> int {
    if '0' <= c <= '9' {
        c as int - '0' as int
    } else if 'a' <= c <= 'f' {
        c as int - 'a' as int + 10
    } else {
        -1
    }
}

/// The number that a text of decimal digits stands for.
pub open spec fn number_in(text: Seq<char>) -> int
    decreases text.len(),
{
    if text.len() == 0 {
        0
    } else {
        10 * number_in(text.drop_last()) + digit_value(text.last())
    }
}

/// `text` is `n` in decimal digits, without zeros in front.
pub open spec fn reads_as(text: Seq<char>, n: int) -> bool {
    &&& text.len() > 0
    &&& forall|i: int| 0 <= i < text.len() ==> '0' <= #[trigger] text[i] <= '9'
    &&& text.len() > 1 ==> text[0] != '0'
    &&& number_in(text) == n
}

/// Each digit stands for its number.
pub proof fn lemma_digit_value(digit: int)
    requires
        0 <= digit < 16,
    ensures
        digit_value(digit_char(digit)) == digit,
{
    assert(digit_char(digit) as int == if digit < 10 {
        48 + digit
    } else {
        87 + digit
    });
}

/// A number in decimal digits reads as the number.
pub proof fn lemma_decimal_reads_as(n: nat)
    ensures
        reads_as(decimal(n), n as int),
    decreases n,
{
    let text = decimal(n);
    if n < 10 {
        lemma_digit_value(n as int);
        assert(text.drop_last().len() == 0);
        assert(number_in(text.drop_last()) == 0);
        assert(text[0] as int == 48 + n);
    } else {
        let rest = decimal(n / 10);
        let digit = (n % 10) as int;
        lemma_decimal_reads_as(n / 10);
        lemma_digit_value(digit);
        assert(text.drop_last() =~= rest);
        assert(text.last() as int == 48 + digit);
        assert forall|i: int| 0 <= i < text.len() implies '0' <= #[trigger] text[i] <= '9' by {
            if i < rest.len() {
                assert(text[i] == rest[i]);
            }
        }
        assert(text[0] == rest[0]);
        if rest.len() == 1 && rest[0] == '0' {
            assert(rest.drop_last().len() == 0);
            assert(number_in(rest.drop_last()) == 0);
            assert(number_in(rest) == 0);
        }
    }
}

/// Numbers are appended behind what is there, in digits that read as the number, and
/// bytes are written as two digits each that make up the byte.
pub proof fn lemma_numbers_read_back(n: u64, bytes: Vec<u8>)
    ensures
        forall|out: &mut String, done: ()| #[trigger]
            call_ensures(push_decimal, (out, n), done) ==> exists|text: Seq<char>| #[trigger]
                reads_as(text, n as int) && final(out)@ == out@ + text,
        forall|out: String| #[trigger]
            call_ensures(to_hex, (&bytes,), out) ==> {
                &&& out@.len() == 2 * bytes@.len()
                &&& forall|i: int|
                    0 <= i < bytes@.len() ==> {
                        &&& 0 <= digit_value(out@[2 * i]) < 16
                        &&& 0 <= digit_value(out@[2 * i + 1]) < 16
                        &&& #[trigger] bytes@[i] == 16 * digit_value(out@[2 * i]) + digit_value(
                            out@[2 * i + 1],
                        )
                    }
            },
{
    lemma_decimal_reads_as(n as nat);
    assert forall|out: &mut String, done: ()| #[trigger]
        call_ensures(push_decimal, (out, n), done) implies exists|text: Seq<char>| #[trigger]
        reads_as(text, n as int) && final(out)@ == out@ + text by {
        assert(reads_as(decimal(n as nat), n as int));
    }
    assert forall|i: int| 0 <= i < bytes@.len() implies {
        let out = hex(bytes@);
        &&& 0 <= digit_value(out[2 * i]) < 16
        &&& 0 <= digit_value(out[2 * i + 1]) < 16
        &&& #[trigger] bytes@[i] == 16 * digit_value(out[2 * i]) + digit_value(out[2 * i + 1])
    } by {
        lemma_hex_digits(bytes@, i);
    }
}

/// The digits of byte `i`.
pub proof fn lemma_hex_digits(bytes: Seq<u8>, i: int)
    requires
        0 <= i < bytes.len(),
    ensures
        hex(bytes).len() == 2 * bytes.len(),
        0 <= digit_value(hex(bytes)[2 * i]) < 16,
        0 <= digit_value(hex(bytes)[2 * i + 1]) < 16,
        bytes[i] == 16 * digit_value(hex(bytes)[2 * i]) + digit_value(hex(bytes)[2 * i + 1]),
{
    let (high, low) = (2 * i, 2 * i + 1);
    let byte = bytes[i] as int;
    assert(high / 2 == i && low / 2 == i && high % 2 == 0 && low % 2 == 1);
    assert(hex(bytes)[high] == digit_char(byte / 16));
    assert(hex(bytes)[low] == digit_char(byte % 16));
    lemma_digit_value(byte / 16);
    lemma_digit_value(byte % 16);
}

/// `text` lists the bytes in brackets: `texts` are the bytes in decimal, a comma and a
/// blank between each and the next.
pub open spec fn lists_bytes(text: Seq<char>, bytes: Seq<u8>, texts: Seq<Seq<char>>) -> bool {
    &&& texts.len() == bytes.len()
    &&& forall|i: int| 0 <= i < bytes.len() ==> reads_as(#[trigger] texts[i], bytes[i] as int)
    &&& text == seq!['['] + with_commas(texts) + seq![']']
}

/// Texts one behind the other, a comma and a blank between each and the next.
pub open spec fn with_commas(texts: Seq<Seq<char>>) -> Seq<char>
    decreases texts.len(),
{
    if texts.len() == 0 {
        Seq::empty()
    } else if texts.len() == 1 {
        texts[0]
    } else {
        texts[0] + seq![',', ' '] + with_commas(texts.skip(1))
    }
}

proof fn lemma_one_more_behind(texts: Seq<Seq<char>>, text: Seq<char>)
    requires
        texts.len() > 0,
    ensures
        with_commas(texts.push(text)) == with_commas(texts) + seq![',', ' '] + text,
    decreases texts.len(),
{
    let all = texts.push(text);
    assert(all.skip(1) =~= texts.skip(1).push(text));
    if texts.len() == 1 {
        assert(all.skip(1) =~= seq![text]);
        assert(with_commas(all.skip(1)) == text);
    } else {
        lemma_one_more_behind(texts.skip(1), text);
    }
    assert(with_commas(all) =~= with_commas(texts) + seq![',', ' '] + text);
}

proof fn lemma_separated(bytes: Seq<u8>) -> (texts: Seq<Seq<char>>)
    ensures
        texts.len() == bytes.len(),
        forall|i: int| 0 <= i < bytes.len() ==> reads_as(#[trigger] texts[i], bytes[i] as int),
        separated(bytes) == with_commas(texts),
    decreases bytes.len(),
{
    reveal_strlit(", ");
    if bytes.len() == 0 {
        Seq::empty()
    } else {
        let front = lemma_separated(bytes.drop_last());
        let last = decimal(bytes.last() as nat);
        lemma_decimal_reads_as(bytes.last() as nat);
        let texts = front.push(last);
        if bytes.len() > 1 {
            lemma_one_more_behind(front, last);
            assert(", "@ =~= seq![',', ' ']);
        }
        texts
    }
}

/// Bytes are listed whole and in order.
pub proof fn lemma_bytes_are_listed(bytes: Vec<u8>)
    ensures
        exists|texts: Seq<Seq<char>>| #[trigger] lists_bytes(listed(bytes@), bytes@, texts),
        forall|out: &mut String, done: ()| #[trigger]
            call_ensures(push_listed, (out, &bytes), done) ==> exists|
                text: Seq<char>,
                texts: Seq<Seq<char>>,
            | #[trigger]
                lists_bytes(text, bytes@, texts) && final(out)@ == out@ + text,
{
    reveal_strlit("[");
    reveal_strlit("]");
    let texts = lemma_separated(bytes@);
    assert("["@ =~= seq!['[']);
    assert("]"@ =~= seq![']']);
    assert(lists_bytes(listed(bytes@), bytes@, texts));
}

} // verus!
