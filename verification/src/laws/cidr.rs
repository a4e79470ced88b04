//! Laws of CIDR validation, told from the numbers that a CIDR is written with.
use crate::cidr::{
    before_first, byte_value, decimal_value, is_decimal, is_digit, is_ipv4, is_octet,
    parse_byte, parses_as_ipv4, unsigned, validate_cidr, CidrError,
};
use crate::laws::text::{free_of, joined, joined_of_split, split_of_joined};
use crate::text::split_text;
use vstd::prelude::*;

verus! {

/// The ten digits.
pub open spec fn digits() -> Seq<char> {
    seq!['0', '1', '2', '3', '4', '5', '6', '7', '8', '9']
}

/// A number as it is written: its decimal digits, without leading zeros.
pub open spec fn decimal_text(n: nat) -> Seq<char>
    decreases n,
{
    if n < 10 {
        seq![digits()[n as int]]
    } else {
        decimal_text(n / 10).push(digits()[(n % 10) as int])
    }
}

/// Four numbers with dots between them.
pub open spec fn dotted(a: nat, b: nat, c: nat, d: nat) -> Seq<char> {
    decimal_text(a).push('.') + decimal_text(b).push('.') + decimal_text(c).push('.')
        + decimal_text(d)
}

/// A number with or without a plus sign, after any number of zeros.
pub open spec fn padded(plus: bool, zeros: nat, n: nat) -> Seq<char> {
    (if plus {
        seq!['+']
    } else {
        Seq::empty()
    }) + Seq::new(zeros, |i: int| '0') + decimal_text(n)
}

proof fn lemma_digit(d: nat)
    requires
        d < 10,
    ensures
        is_digit(digits()[d as int]),
        digits()[d as int] as int == '0' as int + d,
        digits()[d as int] != '.',
        digits()[d as int] != '+',
        digits()[d as int] != '/',
        d != 0 <==> digits()[d as int] != '0',
{
}

proof fn lemma_digit_of(c: char) -> (d: nat)
    requires
        is_digit(c),
    ensures
        d < 10,
        digits()[d as int] == c,
        d == c as int - '0' as int,
{
    let d = (c as int - '0' as int) as nat;
    lemma_digit(d);
    d
}

/// What a written number is made of, and what it is worth.
proof fn lemma_decimal_text(n: nat)
    ensures
        is_decimal(decimal_text(n)),
        decimal_value(decimal_text(n)) == n,
        n > 0 ==> decimal_text(n)[0] != '0',
        n < 10 <==> decimal_text(n).len() == 1,
        n < 1000 ==> decimal_text(n).len() <= 3,
        forall|i: int|
            0 <= i < decimal_text(n).len() ==> {
                let c = #[trigger] decimal_text(n)[i];
                is_digit(c) && c != '.' && c != '+' && c != '/'
            },
    decreases n,
{
    let s = decimal_text(n);
    if n < 10 {
        lemma_digit(n);
        assert(s.drop_last() =~= Seq::<char>::empty());
        assert(decimal_value(s.drop_last()) == 0);
    } else {
        lemma_decimal_text(n / 10);
        lemma_digit(n % 10);
        if n < 1000 {
            if n >= 100 {
                lemma_decimal_text(n / 10 / 10);
                assert(n / 10 / 10 < 10);
                assert(decimal_text(n / 10).len() == decimal_text(n / 10 / 10).len() + 1);
            } else {
                assert(n / 10 < 10);
            }
        }
        assert(s.drop_last() =~= decimal_text(n / 10));
        assert(s[0] == decimal_text(n / 10)[0]);
        assert forall|i: int| 0 <= i < s.len() implies {
            let c = #[trigger] s[i];
            is_digit(c) && c != '.' && c != '+' && c != '/'
        } by {
            if i < s.len() - 1 {
                assert(s[i] == decimal_text(n / 10)[i]);
            }
        }
    }
}

/// Every run of digits is a written number after some zeros, and after none if
/// it does not begin with a zero.
proof fn lemma_reads_as(s: Seq<char>) -> (zeros: nat)
    requires
        is_decimal(s),
    ensures
        s == Seq::new(zeros, |i: int| '0') + decimal_text(decimal_value(s)),
        s[0] != '0' || s.len() == 1 ==> zeros == 0,
    decreases s.len(),
{
    let d = lemma_digit_of(s.last());
    let front = s.drop_last();
    assert(s =~= front.push(s.last()));
    if s.len() == 1 {
        assert(decimal_value(front) == 0);
        assert(s =~= Seq::new(0, |i: int| '0') + decimal_text(d));
        0
    } else {
        assert(is_decimal(front)) by {
            assert forall|i: int| 0 <= i < front.len() implies is_digit(#[trigger] front[i]) by {
                assert(is_digit(s[i]));
            }
        }
        let k = lemma_reads_as(front);
        let v = decimal_value(front);
        let pad = Seq::new(k, |i: int| '0');
        assert(decimal_value(s) == v * 10 + d);
        if v == 0 {
            lemma_digit(0);
            assert(front =~= Seq::new(k + 1, |i: int| '0'));
            assert(s[0] == '0');
            assert(s =~= Seq::new(k + 1, |i: int| '0') + decimal_text(d));
            k + 1
        } else {
            assert((v * 10 + d) / 10 == v);
            assert((v * 10 + d) % 10 == d);
            assert(decimal_text(v * 10 + d) == decimal_text(v).push(s.last()));
            assert(s =~= pad + decimal_text(v * 10 + d));
            lemma_decimal_text(v);
            if s.len() > 1 && s[0] != '0' {
                assert(front[0] == s[0]);
            }
            k
        }
    }
}

/// Zeros in front of a number do not change it.
proof fn lemma_zeros(zeros: nat, n: nat)
    ensures
        is_decimal(Seq::new(zeros, |i: int| '0') + decimal_text(n)),
        decimal_value(Seq::new(zeros, |i: int| '0') + decimal_text(n)) == n,
{
    lemma_decimal_text(n);
    let pad = Seq::new(zeros, |i: int| '0');
    let s = pad + decimal_text(n);
    assert forall|i: int| 0 <= i < s.len() implies is_digit(#[trigger] s[i]) by {
        if i >= zeros {
            assert(s[i] == decimal_text(n)[i - zeros]);
        }
    }
    lemma_value_after_zeros(zeros, decimal_text(n));
}

proof fn lemma_value_after_zeros(zeros: nat, t: Seq<char>)
    ensures
        decimal_value(Seq::new(zeros, |i: int| '0') + t) == decimal_value(t),
    decreases zeros + t.len(),
{
    let pad = Seq::new(zeros, |i: int| '0');
    let s = pad + t;
    if t.len() > 0 {
        lemma_value_after_zeros(zeros, t.drop_last());
        assert(s.drop_last() =~= pad + t.drop_last());
    } else if zeros > 0 {
        let fewer = (zeros - 1) as nat;
        lemma_value_after_zeros(fewer, t);
        assert(s.drop_last() =~= Seq::new(fewer, |i: int| '0') + t);
        assert(s.last() == '0');
    } else {
        assert(s =~= t);
    }
}

/// A part of an address is the decimal text of a number up to 255, and every
/// such text is one.
pub proof fn octets_are_numbers(s: Seq<char>)
    ensures
        is_octet(s) <==> exists|n: nat| n <= 255 && s == #[trigger] decimal_text(n),
{
    if is_octet(s) {
        let zeros = lemma_reads_as(s);
        assert(s =~= decimal_text(decimal_value(s)));
    }
    if exists|n: nat| n <= 255 && s == #[trigger] decimal_text(n) {
        let n = choose|n: nat| n <= 255 && s == #[trigger] decimal_text(n);
        lemma_decimal_text(n);
    }
}

proof fn lemma_dotted(a: nat, b: nat, c: nat, d: nat)
    ensures
        dotted(a, b, c, d) == joined(
            seq![decimal_text(a), decimal_text(b), decimal_text(c), decimal_text(d)],
            '.',
        ),
        free_of(seq![decimal_text(a), decimal_text(b), decimal_text(c), decimal_text(d)], '.'),
        forall|i: int|
            0 <= i < dotted(a, b, c, d).len() ==> #[trigger] dotted(a, b, c, d)[i] != '/',
{
    let parts = seq![decimal_text(a), decimal_text(b), decimal_text(c), decimal_text(d)];
    lemma_decimal_text(a);
    lemma_decimal_text(b);
    lemma_decimal_text(c);
    lemma_decimal_text(d);
    lemma_joined_of_four(parts);
    let s = dotted(a, b, c, d);
    let n1 = decimal_text(a).len() as int;
    let n2 = n1 + 1 + decimal_text(b).len();
    let n3 = n2 + 1 + decimal_text(c).len();
    assert forall|i: int| 0 <= i < s.len() implies #[trigger] s[i] != '/' by {
        if i < n1 {
            assert(s[i] == decimal_text(a)[i]);
        } else if i == n1 {
            assert(s[i] == '.');
        } else if i < n2 {
            assert(s[i] == decimal_text(b)[i - n1 - 1]);
        } else if i == n2 {
            assert(s[i] == '.');
        } else if i < n3 {
            assert(s[i] == decimal_text(c)[i - n2 - 1]);
        } else if i == n3 {
            assert(s[i] == '.');
        } else {
            assert(s[i] == decimal_text(d)[i - n3 - 1]);
        }
    }
}

proof fn lemma_joined_of_four(parts: Seq<Seq<char>>)
    requires
        parts.len() == 4,
    ensures
        joined(parts, '.') == parts[0].push('.') + parts[1].push('.') + parts[2].push('.')
            + parts[3],
{
    reveal_with_fuel(joined, 5);
    let three = parts.drop_last();
    let two = three.drop_last();
    let one = two.drop_last();
    assert(one[0] == parts[0]);
    assert(two.last() == parts[1]);
    assert(three.last() == parts[2]);
    assert(joined(one, '.') == parts[0]);
    assert(joined(two, '.') =~= parts[0].push('.') + parts[1]);
    assert(joined(three, '.') =~= parts[0].push('.') + parts[1].push('.') + parts[2]);
    assert(joined(parts, '.') =~= parts[0].push('.') + parts[1].push('.') + parts[2].push('.')
        + parts[3]);
}

/// A text is an address exactly if it is four numbers up to 255, as they are
/// written, with dots between them.
pub proof fn addresses_are_four_numbers(s: Seq<char>)
    ensures
        is_ipv4(s) <==> is_dotted_quad(s),
{
    if is_ipv4(s) {
        let parts = split_text(s, '.');
        joined_of_split(s, '.');
        octets_are_numbers(parts[0]);
        octets_are_numbers(parts[1]);
        octets_are_numbers(parts[2]);
        octets_are_numbers(parts[3]);
        let a = choose|n: nat| n <= 255 && parts[0] == #[trigger] decimal_text(n);
        let b = choose|n: nat| n <= 255 && parts[1] == #[trigger] decimal_text(n);
        let c = choose|n: nat| n <= 255 && parts[2] == #[trigger] decimal_text(n);
        let d = choose|n: nat| n <= 255 && parts[3] == #[trigger] decimal_text(n);
        lemma_joined_of_four(parts);
        assert(s == dotted(a, b, c, d));
    }
    if is_dotted_quad(s) {
        let (a, b, c, d) = choose|a: nat, b: nat, c: nat, d: nat|
            a <= 255 && b <= 255 && c <= 255 && d <= 255 && s == #[trigger] dotted(a, b, c, d);
        let parts = seq![decimal_text(a), decimal_text(b), decimal_text(c), decimal_text(d)];
        lemma_dotted(a, b, c, d);
        split_of_joined(parts, '.');
        octets_are_numbers(parts[0]);
        octets_are_numbers(parts[1]);
        octets_are_numbers(parts[2]);
        octets_are_numbers(parts[3]);
        assert(split_text(s, '.') == parts);
        assert forall|i: int| 0 <= i < 4 implies is_octet(#[trigger] parts[i]) by {}
    }
}

/// Whether a text is four numbers up to 255 with dots between them.
pub open spec fn is_dotted_quad(s: Seq<char>) -> bool {
    exists|a: nat, b: nat, c: nat, d: nat|
        a <= 255 && b <= 255 && c <= 255 && d <= 255 && s == #[trigger] dotted(a, b, c, d)
}

/// Whether a text reads as the number `n`.
pub open spec fn reads_as(s: Seq<char>, n: nat) -> bool {
    exists|plus: bool, zeros: nat| s == #[trigger] padded(plus, zeros, n)
}

/// A text has a byte's value exactly if it reads as a number up to 255, and
/// that number is the value.
pub proof fn bytes_are_numbers(s: Seq<char>, n: nat)
    ensures
        byte_value(s) == Some(n) <==> n <= 255 && reads_as(s, n),
{
    if byte_value(s) == Some(n) {
        let body = unsigned(s);
        let zeros = lemma_reads_as(body);
        if s.len() > 0 && s[0] == '+' {
            assert(s =~= seq!['+'] + body);
            assert(s =~= padded(true, zeros, n));
        } else {
            assert(s =~= padded(false, zeros, n));
        }
    }
    if n <= 255 && reads_as(s, n) {
        let (plus, zeros) = choose|plus: bool, zeros: nat| s == #[trigger] padded(plus, zeros, n);
        let body = Seq::new(zeros, |i: int| '0') + decimal_text(n);
        lemma_zeros(zeros, n);
        lemma_decimal_text(n);
        if plus {
            assert(s =~= seq!['+'] + body);
            assert(unsigned(s) =~= body);
        } else {
            assert(s =~= body);
            assert(is_digit(s[0]));
            assert(unsigned(s) == body);
        }
    }
}

/// `parses_as_ipv4` accepts exactly four dotted numbers, and `parse_byte` gives
/// the number up to 255 that a text reads as.
pub proof fn numbers_are_read(s: &str, address: bool, byte: Option<u32>, n: nat)
    requires
        call_ensures(parses_as_ipv4, (s,), address),
        call_ensures(parse_byte, (s,), byte),
    ensures
        address <==> is_dotted_quad(s@),
        n <= 255 && reads_as(s@, n) ==> byte is Some && byte->0 == n,
        byte is Some ==> byte->0 <= 255 && reads_as(s@, byte->0 as nat),
{
    addresses_are_four_numbers(s@);
    bytes_are_numbers(s@, n);
    if byte is Some {
        bytes_are_numbers(s@, byte->0 as nat);
    }
}

/// Every network that can be written is accepted: any four numbers up to 255
/// with dots between them, a slash, and a number up to 32. A number from 33 to
/// 255 is too long a prefix, and a larger one is no prefix at all.
pub proof fn written_networks(
    s: &str,
    verdict: Result<(), CidrError>,
    a: nat,
    b: nat,
    c: nat,
    d: nat,
    plus: bool,
    zeros: nat,
    prefix: nat,
)
    requires
        call_ensures(validate_cidr, (s,), verdict),
        a <= 255,
        b <= 255,
        c <= 255,
        d <= 255,
        s@ == dotted(a, b, c, d).push('/') + padded(plus, zeros, prefix),
    ensures
        prefix <= 32 ==> verdict is Ok,
        32 < prefix <= 255 ==> verdict == Err::<(), CidrError>(CidrError::PrefixTooLong),
        prefix > 255 ==> verdict == Err::<(), CidrError>(CidrError::Prefix),
{
    let addr = dotted(a, b, c, d);
    let rest = padded(plus, zeros, prefix);
    lemma_dotted(a, b, c, d);
    lemma_cut(s@, addr, rest);
    addresses_are_four_numbers(addr);
    assert(is_dotted_quad(addr));
    assert(reads_as(rest, prefix));
    bytes_are_numbers(rest, prefix);
    if prefix > 255 {
        if byte_value(rest) is Some {
            let n = byte_value(rest)->0;
            bytes_are_numbers(rest, n);
            lemma_one_reading(rest, n, prefix);
        }
    }
}

/// A text reads as one number only.
proof fn lemma_one_reading(s: Seq<char>, n: nat, m: nat)
    requires
        reads_as(s, n),
        reads_as(s, m),
    ensures
        n == m,
{
    let (p, k) = choose|plus: bool, zeros: nat| s == #[trigger] padded(plus, zeros, n);
    let (q, l) = choose|plus: bool, zeros: nat| s == #[trigger] padded(plus, zeros, m);
    let x = Seq::new(k, |i: int| '0') + decimal_text(n);
    let y = Seq::new(l, |i: int| '0') + decimal_text(m);
    lemma_zeros(k, n);
    lemma_zeros(l, m);
    assert(is_digit(x[0]) && is_digit(y[0]));
    assert(padded(p, k, n) =~= if p {
        seq!['+'] + x
    } else {
        x
    });
    assert(padded(q, l, m) =~= if q {
        seq!['+'] + y
    } else {
        y
    });
    assert(p == q) by {
        if p {
            assert(s[0] == '+');
        } else {
            assert(s[0] == x[0]);
        }
        if q {
            assert(s[0] == '+');
        } else {
            assert(s[0] == y[0]);
        }
    }
    if p {
        assert(x =~= s.drop_first());
        assert(y =~= s.drop_first());
    }
}

/// A text is cut at its first slash.
proof fn lemma_cut(s: Seq<char>, addr: Seq<char>, rest: Seq<char>)
    requires
        s == addr.push('/') + rest,
        forall|i: int| 0 <= i < addr.len() ==> #[trigger] addr[i] != '/',
    ensures
        before_first(s, '/') == addr,
        s.skip(addr.len() as int + 1) == rest,
    decreases addr.len(),
{
    assert(s.skip(addr.len() as int + 1) =~= rest);
    if addr.len() == 0 {
        assert(s[0] == '/');
        assert(addr =~= Seq::<char>::empty());
    } else {
        let tail = addr.drop_first();
        assert(s[0] == addr[0]);
        assert(s.drop_first() =~= tail.push('/') + rest);
        assert forall|i: int| 0 <= i < tail.len() implies #[trigger] tail[i] != '/' by {
            assert(addr[i + 1] != '/');
        }
        lemma_cut(s.drop_first(), tail, rest);
        assert(seq![addr[0]] + tail =~= addr);
    }
}

/// The verdict on a text with a slash, told from what stands on both sides of
/// the first one: an address that is not four dotted numbers is refused as
/// such, else a prefix that reads as no number up to 255, else one over 32, and
/// nothing else.
pub proof fn verdict_on_both_sides(
    s: &str,
    verdict: Result<(), CidrError>,
    addr: Seq<char>,
    rest: Seq<char>,
)
    requires
        call_ensures(validate_cidr, (s,), verdict),
        s@ == addr.push('/') + rest,
        forall|i: int| 0 <= i < addr.len() ==> #[trigger] addr[i] != '/',
    ensures
        verdict == Err::<(), CidrError>(CidrError::Address) <==> !is_dotted_quad(addr),
        verdict == Err::<(), CidrError>(CidrError::Prefix) <==> is_dotted_quad(addr) && forall|
            n: nat,
        | #[trigger]
            reads_as(rest, n) ==> n > 255,
        verdict == Err::<(), CidrError>(CidrError::PrefixTooLong) <==> is_dotted_quad(addr)
            && exists|n: nat| 32 < n <= 255 && #[trigger] reads_as(rest, n),
        verdict is Ok <==> is_dotted_quad(addr) && exists|n: nat|
            n <= 32 && #[trigger] reads_as(rest, n),
{
    lemma_cut(s@, addr, rest);
    addresses_are_four_numbers(addr);
    if byte_value(rest) is Some {
        let v = byte_value(rest)->0;
        bytes_are_numbers(rest, v);
        assert forall|n: nat| #[trigger] reads_as(rest, n) implies n == v by {
            lemma_one_reading(rest, n, v);
        }
    } else {
        assert forall|n: nat| #[trigger] reads_as(rest, n) implies n > 255 by {
            bytes_are_numbers(rest, n);
        }
    }
}

/// A prefix is missing exactly if there is no slash.
pub proof fn missing_prefix(s: &str, verdict: Result<(), CidrError>)
    requires
        call_ensures(validate_cidr, (s,), verdict),
    ensures
        verdict == Err::<(), CidrError>(CidrError::MissingPrefix) <==> forall|i: int|
            0 <= i < s@.len() ==> #[trigger] s@[i] != '/',
{
    lemma_before_first_all(s@);
    if exists|i: int| 0 <= i < s@.len() && #[trigger] s@[i] == '/' {
        let i = choose|i: int| 0 <= i < s@.len() && #[trigger] s@[i] == '/';
        lemma_before_first_short(s@, i);
    }
}

proof fn lemma_before_first_all(s: Seq<char>)
    ensures
        (forall|i: int| 0 <= i < s.len() ==> #[trigger] s[i] != '/') ==> before_first(s, '/') == s,
    decreases s.len(),
{
    if s.len() > 0 {
        lemma_before_first_all(s.drop_first());
        if forall|i: int| 0 <= i < s.len() ==> #[trigger] s[i] != '/' {
            assert forall|i: int| 0 <= i < s.drop_first().len() implies #[trigger] s.drop_first()[i]
                != '/' by {
                assert(s[i + 1] != '/');
            }
            assert(s =~= seq![s[0]] + s.drop_first());
        }
    } else {
        assert(before_first(s, '/') =~= s);
    }
}

proof fn lemma_before_first_short(s: Seq<char>, i: int)
    requires
        0 <= i < s.len(),
        s[i] == '/',
    ensures
        before_first(s, '/').len() <= i,
    decreases i,
{
    if s[0] != '/' {
        lemma_before_first_short(s.drop_first(), i - 1);
    }
}

/// A report is words that depend on the error alone, and after them the whole
/// input.
pub proof fn report_quotes_the_input(
    e: CidrError,
    first: &str,
    second: &str,
    text: String,
    other: String,
) -> (words: Seq<char>)
    requires
        call_ensures(CidrError::message, (e, first), text),
        call_ensures(CidrError::message, (e, second), other),
    ensures
        words.len() > 0,
        text@ == words + first@,
        other@ == words + second@,
{
    reveal_strlit("invalid CIDR (missing /prefix): ");
    reveal_strlit("invalid CIDR address: ");
    reveal_strlit("invalid CIDR prefix: ");
    reveal_strlit("invalid CIDR prefix (>32): ");
    e.words()
}

} // verus!
