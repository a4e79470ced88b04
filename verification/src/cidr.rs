//! IPv4 networks in CIDR notation, such as `10.42.1.0/24`.
use crate::text::{chars_of, split, split_text, texts};
use vstd::prelude::*;
use vstd::string::{StrSliceExecFns, StringExecFns};

verus! {

/// What is wrong with a CIDR.
#[derive(Clone, Copy, Debug, PartialEq, Eq, Structural)]
pub enum CidrError {
    /// There is no `/`.
    MissingPrefix,
    /// What stands before the first `/` is no IPv4 address.
    Address,
    /// What stands after the first `/` is no number from 0 to 255.
    Prefix,
    /// The prefix is a number over 32.
    PrefixTooLong,
}

/// Whether `c` is one of the ten digits.
pub open spec fn is_digit(c: char) -> bool {
    '0' <= c <= '9'
}

/// Whether `s` is a non-empty run of digits.
pub open spec fn is_decimal(s: Seq<char>) -> bool {
    &&& s.len() > 0
    &&& forall|i: int| 0 <= i < s.len() ==> is_digit(#[trigger] s[i])
}

/// The number that a run of digits stands for.
pub open spec fn decimal_value(s: Seq<char>) -> nat
    decreases s.len(),
{
    if s.len() == 0 {
        0
    } else {
        decimal_value(s.drop_last()) * 10 + (s.last() as int - '0' as int) as nat
    }
}

/// What stands in `s` before the first `sep`; all of `s` if there is none.
pub open spec fn before_first(s: Seq<char>, sep: char) -> Seq<char>
    decreases s.len(),
{
    if s.len() == 0 || s[0] == sep {
        Seq::empty()
    } else {
        seq![s[0]] + before_first(s.drop_first(), sep)
    }
}

/// Whether `s` is a part of a dotted address: a decimal number from 0 to 255
/// of at most three digits and without a leading zero.
pub open spec fn is_octet(s: Seq<char>) -> bool {
    &&& is_decimal(s)
    &&& s.len() <= 3
    &&& s.len() > 1 ==> s[0] != '0'
    &&& decimal_value(s) <= 255
}

/// Whether `s` is an IPv4 address in dotted decimal notation.
pub open spec fn is_ipv4(s: Seq<char>) -> bool {
    let parts = split_text(s, '.');
    &&& parts.len() == 4
    &&& forall|i: int| 0 <= i < 4 ==> is_octet(#[trigger] parts[i])
}

/// `s` without one leading plus sign.
pub open spec fn unsigned(s: Seq<char>) -> Seq<char> {
    if s.len() > 0 && s[0] == '+' {
        s.drop_first()
    } else {
        s
    }
}

/// The byte that `s` stands for: digits, after an optional plus sign, whose
/// value is at most 255.
pub open spec fn byte_value(s: Seq<char>) -> Option<nat> {
    if is_decimal(unsigned(s)) && decimal_value(unsigned(s)) <= 255 {
        Some(decimal_value(unsigned(s)))
    } else {
        None
    }
}

/// What validation says of a text.
pub open spec fn cidr_verdict(s: Seq<char>) -> Result<(), CidrError> {
    let addr = before_first(s, '/');
    if addr.len() == s.len() {
        Err(CidrError::MissingPrefix)
    } else if !is_ipv4(addr) {
        Err(CidrError::Address)
    } else {
        match byte_value(s.skip(addr.len() as int + 1)) {
            None => Err(CidrError::Prefix),
            Some(prefix) => if prefix > 32 {
                Err(CidrError::PrefixTooLong)
            } else {
                Ok(())
            },
        }
    }
}

/// The first `sep`, once found, ends what stands before it.
proof fn lemma_before_first(s: Seq<char>, sep: char, i: int)
    requires
        0 <= i <= s.len(),
        forall|j: int| 0 <= j < i ==> #[trigger] s[j] != sep,
        i < s.len() ==> s[i] == sep,
    ensures
        before_first(s, sep) == s.take(i),
    decreases i,
{
    if i == 0 {
        assert(s.take(0) =~= Seq::<char>::empty());
    } else {
        lemma_before_first(s.drop_first(), sep, i - 1);
        assert(s.take(i) =~= seq![s[0]] + s.drop_first().take(i - 1));
    }
}

/// The value of a run of digits, with every number over 255 given as 256.
/// `None` where something else than a digit stands in it, or nothing.
fn decimal_up_to_255(s: &str) -> (value: Option<u32>)
    ensures
        match value {
            Some(v) => is_decimal(s@) && v == if decimal_value(s@) <= 255 {
                decimal_value(s@)
            } else {
                256
            },
            None => !is_decimal(s@),
        },
{
    let chars = chars_of(s);
    if chars.len() == 0 {
        return None;
    }
    let mut value: u32 = 0;
    let mut i: usize = 0;
    while i < chars.len()
        invariant
            chars@ == s@,
            i <= chars.len(),
            forall|j: int| 0 <= j < i ==> is_digit(#[trigger] s@[j]),
            value == if decimal_value(s@.take(i as int)) <= 255 {
                decimal_value(s@.take(i as int))
            } else {
                256
            },
        decreases chars.len() - i,
    {
        let c = chars[i];
        if !('0' <= c && c <= '9') {
            assert(!is_digit(s@[i as int]));
            return None;
        }
        assert(s@.take(i + 1).drop_last() =~= s@.take(i as int));
        let next: u32 = value * 10 + (c as u32 - '0' as u32);
        value = if next <= 255 {
            next
        } else {
            256
        };
        i = i + 1;
    }
    assert(s@.take(s@.len() as int) =~= s@);
    Some(value)
}

/// Whether a string is a part of a dotted address.
fn parses_as_octet(s: &str) -> (r: bool)
    ensures
        r == is_octet(s@),
{
    let chars = chars_of(s);
    if chars.len() == 0 || chars.len() > 3 {
        return false;
    }
    if chars.len() > 1 && chars[0] == '0' {
        return false;
    }
    match decimal_up_to_255(s) {
        Some(value) => value <= 255,
        None => false,
    }
}

/// Whether a string is an IPv4 address in dotted decimal notation.
pub fn parses_as_ipv4(s: &str) -> (r: bool)
    ensures
        r == is_ipv4(s@),
{
    let parts = split(s, '.');
    assert(texts(parts@).len() == parts.len());
    if parts.len() != 4 {
        return false;
    }
    let mut i: usize = 0;
    while i < 4
        invariant
            parts.len() == 4,
            texts(parts@) == split_text(s@, '.'),
            i <= 4,
            forall|j: int| 0 <= j < i ==> is_octet(#[trigger] split_text(s@, '.')[j]),
        decreases 4 - i,
    {
        assert(texts(parts@)[i as int] == parts@[i as int]@);
        if !parses_as_octet(parts[i]) {
            assert(!is_octet(split_text(s@, '.')[i as int]));
            return false;
        }
        i = i + 1;
    }
    true
}

/// The byte that a string stands for.
pub fn parse_byte(s: &str) -> (value: Option<u32>)
    ensures
        match value {
            Some(v) => byte_value(s@) == Some(v as nat),
            None => byte_value(s@) is None,
        },
{
    let chars = chars_of(s);
    let digits = if chars.len() > 0 && chars[0] == '+' {
        s.substring_char(1, chars.len())
    } else {
        s
    };
    assert(digits@ =~= unsigned(s@));
    match decimal_up_to_255(digits) {
        Some(value) => if value <= 255 {
            Some(value)
        } else {
            None
        },
        None => None,
    }
}

/// Checks that `cidr` is an IPv4 CIDR like `10.42.1.0/24`, so that bad input
/// is refused before it reaches `wg` or `ip`.
pub fn validate_cidr(cidr: &str) -> (verdict: Result<(), CidrError>)
    ensures
        verdict == cidr_verdict(cidr@),
{
    let chars = chars_of(cidr);
    let mut slash: usize = 0;
    while slash < chars.len() && chars[slash] != '/'
        invariant
            chars@ == cidr@,
            slash <= chars.len(),
            forall|j: int| 0 <= j < slash ==> #[trigger] cidr@[j] != '/',
        decreases chars.len() - slash,
    {
        slash = slash + 1;
    }
    proof {
        lemma_before_first(cidr@, '/', slash as int);
    }
    if slash == chars.len() {
        return Err(CidrError::MissingPrefix);
    }
    let addr = cidr.substring_char(0, slash);
    let prefix = cidr.substring_char(slash + 1, chars.len());
    proof {
        assert(addr@ =~= before_first(cidr@, '/'));
        assert(prefix@ =~= cidr@.skip(addr@.len() as int + 1));
    }
    if !parses_as_ipv4(addr) {
        return Err(CidrError::Address);
    }
    match parse_byte(prefix) {
        None => Err(CidrError::Prefix),
        Some(bits) => if bits > 32 {
            Err(CidrError::PrefixTooLong)
        } else {
            Ok(())
        },
    }
}

impl CidrError {
    /// The words with which an error is reported, before the rejected text.
    pub open spec fn words(self) -> Seq<char> {
        match self {
            CidrError::MissingPrefix => "invalid CIDR (missing /prefix): "@,
            CidrError::Address => "invalid CIDR address: "@,
            CidrError::Prefix => "invalid CIDR prefix: "@,
            CidrError::PrefixTooLong => "invalid CIDR prefix (>32): "@,
        }
    }

    /// The report of this error on `cidr`.
    pub fn message(self, cidr: &str) -> (text: String)
        ensures
            text@ == self.words() + cidr@,
    {
        let words = match self {
            CidrError::MissingPrefix => "invalid CIDR (missing /prefix): ",
            CidrError::Address => "invalid CIDR address: ",
            CidrError::Prefix => "invalid CIDR prefix: ",
            CidrError::PrefixTooLong => "invalid CIDR prefix (>32): ",
        };
        words.to_owned().concat(cidr)
    }
}

/// Every character of a text is a separator or stands in one of the pieces.
proof fn lemma_split_covers(s: Seq<char>, sep: char, i: int)
    requires
        0 <= i < s.len(),
    ensures
        split_text(s, sep).len() > 0,
        s[i] == sep || exists|k: int|
            0 <= k < split_text(s, sep).len() && (#[trigger] split_text(s, sep)[k]).contains(s[i]),
    decreases s.len(),
{
    lemma_split_is_not_empty(s.drop_last(), sep);
    let front = split_text(s.drop_last(), sep);
    let all = split_text(s, sep);
    if i == s.len() - 1 {
        if s.last() != sep {
            let k = all.len() - 1;
            assert(all[k] == front.last().push(s.last()));
            assert(all[k][all[k].len() - 1] == s.last());
            assert(all[k].contains(s[i]));
        }
    } else {
        lemma_split_covers(s.drop_last(), sep, i);
        if s[i] != sep {
            let k = choose|k: int|
                0 <= k < front.len() && (#[trigger] front[k]).contains(s.drop_last()[i]);
            let at = choose|at: int| 0 <= at < front[k].len() && front[k][at] == s[i];
            assert(all[k][at] == s[i]);
            assert(all[k].contains(s[i]));
        }
    }
}

/// A text has at least one piece.
proof fn lemma_split_is_not_empty(s: Seq<char>, sep: char)
    ensures
        split_text(s, sep).len() > 0,
    decreases s.len(),
{
    if s.len() > 0 {
        lemma_split_is_not_empty(s.drop_last(), sep);
    }
}

/// An IPv4 address is made of digits and dots.
pub proof fn ipv4_characters(s: Seq<char>, i: int)
    requires
        is_ipv4(s),
        0 <= i < s.len(),
    ensures
        is_digit(s[i]) || s[i] == '.',
{
    lemma_split_covers(s, '.', i);
    if s[i] != '.' {
        let parts = split_text(s, '.');
        let k = choose|k: int| 0 <= k < parts.len() && (#[trigger] parts[k]).contains(s[i]);
        assert(is_octet(parts[k]));
    }
}

/// The texts that pass are exactly those made of an IPv4 address, a slash, and
/// a prefix from 0 to 32.
pub proof fn accepted_cidrs(s: Seq<char>)
    ensures
        cidr_verdict(s) is Ok <==> exists|addr: Seq<char>, prefix: Seq<char>|
            #![trigger is_ipv4(addr), byte_value(prefix)]
            {
                &&& s == addr + seq!['/'] + prefix
                &&& is_ipv4(addr)
                &&& byte_value(prefix) is Some
                &&& byte_value(prefix)->0 <= 32
            },
{
    if cidr_verdict(s) is Ok {
        let addr = before_first(s, '/');
        let prefix = s.skip(addr.len() as int + 1);
        lemma_before_first_is_prefix(s, '/');
        assert(s =~= addr + seq!['/'] + prefix);
        assert(is_ipv4(addr));
        assert(byte_value(prefix) is Some);
    }
    assert forall|addr: Seq<char>, prefix: Seq<char>|
        #![trigger is_ipv4(addr), byte_value(prefix)]
        {
            &&& s == addr + seq!['/'] + prefix
            &&& is_ipv4(addr)
            &&& byte_value(prefix) is Some
            &&& byte_value(prefix)->0 <= 32
        } implies cidr_verdict(s) is Ok by {
        assert forall|j: int| 0 <= j < addr.len() implies #[trigger] s[j] != '/' by {
            ipv4_characters(addr, j);
        }
        lemma_before_first(s, '/', addr.len() as int);
        assert(s.take(addr.len() as int) =~= addr);
        assert(s.skip(addr.len() as int + 1) =~= prefix);
    }
}

/// What stands before the first `sep` is a prefix of the text, and `sep`
/// follows it unless it is all of the text.
proof fn lemma_before_first_is_prefix(s: Seq<char>, sep: char)
    ensures
        before_first(s, sep).len() <= s.len(),
        before_first(s, sep) == s.take(before_first(s, sep).len() as int),
        before_first(s, sep).len() < s.len() ==> s[before_first(s, sep).len() as int] == sep,
    decreases s.len(),
{
    if s.len() == 0 || s[0] == sep {
        assert(before_first(s, sep) =~= s.take(0));
    } else {
        let rest = s.drop_first();
        lemma_before_first_is_prefix(rest, sep);
        let n = before_first(rest, sep).len() as int;
        assert(s.take(n + 1) =~= seq![s[0]] + rest.take(n));
    }
}

} // verus!
