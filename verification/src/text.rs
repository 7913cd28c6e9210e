//! Scanning and writing numbers in ASCII text.

use vstd::prelude::*;

verus! {

/// A set of bytes that a scan can run over.
#[derive(Debug, Clone, Copy, PartialEq, Eq, Structural)]
pub enum ByteClass {
    /// `0` to `9` and `a` to `f`.
    Hex,
    /// Space, tab, line feed, vertical tab, form feed, carriage return.
    Space,
    /// Every byte that is not in `Space`.
    Word,
    /// Every byte but the line feed.
    Line,
}

/// The byte that ends a line.
pub const LINE_FEED: u8 = 0x0a;

/// The byte that is dropped where it stands right before a line feed.
pub const CARRIAGE_RETURN: u8 = 0x0d;

impl ByteClass {
    /// Whether the class holds `b`.
    pub open spec fn has(self, b: u8) -> bool {
        match self {
            ByteClass::Hex => ('0' as u8 <= b <= '9' as u8) || ('a' as u8 <= b <= 'f' as u8),
            ByteClass::Space => b == ' ' as u8 || (0x09 <= b <= 0x0d),
            ByteClass::Word => !(b == ' ' as u8 || (0x09 <= b <= 0x0d)),
            ByteClass::Line => b != LINE_FEED,
        }
    }

    /// Tests a byte against the class.
    pub fn holds(self, b: u8) -> (r: bool)
        ensures
            r == self.has(b),
    {
        match self {
            ByteClass::Hex => ('0' as u8 <= b && b <= '9' as u8) || ('a' as u8 <= b && b <= 'f' as u8),
            ByteClass::Space => b == ' ' as u8 || (0x09 <= b && b <= 0x0d),
            ByteClass::Word => !(b == ' ' as u8 || (0x09 <= b && b <= 0x0d)),
            ByteClass::Line => b != LINE_FEED,
        }
    }
}

/// How many bytes at the front of `s` belong to `class`, counted up to the
/// first byte that does not.
pub open spec fn run(s: Seq<u8>, class: ByteClass) -> nat
    decreases s.len(),
{
    if s.len() > 0 && class.has(s[0]) {
        1 + run(s.skip(1), class)
    } else {
        0
    }
}

/// A run of length `n` is one where the first `n` bytes are in the class and
/// the byte after them, if there is one, is not.
pub proof fn lemma_run(s: Seq<u8>, class: ByteClass, n: nat)
    requires
        n <= s.len(),
        forall|i: int| 0 <= i < n ==> class.has(#[trigger] s[i]),
        n < s.len() ==> !class.has(s[n as int]),
    ensures
        run(s, class) == n,
    decreases n,
{
    if n > 0 {
        let t = s.skip(1);
        assert forall|i: int| 0 <= i < n - 1 implies class.has(#[trigger] t[i]) by {
            assert(t[i] == s[i + 1]);
        }
        lemma_run(t, class, (n - 1) as nat);
    }
}

/// A run is no longer than the bytes it runs over.
pub proof fn lemma_run_length(s: Seq<u8>, class: ByteClass)
    ensures
        run(s, class) <= s.len(),
    decreases s.len(),
{
    if s.len() > 0 && class.has(s[0]) {
        lemma_run_length(s.skip(1), class);
    }
}

/// Runs over the bytes of `class` that start at `from`, and returns the
/// index of the first byte after them.
pub fn scan(bytes: &[u8], from: usize, class: ByteClass) -> (to: usize)
    requires
        from <= bytes@.len(),
    ensures
        to == from + run(bytes@.skip(from as int), class),
        from <= to <= bytes@.len(),
{
    let mut to: usize = from;
    while to < bytes.len() && class.holds(bytes[to])
        invariant
            from <= to <= bytes@.len(),
            forall|i: int| from <= i < to ==> class.has(#[trigger] bytes@[i]),
        decreases bytes@.len() - to,
    {
        to += 1;
    }
    proof {
        let s = bytes@.skip(from as int);
        assert forall|i: int| 0 <= i < to - from implies class.has(#[trigger] s[i]) by {
            assert(s[i] == bytes@[from + i]);
        }
        lemma_run(s, class, (to - from) as nat);
    }
    to
}

/// Whether `line` begins with the ASCII text `word`.
pub open spec fn has_prefix(line: Seq<u8>, word: Seq<char>) -> bool {
    &&& word.len() <= line.len()
    &&& forall|i: int| 0 <= i < word.len() ==> line[i] == #[trigger] word[i] as u8
}

/// Tests whether `line` begins with `word`.
pub fn starts_with(line: &[u8], word: &str) -> (r: bool)
    requires
        word.is_ascii(),
    ensures
        r == has_prefix(line@, word@),
{
    let w = word.as_bytes();
    assert(w@ =~= Seq::new(word@.len(), |i: int| word@[i] as u8));
    if line.len() < w.len() {
        return false;
    }
    let mut i: usize = 0;
    while i < w.len()
        invariant
            i <= w@.len() <= line@.len(),
            w@.len() == word@.len(),
            forall|j: int| 0 <= j < w@.len() ==> w@[j] == #[trigger] word@[j] as u8,
            forall|j: int| 0 <= j < i ==> line@[j] == #[trigger] word@[j] as u8,
        decreases w@.len() - i,
    {
        if line[i] != w[i] {
            assert(line@[i as int] != word@[i as int] as u8);
            return false;
        }
        i += 1;
    }
    true
}

/// The value of a digit: `0` to `9` count 0 to 9, `a` to `f` count 10 to 15.
/// Other bytes are no digits.
pub open spec fn digit_value(b: u8) -> Option<nat> {
    if '0' as u8 <= b <= '9' as u8 {
        Some((b - '0' as u8) as nat)
    } else if 'a' as u8 <= b <= 'f' as u8 {
        Some((b - 'a' as u8 + 10) as nat)
    } else {
        None
    }
}

/// Whether `b` is a digit of base `radix`.
pub open spec fn is_digit_of(b: u8, radix: nat) -> bool {
    digit_value(b) matches Some(d) && d < radix
}

/// Whether every byte of `digits` is a digit of base `radix`.
pub open spec fn all_digits(digits: Seq<u8>, radix: nat) -> bool {
    forall|i: int| 0 <= i < digits.len() ==> is_digit_of(#[trigger] digits[i], radix)
}

/// The number that `digits` write in base `radix`, most significant digit
/// first.  A byte that is no digit counts as zero.
pub open spec fn radix_value(digits: Seq<u8>, radix: nat) -> nat
    decreases digits.len(),
{
    if digits.len() == 0 {
        0
    } else {
        radix_value(digits.drop_last(), radix) * radix + match digit_value(digits.last()) {
            Some(d) => d,
            None => 0,
        }
    }
}

/// The number that `digits` write in base `radix`, if they are digits of
/// that base, at least one, and the number fits in 64 bits.
pub open spec fn number(digits: Seq<u8>, radix: nat) -> Option<u64> {
    if digits.len() > 0 && all_digits(digits, radix) && radix_value(digits, radix) <= u64::MAX {
        Some(radix_value(digits, radix) as u64)
    } else {
        None
    }
}

/// A number never gets smaller when more digits follow.
pub proof fn lemma_radix_value_grows(digits: Seq<u8>, radix: nat, k: int)
    requires
        0 <= k <= digits.len(),
        radix >= 1,
    ensures
        radix_value(digits.take(k), radix) <= radix_value(digits, radix),
    decreases digits.len(),
{
    if k < digits.len() {
        let front = digits.drop_last();
        assert(front.take(k) =~= digits.take(k));
        lemma_radix_value_grows(front, radix, k);
        assert(radix_value(front, radix) <= radix_value(front, radix) * radix) by (nonlinear_arith)
            requires
                radix >= 1,
        ;
    } else {
        assert(digits.take(k) =~= digits);
    }
}

/// Reads a number in base `radix`.
pub fn parse_number(digits: &[u8], radix: u64) -> (r: Option<u64>)
    requires
        2 <= radix <= 16,
    ensures
        r == number(digits@, radix as nat),
{
    if digits.len() == 0 {
        return None;
    }
    let mut value: u64 = 0;
    let mut i: usize = 0;
    while i < digits.len()
        invariant
            2 <= radix <= 16,
            i <= digits@.len(),
            all_digits(digits@.take(i as int), radix as nat),
            value == radix_value(digits@.take(i as int), radix as nat),
        decreases digits@.len() - i,
    {
        let b = digits[i];
        let d: u64 = if '0' as u8 <= b && b <= '9' as u8 {
            (b - '0' as u8) as u64
        } else if 'a' as u8 <= b && b <= 'f' as u8 {
            (b - 'a' as u8) as u64 + 10
        } else {
            radix
        };
        proof {
            assert(digits@.take(i + 1).drop_last() =~= digits@.take(i as int));
            assert(digits@.take(i + 1).last() == b);
        }
        if d >= radix {
            proof {
                assert(!is_digit_of(digits@[i as int], radix as nat));
            }
            return None;
        }
        let next = match value.checked_mul(radix) {
            Some(scaled) => scaled.checked_add(d),
            None => None,
        };
        match next {
            Some(n) => {
                value = n;
            },
            None => {
                proof {
                    lemma_radix_value_grows(digits@, radix as nat, i + 1);
                }
                return None;
            },
        }
        proof {
            assert forall|j: int| 0 <= j < i + 1 implies is_digit_of(
                #[trigger] digits@.take(i + 1)[j],
                radix as nat,
            ) by {
                if j < i {
                    assert(digits@.take(i + 1)[j] == digits@.take(i as int)[j]);
                }
            }
        }
        i += 1;
    }
    proof {
        assert(digits@.take(i as int) =~= digits@);
    }
    Some(value)
}

/// The byte that writes the digit `d`: `0` to `9`, then `a` to `f`.
pub open spec fn digit_byte(d: nat) -> u8 {
    if d < 10 {
        ('0' as u8 + d) as u8
    } else {
        ('a' as u8 + d - 10) as u8
    }
}

/// The digits of `n` in base `radix`, most significant first, without
/// leading zeros; zero is written `0`.
pub open spec fn digits(n: nat, radix: nat) -> Seq<u8>
    decreases n,
    via digits_terminates
{
    if n < radix || radix < 2 {
        seq![digit_byte(n)]
    } else {
        digits(n / radix, radix).push(digit_byte(n % radix))
    }
}

#[via_fn]
proof fn digits_terminates(n: nat, radix: nat) {
    if !(n < radix || radix < 2) {
        lemma_quotient_is_smaller(n, radix);
    }
}

/// Dividing by two or more makes a positive number smaller.
pub proof fn lemma_quotient_is_smaller(n: nat, radix: nat)
    requires
        radix >= 2,
        n >= 1,
    ensures
        n / radix < n,
        (n / radix) * radix + n % radix == n,
        n % radix < radix,
{
    assert(n / radix < n && (n / radix) * radix + n % radix == n && n % radix < radix)
        by (nonlinear_arith)
        requires
            radix >= 2,
            n >= 1,
    ;
}

/// Appends the digits of `n` in base `radix` to `out`.
pub fn push_number(out: &mut Vec<u8>, n: u64, radix: u64)
    requires
        2 <= radix <= 16,
    ensures
        final(out)@ == old(out)@ + digits(n as nat, radix as nat),
    decreases n,
{
    if n >= radix {
        proof {
            lemma_quotient_is_smaller(n as nat, radix as nat);
        }
        push_number(out, n / radix, radix);
    }
    let d = n % radix;
    let b: u8 = if d < 10 {
        '0' as u8 + d as u8
    } else {
        'a' as u8 + (d as u8 - 10)
    };
    out.push(b);
    proof {
        assert(b == digit_byte((n % radix) as nat));
        if n < radix {
            assert(n % radix == n) by (nonlinear_arith)
                requires
                    n < radix,
            ;
        }
        assert(out@ =~= old(out)@ + digits(n as nat, radix as nat));
    }
}

/// Appends the bytes of an ASCII text to `out`.
pub fn push_text(out: &mut Vec<u8>, word: &str)
    requires
        word.is_ascii(),
    ensures
        final(out)@ == old(out)@ + ascii(word@),
{
    let w = word.as_bytes();
    assert(w@ =~= ascii(word@));
    let mut i: usize = 0;
    while i < w.len()
        invariant
            i <= w@.len(),
            w@ == ascii(word@),
            out@ == old(out)@ + w@.take(i as int),
        decreases w@.len() - i,
    {
        out.push(w[i]);
        assert(w@.take(i + 1) =~= w@.take(i as int).push(w@[i as int]));
        i += 1;
    }
    assert(w@.take(i as int) =~= w@);
}

/// The bytes of a text whose characters are all ASCII.
pub open spec fn ascii(word: Seq<char>) -> Seq<u8> {
    Seq::new(word.len(), |i: int| word[i] as u8)
}

/// Reading the digits that write a number gives the number back.
pub proof fn written_number_reads_back(n: nat, radix: nat)
    requires
        2 <= radix <= 16,
        n <= u64::MAX,
    ensures
        number(digits(n, radix), radix) == Some(n as u64),
    decreases n,
{
    lemma_digits_value(n, radix);
}

/// The digits of a number are digits of the base, and their value is the
/// number.
pub proof fn lemma_digits_value(n: nat, radix: nat)
    requires
        2 <= radix <= 16,
    ensures
        digits(n, radix).len() > 0,
        all_digits(digits(n, radix), radix),
        radix_value(digits(n, radix), radix) == n,
    decreases n,
{
    let d = digits(n, radix);
    if n < radix {
        assert(d.drop_last() =~= Seq::<u8>::empty());
        assert(radix_value(d.drop_last(), radix) == 0);
        assert(digit_value(digit_byte(n)) == Some(n));
        assert(is_digit_of(d[0], radix));
        assert(d.last() == digit_byte(n));
        assert(radix_value(d, radix) == radix_value(d.drop_last(), radix) * radix + n);
        assert(0 * radix == 0) by (nonlinear_arith);
    } else {
        let front = digits(n / radix, radix);
        lemma_digits_value(n / radix, radix);
        assert(d.drop_last() =~= front);
        assert(digit_value(digit_byte(n % radix)) == Some(n % radix));
        assert forall|i: int| 0 <= i < d.len() implies is_digit_of(#[trigger] d[i], radix) by {
            if i < front.len() {
                assert(d[i] == front[i]);
            }
        }
        lemma_quotient_is_smaller(n, radix);
        assert(d.last() == digit_byte(n % radix));
        assert(radix_value(d, radix) == radix_value(front, radix) * radix + n % radix);
    }
}

} // verus!
