//! Text at the edges of a run: the checkpoint file and the summary numbers.
use vstd::prelude::*;
use vstd::string::*;

verus! {

/// A character of the Unicode `White_Space` property, as `char::is_whitespace` has it.
pub open spec fn is_white_space_spec(c: char) -> bool {
    let u = c as u32;
    (0x09 <= u <= 0x0d) || u == 0x20 || u == 0x85 || u == 0xa0 || u == 0x1680 || (0x2000 <= u
        <= 0x200a) || u == 0x2028 || u == 0x2029 || u == 0x202f || u == 0x205f || u == 0x3000
}

/// `s` without its leading white space.
pub open spec fn trim_start(s: Seq<char>) -> Seq<char>
    decreases s.len(),
{
    if s.len() > 0 && is_white_space_spec(s[0]) {
        trim_start(s.drop_first())
    } else {
        s
    }
}

/// `s` without its trailing white space.
pub open spec fn trim_end(s: Seq<char>) -> Seq<char>
    decreases s.len(),
{
    if s.len() > 0 && is_white_space_spec(s.last()) {
        trim_end(s.drop_last())
    } else {
        s
    }
}

/// `s` without white space at either end.
pub open spec fn trim(s: Seq<char>) -> Seq<char> {
    trim_end(trim_start(s))
}

/// An ASCII decimal digit.
pub open spec fn is_digit_spec(c: char) -> bool {
    48 <= c as u32 <= 57
}

/// Every character of `t` is an ASCII decimal digit.
pub open spec fn all_digits(t: Seq<char>) -> bool {
    forall|i: int| 0 <= i < t.len() ==> #[trigger] is_digit_spec(t[i])
}

/// The value of the decimal digits `t`, most significant first.
pub open spec fn decimal_value(t: Seq<char>) -> nat
    decreases t.len(),
{
    if t.len() == 0 {
        0
    } else {
        decimal_value(t.drop_last()) * 10 + (t.last() as u32 - 48) as nat
    }
}

/// The unsigned 64-bit number that `s` writes: an optional `+`, then one or
/// more ASCII digits, of a value that fits; `None` for anything else.
pub open spec fn parse_u64_spec(s: Seq<char>) -> Option<u64> {
    let t = if s.len() > 0 && s[0] == '+' {
        s.drop_first()
    } else {
        s
    };
    if t.len() > 0 && all_digits(t) && decimal_value(t) <= u64::MAX {
        Some(decimal_value(t) as u64)
    } else {
        None
    }
}

/// The resume offset that a checkpoint file holds: its contents, trimmed of
/// white space, read as a decimal number; zero when they are not one.
pub open spec fn checkpoint_value(s: Seq<char>) -> u64 {
    match parse_u64_spec(trim(s)) {
        Some(v) => v,
        None => 0,
    }
}

/// Whether `c` is white space.
pub fn is_white_space(c: char) -> (r: bool)
    ensures
        r == is_white_space_spec(c),
{
    let u = c as u32;
    (0x09 <= u && u <= 0x0d) || u == 0x20 || u == 0x85 || u == 0xa0 || u == 0x1680 || (0x2000 <= u
        && u <= 0x200a) || u == 0x2028 || u == 0x2029 || u == 0x202f || u == 0x205f || u == 0x3000
}

/// The characters of `text`, in order.
fn chars_of(text: &str) -> (cs: Vec<char>)
    ensures
        cs@ == text@,
{
    broadcast use vstd::string::group_string_axioms;

    let mut cs: Vec<char> = Vec::new();
    for c in it: text.chars()
        invariant
            cs@ == it.seq().subrange(0, it.index() as int),
    {
        cs.push(c);
    }
    cs
}

/// A prefix of a run of decimal digits is worth no more than the whole.
pub proof fn lemma_decimal_prefix(t: Seq<char>, i: int)
    requires
        0 <= i <= t.len(),
        all_digits(t),
    ensures
        decimal_value(t.subrange(0, i)) <= decimal_value(t),
    decreases t.len(),
{
    if i < t.len() {
        let pre = t.drop_last();
        assert(t.subrange(0, i) =~= pre.subrange(0, i));
        assert forall|j: int| 0 <= j < pre.len() implies #[trigger] is_digit_spec(pre[j]) by {
            assert(pre[j] == t[j]);
        }
        lemma_decimal_prefix(pre, i);
    } else {
        assert(t.subrange(0, i) =~= t);
    }
}

/// Reads the contents of a checkpoint file: surrounding white space is
/// ignored, and anything that is not a decimal number that fits in 64
/// bits reads as zero.
pub fn parse_checkpoint(text: &str) -> (r: u64)
    ensures
        r == checkpoint_value(text@),
{
    let cs = chars_of(text);
    let n = cs.len();
    let mut a: usize = 0;
    assert(cs@.subrange(0, n as int) =~= cs@);
    while a < n && is_white_space(cs[a])
        invariant
            a <= n,
            n == cs@.len(),
            trim_start(cs@) == trim_start(cs@.subrange(a as int, n as int)),
        decreases n - a,
    {
        assert(cs@.subrange(a + 1, n as int) =~= cs@.subrange(a as int, n as int).drop_first());
        a = a + 1;
    }
    let ghost head = cs@.subrange(a as int, n as int);
    assert(trim_start(cs@) == head);
    let mut b: usize = n;
    while b > a && is_white_space(cs[b - 1])
        invariant
            a <= b <= n,
            n == cs@.len(),
            head == cs@.subrange(a as int, n as int),
            trim_end(head) == trim_end(cs@.subrange(a as int, b as int)),
        decreases b,
    {
        assert(cs@.subrange(a as int, b - 1) =~= cs@.subrange(a as int, b as int).drop_last());
        b = b - 1;
    }
    let ghost trimmed = cs@.subrange(a as int, b as int);
    assert(trim(cs@) == trimmed);
    let mut i: usize = a;
    if i < b && cs[i] == '+' {
        i = i + 1;
    }
    let ghost digits = cs@.subrange(i as int, b as int);
    assert(digits =~= (if trimmed.len() > 0 && trimmed[0] == '+' {
        trimmed.drop_first()
    } else {
        trimmed
    }));
    if i == b {
        return 0;
    }
    let start = i;
    let mut acc: u64 = 0;
    while i < b
        invariant
            start <= i <= b <= n,
            start < b,
            n == cs@.len(),
            cs@ == text@,
            trimmed == trim(cs@),
            digits == (if trimmed.len() > 0 && trimmed[0] == '+' {
                trimmed.drop_first()
            } else {
                trimmed
            }),
            digits == cs@.subrange(start as int, b as int),
            forall|j: int| start <= j < i ==> #[trigger] is_digit_spec(cs@[j]),
            acc == decimal_value(cs@.subrange(start as int, i as int)),
        decreases b - i,
    {
        let c = cs[i];
        let u = c as u32;
        if !(48 <= u && u <= 57) {
            assert(digits[i - start] == c);
            assert(!is_digit_spec(digits[i - start]));
            assert(!all_digits(digits));
            assert(parse_u64_spec(trimmed) is None);
            assert(trim(text@) == trimmed);
            return 0;
        }
        let d: u64 = (u - 48) as u64;
        let ghost pre = cs@.subrange(start as int, i as int);
        let ghost next = cs@.subrange(start as int, i + 1);
        assert(next.drop_last() =~= pre);
        if acc > (u64::MAX - d) / 10 {
            proof {
                assert(acc * 10 + d > u64::MAX) by (nonlinear_arith)
                    requires
                        acc > (u64::MAX - d) / 10,
                        d <= 9,
                ;
                assert(next.last() == c);
                assert(decimal_value(next) == acc * 10 + d);
                if all_digits(digits) {
                    lemma_decimal_prefix(digits, i + 1 - start);
                    assert(digits.subrange(0, i + 1 - start) =~= next);
                }
                assert(parse_u64_spec(trimmed) is None);
                assert(trim(text@) == trimmed);
            }
            return 0;
        }
        proof {
            assert(acc * 10 + d <= u64::MAX) by (nonlinear_arith)
                requires
                    acc <= (u64::MAX - d) / 10,
                    d <= 9,
            ;
        }
        acc = acc * 10 + d;
        i = i + 1;
    }
    assert(cs@.subrange(start as int, b as int) =~= digits);
    acc
}

/// The character of the decimal digit `d`.
pub open spec fn digit_char(d: nat) -> char {
    (d + 48) as char
}

/// The decimal digits of `n`, most significant first, with no leading zero.
pub open spec fn decimal_chars(n: nat) -> Seq<char>
    decreases n,
{
    if n < 10 {
        seq![digit_char(n)]
    } else {
        decimal_chars(n / 10).push(digit_char(n % 10))
    }
}

/// The first `i` characters of the digits `s`, with a comma before every
/// digit but the first that has a multiple of three digits after it.
pub open spec fn grouped_prefix(s: Seq<char>, i: nat) -> Seq<char>
    decreases i,
{
    if i == 0 {
        Seq::empty()
    } else {
        let j = i - 1;
        let sep = if j > 0 && (s.len() - j) % 3 == 0 {
            seq![',']
        } else {
            Seq::empty()
        };
        grouped_prefix(s, j as nat) + sep + seq![s[j]]
    }
}

/// The digits `s` in groups of three from the right, separated by commas.
pub open spec fn with_commas(s: Seq<char>) -> Seq<char> {
    grouped_prefix(s, s.len())
}

/// Least significant first digits, read as characters most significant first.
pub open spec fn reversed_digit_chars(r: Seq<u8>) -> Seq<char> {
    Seq::new(r.len(), |i: int| digit_char(r[r.len() - 1 - i] as nat))
}

/// The one-character text of the decimal digit `d`.
fn digit_str(d: u8) -> (r: &'static str)
    requires
        d < 10,
    ensures
        r@ == seq![digit_char(d as nat)],
{
    proof {
        reveal_strlit("0");
        reveal_strlit("1");
        reveal_strlit("2");
        reveal_strlit("3");
        reveal_strlit("4");
        reveal_strlit("5");
        reveal_strlit("6");
        reveal_strlit("7");
        reveal_strlit("8");
        reveal_strlit("9");
    }
    match d {
        0 => "0",
        1 => "1",
        2 => "2",
        3 => "3",
        4 => "4",
        5 => "5",
        6 => "6",
        7 => "7",
        8 => "8",
        _ => "9",
    }
}

/// `n` in decimal, its digits in groups of three separated by commas.
pub fn format_number(n: u64) -> (r: String)
    ensures
        r@ == with_commas(decimal_chars(n as nat)),
{
    let mut rev: Vec<u8> = Vec::new();
    let mut m: u64 = n;
    while m >= 10
        invariant
            decimal_chars(n as nat) == decimal_chars(m as nat) + reversed_digit_chars(rev@),
            forall|i: int| 0 <= i < rev@.len() ==> #[trigger] rev@[i] < 10,
        decreases m,
    {
        let ghost before = rev@;
        let d = (m % 10) as u8;
        rev.push(d);
        proof {
            assert(reversed_digit_chars(rev@) =~= seq![digit_char(d as nat)]
                + reversed_digit_chars(before));
            assert(decimal_chars(m as nat) == decimal_chars((m / 10) as nat).push(
                digit_char(d as nat),
            ));
            assert(decimal_chars((m / 10) as nat).push(digit_char(d as nat))
                + reversed_digit_chars(before) =~= decimal_chars((m / 10) as nat)
                + reversed_digit_chars(rev@));
        }
        m = m / 10;
    }
    let ghost before = rev@;
    rev.push(m as u8);
    proof {
        assert(reversed_digit_chars(rev@) =~= seq![digit_char(m as nat)] + reversed_digit_chars(
            before,
        ));
    }
    let ghost s = reversed_digit_chars(rev@);
    let len = rev.len();
    let mut out = String::new();
    let mut j: usize = 0;
    while j < len
        invariant
            len == rev@.len(),
            s == reversed_digit_chars(rev@),
            j <= len,
            forall|i: int| 0 <= i < rev@.len() ==> #[trigger] rev@[i] < 10,
            out@ == grouped_prefix(s, j as nat),
        decreases len - j,
    {
        if j > 0 && (len - j) % 3 == 0 {
            proof {
                reveal_strlit(",");
            }
            out.append(",");
        }
        let d = rev[len - 1 - j];
        out.append(digit_str(d));
        j = j + 1;
        proof {
            assert(out@ =~= grouped_prefix(s, j as nat));
        }
    }
    out
}

/// The unit that a byte count is shown in.
#[derive(Debug, Clone, Copy, PartialEq, Eq, Structural)]
pub enum ByteUnit {
    B,
    KB,
    MB,
    GB,
    TB,
}

pub const KIB: u64 = 1024;

pub const MIB: u64 = 1048576;

pub const GIB: u64 = 1073741824;

pub const TIB: u64 = 1099511627776;

/// The largest unit, of powers of 1024, that `bytes` fills at least once.
pub fn byte_unit(bytes: u64) -> (u: ByteUnit)
    ensures
        u == (if bytes >= TIB {
            ByteUnit::TB
        } else if bytes >= GIB {
            ByteUnit::GB
        } else if bytes >= MIB {
            ByteUnit::MB
        } else if bytes >= KIB {
            ByteUnit::KB
        } else {
            ByteUnit::B
        }),
{
    if bytes >= TIB {
        ByteUnit::TB
    } else if bytes >= GIB {
        ByteUnit::GB
    } else if bytes >= MIB {
        ByteUnit::MB
    } else if bytes >= KIB {
        ByteUnit::KB
    } else {
        ByteUnit::B
    }
}

impl ByteUnit {
    /// How many bytes one of this unit holds.
    pub fn scale(self) -> (r: u64)
        ensures
            r == (match self {
                ByteUnit::B => 1,
                ByteUnit::KB => KIB,
                ByteUnit::MB => MIB,
                ByteUnit::GB => GIB,
                ByteUnit::TB => TIB,
            }),
    {
        match self {
            ByteUnit::B => 1,
            ByteUnit::KB => KIB,
            ByteUnit::MB => MIB,
            ByteUnit::GB => GIB,
            ByteUnit::TB => TIB,
        }
    }

    /// The unit's symbol.
    pub fn label(self) -> (r: &'static str)
        ensures
            r@ == (match self {
                ByteUnit::B => seq!['B'],
                ByteUnit::KB => seq!['K', 'B'],
                ByteUnit::MB => seq!['M', 'B'],
                ByteUnit::GB => seq!['G', 'B'],
                ByteUnit::TB => seq!['T', 'B'],
            }),
    {
        proof {
            reveal_strlit("B");
            reveal_strlit("KB");
            reveal_strlit("MB");
            reveal_strlit("GB");
            reveal_strlit("TB");
        }
        match self {
            ByteUnit::B => "B",
            ByteUnit::KB => "KB",
            ByteUnit::MB => "MB",
            ByteUnit::GB => "GB",
            ByteUnit::TB => "TB",
        }
    }
}

} // verus!
