use vstd::prelude::*;

verus! {

/// An IPv4 address, most significant octet first.
#[derive(Debug, Clone, Copy, PartialEq, Eq, Structural)]
pub struct IpAddress {
    pub o1: u8,
    pub o2: u8,
    pub o3: u8,
    pub o4: u8,
}

/// A destination for the discovery query: an IPv4 address and a UDP port.
#[derive(Debug, Clone, Copy, PartialEq, Eq, Structural)]
pub struct SocketAddress {
    pub ip: IpAddress,
    pub port: u16,
}

/// A decimal digit.
pub open spec fn is_digit(c: char) -> bool {
    '0' <= c && c <= '9'
}

/// The numeric value of a decimal digit.
pub open spec fn digit_value(c: char) -> int {
    c as int - '0' as int
}

/// Every character of `s` is a decimal digit.
pub open spec fn all_digits(s: Seq<char>) -> bool {
    forall|i: int| 0 <= i < s.len() ==> is_digit(#[trigger] s[i])
}

/// The value of `s` read as a decimal numeral.
pub open spec fn decimal_value(s: Seq<char>) -> int
    decreases s.len(),
{
    if s.len() == 0 {
        0
    } else {
        decimal_value(s.drop_last()) * 10 + digit_value(s.last())
    }
}

/// A non-empty run of digits whose decimal value is at most `max`:
/// one numeric field of an address string.
pub open spec fn is_decimal_field(s: Seq<char>, max: int) -> bool {
    s.len() >= 1 && all_digits(s) && decimal_value(s) <= max
}

/// `i1 < i2 < i3` are the dots and `i4` the colon of a well-formed
/// textual socket address `a.b.c.d:p`: between and around them stand
/// exactly four octet fields of value at most 255 and a port field of
/// value at most 65535.
pub open spec fn splits_at(s: Seq<char>, i1: int, i2: int, i3: int, i4: int) -> bool {
    &&& 0 <= i1 < i2 < i3 < i4 < s.len()
    &&& s[i1] == '.'
    &&& s[i2] == '.'
    &&& s[i3] == '.'
    &&& s[i4] == ':'
    &&& is_decimal_field(s.subrange(0, i1), 255)
    &&& is_decimal_field(s.subrange(i1 + 1, i2), 255)
    &&& is_decimal_field(s.subrange(i2 + 1, i3), 255)
    &&& is_decimal_field(s.subrange(i3 + 1, i4), 255)
    &&& is_decimal_field(s.subrange(i4 + 1, s.len() as int), 0xffff)
}

/// The address a well-formed string denotes, read off its separators.
pub open spec fn address_at(s: Seq<char>, i1: int, i2: int, i3: int, i4: int) -> SocketAddress {
    SocketAddress {
        ip: IpAddress {
            o1: decimal_value(s.subrange(0, i1)) as u8,
            o2: decimal_value(s.subrange(i1 + 1, i2)) as u8,
            o3: decimal_value(s.subrange(i2 + 1, i3)) as u8,
            o4: decimal_value(s.subrange(i3 + 1, i4)) as u8,
        },
        port: decimal_value(s.subrange(i4 + 1, s.len() as int)) as u16,
    }
}

/// A well-formed textual socket address: `a.b.c.d:p` with four octet
/// fields of value at most 255 and a port field of value at most 65535.
pub open spec fn is_address_string(s: Seq<char>) -> bool {
    exists|i1: int, i2: int, i3: int, i4: int| splits_at(s, i1, i2, i3, i4)
}

/// A digit string has a non-negative value.
proof fn lemma_decimal_value_nonneg(s: Seq<char>)
    requires
        all_digits(s),
    ensures
        decimal_value(s) >= 0,
    decreases s.len(),
{
    if s.len() > 0 {
        assert(all_digits(s.drop_last())) by {
            assert(forall|i: int| 0 <= i < s.len() - 1 ==> s.drop_last()[i] == s[i]);
        }
        lemma_decimal_value_nonneg(s.drop_last());
        assert(is_digit(s.last()));
    }
}

/// Extending a digit string can only raise its value.
proof fn lemma_decimal_value_prefix(s: Seq<char>, n: int)
    requires
        all_digits(s),
        0 <= n <= s.len(),
    ensures
        decimal_value(s) >= decimal_value(s.take(n)),
    decreases s.len() - n,
{
    if n == s.len() {
        assert(s.take(n) =~= s);
    } else {
        let t = s.drop_last();
        assert(all_digits(t)) by {
            assert(forall|i: int| 0 <= i < s.len() - 1 ==> t[i] == s[i]);
        }
        lemma_decimal_value_nonneg(t);
        assert(is_digit(s.last()));
        assert(decimal_value(s) >= decimal_value(t));
        assert(t.take(n) =~= s.take(n));
        lemma_decimal_value_prefix(t, n);
    }
}

/// The value of a one-digit numeral.
pub proof fn lemma_decimal_value_single(a: char)
    ensures
        decimal_value(seq![a]) == digit_value(a),
{
    assert(seq![a].drop_last() =~= Seq::<char>::empty());
    assert(decimal_value(Seq::<char>::empty()) == 0);
}

/// The value of a two-digit numeral.
pub proof fn lemma_decimal_value_pair(a: char, b: char)
    ensures
        decimal_value(seq![a, b]) == 10 * digit_value(a) + digit_value(b),
{
    lemma_decimal_value_single(a);
    assert(seq![a, b].drop_last() =~= seq![a]);
}

/// The value of a three-digit numeral.
pub proof fn lemma_decimal_value_triple(a: char, b: char, c: char)
    ensures
        decimal_value(seq![a, b, c]) == 100 * digit_value(a) + 10 * digit_value(b)
            + digit_value(c),
{
    lemma_decimal_value_pair(a, b);
    assert(seq![a, b, c].drop_last() =~= seq![a, b]);
}

/// The value of a four-digit numeral.
pub proof fn lemma_decimal_value_quad(a: char, b: char, c: char, d: char)
    ensures
        decimal_value(seq![a, b, c, d]) == 1000 * digit_value(a) + 100 * digit_value(b)
            + 10 * digit_value(c) + digit_value(d),
{
    lemma_decimal_value_triple(a, b, c);
    assert(seq![a, b, c, d].drop_last() =~= seq![a, b, c]);
}

/// A separator character with only digits standing before it (from
/// `lo` on) is the first occurrence of that character at or after `lo`.
proof fn lemma_forced_position(s: Seq<char>, lo: int, i: int, j: int, sep: char)
    requires
        0 <= lo <= i < s.len(),
        lo <= j < s.len(),
        s[i] == sep,
        s[j] == sep,
        all_digits(s.subrange(lo, i)),
        forall|k: int| lo <= k < j ==> s[k] != sep,
        !is_digit(sep),
    ensures
        i == j,
{
    if j < i {
        assert(s.subrange(lo, i)[j - lo] == s[j]);
        assert(is_digit(s[j]));
        assert(false);
    }
}

/// The separators of a well-formed address string stand at unique
/// positions: two readings of one string agree.
pub proof fn lemma_splits_unique(
    s: Seq<char>,
    i1: int, i2: int, i3: int, i4: int,
    j1: int, j2: int, j3: int, j4: int,
)
    requires
        splits_at(s, i1, i2, i3, i4),
        splits_at(s, j1, j2, j3, j4),
    ensures
        i1 == j1 && i2 == j2 && i3 == j3 && i4 == j4,
{
    assert(!is_digit('.'));
    assert(!is_digit(':'));
    if i1 < j1 {
        assert(s.subrange(0, j1)[i1] == s[i1]);
        assert(false);
    }
    if j1 < i1 {
        assert(s.subrange(0, i1)[j1] == s[j1]);
        assert(false);
    }
    if i2 < j2 {
        assert(s.subrange(j1 + 1, j2)[i2 - j1 - 1] == s[i2]);
        assert(false);
    }
    if j2 < i2 {
        assert(s.subrange(i1 + 1, i2)[j2 - i1 - 1] == s[j2]);
        assert(false);
    }
    if i3 < j3 {
        assert(s.subrange(j2 + 1, j3)[i3 - j2 - 1] == s[i3]);
        assert(false);
    }
    if j3 < i3 {
        assert(s.subrange(i2 + 1, i3)[j3 - i2 - 1] == s[j3]);
        assert(false);
    }
    if i4 < j4 {
        assert(s.subrange(j3 + 1, j4)[i4 - j3 - 1] == s[i4]);
        assert(false);
    }
    if j4 < i4 {
        assert(s.subrange(i3 + 1, i4)[j4 - i3 - 1] == s[j4]);
        assert(false);
    }
}

/// The least index at or after `from` where `sep` stands, if any.
fn find_separator(s: &str, from: usize, sep: char) -> (r: Option<usize>)
    requires
        from <= s@.len(),
    ensures
        match r {
            Some(i) => from <= i < s@.len() && s@[i as int] == sep
                && (forall|k: int| from <= k < i ==> s@[k] != sep),
            None => forall|k: int| from <= k < s@.len() ==> s@[k] != sep,
        },
{
    let n = s.unicode_len();
    let mut i = from;
    while i < n
        invariant
            from <= i <= n,
            n == s@.len(),
            forall|k: int| from <= k < i ==> s@[k] != sep,
        decreases n - i,
    {
        if s.get_char(i) == sep {
            return Some(i);
        }
        i += 1;
    }
    None
}

/// Reads `s[from..to]` as one numeric field of value at most `max`.
/// Returns its value exactly when that range is a non-empty digit run
/// whose value is in bound, and `None` otherwise.
fn parse_decimal_field(s: &str, from: usize, to: usize, max: u32) -> (r: Option<u32>)
    requires
        from <= to <= s@.len(),
        max <= 0xffff,
    ensures
        r is Some <==> is_decimal_field(s@.subrange(from as int, to as int), max as int),
        r matches Some(v) ==> v == decimal_value(s@.subrange(from as int, to as int)),
{
    let ghost field = s@.subrange(from as int, to as int);
    if from == to {
        return None;
    }
    let mut value: u32 = 0;
    let mut i = from;
    while i < to
        invariant
            from <= i <= to <= s@.len(),
            from < to,
            max <= 0xffff,
            field == s@.subrange(from as int, to as int),
            all_digits(s@.subrange(from as int, i as int)),
            value == decimal_value(s@.subrange(from as int, i as int)),
            value <= max,
        decreases to - i,
    {
        let c = s.get_char(i);
        if c < '0' || c > '9' {
            proof {
                if all_digits(field) {
                    assert(field[i - from] == s@[i as int]);
                    assert(false);
                }
            }
            return None;
        }
        let d = (c as u32) - 48;
        proof {
            let prefix = s@.subrange(from as int, i as int);
            let next = s@.subrange(from as int, i as int + 1);
            assert(next =~= prefix.push(s@[i as int]));
            assert(next.drop_last() =~= prefix);
            assert(next.last() == s@[i as int]);
            assert(digit_value(s@[i as int]) == d);
        }
        value = value * 10 + d;
        i += 1;
        if value > max {
            proof {
                if is_decimal_field(field, max as int) {
                    assert(field.take(i - from) =~= s@.subrange(from as int, i as int));
                    lemma_decimal_value_prefix(field, i - from);
                    assert(false);
                }
            }
            return None;
        }
    }
    proof {
        assert(field =~= s@.subrange(from as int, i as int));
    }
    Some(value)
}

/// Parses a textual socket address of the form `a.b.c.d:p`.
///
/// Returns the denoted address exactly when the string is well-formed
/// under [`is_address_string`], and `None` otherwise; the result is
/// pinned to the reading at the (unique) separator positions.
pub fn parse_address(s: &str) -> (r: Option<SocketAddress>)
    ensures
        r is Some <==> is_address_string(s@),
        forall|i1: int, i2: int, i3: int, i4: int|
            splits_at(s@, i1, i2, i3, i4) ==> r == Some(address_at(s@, i1, i2, i3, i4)),
{
    let n = s.unicode_len();
    let d1 = match find_separator(s, 0, '.') {
        Some(i) => i,
        None => {
            proof {
                if is_address_string(s@) {
                    let (i1, i2, i3, i4): (int, int, int, int) =
                        choose|i1: int, i2: int, i3: int, i4: int| splits_at(s@, i1, i2, i3, i4);
                    assert(s@[i1] == '.');
                    assert(false);
                }
            }
            return None;
        },
    };
    let d2 = match find_separator(s, d1 + 1, '.') {
        Some(i) => i,
        None => {
            proof {
                if is_address_string(s@) {
                    let (i1, i2, i3, i4): (int, int, int, int) =
                        choose|i1: int, i2: int, i3: int, i4: int| splits_at(s@, i1, i2, i3, i4);
                    lemma_forced_position(s@, 0, i1, d1 as int, '.');
                    assert(s@[i2] == '.');
                    assert(false);
                }
            }
            return None;
        },
    };
    let d3 = match find_separator(s, d2 + 1, '.') {
        Some(i) => i,
        None => {
            proof {
                if is_address_string(s@) {
                    let (i1, i2, i3, i4): (int, int, int, int) =
                        choose|i1: int, i2: int, i3: int, i4: int| splits_at(s@, i1, i2, i3, i4);
                    lemma_forced_position(s@, 0, i1, d1 as int, '.');
                    lemma_forced_position(s@, i1 + 1, i2, d2 as int, '.');
                    assert(s@[i3] == '.');
                    assert(false);
                }
            }
            return None;
        },
    };
    let c4 = match find_separator(s, d3 + 1, ':') {
        Some(i) => i,
        None => {
            proof {
                if is_address_string(s@) {
                    let (i1, i2, i3, i4): (int, int, int, int) =
                        choose|i1: int, i2: int, i3: int, i4: int| splits_at(s@, i1, i2, i3, i4);
                    lemma_forced_position(s@, 0, i1, d1 as int, '.');
                    lemma_forced_position(s@, i1 + 1, i2, d2 as int, '.');
                    lemma_forced_position(s@, i2 + 1, i3, d3 as int, '.');
                    assert(s@[i4] == ':');
                    assert(false);
                }
            }
            return None;
        },
    };
    proof {
        if is_address_string(s@) {
            let (i1, i2, i3, i4): (int, int, int, int) =
                choose|i1: int, i2: int, i3: int, i4: int| splits_at(s@, i1, i2, i3, i4);
            lemma_forced_position(s@, 0, i1, d1 as int, '.');
            lemma_forced_position(s@, i1 + 1, i2, d2 as int, '.');
            lemma_forced_position(s@, i2 + 1, i3, d3 as int, '.');
            lemma_forced_position(s@, i3 + 1, i4, c4 as int, ':');
            assert(splits_at(s@, d1 as int, d2 as int, d3 as int, c4 as int));
        }
    }
    let o1 = match parse_decimal_field(s, 0, d1, 255) {
        Some(v) => v,
        None => {
            return None;
        },
    };
    let o2 = match parse_decimal_field(s, d1 + 1, d2, 255) {
        Some(v) => v,
        None => {
            return None;
        },
    };
    let o3 = match parse_decimal_field(s, d2 + 1, d3, 255) {
        Some(v) => v,
        None => {
            return None;
        },
    };
    let o4 = match parse_decimal_field(s, d3 + 1, c4, 255) {
        Some(v) => v,
        None => {
            return None;
        },
    };
    let port = match parse_decimal_field(s, c4 + 1, n, 0xffff) {
        Some(v) => v,
        None => {
            return None;
        },
    };
    let result = SocketAddress {
        ip: IpAddress { o1: o1 as u8, o2: o2 as u8, o3: o3 as u8, o4: o4 as u8 },
        port: port as u16,
    };
    proof {
        assert(splits_at(s@, d1 as int, d2 as int, d3 as int, c4 as int));
        assert(result == address_at(s@, d1 as int, d2 as int, d3 as int, c4 as int));
        assert forall|i1: int, i2: int, i3: int, i4: int|
            splits_at(s@, i1, i2, i3, i4)
                implies Some(result) == Some::<SocketAddress>(address_at(s@, i1, i2, i3, i4)) by {
            lemma_splits_unique(s@, i1, i2, i3, i4, d1 as int, d2 as int, d3 as int, c4 as int);
        }
    }
    Some(result)
}

} // verus!

