use vstd::prelude::*;

verus! {

/// The three content modes that the schema gives an element type.
#[derive(Clone, Copy, Debug, PartialEq, Eq, Structural)]
pub enum ContentType {
    /// An ordered sequence of sub-elements.
    Elements,
    /// A single character data value.
    CharacterData,
    /// Sub-elements interleaved with runs of text.
    Mixed,
}

/// The kind of value that the schema expects for an attribute or a leaf.
#[derive(Clone, Copy, Debug, PartialEq, Eq, Structural)]
pub enum CharacterDataKind {
    Text,
    Integer,
    Enum,
}

/// A typed leaf value: text, a signed integer, or a token of a schema-defined enumeration.
#[derive(Debug)]
pub enum CharacterData {
    Text(String),
    Integer(i64),
    Enum(u32),
}

impl CharacterData {
    pub open spec fn kind_spec(&self) -> CharacterDataKind {
        match self {
            CharacterData::Text(_) => CharacterDataKind::Text,
            CharacterData::Integer(_) => CharacterDataKind::Integer,
            CharacterData::Enum(_) => CharacterDataKind::Enum,
        }
    }

    /// The kind of this value.
    #[verifier::when_used_as_spec(kind_spec)]
    pub fn kind(&self) -> (r: CharacterDataKind)
        ensures
            r == self.kind_spec(),
    {
        match self {
            CharacterData::Text(_) => CharacterDataKind::Text,
            CharacterData::Integer(_) => CharacterDataKind::Integer,
            CharacterData::Enum(_) => CharacterDataKind::Enum,
        }
    }

    /// An equal copy of this value.
    pub fn duplicate(&self) -> (r: CharacterData)
        ensures
            r == *self,
    {
        match self {
            CharacterData::Text(s) => CharacterData::Text(s.clone()),
            CharacterData::Integer(n) => CharacterData::Integer(*n),
            CharacterData::Enum(t) => CharacterData::Enum(*t),
        }
    }
}

pub open spec fn is_digit(c: char) -> bool {
    '0' <= c && c <= '9'
}

/// The value of a string of decimal digits.
pub open spec fn digits_value(s: Seq<char>) -> int
    decreases s.len(),
{
    if s.len() == 0 {
        0
    } else {
        digits_value(s.drop_last()) * 10 + (s.last() as int - '0' as int)
    }
}

pub open spec fn all_digits(s: Seq<char>) -> bool {
    s.len() > 0 && forall|i: int| 0 <= i < s.len() ==> is_digit(#[trigger] s[i])
}

/// The integer that `s` writes in decimal, with an optional leading minus sign.
pub open spec fn parse_decimal(s: Seq<char>) -> Option<int> {
    if s.len() > 0 && s[0] == '-' {
        if all_digits(s.drop_first()) { Some(-digits_value(s.drop_first())) } else { None }
    } else if all_digits(s) {
        Some(digits_value(s))
    } else {
        None
    }
}

proof fn lemma_digits_nonneg(s: Seq<char>)
    requires
        forall|i: int| 0 <= i < s.len() ==> is_digit(#[trigger] s[i]),
    ensures
        digits_value(s) >= 0,
    decreases s.len(),
{
    if s.len() > 0 {
        lemma_digits_nonneg(s.drop_last());
    }
}

/// Appending digits never makes the value smaller than a bound it already passed.
proof fn lemma_digits_grow(s: Seq<char>, start: int, j: int, n: int)
    requires
        0 <= start < j <= n <= s.len(),
        forall|k: int| start <= k < n ==> is_digit(#[trigger] s[k]),
        digits_value(s.subrange(start, j)) > 9223372036854775808,
    ensures
        digits_value(s.subrange(start, n)) > 9223372036854775808,
    decreases n - j,
{
    if j < n {
        let q = s.subrange(start, j + 1);
        assert(q.drop_last() =~= s.subrange(start, j));
        assert(q.last() == s[j]);
        lemma_digits_grow(s, start, j + 1, n);
    }
}

/// Reads `text` as a decimal `i64`.
pub fn parse_i64(text: &str) -> (r: Option<i64>)
    ensures
        r matches Some(v) ==> parse_decimal(text@) == Some(v as int),
        r is None ==> !(parse_decimal(text@) matches Some(v) && i64::MIN <= v <= i64::MAX),
{
    let n = text.unicode_len();
    if n == 0 {
        return None;
    }
    let neg = text.get_char(0) == '-';
    let start: usize = if neg { 1 } else { 0 };
    if start >= n {
        return None;
    }
    let ghost s = text@;
    let ghost ds = if neg { s.drop_first() } else { s };
    let mut acc: u64 = 0;
    let mut i: usize = start;
    while i < n
        invariant
            n == s.len(),
            s == text@,
            start <= i <= n,
            start < n,
            ds == s.subrange(start as int, n as int),
            neg == (s[0] == '-'),
            start == (if neg { 1usize } else { 0usize }),
            forall|j: int| start <= j < i ==> is_digit(#[trigger] s[j]),
            acc as int == digits_value(s.subrange(start as int, i as int)),
            acc <= 9223372036854775808u64,
        decreases n - i,
    {
        let c = text.get_char(i);
        if !('0' <= c && c <= '9') {
            proof {
                assert(ds[i - start] == c);
            }
            return None;
        }
        let d = (c as u32 - '0' as u32) as u64;
        proof {
            assert(d as int == c as int - '0' as int);
            assert(d <= 9);
        }
        let ghost pre = s.subrange(start as int, i as int);
        let ghost next = s.subrange(start as int, i as int + 1);
        proof {
            assert(next.drop_last() =~= pre);
            assert(next.last() == c);
        }
        if acc > 922337203685477580u64 || (acc == 922337203685477580u64 && d > 8) {
            proof {
                // every further digit only makes the value larger
                assert(digits_value(next) > 9223372036854775808);
                lemma_digits_nonneg(next);
                if all_digits(ds) {
                    assert(s.subrange(start as int, n as int) =~= ds);
                    assert forall|k: int| start <= k < n implies is_digit(#[trigger] s[k]) by {
                        assert(ds[k - start] == s[k]);
                    }
                    lemma_digits_grow(s, start as int, i as int + 1, n as int);
                    assert(digits_value(ds) > 9223372036854775808);
                    if neg {
                        assert(s.drop_first() == ds);
                        assert(parse_decimal(s) == Some(-digits_value(ds)));
                    } else {
                        assert(s == ds);
                        assert(parse_decimal(s) == Some(digits_value(ds)));
                    }
                } else if neg {
                    assert(s.drop_first() == ds);
                } else {
                    assert(s == ds);
                }
            }
            return None;
        }
        acc = acc * 10 + d;
        i += 1;
    }
    proof {
        assert(s.subrange(start as int, n as int) =~= ds);
        assert forall|k: int| 0 <= k < ds.len() implies is_digit(#[trigger] ds[k]) by {
            assert(ds[k] == s[k + start]);
        }
    }
    if neg {
        if acc == 9223372036854775808u64 {
            Some(i64::MIN)
        } else {
            Some(0i64 - acc as i64)
        }
    } else {
        if acc > 9223372036854775807u64 {
            return None;
        }
        Some(acc as i64)
    }
}

} // verus!
