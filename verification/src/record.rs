use vstd::prelude::*;
use crate::unicode::{is_white_space, is_decimal_number, white_space, decimal_number};

verus! {

broadcast use vstd::string::group_string_axioms;

/// The characters of `line`, in order.
pub fn chars_of(line: &str) -> (chars: Vec<char>)
    ensures
        chars@ == line@,
{
    let mut chars: Vec<char> = Vec::new();
    for c in it: line.chars()
        invariant
            chars@ == it.seq().take(it.index() as int),
    {
        chars.push(c);
        assert(chars@ =~= it.seq().take(it.index() + 1));
    }
    assert(chars@ =~= line@);
    chars
}


/// The position after the run of white space that starts at `i`.
pub open spec fn skip_white_space(s: Seq<char>, i: int) -> int
    decreases s.len() - i,
{
    if 0 <= i < s.len() && is_white_space(s[i]) {
        skip_white_space(s, i + 1)
    } else {
        i
    }
}

/// The position after the run of decimal digits that starts at `i`.
pub open spec fn skip_decimal_digits(s: Seq<char>, i: int) -> int
    decreases s.len() - i,
{
    if 0 <= i < s.len() && is_decimal_number(s[i]) {
        skip_decimal_digits(s, i + 1)
    } else {
        i
    }
}

/// The position before the run of white space that ends at `j`.
pub open spec fn back_white_space(s: Seq<char>, j: int) -> int
    decreases j,
{
    if 0 < j <= s.len() && is_white_space(s[j - 1]) {
        back_white_space(s, j - 1)
    } else {
        j
    }
}

/// `s` without its leading and trailing white space.
pub open spec fn trim(s: Seq<char>) -> Seq<char> {
    let a = skip_white_space(s, 0);
    let b = back_white_space(s, s.len() as int);
    if a < b {
        s.subrange(a, b)
    } else {
        Seq::empty()
    }
}

/// Whether `lit` occurs in `s` at position `i`.
pub open spec fn literal_at(s: Seq<char>, i: int, lit: Seq<char>) -> bool {
    0 <= i && i + lit.len() <= s.len() && s.subrange(i, i + lit.len()) == lit
}

pub open spec fn timestamp_label() -> Seq<char> {
    seq!['t', 'i', 'm', 'e', 's', 't', 'a', 'm', 'p', ':']
}

pub open spec fn len_label() -> Seq<char> {
    seq!['l', 'e', 'n', ':']
}

pub open spec fn crc_label() -> Seq<char> {
    seq!['c', 'r', 'c', ':']
}

pub open spec fn data_label() -> Seq<char> {
    seq!['d', 'a', 't', 'a', ':']
}

/// A numeric field of the header, `\s* LABEL \s* (\d+) \s* ,`, read from
/// position `i`: the bounds of its digits and the position after the comma.
pub open spec fn number_field(s: Seq<char>, i: int, label: Seq<char>) -> Option<(int, int, int)> {
    let a = skip_white_space(s, i);
    let d0 = skip_white_space(s, a + label.len());
    let d1 = skip_decimal_digits(s, d0);
    let c = skip_white_space(s, d1);
    if literal_at(s, a, label) && d0 < d1 && c < s.len() && s[c] == ',' {
        Some((d0, d1, c + 1))
    } else {
        None
    }
}

/// Where the parts of a message header lie in a line: the digits of the
/// three numbers and the position right after the opening brace of the data.
pub struct HeaderSpan {
    pub timestamp: (int, int),
    pub len: (int, int),
    pub crc: (int, int),
    pub end: int,
}

/// The header
/// `\{ \s* timestamp: \s* (\d+) \s* , \s* len: \s* (\d+) \s* , \s* crc: \s* (\d+) \s* , \s* data: \s* \{`
/// matched at position `i` of `s`. Each white-space run and each digit run
/// is followed by a character that cannot extend it, so the match at a
/// given position is unique.
pub open spec fn header_at(s: Seq<char>, i: int) -> Option<HeaderSpan> {
    if 0 <= i < s.len() && s[i] == '{' {
        match number_field(s, i + 1, timestamp_label()) {
            None => None,
            Some((t0, t1, p1)) => match number_field(s, p1, len_label()) {
                None => None,
                Some((l0, l1, p2)) => match number_field(s, p2, crc_label()) {
                    None => None,
                    Some((c0, c1, p3)) => {
                        let a = skip_white_space(s, p3);
                        let b = skip_white_space(s, a + 5);
                        if literal_at(s, a, data_label()) && b < s.len() && s[b] == '{' {
                            Some(
                                HeaderSpan {
                                    timestamp: (t0, t1),
                                    len: (l0, l1),
                                    crc: (c0, c1),
                                    end: b + 1,
                                },
                            )
                        } else {
                            None
                        }
                    },
                },
            },
        }
    } else {
        None
    }
}

/// The leftmost header in `s` at or after position `i`.
pub open spec fn find_header(s: Seq<char>, i: int) -> Option<HeaderSpan>
    decreases s.len() - i,
{
    if 0 <= i < s.len() {
        if header_at(s, i) is Some {
            header_at(s, i)
        } else {
            find_header(s, i + 1)
        }
    } else {
        None
    }
}


/// Positions of a header in a line, as found by [`find_header_in`].
pub struct Header {
    pub timestamp: (usize, usize),
    pub len: (usize, usize),
    pub crc: (usize, usize),
    pub end: usize,
}

impl Header {
    pub open spec fn span(self) -> HeaderSpan {
        HeaderSpan {
            timestamp: (self.timestamp.0 as int, self.timestamp.1 as int),
            len: (self.len.0 as int, self.len.1 as int),
            crc: (self.crc.0 as int, self.crc.1 as int),
            end: self.end as int,
        }
    }

    /// The digit runs are non-empty and all positions lie within a line of
    /// `n` characters.
    pub open spec fn within(self, n: int) -> bool {
        &&& self.timestamp.0 < self.timestamp.1 <= n
        &&& self.len.0 < self.len.1 <= n
        &&& self.crc.0 < self.crc.1 <= n
        &&& self.end <= n
    }
}

fn skip_white_space_in(s: &Vec<char>, i: usize) -> (j: usize)
    requires
        i <= s.len(),
    ensures
        j == skip_white_space(s@, i as int),
        i <= j <= s.len(),
{
    let mut j = i;
    while j < s.len() && white_space(s[j])
        invariant
            i <= j <= s.len(),
            skip_white_space(s@, i as int) == skip_white_space(s@, j as int),
        decreases s.len() - j,
    {
        j = j + 1;
    }
    j
}

fn skip_decimal_digits_in(s: &Vec<char>, i: usize) -> (j: usize)
    requires
        i <= s.len(),
    ensures
        j == skip_decimal_digits(s@, i as int),
        i <= j <= s.len(),
{
    let mut j = i;
    while j < s.len() && decimal_number(s[j])
        invariant
            i <= j <= s.len(),
            skip_decimal_digits(s@, i as int) == skip_decimal_digits(s@, j as int),
        decreases s.len() - j,
    {
        j = j + 1;
    }
    j
}

/// The characters of `s` without leading and trailing white space.
pub fn trim_chars(s: &Vec<char>) -> (t: Vec<char>)
    ensures
        t@ == trim(s@),
{
    let a = skip_white_space_in(s, 0);
    let mut b = s.len();
    while b > 0 && white_space(s[b - 1])
        invariant
            b <= s.len(),
            back_white_space(s@, s.len() as int) == back_white_space(s@, b as int),
        decreases b,
    {
        b = b - 1;
    }
    let mut t: Vec<char> = Vec::new();
    if a < b {
        let mut k = a;
        while k < b
            invariant
                a <= k <= b <= s.len(),
                t@ == s@.subrange(a as int, k as int),
            decreases b - k,
        {
            t.push(s[k]);
            k = k + 1;
        }
    }
    proof {
        if !(a < b) {
            assert(t@ =~= Seq::<char>::empty());
        }
    }
    t
}

fn literal_at_in(s: &Vec<char>, i: usize, lit: &[char]) -> (b: bool)
    ensures
        b == literal_at(s@, i as int, lit@),
{
    if i > s.len() || lit.len() > s.len() - i {
        return false;
    }
    let mut k: usize = 0;
    while k < lit.len()
        invariant
            i + lit.len() <= s.len(),
            k <= lit.len(),
            forall|m: int| 0 <= m < k ==> s@[i + m] == lit@[m],
        decreases lit.len() - k,
    {
        if s[i + k] != lit[k] {
            assert(s@.subrange(i as int, i + lit.len())[k as int] != lit@[k as int]);
            return false;
        }
        k = k + 1;
    }
    assert(s@.subrange(i as int, i + lit.len()) =~= lit@);
    true
}

fn number_field_in(s: &Vec<char>, i: usize, label: &[char]) -> (r: Option<(usize, usize, usize)>)
    requires
        i <= s.len(),
    ensures
        match r {
            Some((d0, d1, p)) => number_field(s@, i as int, label@) == Some(
                (d0 as int, d1 as int, p as int),
            ) && d0 < d1 < p <= s.len(),
            None => number_field(s@, i as int, label@) is None,
        },
{
    let a = skip_white_space_in(s, i);
    if !literal_at_in(s, a, label) {
        return None;
    }
    let d0 = skip_white_space_in(s, a + label.len());
    let d1 = skip_decimal_digits_in(s, d0);
    let c = skip_white_space_in(s, d1);
    if d0 < d1 && c < s.len() && s[c] == ',' {
        Some((d0, d1, c + 1))
    } else {
        None
    }
}

fn header_at_in(s: &Vec<char>, i: usize) -> (r: Option<Header>)
    requires
        i < s.len(),
    ensures
        match r {
            Some(h) => header_at(s@, i as int) == Some(h.span()) && h.within(s.len() as int),
            None => header_at(s@, i as int) is None,
        },
{
    if s[i] != '{' {
        return None;
    }
    let timestamp = ['t', 'i', 'm', 'e', 's', 't', 'a', 'm', 'p', ':'];
    let len = ['l', 'e', 'n', ':'];
    let crc = ['c', 'r', 'c', ':'];
    let data = ['d', 'a', 't', 'a', ':'];
    assert(timestamp@ =~= timestamp_label());
    assert(len@ =~= len_label());
    assert(crc@ =~= crc_label());
    assert(data@ =~= data_label());
    let (t0, t1, p1) = match number_field_in(s, i + 1, &timestamp) {
        Some(f) => f,
        None => return None,
    };
    let (l0, l1, p2) = match number_field_in(s, p1, &len) {
        Some(f) => f,
        None => return None,
    };
    let (c0, c1, p3) = match number_field_in(s, p2, &crc) {
        Some(f) => f,
        None => return None,
    };
    let a = skip_white_space_in(s, p3);
    if !literal_at_in(s, a, &data) {
        return None;
    }
    let b = skip_white_space_in(s, a + 5);
    if b < s.len() && s[b] == '{' {
        Some(Header { timestamp: (t0, t1), len: (l0, l1), crc: (c0, c1), end: b + 1 })
    } else {
        None
    }
}

/// The leftmost header in `s`.
pub fn find_header_in(s: &Vec<char>) -> (r: Option<Header>)
    ensures
        match r {
            Some(h) => find_header(s@, 0) == Some(h.span()) && h.within(s.len() as int),
            None => find_header(s@, 0) is None,
        },
{
    let mut i: usize = 0;
    while i < s.len()
        invariant
            i <= s.len(),
            find_header(s@, 0) == find_header(s@, i as int),
        decreases s.len() - i,
    {
        match header_at_in(s, i) {
            Some(h) => {
                return Some(h);
            },
            None => {},
        }
        i = i + 1;
    }
    None
}

} // verus!
