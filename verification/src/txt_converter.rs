use vstd::prelude::*;
use vstd::utf8::{encode_scalar, encode_utf8, char_is_scalar};
use crate::crc::{crc32, crc32_spec};
use crate::encoding::{
    utf8_len, is_char_boundary_of, lemma_encode_concat, lemma_scalar_len, lemma_encode_split,
    lemma_utf8_len_step, lemma_utf8_len_monotonic, char_utf8_len,
};
use crate::payload::{base64_encode, encode_standard};
use crate::record::{trim, find_header, HeaderSpan, chars_of, trim_chars, find_header_in};
use crate::unicode::is_ascii_digit;

verus! {

/* The numbers of a header */

/// The decimal value of a run of ASCII digits.
pub open spec fn digits_value(s: Seq<char>) -> nat
    decreases s.len(),
{
    if s.len() == 0 {
        0
    } else {
        digits_value(s.drop_last()) * 10 + (((s.last() as u32) as int - 48) as nat)
    }
}

pub open spec fn all_ascii_digits(s: Seq<char>) -> bool {
    forall|i: int| 0 <= i < s.len() ==> is_ascii_digit(#[trigger] s[i])
}

/// What `str::parse::<u64>` gives for a run of decimal digits, with 0 where
/// it fails: where a digit is not ASCII, or the value exceeds `u64::MAX`.
pub open spec fn number_or_zero(s: Seq<char>) -> u64 {
    if 0 < s.len() && all_ascii_digits(s) && digits_value(s) <= u64::MAX {
        digits_value(s) as u64
    } else {
        0
    }
}

proof fn lemma_digits_value_prefix(d: Seq<char>, i: int)
    requires
        0 <= i <= d.len(),
    ensures
        digits_value(d.take(i)) <= digits_value(d),
    decreases d.len(),
{
    if i < d.len() {
        lemma_digits_value_prefix(d.drop_last(), i);
        assert(d.drop_last().take(i) =~= d.take(i));
    } else {
        assert(d.take(i) =~= d);
    }
}

fn digits_to_u64(s: &Vec<char>, from: usize, to: usize) -> (v: u64)
    requires
        from < to <= s.len(),
    ensures
        v == number_or_zero(s@.subrange(from as int, to as int)),
{
    let ghost d = s@.subrange(from as int, to as int);
    let mut k = from;
    while k < to
        invariant
            from <= k <= to <= s.len(),
            d == s@.subrange(from as int, to as int),
            forall|m: int| 0 <= m < k - from ==> is_ascii_digit(#[trigger] d[m]),
        decreases to - k,
    {
        let c = s[k] as u32;
        assert(d[k - from] == s@[k as int]);
        if !(48 <= c && c <= 57) {
            assert(!is_ascii_digit(d[k - from]));
            return 0;
        }
        k = k + 1;
    }
    assert(all_ascii_digits(d));
    let mut acc: u64 = 0;
    k = from;
    assert(d.take(0) =~= Seq::<char>::empty());
    while k < to
        invariant
            from <= k <= to <= s.len(),
            d == s@.subrange(from as int, to as int),
            all_ascii_digits(d),
            acc == digits_value(d.take(k - from)),
        decreases to - k,
    {
        assert(is_ascii_digit(d[k - from]));
        let c = s[k] as u32;
        let digit = (c - 48) as u64;
        let ghost next = d.take(k - from + 1);
        assert(next.drop_last() =~= d.take(k - from));
        assert(next.last() == s@[k as int]);
        assert(digits_value(next) == acc * 10 + digit);
        match acc.checked_mul(10) {
            None => {
                proof {
                    lemma_digits_value_prefix(d, k - from + 1);
                }
                return 0;
            },
            Some(m) => match m.checked_add(digit) {
                None => {
                    proof {
                        lemma_digits_value_prefix(d, k - from + 1);
                    }
                    return 0;
                },
                Some(n) => {
                    acc = n;
                },
            },
        }
        k = k + 1;
    }
    assert(d.take(to - from) =~= d);
    acc
}

/* The payload of a message */

/// Appends the UTF-8 encoding of `c`.
fn push_utf8(c: char, out: &mut Vec<u8>)
    ensures
        final(out)@ == old(out)@ + encode_scalar(c as u32),
{
    let v = c as u32;
    proof {
        char_is_scalar(c);
    }
    if v <= 0x7F {
        out.push((v & 0x7F) as u8);
    } else if v <= 0x7FF {
        out.push(0xC0 | ((v >> 6) & 0x1F) as u8);
        out.push(0x80 | (v & 0x3F) as u8);
    } else if v <= 0xFFFF {
        out.push(0xE0 | ((v >> 12) & 0x0F) as u8);
        out.push(0x80 | ((v >> 6) & 0x3F) as u8);
        out.push(0x80 | (v & 0x3F) as u8);
    } else {
        out.push(0xF0 | ((v >> 18) & 0x7) as u8);
        out.push(0x80 | ((v >> 12) & 0x3F) as u8);
        out.push(0x80 | ((v >> 6) & 0x3F) as u8);
        out.push(0x80 | (v & 0x3F) as u8);
    }
    assert(final(out)@ =~= old(out)@ + encode_scalar(c as u32));
}

/// How many bytes of the line after `data: {` form the payload: the `len`
/// of the header (as a `usize`), or all that is left where fewer remain.
pub open spec fn payload_len(t: Seq<char>, h: HeaderSpan) -> int {
    let left = utf8_len(t.skip(h.end));
    let wanted = (number_or_zero(t.subrange(h.len.0, h.len.1)) as usize) as int;
    if wanted < left {
        wanted
    } else {
        left
    }
}

/// The payload of a message: the first [`payload_len`] bytes of the
/// trimmed line after `data: {`.
pub open spec fn payload(t: Seq<char>, h: HeaderSpan) -> Seq<u8> {
    encode_utf8(t.skip(h.end)).take(payload_len(t, h))
}


/* Messages */

/// The content of one message of a converted file.
pub struct MessageView {
    pub timestamp: u64,
    pub len: u64,
    pub crc: u64,
    pub crc_valid: bool,
    pub data: Seq<char>,
}

/// One message of a converted file: the three numbers of its header,
/// whether the CRC-32 of its payload equals the `crc` of the header, and
/// the payload in base64.
#[derive(Debug)]
pub struct Message {
    pub timestamp: u64,
    pub len: u64,
    pub crc: u64,
    pub crc_valid: bool,
    pub data: String,
}

impl View for Message {
    type V = MessageView;

    open spec fn view(&self) -> MessageView {
        MessageView {
            timestamp: self.timestamp,
            len: self.len,
            crc: self.crc,
            crc_valid: self.crc_valid,
            data: self.data@,
        }
    }
}

/// The message of the trimmed line `t` whose header lies at `h`.
pub open spec fn message_of(t: Seq<char>, h: HeaderSpan) -> MessageView {
    let crc = number_or_zero(t.subrange(h.crc.0, h.crc.1));
    let p = payload(t, h);
    MessageView {
        timestamp: number_or_zero(t.subrange(h.timestamp.0, h.timestamp.1)),
        len: number_or_zero(t.subrange(h.len.0, h.len.1)),
        crc: crc,
        crc_valid: crc32_spec(p) as u64 == crc,
        data: base64_encode(p),
    }
}

/// The message that a line records: the line is trimmed, its leftmost
/// header is taken, and lines without one record none.
pub open spec fn line_message(line: Seq<char>) -> Option<MessageView> {
    let t = trim(line);
    match find_header(t, 0) {
        None => None,
        Some(h) => Some(message_of(t, h)),
    }
}

/// Cutting the payload out of the line ends at a character boundary. A
/// cut inside a character is where the payload cannot be taken as text.
pub open spec fn line_cuts_cleanly(line: Seq<char>) -> bool {
    let t = trim(line);
    match find_header(t, 0) {
        None => true,
        Some(h) => is_char_boundary_of(t.skip(h.end), payload_len(t, h)),
    }
}

proof fn lemma_subrange_utf8_len(s: Seq<char>, i: int, j: int)
    requires
        0 <= i <= j <= s.len(),
    ensures
        utf8_len(s.subrange(i, j)) <= utf8_len(s),
{
    lemma_encode_split(s, i, j);
}

proof fn lemma_trim_utf8_len(s: Seq<char>)
    ensures
        utf8_len(trim(s)) <= utf8_len(s),
{
    let t = trim(s);
    if t.len() == 0 {
        assert(encode_utf8(t) =~= Seq::<u8>::empty());
    } else {
        let a = crate::record::skip_white_space(s, 0);
        let b = crate::record::back_white_space(s, s.len() as int);
        lemma_skip_bounds(s, 0);
        lemma_back_bounds(s, s.len() as int);
        lemma_subrange_utf8_len(s, a, b);
    }
}

proof fn lemma_skip_bounds(s: Seq<char>, i: int)
    requires
        0 <= i <= s.len(),
    ensures
        i <= crate::record::skip_white_space(s, i) <= s.len(),
    decreases s.len() - i,
{
    if i < s.len() && crate::unicode::is_white_space(s[i]) {
        lemma_skip_bounds(s, i + 1);
    }
}

proof fn lemma_back_bounds(s: Seq<char>, j: int)
    requires
        0 <= j <= s.len(),
    ensures
        0 <= crate::record::back_white_space(s, j) <= j,
    decreases j,
{
    if 0 < j && crate::unicode::is_white_space(s[j - 1]) {
        lemma_back_bounds(s, j - 1);
    }
}

/// The message recorded by `line`, if any.
pub fn convert_line(line: &str) -> (message: Option<Message>)
    requires
        utf8_len(line@) <= usize::MAX / 2,
        line_cuts_cleanly(line@),
    ensures
        match message {
            Some(m) => line_message(line@) == Some(m@),
            None => line_message(line@) is None,
        },
{
    let chars = chars_of(line);
    let t = trim_chars(&chars);
    if t.len() == 0 {
        return None;
    }
    let h = match find_header_in(&t) {
        Some(h) => h,
        None => return None,
    };
    let timestamp = digits_to_u64(&t, h.timestamp.0, h.timestamp.1);
    let len = digits_to_u64(&t, h.len.0, h.len.1);
    let crc = digits_to_u64(&t, h.crc.0, h.crc.1);

    let mut bytes: Vec<u8> = Vec::new();
    let mut k = h.end;
    assert(t@.subrange(h.end as int, h.end as int) =~= Seq::<char>::empty());
    assert(encode_utf8(Seq::<char>::empty()) =~= Seq::<u8>::empty());
    while k < t.len()
        invariant
            h.end <= k <= t.len(),
            bytes@ == encode_utf8(t@.subrange(h.end as int, k as int)),
        decreases t.len() - k,
    {
        let ghost before = t@.subrange(h.end as int, k as int);
        push_utf8(t[k], &mut bytes);
        proof {
            assert(t@.subrange(h.end as int, k + 1) =~= before + seq![t@[k as int]]);
            lemma_encode_concat(before, seq![t@[k as int]]);
            lemma_scalar_len(t@[k as int]);
        }
        k = k + 1;
    }
    assert(t@.subrange(h.end as int, t.len() as int) =~= t@.skip(h.end as int));
    let wanted = len as usize;
    let take = if wanted < bytes.len() {
        wanted
    } else {
        bytes.len()
    };
    bytes.truncate(take);
    proof {
        lemma_trim_utf8_len(line@);
        lemma_subrange_utf8_len(t@, h.end as int, t@.len() as int);
    }
    let computed = crc32(bytes.as_slice()) as u64;
    let data = encode_standard(bytes.as_slice());
    Some(Message { timestamp, len, crc, crc_valid: computed == crc, data })
}


/// The payload is exactly `len` bytes of what follows `data: {` in the
/// trimmed line, or all of it where fewer remain: the message's data is its
/// base64, and its CRC is checked over exactly those bytes.
pub proof fn lemma_payload_is_len_bytes(line: Seq<char>)
    requires
        find_header(trim(line), 0) is Some,
    ensures
        ({
            let t = trim(line);
            let h = find_header(t, 0)->0;
            let rest = encode_utf8(t.skip(h.end));
            let len = number_or_zero(t.subrange(h.len.0, h.len.1));
            let n = (len as usize) as int;
            let p = if n <= rest.len() {
                rest.take(n)
            } else {
                rest
            };
            &&& line_message(line) is Some
            &&& line_message(line)->0.len == len
            &&& n <= rest.len() ==> p.len() == n
            &&& line_message(line)->0.data == base64_encode(p)
            &&& line_message(line)->0.crc_valid == (crc32_spec(p) as u64 == line_message(
                line,
            )->0.crc)
        }),
{
    let t = trim(line);
    let h = find_header(t, 0)->0;
    let rest = encode_utf8(t.skip(h.end));
    let n = (number_or_zero(t.subrange(h.len.0, h.len.1)) as usize) as int;
    if n > rest.len() {
        assert(rest.take(rest.len() as int) =~= rest);
    }
}

/// The three numbers of a message are those written in its header: the
/// digits after `timestamp:`, after `len:` and after `crc:`, each read as a
/// `u64` (0 where it does not fit).
pub proof fn lemma_message_numbers_from_header(line: Seq<char>)
    requires
        find_header(trim(line), 0) is Some,
    ensures
        ({
            let t = trim(line);
            let h = find_header(t, 0)->0;
            &&& line_message(line) is Some
            &&& line_message(line)->0.timestamp == number_or_zero(
                t.subrange(h.timestamp.0, h.timestamp.1),
            )
            &&& line_message(line)->0.len == number_or_zero(t.subrange(h.len.0, h.len.1))
            &&& line_message(line)->0.crc == number_or_zero(t.subrange(h.crc.0, h.crc.1))
        }),
{
}

/// Whether cutting the payload out of `line` ends at a character boundary;
/// [`convert_line`] asks this of its line.
pub fn cuts_cleanly(line: &str) -> (clean: bool)
    requires
        utf8_len(line@) <= usize::MAX / 2,
    ensures
        clean == line_cuts_cleanly(line@),
{
    let chars = chars_of(line);
    let t = trim_chars(&chars);
    let h = match find_header_in(&t) {
        Some(h) => h,
        None => return true,
    };
    let len = digits_to_u64(&t, h.len.0, h.len.1);
    let ghost rest = t@.skip(h.end as int);
    proof {
        lemma_trim_utf8_len(line@);
        lemma_subrange_utf8_len(t@, h.end as int, t@.len() as int);
        assert(t@.subrange(h.end as int, t@.len() as int) =~= rest);
    }
    // the number of bytes after the header
    let mut left: usize = 0;
    let mut k = h.end;
    assert(rest.take(0) =~= Seq::<char>::empty());
    assert(encode_utf8(Seq::<char>::empty()) =~= Seq::<u8>::empty());
    while k < t.len()
        invariant
            h.end <= k <= t.len(),
            rest == t@.skip(h.end as int),
            left == utf8_len(rest.take(k - h.end)),
            utf8_len(rest) <= usize::MAX / 2,
        decreases t.len() - k,
    {
        proof {
            lemma_utf8_len_step(rest, k - h.end);
            lemma_utf8_len_monotonic(rest, k - h.end + 1, rest.len() as int);
            assert(rest.take(rest.len() as int) =~= rest);
            lemma_scalar_len(rest[k - h.end]);
        }
        assert(rest[k - h.end] == t@[k as int]);
        let n = char_utf8_len(t[k]);
        left = left + n;
        k = k + 1;
    }
    assert(rest.take(rest.len() as int) =~= rest);
    let wanted = len as usize;
    let take = if wanted < left {
        wanted
    } else {
        left
    };
    // walk the characters until the cut is reached or passed
    let mut upto: usize = 0;
    k = h.end;
    while k < t.len() && upto < take
        invariant
            h.end <= k <= t.len(),
            rest == t@.skip(h.end as int),
            upto == utf8_len(rest.take(k - h.end)),
            upto <= left,
            left == utf8_len(rest),
            take <= left,
            forall|m: int| 0 <= m < k - h.end ==> #[trigger] utf8_len(rest.take(m)) < take,
        decreases t.len() - k,
    {
        proof {
            lemma_utf8_len_step(rest, k - h.end);
            lemma_utf8_len_monotonic(rest, k - h.end + 1, rest.len() as int);
            assert(rest.take(rest.len() as int) =~= rest);
        }
        assert(rest[k - h.end] == t@[k as int]);
        let n = char_utf8_len(t[k]);
        upto = upto + n;
        k = k + 1;
    }
    proof {
        if upto == take {
            assert(utf8_len(rest.take(k - h.end)) == take);
        } else {
            assert(upto > take) by {
                if k == t.len() {
                    assert(rest.take(k - h.end) =~= rest);
                }
            }
            assert forall|m: int| 0 <= m <= rest.len() implies #[trigger] utf8_len(rest.take(m))
                != take by {
                if m >= k - h.end {
                    lemma_utf8_len_monotonic(rest, k - h.end, m);
                }
            }
        }
    }
    upto == take
}

/* Files */

/// The number of messages of a converted file, and how many of them carry
/// a CRC that matches their payload.
#[derive(Debug, Clone)]
pub struct CrcStats {
    pub total: usize,
    pub passed: usize,
    pub failed: usize,
}

impl CrcStats {
    /// Each message either passed or failed the check.
    pub open spec fn wf(self) -> bool {
        self.total == self.passed + self.failed
    }
}

/// The messages that `lines` record, in order.
pub open spec fn line_messages(lines: Seq<Seq<char>>) -> Seq<MessageView>
    decreases lines.len(),
{
    if lines.len() == 0 {
        Seq::empty()
    } else {
        let before = line_messages(lines.drop_last());
        match line_message(lines.last()) {
            Some(m) => before.push(m),
            None => before,
        }
    }
}

/// The number of messages whose CRC matches their payload.
pub open spec fn count_valid(messages: Seq<MessageView>) -> nat
    decreases messages.len(),
{
    if messages.len() == 0 {
        0
    } else {
        count_valid(messages.drop_last()) + if messages.last().crc_valid {
            1nat
        } else {
            0nat
        }
    }
}

/// Each line is converted on its own: the messages of two runs of lines
/// are the messages of the first run followed by those of the second, and
/// so are the counts of valid ones.
pub proof fn lemma_line_messages_concat(a: Seq<Seq<char>>, b: Seq<Seq<char>>)
    ensures
        line_messages(a + b) == line_messages(a) + line_messages(b),
        count_valid(line_messages(a + b)) == count_valid(line_messages(a)) + count_valid(
            line_messages(b),
        ),
    decreases b.len(),
{
    if b.len() == 0 {
        assert(a + b =~= a);
        assert(line_messages(a) + line_messages(b) =~= line_messages(a));
    } else {
        lemma_line_messages_concat(a, b.drop_last());
        assert((a + b).drop_last() =~= a + b.drop_last());
        assert((a + b).last() == b.last());
        match line_message(b.last()) {
            Some(m) => {
                assert(line_messages(a) + line_messages(b) =~= (line_messages(a) + line_messages(
                    b.drop_last(),
                )).push(m));
                lemma_count_valid_push(line_messages(a) + line_messages(b.drop_last()), m);
                lemma_count_valid_push(line_messages(b.drop_last()), m);
            },
            None => {},
        }
    }
}

/// Lines that record no message change nothing: inserting a run of them
/// between two runs of lines leaves the messages, and so the counts of the
/// converted file, as they were.
pub proof fn lemma_lines_without_message_change_nothing(
    a: Seq<Seq<char>>,
    extra: Seq<Seq<char>>,
    b: Seq<Seq<char>>,
)
    requires
        forall|i: int| 0 <= i < extra.len() ==> line_message(#[trigger] extra[i]) is None,
    ensures
        line_messages(a + extra + b) == line_messages(a + b),
        count_valid(line_messages(a + extra + b)) == count_valid(line_messages(a + b)),
{
    lemma_no_messages(extra);
    lemma_line_messages_concat(a, extra);
    lemma_line_messages_concat(a + extra, b);
    lemma_line_messages_concat(a, b);
    assert(line_messages(a) + line_messages(extra) =~= line_messages(a));
}

proof fn lemma_no_messages(lines: Seq<Seq<char>>)
    requires
        forall|i: int| 0 <= i < lines.len() ==> line_message(#[trigger] lines[i]) is None,
    ensures
        line_messages(lines) == Seq::<MessageView>::empty(),
    decreases lines.len(),
{
    if lines.len() > 0 {
        lemma_no_messages(lines.drop_last());
        assert(line_message(lines[lines.len() - 1]) is None);
    }
}

/// A line that is empty after trimming records no message.
pub proof fn lemma_blank_line_records_nothing(line: Seq<char>)
    requires
        trim(line).len() == 0,
    ensures
        line_message(line) is None,
{
}

proof fn lemma_count_valid_push(ms: Seq<MessageView>, m: MessageView)
    ensures
        count_valid(ms.push(m)) == count_valid(ms) + if m.crc_valid {
            1nat
        } else {
            0nat
        },
{
    assert(ms.push(m).drop_last() =~= ms);
}

/// The lines as character sequences.
pub open spec fn line_views(lines: Seq<String>) -> Seq<Seq<char>> {
    lines.map_values(|l: String| l@)
}

/// The messages as views.
pub open spec fn message_views(messages: Seq<Message>) -> Seq<MessageView> {
    messages.map_values(|m: Message| m@)
}

/// Each line can be converted: it fits the machine with room to spare,
/// and its payload ends at a character boundary.
pub open spec fn lines_convertible(lines: Seq<String>) -> bool {
    forall|i: int|
        0 <= i < lines.len() ==> utf8_len(#[trigger] lines[i]@) <= usize::MAX / 2
            && line_cuts_cleanly(lines[i]@)
}

proof fn lemma_count_valid_le(messages: Seq<MessageView>)
    ensures
        count_valid(messages) <= messages.len(),
    decreases messages.len(),
{
    if messages.len() > 0 {
        lemma_count_valid_le(messages.drop_last());
    }
}

/// Converts the lines of a recorded text file into its messages, and counts
/// how many of them pass the CRC check.
pub fn convert_lines(lines: &Vec<String>) -> (result: (Vec<Message>, CrcStats))
    requires
        lines_convertible(lines@),
    ensures
        message_views(result.0@) == line_messages(line_views(lines@)),
        result.1.wf(),
        result.1.total == result.0.len(),
        result.1.passed == count_valid(line_messages(line_views(lines@))),
{
    let mut messages: Vec<Message> = Vec::new();
    let mut stats = CrcStats { total: 0, passed: 0, failed: 0 };
    let mut i: usize = 0;
    while i < lines.len()
        invariant
            i <= lines.len(),
            lines_convertible(lines@),
            message_views(messages@) == line_messages(line_views(lines@.take(i as int))),
            stats.wf(),
            stats.total == messages.len(),
            stats.passed == count_valid(message_views(messages@)),
            messages.len() <= i,
        decreases lines.len() - i,
    {
        let line = lines[i].as_str();
        let ghost prefix = line_views(lines@.take(i + 1));
        assert(prefix.drop_last() =~= line_views(lines@.take(i as int)));
        assert(prefix.last() == lines@[i as int]@);
        let ghost before = message_views(messages@);
        match convert_line(line) {
            Some(m) => {
                proof {
                    lemma_count_valid_le(before);
                }
                let valid = m.crc_valid;
                messages.push(m);
                assert(message_views(messages@) =~= before.push(messages@.last()@));
                assert(message_views(messages@).drop_last() =~= before);
                stats.total = stats.total + 1;
                if valid {
                    stats.passed = stats.passed + 1;
                } else {
                    stats.failed = stats.failed + 1;
                }
            },
            None => {},
        }
        i = i + 1;
    }
    assert(lines@.take(lines.len() as int) =~= lines@);
    (messages, stats)
}

} // verus!
