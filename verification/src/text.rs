use vstd::prelude::*;
use vstd::string::StringExecFns;
use crate::encoding::{utf8_len, is_char_boundary_of, char_utf8_len, lemma_utf8_len_step, lemma_utf8_len_monotonic};
use crate::record::chars_of;

verus! {

/// `String::push` appends one character.
pub assume_specification[ String::push ](s: &mut String, ch: char)
    ensures
        final(s)@ == old(s)@.push(ch),
;

/// The decimal digit character for `d < 10`.
pub open spec fn digit_char(d: nat) -> char {
    (48 + d) as char
}

/// The decimal representation of `n`, without leading zeros.
pub open spec fn decimal_text(n: nat) -> Seq<char>
    decreases n,
{
    if n < 10 {
        seq![digit_char(n)]
    } else {
        decimal_text(n / 10).push(digit_char(n % 10))
    }
}

/// The decimal representation of `n`, as `format!("{}", n)` writes it.
pub fn decimal(n: usize) -> (text: String)
    ensures
        text@ == decimal_text(n as nat),
{
    // the digits, least significant first
    let mut digits: Vec<char> = Vec::new();
    let mut m = n;
    assert(digits@.reverse() =~= Seq::<char>::empty());
    assert(decimal_text(n as nat) =~= decimal_text(m as nat) + digits@.reverse());
    while m >= 10
        invariant
            decimal_text(n as nat) == decimal_text(m as nat) + digits@.reverse(),
        decreases m,
    {
        let d = (m % 10) as u32;
        let c = ((48 + d) as u8) as char;
        assert(c == digit_char((m % 10) as nat)) by {
            assert(((48 + d) as u8) as char == ((48 + d) as u32) as char);
        }
        assert(decimal_text(m as nat) == decimal_text((m / 10) as nat).push(c));
        let ghost before = digits@;
        digits.push(c);
        assert(digits@.reverse() =~= seq![c] + before.reverse());
        assert(decimal_text((m / 10) as nat).push(c) + before.reverse()
            =~= decimal_text((m / 10) as nat) + digits@.reverse());
        m = m / 10;
    }
    let d = m as u32;
    let c = ((48 + d) as u8) as char;
    assert(c == digit_char(m as nat)) by {
        assert(((48 + d) as u8) as char == ((48 + d) as u32) as char);
    }
    let ghost before = digits@;
    digits.push(c);
    assert(digits@.reverse() =~= seq![c] + before.reverse());
    assert(decimal_text(n as nat) =~= digits@.reverse());
    let mut text = String::new();
    let mut k = digits.len();
    while k > 0
        invariant
            k <= digits.len(),
            text@ == digits@.reverse().take(digits.len() - k),
        decreases k,
    {
        k = k - 1;
        let c = digits[k];
        text.push(c);
        assert(text@ =~= digits@.reverse().take(digits.len() - k));
    }
    assert(digits@.reverse().take(digits.len() as int) =~= digits@.reverse());
    text
}


/// The directory shown beside the button: a path of more than 50 bytes is
/// shown as `...` and its last 47 bytes, which must start a character.
pub fn path_label(path: &str) -> (label: String)
    requires
        utf8_len(path@) <= usize::MAX,
        utf8_len(path@) <= 50 || is_char_boundary_of(path@, utf8_len(path@) - 47),
    ensures
        utf8_len(path@) <= 50 ==> label@ == path@,
        utf8_len(path@) > 50 ==> exists|k: int|
            0 <= k <= path@.len() && #[trigger] utf8_len(path@.take(k)) == utf8_len(path@) - 47
                && label@ == seq!['.', '.', '.'] + path@.skip(k),
{
    let chars = chars_of(path);
    let ghost s = chars@;
    // the number of bytes of the path
    let mut n: usize = 0;
    let mut k: usize = 0;
    assert(s.take(0) =~= Seq::<char>::empty());
    assert(vstd::utf8::encode_utf8(Seq::<char>::empty()) =~= Seq::<u8>::empty());
    while k < chars.len()
        invariant
            s == chars@,
            k <= chars.len(),
            n == utf8_len(s.take(k as int)),
            utf8_len(s) <= usize::MAX,
        decreases chars.len() - k,
    {
        proof {
            lemma_utf8_len_step(s, k as int);
            lemma_utf8_len_monotonic(s, k + 1, s.len() as int);
            assert(s.take(s.len() as int) =~= s);
        }
        n = n + char_utf8_len(chars[k]);
        k = k + 1;
    }
    assert(s.take(s.len() as int) =~= s);
    if n <= 50 {
        return String::from_str(path);
    }
    // the first character of the last 47 bytes
    let cut = n - 47;
    let mut upto: usize = 0;
    k = 0;
    while upto < cut
        invariant
            s == chars@,
            k <= chars.len(),
            upto == utf8_len(s.take(k as int)),
            n == utf8_len(s),
            cut == n - 47,
            upto <= cut,
            is_char_boundary_of(s, cut as int),
            forall|m: int| 0 <= m < k ==> #[trigger] utf8_len(s.take(m)) < cut,
        decreases cut - upto,
    {
        proof {
            if k == chars.len() {
                assert(s.take(k as int) =~= s);
            }
            lemma_utf8_len_step(s, k as int);
            let w = choose|w: int| 0 <= w <= s.len() && #[trigger] utf8_len(s.take(w)) == cut;
            if w <= k {
                if w < k {
                    assert(utf8_len(s.take(w)) < cut);
                }
            } else {
                lemma_utf8_len_monotonic(s, k + 1, w);
            }
        }
        upto = upto + char_utf8_len(chars[k]);
        k = k + 1;
    }
    let mut label = String::from_str("...");
    let mut j = k;
    assert(label@ =~= seq!['.', '.', '.'] + s.subrange(k as int, j as int)) by {
        reveal_strlit("...");
    }
    while j < chars.len()
        invariant
            s == chars@,
            k <= j <= chars.len(),
            label@ == seq!['.', '.', '.'] + s.subrange(k as int, j as int),
        decreases chars.len() - j,
    {
        label.push(chars[j]);
        assert(label@ =~= seq!['.', '.', '.'] + s.subrange(k as int, j + 1));
        j = j + 1;
    }
    assert(s.subrange(k as int, s.len() as int) =~= s.skip(k as int));
    label
}

} // verus!
