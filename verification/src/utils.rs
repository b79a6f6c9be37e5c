//! Text utilities shared by the decoders: title normalization,
//! character/string conversions, and decimal parsing and rendering.

use vstd::prelude::*;
use vstd::string::*;

verus! {

// ---------------------------------------------------------------------------
// Title normalization
// ---------------------------------------------------------------------------

/// How one raw title character is rewritten: underscores become spaces,
/// backslashes are dropped, double quotes are escaped as `\"`, and every
/// other character is kept as it is.
pub open spec fn clean_char(c: char) -> Seq<char> {
    if c == '_' {
        seq![' ']
    } else if c == '\\' {
        seq![]
    } else if c == '"' {
        seq!['\\', '"']
    } else {
        seq![c]
    }
}

/// The normalized form of a raw title: each character rewritten by
/// `clean_char`, in order.
pub open spec fn clean_title_spec(s: Seq<char>) -> Seq<char>
    decreases s.len(),
{
    if s.len() == 0 {
        seq![]
    } else {
        clean_title_spec(s.drop_last()) + clean_char(s.last())
    }
}

/// Collect the characters of a string slice into a vector.
pub fn string_to_chars(s: &str) -> (r: Vec<char>)
    ensures
        r@ == s@,
{
    let n = s.unicode_len();
    let mut r: Vec<char> = Vec::new();
    let mut i: usize = 0;
    while i < n
        invariant
            i <= n,
            n == s@.len(),
            r@ == s@.subrange(0, i as int),
        decreases n - i,
    {
        r.push(s.get_char(i));
        proof {
            assert(r@ =~= s@.subrange(0, (i + 1) as int));
        }
        i += 1;
    }
    proof {
        assert(r@ =~= s@);
    }
    r
}

/// Relies on `String: FromIterator<char>` (through `Iterator::collect`):
/// the resulting string holds exactly the given characters, in order.
#[verifier::external_body]
pub(crate) fn chars_to_string(v: &[char]) -> (r: String)
    ensures
        r@ == v@,
{
    v.iter().collect()
}

/// Clean a page title up: spaces for underscores, backslashes dropped,
/// double quotes escaped.
pub fn clean_title(title: &String) -> (r: String)
    ensures
        r@ == clean_title_spec(title@),
{
    let chars = string_to_chars(title.as_str());
    let mut out: Vec<char> = Vec::new();
    let mut i: usize = 0;
    while i < chars.len()
        invariant
            i <= chars.len(),
            chars@ == title@,
            out@ == clean_title_spec(title@.subrange(0, i as int)),
        decreases chars.len() - i,
    {
        let c = chars[i];
        if c == '_' {
            out.push(' ');
        } else if c == '\\' {
        } else if c == '"' {
            out.push('\\');
            out.push('"');
        } else {
            out.push(c);
        }
        proof {
            assert(title@.subrange(0, (i + 1) as int).drop_last() =~= title@.subrange(
                0,
                i as int,
            ));
            assert(out@ =~= clean_title_spec(title@.subrange(0, (i + 1) as int)));
        }
        i += 1;
    }
    proof {
        assert(title@.subrange(0, title@.len() as int) =~= title@);
    }
    chars_to_string(out.as_slice())
}

/// Append the characters of a string slice to a character vector.
pub fn push_chars(dst: &mut Vec<char>, src: &str)
    ensures
        final(dst)@ == old(dst)@ + src@,
{
    let n = src.unicode_len();
    let mut i: usize = 0;
    while i < n
        invariant
            i <= n,
            n == src@.len(),
            dst@ == old(dst)@ + src@.subrange(0, i as int),
        decreases n - i,
    {
        dst.push(src.get_char(i));
        proof {
            assert(dst@ =~= old(dst)@ + src@.subrange(0, (i + 1) as int));
        }
        i += 1;
    }
    proof {
        assert(src@.subrange(0, src@.len() as int) =~= src@);
    }
}

/// Append one character vector to another.
pub fn push_char_vec(dst: &mut Vec<char>, src: &Vec<char>)
    ensures
        final(dst)@ == old(dst)@ + src@,
{
    let mut i: usize = 0;
    while i < src.len()
        invariant
            i <= src.len(),
            dst@ == old(dst)@ + src@.subrange(0, i as int),
        decreases src.len() - i,
    {
        dst.push(src[i]);
        proof {
            assert(dst@ =~= old(dst)@ + src@.subrange(0, (i + 1) as int));
        }
        i += 1;
    }
    proof {
        assert(src@.subrange(0, src@.len() as int) =~= src@);
    }
}

/// Normalization rewrites each character independently: it distributes
/// over concatenation.
pub proof fn lemma_clean_title_append(u: Seq<char>, v: Seq<char>)
    ensures
        clean_title_spec(u + v) == clean_title_spec(u) + clean_title_spec(v),
    decreases v.len(),
{
    if v.len() == 0 {
        assert(u + v =~= u);
        assert(clean_title_spec(v) =~= Seq::<char>::empty());
        assert(clean_title_spec(u) + clean_title_spec(v) =~= clean_title_spec(u));
    } else {
        lemma_clean_title_append(u, v.drop_last());
        assert((u + v).drop_last() =~= u + v.drop_last());
        assert((u + v).last() == v.last());
        assert(clean_title_spec(u) + (clean_title_spec(v.drop_last()) + clean_char(v.last()))
            =~= (clean_title_spec(u) + clean_title_spec(v.drop_last())) + clean_char(v.last()));
    }
}

/// Escape handling in titles: a backslash is dropped, and the character
/// after it stands only for itself. In particular an escaped quote
/// decodes to a literal quote in the title.
pub proof fn lemma_escaped_char_in_title(u: Seq<char>, c: char, v: Seq<char>)
    ensures
        clean_title_spec(u + seq!['\\', c] + v) == clean_title_spec(u) + clean_char(c)
            + clean_title_spec(v),
        c == '\'' ==> clean_title_spec(u + seq!['\\', c] + v) == clean_title_spec(u) + seq!['\'']
            + clean_title_spec(v),
{
    lemma_clean_title_append(u + seq!['\\', c], v);
    lemma_clean_title_append(u, seq!['\\', c]);
    assert((u + seq!['\\', c]) + v =~= u + seq!['\\', c] + v);
    let bc = seq!['\\', c];
    assert(bc.drop_last() =~= seq!['\\']);
    assert(bc.last() == c);
    let bs = seq!['\\'];
    assert(bs.drop_last() =~= Seq::<char>::empty());
    assert(bs.last() == '\\');
    assert(clean_title_spec(Seq::<char>::empty()) == Seq::<char>::empty());
    assert(clean_char('\\') =~= Seq::<char>::empty());
    assert(clean_title_spec(bs) == clean_title_spec(bs.drop_last()) + clean_char(bs.last()));
    assert(clean_title_spec(bs) =~= Seq::<char>::empty());
    assert(clean_title_spec(bc) =~= clean_char(c));
    if c == '\'' {
        assert(clean_char(c) =~= seq!['\'']);
    }
}

// ---------------------------------------------------------------------------
// Whitespace trimming
// ---------------------------------------------------------------------------

/// The whitespace characters stripped from the ends of a triple line.
pub open spec fn is_wspace(c: char) -> bool {
    c == ' ' || c == '\t' || c == '\n' || c == '\r'
}

/// A line with leading and trailing whitespace removed.
pub open spec fn trim_spec(s: Seq<char>) -> Seq<char>
    decreases s.len(),
{
    if s.len() == 0 {
        s
    } else if is_wspace(s[0]) {
        trim_spec(s.drop_first())
    } else if is_wspace(s.last()) {
        trim_spec(s.drop_last())
    } else {
        s
    }
}

fn is_wspace_char(c: char) -> (r: bool)
    ensures
        r == is_wspace(c),
{
    c == ' ' || c == '\t' || c == '\n' || c == '\r'
}

/// Strip leading and trailing whitespace from a character vector.
pub fn trim_chars(s: &Vec<char>) -> (r: Vec<char>)
    ensures
        r@ == trim_spec(s@),
{
    proof {
        assert(s@.subrange(0, s@.len() as int) =~= s@);
    }
    let mut lo: usize = 0;
    while lo < s.len() && is_wspace_char(s[lo])
        invariant
            lo <= s.len(),
            trim_spec(s@) == trim_spec(s@.subrange(lo as int, s@.len() as int)),
        decreases s.len() - lo,
    {
        proof {
            let t = s@.subrange(lo as int, s@.len() as int);
            assert(t.drop_first() =~= s@.subrange((lo + 1) as int, s@.len() as int));
        }
        lo += 1;
    }
    if lo == s.len() {
        proof {
            assert(s@.subrange(lo as int, s@.len() as int).len() == 0);
        }
        return Vec::new();
    }
    let mut hi: usize = s.len();
    while hi > lo + 1 && is_wspace_char(s[hi - 1])
        invariant
            lo < hi <= s.len(),
            !is_wspace(s@[lo as int]),
            trim_spec(s@) == trim_spec(s@.subrange(lo as int, hi as int)),
        decreases hi,
    {
        proof {
            let t = s@.subrange(lo as int, hi as int);
            assert(t[0] == s@[lo as int]);
            assert(t.last() == s@[hi - 1]);
            assert(t.drop_last() =~= s@.subrange(lo as int, (hi - 1) as int));
        }
        hi -= 1;
    }
    let mut out: Vec<char> = Vec::new();
    let mut k: usize = lo;
    while k < hi
        invariant
            lo <= k <= hi <= s.len(),
            out@ == s@.subrange(lo as int, k as int),
        decreases hi - k,
    {
        out.push(s[k]);
        proof {
            assert(out@ =~= s@.subrange(lo as int, (k + 1) as int));
        }
        k += 1;
    }
    proof {
        let t = s@.subrange(lo as int, hi as int);
        assert(t[0] == s@[lo as int]);
        assert(!is_wspace(t[0]));
        if !is_wspace(t.last()) {
            assert(trim_spec(t) == t);
        }
    }
    out
}

// ---------------------------------------------------------------------------
// Decimal numbers: parsing and rendering
// ---------------------------------------------------------------------------

pub open spec fn is_digit(c: char) -> bool {
    '0' <= c && c <= '9'
}

/// Numeric value of one decimal digit character.
pub open spec fn digit_val(c: char) -> nat {
    ((c as u32) - ('0' as u32)) as nat
}

pub open spec fn all_digits(s: Seq<char>) -> bool {
    forall|i: int| 0 <= i < s.len() ==> is_digit(#[trigger] s[i])
}

/// The number denoted by a sequence of decimal digit characters.
pub open spec fn digits_val(s: Seq<char>) -> nat
    decreases s.len(),
{
    if s.len() == 0 {
        0
    } else {
        digits_val(s.drop_last()) * 10 + digit_val(s.last())
    }
}

/// What parsing a field as an unsigned 64-bit integer yields: the field
/// must be a non-empty run of decimal digits whose value fits.
pub open spec fn parse_u64_spec(s: Seq<char>) -> Option<u64> {
    if s.len() > 0 && all_digits(s) && digits_val(s) <= u64::MAX {
        Some(digits_val(s) as u64)
    } else {
        None
    }
}

/// What parsing a field as an unsigned 32-bit integer yields.
pub open spec fn parse_u32_spec(s: Seq<char>) -> Option<u32> {
    if s.len() > 0 && all_digits(s) && digits_val(s) <= u32::MAX {
        Some(digits_val(s) as u32)
    } else {
        None
    }
}

/// A longer digit run never denotes a smaller number.
proof fn lemma_digits_val_prefix_le(s: Seq<char>, i: int, j: int)
    requires
        0 <= i <= j <= s.len(),
    ensures
        digits_val(s.subrange(0, i)) <= digits_val(s.subrange(0, j)),
    decreases j - i,
{
    if i < j {
        lemma_digits_val_prefix_le(s, i, j - 1);
        assert(s.subrange(0, j).drop_last() =~= s.subrange(0, j - 1));
    }
}

/// Parse a non-empty all-digit string as a `u64`; `None` on any other
/// input, including one whose value does not fit.
pub fn parse_u64(s: &String) -> (r: Option<u64>)
    ensures
        r == parse_u64_spec(s@),
{
    let chars = string_to_chars(s.as_str());
    if chars.len() == 0 {
        return None;
    }
    let mut acc: u64 = 0;
    let mut i: usize = 0;
    while i < chars.len()
        invariant
            0 < chars.len(),
            i <= chars.len(),
            chars@ == s@,
            all_digits(s@.subrange(0, i as int)),
            acc as nat == digits_val(s@.subrange(0, i as int)),
        decreases chars.len() - i,
    {
        let c = chars[i];
        if c < '0' || c > '9' {
            return None;
        }
        let d: u64 = (c as u32 - '0' as u32) as u64;
        proof {
            assert(s@.subrange(0, (i + 1) as int).drop_last() =~= s@.subrange(0, i as int));
            assert(s@.subrange(0, (i + 1) as int).last() == s@[i as int]);
        }
        let next = match acc.checked_mul(10) {
            Some(x) => x.checked_add(d),
            None => None,
        };
        match next {
            Some(x) => {
                acc = x;
            },
            None => {
                proof {
                    assert(digits_val(s@.subrange(0, (i + 1) as int)) > u64::MAX);
                    lemma_digits_val_prefix_le(s@, (i + 1) as int, s@.len() as int);
                    assert(s@.subrange(0, s@.len() as int) =~= s@);
                }
                return None;
            },
        }
        i += 1;
    }
    proof {
        assert(s@.subrange(0, s@.len() as int) =~= s@);
    }
    Some(acc)
}

/// Parse a non-empty all-digit string as a `u32`.
pub fn parse_u32(s: &String) -> (r: Option<u32>)
    ensures
        r == parse_u32_spec(s@),
{
    match parse_u64(s) {
        Some(v) => {
            if v <= u32::MAX as u64 {
                Some(v as u32)
            } else {
                None
            }
        },
        None => None,
    }
}

/// The decimal digit character for one digit value.
pub open spec fn digit_char(d: nat) -> char {
    if d == 0 {
        '0'
    } else if d == 1 {
        '1'
    } else if d == 2 {
        '2'
    } else if d == 3 {
        '3'
    } else if d == 4 {
        '4'
    } else if d == 5 {
        '5'
    } else if d == 6 {
        '6'
    } else if d == 7 {
        '7'
    } else if d == 8 {
        '8'
    } else {
        '9'
    }
}

/// The decimal rendering of a number: most significant digit first, no
/// leading zeros (a single `'0'` for zero).
pub open spec fn dec_rep(n: nat) -> Seq<char>
    decreases n,
{
    if n < 10 {
        seq![digit_char(n)]
    } else {
        dec_rep(n / 10).push(digit_char(n % 10))
    }
}

/// A sequence backwards.
pub open spec fn rev_seq(s: Seq<char>) -> Seq<char>
    decreases s.len(),
{
    if s.len() == 0 {
        seq![]
    } else {
        seq![s.last()] + rev_seq(s.drop_last())
    }
}

proof fn lemma_rev_seq_index(s: Seq<char>)
    ensures
        rev_seq(s).len() == s.len(),
        forall|i: int| 0 <= i < s.len() ==> rev_seq(s)[i] == s[s.len() - 1 - i],
    decreases s.len(),
{
    if s.len() > 0 {
        lemma_rev_seq_index(s.drop_last());
    }
}

fn digit_to_char(d: u64) -> (c: char)
    requires
        d < 10,
    ensures
        c == digit_char(d as nat),
{
    if d == 0 {
        '0'
    } else if d == 1 {
        '1'
    } else if d == 2 {
        '2'
    } else if d == 3 {
        '3'
    } else if d == 4 {
        '4'
    } else if d == 5 {
        '5'
    } else if d == 6 {
        '6'
    } else if d == 7 {
        '7'
    } else if d == 8 {
        '8'
    } else {
        '9'
    }
}

/// The decimal digits of `n`, most significant first.
pub fn u64_to_digits(n: u64) -> (r: Vec<char>)
    ensures
        r@ == dec_rep(n as nat),
{
    let mut rev: Vec<char> = Vec::new();
    let mut m: u64 = n;
    proof {
        assert(dec_rep(n as nat) + rev_seq(rev@) =~= dec_rep(n as nat));
    }
    while m >= 10
        invariant
            dec_rep(n as nat) == dec_rep(m as nat) + rev_seq(rev@),
        decreases m,
    {
        let d = m % 10;
        let c = digit_to_char(d);
        let ghost rev0 = rev@;
        rev.push(c);
        proof {
            assert(rev@ == rev0.push(c));
            assert(rev@.drop_last() =~= rev0);
            assert(rev@.last() == c);
            assert(dec_rep(m as nat) == dec_rep((m as nat) / 10).push(digit_char((m as nat) % 10)));
            assert((m as nat) / 10 == (m / 10) as nat);
            assert((m as nat) % 10 == d as nat);
            assert(rev_seq(rev@) == seq![c] + rev_seq(rev0));
            assert(dec_rep((m / 10) as nat) + rev_seq(rev@) =~= (dec_rep((m / 10) as nat).push(c))
                + rev_seq(rev0));
            assert((dec_rep((m / 10) as nat).push(c)) + rev_seq(rev0) == dec_rep(m as nat)
                + rev_seq(rev0));
            assert(dec_rep((m / 10) as nat) + rev_seq(rev@) == dec_rep(n as nat));
        }
        m = m / 10;
    }
    let c = digit_to_char(m);
    let ghost rev0 = rev@;
    rev.push(c);
    proof {
        assert(rev@ == rev0.push(c));
        assert(rev@.drop_last() =~= rev0);
        assert(rev@.last() == c);
        assert(rev_seq(rev@) == seq![c] + rev_seq(rev0));
        assert(dec_rep(m as nat) =~= seq![c]);
        assert(rev_seq(rev@) =~= dec_rep(m as nat) + rev_seq(rev0));
        assert(rev_seq(rev@) =~= dec_rep(n as nat));
    }
    let mut out: Vec<char> = Vec::new();
    let mut j: usize = rev.len();
    while j > 0
        invariant
            j <= rev.len(),
            out@.len() == rev@.len() - j,
            forall|k: int| 0 <= k < out@.len() ==> out@[k] == rev@[rev@.len() - 1 - k],
        decreases j,
    {
        j -= 1;
        out.push(rev[j]);
    }
    proof {
        lemma_rev_seq_index(rev@);
        assert(out@ =~= rev_seq(rev@));
    }
    out
}

/// Render `n` in decimal.
pub fn u64_to_string(n: u64) -> (r: String)
    ensures
        r@ == dec_rep(n as nat),
{
    let digits = u64_to_digits(n);
    chars_to_string(digits.as_slice())
}

/// Every decimal rendering is a non-empty digit run that parses back to
/// the number it came from.
pub proof fn lemma_dec_rep_val(n: nat)
    ensures
        dec_rep(n).len() >= 1,
        all_digits(dec_rep(n)),
        digits_val(dec_rep(n)) == n,
    decreases n,
{
    if n < 10 {
        let s = dec_rep(n);
        assert(s == seq![digit_char(n)]);
        assert(s.last() == digit_char(n));
        assert(s.drop_last() =~= Seq::<char>::empty());
        assert(digits_val(Seq::<char>::empty()) == 0);
        assert(digits_val(s) == 0 * 10 + digit_val(s.last()));
        assert(digit_val(digit_char(n)) == n);
    } else {
        lemma_dec_rep_val(n / 10);
        let s = dec_rep(n);
        assert(s == dec_rep(n / 10).push(digit_char(n % 10)));
        assert(s.drop_last() =~= dec_rep(n / 10));
        assert(s.last() == digit_char(n % 10));
        assert(digit_val(digit_char(n % 10)) == n % 10);
        assert(digits_val(s) == (n / 10) * 10 + n % 10);
        assert(forall|i: int|
            0 <= i < s.len() - 1 ==> s[i] == #[trigger] dec_rep(n / 10)[i]);
        assert(all_digits(s));
    }
}

} // verus!
