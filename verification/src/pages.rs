//! Page entities: decoding from value rows of a `page` table dump,
//! decoding back from previously emitted RDF triple lines, and
//! serialization to RDF.

use vstd::prelude::*;
use crate::utils::chars_to_string;
use crate::utils::clean_title;
use crate::utils::clean_title_spec;
use crate::utils::dec_rep;
use crate::utils::is_digit;
use crate::utils::parse_u32;
use crate::utils::parse_u32_spec;
use crate::utils::parse_u64;
use crate::utils::parse_u64_spec;
use crate::utils::push_char_vec;
use crate::utils::push_chars;
use crate::utils::string_to_chars;
use crate::utils::trim_chars;
use crate::utils::trim_spec;
use crate::utils::u64_to_digits;

verus! {

/// A wiki page: its numeric id, its namespace, and its normalized title.
pub struct Page {
    pub pageid: u64,
    pub namespace: u32,
    pub title: String,
}

/// The mathematical value of a `Page`: the title as a character sequence.
pub ghost struct PageView {
    pub pageid: u64,
    pub namespace: u32,
    pub title: Seq<char>,
}

impl View for Page {
    type V = PageView;

    open spec fn view(&self) -> PageView {
        PageView { pageid: self.pageid, namespace: self.namespace, title: self.title@ }
    }
}

/// Why decoding a page failed. All variants are fatal schema errors: a
/// run that meets one aborts whatever the error-handling mode is.
#[derive(Debug, Clone, Copy, PartialEq, Eq, Structural)]
pub enum PageError {
    /// The value row did not carry exactly 13 fields.
    FieldCount,
    /// The id or the namespace field did not parse as its integer type.
    FieldParse,
    /// A triple file did not yield two matching lines with one id.
    MalformedTripleFile,
}

/// A decoded page, or the error, seen as values.
pub open spec fn page_result_view(r: Result<Page, PageError>) -> Result<PageView, PageError> {
    match r {
        Ok(p) => Ok(p@),
        Err(e) => Err(e),
    }
}

/// What decoding one 13-field value row yields: field 0 is the id,
/// field 1 the namespace, field 2 the raw title (normalized on decode);
/// the other ten fields are ignored.
pub open spec fn page_from_sql_spec(row: Seq<Seq<char>>) -> Result<PageView, PageError> {
    if row.len() != 13 {
        Err(PageError::FieldCount)
    } else if parse_u64_spec(row[0]) is None || parse_u32_spec(row[1]) is None {
        Err(PageError::FieldParse)
    } else {
        Ok(
            PageView {
                pageid: parse_u64_spec(row[0]).unwrap(),
                namespace: parse_u32_spec(row[1]).unwrap(),
                title: clean_title_spec(row[2]),
            },
        )
    }
}

// ---------------------------------------------------------------------------
// Triple lines
// ---------------------------------------------------------------------------

/// The namespace triple line of a page: `<id> <namespace> "ns" .`
pub open spec fn namespace_triple(p: PageView) -> Seq<char> {
    "<"@ + dec_rep(p.pageid as nat) + "> <namespace> \""@ + dec_rep(p.namespace as nat) + "\" ."@
}

/// The title triple line of a page: `<id> <title> "title" .`
pub open spec fn title_triple(p: PageView) -> Seq<char> {
    "<"@ + dec_rep(p.pageid as nat) + "> <title> \""@ + p.title + "\" ."@
}

/// The two triple lines of a page, joined by one newline.
pub open spec fn page_rdf_spec(p: PageView) -> Seq<char> {
    namespace_triple(p) + seq!['\n'] + title_triple(p)
}

/// The end of the run of decimal digits starting at `i`.
pub open spec fn digit_run_end(s: Seq<char>, i: int) -> int
    decreases s.len() - i,
{
    if 0 <= i < s.len() && is_digit(s[i]) {
        digit_run_end(s, i + 1)
    } else {
        i
    }
}

/// `t` occurs in `s` at position `i`.
pub open spec fn has_at(s: Seq<char>, i: int, t: Seq<char>) -> bool {
    0 <= i && i + t.len() <= s.len() && s.subrange(i, i + t.len()) == t
}

/// The rightmost position `j <= m` where a quote is followed by a space,
/// or `-1` when there is none.
pub open spec fn rightmost_close(s: Seq<char>, m: int) -> int
    decreases m + 1,
{
    if m < 0 {
        -1
    } else if 0 <= m && m + 1 < s.len() && s[m] == '"' && s[m + 1] == ' ' {
        m
    } else {
        rightmost_close(s, m - 1)
    }
}

/// What matching one line against the triple pattern
/// `<digits> <namespace|title> "value" .` yields: the id digits, whether
/// the predicate is `namespace`, and the quoted value. The value is
/// bounded by the rightmost quote-space pair that still leaves one
/// trailing character, so a value may itself contain quotes.
pub open spec fn match_triple_spec(s: Seq<char>) -> Option<(Seq<char>, bool, Seq<char>)> {
    if s.len() == 0 || s[0] != '<' {
        None
    } else {
        let e = digit_run_end(s, 1);
        if e == 1 {
            None
        } else if has_at(s, e, "> <namespace> \""@) {
            match_triple_value(s, s.subrange(1, e), true, e + 15)
        } else if has_at(s, e, "> <title> \""@) {
            match_triple_value(s, s.subrange(1, e), false, e + 11)
        } else {
            None
        }
    }
}

/// The value part of a triple match: everything from `k` up to the
/// rightmost closing quote-space pair.
pub open spec fn match_triple_value(s: Seq<char>, digits: Seq<char>, is_ns: bool, k: int) -> Option<
    (Seq<char>, bool, Seq<char>),
> {
    let m = rightmost_close(s, s.len() - 3);
    if m < k {
        None
    } else {
        Some((digits, is_ns, s.subrange(k, m)))
    }
}

/// A usable triple line after trimming: it opens with `<` and closes
/// with `.`.
pub open spec fn good_shape(l: Seq<char>) -> bool {
    l.len() > 0 && l[0] == '<' && l.last() == '.'
}

/// The usable lines of a triple file: blank lines and comment lines are
/// skipped, the rest are trimmed.
pub open spec fn usable_lines(lines: Seq<Seq<char>>) -> Seq<Seq<char>>
    decreases lines.len(),
{
    if lines.len() == 0 {
        seq![]
    } else {
        let rest = usable_lines(lines.drop_last());
        if lines.last().len() > 0 && lines.last()[0] != '#' {
            rest.push(trim_spec(lines.last()))
        } else {
            rest
        }
    }
}

/// What decoding two adjacent usable triple lines yields: both must match
/// the triple pattern with the same id digits; the namespace comes from
/// the line whose predicate is `namespace` (from the other line's value
/// if the first line carries the title), the title from the other line.
pub open spec fn page_pair_spec(a: Seq<char>, b: Seq<char>) -> Result<PageView, PageError> {
    match (match_triple_spec(a), match_triple_spec(b)) {
        (Some((d1, ns1, v1)), Some((d2, ns2, v2))) => {
            if d1 != d2 {
                Err(PageError::MalformedTripleFile)
            } else {
                match parse_u64_spec(d1) {
                    None => Err(PageError::MalformedTripleFile),
                    Some(id) => {
                        if ns1 {
                            match parse_u32_spec(v1) {
                                None => Err(PageError::MalformedTripleFile),
                                Some(ns) => Ok(PageView { pageid: id, namespace: ns, title: v2 }),
                            }
                        } else {
                            match parse_u32_spec(v2) {
                                None => Err(PageError::MalformedTripleFile),
                                Some(ns) => Ok(PageView { pageid: id, namespace: ns, title: v1 }),
                            }
                        }
                    },
                }
            }
        },
        _ => Err(PageError::MalformedTripleFile),
    }
}

/// What decoding a page from triple lines yields: every usable line must
/// open with `<` and close with `.`, at least two usable lines must
/// remain, and the first two must form a page.
pub open spec fn page_from_rdf_spec(lines: Seq<Seq<char>>) -> Result<PageView, PageError> {
    let us = usable_lines(lines);
    if exists|i: int| 0 <= i < us.len() && !good_shape(#[trigger] us[i]) {
        Err(PageError::MalformedTripleFile)
    } else if us.len() < 2 {
        Err(PageError::MalformedTripleFile)
    } else {
        page_pair_spec(us[0], us[1])
    }
}

// ---------------------------------------------------------------------------
// Executable triple matching
// ---------------------------------------------------------------------------

/// `pat` occurs in `chars` at position `i`.
fn has_prefix_at(chars: &Vec<char>, i: usize, pat: &str) -> (r: bool)
    ensures
        r == has_at(chars@, i as int, pat@),
{
    let n = pat.unicode_len();
    if n > chars.len() || i > chars.len() - n {
        proof {
            assert(!has_at(chars@, i as int, pat@));
        }
        return false;
    }
    let mut j: usize = 0;
    while j < n
        invariant
            j <= n,
            n == pat@.len(),
            i + n <= chars@.len(),
            chars@.len() <= usize::MAX,
            forall|k: int| 0 <= k < j ==> chars@[i + k] == pat@[k],
        decreases n - j,
    {
        if chars[i + j] != pat.get_char(j) {
            proof {
                assert(chars@.subrange(i as int, i + pat@.len())[j as int] != pat@[j as int]);
            }
            return false;
        }
        j += 1;
    }
    proof {
        assert(chars@.subrange(i as int, i + pat@.len()) =~= pat@);
    }
    true
}

/// One matched triple line: the id digits, whether the predicate was
/// `namespace` (as opposed to `title`), and the quoted value.
struct TripleParts {
    digits: Vec<char>,
    is_namespace: bool,
    value: Vec<char>,
}

/// Match one trimmed line against the triple pattern.
#[verifier::loop_isolation(false)]
fn match_triple(chars: &Vec<char>) -> (r: Option<TripleParts>)
    ensures
        match r {
            Some(t) => match_triple_spec(chars@) == Some(
                (t.digits@, t.is_namespace, t.value@),
            ),
            None => match_triple_spec(chars@) is None,
        },
{
    if chars.len() == 0 || chars[0] != '<' {
        return None;
    }
    let mut e: usize = 1;
    while e < chars.len() && chars[e] >= '0' && chars[e] <= '9'
        invariant
            1 <= e <= chars.len(),
            digit_run_end(chars@, 1) == digit_run_end(chars@, e as int),
        decreases chars.len() - e,
    {
        e += 1;
    }
    proof {
        assert(digit_run_end(chars@, e as int) == e as int);
    }
    if e == 1 {
        return None;
    }
    let is_namespace: bool;
    let k: usize;
    if has_prefix_at(chars, e, "> <namespace> \"") {
        proof {
            reveal_strlit("> <namespace> \"");
        }
        is_namespace = true;
        k = e + 15;
    } else if has_prefix_at(chars, e, "> <title> \"") {
        proof {
            reveal_strlit("> <namespace> \"");
            reveal_strlit("> <title> \"");
        }
        is_namespace = false;
        k = e + 11;
    } else {
        proof {
            reveal_strlit("> <namespace> \"");
            reveal_strlit("> <title> \"");
        }
        return None;
    }
    // The rightmost closing pair, scanned from the end of the line.
    if chars.len() < 3 {
        proof {
            assert(rightmost_close(chars@, chars@.len() - 3) == -1);
        }
        return None;
    }
    let mut m: usize = chars.len() - 2;
    while m > 0 && !(chars[m - 1] == '"' && chars[m] == ' ')
        invariant
            0 <= m <= chars@.len() - 2,
            rightmost_close(chars@, chars@.len() - 3) == rightmost_close(chars@, m as int - 1),
        decreases m,
    {
        m -= 1;
    }
    if m == 0 {
        proof {
            assert(rightmost_close(chars@, -1) == -1);
        }
        return None;
    }
    let close = m - 1;
    proof {
        assert(rightmost_close(chars@, close as int) == close as int);
    }
    if close < k {
        return None;
    }
    let mut digits: Vec<char> = Vec::new();
    let mut i: usize = 1;
    proof {
        assert(digits@ =~= chars@.subrange(1, 1));
    }
    while i < e
        invariant
            1 <= i <= e <= chars@.len(),
            digits@ == chars@.subrange(1, i as int),
        decreases e - i,
    {
        digits.push(chars[i]);
        proof {
            assert(digits@ =~= chars@.subrange(1, (i + 1) as int));
        }
        i += 1;
    }
    let mut value: Vec<char> = Vec::new();
    let mut i2: usize = k;
    proof {
        assert(value@ =~= chars@.subrange(k as int, k as int));
    }
    while i2 < close
        invariant
            k <= i2 <= close <= chars@.len(),
            value@ == chars@.subrange(k as int, i2 as int),
        decreases close - i2,
    {
        value.push(chars[i2]);
        proof {
            assert(value@ =~= chars@.subrange(k as int, (i2 + 1) as int));
        }
        i2 += 1;
    }
    Some(TripleParts { digits, is_namespace, value })
}

impl Page {
    /// Decode a page from the `values` of one row of a `page` table dump.
    pub fn from_sql(values: Vec<String>) -> (r: Result<Page, PageError>)
        ensures
            page_result_view(r) == page_from_sql_spec(values.deep_view()),
    {
        if values.len() != 13 {
            return Err(PageError::FieldCount);
        }
        proof {
            assert(values.deep_view().len() == 13);
            assert(values.deep_view()[0] == values@[0]@);
            assert(values.deep_view()[1] == values@[1]@);
            assert(values.deep_view()[2] == values@[2]@);
        }
        let id = match parse_u64(&values[0]) {
            Some(v) => v,
            None => {
                return Err(PageError::FieldParse);
            },
        };
        let namespace = match parse_u32(&values[1]) {
            Some(v) => v,
            None => {
                return Err(PageError::FieldParse);
            },
        };
        Ok(Page { pageid: id, namespace, title: clean_title(&values[2]) })
    }

    /// Decode a page back from the lines of its own emitted RDF triples.
    ///
    /// Only the first two usable lines are taken into account; blank and
    /// comment lines are skipped.
    pub fn from_rdf(triples: Vec<String>) -> (r: Result<Page, PageError>)
        ensures
            page_result_view(r) == page_from_rdf_spec(triples.deep_view()),
    {
        let mut cleaned: Vec<Vec<char>> = Vec::new();
        let mut i: usize = 0;
        proof {
            assert(triples.deep_view().subrange(0, 0) =~= Seq::<Seq<char>>::empty());
            assert(cleaned.deep_view() =~= Seq::<Seq<char>>::empty());
        }
        while i < triples.len()
            invariant
                i <= triples.len(),
                cleaned.deep_view() == usable_lines(triples.deep_view().subrange(0, i as int)),
                forall|j: int|
                    0 <= j < cleaned@.len() ==> good_shape(#[trigger] cleaned.deep_view()[j]),
            decreases triples.len() - i,
        {
            let ghost pre = triples.deep_view().subrange(0, i as int);
            let ghost cur = triples.deep_view().subrange(0, (i + 1) as int);
            proof {
                assert(cur.drop_last() =~= pre);
                assert(cur.last() == triples.deep_view()[i as int]);
                assert(triples.deep_view()[i as int] == triples@[i as int]@);
            }
            let chars = string_to_chars(triples[i].as_str());
            if chars.len() > 0 && chars[0] != '#' {
                let t = trim_chars(&chars);
                if t.len() == 0 || t[0] != '<' || t[t.len() - 1] != '.' {
                    proof {
                        let us = usable_lines(triples.deep_view());
                        lemma_usable_lines_prefix(triples.deep_view(), (i + 1) as int);
                        assert(usable_lines(cur).last() == trim_spec(cur.last()));
                        assert(!good_shape(trim_spec(chars@)));
                        let w = usable_lines(cur).len() - 1;
                        assert(us[w] == usable_lines(cur)[w]);
                        assert(!good_shape(us[w]));
                    }
                    return Err(PageError::MalformedTripleFile);
                }
                let ghost c0 = cleaned.deep_view();
                cleaned.push(t);
                proof {
                    assert(cleaned@.last().deep_view() =~= trim_spec(chars@));
                    assert(cleaned.deep_view() =~= c0.push(trim_spec(chars@)));
                    assert(trim_spec(chars@).last() == trim_spec(chars@)[trim_spec(
                        chars@,
                    ).len() - 1]);
                }
            }
            i += 1;
        }
        proof {
            assert(triples.deep_view().subrange(0, triples.deep_view().len() as int)
                =~= triples.deep_view());
        }
        if cleaned.len() < 2 {
            return Err(PageError::MalformedTripleFile);
        }
        proof {
            assert(cleaned.deep_view()[0] == cleaned@[0]@);
            assert(cleaned.deep_view()[1] == cleaned@[1]@);
        }
        let first = match match_triple(&cleaned[0]) {
            Some(t) => t,
            None => {
                return Err(PageError::MalformedTripleFile);
            },
        };
        let second = match match_triple(&cleaned[1]) {
            Some(t) => t,
            None => {
                return Err(PageError::MalformedTripleFile);
            },
        };
        if !char_vecs_equal(&first.digits, &second.digits) {
            return Err(PageError::MalformedTripleFile);
        }
        let digits_string = chars_to_string(first.digits.as_slice());
        let id = match parse_u64(&digits_string) {
            Some(v) => v,
            None => {
                return Err(PageError::MalformedTripleFile);
            },
        };
        let namespace_digits: Vec<char>;
        let title_chars: Vec<char>;
        if first.is_namespace {
            namespace_digits = first.value;
            title_chars = second.value;
        } else {
            namespace_digits = second.value;
            title_chars = first.value;
        }
        let ns_string = chars_to_string(namespace_digits.as_slice());
        let namespace = match parse_u32(&ns_string) {
            Some(v) => v,
            None => {
                return Err(PageError::MalformedTripleFile);
            },
        };
        Ok(Page { pageid: id, namespace, title: chars_to_string(title_chars.as_slice()) })
    }

    /// Serialize a page as its two RDF triples, joined by one newline.
    pub fn to_rdf(&self) -> (r: String)
        ensures
            r@ == page_rdf_spec(self@),
    {
        let id_digits = u64_to_digits(self.pageid);
        let ns_digits = u64_to_digits(self.namespace as u64);
        let mut v: Vec<char> = Vec::new();
        push_chars(&mut v, "<");
        push_char_vec(&mut v, &id_digits);
        push_chars(&mut v, "> <namespace> \"");
        push_char_vec(&mut v, &ns_digits);
        push_chars(&mut v, "\" .\n<");
        push_char_vec(&mut v, &id_digits);
        push_chars(&mut v, "> <title> \"");
        push_chars(&mut v, self.title.as_str());
        push_chars(&mut v, "\" .");
        proof {
            reveal_strlit("<");
            reveal_strlit("> <namespace> \"");
            reveal_strlit("\" .\n<");
            reveal_strlit("> <title> \"");
            reveal_strlit("\" .");
            assert(v@ =~= page_rdf_spec(self@));
        }
        chars_to_string(v.as_slice())
    }
}

/// Two character vectors hold the same characters.
fn char_vecs_equal(a: &Vec<char>, b: &Vec<char>) -> (r: bool)
    ensures
        r == (a@ == b@),
{
    if a.len() != b.len() {
        return false;
    }
    let mut i: usize = 0;
    while i < a.len()
        invariant
            i <= a.len(),
            a@.len() == b@.len(),
            forall|j: int| 0 <= j < i ==> a@[j] == b@[j],
        decreases a.len() - i,
    {
        if a[i] != b[i] {
            return false;
        }
        i += 1;
    }
    proof {
        assert(a@ =~= b@);
    }
    true
}

// ---------------------------------------------------------------------------
// The round trip from a value row through triple text and back
// ---------------------------------------------------------------------------

/// A line whose ends are not whitespace is left alone by trimming.
proof fn lemma_trim_identity(s: Seq<char>)
    requires
        s.len() > 0,
        !crate::utils::is_wspace(s[0]),
        !crate::utils::is_wspace(s.last()),
    ensures
        trim_spec(s) == s,
{
}

/// A run of digits followed by a non-digit ends exactly at the non-digit.
proof fn lemma_digit_run(s: Seq<char>, i: int, j: int)
    requires
        0 <= i <= j <= s.len(),
        forall|w: int| i <= w < j ==> is_digit(#[trigger] s[w]),
        j == s.len() || !is_digit(s[j]),
    ensures
        digit_run_end(s, i) == j,
    decreases j - i,
{
    if i < j {
        lemma_digit_run(s, i + 1, j);
    }
}

/// What matching one serialized triple line of a page yields.
proof fn lemma_match_own_triple(p: PageView)
    ensures
        match_triple_spec(namespace_triple(p)) == Some(
            (dec_rep(p.pageid as nat), true, dec_rep(p.namespace as nat)),
        ),
        match_triple_spec(title_triple(p)) == Some((dec_rep(p.pageid as nat), false, p.title)),
        good_shape(namespace_triple(p)),
        good_shape(title_triple(p)),
        trim_spec(namespace_triple(p)) == namespace_triple(p),
        trim_spec(title_triple(p)) == title_triple(p),
        namespace_triple(p)[0] != '#',
        title_triple(p)[0] != '#',
{
    reveal_strlit("<");
    reveal_strlit("> <namespace> \"");
    reveal_strlit("> <title> \"");
    reveal_strlit("\" .");
    crate::utils::lemma_dec_rep_val(p.pageid as nat);
    crate::utils::lemma_dec_rep_val(p.namespace as nat);
    let d = dec_rep(p.pageid as nat);
    let dn = dec_rep(p.namespace as nat);

    let a = namespace_triple(p);
    let e = 1 + d.len() as int;
    assert(a[0] == '<');
    assert(a.last() == '.');
    lemma_trim_identity(a);
    assert(forall|w: int| 1 <= w < e ==> is_digit(#[trigger] a[w]));
    assert(a[e] == '>');
    lemma_digit_run(a, 1, e);
    assert(a.subrange(1, e) =~= d);
    assert(a.subrange(e, e + 15) =~= "> <namespace> \""@);
    assert(has_at(a, e, "> <namespace> \""@));
    let ma = a.len() - 3;
    assert(a[ma] == '"' && a[ma + 1] == ' ');
    assert(rightmost_close(a, ma) == ma);
    assert(a.subrange(e + 15, ma) =~= dn);

    let b = title_triple(p);
    let eb = 1 + d.len() as int;
    assert(b[0] == '<');
    assert(b.last() == '.');
    lemma_trim_identity(b);
    assert(forall|w: int| 1 <= w < eb ==> is_digit(#[trigger] b[w]));
    assert(b[eb] == '>');
    lemma_digit_run(b, 1, eb);
    assert(b.subrange(1, eb) =~= d);
    assert(b[eb + 3] == 't');
    assert(!has_at(b, eb, "> <namespace> \""@)) by {
        if has_at(b, eb, "> <namespace> \""@) {
            assert(b.subrange(eb, eb + 15)[3] == 'n');
        }
    };
    assert(b.subrange(eb, eb + 11) =~= "> <title> \""@);
    assert(has_at(b, eb, "> <title> \""@));
    let mb = b.len() - 3;
    assert(b[mb] == '"' && b[mb + 1] == ' ');
    assert(rightmost_close(b, mb) == mb);
    assert(b.subrange(eb + 11, mb) =~= p.title);
}

/// Round trip: a page decoded from a well-formed 13-field value row and
/// serialized to its two triple lines decodes back, from exactly those
/// two lines, to the same page: id, namespace and title all equal.
#[verifier::rlimit(100)]
#[verifier::spinoff_prover]
pub proof fn lemma_page_round_trip(row: Seq<Seq<char>>)
    requires
        page_from_sql_spec(row) is Ok,
    ensures
        page_from_rdf_spec(
            seq![
                namespace_triple(page_from_sql_spec(row).unwrap()),
                title_triple(page_from_sql_spec(row).unwrap()),
            ],
        ) == page_from_sql_spec(row),
{
    let p = page_from_sql_spec(row).unwrap();
    lemma_match_own_triple(p);
    crate::utils::lemma_dec_rep_val(p.pageid as nat);
    crate::utils::lemma_dec_rep_val(p.namespace as nat);
    let a = namespace_triple(p);
    let b = title_triple(p);
    let lines = seq![a, b];
    assert(lines.drop_last() =~= seq![a]);
    assert(seq![a].drop_last() =~= Seq::<Seq<char>>::empty());
    assert(usable_lines(Seq::<Seq<char>>::empty()) =~= Seq::<Seq<char>>::empty());
    assert(seq![a].last() == a);
    assert(a.len() > 0 && a[0] != '#');
    assert(usable_lines(seq![a]) == usable_lines(seq![a].drop_last()).push(trim_spec(a)));
    assert(usable_lines(seq![a]) =~= seq![a]);
    assert(lines.last() == b);
    assert(b.len() > 0 && b[0] != '#');
    assert(usable_lines(lines) == usable_lines(lines.drop_last()).push(trim_spec(b)));
    assert(usable_lines(lines) =~= seq![a, b]);
    let us = usable_lines(lines);
    assert(forall|i: int| 0 <= i < us.len() ==> good_shape(#[trigger] us[i]));
    assert(parse_u64_spec(dec_rep(p.pageid as nat)) == Some(p.pageid));
    assert(parse_u32_spec(dec_rep(p.namespace as nat)) == Some(p.namespace));
    assert(page_pair_spec(a, b) == Ok::<PageView, PageError>(
        PageView { pageid: p.pageid, namespace: p.namespace, title: p.title },
    ));
    assert(PageView { pageid: p.pageid, namespace: p.namespace, title: p.title } == p);
}

// ---------------------------------------------------------------------------
// Building the page index from a whole triple file
// ---------------------------------------------------------------------------

/// The lines of a triple file that take part in pairing: blank lines and
/// comment lines are skipped, the rest kept as they are.
pub open spec fn raw_usable(lines: Seq<Seq<char>>) -> Seq<Seq<char>>
    decreases lines.len(),
{
    if lines.len() == 0 {
        seq![]
    } else {
        let rest = raw_usable(lines.drop_last());
        if lines.last().len() > 0 && lines.last()[0] != '#' {
            rest.push(lines.last())
        } else {
            rest
        }
    }
}

/// The mapping described by a sequence of usable triple lines: each
/// consecutive pair decodes to one page, later pages overriding earlier
/// ones with the same (title, namespace) key; a failing pair or a
/// leftover line spoils the whole file.
pub open spec fn index_of_usable(us: Seq<Seq<char>>) -> Result<
    Map<(Seq<char>, u32), PageView>,
    PageError,
>
    decreases us.len(),
{
    if us.len() == 0 {
        Ok(Map::empty())
    } else if us.len() == 1 {
        Err(PageError::MalformedTripleFile)
    } else {
        let a = us[us.len() - 2];
        let b = us[us.len() - 1];
        match (index_of_usable(us.subrange(0, us.len() - 2)), page_from_rdf_spec(seq![a, b])) {
            (Ok(m), Ok(p)) => Ok(m.insert((p.title, p.namespace), p)),
            _ => Err(PageError::MalformedTripleFile),
        }
    }
}

/// What building the page index from a whole triple file yields.
pub open spec fn pages_from_rdf_spec(lines: Seq<Seq<char>>) -> Result<
    Map<(Seq<char>, u32), PageView>,
    PageError,
> {
    index_of_usable(raw_usable(lines))
}

/// An odd number of usable lines never forms an index.
proof fn lemma_odd_err(us: Seq<Seq<char>>)
    requires
        us.len() % 2 == 1,
    ensures
        index_of_usable(us) == Err::<Map<(Seq<char>, u32), PageView>, PageError>(
            PageError::MalformedTripleFile,
        ),
    decreases us.len(),
{
    if us.len() > 1 {
        lemma_odd_err(us.subrange(0, us.len() - 2));
    }
}

/// Once an even prefix of the usable lines fails, the whole file fails.
proof fn lemma_err_persists(us: Seq<Seq<char>>, n: int)
    requires
        0 <= n <= us.len(),
        n % 2 == 0,
        index_of_usable(us.subrange(0, n)) is Err,
    ensures
        index_of_usable(us) == Err::<Map<(Seq<char>, u32), PageView>, PageError>(
            PageError::MalformedTripleFile,
        ),
    decreases us.len(),
{
    if n == us.len() {
        assert(us.subrange(0, n) =~= us);
    } else if us.len() % 2 == 1 {
        lemma_odd_err(us);
    } else {
        assert(us.len() >= 2);
        assert(us.subrange(0, us.len() - 2).subrange(0, n) =~= us.subrange(0, n));
        lemma_err_persists(us.subrange(0, us.len() - 2), n);
    }
}

/// Decode a whole page-triples file and build the page index from it:
/// consecutive pairs of usable lines each decode to one page; on a
/// duplicate (title, namespace) key the later page wins.
#[verifier::loop_isolation(false)]
#[verifier::rlimit(60)]
pub fn pages_from_rdf(lines: Vec<String>) -> (r: Result<crate::index::PageIndex, PageError>)
    ensures
        match r {
            Ok(idx) => idx.wf() && pages_from_rdf_spec(lines.deep_view()) == Ok::<
                Map<(Seq<char>, u32), PageView>,
                PageError,
            >(idx.contents()),
            Err(e) => pages_from_rdf_spec(lines.deep_view()) == Err::<
                Map<(Seq<char>, u32), PageView>,
                PageError,
            >(e),
        },
{
    let mut index = crate::index::PageIndex::new();
    let mut pending: Option<String> = None;
    let mut i: usize = 0;
    proof {
        assert(lines.deep_view().subrange(0, 0) =~= Seq::<Seq<char>>::empty());
    }
    while i < lines.len()
        invariant
            i <= lines@.len(),
            index.wf(),
            match pending {
                None => {
                    let ru = raw_usable(lines.deep_view().subrange(0, i as int));
                    &&& ru.len() % 2 == 0
                    &&& index_of_usable(ru) == Ok::<Map<(Seq<char>, u32), PageView>, PageError>(
                        index.contents(),
                    )
                },
                Some(a) => {
                    let ru = raw_usable(lines.deep_view().subrange(0, i as int));
                    &&& ru.len() > 0
                    &&& ru.len() % 2 == 1
                    &&& ru.last() == a@
                    &&& index_of_usable(ru.drop_last()) == Ok::<
                        Map<(Seq<char>, u32), PageView>,
                        PageError,
                    >(index.contents())
                },
            },
        decreases lines@.len() - i,
    {
        let ghost pre = lines.deep_view().subrange(0, i as int);
        let ghost cur = lines.deep_view().subrange(0, (i + 1) as int);
        proof {
            assert(cur.drop_last() =~= pre);
            assert(cur.last() == lines.deep_view()[i as int]);
            assert(lines.deep_view()[i as int] == lines@[i as int]@);
        }
        let line = &lines[i];
        let keep = line.unicode_len() > 0 && line.get_char(0) != '#';
        if keep {
            proof {
                assert(raw_usable(cur) == raw_usable(pre).push(lines@[i as int]@));
            }
            let prev = pending;
            pending = None;
            match prev {
                None => {
                    pending = Some(line.clone());
                    proof {
                        assert(raw_usable(cur).drop_last() =~= raw_usable(pre));
                    }
                },
                Some(a) => {
                    let ghost ga = a@;
                    let mut pair: Vec<String> = Vec::new();
                    pair.push(a);
                    pair.push(line.clone());
                    proof {
                        assert(pair.deep_view() =~= seq![ga, lines@[i as int]@]);
                        assert(raw_usable(pre).drop_last() =~= raw_usable(cur).subrange(
                            0,
                            raw_usable(cur).len() - 2,
                        ));
                        assert(raw_usable(cur)[raw_usable(cur).len() - 2] == ga);
                        assert(raw_usable(cur)[raw_usable(cur).len() - 1] == lines@[i as int]@);
                        assert(seq![
                            raw_usable(cur)[raw_usable(cur).len() - 2],
                            raw_usable(cur)[raw_usable(cur).len() - 1],
                        ] =~= seq![ga, lines@[i as int]@]);
                    }
                    match Page::from_rdf(pair) {
                        Ok(page) => {
                            proof {
                                assert(page_from_rdf_spec(seq![ga, lines@[i as int]@])
                                    == Ok::<PageView, PageError>(page@));
                            }
                            let ghost m0 = index.contents();
                            let ghost pv = page@;
                            index.insert(page);
                            proof {
                                assert(index.contents() == m0.insert((pv.title, pv.namespace), pv));
                                assert(index_of_usable(raw_usable(cur)) == Ok::<
                                    Map<(Seq<char>, u32), PageView>,
                                    PageError,
                                >(index.contents()));
                            }
                        },
                        Err(e) => {
                            proof {
                                assert(index_of_usable(raw_usable(cur)) == Err::<
                                    Map<(Seq<char>, u32), PageView>,
                                    PageError,
                                >(PageError::MalformedTripleFile));
                                assert(e == PageError::MalformedTripleFile);
                                lemma_raw_usable_prefix(lines.deep_view(), (i + 1) as int);
                                lemma_err_persists(
                                    raw_usable(lines.deep_view()),
                                    raw_usable(cur).len() as int,
                                );
                            }
                            return Err(e);
                        },
                    }
                },
            }
        } else {
            proof {
                assert(raw_usable(cur) == raw_usable(pre));
            }
        }
        i += 1;
    }
    proof {
        assert(lines.deep_view().subrange(0, lines@.len() as int) =~= lines.deep_view());
    }
    match pending {
        None => Ok(index),
        Some(_) => {
            proof {
                lemma_odd_err(raw_usable(lines.deep_view()));
            }
            Err(PageError::MalformedTripleFile)
        },
    }
}

/// A prefix of the line sequence contributes a prefix of the usable
/// lines, kept as they are.
proof fn lemma_raw_usable_prefix(lines: Seq<Seq<char>>, n: int)
    requires
        0 <= n <= lines.len(),
    ensures
        raw_usable(lines.subrange(0, n)).len() <= raw_usable(lines).len(),
        raw_usable(lines).subrange(0, raw_usable(lines.subrange(0, n)).len() as int) == raw_usable(
            lines.subrange(0, n),
        ),
    decreases lines.len() - n,
{
    if n < lines.len() {
        lemma_raw_usable_prefix(lines, n + 1);
        let cur = lines.subrange(0, n + 1);
        assert(cur.drop_last() =~= lines.subrange(0, n));
        let rn = raw_usable(lines.subrange(0, n));
        let rc = raw_usable(cur);
        assert(rc.subrange(0, rn.len() as int) =~= rn);
        assert(raw_usable(lines).subrange(0, rn.len() as int) =~= raw_usable(lines).subrange(
            0,
            rc.len() as int,
        ).subrange(0, rn.len() as int));
    } else {
        assert(lines.subrange(0, n) =~= lines);
    }
}

/// A prefix of the line sequence contributes a prefix of the usable lines.
proof fn lemma_usable_lines_prefix(lines: Seq<Seq<char>>, n: int)
    requires
        0 <= n <= lines.len(),
    ensures
        usable_lines(lines.subrange(0, n)).len() <= usable_lines(lines).len(),
        forall|j: int|
            0 <= j < usable_lines(lines.subrange(0, n)).len() ==> usable_lines(lines)[j]
                == #[trigger] usable_lines(lines.subrange(0, n))[j],
    decreases lines.len() - n,
{
    if n < lines.len() {
        lemma_usable_lines_prefix(lines, n + 1);
        let cur = lines.subrange(0, n + 1);
        assert(cur.drop_last() =~= lines.subrange(0, n));
        let rest = usable_lines(lines.subrange(0, n));
        let curu = usable_lines(cur);
        assert forall|j: int| 0 <= j < rest.len() implies usable_lines(lines)[j] == rest[j] by {
            assert(curu[j] == rest[j]);
            assert(usable_lines(lines)[j] == curu[j]);
        };
    } else {
        assert(lines.subrange(0, n) =~= lines);
    }
}

} // verus!
