//! Text: the few string operations that the rest of the library is built on.
//!
//! A string is modelled by the sequence of its characters, and its encoding by
//! `vstd`'s UTF-8 functions.

use vstd::arithmetic::power::pow;
use vstd::prelude::*;
use vstd::utf8::{decode_utf8, encode_utf8, is_ascii_chars, valid_utf8};

verus! {

// ---------------------------------------------------------------------------
// What is taken from the standard library
// ---------------------------------------------------------------------------

/// `String::push` appends one character and leaves what was there.
pub assume_specification[ String::push ](s: &mut String, c: char)
    ensures
        final(s)@ == old(s)@.push(c),
;

/// What `Utf8Error` displays for bytes that are not UTF-8.
pub uninterp spec fn utf8_error_text(bytes: Seq<u8>) -> Seq<char>;

/// `std::str::from_utf8`: bytes are text exactly when they are valid UTF-8, and
/// the text is then what they decode to. The error is handed on as the message
/// that it displays, which depends on the bytes alone.
#[verifier::external_body]
pub(crate) fn from_utf8(bytes: &[u8]) -> (r: Result<&str, String>)
    ensures
        r is Ok <==> valid_utf8(bytes@),
        r matches Ok(s) ==> s@ == decode_utf8(bytes@),
        r matches Err(e) ==> e@ == utf8_error_text(bytes@),
{
    std::str::from_utf8(bytes).map_err(|e| e.to_string())
}

/// What `String::from_utf8_lossy` makes of bytes that are not UTF-8.
pub uninterp spec fn lossy_text(bytes: Seq<u8>) -> Seq<char>;

/// Bytes as text, as they are shown to people: what is not UTF-8 is replaced.
pub open spec fn shown_text(bytes: Seq<u8>) -> Seq<char> {
    if valid_utf8(bytes) {
        decode_utf8(bytes)
    } else {
        lossy_text(bytes)
    }
}

/// `String::from_utf8_lossy`: valid UTF-8 is decoded as it stands; what replaces
/// an invalid sequence depends on the bytes alone.
#[verifier::external_body]
pub(crate) fn from_utf8_lossy(bytes: &[u8]) -> (r: String)
    ensures
        valid_utf8(bytes@) ==> r@ == decode_utf8(bytes@),
        !valid_utf8(bytes@) ==> r@ == lossy_text(bytes@),
{
    String::from_utf8_lossy(bytes).into_owned()
}

/// What `str::to_lowercase` makes of text that is not ASCII.
pub uninterp spec fn lowercase(s: Seq<char>) -> Seq<char>;

/// `str::to_lowercase`: the Unicode lowercase mapping, which depends on the text
/// alone. Of ASCII text it maps the letters `A` to `Z` and nothing else.
#[verifier::external_body]
pub(crate) fn to_lowercase(s: &str) -> (r: String)
    ensures
        is_ascii_chars(s@) ==> r@ == ascii_lowercase(s@),
        !is_ascii_chars(s@) ==> r@ == lowercase(s@),
{
    s.to_lowercase()
}

/// ASCII text with `A` to `Z` mapped to `a` to `z`.
pub open spec fn ascii_lowercase(s: Seq<char>) -> Seq<char> {
    s.map_values(
        |c: char|
            if 'A' <= c <= 'Z' {
                (c as u32 + 32) as char
            } else {
                c
            },
    )
}

/// Text in lower case.
pub open spec fn lowered(s: Seq<char>) -> Seq<char> {
    if is_ascii_chars(s) {
        ascii_lowercase(s)
    } else {
        lowercase(s)
    }
}

// ---------------------------------------------------------------------------
// Characters, equality and order
// ---------------------------------------------------------------------------

/// The characters of `s`.
pub fn chars_of(s: &str) -> (v: Vec<char>)
    ensures
        v@ == s@,
{
    let mut v: Vec<char> = Vec::new();
    for c in it: s.chars()
        invariant
            v@ == s@.take(it.index()),
            it.seq() == s@,
    {
        v.push(c);
    }
    v
}

/// Whether two byte strings are equal.
pub fn same_bytes(a: &[u8], b: &[u8]) -> (r: bool)
    ensures
        r == (a@ == b@),
{
    if a.len() != b.len() {
        return false;
    }
    let mut i: usize = 0;
    while i < a.len()
        invariant
            a@.len() == b@.len(),
            0 <= i <= a@.len(),
            forall|j: int| 0 <= j < i ==> a@[j] == b@[j],
        decreases a@.len() - i,
    {
        if a[i] != b[i] {
            return false;
        }
        i += 1;
    }
    assert(a@ =~= b@);
    true
}

/// Whether two strings are equal.
pub fn same_text(a: &str, b: &str) -> (r: bool)
    ensures
        r == (a@ == b@),
{
    proof {
        vstd::utf8::encode_utf8_decode_utf8(a@);
        vstd::utf8::encode_utf8_decode_utf8(b@);
    }
    same_bytes(a.as_bytes(), b.as_bytes())
}

/// The lexicographic order of byte strings, which is also the order of strings.
pub open spec fn lex_le(a: Seq<u8>, b: Seq<u8>) -> bool
    decreases a.len(),
{
    a.len() == 0 || (b.len() > 0 && (a[0] < b[0] || (a[0] == b[0] && lex_le(
        a.drop_first(),
        b.drop_first(),
    ))))
}

/// Whether `a` does not come after `b`.
pub fn bytes_le(a: &[u8], b: &[u8]) -> (r: bool)
    ensures
        r == lex_le(a@, b@),
{
    let mut i: usize = 0;
    proof {
        assert(a@.skip(0) =~= a@);
        assert(b@.skip(0) =~= b@);
    }
    while i < a.len() && i < b.len() && a[i] == b[i]
        invariant
            0 <= i <= a@.len(),
            i <= b@.len(),
            lex_le(a@, b@) == lex_le(a@.skip(i as int), b@.skip(i as int)),
        decreases a@.len() - i,
    {
        proof {
            assert(a@.skip(i as int).drop_first() =~= a@.skip(i + 1));
            assert(b@.skip(i as int).drop_first() =~= b@.skip(i + 1));
        }
        i += 1;
    }
    i == a.len() || (i < b.len() && a[i] < b[i])
}

/// The lexicographic order is reflexive.
pub proof fn lex_le_reflexive(a: Seq<u8>)
    ensures
        lex_le(a, a),
    decreases a.len(),
{
    if a.len() > 0 {
        lex_le_reflexive(a.drop_first());
    }
}

/// Of two byte strings, one does not come after the other.
pub proof fn lex_le_total(a: Seq<u8>, b: Seq<u8>)
    ensures
        lex_le(a, b) || lex_le(b, a),
    decreases a.len(),
{
    if a.len() > 0 && b.len() > 0 {
        lex_le_total(a.drop_first(), b.drop_first());
    }
}

/// The lexicographic order is transitive.
pub proof fn lex_le_transitive(a: Seq<u8>, b: Seq<u8>, c: Seq<u8>)
    requires
        lex_le(a, b),
        lex_le(b, c),
    ensures
        lex_le(a, c),
    decreases a.len(),
{
    if a.len() > 0 && a[0] == b[0] && b[0] == c[0] {
        lex_le_transitive(a.drop_first(), b.drop_first(), c.drop_first());
    }
}

/// Two byte strings that do not come after each other are equal.
pub proof fn lex_le_antisymmetric(a: Seq<u8>, b: Seq<u8>)
    requires
        lex_le(a, b),
        lex_le(b, a),
    ensures
        a == b,
    decreases a.len(),
{
    if a.len() > 0 {
        lex_le_antisymmetric(a.drop_first(), b.drop_first());
        assert(a =~= seq![a[0]] + a.drop_first());
        assert(b =~= seq![b[0]] + b.drop_first());
    } else {
        assert(a =~= b);
    }
}

// ---------------------------------------------------------------------------
// Trimming
// ---------------------------------------------------------------------------

/// The characters with the Unicode property `White_Space`.
pub open spec fn is_white_space(c: char) -> bool {
    ||| '\u{9}' <= c <= '\u{d}'
    ||| c == '\u{20}'
    ||| c == '\u{85}'
    ||| c == '\u{a0}'
    ||| c == '\u{1680}'
    ||| '\u{2000}' <= c <= '\u{200a}'
    ||| c == '\u{2028}'
    ||| c == '\u{2029}'
    ||| c == '\u{202f}'
    ||| c == '\u{205f}'
    ||| c == '\u{3000}'
}

fn white_space(c: char) -> (r: bool)
    ensures
        r == is_white_space(c),
{
    ('\u{9}' <= c && c <= '\u{d}') || c == '\u{20}' || c == '\u{85}' || c == '\u{a0}' || c
        == '\u{1680}' || ('\u{2000}' <= c && c <= '\u{200a}') || c == '\u{2028}' || c == '\u{2029}'
        || c == '\u{202f}' || c == '\u{205f}' || c == '\u{3000}'
}

/// `s` without its leading white space.
pub open spec fn trimmed_start(s: Seq<char>) -> Seq<char>
    decreases s.len(),
{
    if s.len() > 0 && is_white_space(s[0]) {
        trimmed_start(s.drop_first())
    } else {
        s
    }
}

/// `s` without its trailing white space.
pub open spec fn trimmed_end(s: Seq<char>) -> Seq<char>
    decreases s.len(),
{
    if s.len() > 0 && is_white_space(s.last()) {
        trimmed_end(s.drop_last())
    } else {
        s
    }
}

/// `s` without the white space around it.
pub open spec fn trimmed(s: Seq<char>) -> Seq<char> {
    trimmed_end(trimmed_start(s))
}

/// `s` without the white space around it.
pub fn trim(s: &str) -> (r: &str)
    ensures
        r@ == trimmed(s@),
{
    let v: Vec<char> = chars_of(s);
    let mut from: usize = 0;
    assert(s@.skip(0) =~= s@);
    while from < v.len() && white_space(v[from])
        invariant
            v@ == s@,
            0 <= from <= v@.len(),
            trimmed_start(s@.skip(from as int)) == trimmed_start(s@),
        decreases v@.len() - from,
    {
        assert(s@.skip(from as int).drop_first() =~= s@.skip(from + 1));
        from += 1;
    }
    let mut to: usize = v.len();
    assert(s@.subrange(from as int, to as int) =~= s@.skip(from as int));
    while to > from && white_space(v[to - 1])
        invariant
            v@ == s@,
            from <= to <= v@.len(),
            trimmed_end(s@.subrange(from as int, to as int)) == trimmed(s@),
        decreases to,
    {
        assert(s@.subrange(from as int, to as int).drop_last() =~= s@.subrange(
            from as int,
            to - 1,
        ));
        to -= 1;
    }
    vstd::string::StrSliceExecFns::substring_char(s, from, to)
}

/// Trimmed text neither begins nor ends with white space.
pub proof fn trimmed_has_no_white_space_around(s: Seq<char>)
    ensures
        trimmed(s).len() > 0 ==> !is_white_space(trimmed(s)[0]) && !is_white_space(
            trimmed(s).last(),
        ),
{
    lemma_trimmed_start(s);
    lemma_trimmed_end(trimmed_start(s));
}

proof fn lemma_trimmed_start(s: Seq<char>)
    ensures
        trimmed_start(s).len() > 0 ==> !is_white_space(trimmed_start(s)[0]),
    decreases s.len(),
{
    if s.len() > 0 && is_white_space(s[0]) {
        lemma_trimmed_start(s.drop_first());
    }
}

proof fn lemma_trimmed_end(s: Seq<char>)
    ensures
        trimmed_end(s).len() > 0 ==> {
            &&& !is_white_space(trimmed_end(s).last())
            &&& s.len() > 0
            &&& trimmed_end(s)[0] == s[0]
        },
    decreases s.len(),
{
    if s.len() > 0 && is_white_space(s.last()) {
        lemma_trimmed_end(s.drop_last());
    }
}

/// Trimming trimmed text changes nothing.
pub proof fn trimmed_is_idempotent(s: Seq<char>)
    ensures
        trimmed(trimmed(s)) == trimmed(s),
{
    trimmed_has_no_white_space_around(s);
}

/// White space at the end is trimmed away.
pub proof fn trimming_drops_the_end(s: Seq<char>, c: char)
    requires
        is_white_space(c),
    ensures
        trimmed(s.push(c)) == trimmed(s),
{
    lemma_trimmed_start_of_push(s, c);
    let front = trimmed_start(s);
    if front.len() > 0 {
        assert(front.push(c).drop_last() =~= front);
    }
}

proof fn lemma_trimmed_start_of_push(s: Seq<char>, c: char)
    requires
        is_white_space(c),
    ensures
        trimmed_start(s.push(c)) == (if trimmed_start(s).len() == 0 {
            Seq::empty()
        } else {
            trimmed_start(s).push(c)
        }),
    decreases s.len(),
{
    let longer = s.push(c);
    if s.len() == 0 {
        assert(longer.drop_first() =~= Seq::empty());
        assert(trimmed_start(longer.drop_first()) =~= Seq::empty());
    } else if is_white_space(s[0]) {
        lemma_trimmed_start_of_push(s.drop_first(), c);
        assert(longer.drop_first() =~= s.drop_first().push(c));
    }
}

/// Trimming adds nothing: every character of the result was there before.
pub proof fn trimming_adds_nothing(s: Seq<char>)
    ensures
        forall|j: int|
            0 <= j < trimmed(s).len() ==> s.contains(#[trigger] trimmed(s)[j]),
{
    lemma_trimmed_start_is_a_suffix(s);
    lemma_trimmed_end_is_a_prefix(trimmed_start(s));
}

proof fn lemma_trimmed_start_is_a_suffix(s: Seq<char>)
    ensures
        trimmed_start(s).len() <= s.len(),
        trimmed_start(s) == s.skip(s.len() - trimmed_start(s).len()),
    decreases s.len(),
{
    if s.len() > 0 && is_white_space(s[0]) {
        lemma_trimmed_start_is_a_suffix(s.drop_first());
    }
    assert(trimmed_start(s) =~= s.skip(s.len() - trimmed_start(s).len()));
}

proof fn lemma_trimmed_end_is_a_prefix(s: Seq<char>)
    ensures
        trimmed_end(s).len() <= s.len(),
        trimmed_end(s) == s.take(trimmed_end(s).len() as int),
    decreases s.len(),
{
    if s.len() > 0 && is_white_space(s.last()) {
        lemma_trimmed_end_is_a_prefix(s.drop_last());
    }
    assert(trimmed_end(s) =~= s.take(trimmed_end(s).len() as int));
}

// ---------------------------------------------------------------------------
// Replacing and writing numbers
// ---------------------------------------------------------------------------

/// `s` with every `from` replaced by `to`.
pub open spec fn replaced(s: Seq<char>, from: char, to: Seq<char>) -> Seq<char>
    decreases s.len(),
{
    if s.len() == 0 {
        s
    } else {
        replaced(s.drop_last(), from, to) + (if s.last() == from {
            to
        } else {
            seq![s.last()]
        })
    }
}

/// `s` with every `from` replaced by `to`.
pub fn replace(s: &str, from: char, to: &str) -> (r: String)
    ensures
        r@ == replaced(s@, from, to@),
{
    let mut r: String = String::new();
    for c in it: s.chars()
        invariant
            it.seq() == s@,
            r@ == replaced(s@.take(it.index()), from, to@),
    {
        proof {
            let i = it.index();
            assert(s@.take(i + 1).drop_last() =~= s@.take(i));
            assert(s@.take(i + 1).last() == c);
            assert(r@.push(c) =~= r@ + seq![c]);
        }
        if c == from {
            vstd::string::StringExecFns::append(&mut r, to);
        } else {
            r.push(c);
        }
    }
    assert(s@.take(s@.len() as int) =~= s@);
    r
}

/// Replacing what does not occur changes nothing.
pub proof fn replacing_nothing(s: Seq<char>, from: char, to: Seq<char>)
    requires
        !s.contains(from),
    ensures
        replaced(s, from, to) == s,
    decreases s.len(),
{
    if s.len() > 0 {
        assert(s[s.len() - 1] != from);
        assert forall|i: int| 0 <= i < s.drop_last().len() implies s.drop_last()[i] != from by {
            assert(s.drop_last()[i] == s[i]);
        }
        replacing_nothing(s.drop_last(), from, to);
        assert(s.drop_last() + seq![s.last()] =~= s);
    }
}

/// What is replaced by something else is gone.
pub proof fn replacing_removes(s: Seq<char>, from: char, to: Seq<char>)
    requires
        !to.contains(from),
    ensures
        !replaced(s, from, to).contains(from),
    decreases s.len(),
{
    if s.len() > 0 {
        let front = replaced(s.drop_last(), from, to);
        let back = if s.last() == from {
            to
        } else {
            seq![s.last()]
        };
        replacing_removes(s.drop_last(), from, to);
        assert forall|i: int| 0 <= i < (front + back).len() implies (front + back)[i] != from by {
            if i < front.len() {
                assert(front.contains(front[i]));
            } else {
                assert(back.contains(back[i - front.len()]));
            }
        }
    }
}

/// Replacing one character by one works on each place by itself.
pub proof fn replacing_one_for_one(s: Seq<char>, from: char, to: char)
    ensures
        replaced(s, from, seq![to]) == s.map_values(
            |c: char|
                if c == from {
                    to
                } else {
                    c
                },
        ),
    decreases s.len(),
{
    if s.len() > 0 {
        replacing_one_for_one(s.drop_last(), from, to);
    }
    assert(replaced(s, from, seq![to]) =~= s.map_values(
        |c: char|
            if c == from {
                to
            } else {
                c
            },
    ));
}

/// The decimal digits of `n`.
pub open spec fn decimal_text(n: nat) -> Seq<char>
    decreases n,
{
    let digit = ('0' as u32 + n % 10) as char;
    if n < 10 {
        seq![digit]
    } else {
        decimal_text(n / 10).push(digit)
    }
}

/// A number of 64 bits has at most 20 digits.
pub proof fn decimal_is_short(n: nat)
    requires
        n <= u64::MAX,
    ensures
        decimal_text(n).len() <= 20,
{
    assert(pow(10, 20) == 100_000_000_000_000_000_000) by {
        reveal_with_fuel(pow, 21);
    }
    lemma_decimal_len(n, 20);
}

proof fn lemma_decimal_len(n: nat, k: nat)
    requires
        k >= 1,
        n < pow(10, k),
    ensures
        decimal_text(n).len() <= k,
    decreases k,
{
    if n >= 10 {
        if k == 1 {
            reveal_with_fuel(pow, 2);
        } else {
            reveal_with_fuel(pow, 2);
            assert(pow(10, k) == 10 * pow(10, (k - 1) as nat));
            lemma_decimal_len(n / 10, (k - 1) as nat);
        }
    }
}

fn digit_char(d: u64) -> (c: char)
    requires
        d < 10,
    ensures
        c == ('0' as u32 + d) as char,
{
    if d == 0 {
        '0'
    } else if d == 1 {
        '1'
    } else if d == 2 {
        '2'
    } else if d == 3 {
        '3'
    } else if d == 4 {
        '4'
    } else if d == 5 {
        '5'
    } else if d == 6 {
        '6'
    } else if d == 7 {
        '7'
    } else if d == 8 {
        '8'
    } else {
        '9'
    }
}

/// The decimal digits of `n`.
pub fn decimal(n: u64) -> (r: String)
    ensures
        r@ == decimal_text(n as nat),
    decreases n,
{
    if n < 10 {
        let mut r: String = String::new();
        r.push(digit_char(n));
        assert(r@ =~= decimal_text(n as nat));
        r
    } else {
        let mut r: String = decimal(n / 10);
        r.push(digit_char(n % 10));
        r
    }
}

/// The UTF-8 bytes of `s`.
pub fn bytes_of(s: &str) -> (r: Vec<u8>)
    ensures
        r@ == encode_utf8(s@),
{
    vstd::slice::slice_to_vec(s.as_bytes())
}

/// `a` followed by `b`.
pub fn concat(a: &str, b: &str) -> (r: String)
    ensures
        r@ == a@ + b@,
{
    let mut r: String = a.to_owned();
    vstd::string::StringExecFns::append(&mut r, b);
    r
}

// ---------------------------------------------------------------------------
// What the operations mean
// ---------------------------------------------------------------------------

/// White space is what Unicode says: these code points and no others.
pub proof fn white_space_is_what_unicode_says(c: char)
    ensures
        is_white_space(c) <==> {
            let n = c as u32;
            ||| n == 0x9 || n == 0xa || n == 0xb || n == 0xc || n == 0xd || n == 0x20
            ||| n == 0x85 || n == 0xa0 || n == 0x1680
            ||| n == 0x2000 || n == 0x2001 || n == 0x2002 || n == 0x2003 || n == 0x2004
            ||| n == 0x2005 || n == 0x2006 || n == 0x2007 || n == 0x2008 || n == 0x2009
            ||| n == 0x200a || n == 0x2028 || n == 0x2029 || n == 0x202f || n == 0x205f
            ||| n == 0x3000
        },
{
}

/// Trimming takes away white space at both ends, all of it, and nothing else.
pub proof fn trimming_is_exact(s: Seq<char>)
    ensures
        exists|from: int, to: int|
            {
                &&& 0 <= from <= to <= s.len()
                &&& trimmed(s) == #[trigger] s.subrange(from, to)
                &&& forall|k: int| 0 <= k < from ==> is_white_space(#[trigger] s[k])
                &&& forall|k: int| to <= k < s.len() ==> is_white_space(#[trigger] s[k])
                &&& from < to ==> !is_white_space(s[from]) && !is_white_space(s[to - 1])
            },
{
    let a = trimmed_start(s);
    let from = s.len() - a.len();
    lemma_trimmed_start_is_a_suffix(s);
    lemma_start_drops_white_space(s);
    let b = trimmed_end(a);
    lemma_trimmed_end_is_a_prefix(a);
    lemma_end_drops_white_space(a);
    let to = from + b.len();
    assert(trimmed(s) =~= s.subrange(from, to));
    assert forall|k: int| to <= k < s.len() implies is_white_space(#[trigger] s[k]) by {
        assert(a[k - from] == s[k]);
    }
    trimmed_has_no_white_space_around(s);
    if from < to {
        assert(trimmed(s)[0] == s[from]);
        assert(trimmed(s).last() == s[to - 1]);
    }
}

proof fn lemma_start_drops_white_space(s: Seq<char>)
    ensures
        forall|k: int|
            0 <= k < s.len() - trimmed_start(s).len() ==> is_white_space(#[trigger] s[k]),
    decreases s.len(),
{
    if s.len() > 0 && is_white_space(s[0]) {
        let rest = s.drop_first();
        lemma_start_drops_white_space(rest);
        assert forall|k: int| 0 <= k < s.len() - trimmed_start(s).len() implies is_white_space(
            #[trigger] s[k],
        ) by {
            if k > 0 {
                assert(rest[k - 1] == s[k]);
            }
        }
    }
}

proof fn lemma_end_drops_white_space(s: Seq<char>)
    ensures
        forall|k: int| trimmed_end(s).len() <= k < s.len() ==> is_white_space(#[trigger] s[k]),
    decreases s.len(),
{
    if s.len() > 0 && is_white_space(s.last()) {
        let front = s.drop_last();
        lemma_end_drops_white_space(front);
        assert forall|k: int| trimmed_end(s).len() <= k < s.len() implies is_white_space(
            #[trigger] s[k],
        ) by {
            if k < front.len() {
                assert(front[k] == s[k]);
            }
        }
    }
}

/// Replacing works on each character by itself: on one that is replaced, on one that
/// is not, and on texts put together.
pub proof fn replacing_is_piece_by_piece(
    a: Seq<char>,
    b: Seq<char>,
    c: char,
    from: char,
    to: Seq<char>,
)
    ensures
        replaced(a + b, from, to) == replaced(a, from, to) + replaced(b, from, to),
        replaced(seq![from], from, to) == to,
        c != from ==> replaced(seq![c], from, to) == seq![c],
        replaced(Seq::empty(), from, to) == Seq::<char>::empty(),
    decreases b.len(),
{
    let nothing = Seq::<char>::empty();
    assert(seq![from].drop_last() =~= nothing);
    assert(seq![c].drop_last() =~= nothing);
    assert(replaced(nothing, from, to) =~= nothing);
    assert(nothing + to =~= to);
    assert(nothing + seq![c] =~= seq![c]);
    if b.len() == 0 {
        assert(a + b =~= a);
        assert(replaced(a, from, to) + replaced(b, from, to) =~= replaced(a, from, to));
    } else {
        replacing_is_piece_by_piece(a, b.drop_last(), c, from, to);
        assert((a + b).drop_last() =~= a + b.drop_last());
        let x = replaced(a, from, to);
        let y = replaced(b.drop_last(), from, to);
        let z = if b.last() == from {
            to
        } else {
            seq![b.last()]
        };
        assert((x + y) + z =~= x + (y + z));
    }
}

/// The number that decimal digits stand for.
pub open spec fn digits_value(s: Seq<char>) -> int
    decreases s.len(),
{
    if s.len() == 0 {
        0
    } else {
        10 * digits_value(s.drop_last()) + (s.last() as int - '0' as int)
    }
}

/// Decimal digits read back as the number, and there is no zero too many in front.
pub proof fn decimal_reads_back(n: nat)
    ensures
        digits_value(decimal_text(n)) == n,
        decimal_text(n).len() > 0,
        forall|i: int|
            0 <= i < decimal_text(n).len() ==> '0' <= #[trigger] decimal_text(n)[i] <= '9',
        decimal_text(n)[0] == '0' ==> n == 0,
    decreases n,
{
    let digit = ('0' as u32 + n % 10) as char;
    if n < 10 {
        let s = seq![digit];
        assert(s.drop_last() =~= Seq::empty());
        assert(digits_value(s.drop_last()) == 0);
        assert(s.last() == digit);
    } else {
        decimal_reads_back(n / 10);
        let front = decimal_text(n / 10);
        assert(front.push(digit).drop_last() =~= front);
    }
}

/// The order of byte strings is decided by the first byte in which they differ; a
/// string comes before those that it begins.
pub proof fn first_difference_decides(a: Seq<u8>, b: Seq<u8>, k: int)
    requires
        0 <= k <= a.len(),
        k <= b.len(),
        forall|i: int| 0 <= i < k ==> #[trigger] a[i] == b[i],
        k < a.len() && k < b.len() ==> a[k] != b[k],
    ensures
        k == a.len() ==> lex_le(a, b),
        k < a.len() ==> (lex_le(a, b) <==> k < b.len() && a[k] < b[k]),
    decreases k,
{
    if k > 0 {
        let x = a.drop_first();
        let y = b.drop_first();
        assert(a[0] == b[0]);
        assert forall|i: int| 0 <= i < k - 1 implies #[trigger] x[i] == y[i] by {
            assert(a[i + 1] == b[i + 1]);
        }
        first_difference_decides(x, y, k - 1);
    }
}

/// Lower case of ASCII text moves `A` to `Z` by 32 places, and nothing else.
pub proof fn lower_case_is_letter_by_letter(s: Seq<char>, i: int)
    requires
        is_ascii_chars(s),
        0 <= i < s.len(),
    ensures
        lowered(s).len() == s.len(),
        lowered(s)[i] as int == s[i] as int + (if 65 <= s[i] as int <= 90 {
            32int
        } else {
            0
        }),
{
}

/// Text that is not ASCII is in lower case as the standard library has it, and bytes are
/// shown as the text that they are, or as the standard library replaces them.
pub proof fn the_rest_is_the_standard_librarys(s: Seq<char>, bytes: Seq<u8>)
    ensures
        !is_ascii_chars(s) ==> lowered(s) == lowercase(s),
        valid_utf8(bytes) ==> shown_text(bytes) == decode_utf8(bytes),
        !valid_utf8(bytes) ==> shown_text(bytes) == lossy_text(bytes),
{
}

} // verus!
