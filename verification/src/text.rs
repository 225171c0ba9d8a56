//! What the library needs of text beyond what is specified of strings already.

use vstd::prelude::*;

verus! {

/// What `String::from_utf8_lossy` makes of bytes.
pub uninterp spec fn lossy_utf8(bytes: Seq<u8>) -> Seq<char>;

/// The text that bytes stand for: the decoded text where they are UTF-8, else whatever
/// `String::from_utf8_lossy` makes of them.
pub open spec fn text_of(bytes: Seq<u8>) -> Seq<char> {
    if vstd::utf8::valid_utf8(bytes) {
        vstd::utf8::decode_utf8(bytes)
    } else {
        lossy_utf8(bytes)
    }
}

/// What `str::to_lowercase` makes of a text.
pub uninterp spec fn lowercase(text: Seq<char>) -> Seq<char>;

/// The characters that are whitespace, as Unicode lists them.
pub open spec fn whitespace(c: char) -> bool {
    ||| '\u{9}' <= c <= '\u{D}'
    ||| c == '\u{20}'
    ||| c == '\u{85}'
    ||| c == '\u{A0}'
    ||| c == '\u{1680}'
    ||| '\u{2000}' <= c <= '\u{200A}'
    ||| c == '\u{2028}'
    ||| c == '\u{2029}'
    ||| c == '\u{202F}'
    ||| c == '\u{205F}'
    ||| c == '\u{3000}'
}

/// The bytes of a text stand for that text.
pub proof fn lemma_text_roundtrip(chars: Seq<char>)
    ensures
        text_of(vstd::utf8::encode_utf8(chars)) == chars,
{
    vstd::utf8::encode_utf8_valid_utf8(chars);
    vstd::utf8::encode_utf8_decode_utf8(chars);
}

/// Calls `String::from_utf8_lossy`: bytes that are not UTF-8 come out with replacement
/// characters, in a way that only the bytes decide; valid UTF-8 comes out as it is.
#[verifier::external_body]
fn from_utf8_lossy(bytes: &[u8]) -> (r: String)
    ensures
        r@ == lossy_utf8(bytes@),
        vstd::utf8::valid_utf8(bytes@) ==> r@ == vstd::utf8::decode_utf8(bytes@),
{
    String::from_utf8_lossy(bytes).into_owned()
}

/// Calls `str::to_lowercase`: the lower-case form of the text by the rules of Unicode, which
/// only the text decides.
#[verifier::external_body]
pub(crate) fn str_to_lowercase(s: &str) -> (r: String)
    ensures
        r@ == lowercase(s@),
{
    s.to_lowercase()
}

/// Whether a character is whitespace.
pub fn is_whitespace(c: char) -> (r: bool)
    ensures
        r == whitespace(c),
{
    ('\u{9}' <= c && c <= '\u{D}') || c == '\u{20}' || c == '\u{85}' || c == '\u{A0}' || c
        == '\u{1680}' || ('\u{2000}' <= c && c <= '\u{200A}') || c == '\u{2028}' || c == '\u{2029}'
        || c == '\u{202F}' || c == '\u{205F}' || c == '\u{3000}'
}

/// The text that bytes stand for.
pub fn decode_text(bytes: &[u8]) -> (r: String)
    ensures
        r@ == text_of(bytes@),
{
    from_utf8_lossy(bytes)
}

/// Whether two texts are the same.
pub fn same_text(a: &str, b: &str) -> (r: bool)
    ensures
        r == (a@ == b@),
{
    a.to_owned() == b.to_owned()
}

/// The characters of a text.
pub fn characters(s: &str) -> (r: Vec<char>)
    ensures
        r@ == s@,
{
    let n: usize = s.unicode_len();
    let mut out: Vec<char> = Vec::new();
    let mut i: usize = 0;
    while i < n
        invariant
            i <= n,
            n == s@.len(),
            out@ == s@.take(i as int),
        decreases n - i,
    {
        out.push(s.get_char(i));
        i = i + 1;
        assert(out@ =~= s@.take(i as int));
    }
    assert(s@.take(n as int) =~= s@);
    out
}

/// `needle` stands in `hay` at the position `at`.
pub open spec fn stands_at<T>(hay: Seq<T>, needle: Seq<T>, at: int) -> bool {
    0 <= at && at + needle.len() <= hay.len() && hay.subrange(at, at + needle.len()) == needle
}

/// `needle` stands somewhere in `hay`.
pub open spec fn contains_seq<T>(hay: Seq<T>, needle: Seq<T>) -> bool {
    exists|at: int| stands_at(hay, needle, at)
}

/// Whether `needle` stands somewhere in `hay`.
pub fn contains_text(hay: &str, needle: &str) -> (r: bool)
    ensures
        r == contains_seq(hay@, needle@),
{
    let h: Vec<char> = characters(hay);
    let n: Vec<char> = characters(needle);
    let hl: usize = h.len();
    let nl: usize = n.len();
    if nl > hl {
        return false;
    }
    let mut at: usize = 0;
    while at <= hl - nl
        invariant
            hl == h@.len(),
            nl == n@.len(),
            nl <= hl,
            h@ == hay@,
            n@ == needle@,
            at <= hl - nl + 1,
            forall|p: int| 0 <= p < at ==> !#[trigger] stands_at(hay@, needle@, p),
        decreases hl - at,
    {
        let mut i: usize = 0;
        while i < nl && h[at + i] == n[i]
            invariant
                hl == h@.len(),
                nl == n@.len(),
                at + nl <= hl,
                i <= nl,
                forall|k: int| 0 <= k < i ==> h@[at + k] == #[trigger] n@[k],
            decreases nl - i,
        {
            i = i + 1;
        }
        if i == nl {
            assert(hay@.subrange(at as int, at + nl) =~= needle@);
            assert(stands_at(hay@, needle@, at as int));
            return true;
        }
        proof {
            if stands_at(hay@, needle@, at as int) {
                assert(hay@.subrange(at as int, at + nl)[i as int] == h@[at + i]);
            }
        }
        if at == hl - nl {
            return false;
        }
        at = at + 1;
    }
    false
}

/// The position behind the whitespace at the start of a text.
pub open spec fn text_start(s: Seq<char>) -> int
    decreases s.len(),
{
    if s.len() == 0 || !whitespace(s[0]) {
        0
    } else {
        1 + text_start(s.skip(1))
    }
}

/// A text without the whitespace at its end.
pub open spec fn trimmed_end(s: Seq<char>) -> Seq<char>
    decreases s.len(),
{
    if s.len() == 0 || !whitespace(s.last()) {
        s
    } else {
        trimmed_end(s.drop_last())
    }
}

/// A text without the whitespace at its start and its end.
pub open spec fn trimmed(s: Seq<char>) -> Seq<char> {
    trimmed_end(s.skip(text_start(s)))
}

/// A text without the whitespace at its start and its end.
pub fn trim_text(s: &str) -> (r: String)
    ensures
        r@ == trimmed(s@),
{
    let c: Vec<char> = characters(s);
    let n: usize = c.len();
    let mut from: usize = 0;
    assert(s@.skip(0) =~= s@);
    while from < n && is_whitespace(c[from])
        invariant
            from <= n,
            n == c@.len(),
            c@ == s@,
            text_start(s@) == from + text_start(s@.skip(from as int)),
        decreases n - from,
    {
        assert(s@.skip(from as int).skip(1) =~= s@.skip(from + 1));
        from = from + 1;
    }
    let mut to: usize = n;
    assert(s@.subrange(from as int, n as int) =~= s@.skip(from as int));
    while to > from && is_whitespace(c[to - 1])
        invariant
            from <= to <= n,
            n == c@.len(),
            c@ == s@,
            trimmed(s@) == trimmed_end(s@.subrange(from as int, to as int)),
        decreases to - from,
    {
        assert(s@.subrange(from as int, to as int).drop_last() =~= s@.subrange(
            from as int,
            to - 1,
        ));
        to = to - 1;
    }
    s.substring_char(from, to).to_owned()
}

/// Trimming leaves a part of the text, with no whitespace at either end.
pub proof fn lemma_trimmed(s: Seq<char>)
    ensures
        trimmed(s).len() > 0 ==> !whitespace(trimmed(s)[0]) && !whitespace(trimmed(s).last()),
        contains_seq(s, trimmed(s)),
        trimmed(trimmed(s)) == trimmed(s),
{
    let from = text_start(s);
    lemma_text_start_reached(s);
    let t = s.skip(from);
    lemma_trimmed_end(t);
    let r = trimmed(s);
    assert(s.subrange(from, from + r.len()) =~= r);
    assert(stands_at(s, r, from));
    assert(r.skip(0) =~= r);
}

/// The text proper starts with no whitespace.
proof fn lemma_text_start_reached(s: Seq<char>)
    ensures
        0 <= text_start(s) <= s.len(),
        text_start(s) < s.len() ==> !whitespace(s[text_start(s)]),
    decreases s.len(),
{
    if s.len() > 0 && whitespace(s[0]) {
        lemma_text_start_reached(s.skip(1));
    }
}

/// Trimming the end leaves a prefix that ends with no whitespace.
proof fn lemma_trimmed_end(s: Seq<char>)
    ensures
        trimmed_end(s).len() <= s.len(),
        trimmed_end(s) == s.take(trimmed_end(s).len() as int),
        trimmed_end(s).len() > 0 ==> !whitespace(trimmed_end(s).last()),
        trimmed_end(s).len() == 0 ==> forall|i: int|
            0 <= i < s.len() ==> whitespace(#[trigger] s[i]),
    decreases s.len(),
{
    if s.len() > 0 && whitespace(s.last()) {
        lemma_trimmed_end(s.drop_last());
        assert(s.drop_last().take(trimmed_end(s).len() as int) =~= s.take(
            trimmed_end(s).len() as int,
        ));
        assert forall|i: int| trimmed_end(s).len() == 0 && 0 <= i < s.len() implies whitespace(
            #[trigger] s[i],
        ) by {
            if i < s.len() - 1 {
                assert(s.drop_last()[i] == s[i]);
            }
        }
    } else {
        assert(s.take(s.len() as int) =~= s);
    }
}

} // verus!
