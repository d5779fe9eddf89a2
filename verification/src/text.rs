//! Operations on text, with characters as their model.

use vstd::prelude::*;

verus! {

/// The characters that Unicode gives the property `White_Space`.
pub open spec fn is_white_space(c: char) -> bool {
    ||| '\u{9}' <= c <= '\u{d}'
    ||| c == '\u{20}'
    ||| c == '\u{85}'
    ||| c == '\u{a0}'
    ||| c == '\u{1680}'
    ||| '\u{2000}' <= c <= '\u{200a}'
    ||| c == '\u{2028}'
    ||| c == '\u{2029}'
    ||| c == '\u{202f}'
    ||| c == '\u{205f}'
    ||| c == '\u{3000}'
}

/// `s` without the white space at its start.
pub open spec fn trimmed_start(s: Seq<char>) -> Seq<char>
    decreases s.len(),
{
    if s.len() > 0 && is_white_space(s.first()) {
        trimmed_start(s.drop_first())
    } else {
        s
    }
}

/// `s` without the white space at its end.
pub open spec fn trimmed_end(s: Seq<char>) -> Seq<char>
    decreases s.len(),
{
    if s.len() > 0 && is_white_space(s.last()) {
        trimmed_end(s.drop_last())
    } else {
        s
    }
}

/// `s` without the white space at its two ends.
pub open spec fn trimmed(s: Seq<char>) -> Seq<char> {
    trimmed_end(trimmed_start(s))
}

/// Calls `str::trim`, which takes the leading and the trailing white space off, white space being
/// what Unicode's `White_Space` says.
#[verifier::external_body]
pub(crate) fn trim(s: &str) -> (r: &str)
    ensures
        r@ == trimmed(s@),
{
    s.trim()
}

/// The lowercase form of a text.
pub uninterp spec fn lowercase(s: Seq<char>) -> Seq<char>;

/// Calls `str::to_lowercase`, whose result is a function of the text alone.
#[verifier::external_body]
pub(crate) fn to_lowercase(s: &str) -> (r: String)
    ensures
        r@ == lowercase(s@),
{
    s.to_lowercase()
}

/// The ASCII capital letters lowered, all other characters kept.
pub open spec fn ascii_lower(c: char) -> char {
    if 'A' <= c <= 'Z' {
        (c as u32 + 32) as char
    } else {
        c
    }
}

/// Whether two texts differ in the case of ASCII letters at most.
pub open spec fn same_ignoring_ascii_case(a: Seq<char>, b: Seq<char>) -> bool {
    a.map_values(|c: char| ascii_lower(c)) == b.map_values(|c: char| ascii_lower(c))
}

/// Calls `str::eq_ignore_ascii_case`, which compares the two texts with their ASCII letters
/// lowered.
#[verifier::external_body]
pub(crate) fn eq_ignore_ascii_case(a: &str, b: &str) -> (r: bool)
    ensures
        r == same_ignoring_ascii_case(a@, b@),
{
    a.eq_ignore_ascii_case(b)
}

/// The order of texts: the first character in which they differ decides, by its code point, and
/// a text stands before what it is a proper start of.
pub open spec fn precedes(a: Seq<char>, b: Seq<char>) -> bool
    decreases a.len(),
{
    if b.len() == 0 {
        false
    } else if a.len() == 0 {
        true
    } else if a[0] != b[0] {
        a[0] < b[0]
    } else {
        precedes(a.drop_first(), b.drop_first())
    }
}

/// Calls `<` of `str`, the lexicographic order by code points.
#[verifier::external_body]
pub(crate) fn str_precedes(a: &str, b: &str) -> (r: bool)
    ensures
        r == precedes(a@, b@),
{
    a < b
}

/// Nothing precedes itself.
pub proof fn lemma_precedes_irreflexive(a: Seq<char>)
    ensures
        !precedes(a, a),
    decreases a.len(),
{
    if a.len() > 0 {
        lemma_precedes_irreflexive(a.drop_first());
    }
}

/// The order of texts is transitive.
pub proof fn lemma_precedes_transitive(a: Seq<char>, b: Seq<char>, c: Seq<char>)
    requires
        precedes(a, b),
        precedes(b, c),
    ensures
        precedes(a, c),
    decreases a.len(),
{
    if a.len() > 0 && a[0] == b[0] && b[0] == c[0] {
        lemma_precedes_transitive(a.drop_first(), b.drop_first(), c.drop_first());
    }
}

/// Of two different texts one precedes the other.
pub proof fn lemma_precedes_total(a: Seq<char>, b: Seq<char>)
    ensures
        a == b || precedes(a, b) || precedes(b, a),
    decreases a.len(),
{
    if a.len() > 0 && b.len() > 0 && a[0] == b[0] {
        lemma_precedes_total(a.drop_first(), b.drop_first());
        if a.drop_first() == b.drop_first() {
            assert(a =~= seq![a[0]] + a.drop_first());
            assert(b =~= seq![b[0]] + b.drop_first());
        }
    } else if a.len() == 0 && b.len() == 0 {
        assert(a =~= b);
    }
}

/// The texts one after the other, with `separator` between each two.
pub open spec fn joined(texts: Seq<Seq<char>>, separator: Seq<char>) -> Seq<char>
    decreases texts.len(),
{
    if texts.len() == 0 {
        Seq::empty()
    } else if texts.len() == 1 {
        texts[0]
    } else {
        joined(texts.drop_last(), separator) + separator + texts.last()
    }
}

/// Joins the texts, with `separator` between each two.
pub fn join(texts: &Vec<String>, separator: &str) -> (r: String)
    ensures
        r@ == joined(texts.deep_view(), separator@),
{
    let mut r = String::new();
    let mut i: usize = 0;
    assert(texts.deep_view().take(0) =~= Seq::<Seq<char>>::empty());
    while i < texts.len()
        invariant
            i <= texts.len(),
            r@ == joined(texts.deep_view().take(i as int), separator@),
        decreases texts.len() - i,
    {
        let ghost before = texts.deep_view().take(i as int);
        let ghost after = texts.deep_view().take(i + 1);
        assert(after.drop_last() =~= before);
        assert(after.last() == texts@[i as int]@);
        if i > 0 {
            r.append(separator);
        }
        r.append(texts[i].as_str());
        i = i + 1;
        assert(r@ =~= joined(after, separator@));
    }
    assert(texts.deep_view().take(texts.len() as int) =~= texts.deep_view());
    r
}

/// The decimal digit of `d`.
pub open spec fn digit(d: nat) -> char {
    ('0' as u32 + d) as char
}

/// The decimal form of `n`, without leading zeros.
pub open spec fn decimal(n: nat) -> Seq<char>
    decreases n,
{
    if n < 10 {
        seq![digit(n)]
    } else {
        decimal(n / 10).push(digit(n % 10))
    }
}

fn digit_text(d: u64) -> (r: &'static str)
    requires
        d < 10,
    ensures
        r@ == seq![digit(d as nat)],
{
    proof {
        reveal_strlit("0");
        reveal_strlit("1");
        reveal_strlit("2");
        reveal_strlit("3");
        reveal_strlit("4");
        reveal_strlit("5");
        reveal_strlit("6");
        reveal_strlit("7");
        reveal_strlit("8");
        reveal_strlit("9");
    }
    let r = match d {
        0 => "0",
        1 => "1",
        2 => "2",
        3 => "3",
        4 => "4",
        5 => "5",
        6 => "6",
        7 => "7",
        8 => "8",
        _ => "9",
    };
    assert(r@ =~= seq![digit(d as nat)]);
    r
}

/// Writes `n` in decimal.
pub fn decimal_text(n: u64) -> (r: String)
    ensures
        r@ == decimal(n as nat),
    decreases n,
{
    if n < 10 {
        digit_text(n).to_owned()
    } else {
        let mut r = decimal_text(n / 10);
        r.append(digit_text(n % 10));
        assert(r@ =~= decimal(n as nat / 10).push(digit(n as nat % 10)));
        r
    }
}

/// Whether `s` ends with `suffix`.
pub open spec fn has_suffix(s: Seq<char>, suffix: Seq<char>) -> bool {
    &&& s.len() >= suffix.len()
    &&& s.skip(s.len() - suffix.len()) == suffix
}

/// Tells whether `s` ends with `suffix`.
pub fn ends_with(s: &str, suffix: &str) -> (r: bool)
    ensures
        r == has_suffix(s@, suffix@),
{
    let n = s.unicode_len();
    let k = suffix.unicode_len();
    if n < k {
        return false;
    }
    assert(s@.skip(s@.len() - suffix@.len()) =~= s@.subrange(n - k, n as int));
    same_text(s.substring_char(n - k, n), suffix)
}

/// Tells whether two texts have the same characters.
pub fn same_text(a: &str, b: &str) -> (r: bool)
    ensures
        r == (a@ == b@),
{
    a.to_owned() == b.to_owned()
}

proof fn lemma_trimmed_start(s: Seq<char>)
    ensures
        trimmed_start(s).len() == 0 || !is_white_space(trimmed_start(s).first()),
        trimmed_start(s).len() <= s.len(),
    decreases s.len(),
{
    if s.len() > 0 && is_white_space(s.first()) {
        lemma_trimmed_start(s.drop_first());
    }
}

proof fn lemma_trimmed_end(s: Seq<char>)
    ensures
        trimmed_end(s).len() == 0 || !is_white_space(trimmed_end(s).last()),
        trimmed_end(s).len() > 0 ==> trimmed_end(s).first() == s.first(),
    decreases s.len(),
{
    if s.len() > 0 && is_white_space(s.last()) {
        lemma_trimmed_end(s.drop_last());
    }
}

/// A text without white space at its two ends is not changed by trimming, and trimming leaves
/// none there.
pub proof fn lemma_trimmed(s: Seq<char>)
    ensures
        s.len() > 0 && !is_white_space(s.first()) && !is_white_space(s.last()) ==> trimmed(s) == s,
        trimmed(trimmed(s)) == trimmed(s),
{
    lemma_trimmed_start(s);
    lemma_trimmed_end(trimmed_start(s));
}

/// The decimal form of a number ends with a digit.
pub proof fn lemma_decimal_ends(n: nat)
    ensures
        decimal(n).len() > 0,
        !is_white_space(decimal(n).last()),
{
    let d = n % 10;
    assert(digit(d) as u32 == '0' as u32 + d);
}

/// Texts are joined with the separator between each two: the texts before a place and those behind
/// it are joined on their own, with one separator between them. One text stays as it is, and of no
/// texts nothing comes.
pub proof fn law_joined_piecewise(a: Seq<Seq<char>>, b: Seq<Seq<char>>, separator: Seq<char>)
    ensures
        a.len() == 0 ==> joined(a, separator).len() == 0,
        a.len() == 1 ==> joined(a, separator) == a[0],
        a.len() > 0 && b.len() > 0 ==> joined(a + b, separator) == joined(a, separator) + separator
            + joined(b, separator),
    decreases b.len(),
{
    if a.len() > 0 && b.len() > 0 {
        let all = a + b;
        assert(all.drop_last() =~= a + b.drop_last());
        assert(all.last() == b.last());
        if b.len() == 1 {
            assert(all.drop_last() =~= a);
        } else {
            law_joined_piecewise(a, b.drop_last(), separator);
        }
        assert(joined(all, separator) =~= joined(a, separator) + separator + joined(b, separator));
    }
}

/// The number that a row of digits denotes, the last digit counting ones.
pub open spec fn denoted(digits: Seq<char>) -> int
    decreases digits.len(),
{
    if digits.len() == 0 {
        0
    } else {
        denoted(digits.drop_last()) * 10 + (digits.last() as u32 - '0' as u32)
    }
}

/// The decimal form of a number denotes it, consists of digits, and starts with a zero only where
/// it is the zero.
pub proof fn law_decimal_denotes_the_number(n: nat)
    ensures
        denoted(decimal(n)) == n,
        decimal(n).len() > 0,
        forall|i: int| 0 <= i < decimal(n).len() ==> '0' <= #[trigger] decimal(n)[i] <= '9',
        n > 0 ==> decimal(n)[0] != '0',
        n == 0 ==> decimal(n) == seq!['0'],
    decreases n,
{
    let d = n % 10;
    assert(digit(d) as u32 == '0' as u32 + d);
    if n < 10 {
        assert(decimal(n).drop_last() =~= Seq::empty());
        assert(decimal(n).last() == digit(n));
        assert(denoted(decimal(n).drop_last()) == 0);
    } else {
        law_decimal_denotes_the_number(n / 10);
        assert(decimal(n).drop_last() =~= decimal(n / 10));
        assert(decimal(n).last() == digit(d));
    }
}

/// A text ends with another one exactly where it is some text followed by that one.
pub proof fn law_suffix_is_what_follows(s: Seq<char>, suffix: Seq<char>)
    ensures
        has_suffix(s, suffix) <==> exists|start: Seq<char>| s == #[trigger] (start + suffix),
{
    if has_suffix(s, suffix) {
        let start = s.take(s.len() - suffix.len());
        assert(s =~= start + suffix);
    }
    if exists|start: Seq<char>| s == #[trigger] (start + suffix) {
        let start = choose|start: Seq<char>| s == #[trigger] (start + suffix);
        assert(s.skip(s.len() - suffix.len()) =~= suffix);
    }
}

} // verus!
