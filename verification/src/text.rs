//! Text helpers shared by the other modules: the order in which names are
//! compared, trimming, and decimal rendering of counters.

use vstd::prelude::*;
use vstd::string::StrSliceExecFns;
use vstd::string::StringExecFns;
use vstd::utf8::decode_utf8;
use vstd::utf8::valid_utf8;

verus! {

/// Lexicographic order on character sequences, by code point. A proper prefix
/// comes before every sequence that extends it.
pub open spec fn lex_le(a: Seq<char>, b: Seq<char>) -> bool
    decreases a.len(),
{
    if a.len() == 0 {
        true
    } else if b.len() == 0 {
        false
    } else if a[0] != b[0] {
        (a[0] as u32) < (b[0] as u32)
    } else {
        lex_le(a.drop_first(), b.drop_first())
    }
}

/// Distinct characters have distinct code points.
pub proof fn lemma_code_points_differ(c: char, d: char)
    requires
        c != d,
    ensures
        c as u32 != d as u32,
{
    vstd::utf8::char_u32_cast(c, c as u32);
    vstd::utf8::char_u32_cast(d, d as u32);
}

/// `lex_le` relates every sequence to itself.
pub proof fn lemma_lex_le_reflexive(a: Seq<char>)
    ensures
        lex_le(a, a),
    decreases a.len(),
{
    if a.len() > 0 {
        lemma_lex_le_reflexive(a.drop_first());
    }
}

/// Any two sequences are comparable under `lex_le`.
pub proof fn lemma_lex_le_total(a: Seq<char>, b: Seq<char>)
    ensures
        lex_le(a, b) || lex_le(b, a),
    decreases a.len(),
{
    if a.len() > 0 && b.len() > 0 {
        if a[0] == b[0] {
            lemma_lex_le_total(a.drop_first(), b.drop_first());
        } else {
            lemma_code_points_differ(a[0], b[0]);
        }
    }
}

/// `lex_le` is transitive.
pub proof fn lemma_lex_le_transitive(a: Seq<char>, b: Seq<char>, c: Seq<char>)
    requires
        lex_le(a, b),
        lex_le(b, c),
    ensures
        lex_le(a, c),
    decreases a.len(),
{
    if a.len() > 0 && b.len() > 0 && c.len() > 0 {
        if a[0] == b[0] && b[0] == c[0] {
            lemma_lex_le_transitive(a.drop_first(), b.drop_first(), c.drop_first());
        }
    }
}

/// Two sequences that are below each other are the same sequence.
pub proof fn lemma_lex_le_antisymmetric(a: Seq<char>, b: Seq<char>)
    requires
        lex_le(a, b),
        lex_le(b, a),
    ensures
        a == b,
    decreases a.len(),
{
    if a.len() > 0 && b.len() > 0 {
        lemma_lex_le_antisymmetric(a.drop_first(), b.drop_first());
        assert(a =~= seq![a[0]] + a.drop_first());
        assert(b =~= seq![b[0]] + b.drop_first());
    } else {
        assert(a =~= b);
    }
}

fn char_below(c: char, d: char) -> (r: bool)
    ensures
        r == ((c as u32) < (d as u32)),
{
    c < d
}

/// Decides `lex_le` on two character vectors.
pub fn chars_le(a: &Vec<char>, b: &Vec<char>) -> (r: bool)
    ensures
        r == lex_le(a@, b@),
{
    let mut i: usize = 0;
    assert(a@.skip(0) =~= a@ && b@.skip(0) =~= b@);
    while i < a.len() && i < b.len()
        invariant
            i <= a.len(),
            i <= b.len(),
            lex_le(a@, b@) == lex_le(a@.skip(i as int), b@.skip(i as int)),
        decreases a.len() - i,
    {
        let x = a[i];
        let y = b[i];
        proof {
            let sa = a@.skip(i as int);
            let sb = b@.skip(i as int);
            assert(sa[0] == x && sb[0] == y);
            assert(sa.drop_first() =~= a@.skip(i + 1));
            assert(sb.drop_first() =~= b@.skip(i + 1));
        }
        if x != y {
            let below = char_below(x, y);
            return below;
        }
        i += 1;
    }
    proof {
        assert(a@.skip(i as int).len() == a.len() - i);
        assert(b@.skip(i as int).len() == b.len() - i);
    }
    i == a.len()
}

/// What `str::to_lowercase` makes of a text: its lowercase form under the
/// Unicode case mappings, which depend on the text alone.
pub uninterp spec fn lowercase(text: Seq<char>) -> Seq<char>;

/// What `String::from_utf8_lossy` makes of a byte string: its text, with
/// each malformed stretch replaced by U+FFFD. On well-formed UTF-8 it is the
/// text that the bytes encode.
pub uninterp spec fn lossy_text(bytes: Seq<u8>) -> Seq<char>;

/// Calls `str::to_lowercase`. The contract only names its result.
#[verifier::external_body]
pub(crate) fn fold_case(name: &str) -> (folded: String)
    ensures
        folded@ == lowercase(name@),
{
    name.to_lowercase()
}

/// The characters of a text, one by one.
pub fn chars_of(text: &str) -> (chars: Vec<char>)
    ensures
        chars@ == text@,
{
    let mut chars: Vec<char> = Vec::new();
    for c in it: text.chars()
        invariant
            it.seq() == text@,
            chars@ == text@.take(it.index() as int),
    {
        chars.push(c);
        assert(text@.take(it.index() + 1) =~= text@.take(it.index() as int).push(c));
    }
    assert(text@.take(text@.len() as int) =~= text@);
    chars
}

/// Calls `String::from_utf8_lossy` and takes ownership of the text it
/// returns. The contract names that text, and says what the function's
/// documentation promises of well-formed input: that it comes back unchanged.
#[verifier::external_body]
pub(crate) fn decode_lossy(bytes: &Vec<u8>) -> (text: String)
    ensures
        text@ == lossy_text(bytes@),
        valid_utf8(bytes@) ==> text@ == decode_utf8(bytes@),
{
    String::from_utf8_lossy(bytes).into_owned()
}

/// Whether a character has the Unicode property `White_Space`: the controls
/// from tab to carriage return and next line, the spaces of every width, and
/// the line and paragraph separators.
pub open spec fn white_space(c: char) -> bool {
    let u = c as u32;
    ||| 0x09 <= u <= 0x0d
    ||| u == 0x20
    ||| u == 0x85
    ||| u == 0xa0
    ||| u == 0x1680
    ||| 0x2000 <= u <= 0x200a
    ||| u == 0x2028
    ||| u == 0x2029
    ||| u == 0x202f
    ||| u == 0x205f
    ||| u == 0x3000
}

/// Decides `white_space`.
pub fn is_white_space(c: char) -> (r: bool)
    ensures
        r == white_space(c),
{
    let u = c as u32;
    (0x09 <= u && u <= 0x0d) || u == 0x20 || u == 0x85 || u == 0xa0 || u == 0x1680 || (0x2000 <= u
        && u <= 0x200a) || u == 0x2028 || u == 0x2029 || u == 0x202f || u == 0x205f || u == 0x3000
}

/// How many characters at the front of `text` are white space.
pub open spec fn leading_white_space(text: Seq<char>) -> nat
    decreases text.len(),
{
    if text.len() > 0 && white_space(text[0]) {
        1 + leading_white_space(text.drop_first())
    } else {
        0
    }
}

/// The length of `text` once the white space at its end is cut off.
pub open spec fn trimmed_end(text: Seq<char>) -> nat
    decreases text.len(),
{
    if text.len() > 0 && white_space(text.last()) {
        trimmed_end(text.drop_last())
    } else {
        text.len()
    }
}

/// `text` without the white space at its front and at its end. A text of white
/// space only trims to the empty text.
pub open spec fn trimmed(text: Seq<char>) -> Seq<char> {
    if leading_white_space(text) < trimmed_end(text) {
        text.subrange(leading_white_space(text) as int, trimmed_end(text) as int)
    } else {
        Seq::empty()
    }
}

/// The leading white space never reaches past the end of the text, and the
/// character that follows it, if any, is no white space.
pub proof fn lemma_leading_white_space_bounds(text: Seq<char>)
    ensures
        leading_white_space(text) <= text.len(),
        leading_white_space(text) < text.len() ==> !white_space(
            text[leading_white_space(text) as int],
        ),
        forall|j: int| 0 <= j < leading_white_space(text) ==> white_space(#[trigger] text[j]),
    decreases text.len(),
{
    if text.len() > 0 && white_space(text[0]) {
        let rest = text.drop_first();
        lemma_leading_white_space_bounds(rest);
        assert forall|j: int| 0 <= j < leading_white_space(text) implies white_space(
            #[trigger] text[j],
        ) by {
            if j > 0 {
                assert(text[j] == rest[j - 1]);
            }
        }
    }
}

/// The trimmed end never lies past the end of the text, the character before
/// it, if any, is no white space, and all that follows it is.
pub proof fn lemma_trimmed_end_bounds(text: Seq<char>)
    ensures
        trimmed_end(text) <= text.len(),
        trimmed_end(text) > 0 ==> !white_space(text[trimmed_end(text) - 1]),
        forall|j: int| trimmed_end(text) <= j < text.len() ==> white_space(#[trigger] text[j]),
    decreases text.len(),
{
    if text.len() > 0 && white_space(text.last()) {
        let rest = text.drop_last();
        lemma_trimmed_end_bounds(rest);
        assert forall|j: int| trimmed_end(text) <= j < text.len() implies white_space(
            #[trigger] text[j],
        ) by {
            if j < rest.len() {
                assert(text[j] == rest[j]);
            }
        }
    }
}

/// Trimming cuts off white space and nothing else: every character that is
/// no white space lies within what is kept, and what is kept neither begins
/// nor ends with white space.
pub proof fn lemma_trimmed_is_bare(text: Seq<char>)
    ensures
        trimmed(text).len() <= text.len(),
        trimmed(text).len() > 0 ==> !white_space(trimmed(text).first()) && !white_space(
            trimmed(text).last(),
        ),
        forall|j: int|
            0 <= j < text.len() && !white_space(#[trigger] text[j]) ==> leading_white_space(text)
                <= j < trimmed_end(text),
{
    lemma_leading_white_space_bounds(text);
    lemma_trimmed_end_bounds(text);
}

/// Appending one character lengthens the leading white space only where the
/// text so far was white space throughout and the character is white space too.
proof fn lemma_leading_white_space_push(text: Seq<char>, c: char)
    ensures
        leading_white_space(text.push(c)) == if leading_white_space(text) == text.len()
            && white_space(c) {
            text.len() + 1
        } else {
            leading_white_space(text)
        },
    decreases text.len(),
{
    let longer = text.push(c);
    if text.len() == 0 {
        assert(longer.drop_first() =~= Seq::<char>::empty());
        assert(leading_white_space(longer.drop_first()) == 0);
    } else {
        assert(longer[0] == text[0]);
        assert(longer.drop_first() =~= text.drop_first().push(c));
        if white_space(text[0]) {
            lemma_leading_white_space_push(text.drop_first(), c);
        }
    }
}

/// Cuts the white space off both ends of a text, as `str::trim` does.
pub fn trim_text(text: &str) -> (r: String)
    ensures
        r@ == trimmed(text@),
{
    let n = text.unicode_len();
    let mut start: usize = 0;
    let mut end: usize = 0;
    let mut i: usize = 0;
    assert(text@.take(0) =~= Seq::<char>::empty());
    for c in it: text.chars()
        invariant
            it.seq() == text@,
            i == it.index(),
            n == text@.len(),
            i <= n,
            start == leading_white_space(text@.take(i as int)),
            end == trimmed_end(text@.take(i as int)),
            start <= i,
            end <= i,
    {
        proof {
            let before = text@.take(i as int);
            assert(text@.take(i + 1) =~= before.push(c));
            assert(before.push(c).drop_last() =~= before);
            lemma_leading_white_space_push(before, c);
        }
        if is_white_space(c) {
            if start == i {
                start = i + 1;
            }
        } else {
            end = i + 1;
        }
        i += 1;
    }
    assert(text@.take(i as int) =~= text@);
    if start < end {
        text.substring_char(start, end).to_owned()
    } else {
        String::new()
    }
}

/// The character that writes a digit below ten.
pub open spec fn digit(d: nat) -> char {
    if d == 0 {
        '0'
    } else if d == 1 {
        '1'
    } else if d == 2 {
        '2'
    } else if d == 3 {
        '3'
    } else if d == 4 {
        '4'
    } else if d == 5 {
        '5'
    } else if d == 6 {
        '6'
    } else if d == 7 {
        '7'
    } else if d == 8 {
        '8'
    } else {
        '9'
    }
}

/// A number written in base ten, most significant digit first, without
/// leading zeros.
pub open spec fn decimal(n: nat) -> Seq<char>
    decreases n,
{
    if n < 10 {
        seq![digit(n)]
    } else {
        decimal(n / 10).push(digit(n % 10))
    }
}

/// A number of two or more digits is at least ten, and every number has a digit.
pub proof fn lemma_decimal_len(n: nat)
    ensures
        decimal(n).len() >= 1,
        (decimal(n).len() == 1) == (n < 10),
    decreases n,
{
    if n >= 10 {
        lemma_decimal_len(n / 10);
    }
}

/// Different numbers are written differently.
pub proof fn lemma_decimal_injective(a: nat, b: nat)
    requires
        decimal(a) == decimal(b),
    ensures
        a == b,
    decreases a,
{
    lemma_decimal_len(a);
    lemma_decimal_len(b);
    if a < 10 {
        assert(decimal(a)[0] == digit(a));
        assert(decimal(b)[0] == digit(b));
    } else {
        let high_a = decimal(a / 10);
        let high_b = decimal(b / 10);
        assert(decimal(a).drop_last() =~= high_a);
        assert(decimal(b).drop_last() =~= high_b);
        assert(decimal(a).last() == digit(a % 10));
        assert(decimal(b).last() == digit(b % 10));
        lemma_decimal_injective(a / 10, b / 10);
    }
}

/// The one-character text of a digit.
fn digit_text(d: u32) -> (r: &'static str)
    requires
        d < 10,
    ensures
        r@ == seq![digit(d as nat)],
{
    proof {
        reveal_strlit("0");
        reveal_strlit("1");
        reveal_strlit("2");
        reveal_strlit("3");
        reveal_strlit("4");
        reveal_strlit("5");
        reveal_strlit("6");
        reveal_strlit("7");
        reveal_strlit("8");
        reveal_strlit("9");
    }
    let r = match d {
        0 => "0",
        1 => "1",
        2 => "2",
        3 => "3",
        4 => "4",
        5 => "5",
        6 => "6",
        7 => "7",
        8 => "8",
        _ => "9",
    };
    assert(r@ =~= seq![digit(d as nat)]);
    r
}

/// Writes a number in base ten.
pub fn render_decimal(n: u32) -> (r: String)
    ensures
        r@ == decimal(n as nat),
    decreases n,
{
    if n < 10 {
        String::from_str(digit_text(n))
    } else {
        let mut r = render_decimal(n / 10);
        r.append(digit_text(n % 10));
        assert(r@ =~= decimal(n as nat));
        r
    }
}

} // verus!
