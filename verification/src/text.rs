//! Text: comparison, ASCII case, blanks, and whole numbers in decimal.

use vstd::prelude::*;
use vstd::string::*;

verus! {

/// `String::push` of the standard library: the string grows by one character
/// at its end.
pub assume_specification[ String::push ](s: &mut String, c: char)
    ensures
        final(s)@ == old(s)@.push(c),
;

/// The characters of a text.
pub fn chars_of(text: &str) -> (r: Vec<char>)
    ensures
        r@ == text@,
{
    let mut out: Vec<char> = Vec::new();
    for c in it: text.chars()
        invariant
            it.seq() == text@,
            out@ == text@.take(it.index() as int),
    {
        assert(text@.take(it.index() + 1) =~= text@.take(it.index() as int).push(c));
        out.push(c);
    }
    assert(text@.take(text@.len() as int) =~= text@);
    out
}

/// The text made of the characters from `from` up to `to`.
pub fn slice_text(chars: &Vec<char>, from: usize, to: usize) -> (r: String)
    requires
        from <= to <= chars.len(),
    ensures
        r@ == chars@.subrange(from as int, to as int),
{
    let mut out = String::new();
    let mut i: usize = from;
    assert(chars@.subrange(from as int, from as int) =~= Seq::empty());
    while i < to
        invariant
            from <= i <= to <= chars.len(),
            out@ == chars@.subrange(from as int, i as int),
        decreases to - i,
    {
        assert(chars@.subrange(from as int, i + 1) =~= chars@.subrange(from as int, i as int).push(
            chars@[i as int],
        ));
        out.push(chars[i]);
        i = i + 1;
    }
    out
}

/// Whether two texts are the same.
pub fn same(a: &str, b: &str) -> (r: bool)
    ensures
        r == (a@ == b@),
{
    let x = chars_of(a);
    let y = chars_of(b);
    if x.len() != y.len() {
        return false;
    }
    let mut i: usize = 0;
    while i < x.len()
        invariant
            x@ == a@,
            y@ == b@,
            x.len() == y.len(),
            i <= x.len(),
            forall|j: int| 0 <= j < i ==> x[j] == y[j],
        decreases x.len() - i,
    {
        if x[i] != y[i] {
            return false;
        }
        i = i + 1;
    }
    assert(a@ =~= b@);
    true
}

/// `a` followed by `b`.
pub fn joined(a: &str, b: &str) -> (r: String)
    ensures
        r@ == a@ + b@,
{
    let mut out = a.to_owned();
    out.append(b);
    out
}

/// `a`, `b` and `c`, one after the other.
pub fn joined_three(a: &str, b: &str, c: &str) -> (r: String)
    ensures
        r@ == a@ + b@ + c@,
{
    let mut out = a.to_owned();
    out.append(b);
    out.append(c);
    out
}

/// An ASCII letter in lower case, any other character unchanged.
pub open spec fn lower_char(c: char) -> char {
    if 'A' <= c <= 'Z' {
        ((c as u8 + 32) as u8) as char
    } else {
        c
    }
}

/// A text with its ASCII letters in lower case.
pub open spec fn lower(text: Seq<char>) -> Seq<char> {
    text.map_values(|c: char| lower_char(c))
}

/// A text with its ASCII letters in lower case.
pub fn to_lower(text: &str) -> (r: String)
    ensures
        r@ == lower(text@),
{
    let mut out = String::new();
    assert(out@ =~= lower(text@.take(0)));
    for c in it: text.chars()
        invariant
            it.seq() == text@,
            out@ == lower(text@.take(it.index() as int)),
    {
        let lowered: char = if 'A' <= c && c <= 'Z' {
            (c as u8 + 32) as char
        } else {
            c
        };
        assert(lower(text@.take(it.index() + 1)) =~= lower(text@.take(it.index() as int)).push(
            lowered,
        ));
        out.push(lowered);
    }
    assert(text@.take(text@.len() as int) =~= text@);
    out
}

/// The characters with the Unicode property White_Space.
pub open spec fn is_white(c: char) -> bool {
    ||| '\u{9}' <= c <= '\u{d}'
    ||| c == ' '
    ||| c == '\u{85}'
    ||| c == '\u{a0}'
    ||| c == '\u{1680}'
    ||| '\u{2000}' <= c <= '\u{200a}'
    ||| c == '\u{2028}'
    ||| c == '\u{2029}'
    ||| c == '\u{202f}'
    ||| c == '\u{205f}'
    ||| c == '\u{3000}'
}

/// Whether a text holds nothing but white space.
pub open spec fn blank(text: Seq<char>) -> bool {
    forall|i: int| 0 <= i < text.len() ==> is_white(#[trigger] text[i])
}

/// Whether a text holds nothing but white space.
pub fn is_blank(text: &str) -> (r: bool)
    ensures
        r == blank(text@),
{
    let x = chars_of(text);
    let mut i: usize = 0;
    while i < x.len()
        invariant
            x@ == text@,
            i <= x.len(),
            forall|j: int| 0 <= j < i ==> is_white(#[trigger] x@[j]),
        decreases x.len() - i,
    {
        let c: char = x[i];
        let white: bool = ('\u{9}' <= c && c <= '\u{d}') || c == ' ' || c == '\u{85}' || c
            == '\u{a0}' || c == '\u{1680}' || ('\u{2000}' <= c && c <= '\u{200a}') || c
            == '\u{2028}' || c == '\u{2029}' || c == '\u{202f}' || c == '\u{205f}' || c
            == '\u{3000}';
        if !white {
            assert(!is_white(text@[i as int]));
            return false;
        }
        i = i + 1;
    }
    true
}

/// Whether a character is a decimal digit.
pub open spec fn is_digit(c: char) -> bool {
    '0' <= c <= '9'
}

/// What a decimal digit counts.
pub open spec fn digit_value(c: char) -> nat {
    (c as int - '0' as int) as nat
}

/// The digit that counts `d`.
pub open spec fn digit_char(d: nat) -> char {
    (('0' as int + d) as u8) as char
}

/// Whether a text holds nothing but decimal digits.
pub open spec fn all_digits(text: Seq<char>) -> bool {
    forall|i: int| 0 <= i < text.len() ==> is_digit(#[trigger] text[i])
}

/// The number that a sequence of decimal digits writes.
pub open spec fn digits_value(text: Seq<char>) -> nat
    decreases text.len(),
{
    if text.len() == 0 {
        0
    } else {
        10 * digits_value(text.drop_last()) + digit_value(text.last())
    }
}

/// A number in decimal, without leading zeros.
pub open spec fn decimal_digits(n: nat) -> Seq<char>
    decreases n,
{
    if n < 10 {
        seq![digit_char(n)]
    } else {
        decimal_digits(n / 10).push(digit_char(n % 10))
    }
}

/// The number that a text writes: an optional sign, then digits. A minus sign
/// is taken only where `signed` says so.
pub open spec fn integer_value(text: Seq<char>, signed: bool) -> Option<int> {
    let sign = text.len() > 0 && (text[0] == '+' || (signed && text[0] == '-'));
    let digits = if sign {
        text.skip(1)
    } else {
        text
    };
    if digits.len() == 0 || !all_digits(digits) {
        None
    } else if sign && text[0] == '-' {
        Some(-(digits_value(digits) as int))
    } else {
        Some(digits_value(digits) as int)
    }
}

/// An integer in decimal, with a minus sign where it is negative.
pub open spec fn integer_text(n: int) -> Seq<char> {
    if n < 0 {
        seq!['-'] + decimal_digits((-n) as nat)
    } else {
        decimal_digits(n as nat)
    }
}

/// Writing digits and reading them gives the number back.
pub proof fn lemma_digits_back(n: nat)
    ensures
        digits_value(decimal_digits(n)) == n,
        all_digits(decimal_digits(n)),
        decimal_digits(n).len() > 0,
        n > 0 ==> decimal_digits(n)[0] != '0',
    decreases n,
{
    reveal_with_fuel(digits_value, 2);
    if n < 10 {
        assert(decimal_digits(n).drop_last() =~= Seq::empty());
    } else {
        lemma_digits_back(n / 10);
        assert(decimal_digits(n).drop_last() =~= decimal_digits(n / 10));
    }
}

/// What is written as an integer reads back as that integer.
pub proof fn law_integer_text_reads_back(n: int)
    ensures
        integer_value(integer_text(n), true) == Some(n),
        n >= 0 ==> integer_value(integer_text(n), false) == Some(n),
{
    if n < 0 {
        lemma_digits_back((-n) as nat);
        assert(integer_text(n).skip(1) =~= decimal_digits((-n) as nat));
    } else {
        lemma_digits_back(n as nat);
        assert(is_digit(integer_text(n)[0]));
    }
}

/// A text that begins with neither a sign nor a digit writes no number.
pub proof fn lemma_no_integer(text: Seq<char>)
    requires
        text.len() > 0,
        text[0] != '+' && text[0] != '-',
        !is_digit(text[0]),
    ensures
        integer_value(text, true) is None,
        integer_value(text, false) is None,
{
}

/// The magnitude that the digits from `from` on write, up to `limit`.
fn read_magnitude(chars: &Vec<char>, from: usize, limit: u64) -> (r: Option<u64>)
    requires
        from <= chars.len(),
    ensures
        r == ({
            let digits = chars@.skip(from as int);
            if digits.len() == 0 || !all_digits(digits) || digits_value(digits) > limit {
                None
            } else {
                Some(digits_value(digits) as u64)
            }
        }),
{
    let ghost digits = chars@.skip(from as int);
    if from == chars.len() {
        return None;
    }
    let mut total: u128 = 0;
    let mut over: bool = false;
    let mut i: usize = from;
    assert(digits.take(0) =~= Seq::empty());
    while i < chars.len()
        invariant
            from <= i <= chars.len(),
            digits == chars@.skip(from as int),
            all_digits(digits.take(i - from)),
            total <= 0xffff_ffff_ffff_ffff,
            limit <= 0xffff_ffff_ffff_ffff,
            over ==> digits_value(digits.take(i - from)) > limit,
            !over ==> digits_value(digits.take(i - from)) == total && total <= limit,
        decreases chars.len() - i,
    {
        let c: char = chars[i];
        assert(digits[i - from] == c);
        if !('0' <= c && c <= '9') {
            return None;
        }
        proof {
            assert(digits.take(i - from + 1).drop_last() =~= digits.take(i - from));
            assert(digits.take(i - from + 1) =~= digits.take(i - from).push(c));
        }
        if !over {
            total = total * 10 + (c as u128 - '0' as u128);
            if total > limit as u128 {
                over = true;
                total = 0;
            }
        }
        i = i + 1;
    }
    assert(digits.take(digits.len() as int) =~= digits);
    if over {
        None
    } else {
        Some(total as u64)
    }
}

/// Reads a 16-bit number.
pub fn parse_u16(text: &str) -> (r: Option<u16>)
    ensures
        r == match integer_value(text@, false) {
            Some(n) => if n <= u16::MAX {
                Some(n as u16)
            } else {
                None
            },
            None => None,
        },
{
    let chars = chars_of(text);
    let from: usize = if chars.len() > 0 && chars[0] == '+' {
        1
    } else {
        0
    };
    assert(chars@.skip(0) =~= chars@);
    match read_magnitude(&chars, from, 0xffff) {
        Some(n) => Some(n as u16),
        None => None,
    }
}

/// Reads a signed 64-bit number.
pub fn read_i64(text: &str) -> (r: Option<i64>)
    ensures
        r == match integer_value(text@, true) {
            Some(n) => if i64::MIN <= n <= i64::MAX {
                Some(n as i64)
            } else {
                None
            },
            None => None,
        },
{
    let chars = chars_of(text);
    assert(chars@.skip(0) =~= chars@);
    if chars.len() > 0 && chars[0] == '-' {
        match read_magnitude(&chars, 1, 0x8000_0000_0000_0000) {
            Some(n) => Some((-(n as i128)) as i64),
            None => None,
        }
    } else {
        let from: usize = if chars.len() > 0 && chars[0] == '+' {
            1
        } else {
            0
        };
        match read_magnitude(&chars, from, 0x7fff_ffff_ffff_ffff) {
            Some(n) => Some(n as i64),
            None => None,
        }
    }
}

/// Writes a number in decimal.
pub fn write_u64(n: u64) -> (r: String)
    ensures
        r@ == decimal_digits(n as nat),
    decreases n,
{
    let digit: char = ('0' as u8 + (n % 10) as u8) as char;
    let mut out = if n < 10 {
        String::new()
    } else {
        write_u64(n / 10)
    };
    out.push(digit);
    assert(n < 10 ==> out@ =~= seq![digit]);
    out
}

/// Writes a signed number in decimal.
pub fn write_i64(n: i64) -> (r: String)
    ensures
        r@ == integer_text(n as int),
{
    if n < 0 {
        let mut out = String::new();
        out.push('-');
        let size: u64 = (-(n as i128)) as u64;
        out.append(write_u64(size).as_str());
        assert(out@ =~= seq!['-'] + decimal_digits(size as nat));
        out
    } else {
        write_u64(n as u64)
    }
}

/// A text without the characters that `drop` marks at its end.
pub open spec fn trimmed_end(text: Seq<char>, drop: spec_fn(char) -> bool) -> Seq<char>
    decreases text.len(),
{
    if text.len() > 0 && drop(text.last()) {
        trimmed_end(text.drop_last(), drop)
    } else {
        text
    }
}

/// The pieces of a text between the separators.
pub open spec fn split(text: Seq<char>, separator: char) -> Seq<Seq<char>>
    decreases text.len(),
{
    if text.len() == 0 {
        seq![Seq::empty()]
    } else {
        let before = split(text.drop_last(), separator);
        if text.last() == separator {
            before.push(Seq::empty())
        } else {
            before.drop_last().push(before.last().push(text.last()))
        }
    }
}

/// Pieces, with a separator between each two.
pub open spec fn join(pieces: Seq<Seq<char>>, separator: char) -> Seq<char>
    decreases pieces.len(),
{
    if pieces.len() == 0 {
        Seq::empty()
    } else if pieces.len() == 1 {
        pieces[0]
    } else {
        join(pieces.drop_last(), separator) + seq![separator] + pieces.last()
    }
}

pub proof fn lemma_split_some(text: Seq<char>, separator: char)
    ensures
        split(text, separator).len() > 0,
    decreases text.len(),
{
    if text.len() > 0 {
        lemma_split_some(text.drop_last(), separator);
    }
}

/// A last piece without separators is split off whole.
proof fn lemma_split_last(text: Seq<char>, piece: Seq<char>, separator: char)
    requires
        !piece.contains(separator),
    ensures
        split(text + seq![separator] + piece, separator) == split(text, separator).push(piece),
    decreases piece.len(),
{
    let whole = text + seq![separator] + piece;
    if piece.len() == 0 {
        assert(whole.drop_last() =~= text);
        assert(piece =~= Seq::empty());
    } else {
        let shorter = piece.drop_last();
        assert forall|i: int| 0 <= i < shorter.len() implies shorter[i] != separator by {
            assert(piece.contains(piece[i]));
        }
        lemma_split_last(text, shorter, separator);
        assert(whole.drop_last() =~= text + seq![separator] + shorter);
        assert(piece.contains(piece.last()));
        let before = split(text, separator).push(shorter);
        assert(before.drop_last() =~= split(text, separator));
        assert(shorter.push(piece.last()) =~= piece);
    }
}

proof fn lemma_split_none(piece: Seq<char>, separator: char)
    requires
        !piece.contains(separator),
    ensures
        split(piece, separator) == seq![piece],
    decreases piece.len(),
{
    if piece.len() == 0 {
        assert(piece =~= Seq::empty());
    } else {
        let shorter = piece.drop_last();
        assert forall|i: int| 0 <= i < shorter.len() implies shorter[i] != separator by {
            assert(piece.contains(piece[i]));
        }
        lemma_split_none(shorter, separator);
        assert(piece.contains(piece.last()));
        assert(shorter.push(piece.last()) =~= piece);
        assert(seq![shorter].drop_last() =~= Seq::empty());
        assert(split(piece, separator) =~= seq![piece]);
    }
}

/// Pieces without separators that were joined come apart as they were.
pub proof fn law_joined_pieces_split(pieces: Seq<Seq<char>>, separator: char)
    requires
        pieces.len() > 0,
        forall|i: int| 0 <= i < pieces.len() ==> !(#[trigger] pieces[i]).contains(separator),
    ensures
        split(join(pieces, separator), separator) == pieces,
    decreases pieces.len(),
{
    if pieces.len() == 1 {
        lemma_split_none(pieces[0], separator);
        assert(pieces =~= seq![pieces[0]]);
    } else {
        let fewer = pieces.drop_last();
        assert forall|i: int| 0 <= i < fewer.len() implies !(#[trigger] fewer[i]).contains(
            separator,
        ) by {
            assert(fewer[i] == pieces[i]);
        }
        law_joined_pieces_split(fewer, separator);
        lemma_split_last(join(fewer, separator), pieces.last(), separator);
        assert(fewer.push(pieces.last()) =~= pieces);
    }
}

/// What each piece lacks, the joined text lacks, the separator aside.
pub proof fn lemma_join_lacks(pieces: Seq<Seq<char>>, separator: char, c: char)
    requires
        c != separator,
        forall|i: int| 0 <= i < pieces.len() ==> !(#[trigger] pieces[i]).contains(c),
    ensures
        !join(pieces, separator).contains(c),
    decreases pieces.len(),
{
    let whole = join(pieces, separator);
    if pieces.len() > 1 {
        let fewer = pieces.drop_last();
        assert forall|i: int| 0 <= i < fewer.len() implies !(#[trigger] fewer[i]).contains(c) by {
            assert(fewer[i] == pieces[i]);
        }
        lemma_join_lacks(fewer, separator, c);
        let head = join(fewer, separator);
        let last = pieces[pieces.len() - 1];
        assert forall|i: int| 0 <= i < whole.len() implies whole[i] != c by {
            if i < head.len() {
                assert(whole[i] == head[i]);
                assert(head.contains(head[i]));
            } else if i > head.len() {
                assert(whole[i] == last[i - head.len() - 1]);
                assert(last.contains(last[i - head.len() - 1]));
            }
        }
    }
}

/// Splits a text at each separator.
pub fn split_text(text: &str, separator: char) -> (r: Vec<String>)
    ensures
        r.deep_view() == split(text@, separator),
{
    let mut out: Vec<String> = Vec::new();
    let mut piece = String::new();
    assert(text@.take(0) =~= Seq::empty());
    assert(out.deep_view().push(piece@) =~= split(text@.take(0), separator));
    for c in it: text.chars()
        invariant
            it.seq() == text@,
            out.deep_view().push(piece@) == split(text@.take(it.index() as int), separator),
    {
        let ghost before = out.deep_view();
        let ghost old_piece = piece@;
        proof {
            assert(text@.take(it.index() + 1).drop_last() =~= text@.take(it.index() as int));
            assert(before.push(old_piece).drop_last() =~= before);
        }
        if c == separator {
            out.push(piece);
            piece = String::new();
            assert(piece@ =~= Seq::empty());
            assert(out.deep_view() =~= before.push(old_piece));
        } else {
            piece.push(c);
        }
    }
    let ghost before = out.deep_view();
    let ghost last = piece@;
    out.push(piece);
    assert(out.deep_view() =~= before.push(last));
    assert(text@.take(text@.len() as int) =~= text@);
    out
}

/// Joins texts, with a separator between each two.
pub fn join_texts(pieces: &Vec<String>, separator: char) -> (r: String)
    ensures
        r@ == join(pieces.deep_view(), separator),
{
    let mut out = String::new();
    let mut i: usize = 0;
    let ghost all = pieces.deep_view();
    assert(out@ =~= Seq::empty());
    while i < pieces.len()
        invariant
            i <= pieces.len(),
            all == pieces.deep_view(),
            out@ == join(all.take(i as int), separator),
        decreases pieces.len() - i,
    {
        let ghost before = out@;
        if i > 0 {
            out.push(separator);
        }
        out.append(pieces[i].as_str());
        proof {
            assert(all[i as int] == pieces[i as int]@);
            assert(all.take(i + 1).drop_last() =~= all.take(i as int));
            if i == 0 {
                assert(out@ =~= all[0]);
            } else {
                assert(out@ =~= before + seq![separator] + all[i as int]);
            }
        }
        i = i + 1;
    }
    assert(all.take(all.len() as int) =~= all);
    out
}

/// Whether a text starts with another.
pub open spec fn starts(text: Seq<char>, prefix: Seq<char>) -> bool {
    prefix.len() <= text.len() && text.take(prefix.len() as int) == prefix
}

/// What follows a prefix, where a text starts with it.
pub fn after_prefix(text: &str, prefix: &str) -> (r: Option<String>)
    ensures
        match r {
            Some(rest) => starts(text@, prefix@) && rest@ == text@.skip(prefix@.len() as int),
            None => !starts(text@, prefix@),
        },
{
    let chars = chars_of(text);
    let wanted = chars_of(prefix);
    if wanted.len() > chars.len() {
        return None;
    }
    let head = slice_text(&chars, 0, wanted.len());
    assert(text@.take(prefix@.len() as int) =~= head@);
    if same(head.as_str(), prefix) {
        let rest = slice_text(&chars, wanted.len(), chars.len());
        assert(rest@ =~= text@.skip(prefix@.len() as int));
        Some(rest)
    } else {
        None
    }
}

/// A text without the slashes at its end.
pub open spec fn without_slashes(text: Seq<char>) -> Seq<char> {
    trimmed_end(text, |c: char| c == '/')
}

/// A text without the slashes at its end.
pub fn strip_slashes(text: &str) -> (r: String)
    ensures
        r@ == without_slashes(text@),
{
    let chars = chars_of(text);
    let mut n: usize = chars.len();
    assert(chars@.take(n as int) =~= text@);
    while n > 0 && chars[n - 1] == '/'
        invariant
            n <= chars.len(),
            without_slashes(chars@.take(n as int)) == without_slashes(text@),
        decreases n,
    {
        assert(chars@.take(n as int).drop_last() =~= chars@.take(n - 1));
        n = n - 1;
    }
    assert(chars@.take(n as int) =~= chars@.subrange(0, n as int));
    slice_text(&chars, 0, n)
}

/// A letter from A to Z becomes the small letter in the same place, and no other
/// character changes. So a text that was brought to small letters stays as it is.
pub proof fn law_lower_letters(text: Seq<char>, i: int)
    requires
        0 <= i < text.len(),
    ensures
        lower(text).len() == text.len(),
        'A' <= text[i] <= 'Z' ==> lower(text)[i] as int == text[i] as int + 32,
        !('A' <= text[i] <= 'Z') ==> lower(text)[i] == text[i],
        lower(lower(text)) == lower(text),
{
    assert forall|j: int| 0 <= j < text.len() implies lower_char(lower_char(#[trigger] text[j]))
        == lower_char(text[j]) by {
        lemma_lower(text[j]);
    }
    lemma_lower(text[i]);
    assert(lower(lower(text)) =~= lower(text));
}

proof fn lemma_lower(c: char)
    ensures
        'A' <= c <= 'Z' ==> lower_char(c) as int == c as int + 32,
        lower_char(lower_char(c)) == lower_char(c),
{
}

/// What is left of a text that is cut at its end begins the text, does not end
/// in what is cut, and all that was cut is.
pub proof fn law_cut_at_end(text: Seq<char>, drop: spec_fn(char) -> bool)
    ensures
        trimmed_end(text, drop).len() <= text.len(),
        trimmed_end(text, drop) == text.take(trimmed_end(text, drop).len() as int),
        trimmed_end(text, drop).len() > 0 ==> !drop(trimmed_end(text, drop).last()),
        forall|i: int|
            trimmed_end(text, drop).len() <= i < text.len() ==> drop(#[trigger] text[i]),
    decreases text.len(),
{
    if text.len() > 0 && drop(text.last()) {
        let fewer = text.drop_last();
        let left = trimmed_end(text, drop);
        law_cut_at_end(fewer, drop);
        assert(left =~= text.take(left.len() as int));
        assert forall|i: int| left.len() <= i < text.len() implies drop(#[trigger] text[i]) by {
            if i < fewer.len() {
                assert(fewer[i] == text[i]);
            }
        }
    } else {
        assert(text.take(text.len() as int) =~= text);
    }
}

/// The pieces of a text make the text again, with the separator between each
/// two, and none of them holds the separator.
pub proof fn law_split_pieces_join(text: Seq<char>, separator: char)
    ensures
        join(split(text, separator), separator) == text,
        forall|i: int|
            0 <= i < split(text, separator).len() ==> !(#[trigger] split(
                text,
                separator,
            )[i]).contains(separator),
    decreases text.len(),
{
    let pieces = split(text, separator);
    if text.len() > 0 {
        let before = split(text.drop_last(), separator);
        law_split_pieces_join(text.drop_last(), separator);
        lemma_split_some(text.drop_last(), separator);
        if text.last() == separator {
            assert(pieces.drop_last() =~= before);
            assert(pieces.len() > 1);
            assert(join(pieces, separator) =~= text);
        } else {
            assert(pieces.drop_last() =~= before.drop_last());
            let last = before.last().push(text.last());
            assert(pieces.last() == last);
            if before.len() == 1 {
                assert(join(before, separator) == before[0]);
                assert(join(pieces, separator) =~= text);
            } else {
                assert(join(before, separator) == join(before.drop_last(), separator)
                    + seq![separator] + before.last());
                assert(join(pieces, separator) == join(pieces.drop_last(), separator)
                    + seq![separator] + last);
                assert(join(pieces, separator) =~= join(before, separator).push(text.last()));
                assert(text =~= text.drop_last().push(text.last()));
            }
            assert forall|i: int| 0 <= i < pieces.len() implies !(
            #[trigger] pieces[i]).contains(separator) by {
                if i < pieces.len() - 1 {
                    assert(pieces[i] == before[i]);
                } else {
                    assert(!before[before.len() - 1].contains(separator));
                    if last.contains(separator) {
                        let j = choose|j: int| 0 <= j < last.len() && last[j] == separator;
                        assert(before.last()[j] == separator);
                    }
                }
            }
        }
    } else {
        assert(join(pieces, separator) =~= text);
    }
}

/// Digits are read in base ten, a plus sign in front changes nothing, a minus
/// sign gives the opposite where one is allowed, and no other text is read.
pub proof fn law_integer_is_read(digits: Seq<char>, signed: bool, c: char)
    requires
        digits.len() > 0,
        forall|i: int| 0 <= i < digits.len() ==> '0' <= #[trigger] digits[i] <= '9',
    ensures
        integer_value(digits, signed) matches Some(n) && {
            &&& n >= 0
            &&& digits.len() == 1 ==> n == digits[0] as int - 48
            &&& '0' <= c <= '9' ==> integer_value(digits.push(c), signed) == Some(
                10 * n + (c as int - 48),
            )
            &&& !('0' <= c <= '9') ==> integer_value(digits.push(c), signed) is None
            &&& integer_value(seq!['+'] + digits, signed) == Some(n)
            &&& integer_value(seq!['-'] + digits, true) == Some(-n)
            &&& integer_value(seq!['-'] + digits, false) is None
            &&& !('0' <= c <= '9') && c != '+' && c != '-' ==> integer_value(
                seq![c] + digits,
                signed,
            ) is None
        },
        integer_value(Seq::empty(), signed) is None,
        integer_value(seq!['+'], signed) is None,
        integer_value(seq!['-'], signed) is None,
{
    reveal_with_fuel(digits_value, 2);
    assert(is_digit(digits[0]));
    let more = digits.push(c);
    assert(more.drop_last() =~= digits);
    assert(more[0] == digits[0]);
    if '0' <= c <= '9' {
        assert forall|i: int| 0 <= i < more.len() implies is_digit(#[trigger] more[i]) by {
            if i < digits.len() {
                assert(more[i] == digits[i]);
            }
        }
    } else {
        assert(!is_digit(more[digits.len() as int]));
    }
    if digits.len() == 1 {
        assert(digits.drop_last() =~= Seq::empty());
    }
    assert((seq!['+'] + digits).skip(1) =~= digits);
    assert((seq!['-'] + digits).skip(1) =~= digits);
    assert((seq!['-'] + digits)[0] == '-');
    assert(seq!['+'].skip(1) =~= Seq::empty());
    assert(seq!['-'].skip(1) =~= Seq::empty());
    assert(!is_digit(seq!['-'][0]));
    assert((seq![c] + digits)[0] == c);
}

} // verus!
