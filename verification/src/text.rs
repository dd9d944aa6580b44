//! Text: order, prefixes and column letters.
use vstd::prelude::*;

verus! {

/// Whether the first text comes before the second, character by character.
pub open spec fn text_lt(a: Seq<char>, b: Seq<char>) -> bool
    decreases a.len(),
{
    if b.len() == 0 {
        false
    } else if a.len() == 0 {
        true
    } else if a[0] != b[0] {
        (a[0] as int) < (b[0] as int)
    } else {
        text_lt(a.drop_first(), b.drop_first())
    }
}

pub proof fn lemma_text_lt_total(a: Seq<char>, b: Seq<char>)
    ensures
        a == b || text_lt(a, b) || text_lt(b, a),
        !(text_lt(a, b) && text_lt(b, a)),
        a == b ==> !text_lt(a, b),
    decreases a.len(),
{
    if a.len() == 0 || b.len() == 0 {
        if a.len() == 0 && b.len() == 0 {
            assert(a =~= b);
        }
    } else if a[0] == b[0] {
        lemma_text_lt_total(a.drop_first(), b.drop_first());
        if a.drop_first() == b.drop_first() {
            assert(a =~= seq![a[0]] + a.drop_first());
            assert(b =~= seq![b[0]] + b.drop_first());
        }
    } else {
        assert((a[0] as int) != (b[0] as int));
    }
}

pub proof fn lemma_text_lt_transitive(a: Seq<char>, b: Seq<char>, c: Seq<char>)
    requires
        text_lt(a, b),
        text_lt(b, c),
    ensures
        text_lt(a, c),
    decreases a.len(),
{
    if a.len() > 0 && a[0] == b[0] && b[0] == c[0] {
        lemma_text_lt_transitive(a.drop_first(), b.drop_first(), c.drop_first());
    }
}

/// Whether the first text comes before the second.
pub fn text_less(a: &String, b: &String) -> (r: bool)
    ensures
        r == text_lt(a@, b@),
{
    let x = a.as_str();
    let y = b.as_str();
    let n = x.unicode_len();
    let m = y.unicode_len();
    let mut i: usize = 0;
    assert(x@.skip(0) =~= x@);
    assert(y@.skip(0) =~= y@);
    while i < n && i < m
        invariant
            n == x@.len(),
            m == y@.len(),
            i <= n,
            i <= m,
            x@ == a@,
            y@ == b@,
            text_lt(a@, b@) == text_lt(x@.skip(i as int), y@.skip(i as int)),
        decreases n - i,
    {
        let c = x.get_char(i);
        let d = y.get_char(i);
        if c != d {
            return (c as u32) < (d as u32);
        }
        assert(x@.skip(i as int).drop_first() =~= x@.skip(i + 1));
        assert(y@.skip(i as int).drop_first() =~= y@.skip(i + 1));
        i = i + 1;
    }
    i < m
}

/// `String::push`: the text with the character behind it.
pub assume_specification[ String::push ](s: &mut String, c: char)
    ensures
        final(s)@ == old(s)@.push(c),
;

/// The letters of a one-based column: A to Z, then AA and so on. Column zero has none.
pub open spec fn column_letters(col: nat) -> Seq<char>
    decreases col,
{
    if col == 0 {
        Seq::empty()
    } else {
        column_letters(((col - 1) / 26) as nat).push((65 + (col - 1) % 26) as char)
    }
}

/// The decimal digits of a number.
pub open spec fn decimal(n: nat) -> Seq<char>
    decreases n,
{
    if n < 10 {
        seq![(48 + n) as char]
    } else {
        decimal(n / 10).push((48 + n % 10) as char)
    }
}

/// Different columns have different letters.
pub proof fn column_letters_are_distinct(a: nat, b: nat)
    requires
        column_letters(a) == column_letters(b),
    ensures
        a == b,
    decreases a,
{
    if a == 0 || b == 0 {
        assert(column_letters(a).len() == 0 <==> a == 0);
        assert(column_letters(b).len() == 0 <==> b == 0);
    } else {
        let x = column_letters(((a - 1) / 26) as nat);
        let y = column_letters(((b - 1) / 26) as nat);
        let c = (65 + (a - 1) % 26) as char;
        let d = (65 + (b - 1) % 26) as char;
        assert(x.push(c).drop_last() =~= x);
        assert(y.push(d).drop_last() =~= y);
        assert(x.push(c).last() == c);
        assert(y.push(d).last() == d);
        column_letters_are_distinct(((a - 1) / 26) as nat, ((b - 1) / 26) as nat);
    }
}

fn push_column(out: &mut String, col: u32)
    ensures
        final(out)@ == old(out)@ + column_letters(col as nat),
    decreases col,
{
    if col > 0 {
        let ghost before = out@;
        push_column(out, (col - 1) / 26);
        let letter = (65 + ((col - 1) % 26) as u8) as char;
        out.push(letter);
        assert(out@ =~= before + column_letters(col as nat));
    } else {
        assert(out@ =~= old(out)@ + column_letters(0));
    }
}

/// Writes the decimal digits of a number behind a text.
pub fn push_decimal(out: &mut String, n: u64)
    ensures
        final(out)@ == old(out)@ + decimal(n as nat),
    decreases n,
{
    let ghost before = out@;
    if n >= 10 {
        push_decimal(out, n / 10);
    }
    let digit = (48 + (n % 10) as u8) as char;
    out.push(digit);
    assert(out@ =~= before + decimal(n as nat));
}

/// The letters of a one-based column.
pub fn col_to_letters(col: u32) -> (r: String)
    requires
        col >= 1,
    ensures
        r@ == column_letters(col as nat),
{
    let mut out = String::new();
    push_column(&mut out, col);
    assert(out@ =~= column_letters(col as nat));
    out
}

/// The address of a cell: the sheet, an exclamation mark, the column letters and the row number.
pub open spec fn address(sheet: Seq<char>, row: u32, col: u32) -> Seq<char> {
    sheet.push('!') + column_letters(col as nat) + decimal(row as nat)
}

/// The address of a cell by its one-based row and column.
pub fn cell_address(sheet: &str, row: u32, col: u32) -> (r: String)
    ensures
        r@ == address(sheet@, row, col),
{
    let mut out = sheet.to_string();
    out.push('!');
    push_column(&mut out, col);
    push_decimal(&mut out, row as u64);
    out
}

/// The position of the first exclamation mark, or the length where there is none.
pub open spec fn first_bang(s: Seq<char>) -> nat
    decreases s.len(),
{
    if s.len() == 0 || s[0] == '!' {
        0
    } else {
        1 + first_bang(s.drop_first())
    }
}

/// The sheet and the cell part of an address: the text before the first exclamation mark and the
/// text behind it. Without an exclamation mark the whole text is the cell part.
pub open spec fn address_parts(s: Seq<char>) -> (Option<Seq<char>>, Seq<char>) {
    let b = first_bang(s);
    if b == s.len() {
        (None, s)
    } else {
        (Some(s.take(b as int)), s.skip(b as int + 1))
    }
}

pub fn split_address(text: &str) -> (r: (Option<String>, String))
    ensures
        (match r.0 {
            Some(sheet) => Some(sheet@),
            None => None,
        }, r.1@) == address_parts(text@),
{
    let n = text.unicode_len();
    let mut b: usize = 0;
    assert(text@.skip(0) =~= text@);
    while b < n
        invariant
            n == text@.len(),
            b <= n,
            first_bang(text@) == b + first_bang(text@.skip(b as int)),
        decreases n - b,
    {
        if text.get_char(b) == '!' {
            let sheet = text.substring_char(0, b);
            let cell = text.substring_char(b + 1, n);
            proof {
                assert(first_bang(text@.skip(b as int)) == 0);
                assert(text@.subrange(0, b as int) =~= text@.take(b as int));
                assert(text@.subrange(b + 1, n as int) =~= text@.skip(b + 1));
            }
            return (Some(sheet.to_string()), cell.to_string());
        }
        assert(text@.skip(b as int).drop_first() =~= text@.skip(b + 1));
        b = b + 1;
    }
    (None, text.to_string())
}

/// The text with an equals sign in front, unless it has one.
pub open spec fn with_equals(s: Seq<char>) -> Seq<char> {
    if s.len() > 0 && s[0] == '=' {
        s
    } else {
        seq!['='] + s
    }
}

/// The text of a formula as it is shown and parsed: with an equals sign in front.
pub fn formula_text(text: &str) -> (r: String)
    ensures
        r@ == with_equals(text@),
{
    if text.unicode_len() > 0 && text.get_char(0) == '=' {
        text.to_string()
    } else {
        let mut out = String::new();
        out.push('=');
        out.append(text);
        assert(out@ =~= seq!['='] + text@);
        out
    }
}

/// Whether a character is white space: whether it has the Unicode property White_Space.
pub open spec fn is_white(c: char) -> bool {
    let n = c as u32;
    ||| 0x9 <= n <= 0xd
    ||| n == 0x20 || n == 0x85 || n == 0xa0 || n == 0x1680
    ||| 0x2000 <= n <= 0x200a
    ||| n == 0x2028 || n == 0x2029 || n == 0x202f || n == 0x205f || n == 0x3000
}

/// `char::is_whitespace`: whether the character has the Unicode property White_Space.
pub assume_specification[ char::is_whitespace ](c: char) -> (b: bool)
    ensures
        b == is_white(c),
;

/// A text in lower case, as `str::to_lowercase` has it: the Unicode mapping, which is a table that
/// is not written out here.
pub uninterp spec fn lowercase(s: Seq<char>) -> Seq<char>;

/// `str::to_lowercase`: the text in lower case. It depends on the text alone.
#[verifier::external_body]
pub(crate) fn lowered(s: &str) -> (r: String)
    ensures
        r@ == lowercase(s@),
{
    s.to_lowercase()
}

/// The text without white space in front.
pub open spec fn trimmed_front(s: Seq<char>) -> Seq<char>
    decreases s.len(),
{
    if s.len() > 0 && is_white(s[0]) {
        trimmed_front(s.drop_first())
    } else {
        s
    }
}

/// The text without white space at its end.
pub open spec fn trimmed_back(s: Seq<char>) -> Seq<char>
    decreases s.len(),
{
    if s.len() > 0 && is_white(s.last()) {
        trimmed_back(s.drop_last())
    } else {
        s
    }
}

/// The text without white space at either end.
pub open spec fn trimmed(s: Seq<char>) -> Seq<char> {
    trimmed_back(trimmed_front(s))
}

/// The text without white space at either end.
pub fn trim_text(text: &str) -> (r: String)
    ensures
        r@ == trimmed(text@),
{
    let n: usize = text.unicode_len();
    let mut a: usize = 0;
    assert(text@.skip(0) =~= text@);
    while a < n && text.get_char(a).is_whitespace()
        invariant
            n == text@.len(),
            a <= n,
            trimmed_front(text@) == trimmed_front(text@.skip(a as int)),
        decreases n - a,
    {
        assert(text@.skip(a as int).drop_first() =~= text@.skip(a + 1));
        a = a + 1;
    }
    let ghost rest = text@.skip(a as int);
    assert(trimmed_front(text@) == rest);
    let mut b: usize = n;
    assert(text@.subrange(a as int, n as int) =~= rest);
    while b > a && text.get_char(b - 1).is_whitespace()
        invariant
            n == text@.len(),
            a <= b <= n,
            trimmed_back(rest) == trimmed_back(text@.subrange(a as int, b as int)),
        decreases b,
    {
        assert(text@.subrange(a as int, b as int).drop_last() =~= text@.subrange(
            a as int,
            b - 1,
        ));
        b = b - 1;
    }
    assert(trimmed(text@) == text@.subrange(a as int, b as int));
    let mut out = String::new();
    let mut i: usize = a;
    assert(out@ =~= text@.subrange(a as int, a as int));
    while i < b
        invariant
            n == text@.len(),
            a <= i <= b <= n,
            out@ == text@.subrange(a as int, i as int),
        decreases b - i,
    {
        out.push(text.get_char(i));
        assert(out@ =~= text@.subrange(a as int, i + 1));
        i = i + 1;
    }
    out
}

/// A trimmed text has no white space at its ends, and trimming it again changes nothing.
pub proof fn trimming_is_final(s: Seq<char>)
    ensures
        trimmed(s).len() > 0 ==> !is_white(trimmed(s)[0]) && !is_white(trimmed(s).last()),
        trimmed(trimmed(s)) == trimmed(s),
{
    lemma_trimmed_front(s);
    lemma_trimmed_back(trimmed_front(s));
}

proof fn lemma_trimmed_front(s: Seq<char>)
    ensures
        trimmed_front(s).len() > 0 ==> !is_white(trimmed_front(s)[0]),
    decreases s.len(),
{
    if s.len() > 0 && is_white(s[0]) {
        lemma_trimmed_front(s.drop_first());
    }
}

proof fn lemma_trimmed_back(s: Seq<char>)
    ensures
        trimmed_back(s).len() > 0 ==> !is_white(trimmed_back(s).last()) && trimmed_back(s)[0]
            == s[0],
        trimmed_back(trimmed_back(s)) == trimmed_back(s),
    decreases s.len(),
{
    if s.len() > 0 && is_white(s.last()) {
        lemma_trimmed_back(s.drop_last());
    }
}

/// The number that letters count, where A is the first and Z the last digit.
pub open spec fn letters_count(s: Seq<char>) -> nat
    decreases s.len(),
{
    if s.len() == 0 {
        0
    } else {
        letters_count(s.drop_last()) * 26 + (s.last() as nat - 64) as nat
    }
}

/// The letters of a column are capital letters, and count it: from A for the first column to Z, and on
/// with AA.
pub proof fn column_letters_count_the_column(col: nat, i: int)
    ensures
        letters_count(column_letters(col)) == col,
        0 <= i < column_letters(col).len() ==> 65 <= column_letters(col)[i] as int <= 90,
    decreases col,
{
    if col > 0 {
        let front = column_letters(((col - 1) / 26) as nat);
        let last = (65 + (col - 1) % 26) as char;
        let all = column_letters(col);
        column_letters_count_the_column(((col - 1) / 26) as nat, i);
        assert(all.drop_last() =~= front);
        assert(all.last() == last);
        assert(last as int == 65 + (col - 1) % 26);
    }
}

/// The number that decimal digits count.
pub open spec fn digits_count(s: Seq<char>) -> nat
    decreases s.len(),
{
    if s.len() == 0 {
        0
    } else {
        digits_count(s.drop_last()) * 10 + (s.last() as nat - 48) as nat
    }
}

/// A number is written in decimal digits that count it, without a zero in front but for zero itself.
pub proof fn decimal_digits_count_the_number(n: nat, i: int)
    ensures
        decimal(n).len() > 0,
        digits_count(decimal(n)) == n,
        0 <= i < decimal(n).len() ==> 48 <= decimal(n)[i] as int <= 57,
        n > 0 ==> decimal(n)[0] as int > 48,
    decreases n,
{
    if n < 10 {
        let c = (48 + n) as char;
        assert(c as int == 48 + n);
        assert(decimal(n).drop_last() =~= Seq::empty());
        assert(digits_count(decimal(n).drop_last()) == 0);
    } else {
        decimal_digits_count_the_number(n / 10, i);
        let c = (48 + n % 10) as char;
        assert(c as int == 48 + n % 10);
        assert(decimal(n).drop_last() =~= decimal(n / 10));
    }
}

/// The address of a cell is its sheet, an exclamation mark, the letters of its column and the number
/// of its row, and is split at the first exclamation mark again.
pub proof fn addresses_are_split_where_they_were_joined(sheet: Seq<char>, row: u32, col: u32)
    requires
        forall|i: int| 0 <= i < sheet.len() ==> #[trigger] sheet[i] != '!',
    ensures
        address(sheet, row, col) == sheet + seq!['!'] + column_letters(col as nat) + decimal(row as nat),
        address_parts(address(sheet, row, col)) == (
            Some(sheet),
            column_letters(col as nat) + decimal(row as nat),
        ),
{
    let cell = column_letters(col as nat) + decimal(row as nat);
    let all = address(sheet, row, col);
    assert(all =~= sheet + seq!['!'] + column_letters(col as nat) + decimal(row as nat));
    lemma_first_bang(all, sheet.len() as int);
    assert(all.take(sheet.len() as int) =~= sheet);
    assert(all.skip(sheet.len() as int + 1) =~= cell);
}

proof fn lemma_first_bang(s: Seq<char>, at: int)
    requires
        0 <= at <= s.len(),
        at < s.len() ==> s[at] == '!',
        forall|i: int| 0 <= i < at ==> #[trigger] s[i] != '!',
    ensures
        first_bang(s) == at,
    decreases s.len(),
{
    if at > 0 {
        assert(s[0] != '!');
        let rest = s.drop_first();
        assert forall|i: int| 0 <= i < at - 1 implies #[trigger] rest[i] != '!' by {
            assert(s[i + 1] != '!');
        }
        lemma_first_bang(rest, at - 1);
    }
}

/// A text without an exclamation mark names no sheet; of any other, the sheet has none, and the parts
/// make up the text.
pub proof fn address_parts_make_up_the_text(s: Seq<char>)
    ensures
        match address_parts(s).0 {
            None => address_parts(s).1 == s && forall|i: int| 0 <= i < s.len() ==> #[trigger] s[i] != '!',
            Some(sheet) => s == sheet + seq!['!'] + address_parts(s).1 && forall|i: int|
                0 <= i < sheet.len() ==> #[trigger] sheet[i] != '!',
        },
{
    lemma_first_bang_found(s);
    let b = first_bang(s) as int;
    if b < s.len() {
        assert(s =~= s.take(b) + seq!['!'] + s.skip(b + 1));
        assert forall|i: int| 0 <= i < b implies #[trigger] s.take(b)[i] != '!' by {
            assert(s[i] != '!');
        }
    }
}

proof fn lemma_first_bang_found(s: Seq<char>)
    ensures
        first_bang(s) <= s.len(),
        first_bang(s) < s.len() ==> s[first_bang(s) as int] == '!',
        forall|i: int| 0 <= i < first_bang(s) ==> #[trigger] s[i] != '!',
    decreases s.len(),
{
    if s.len() > 0 && s[0] != '!' {
        let rest = s.drop_first();
        lemma_first_bang_found(rest);
        assert forall|i: int| 0 <= i < first_bang(s) implies #[trigger] s[i] != '!' by {
            if i > 0 {
                assert(rest[i - 1] != '!');
            }
        }
    }
}

/// The text of a formula begins with an equals sign, and is else as it was.
pub proof fn formulas_begin_with_an_equals_sign(s: Seq<char>)
    ensures
        with_equals(s).len() > 0,
        with_equals(s)[0] == '=',
        s.len() > 0 && s[0] == '=' ==> with_equals(s) == s,
        !(s.len() > 0 && s[0] == '=') ==> with_equals(s).drop_first() == s,
        with_equals(with_equals(s)) == with_equals(s),
{
    assert((seq!['='] + s).drop_first() =~= s);
}

/// Trimming takes away the white space in front and at the end, and nothing else: the text is what is
/// left between two pieces of white space, and what is left neither begins nor ends with any.
pub proof fn trimming_takes_white_space_away(s: Seq<char>) -> (parts: (Seq<char>, Seq<char>))
    ensures
        s == parts.0 + trimmed(s) + parts.1,
        forall|i: int| 0 <= i < parts.0.len() ==> is_white(#[trigger] parts.0[i]),
        forall|i: int| 0 <= i < parts.1.len() ==> is_white(#[trigger] parts.1[i]),
        trimmed(s).len() > 0 ==> !is_white(trimmed(s)[0]) && !is_white(trimmed(s).last()),
{
    let a = lemma_front_cut(s);
    let mid = trimmed_front(s);
    let b = lemma_back_cut(mid);
    assert(s =~= a + trimmed(s) + b);
    if trimmed(s).len() > 0 {
        assert(mid[0] == trimmed(s)[0]);
    }
    (a, b)
}

proof fn lemma_front_cut(s: Seq<char>) -> (a: Seq<char>)
    ensures
        s == a + trimmed_front(s),
        forall|i: int| 0 <= i < a.len() ==> is_white(#[trigger] a[i]),
        trimmed_front(s).len() > 0 ==> !is_white(trimmed_front(s)[0]),
    decreases s.len(),
{
    if s.len() > 0 && is_white(s[0]) {
        let b = lemma_front_cut(s.drop_first());
        let a = seq![s[0]] + b;
        assert(s =~= seq![s[0]] + s.drop_first());
        assert(s =~= a + trimmed_front(s));
        assert forall|i: int| 0 <= i < a.len() implies is_white(#[trigger] a[i]) by {
            if i > 0 {
                assert(a[i] == b[i - 1]);
            }
        }
        a
    } else {
        assert(s =~= Seq::<char>::empty() + s);
        Seq::empty()
    }
}

proof fn lemma_back_cut(s: Seq<char>) -> (b: Seq<char>)
    ensures
        s == trimmed_back(s) + b,
        forall|i: int| 0 <= i < b.len() ==> is_white(#[trigger] b[i]),
        trimmed_back(s).len() > 0 ==> !is_white(trimmed_back(s).last()),
    decreases s.len(),
{
    if s.len() > 0 && is_white(s.last()) {
        let c = lemma_back_cut(s.drop_last());
        let b = c.push(s.last());
        assert(s =~= s.drop_last().push(s.last()));
        assert(s =~= trimmed_back(s) + b);
        assert forall|i: int| 0 <= i < b.len() implies is_white(#[trigger] b[i]) by {
            if i < c.len() {
                assert(b[i] == c[i]);
            }
        }
        b
    } else {
        assert(s =~= s + Seq::<char>::empty());
        Seq::empty()
    }
}

/// Texts are ordered by the first character in which they differ; a text that goes on lies behind the
/// one that it goes on from.
pub proof fn texts_are_ordered_by_the_first_difference(a: Seq<char>, b: Seq<char>, k: int)
    requires
        0 <= k <= a.len(),
        0 <= k <= b.len(),
        forall|i: int| 0 <= i < k ==> a[i] == #[trigger] b[i],
    ensures
        k < a.len() && k < b.len() && a[k] != b[k] ==> text_lt(a, b) == ((a[k] as int) < (
        b[k] as int)),
        k == a.len() && k < b.len() ==> text_lt(a, b),
        k == b.len() ==> !text_lt(a, b),
    decreases k,
{
    if k > 0 {
        assert(a[0] == b[0]);
        let (x, y) = (a.drop_first(), b.drop_first());
        assert forall|i: int| 0 <= i < k - 1 implies x[i] == #[trigger] y[i] by {
            assert(a[i + 1] == b[i + 1]);
        }
        texts_are_ordered_by_the_first_difference(x, y, k - 1);
    }
}

} // verus!
