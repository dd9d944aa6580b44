//! Which rows of a column meet a criterion.
use crate::number::{SIGN_BIT, int_bits, int_to_double};
use crate::text::{lowercase, lowered};
use crate::value::LiteralValue;
use vstd::prelude::*;
use vstd::utf8::encode_utf8;

verus! {

/// A criterion. Numbers are held as the bits of a double.
#[derive(Debug)]
pub enum CriteriaPredicate {
    Gt(u64),
    Ge(u64),
    Lt(u64),
    Le(u64),
    Eq(LiteralValue),
    Ne(LiteralValue),
    TextLike { pattern: String, case_insensitive: bool },
    /// A criterion that is not answered by masks.
    Other,
}

/// The place of a double in the total order of doubles: negative ones come first, from the largest
/// bits to the smallest, then the others.
pub open spec fn total_place(bits: u64) -> int {
    if bits >= SIGN_BIT {
        u64::MAX - bits
    } else {
        bits + SIGN_BIT
    }
}

fn place_of(bits: u64) -> (p: u64)
    ensures
        p == total_place(bits),
{
    if bits >= SIGN_BIT {
        u64::MAX - bits
    } else {
        bits + SIGN_BIT
    }
}

/// The total order tells all doubles apart.
pub proof fn places_are_distinct(a: u64, b: u64)
    ensures
        total_place(a) == total_place(b) <==> a == b,
{
}

/// How numbers are compared with a criterion.
#[derive(Clone, Copy, Debug, PartialEq, Eq, Structural)]
pub enum NumberTest {
    Gt(u64),
    Ge(u64),
    Lt(u64),
    Le(u64),
    Eq(u64),
    Ne(u64),
}

/// Whether a number meets the test.
pub open spec fn passes(test: NumberTest, x: u64) -> bool {
    match test {
        NumberTest::Gt(n) => total_place(x) > total_place(n),
        NumberTest::Ge(n) => total_place(x) >= total_place(n),
        NumberTest::Lt(n) => total_place(x) < total_place(n),
        NumberTest::Le(n) => total_place(x) <= total_place(n),
        NumberTest::Eq(n) => x == n,
        NumberTest::Ne(n) => x != n,
    }
}

/// The test of a criterion about numbers.
pub open spec fn number_test(pred: CriteriaPredicate) -> Option<NumberTest> {
    match pred {
        CriteriaPredicate::Gt(n) => Some(NumberTest::Gt(n)),
        CriteriaPredicate::Ge(n) => Some(NumberTest::Ge(n)),
        CriteriaPredicate::Lt(n) => Some(NumberTest::Lt(n)),
        CriteriaPredicate::Le(n) => Some(NumberTest::Le(n)),
        CriteriaPredicate::Eq(LiteralValue::Number(x)) => Some(NumberTest::Eq(x)),
        CriteriaPredicate::Eq(LiteralValue::Int(i)) => Some(NumberTest::Eq(int_bits(i))),
        CriteriaPredicate::Ne(LiteralValue::Number(x)) => Some(NumberTest::Ne(x)),
        CriteriaPredicate::Ne(LiteralValue::Int(i)) => Some(NumberTest::Ne(int_bits(i))),
        _ => None,
    }
}

fn find_number_test(pred: &CriteriaPredicate) -> (t: Option<NumberTest>)
    ensures
        t == number_test(*pred),
{
    match pred {
        CriteriaPredicate::Gt(n) => Some(NumberTest::Gt(*n)),
        CriteriaPredicate::Ge(n) => Some(NumberTest::Ge(*n)),
        CriteriaPredicate::Lt(n) => Some(NumberTest::Lt(*n)),
        CriteriaPredicate::Le(n) => Some(NumberTest::Le(*n)),
        CriteriaPredicate::Eq(v) => match v {
            LiteralValue::Number(x) => Some(NumberTest::Eq(*x)),
            LiteralValue::Int(i) => Some(NumberTest::Eq(int_to_double(*i))),
            _ => None,
        },
        CriteriaPredicate::Ne(v) => match v {
            LiteralValue::Number(x) => Some(NumberTest::Ne(*x)),
            LiteralValue::Int(i) => Some(NumberTest::Ne(int_to_double(*i))),
            _ => None,
        },
        _ => None,
    }
}

fn test_number(test: NumberTest, x: u64) -> (b: bool)
    ensures
        b == passes(test, x),
{
    match test {
        NumberTest::Gt(n) => place_of(x) > place_of(n),
        NumberTest::Ge(n) => place_of(x) >= place_of(n),
        NumberTest::Lt(n) => place_of(x) < place_of(n),
        NumberTest::Le(n) => place_of(x) <= place_of(n),
        NumberTest::Eq(n) => x == n,
        NumberTest::Ne(n) => x != n,
    }
}

/// A stretch of a column of numbers.
#[derive(Debug)]
pub enum NumberSlice {
    /// It could not be read.
    Failed,
    /// The column does not reach into it.
    Absent,
    /// Its numbers; what is no number is left open.
    Values(Vec<Option<u64>>),
}

/// The mask of a stretch: a number meets the test or not, anything else is open.
pub open spec fn number_mask(test: NumberTest, values: Seq<Option<u64>>) -> Seq<Option<bool>> {
    Seq::new(
        values.len(),
        |i: int|
            match values[i] {
                Some(x) => Some(passes(test, x)),
                None => None,
            },
    )
}

/// The masks of the first `n` stretches, one behind the other, and how many there are; `None` where
/// one could not be read.
pub open spec fn number_masks(test: NumberTest, slices: Seq<NumberSlice>, n: nat) -> Option<
    (Seq<Option<bool>>, nat),
>
    decreases n,
{
    if n == 0 {
        Some((Seq::empty(), 0))
    } else {
        match number_masks(test, slices, (n - 1) as nat) {
            None => None,
            Some((mask, parts)) => match slices[n - 1] {
                NumberSlice::Failed => None,
                NumberSlice::Absent => Some((mask, parts)),
                NumberSlice::Values(values) => Some(
                    (mask + number_mask(test, values@), parts + 1),
                ),
            },
        }
    }
}

/// The text that a criterion about texts looks for.
pub enum TextTest {
    /// Texts like the pattern; an empty one is also met by what is no text.
    Like { pattern: Seq<char>, or_open: bool },
    /// Texts unlike the pattern.
    Unlike { pattern: Seq<char> },
}

/// The pattern with the wildcards of criteria replaced by those of the comparison.
pub open spec fn with_wildcards(s: Seq<char>) -> Seq<char> {
    Seq::new(
        s.len(),
        |i: int|
            if s[i] == '*' {
                '%'
            } else if s[i] == '?' {
                '_'
            } else {
                s[i]
            },
    )
}

/// The test of a criterion about texts.
pub open spec fn text_test(pred: CriteriaPredicate) -> Option<TextTest> {
    match pred {
        CriteriaPredicate::Eq(LiteralValue::Text(t)) => Some(
            TextTest::Like { pattern: lowercase(t@), or_open: t@.len() == 0 },
        ),
        CriteriaPredicate::Ne(LiteralValue::Text(t)) => Some(
            TextTest::Unlike { pattern: lowercase(t@) },
        ),
        CriteriaPredicate::TextLike { pattern, case_insensitive } => Some(
            TextTest::Like {
                pattern: with_wildcards(
                    if case_insensitive {
                        lowercase(pattern@)
                    } else {
                        pattern@
                    },
                ),
                or_open: false,
            },
        ),
        _ => None,
    }
}

/// A stretch of a column of texts.
#[derive(Debug)]
pub enum TextChunk {
    /// It could not be read.
    Failed,
    /// The column does not reach into it.
    Absent,
    /// It holds so many rows, and no text.
    NoText(usize),
    /// Its texts in lower case; what is no text is left open.
    Texts(Vec<Option<String>>),
}

pub open spec fn texts_view(texts: Seq<Option<String>>) -> Seq<Option<Seq<char>>> {
    Seq::new(
        texts.len(),
        |i: int|
            match texts[i] {
                Some(t) => Some(t@),
                None => None,
            },
    )
}

/// How many bytes a text has.
pub open spec fn byte_count(text: Seq<char>) -> nat {
    encode_utf8(text).len()
}

/// How many bytes the texts have.
pub open spec fn text_total(texts: Seq<Option<String>>, n: nat) -> nat
    decreases n,
{
    if n == 0 {
        0
    } else {
        text_total(texts, (n - 1) as nat) + (match texts[n - 1] {
            Some(t) => byte_count(t@),
            None => 0,
        })
    }
}

/// Whether the texts fit into one string array, whose bytes are counted by a 32-bit signed integer.
pub open spec fn fits_array(texts: Seq<Option<String>>) -> bool {
    text_total(texts, texts.len()) <= 0x7fff_ffff
}

/// What the case-insensitive comparison of texts with a pattern gives, as
/// `arrow::compute::kernels::comparison::ilike` has it: `None` where the pattern is refused.
pub uninterp spec fn ilike_mask(texts: Seq<Option<Seq<char>>>, pattern: Seq<char>) -> Option<
    Seq<Option<bool>>,
>;

/// The opposite mask.
pub open spec fn negated(mask: Option<Seq<Option<bool>>>) -> Option<Seq<Option<bool>>> {
    match mask {
        Some(m) => Some(
            Seq::new(
                m.len(),
                |i: int|
                    match m[i] {
                        Some(b) => Some(!b),
                        None => None,
                    },
            ),
        ),
        None => None,
    }
}

pub open spec fn mask_view(mask: Option<Vec<Option<bool>>>) -> Option<Seq<Option<bool>>> {
    match mask {
        Some(m) => Some(m@),
        None => None,
    }
}

/// `arrow::compute::kernels::comparison::ilike` of a string array with one pattern. The result
/// depends on the texts and the pattern alone. A mask has an entry for every text, and is open
/// exactly where there is no text. Which texts match is not said here; a pattern may be refused.
#[verifier::external_body]
fn ilike(texts: &Vec<Option<String>>, pattern: &String) -> (r: Option<Vec<Option<bool>>>)
    requires
        fits_array(texts@),
        byte_count(pattern@) <= 0x7fff_ffff,
    ensures
        mask_view(r) == ilike_mask(texts_view(texts@), pattern@),
        r matches Some(m) ==> m@.len() == texts@.len() && forall|i: int|
            0 <= i < m@.len() ==> (#[trigger] m@[i] is None <==> texts@[i] is None),
{
    let array = arrow_array::StringArray::from_iter(texts.iter().map(|t| t.as_ref()));
    let pattern = arrow_array::StringArray::new_scalar(pattern.as_str());
    match arrow::compute::kernels::comparison::ilike(&array, &pattern) {
        Ok(mask) => Some(mask.iter().collect()),
        Err(_) => None,
    }
}

/// `arrow::compute::kernels::comparison::nilike` of a string array with one pattern: the opposite of
/// what `ilike` gives, open where that is open, and refused where that is refused.
#[verifier::external_body]
fn nilike(texts: &Vec<Option<String>>, pattern: &String) -> (r: Option<Vec<Option<bool>>>)
    requires
        fits_array(texts@),
        byte_count(pattern@) <= 0x7fff_ffff,
    ensures
        mask_view(r) == negated(ilike_mask(texts_view(texts@), pattern@)),
        r matches Some(m) ==> m@.len() == texts@.len() && forall|i: int|
            0 <= i < m@.len() ==> (#[trigger] m@[i] is None <==> texts@[i] is None),
{
    let array = arrow_array::StringArray::from_iter(texts.iter().map(|t| t.as_ref()));
    let pattern = arrow_array::StringArray::new_scalar(pattern.as_str());
    match arrow::compute::kernels::comparison::nilike(&array, &pattern) {
        Ok(mask) => Some(mask.iter().collect()),
        Err(_) => None,
    }
}

/// The mask with true where there is no text.
pub open spec fn or_no_text(mask: Seq<Option<bool>>, texts: Seq<Option<Seq<char>>>) -> Seq<Option<bool>> {
    Seq::new(
        mask.len(),
        |i: int|
            if texts[i] is None {
                Some(true)
            } else {
                mask[i]
            },
    )
}

/// The mask of a stretch of texts, given what the comparison gave for it: an empty text that is
/// looked for is also met by what is no text.
pub open spec fn text_mask(or_open: bool, compared: Seq<Option<bool>>, texts: Seq<Option<Seq<char>>>) -> Seq<
    Option<bool>,
> {
    if or_open {
        or_no_text(compared, texts)
    } else {
        compared
    }
}

/// Takes over what the comparison of a stretch of texts gave.
pub fn settle_text_mask(or_open: bool, compared: Vec<Option<bool>>, texts: &Vec<Option<String>>) -> (r: Vec<
    Option<bool>,
>)
    requires
        compared@.len() == texts@.len(),
    ensures
        r@ == text_mask(or_open, compared@, texts_view(texts@)),
{
    if !or_open {
        return compared;
    }
    let mut out: Vec<Option<bool>> = Vec::new();
    let mut i: usize = 0;
    while i < compared.len()
        invariant
            compared@.len() == texts@.len(),
            i <= compared@.len(),
            out@.len() == i,
            forall|k: int|
                0 <= k < i ==> #[trigger] out@[k] == (if texts@[k] is None {
                    Some(true)
                } else {
                    compared@[k]
                }),
        decreases compared@.len() - i,
    {
        let entry = if texts[i].is_none() {
            Some(true)
        } else {
            compared[i]
        };
        out.push(entry);
        i = i + 1;
    }
    assert(out@ =~= or_no_text(compared@, texts_view(texts@)));
    out
}

/// The mask of a stretch of a column of texts; `None` where it cannot be made.
pub open spec fn chunk_mask(test: TextTest, chunk: TextChunk) -> Option<Seq<Option<bool>>> {
    match chunk {
        TextChunk::Failed => None,
        TextChunk::Absent => None,
        TextChunk::NoText(rows) => Some(
            Seq::new(
                rows as nat,
                |i: int|
                    if test matches TextTest::Like { or_open, .. } && or_open {
                        Some(true)
                    } else {
                        None
                    },
            ),
        ),
        TextChunk::Texts(texts) => match test {
            TextTest::Like { pattern, or_open } => match ilike_mask(texts_view(texts@), pattern) {
                Some(m) => Some(text_mask(or_open, m, texts_view(texts@))),
                None => None,
            },
            TextTest::Unlike { pattern } => negated(ilike_mask(texts_view(texts@), pattern)),
        },
    }
}

/// Whether the stretch has no rows at all.
pub open spec fn is_bare(chunk: TextChunk) -> bool {
    match chunk {
        TextChunk::NoText(rows) => rows == 0,
        TextChunk::Texts(texts) => texts@.len() == 0,
        _ => false,
    }
}

/// The masks of the first `n` stretches, one behind the other, and how many there are; `None` where
/// one cannot be made. Stretches without rows are passed over.
pub open spec fn text_masks(test: TextTest, chunks: Seq<TextChunk>, n: nat) -> Option<
    (Seq<Option<bool>>, nat),
>
    decreases n,
{
    if n == 0 {
        Some((Seq::empty(), 0))
    } else {
        match text_masks(test, chunks, (n - 1) as nat) {
            None => None,
            Some((mask, parts)) => if is_bare(chunks[n - 1]) {
                Some((mask, parts))
            } else {
                match chunk_mask(test, chunks[n - 1]) {
                    None => None,
                    Some(m) => Some((mask + m, parts + 1)),
                }
            },
        }
    }
}

/// The mask of a column; `None` where it has no stretch or the criterion is answered otherwise.
pub open spec fn criteria_mask(
    pred: CriteriaPredicate,
    numbers: Seq<NumberSlice>,
    chunks: Seq<TextChunk>,
) -> Option<Seq<Option<bool>>> {
    let found = match number_test(pred) {
        Some(test) => number_masks(test, numbers, numbers.len()),
        None => match text_test(pred) {
            Some(test) => text_masks(test, chunks, chunks.len()),
            None => None,
        },
    };
    match found {
        Some((mask, parts)) if parts > 0 => Some(mask),
        _ => None,
    }
}

proof fn lemma_number_failed(test: NumberTest, slices: Seq<NumberSlice>, m: nat, n: nat)
    requires
        m <= n <= slices.len(),
        number_masks(test, slices, m) is None,
    ensures
        number_masks(test, slices, n) is None,
    decreases n,
{
    if m < n {
        lemma_number_failed(test, slices, m, (n - 1) as nat);
    }
}

proof fn lemma_text_failed(test: TextTest, chunks: Seq<TextChunk>, m: nat, n: nat)
    requires
        m <= n <= chunks.len(),
        text_masks(test, chunks, m) is None,
    ensures
        text_masks(test, chunks, n) is None,
    decreases n,
{
    if m < n {
        lemma_text_failed(test, chunks, m, (n - 1) as nat);
    }
}

fn mask_numbers(test: NumberTest, slices: &Vec<NumberSlice>) -> (r: Option<Vec<Option<bool>>>)
    ensures
        mask_view(r) == (match number_masks(test, slices@, slices@.len()) {
            Some((mask, parts)) if parts > 0 => Some(mask),
            _ => None,
        }),
{
    let mut out: Vec<Option<bool>> = Vec::new();
    let mut any = false;
    let ghost mut parts: nat = 0;
    let mut i: usize = 0;
    while i < slices.len()
        invariant
            i <= slices@.len(),
            number_masks(test, slices@, i as nat) == Some((out@, parts)),
            any == (parts > 0),
        decreases slices@.len() - i,
    {
        match &slices[i] {
            NumberSlice::Failed => {
                proof {
                    lemma_number_failed(test, slices@, i as nat + 1, slices@.len());
                }
                return None;
            },
            NumberSlice::Absent => {},
            NumberSlice::Values(values) => {
                let ghost before = out@;
                let ghost added = number_mask(test, values@);
                let mut k: usize = 0;
                assert(out@ =~= before + added.take(0));
                while k < values.len()
                    invariant
                        k <= values@.len(),
                        added == number_mask(test, values@),
                        out@ == before + added.take(k as int),
                    decreases values@.len() - k,
                {
                    let entry = match values[k] {
                        Some(x) => Some(test_number(test, x)),
                        None => None,
                    };
                    out.push(entry);
                    assert(added.take(k + 1) =~= added.take(k as int).push(entry));
                    assert(out@ =~= before + added.take(k + 1));
                    k = k + 1;
                }
                assert(added.take(k as int) =~= added);
                any = true;
                proof {
                    parts = parts + 1;
                }
            },
        }
        i = i + 1;
    }
    if any {
        Some(out)
    } else {
        None
    }
}

fn replace_wildcards(s: &String) -> (r: String)
    ensures
        r@ == with_wildcards(s@),
{
    let n: usize = s.as_str().unicode_len();
    let mut out = String::new();
    let mut i: usize = 0;
    while i < n
        invariant
            n == s@.len(),
            i <= n,
            out@ =~= with_wildcards(s@).take(i as int),
        decreases n - i,
    {
        let c = s.as_str().get_char(i);
        let d = if c == '*' {
            '%'
        } else if c == '?' {
            '_'
        } else {
            c
        };
        out.push(d);
        i = i + 1;
    }
    assert(out@ =~= with_wildcards(s@));
    out
}

/// Whether every stretch of texts fits into one string array.
pub open spec fn chunks_fit(chunks: Seq<TextChunk>) -> bool {
    forall|i: int|
        0 <= i < chunks.len() ==> ((#[trigger] chunks[i]) matches TextChunk::Texts(texts)
            ==> fits_array(texts@))
}

fn mask_texts(
    like: bool,
    or_open: bool,
    pattern: &String,
    chunks: &Vec<TextChunk>,
    Ghost(test): Ghost<TextTest>,
) -> (r: Option<Vec<Option<bool>>>)
    requires
        chunks_fit(chunks@),
        byte_count(pattern@) <= 0x7fff_ffff,
        test == (if like {
            TextTest::Like { pattern: pattern@, or_open }
        } else {
            TextTest::Unlike { pattern: pattern@ }
        }),
        !like ==> !or_open,
    ensures
        mask_view(r) == (match text_masks(test, chunks@, chunks@.len()) {
            Some((mask, parts)) if parts > 0 => Some(mask),
            _ => None,
        }),
{
    let mut out: Vec<Option<bool>> = Vec::new();
    let mut any = false;
    let ghost mut parts: nat = 0;
    let mut i: usize = 0;
    while i < chunks.len()
        invariant
            chunks_fit(chunks@),
            byte_count(pattern@) <= 0x7fff_ffff,
            test == (if like {
                TextTest::Like { pattern: pattern@, or_open }
            } else {
                TextTest::Unlike { pattern: pattern@ }
            }),
            !like ==> !or_open,
            i <= chunks@.len(),
            text_masks(test, chunks@, i as nat) == Some((out@, parts)),
            any == (parts > 0),
        decreases chunks@.len() - i,
    {
        match &chunks[i] {
            TextChunk::Failed | TextChunk::Absent => {
                proof {
                    lemma_text_failed(test, chunks@, i as nat + 1, chunks@.len());
                }
                return None;
            },
            TextChunk::NoText(rows) => {
                if *rows > 0 {
                    let ghost before = out@;
                    let entry = if or_open {
                        Some(true)
                    } else {
                        None
                    };
                    let ghost added = chunk_mask(test, chunks@[i as int])->Some_0;
                    let mut k: usize = 0;
                    assert(out@ =~= before + added.take(0));
                    while k < *rows
                        invariant
                            k <= *rows,
                            added.len() == *rows,
                            forall|x: int| 0 <= x < added.len() ==> #[trigger] added[x] == entry,
                            out@ == before + added.take(k as int),
                        decreases *rows - k,
                    {
                        out.push(entry);
                        assert(added.take(k + 1) =~= added.take(k as int).push(entry));
                        assert(out@ =~= before + added.take(k + 1));
                        k = k + 1;
                    }
                    assert(added.take(k as int) =~= added);
                    any = true;
                    proof {
                        parts = parts + 1;
                    }
                }
            },
            TextChunk::Texts(texts) => {
                if texts.len() > 0 {
                    assert(fits_array(texts@)) by {
                        assert(chunks@[i as int] == TextChunk::Texts(*texts));
                    }
                    let compared = if like {
                        ilike(texts, pattern)
                    } else {
                        nilike(texts, pattern)
                    };
                    match compared {
                        None => {
                            proof {
                                lemma_text_failed(test, chunks@, i as nat + 1, chunks@.len());
                            }
                            return None;
                        },
                        Some(m) => {
                            let mut mask = settle_text_mask(or_open, m, texts);
                            let ghost before = out@;
                            let ghost added = mask@;
                            out.append(&mut mask);
                            assert(out@ =~= before + added);
                            any = true;
                            proof {
                                parts = parts + 1;
                            }
                        },
                    }
                }
            },
        }
        i = i + 1;
    }
    if any {
        Some(out)
    } else {
        None
    }
}

/// Whether the pattern that a criterion about texts looks for fits into a string array.
pub open spec fn pattern_fits(pred: CriteriaPredicate) -> bool {
    match text_test(pred) {
        Some(TextTest::Like { pattern, .. }) => byte_count(pattern) <= 0x7fff_ffff,
        Some(TextTest::Unlike { pattern }) => byte_count(pattern) <= 0x7fff_ffff,
        None => true,
    }
}

/// The mask of a column for a criterion, from its stretches. `None` also where the pattern, in lower
/// case, is too long for a string array.
pub fn compute_criteria_mask(
    pred: &CriteriaPredicate,
    numbers: &Vec<NumberSlice>,
    chunks: &Vec<TextChunk>,
) -> (r: Option<Vec<Option<bool>>>)
    requires
        chunks_fit(chunks@),
    ensures
        pattern_fits(*pred) ==> mask_view(r) == criteria_mask(*pred, numbers@, chunks@),
        !pattern_fits(*pred) ==> r is None,
{
    if let Some(test) = find_number_test(pred) {
        return mask_numbers(test, numbers);
    }
    match pred {
        CriteriaPredicate::Eq(LiteralValue::Text(t)) => {
            let pattern = lowered(t.as_str());
            if pattern.as_str().as_bytes().len() > 0x7fff_ffff {
                return None;
            }
            let or_open = t.as_str().unicode_len() == 0;
            mask_texts(true, or_open, &pattern, chunks, Ghost(text_test(*pred)->Some_0))
        },
        CriteriaPredicate::Ne(LiteralValue::Text(t)) => {
            let pattern = lowered(t.as_str());
            if pattern.as_str().as_bytes().len() > 0x7fff_ffff {
                return None;
            }
            mask_texts(false, false, &pattern, chunks, Ghost(text_test(*pred)->Some_0))
        },
        CriteriaPredicate::TextLike { pattern, case_insensitive } => {
            let folded = if *case_insensitive {
                lowered(pattern.as_str())
            } else {
                pattern.clone()
            };
            let replaced = replace_wildcards(&folded);
            if replaced.as_str().as_bytes().len() > 0x7fff_ffff {
                return None;
            }
            mask_texts(true, false, &replaced, chunks, Ghost(text_test(*pred)->Some_0))
        },
        _ => None,
    }
}

/// What is done for the mask of a column.
#[derive(Debug)]
pub enum MaskStep {
    /// There is no mask.
    NoMask,
    /// The mask has no entries.
    Empty,
    /// The mask is made from the stretches of the column.
    Compute,
}

/// Decides whether a mask is made: not for a view without columns, and without entries for a view
/// that begins behind the rows of its sheet.
pub fn build_criteria_mask(view_cols: usize, sheet_rows: usize, start_row: usize) -> (s: MaskStep)
    ensures
        s == (if view_cols == 0 {
            MaskStep::NoMask
        } else if sheet_rows == 0 || start_row >= sheet_rows {
            MaskStep::Empty
        } else {
            MaskStep::Compute
        }),
{
    if view_cols == 0 {
        MaskStep::NoMask
    } else if sheet_rows == 0 || start_row >= sheet_rows {
        MaskStep::Empty
    } else {
        MaskStep::Compute
    }
}

/// Numbers are compared as doubles are ordered: a negative one lies below one that is not, of two that
/// are not the one with the smaller bits lies below, and of two negative ones the one with the larger
/// bits. Each test is the opposite of another one, and of below, equal and above exactly one holds.
pub proof fn numbers_are_tested_by_their_order(x: u64, n: u64)
    ensures
        ({
            let (nx, nn) = (x >= 0x8000_0000_0000_0000, n >= 0x8000_0000_0000_0000);
            let below = (nx && !nn) || (!nx && !nn && x < n) || (nx && nn && x > n);
            &&& passes(NumberTest::Lt(n), x) == below
            &&& passes(NumberTest::Le(n), x) == (below || x == n)
            &&& passes(NumberTest::Gt(n), x) == !(below || x == n)
            &&& passes(NumberTest::Ge(n), x) == !below
            &&& passes(NumberTest::Eq(n), x) == (x == n)
            &&& passes(NumberTest::Ne(n), x) == (x != n)
            &&& passes(NumberTest::Gt(n), x) == passes(NumberTest::Lt(x), n)
        }),
{
}

/// A criterion about numbers tests each number of a column by itself: the mask has an entry for every
/// place, which is open exactly where there is no number, and tells else whether the number meets the
/// criterion. A whole number counts as the double that it is.
pub proof fn a_number_criterion_tests_each_number(
    pred: CriteriaPredicate,
    values: Vec<Option<u64>>,
    chunks: Seq<TextChunk>,
    i: int,
)
    requires
        0 <= i < values@.len(),
        pred is Gt || pred is Ge || pred is Lt || pred is Le || (pred matches CriteriaPredicate::Eq(
            LiteralValue::Number(_),
        )) || (pred matches CriteriaPredicate::Ne(LiteralValue::Number(_))) || (
        pred matches CriteriaPredicate::Eq(LiteralValue::Int(_))) || (
        pred matches CriteriaPredicate::Ne(LiteralValue::Int(_))),
    ensures
        criteria_mask(pred, seq![NumberSlice::Values(values)], chunks) matches Some(m) && m.len()
            == values@.len() && m[i] == (match values@[i] {
            None => None::<bool>,
            Some(x) => Some(
                match pred {
                    CriteriaPredicate::Gt(n) => passes(NumberTest::Gt(n), x),
                    CriteriaPredicate::Ge(n) => !passes(NumberTest::Gt(x), n),
                    CriteriaPredicate::Lt(n) => passes(NumberTest::Gt(x), n),
                    CriteriaPredicate::Le(n) => !passes(NumberTest::Gt(n), x),
                    CriteriaPredicate::Eq(LiteralValue::Number(n)) => x == n,
                    CriteriaPredicate::Ne(LiteralValue::Number(n)) => x != n,
                    CriteriaPredicate::Eq(LiteralValue::Int(n)) => x == int_bits(n),
                    CriteriaPredicate::Ne(LiteralValue::Int(n)) => x != int_bits(n),
                    _ => false,
                },
            ),
        }),
{
    let slices = seq![NumberSlice::Values(values)];
    reveal_with_fuel(number_masks, 2);
    let test = number_test(pred)->Some_0;
    assert(slices[0] == NumberSlice::Values(values));
    assert(Seq::<Option<bool>>::empty() + number_mask(test, values@) =~= number_mask(test, values@));
    if let Some(x) = values@[i] {
        match pred {
            CriteriaPredicate::Ge(n) => {
                numbers_are_tested_by_their_order(x, n);
                numbers_are_tested_by_their_order(n, x);
            },
            CriteriaPredicate::Lt(n) => {
                numbers_are_tested_by_their_order(x, n);
                numbers_are_tested_by_their_order(n, x);
            },
            CriteriaPredicate::Le(n) => {
                numbers_are_tested_by_their_order(x, n);
            },
            _ => {},
        }
    }
}

proof fn lemma_number_masks_joined(test: NumberTest, a: Seq<NumberSlice>, b: Seq<NumberSlice>, n: nat)
    requires
        n <= b.len(),
    ensures
        number_masks(test, a + b, a.len() + n) == (match (
            number_masks(test, a, a.len()),
            number_masks(test, b, n),
        ) {
            (Some((m, p)), Some((k, q))) => Some((m + k, p + q)),
            _ => None,
        }),
    decreases n,
{
    if n == 0 {
        lemma_number_masks_prefix(test, a, b, a.len());
        if let Some((m, p)) = number_masks(test, a, a.len()) {
            assert(m + Seq::<Option<bool>>::empty() =~= m);
        }
    } else {
        lemma_number_masks_joined(test, a, b, (n - 1) as nat);
        assert((a + b)[a.len() + n - 1] == b[n - 1]);
        if let (Some((m, p)), Some((k, q))) = (
            number_masks(test, a, a.len()),
            number_masks(test, b, (n - 1) as nat),
        ) {
            if let NumberSlice::Values(values) = b[n - 1] {
                assert((m + k) + number_mask(test, values@) =~= m + (k + number_mask(test, values@)));
            }
        }
    }
}

proof fn lemma_number_masks_prefix(test: NumberTest, a: Seq<NumberSlice>, b: Seq<NumberSlice>, n: nat)
    requires
        n <= a.len(),
    ensures
        number_masks(test, a + b, n) == number_masks(test, a, n),
    decreases n,
{
    if n > 0 {
        lemma_number_masks_prefix(test, a, b, (n - 1) as nat);
        assert((a + b)[n - 1] == a[n - 1]);
    }
}

/// The mask of a column for a criterion about numbers is made stretch by stretch: that of two parts
/// of the column, one behind the other, is the one mask behind the other.
pub proof fn number_masks_are_made_stretch_by_stretch(
    pred: CriteriaPredicate,
    a: Seq<NumberSlice>,
    b: Seq<NumberSlice>,
    chunks: Seq<TextChunk>,
)
    requires
        pred is Gt || pred is Ge || pred is Lt || pred is Le || (pred matches CriteriaPredicate::Eq(
            LiteralValue::Number(_),
        )) || (pred matches CriteriaPredicate::Ne(LiteralValue::Number(_))) || (
        pred matches CriteriaPredicate::Eq(LiteralValue::Int(_))) || (
        pred matches CriteriaPredicate::Ne(LiteralValue::Int(_))),
        criteria_mask(pred, a, chunks) is Some,
        criteria_mask(pred, b, chunks) is Some,
    ensures
        criteria_mask(pred, a + b, chunks) == Some(
            criteria_mask(pred, a, chunks)->0 + criteria_mask(pred, b, chunks)->0,
        ),
{
    lemma_number_masks_joined(number_test(pred)->Some_0, a, b, b.len());
    assert((a + b).len() == a.len() + b.len());
}

/// A stretch that could not be read leaves the column without a mask, and so does one that has none
/// at all; a stretch that the column does not reach into adds nothing.
pub proof fn unread_stretches_leave_no_mask(
    pred: CriteriaPredicate,
    numbers: Seq<NumberSlice>,
    chunks: Seq<TextChunk>,
    i: int,
)
    requires
        number_test(pred) is Some,
    ensures
        0 <= i < numbers.len() && numbers[i] is Failed ==> criteria_mask(pred, numbers, chunks) is None,
        (forall|k: int| 0 <= k < numbers.len() ==> (#[trigger] numbers[k]) is Absent) ==> criteria_mask(
            pred,
            numbers,
            chunks,
        ) is None,
{
    let test = number_test(pred)->Some_0;
    if 0 <= i < numbers.len() && numbers[i] is Failed {
        lemma_failed_number(test, numbers, i, numbers.len());
    }
    if forall|k: int| 0 <= k < numbers.len() ==> (#[trigger] numbers[k]) is Absent {
        lemma_absent_numbers(test, numbers, numbers.len());
    }
}

proof fn lemma_failed_number(test: NumberTest, numbers: Seq<NumberSlice>, i: int, n: nat)
    requires
        0 <= i < n <= numbers.len(),
        numbers[i] is Failed,
    ensures
        number_masks(test, numbers, n) is None,
    decreases n,
{
    if i < n - 1 {
        lemma_failed_number(test, numbers, i, (n - 1) as nat);
    }
}

proof fn lemma_absent_numbers(test: NumberTest, numbers: Seq<NumberSlice>, n: nat)
    requires
        n <= numbers.len(),
        forall|k: int| 0 <= k < numbers.len() ==> (#[trigger] numbers[k]) is Absent,
    ensures
        number_masks(test, numbers, n) == Some((Seq::<Option<bool>>::empty(), 0nat)),
    decreases n,
{
    if n > 0 {
        lemma_absent_numbers(test, numbers, (n - 1) as nat);
        assert(numbers[n - 1] is Absent);
    }
}

/// A criterion about texts compares each text without regard to case: one for equality holds where the
/// comparison holds, and one for inequality exactly where it does not. What is no text is left open,
/// but equals the empty text.
pub proof fn a_text_criterion_compares_each_text(
    pred: CriteriaPredicate,
    numbers: Seq<NumberSlice>,
    texts: Vec<Option<String>>,
    i: int,
)
    requires
        0 <= i < texts@.len(),
        (pred matches CriteriaPredicate::Eq(LiteralValue::Text(_))) || (
        pred matches CriteriaPredicate::Ne(LiteralValue::Text(_))),
    ensures
        ({
            let mask = criteria_mask(pred, numbers, seq![TextChunk::Texts(texts)]);
            let view = Seq::new(
                texts@.len(),
                |k: int|
                    match texts@[k] {
                        Some(t) => Some(t@),
                        None => None::<Seq<char>>,
                    },
            );
            match pred {
                CriteriaPredicate::Eq(LiteralValue::Text(t)) => match ilike_mask(
                    view,
                    lowercase(t@),
                ) {
                    Some(m) if m.len() == texts@.len() => mask matches Some(r) && r.len() == m.len()
                        && r[i] == (if t@.len() == 0 && texts@[i] is None {
                        Some(true)
                    } else {
                        m[i]
                    }),
                    Some(_) => true,
                    None => mask is None,
                },
                CriteriaPredicate::Ne(LiteralValue::Text(t)) => match ilike_mask(
                    view,
                    lowercase(t@),
                ) {
                    Some(m) if m.len() == texts@.len() => mask matches Some(r) && r.len() == m.len() && (
                    m[i] == Some(true) ==> r[i] == Some(false)) && (m[i] == Some(false) ==> r[i]
                        == Some(true)) && (m[i] is None ==> r[i] is None),
                    Some(_) => true,
                    None => mask is None,
                },
                _ => false,
            }
        }),
{
    let chunks = seq![TextChunk::Texts(texts)];
    reveal_with_fuel(text_masks, 2);
    assert(chunks[0] == TextChunk::Texts(texts));
    let view = Seq::new(
        texts@.len(),
        |k: int|
            match texts@[k] {
                Some(t) => Some(t@),
                None => None::<Seq<char>>,
            },
    );
    assert(view =~= texts_view(texts@));
    let test = text_test(pred)->Some_0;
    if let Some(m) = chunk_mask(test, chunks[0]) {
        assert(Seq::<Option<bool>>::empty() + m =~= m);
    }
}

/// The pattern of a wildcard criterion: a star stands for any text, a question mark for any character,
/// and every other character for itself. Case is folded where it is not to matter.
pub proof fn wildcards_are_replaced(pattern: String, case_insensitive: bool, i: int)
    ensures
        ({
            let text = if case_insensitive {
                lowercase(pattern@)
            } else {
                pattern@
            };
            text_test(CriteriaPredicate::TextLike { pattern, case_insensitive }) matches Some(
                TextTest::Like { pattern: p, or_open },
            ) && !or_open && p.len() == text.len() && (0 <= i < text.len() ==> p[i] == (if text[i]
                == '*' {
                '%'
            } else if text[i] == '?' {
                '_'
            } else {
                text[i]
            }))
        }),
{
}

/// A stretch without text is open in every row for every criterion about texts, but equals the empty
/// text; a stretch that the column does not reach into leaves no mask.
pub proof fn stretches_without_text(t: String, numbers: Seq<NumberSlice>, rows: usize, i: int)
    requires
        0 <= i < rows,
    ensures
        criteria_mask(
            CriteriaPredicate::Eq(LiteralValue::Text(t)),
            numbers,
            seq![TextChunk::NoText(rows)],
        ) matches Some(m) && m.len() == rows && m[i] == (if t@.len() == 0 {
            Some(true)
        } else {
            None
        }),
        criteria_mask(
            CriteriaPredicate::Ne(LiteralValue::Text(t)),
            numbers,
            seq![TextChunk::NoText(rows)],
        ) matches Some(m) && m.len() == rows && m[i] is None,
        criteria_mask(
            CriteriaPredicate::Eq(LiteralValue::Text(t)),
            numbers,
            seq![TextChunk::Absent],
        ) is None,
{
    reveal_with_fuel(text_masks, 2);
    let chunk = TextChunk::NoText(rows);
    let eq = CriteriaPredicate::Eq(LiteralValue::Text(t));
    let ne = CriteriaPredicate::Ne(LiteralValue::Text(t));
    assert(seq![chunk][0] == chunk);
    assert(seq![TextChunk::Absent][0] == TextChunk::Absent);
    let a = chunk_mask(text_test(eq)->Some_0, chunk)->Some_0;
    let b = chunk_mask(text_test(ne)->Some_0, chunk)->Some_0;
    assert(Seq::<Option<bool>>::empty() + a =~= a);
    assert(Seq::<Option<bool>>::empty() + b =~= b);
}

} // verus!
