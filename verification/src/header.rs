//! The text header of a field: the grid sizes on its first line, then lines
//! of `key value` pairs.
use crate::error::FormatError;
use crate::numeral::default_spacing;
use crate::numeral::dimension_of;
use crate::numeral::is_float;
use crate::numeral::is_float_literal;
use crate::numeral::is_number;
use crate::numeral::leading_digits;
use crate::numeral::parse_dimension;
use crate::text::lemma_pieces_len;
use crate::text::lines;
use crate::text::split;
use crate::text::split_tokens;
use crate::text::tokens;
use crate::text::views;
use crate::text::Separator;
use vstd::prelude::*;
use vstd::slice::slice_to_vec;

verus! {

/// What a header says: the size of the grid along each axis, and for each
/// axis the numeral of its spacing in millimetres per grid step.
pub ghost struct HeaderModel {
    pub dimensions: Seq<usize>,
    pub spacing: Seq<Seq<u8>>,
}

/// A header that was read from text.
#[derive(Debug)]
pub struct Header {
    dimensions: Vec<usize>,
    spacing: Vec<Vec<u8>>,
}

/// The contents of each vector of `v`.
pub open spec fn texts(v: Seq<Vec<u8>>) -> Seq<Seq<u8>> {
    Seq::new(v.len(), |i: int| v[i]@)
}

impl View for Header {
    type V = HeaderModel;

    closed spec fn view(&self) -> HeaderModel {
        HeaderModel { dimensions: self.dimensions@, spacing: texts(self.spacing@) }
    }
}

/// The key `-type`.
pub open spec fn key_type() -> Seq<u8> {
    seq![45u8, 116u8, 121u8, 112u8, 101u8]
}

/// The key `-bo`.
pub open spec fn key_byte_order() -> Seq<u8> {
    seq![45u8, 98u8, 111u8]
}

/// The key `-om`.
pub open spec fn key_storage() -> Seq<u8> {
    seq![45u8, 111u8, 109u8]
}

/// The element type `POINT3DF`.
pub open spec fn word_point3df() -> Seq<u8> {
    seq![80u8, 79u8, 73u8, 78u8, 84u8, 51u8, 68u8, 70u8]
}

/// The byte order `DCBA`.
pub open spec fn word_dcba() -> Seq<u8> {
    seq![68u8, 67u8, 66u8, 65u8]
}

/// The storage model `binar`.
pub open spec fn word_binar() -> Seq<u8> {
    seq![98u8, 105u8, 110u8, 97u8, 114u8]
}

/// The letter that ends the spacing key of each of the first eight axes:
/// `x`, `y`, `z`, `t`, `4`, `5`, `6`, `7`.
pub open spec fn axis_letter(axis: int) -> u8 {
    if axis == 0 {
        120
    } else if axis == 1 {
        121
    } else if axis == 2 {
        122
    } else if axis == 3 {
        116
    } else {
        (48 + axis) as u8
    }
}

/// The spacing key of an axis: `-dx`, `-dy`, `-dz`, `-dt`, `-d4` to `-d7`.
pub open spec fn spacing_key(axis: int) -> Seq<u8> {
    seq![45u8, 100u8, axis_letter(axis)]
}

/// The axis whose spacing a key sets, if it is a spacing key.
pub open spec fn spacing_axis(key: Seq<u8>) -> Option<int> {
    if key.len() == 3 && key[0] == 45 && key[1] == 100 {
        if key[2] == 120 {
            Some(0)
        } else if key[2] == 121 {
            Some(1)
        } else if key[2] == 122 {
            Some(2)
        } else if key[2] == 116 {
            Some(3)
        } else if 52 <= key[2] && key[2] <= 55 {
            Some(key[2] - 48)
        } else {
            None
        }
    } else {
        None
    }
}

/// What one `key value` pair does to the spacings read so far. A key that
/// names the element type, the byte order or the storage model must come
/// with the one supported value. A spacing key must come with a decimal
/// number and name a declared axis, whose spacing it replaces. Any other key
/// is passed over.
pub open spec fn apply_setting(key: Seq<u8>, value: Seq<u8>, spacing: Seq<Seq<u8>>) -> Result<
    Seq<Seq<u8>>,
    FormatError,
> {
    if key == key_type() {
        if value == word_point3df() {
            Ok(spacing)
        } else {
            Err(FormatError::UnsupportedElementType)
        }
    } else if key == key_byte_order() {
        if value == word_dcba() {
            Ok(spacing)
        } else {
            Err(FormatError::UnsupportedByteOrder)
        }
    } else if key == key_storage() {
        if value == word_binar() {
            Ok(spacing)
        } else {
            Err(FormatError::UnsupportedStorage)
        }
    } else {
        match spacing_axis(key) {
            Some(axis) => if !is_float(value) {
                Err(FormatError::BadSpacing)
            } else if axis >= spacing.len() {
                Err(FormatError::NoSuchAxis)
            } else {
                Ok(spacing.update(axis, value))
            },
            None => Ok(spacing),
        }
    }
}

/// The effect of the first `count` pairs among the tokens of a line, taken
/// in order; the first failure ends it.
pub open spec fn apply_pairs(tokens: Seq<Seq<u8>>, count: nat, spacing: Seq<Seq<u8>>) -> Result<
    Seq<Seq<u8>>,
    FormatError,
>
    decreases count,
{
    if count == 0 {
        Ok(spacing)
    } else {
        match apply_pairs(tokens, (count - 1) as nat, spacing) {
            Ok(sofar) => apply_setting(tokens[2 * count - 2], tokens[2 * count - 1], sofar),
            Err(e) => Err(e),
        }
    }
}

/// The effect of one line: its tokens are paired off from the left, and a
/// token left over at the end is passed over.
pub open spec fn apply_line(line: Seq<u8>, spacing: Seq<Seq<u8>>) -> Result<
    Seq<Seq<u8>>,
    FormatError,
> {
    apply_pairs(tokens(line), tokens(line).len() / 2, spacing)
}

/// The effect of the lines after the first, up to but without line `upto`.
pub open spec fn apply_lines(all: Seq<Seq<u8>>, upto: nat, spacing: Seq<Seq<u8>>) -> Result<
    Seq<Seq<u8>>,
    FormatError,
>
    decreases upto,
{
    if upto <= 1 {
        Ok(spacing)
    } else {
        match apply_lines(all, (upto - 1) as nat, spacing) {
            Ok(sofar) => apply_line(all[upto - 1], sofar),
            Err(e) => Err(e),
        }
    }
}

/// Whether every one of `tokens` is a grid size.
pub open spec fn all_dimensions(tokens: Seq<Seq<u8>>) -> bool {
    forall|i: int| 0 <= i < tokens.len() ==> (#[trigger] dimension_of(tokens[i])).is_some()
}

/// What a header text says, or why it is refused.
///
/// The first line holds the grid sizes and must hold at least one. Every
/// axis starts with the default spacing; the lines that follow are applied
/// in order, and the first failure is the one reported.
pub open spec fn header_of(text: Seq<u8>) -> Result<HeaderModel, FormatError> {
    let all = lines(text);
    let first = tokens(all[0]);
    if first.len() == 0 {
        Err(FormatError::MissingDimensions)
    } else if !all_dimensions(first) {
        Err(FormatError::BadDimension)
    } else {
        match apply_lines(all, all.len(), Seq::new(first.len(), |i: int| default_spacing())) {
            Ok(spacing) => Ok(
                HeaderModel {
                    dimensions: Seq::new(first.len(), |i: int| dimension_of(first[i]).unwrap()),
                    spacing,
                },
            ),
            Err(e) => Err(e),
        }
    }
}

/// Once a pair has failed, the pairs after it change nothing.
pub proof fn lemma_pairs_error_sticks(
    tokens: Seq<Seq<u8>>,
    count: nat,
    more: nat,
    spacing: Seq<Seq<u8>>,
)
    requires
        count <= more,
        apply_pairs(tokens, count, spacing).is_err(),
    ensures
        apply_pairs(tokens, more, spacing) == apply_pairs(tokens, count, spacing),
    decreases more - count,
{
    if count < more {
        lemma_pairs_error_sticks(tokens, count, (more - 1) as nat, spacing);
    }
}

/// Once a line has failed, the lines after it change nothing.
pub proof fn lemma_lines_error_sticks(
    all: Seq<Seq<u8>>,
    upto: nat,
    more: nat,
    spacing: Seq<Seq<u8>>,
)
    requires
        upto <= more,
        apply_lines(all, upto, spacing).is_err(),
    ensures
        apply_lines(all, more, spacing) == apply_lines(all, upto, spacing),
    decreases more - upto,
{
    if upto < more {
        lemma_lines_error_sticks(all, upto, (more - 1) as nat, spacing);
    }
}

/// Whether every spacing is written as a decimal number.
pub open spec fn all_floats(spacing: Seq<Seq<u8>>) -> bool {
    forall|i: int| 0 <= i < spacing.len() ==> is_float(#[trigger] spacing[i])
}

/// Whether the axes from the ninth on, which have no spacing key, have the
/// default spacing.
pub open spec fn default_beyond_keys(spacing: Seq<Seq<u8>>) -> bool {
    forall|i: int| 8 <= i < spacing.len() ==> #[trigger] spacing[i] == default_spacing()
}

impl HeaderModel {
    /// What holds of every header that was read from text: there is at
    /// least one axis, every size is positive, every axis has a spacing
    /// written as a decimal number, and the axes that have no spacing key
    /// have the default spacing.
    pub open spec fn wf(self) -> bool {
        &&& self.dimensions.len() > 0
        &&& self.spacing.len() == self.dimensions.len()
        &&& forall|i: int| 0 <= i < self.dimensions.len() ==> 0 < #[trigger] self.dimensions[i]
        &&& all_floats(self.spacing)
        &&& default_beyond_keys(self.spacing)
    }
}

/// The default spacing is a decimal number.
pub proof fn lemma_default_spacing_is_float()
    ensures
        is_float(default_spacing()),
{
    let s = default_spacing();
    assert(s.skip(1).len() == 0);
    assert(leading_digits(s.skip(1)) == 0);
    assert(leading_digits(s) == 1);
    assert(is_number(s));
}

/// Pairs keep the number of spacings, keep them decimal numbers, and leave
/// the axes without a key at the default.
pub proof fn lemma_pairs_keep_spacings(tokens: Seq<Seq<u8>>, count: nat, spacing: Seq<Seq<u8>>)
    requires
        all_floats(spacing),
        default_beyond_keys(spacing),
    ensures
        match apply_pairs(tokens, count, spacing) {
            Ok(after) => after.len() == spacing.len() && all_floats(after) && default_beyond_keys(
                after,
            ),
            Err(_) => true,
        },
    decreases count,
{
    if count > 0 {
        lemma_pairs_keep_spacings(tokens, (count - 1) as nat, spacing);
    }
}

/// Lines keep the number of spacings, keep them decimal numbers, and leave
/// the axes without a key at the default.
pub proof fn lemma_lines_keep_spacings(all: Seq<Seq<u8>>, upto: nat, spacing: Seq<Seq<u8>>)
    requires
        all_floats(spacing),
        default_beyond_keys(spacing),
    ensures
        match apply_lines(all, upto, spacing) {
            Ok(after) => after.len() == spacing.len() && all_floats(after) && default_beyond_keys(
                after,
            ),
            Err(_) => true,
        },
    decreases upto,
{
    if upto > 1 {
        lemma_lines_keep_spacings(all, (upto - 1) as nat, spacing);
        match apply_lines(all, (upto - 1) as nat, spacing) {
            Ok(sofar) => {
                let words = tokens(all[upto - 1]);
                lemma_pairs_keep_spacings(words, words.len() / 2, sofar);
            },
            Err(_) => {},
        }
    }
}

/// Every header that is read is well formed.
pub proof fn lemma_parsed_header_wf(text: Seq<u8>)
    ensures
        match header_of(text) {
            Ok(header) => header.wf(),
            Err(_) => true,
        },
{
    let all = lines(text);
    let first = tokens(all[0]);
    if first.len() > 0 && all_dimensions(first) {
        let start = Seq::new(first.len(), |i: int| default_spacing());
        lemma_default_spacing_is_float();
        lemma_lines_keep_spacings(all, all.len(), start);
    }
}

/// The bytes of the key `-type`.
pub(crate) fn bytes_key_type() -> (w: [u8; 5])
    ensures
        w@ == key_type(),
{
    let w: [u8; 5] = [45, 116, 121, 112, 101];
    assert(w@ =~= key_type());
    w
}

/// The bytes of the key `-bo`.
pub(crate) fn bytes_key_byte_order() -> (w: [u8; 3])
    ensures
        w@ == key_byte_order(),
{
    let w: [u8; 3] = [45, 98, 111];
    assert(w@ =~= key_byte_order());
    w
}

/// The bytes of the key `-om`.
pub(crate) fn bytes_key_storage() -> (w: [u8; 3])
    ensures
        w@ == key_storage(),
{
    let w: [u8; 3] = [45, 111, 109];
    assert(w@ =~= key_storage());
    w
}

/// The bytes of the element type `POINT3DF`.
pub(crate) fn bytes_point3df() -> (w: [u8; 8])
    ensures
        w@ == word_point3df(),
{
    let w: [u8; 8] = [80, 79, 73, 78, 84, 51, 68, 70];
    assert(w@ =~= word_point3df());
    w
}

/// The bytes of the byte order `DCBA`.
pub(crate) fn bytes_dcba() -> (w: [u8; 4])
    ensures
        w@ == word_dcba(),
{
    let w: [u8; 4] = [68, 67, 66, 65];
    assert(w@ =~= word_dcba());
    w
}

/// The bytes of the storage model `binar`.
pub(crate) fn bytes_binar() -> (w: [u8; 5])
    ensures
        w@ == word_binar(),
{
    let w: [u8; 5] = [98, 105, 110, 97, 114];
    assert(w@ =~= word_binar());
    w
}

/// The bytes of the spacing key of one of the first eight axes.
pub(crate) fn bytes_spacing_key(axis: usize) -> (w: [u8; 3])
    requires
        axis < 8,
    ensures
        w@ == spacing_key(axis as int),
{
    let letter: u8 = if axis == 0 {
        120
    } else if axis == 1 {
        121
    } else if axis == 2 {
        122
    } else if axis == 3 {
        116
    } else {
        48 + axis as u8
    };
    let w: [u8; 3] = [45, 100, letter];
    assert(w@ =~= spacing_key(axis as int));
    w
}

/// Whether `s` holds exactly the bytes of `word`.
fn is_word<const N: usize>(s: &[u8], word: &[u8; N]) -> (b: bool)
    ensures
        b == (s@ == word@),
{
    if s.len() != N {
        return false;
    }
    let mut i: usize = 0;
    while i < N
        invariant
            s@.len() == N,
            word@.len() == N,
            i <= N,
            forall|j: int| 0 <= j < i ==> s@[j] == word@[j],
        decreases N - i,
    {
        if s[i] != word[i] {
            return false;
        }
        i = i + 1;
    }
    assert(s@ =~= word@);
    true
}

/// The axis whose spacing `key` sets, if it is a spacing key.
fn axis_of_key(key: &[u8]) -> (r: Option<usize>)
    ensures
        match r {
            Some(axis) => spacing_axis(key@) == Some(axis as int),
            None => spacing_axis(key@).is_none(),
        },
{
    if key.len() == 3 && key[0] == 45 && key[1] == 100 {
        let c: u8 = key[2];
        if c == 120 {
            Some(0)
        } else if c == 121 {
            Some(1)
        } else if c == 122 {
            Some(2)
        } else if c == 116 {
            Some(3)
        } else if 52 <= c && c <= 55 {
            Some((c - 48) as usize)
        } else {
            None
        }
    } else {
        None
    }
}

/// Applies one `key value` pair to the spacings read so far.
fn read_setting(key: &[u8], value: &[u8], spacing: &mut Vec<Vec<u8>>) -> (r: Result<(), FormatError>)
    ensures
        match r {
            Ok(_) => apply_setting(key@, value@, texts(old(spacing)@)) == Ok::<
                Seq<Seq<u8>>,
                FormatError,
            >(texts(final(spacing)@)),
            Err(e) => apply_setting(key@, value@, texts(old(spacing)@)) == Err::<
                Seq<Seq<u8>>,
                FormatError,
            >(e) && *final(spacing) == *old(spacing),
        },
{
    if is_word(key, &bytes_key_type()) {
        if is_word(value, &bytes_point3df()) {
            Ok(())
        } else {
            Err(FormatError::UnsupportedElementType)
        }
    } else if is_word(key, &bytes_key_byte_order()) {
        if is_word(value, &bytes_dcba()) {
            Ok(())
        } else {
            Err(FormatError::UnsupportedByteOrder)
        }
    } else if is_word(key, &bytes_key_storage()) {
        if is_word(value, &bytes_binar()) {
            Ok(())
        } else {
            Err(FormatError::UnsupportedStorage)
        }
    } else {
        match axis_of_key(key) {
            Some(axis) => {
                if !is_float_literal(value) {
                    Err(FormatError::BadSpacing)
                } else if axis >= spacing.len() {
                    Err(FormatError::NoSuchAxis)
                } else {
                    let numeral = slice_to_vec(value);
                    spacing[axis] = numeral;
                    assert(texts(spacing@) =~= texts(old(spacing)@).update(axis as int, value@));
                    Ok(())
                }
            },
            None => Ok(()),
        }
    }
}

/// Applies the pairs of one line, in order, to the spacings read so far.
fn read_line(line: &[u8], spacing: &mut Vec<Vec<u8>>) -> (r: Result<(), FormatError>)
    ensures
        match r {
            Ok(_) => apply_line(line@, texts(old(spacing)@)) == Ok::<Seq<Seq<u8>>, FormatError>(
                texts(final(spacing)@),
            ),
            Err(e) => apply_line(line@, texts(old(spacing)@)) == Err::<Seq<Seq<u8>>, FormatError>(
                e,
            ),
        },
{
    let words = split_tokens(line);
    let n: usize = words.len();
    let count: usize = n / 2;
    let ghost start = texts(spacing@);
    let mut p: usize = 0;
    while p < count
        invariant
            p <= count,
            n == words@.len(),
            2 * count <= n,
            count == tokens(line@).len() / 2,
            views(words@) == tokens(line@),
            start == texts(old(spacing)@),
            apply_pairs(tokens(line@), p as nat, start) == Ok::<Seq<Seq<u8>>, FormatError>(
                texts(spacing@),
            ),
        decreases count - p,
    {
        match read_setting(words[2 * p], words[2 * p + 1], spacing) {
            Ok(_) => {},
            Err(e) => {
                proof {
                    assert(apply_pairs(tokens(line@), (p + 1) as nat, start) == Err::<
                        Seq<Seq<u8>>,
                        FormatError,
                    >(e));
                    lemma_pairs_error_sticks(tokens(line@), (p + 1) as nat, count as nat, start);
                }
                return Err(e);
            },
        }
        p = p + 1;
    }
    Ok(())
}

/// Reads a header.
pub fn parse_header(text: &[u8]) -> (r: Result<Header, FormatError>)
    ensures
        match r {
            Ok(header) => header_of(text@) == Ok::<HeaderModel, FormatError>(header@)
                && header@.wf(),
            Err(e) => header_of(text@) == Err::<HeaderModel, FormatError>(e),
        },
{
    let all = split(text, Separator::Newline);
    proof {
        lemma_pieces_len(text@, Separator::Newline);
        lemma_parsed_header_wf(text@);
    }
    let first = split_tokens(all[0]);
    if first.len() == 0 {
        return Err(FormatError::MissingDimensions);
    }
    let mut dimensions: Vec<usize> = Vec::new();
    let mut spacing: Vec<Vec<u8>> = Vec::new();
    let mut i: usize = 0;
    while i < first.len()
        invariant
            i <= first.len(),
            views(first@) == tokens(lines(text@)[0]),
            dimensions@.len() == i,
            spacing@.len() == i,
            forall|j: int|
                0 <= j < i ==> dimension_of(#[trigger] views(first@)[j]) == Some(dimensions@[j]),
            forall|j: int| 0 <= j < i ==> (#[trigger] spacing@[j])@ == default_spacing(),
        decreases first.len() - i,
    {
        match parse_dimension(first[i]) {
            Some(size) => {
                dimensions.push(size);
                let unit: Vec<u8> = vec![49u8];
                assert(unit@ =~= default_spacing());
                spacing.push(unit);
            },
            None => {
                assert(dimension_of(views(first@)[i as int]).is_none());
                return Err(FormatError::BadDimension);
            },
        }
        i = i + 1;
    }
    let ghost start = texts(spacing@);
    proof {
        assert(all_dimensions(tokens(lines(text@)[0])));
        assert(start =~= Seq::new(tokens(lines(text@)[0]).len(), |i: int| default_spacing()));
        assert(dimensions@ =~= Seq::new(
            first@.len(),
            |i: int| dimension_of(tokens(lines(text@)[0])[i]).unwrap(),
        ));
    }
    let mut l: usize = 1;
    while l < all.len()
        invariant
            1 <= l <= all.len(),
            views(all@) == lines(text@),
            tokens(lines(text@)[0]).len() > 0,
            all_dimensions(tokens(lines(text@)[0])),
            start == Seq::new(tokens(lines(text@)[0]).len(), |i: int| default_spacing()),
            apply_lines(lines(text@), l as nat, start) == Ok::<Seq<Seq<u8>>, FormatError>(
                texts(spacing@),
            ),
        decreases all.len() - l,
    {
        match read_line(all[l], &mut spacing) {
            Ok(_) => {},
            Err(e) => {
                proof {
                    assert(apply_lines(lines(text@), (l + 1) as nat, start) == Err::<
                        Seq<Seq<u8>>,
                        FormatError,
                    >(e));
                    lemma_lines_error_sticks(
                        lines(text@),
                        (l + 1) as nat,
                        all@.len() as nat,
                        start,
                    );
                }
                return Err(e);
            },
        }
        l = l + 1;
    }
    Ok(Header { dimensions, spacing })
}

impl Header {
    #[verifier::type_invariant]
    spec fn well_formed(&self) -> bool {
        self@.wf()
    }

    /// The size of the grid along each axis.
    pub fn dimensions(&self) -> (dimensions: &Vec<usize>)
        ensures
            dimensions@ == self@.dimensions,
            self@.wf(),
    {
        proof {
            use_type_invariant(self);
        }
        &self.dimensions
    }

    /// The spacing of each axis, as the text wrote it.
    pub fn spacing(&self) -> (spacing: &Vec<Vec<u8>>)
        ensures
            texts(spacing@) == self@.spacing,
            self@.wf(),
    {
        proof {
            use_type_invariant(self);
        }
        &self.spacing
    }

    /// The sizes and the spacings, handed over.
    pub fn into_parts(self) -> (parts: (Vec<usize>, Vec<Vec<u8>>))
        ensures
            parts.0@ == self@.dimensions,
            texts(parts.1@) == self@.spacing,
            self@.wf(),
    {
        proof {
            use_type_invariant(&self);
        }
        (self.dimensions, self.spacing)
    }
}

} // verus!
