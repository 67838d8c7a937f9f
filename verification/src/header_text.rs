//! Writing a header as text, and the proof that reading gives it back.
use crate::error::FormatError;
use crate::header::apply_line;
use crate::header::apply_lines;
use crate::header::apply_pairs;
use crate::header::apply_setting;
use crate::header::bytes_binar;
use crate::header::bytes_dcba;
use crate::header::bytes_key_byte_order;
use crate::header::bytes_key_storage;
use crate::header::bytes_key_type;
use crate::header::bytes_point3df;
use crate::header::bytes_spacing_key;
use crate::header::header_of;
use crate::header::key_byte_order;
use crate::header::key_storage;
use crate::header::key_type;
use crate::header::lemma_parsed_header_wf;
use crate::header::spacing_axis;
use crate::header::spacing_key;
use crate::header::texts;
use crate::header::word_binar;
use crate::header::word_dcba;
use crate::header::word_point3df;
use crate::header::Header;
use crate::header::HeaderModel;
use crate::numeral::decimal_digits;
use crate::numeral::default_spacing;
use crate::numeral::dimension_of;
use crate::numeral::is_float;
use crate::numeral::lemma_dimension_of_digits;
use crate::numeral::lemma_float_is_a_word;
use crate::numeral::push_decimal;
use crate::text::all_free_of;
use crate::text::free_of;
use crate::text::join;
use crate::text::lemma_join_free_of;
use crate::text::lemma_pieces_join;
use crate::text::lemma_tokens_join;
use crate::text::lines;
use crate::text::separates;
use crate::text::tokens;
use crate::text::Separator;
use crate::text::NEWLINE;
use crate::text::SPACE;
use vstd::prelude::*;

verus! {

/// The shortest decimal numeral of each size.
pub open spec fn numerals(dimensions: Seq<usize>) -> Seq<Seq<u8>> {
    Seq::new(dimensions.len(), |i: int| decimal_digits(dimensions[i] as nat))
}

/// A line that holds one key and its value.
pub open spec fn setting_line(key: Seq<u8>, value: Seq<u8>) -> Seq<u8> {
    join(seq![key, value], SPACE)
}

/// The number of axes that have a spacing key: all of them, up to eight.
pub open spec fn keyed_axes(spacing: Seq<Seq<u8>>) -> nat {
    if spacing.len() < 8 {
        spacing.len()
    } else {
        8
    }
}

/// The lines of a written header: the sizes; the element type, the byte
/// order and the storage model; the spacing of each axis that has a key;
/// and an empty line, so that the text ends in a line feed.
pub open spec fn header_lines(h: HeaderModel) -> Seq<Seq<u8>> {
    seq![
        join(numerals(h.dimensions), SPACE),
        setting_line(key_type(), word_point3df()),
        setting_line(key_byte_order(), word_dcba()),
        setting_line(key_storage(), word_binar()),
    ] + Seq::new(keyed_axes(h.spacing), |a: int| setting_line(spacing_key(a), h.spacing[a]))
        + seq![Seq::<u8>::empty()]
}

/// A header written as text.
pub open spec fn header_text(h: HeaderModel) -> Seq<u8> {
    join(header_lines(h), NEWLINE)
}

/// Whether `s` can stand as a token: it has a byte and holds no whitespace.
pub open spec fn is_token(s: Seq<u8>) -> bool {
    s.len() > 0 && free_of(s, Separator::Whitespace)
}

/// The fixed keys and values are tokens.
pub proof fn lemma_fixed_tokens()
    ensures
        is_token(key_type()),
        is_token(key_byte_order()),
        is_token(key_storage()),
        is_token(word_point3df()),
        is_token(word_dcba()),
        is_token(word_binar()),
        forall|a: int| 0 <= a < 8 ==> is_token(#[trigger] spacing_key(a)),
{
    assert forall|a: int| 0 <= a < 8 implies is_token(#[trigger] spacing_key(a)) by {
        let key = spacing_key(a);
        assert forall|i: int| 0 <= i < key.len() implies !separates(
            Separator::Whitespace,
            #[trigger] key[i],
        ) by {}
    }
}

/// A line that holds one key and its value does what the pair does, and
/// holds no line feed.
pub proof fn lemma_setting_line(key: Seq<u8>, value: Seq<u8>, spacing: Seq<Seq<u8>>)
    requires
        is_token(key),
        is_token(value),
    ensures
        apply_line(setting_line(key, value), spacing) == apply_setting(key, value, spacing),
        free_of(setting_line(key, value), Separator::Newline),
{
    let words = seq![key, value];
    lemma_tokens_join(words);
    assert(apply_pairs(words, 0, spacing) == Ok::<Seq<Seq<u8>>, FormatError>(spacing));
    assert(apply_pairs(words, 1, spacing) == apply_setting(words[0], words[1], spacing));
    assert(all_free_of(words, Separator::Newline)) by {
        assert forall|i: int| 0 <= i < words.len() implies free_of(
            #[trigger] words[i],
            Separator::Newline,
        ) by {
            lemma_token_has_no_line_feed(words[i]);
        }
    }
    lemma_join_free_of(words, SPACE, Separator::Newline);
}

/// A token holds no line feed.
pub proof fn lemma_token_has_no_line_feed(s: Seq<u8>)
    requires
        is_token(s),
    ensures
        free_of(s, Separator::Newline),
{
    assert forall|i: int| 0 <= i < s.len() implies !separates(
        Separator::Newline,
        #[trigger] s[i],
    ) by {
        assert(!separates(Separator::Whitespace, s[i]));
    }
}

/// The spacings after the first `a` spacing lines of a written header: the
/// first `a` axes have theirs, the others the default.
pub open spec fn spacings_after(h: HeaderModel, a: int) -> Seq<Seq<u8>> {
    Seq::new(
        h.spacing.len(),
        |i: int|
            if i < a {
                h.spacing[i]
            } else {
                default_spacing()
            },
    )
}

/// The lines of a written header up to the spacing line of axis `a` leave
/// the spacings of the axes before `a` set.
pub proof fn lemma_written_lines(h: HeaderModel, a: nat)
    requires
        h.wf(),
        a <= keyed_axes(h.spacing),
    ensures
        apply_lines(header_lines(h), 4 + a, spacings_after(h, 0)) == Ok::<
            Seq<Seq<u8>>,
            FormatError,
        >(spacings_after(h, a as int)),
    decreases a,
{
    let all = header_lines(h);
    let start = spacings_after(h, 0);
    lemma_fixed_tokens();
    if a == 0 {
        assert(apply_lines(all, 1, start) == Ok::<Seq<Seq<u8>>, FormatError>(start));
        lemma_setting_line(key_type(), word_point3df(), start);
        assert(all[1] == setting_line(key_type(), word_point3df()));
        assert(apply_lines(all, 2, start) == Ok::<Seq<Seq<u8>>, FormatError>(start));
        lemma_setting_line(key_byte_order(), word_dcba(), start);
        assert(all[2] == setting_line(key_byte_order(), word_dcba()));
        assert(key_byte_order().len() != key_type().len());
        assert(apply_lines(all, 3, start) == Ok::<Seq<Seq<u8>>, FormatError>(start));
        lemma_setting_line(key_storage(), word_binar(), start);
        assert(all[3] == setting_line(key_storage(), word_binar()));
        assert(key_storage().len() != key_type().len());
        assert(key_storage()[1] != key_byte_order()[1]);
        assert(apply_lines(all, 4, start) == Ok::<Seq<Seq<u8>>, FormatError>(start));
    } else {
        let axis = (a - 1) as int;
        lemma_written_lines(h, (a - 1) as nat);
        let sofar = spacings_after(h, axis);
        let key = spacing_key(axis);
        let value = h.spacing[axis];
        assert(is_float(value));
        lemma_float_is_a_word(value);
        assert(is_token(value));
        lemma_setting_line(key, value, sofar);
        assert(all[4 + axis] == setting_line(key, value));
        assert(key.len() != key_type().len());
        assert(key[1] != key_byte_order()[1]);
        assert(key[1] != key_storage()[1]);
        assert(spacing_axis(key) == Some(axis));
        assert(sofar.update(axis, value) =~= spacings_after(h, a as int));
    }
}

/// Writing a well-formed header and reading the text gives the header back.
pub proof fn lemma_header_round_trip(h: HeaderModel)
    requires
        h.wf(),
    ensures
        header_of(header_text(h)) == Ok::<HeaderModel, FormatError>(h),
{
    let all = header_lines(h);
    let words = numerals(h.dimensions);
    let count = keyed_axes(h.spacing);
    let start = spacings_after(h, 0);
    lemma_fixed_tokens();
    assert forall|i: int| 0 <= i < words.len() implies is_token(#[trigger] words[i]) && free_of(
        words[i],
        Separator::Newline,
    ) && dimension_of(words[i]) == Some(h.dimensions[i]) by {
        lemma_dimension_of_digits(h.dimensions[i]);
        lemma_token_has_no_line_feed(words[i]);
    }
    lemma_tokens_join(words);
    lemma_join_free_of(words, SPACE, Separator::Newline);
    assert(all_free_of(all, Separator::Newline)) by {
        assert forall|i: int| 0 <= i < all.len() implies free_of(
            #[trigger] all[i],
            Separator::Newline,
        ) by {
            if i == 1 {
                lemma_setting_line(key_type(), word_point3df(), start);
            } else if i == 2 {
                lemma_setting_line(key_byte_order(), word_dcba(), start);
            } else if i == 3 {
                lemma_setting_line(key_storage(), word_binar(), start);
            } else if 4 <= i < 4 + count {
                let value = h.spacing[i - 4];
                assert(is_float(value));
                lemma_float_is_a_word(value);
                lemma_setting_line(spacing_key(i - 4), value, start);
            }
        }
    }
    lemma_pieces_join(all, NEWLINE, Separator::Newline);
    assert(lines(header_text(h)) == all);
    assert(tokens(all[0]) == words);
    assert(start =~= Seq::new(words.len(), |i: int| default_spacing()));
    assert(h.dimensions =~= Seq::new(words.len(), |i: int| dimension_of(words[i]).unwrap()));
    lemma_written_lines(h, count);
    lemma_tokens_join(Seq::<Seq<u8>>::empty());
    let last = all[4 + count as int];
    assert(last == Seq::<u8>::empty());
    assert(join(Seq::<Seq<u8>>::empty(), SPACE) == last);
    assert(apply_line(last, spacings_after(h, count as int)) == Ok::<Seq<Seq<u8>>, FormatError>(
        spacings_after(h, count as int),
    ));
    assert(spacings_after(h, count as int) =~= h.spacing);
    assert(all.len() == 5 + count);
}

/// Reading a text and writing what was read gives a text that reads the
/// same.
pub proof fn lemma_parse_round_trip(text: Seq<u8>)
    ensures
        match header_of(text) {
            Ok(header) => header_of(header_text(header)) == Ok::<
                HeaderModel,
                FormatError,
            >(header),
            Err(_) => true,
        },
{
    lemma_parsed_header_wf(text);
    match header_of(text) {
        Ok(header) => {
            lemma_header_round_trip(header);
        },
        Err(_) => {},
    }
}

/// Appends `bytes` to `out`.
fn push_all(out: &mut Vec<u8>, bytes: &[u8])
    ensures
        final(out)@ == old(out)@ + bytes@,
{
    let n: usize = bytes.len();
    let mut i: usize = 0;
    assert(out@ == old(out)@ + bytes@.take(0));
    while i < n
        invariant
            n == bytes@.len(),
            i <= n,
            out@ == old(out)@ + bytes@.take(i as int),
        decreases n - i,
    {
        out.push(bytes[i]);
        assert(bytes@.take(i + 1) == bytes@.take(i as int).push(bytes@[i as int]));
        i = i + 1;
    }
    assert(bytes@.take(n as int) == bytes@);
}

/// Starts a new line in `out` and writes one key and its value on it.
fn push_setting(out: &mut Vec<u8>, key: &[u8], value: &[u8])
    ensures
        final(out)@ == old(out)@.push(NEWLINE) + setting_line(key@, value@),
{
    out.push(NEWLINE);
    push_all(out, key);
    out.push(SPACE);
    push_all(out, value);
    proof {
        let words = seq![key@, value@];
        assert(words.drop_last() == seq![key@]);
        assert(join(words.drop_last(), SPACE) == key@);
        assert(setting_line(key@, value@) == key@.push(SPACE) + value@);
        assert(out@ == old(out)@.push(NEWLINE) + (key@.push(SPACE) + value@));
    }
}

impl Header {
    /// Writes the header as text that `parse_header` reads back as the same
    /// header.
    pub fn to_text(&self) -> (out: Vec<u8>)
        ensures
            out@ == header_text(self@),
            header_of(out@) == Ok::<HeaderModel, FormatError>(self@),
    {
        let dimensions = self.dimensions();
        let spacing = self.spacing();
        proof {
            lemma_header_round_trip(self@);
        }
        let ghost all = header_lines(self@);
        let ghost words = numerals(dimensions@);
        let mut out: Vec<u8> = Vec::new();
        let mut i: usize = 0;
        assert(words.take(0) == Seq::<Seq<u8>>::empty());
        while i < dimensions.len()
            invariant
                i <= dimensions.len(),
                words == numerals(dimensions@),
                out@ == join(words.take(i as int), SPACE),
            decreases dimensions.len() - i,
        {
            if i > 0 {
                out.push(SPACE);
            }
            push_decimal(&mut out, dimensions[i]);
            proof {
                let sofar = words.take(i + 1);
                assert(sofar.drop_last() == words.take(i as int));
                assert(sofar.last() == decimal_digits(dimensions@[i as int] as nat));
                if i == 0 {
                    assert(out@ == sofar[0]);
                }
            }
            i = i + 1;
        }
        proof {
            assert(words.take(dimensions.len() as int) == words);
            assert(all.take(1) == seq![all[0]]);
            assert(out@ == join(all.take(1), NEWLINE));
        }
        push_setting(&mut out, bytes_key_type().as_slice(), bytes_point3df().as_slice());
        proof {
            assert(all.take(2).drop_last() == all.take(1));
            assert(all.take(2).last() == setting_line(key_type(), word_point3df()));
            assert(out@ == join(all.take(2), NEWLINE));
        }
        push_setting(&mut out, bytes_key_byte_order().as_slice(), bytes_dcba().as_slice());
        proof {
            assert(all.take(3).drop_last() == all.take(2));
            assert(all.take(3).last() == setting_line(key_byte_order(), word_dcba()));
            assert(out@ == join(all.take(3), NEWLINE));
        }
        push_setting(&mut out, bytes_key_storage().as_slice(), bytes_binar().as_slice());
        proof {
            assert(all.take(4).drop_last() == all.take(3));
            assert(all.take(4).last() == setting_line(key_storage(), word_binar()));
            assert(out@ == join(all.take(4), NEWLINE));
        }
        let count: usize = if spacing.len() < 8 {
            spacing.len()
        } else {
            8
        };
        let mut a: usize = 0;
        while a < count
            invariant
                a <= count,
                count == keyed_axes(self@.spacing),
                count <= spacing@.len(),
                texts(spacing@) == self@.spacing,
                all == header_lines(self@),
                out@ == join(all.take(4 + a), NEWLINE),
            decreases count - a,
        {
            let key = bytes_spacing_key(a);
            proof {
                assert(all.take(4 + a + 1).drop_last() == all.take(4 + a));
                assert(all[4 + a] == setting_line(spacing_key(a as int), self@.spacing[a as int]));
            }
            push_setting(&mut out, key.as_slice(), spacing[a].as_slice());
            a = a + 1;
        }
        out.push(NEWLINE);
        proof {
            assert(all.len() == 5 + count);
            assert(all.drop_last() == all.take(4 + count));
            assert(all.last() == Seq::<u8>::empty());
            assert(out@ == join(all.drop_last(), NEWLINE).push(NEWLINE) + all.last());
        }
        out
    }
}

} // verus!
