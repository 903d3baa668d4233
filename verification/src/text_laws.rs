//! What numbers, lines, paths, words and headers mean.

use crate::basics::{words_bytes, ByteOrder};
use crate::header::{header_of, msg_length, MessageHeader};
use crate::listener::{socket_path_of, SocketPathError};
use crate::postparse::{limit_line, LimitError};
use crate::text::{
    digits_value, field_len, fields, i32_text, is_digit, is_number, is_white_space, lemma_field_len,
    u32_text, u64_text, utf8_text, without_plus,
};
use vstd::prelude::*;
use vstd::utf8::{
    decode_utf8_encode_utf8, encode_utf8, encode_utf8_decode_utf8, encode_utf8_valid_utf8,
    valid_utf8,
};

verus! {

/// The value of a decimal digit.
pub open spec fn worth(c: char) -> int {
    c as int - 48
}

proof fn lemma_push_digit(s: Seq<char>, c: char)
    requires
        0 <= worth(c) <= 9,
    ensures
        is_number(s) ==> is_number(s.push(c)),
        is_number(seq![c]),
        digits_value(s.push(c)) == 10 * digits_value(s) + worth(c),
        digits_value(seq![c]) == worth(c),
        s.len() > 0 ==> without_plus(s.push(c)) == without_plus(s).push(c),
{
    reveal_with_fuel(digits_value, 2);
    assert(s.push(c).drop_last() =~= s);
    assert(seq![c].drop_last() =~= Seq::<char>::empty());
    if s.len() > 0 {
        assert(without_plus(s.push(c)) =~= without_plus(s).push(c));
    }
}

/// A number is read digit by digit: one digit stands for its value, and a further digit makes the
/// number ten times as large and adds its value. There is no number where it would be too large.
pub proof fn law_numbers_are_decimal(s: Seq<char>, c: char)
    requires
        0 <= worth(c) <= 9,
    ensures
        u32_text(seq![c]) == Some(worth(c) as u32),
        u64_text(seq![c]) == Some(worth(c) as u64),
        i32_text(seq![c]) == Some(worth(c) as i32),
        u32_text(s) matches Some(n) ==> u32_text(s.push(c)) == (if 10 * n + worth(c)
            <= 0xffff_ffff {
            Some((10 * n + worth(c)) as u32)
        } else {
            None
        }),
        u64_text(s) matches Some(n) ==> u64_text(s.push(c)) == (if 10 * n + worth(c)
            <= 0xffff_ffff_ffff_ffff {
            Some((10 * n + worth(c)) as u64)
        } else {
            None
        }),
        s.len() > 0 && s[0] != '-' ==> (i32_text(s) matches Some(n) ==> i32_text(s.push(c)) == (if 10
            * n + worth(c) <= 0x7fff_ffff {
            Some((10 * n + worth(c)) as i32)
        } else {
            None
        })),
{
    lemma_push_digit(s, c);
    lemma_push_digit(without_plus(s), c);
    assert(s.len() > 0 ==> s.push(c)[0] == s[0]);
}

/// A plus sign before a number changes nothing, and a minus sign makes it negative, where negative
/// numbers are read.
pub proof fn law_numbers_may_have_a_sign(s: Seq<char>)
    requires
        s.len() > 0,
        0 <= worth(s[0]) <= 9,
    ensures
        u32_text(seq!['+'] + s) == u32_text(s),
        u64_text(seq!['+'] + s) == u64_text(s),
        i32_text(seq!['+'] + s) == i32_text(s),
        u32_text(seq!['-'] + s) is None,
        u64_text(seq!['-'] + s) is None,
        i32_text(s) matches Some(n) ==> i32_text(seq!['-'] + s) == Some((-n) as i32),
{
    assert((seq!['+'] + s).skip(1) =~= s);
    assert((seq!['-'] + s).skip(1) =~= s);
    assert((seq!['-'] + s)[0] == '-');
}

/// Nothing but decimal digits, after a sign, is a number, and there has to be one.
pub proof fn law_nothing_else_is_a_number(s: Seq<char>, i: int)
    requires
        0 <= i < s.len(),
        !(0 <= worth(s[i]) <= 9),
        i == 0 ==> s[0] != '+' && s[0] != '-',
    ensures
        u32_text(s) is None,
        u64_text(s) is None,
        i32_text(s) is None,
        u32_text(Seq::empty()) is None,
        u64_text(Seq::empty()) is None,
        i32_text(Seq::empty()) is None,
        u32_text(seq!['+']) is None,
        u64_text(seq!['+']) is None,
        i32_text(seq!['+']) is None,
        i32_text(seq!['-']) is None,
{
    if i > 0 {
        assert(s.skip(1)[i - 1] == s[i]);
    }
    assert(!is_digit(s[i]));
}

/// Whether a text is white space only.
pub open spec fn is_blank(s: Seq<char>) -> bool {
    forall|i: int| 0 <= i < s.len() ==> is_white_space(#[trigger] s[i])
}

/// Whether a text is a word: there is something to it, and no white space in it.
pub open spec fn is_word(s: Seq<char>) -> bool {
    s.len() > 0 && forall|i: int| 0 <= i < s.len() ==> !is_white_space(#[trigger] s[i])
}

proof fn lemma_blank_first(blank: Seq<char>, rest: Seq<char>)
    requires
        is_blank(blank),
    ensures
        fields(blank + rest) == fields(rest),
    decreases blank.len(),
{
    if blank.len() == 0 {
        assert(blank + rest =~= rest);
    } else {
        let s = blank + rest;
        assert(is_white_space(blank[0]));
        assert(s[0] == blank[0]);
        assert(s.skip(1) =~= blank.skip(1) + rest);
        assert forall|i: int| 0 <= i < blank.skip(1).len() implies is_white_space(
            #[trigger] blank.skip(1)[i],
        ) by {
            assert(is_white_space(blank[i + 1]));
        }
        lemma_blank_first(blank.skip(1), rest);
    }
}

proof fn lemma_word_first(word: Seq<char>, rest: Seq<char>)
    requires
        is_word(word),
        rest.len() > 0 ==> is_white_space(rest[0]),
    ensures
        fields(word + rest) == seq![word] + fields(rest),
{
    let s = word + rest;
    let t = s.skip(1);
    assert(!is_white_space(word[0]));
    assert(s[0] == word[0]);
    lemma_field_len(t);
    let n = 1 + field_len(t);
    assert(n == word.len()) by {
        if n < word.len() {
            assert(t[field_len(t) as int] == word[n as int]);
            assert(!is_white_space(word[n as int]));
        }
        if n > word.len() {
            assert(t[word.len() - 1] == rest[0]);
        }
    }
    assert(s.take(n as int) =~= word);
    assert(s.skip(n as int) =~= rest);
}

/// The fields of a line are its words, in order, whatever white space stands between them and
/// around them.
pub proof fn law_fields_are_words(blank: Seq<char>, word: Seq<char>, gap: Seq<char>, rest: Seq<char>)
    requires
        is_blank(blank),
        is_word(word),
        is_blank(gap),
        gap.len() > 0 || rest.len() == 0,
    ensures
        fields(blank) == Seq::<Seq<char>>::empty(),
        fields(blank + word + gap + rest) == seq![word] + fields(rest),
{
    lemma_blank_first(blank, Seq::empty());
    assert(blank + Seq::<char>::empty() =~= blank);
    assert(blank + word + gap + rest =~= blank + (word + (gap + rest)));
    lemma_blank_first(blank, word + (gap + rest));
    if gap.len() > 0 {
        assert(is_white_space(gap[0]));
    }
    lemma_word_first(word, gap + rest);
    lemma_blank_first(gap, rest);
}

/// A line of the version limits that gives a name and a number says that the name is limited to that
/// version, or not limited where the number is zero. If the second word is no number, the line is
/// refused.
pub proof fn law_limit_lines_are_read(
    before: Seq<char>,
    name: Seq<char>,
    between: Seq<char>,
    number: Seq<char>,
    after: Seq<char>,
)
    requires
        is_blank(before),
        is_blank(between) && between.len() > 0,
        is_blank(after),
        is_word(name),
        name[0] != '#',
        is_word(number),
    ensures
        limit_line(before + name + between + number + after) == (match u32_text(number) {
            Some(0) => Ok(Some((name, 0xffff_ffff))),
            Some(n) => Ok(Some((name, n))),
            None => Err(LimitError::BadVersion),
        }),
{
    let line = before + name + between + number + after;
    let nothing = Seq::<char>::empty();
    assert(nothing + number + after + nothing =~= number + after);
    assert(line =~= before + name + between + (number + after));
    law_fields_are_words(before, name, between, number + after);
    law_fields_are_words(nothing, number, after, nothing);
    assert(fields(number + after) =~= seq![number]);
    assert(fields(line) =~= seq![name, number]);
}

/// A blank line says nothing, and neither does one that starts with a number sign.
pub proof fn law_comments_say_nothing(before: Seq<char>, comment: Seq<char>)
    requires
        is_blank(before),
    ensures
        limit_line(before) == Ok::<Option<(Seq<char>, u32)>, LimitError>(None),
        limit_line(before + seq!['#'] + comment) == Ok::<Option<(Seq<char>, u32)>, LimitError>(None),
{
    let nothing = Seq::<char>::empty();
    lemma_blank_first(before, nothing);
    assert(before + nothing =~= before);
    let s = seq!['#'] + comment;
    assert(before + seq!['#'] + comment =~= before + s);
    lemma_blank_first(before, s);
    lemma_field_len(s.skip(1));
    assert(s[0] == '#');
    assert(s.take(1 + field_len(s.skip(1)) as int)[0] == '#');
}

/// A line that gives a name and no number is refused, and so is one that gives more than two words.
pub proof fn law_limit_lines_have_two_words(
    before: Seq<char>,
    first: Seq<char>,
    gap: Seq<char>,
    second: Seq<char>,
    gap2: Seq<char>,
    third: Seq<char>,
    rest: Seq<char>,
)
    requires
        is_blank(before),
        is_word(first) && first[0] != '#',
        is_blank(gap) && gap.len() > 0,
        is_word(second),
        is_blank(gap2) && gap2.len() > 0,
        is_word(third),
        rest.len() > 0 ==> is_white_space(rest[0]),
    ensures
        limit_line(before + first + gap) == Err::<Option<(Seq<char>, u32)>, LimitError>(
            LimitError::MissingVersion,
        ),
        limit_line(before + first + gap + second + gap2 + third + rest) == Err::<
            Option<(Seq<char>, u32)>,
            LimitError,
        >(LimitError::ExtraFields),
{
    let nothing = Seq::<char>::empty();
    assert(before + first + gap + nothing =~= before + first + gap);
    law_fields_are_words(before, first, gap, nothing);
    let tail = third + rest;
    let middle = second + gap2 + tail;
    assert(before + first + gap + second + gap2 + third + rest =~= before + first + gap + middle);
    law_fields_are_words(before, first, gap, middle);
    assert(nothing + second + gap2 + tail =~= middle);
    law_fields_are_words(nothing, second, gap2, tail);
    lemma_word_first(third, rest);
}

/// A socket is where its name says if that starts with a slash. If not, it is in the runtime
/// directory, after one slash. That directory has to be given, and has to start with a slash.
pub proof fn law_where_sockets_are(name: Seq<char>, dir: Seq<char>)
    ensures
        name.len() > 0 && name[0] == '/' ==> {
            &&& socket_path_of(name, Some(dir)) == Ok::<Seq<char>, SocketPathError>(name)
            &&& socket_path_of(name, None) == Ok::<Seq<char>, SocketPathError>(name)
        },
        !(name.len() > 0 && name[0] == '/') ==> {
            &&& socket_path_of(name, None) == Err::<Seq<char>, SocketPathError>(
                SocketPathError::NoRuntimeDir,
            )
            &&& !(dir.len() > 0 && dir[0] == '/') ==> socket_path_of(name, Some(dir)) == Err::<
                Seq<char>,
                SocketPathError,
            >(SocketPathError::RelativeRuntimeDir)
            &&& dir.len() > 0 && dir[0] == '/' && dir.last() != '/' ==> socket_path_of(
                name,
                Some(dir),
            ) == Ok::<Seq<char>, SocketPathError>(dir + seq!['/'] + name)
            &&& dir.len() > 0 && dir[0] == '/' && dir.last() == '/' ==> socket_path_of(
                name,
                Some(dir),
            ) == Ok::<Seq<char>, SocketPathError>(dir + name)
        },
{
    reveal_strlit("/");
    assert("/"@ =~= seq!['/']);
}

/// In the little order the bytes of a word count by growing powers, and in the big order by falling
/// ones.
pub proof fn law_bytes_make_up_words(words: Seq<u32>, i: int)
    requires
        0 <= i < words.len(),
    ensures
        ({
            let b = words_bytes(ByteOrder::Little, words);
            &&& b.len() == 4 * words.len()
            &&& words[i] == b[4 * i] + 0x100 * b[4 * i + 1] + 0x1_0000 * b[4 * i + 2] + 0x100_0000
                * b[4 * i + 3]
        }),
        ({
            let b = words_bytes(ByteOrder::Big, words);
            &&& b.len() == 4 * words.len()
            &&& words[i] == b[4 * i + 3] + 0x100 * b[4 * i + 2] + 0x1_0000 * b[4 * i + 1]
                + 0x100_0000 * b[4 * i]
        }),
{
    let w = words[i];
    assert(w == w % 256 + 256 * (w / 256 % 256) + 65536 * (w / 65536 % 256) + 16777216 * (w
        / 16777216));
}

/// The first word of a header is the object that the message is for. The upper half of the second is
/// the size of the message in bytes, and the lower half its number. A message takes up the words that
/// its size needs, and no more.
pub proof fn law_headers_are_laid_out(words: Seq<u32>, header: MessageHeader)
    requires
        words.len() >= 2,
    ensures
        header_of(words).object_id == words[0],
        header_of(words).size == words[1] >> 16,
        header_of(words).opcode == words[1] & 0xffff,
        header.words().len() == 2,
        header.words()[0] == header.object_id,
        header.words()[1] == ((header.size as u32) << 16) | header.opcode as u32,
        ({
            let n = msg_length(words)->0;
            &&& msg_length(words) is Some
            &&& 4 * n >= words[1] >> 16 && words[1] >> 16 > 4 * (n - 1)
        }),
{
    let w = words[1];
    assert(w >> 16 == w / 65536) by (bit_vector);
    assert(w & 0xffff == w % 65536) by (bit_vector);
    let high = header.size as u32;
    let low = header.opcode as u32;
    assert(high <= 0xffff && low <= 0xffff ==> ((high << 16) | low) == high * 65536 + low)
        by (bit_vector);
}

/// White space is what Unicode says: the space, the controls that move on a line or to another one,
/// the spaces of set widths, and the separators of lines and paragraphs. Nothing that can be seen is.
pub proof fn law_what_white_space_is(c: char)
    ensures
        c == ' ' || c == '\t' || c == '\n' || c == '\r' ==> is_white_space(c),
        '!' <= c <= '~' ==> !is_white_space(c),
        is_white_space(c) <==> set![
            0x09int,
            0x0a,
            0x0b,
            0x0c,
            0x0d,
            0x20,
            0x85,
            0xa0,
            0x1680,
            0x2000,
            0x2001,
            0x2002,
            0x2003,
            0x2004,
            0x2005,
            0x2006,
            0x2007,
            0x2008,
            0x2009,
            0x200a,
            0x2028,
            0x2029,
            0x202f,
            0x205f,
            0x3000,
        ].contains(c as int),
{
}

/// Bytes are read as the text that they encode, and as none where they encode none.
pub proof fn law_texts_are_encoded(text: Seq<char>, bytes: Seq<u8>)
    ensures
        utf8_text(encode_utf8(text)) == Some(text),
        utf8_text(bytes) matches Some(t) ==> encode_utf8(t) == bytes,
        utf8_text(bytes) is None ==> encode_utf8(text) != bytes,
{
    encode_utf8_valid_utf8(text);
    encode_utf8_decode_utf8(text);
    if valid_utf8(bytes) {
        decode_utf8_encode_utf8(bytes);
    }
}

} // verus!
