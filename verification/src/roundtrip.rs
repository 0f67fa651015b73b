use crate::body::{
    after_body, body_bytes, lemma_body_of_declared_length, lemma_body_without_length,
};
use crate::command::{lemma_command_of_spelling, lemma_spelling_is_capitals, Command};
use crate::error::Fault;
use crate::escape::{decoded, encoded, lemma_decoded_encoded, lemma_encoded_has_no_specials};
use crate::fields::{added, holds, lemma_rank_is, sorted, Fields};
use crate::frame::{command_from, frame_bytes};
use crate::header::{
    field_line, field_of_line, fields_from, header_bytes, joined, MAX_HEADER_SIZE,
};
use crate::io::{EOL, NULL};
use crate::line::line_length;
use crate::order::name_before;
use crate::reader::{content_length_of, head_from, Head};
use crate::scan::lemma_offset_of_is;
use crate::text::{
    ascii_lower, is_line_end, is_whitespace, lowered, trimmed, trimmed_end, trimmed_start,
    without_line_end,
};
use crate::utf8::{lemma_encode_utf8_ascii, lemma_encode_utf8_concat, lemma_encode_utf8_lacks};
use vstd::prelude::*;
use vstd::utf8::{
    encode_utf8, encode_utf8_decode_utf8, encode_utf8_valid_utf8, is_ascii_chars,
    is_ascii_chars_encode_utf8,
};

verus! {

/// Whether a field that is written can be read: its name is not empty, is
/// made of ASCII characters and has no white space around it, and its
/// values, joined by commas, have no white space before them and no
/// carriage return or line feed behind them.
pub open spec fn readable(name: Seq<char>, values: Seq<Seq<char>>) -> bool {
    &&& name.len() > 0
    &&& is_ascii_chars(name)
    &&& trimmed(name) == name
    &&& trimmed_start(joined(values)) == joined(values)
    &&& without_line_end(joined(values)) == joined(values)
}

/// Whether every field can be read.
pub open spec fn all_readable(fields: Fields) -> bool {
    forall|i: int| 0 <= i < fields.len() ==> readable(#[trigger] fields[i].0, fields[i].1)
}

/// The fields that come of reading what was written for `fields`, after
/// the fields `so_far`: each name comes back in lowercase, with the values
/// that were written under it as one value, joined by commas.
pub open spec fn read_back(fields: Fields, so_far: Fields) -> Fields
    decreases fields.len(),
{
    if fields.len() == 0 {
        so_far
    } else {
        read_back(
            fields.drop_first(),
            added(so_far, lowered(fields[0].0), joined(fields[0].1)),
        )
    }
}

/// The line that is written for a readable field is a line of its own,
/// whatever follows it, and says the name in lowercase and the joined
/// values.
pub proof fn lemma_field_line_read_back(name: Seq<char>, values: Seq<Seq<char>>, behind: Seq<u8>)
    requires
        readable(name, values),
    ensures
        line_length(encode_utf8(field_line(name, values)) + behind) == encode_utf8(
            field_line(name, values),
        ).len(),
        encode_utf8(field_line(name, values)).len() > 0,
        field_of_line(encode_utf8(field_line(name, values))) == Ok::<_, Fault>(
            Some((lowered(name), joined(values))),
        ),
        lowered(name).len() > 0,
{
    let value = joined(values);
    let e_name = encoded(name);
    let e_value = encoded(value);
    let text = e_name + seq![':', ' '] + e_value;
    let whole = field_line(name, values);
    let line = encode_utf8(whole);
    assert(whole == text + seq!['\n']);
    lemma_encoded_has_no_specials(name);
    lemma_encoded_has_no_specials(value);
    assert forall|i: int| 0 <= i < text.len() implies text[i] != '\n' && (i < e_name.len()
        ==> text[i] != ':') by {
        if i < e_name.len() {
            assert(text[i] == e_name[i]);
        } else if i >= e_name.len() + 2 {
            assert(text[i] == e_value[i - e_name.len() - 2]);
        }
    }
    // The bytes: the text without a line feed byte, then the line feed.
    lemma_encode_utf8_concat(text, seq!['\n']);
    lemma_encode_utf8_ascii('\n');
    lemma_encode_utf8_lacks(text, '\n');
    let head = encode_utf8(text);
    assert(line == head + seq![EOL]);
    assert forall|i: int| 0 <= i < head.len() implies (line + behind)[i] != EOL by {
        assert((line + behind)[i] == head[i]);
    }
    assert((line + behind)[head.len() as int] == EOL);
    lemma_offset_of_is(line + behind, EOL, head.len());
    // The text: what the bytes decode to, without the line feed.
    encode_utf8_valid_utf8(whole);
    encode_utf8_decode_utf8(whole);
    assert(whole.drop_last() == text);
    assert(is_line_end(whole.last()));
    assert(!is_line_end(text.last())) by {
        if e_value.len() > 0 {
            assert(text.last() == e_value.last());
        } else {
            assert(text.last() == ' ');
        }
    }
    assert(without_line_end(whole) == text) by {
        assert(without_line_end(whole) == without_line_end(text));
    }
    // The name stands before the first colon.
    assert(text[e_name.len() as int] == ':');
    lemma_offset_of_is(text, ':', e_name.len());
    assert(text.take(e_name.len() as int) == e_name);
    lemma_decoded_encoded(name);
    // The value stands behind the colon and the space.
    let after = text.skip(e_name.len() as int + 1);
    assert(after == seq![' '] + e_value);
    assert(after.drop_first() == e_value);
    lemma_decoded_encoded(value);
    assert(decoded(after) == seq![' '] + value);
    assert(is_whitespace(' '));
    assert((seq![' '] + value).drop_first() == value);
    assert(trimmed_start(seq![' '] + value) == trimmed_start(value));
}

/// What was written for readable fields, with an empty line behind it, is
/// read as a header block that gives the fields back as `read_back` says,
/// and leaves what follows the empty line.
pub proof fn lemma_fields_read_back(fields: Fields, rest: Seq<u8>, budget: nat, so_far: Fields)
    requires
        all_readable(fields),
        header_bytes(fields).len() + 1 <= budget,
    ensures
        fields_from(header_bytes(fields) + seq![EOL] + rest, budget, so_far) == Ok::<_, Fault>(
            (read_back(fields, so_far), rest),
        ),
    decreases fields.len(),
{
    let upstream = header_bytes(fields) + seq![EOL] + rest;
    if fields.len() == 0 {
        assert(upstream == seq![EOL] + rest);
        lemma_offset_of_is(upstream, EOL, 0);
        assert(upstream.take(1) == seq![EOL]);
        assert(upstream.skip(1) == rest);
        lemma_encode_utf8_ascii('\n');
        encode_utf8_valid_utf8(seq!['\n']);
        encode_utf8_decode_utf8(seq!['\n']);
        assert(seq!['\n'].drop_last() == Seq::<char>::empty());
        assert(without_line_end(seq!['\n']) == Seq::<char>::empty()) by {
            assert(is_line_end(seq!['\n'].last()));
            assert(without_line_end(seq!['\n']) == without_line_end(seq!['\n'].drop_last()));
        }
    } else {
        let name = fields[0].0;
        let values = fields[0].1;
        let line = encode_utf8(field_line(name, values));
        let tail = fields.drop_first();
        let behind = header_bytes(tail) + seq![EOL] + rest;
        assert(readable(name, values));
        assert(upstream == line + behind);
        lemma_field_line_read_back(name, values, behind);
        assert(upstream.take(line.len() as int) == line);
        assert(upstream.skip(line.len() as int) == behind);
        assert(all_readable(tail)) by {
            assert forall|i: int| 0 <= i < tail.len() implies readable(
                #[trigger] tail[i].0,
                tail[i].1,
            ) by {
                assert(tail[i] == fields[i + 1]);
            }
        }
        lemma_fields_read_back(
            tail,
            rest,
            (budget - line.len()) as nat,
            added(so_far, lowered(name), joined(values)),
        );
    }
}

/// What was written for readable fields, with nothing behind it, is read
/// as a header block that ends with the source and gives the fields back
/// as `read_back` says.
pub proof fn lemma_fields_read_back_to_end(fields: Fields, budget: nat, so_far: Fields)
    requires
        all_readable(fields),
        header_bytes(fields).len() <= budget,
    ensures
        fields_from(header_bytes(fields), budget, so_far) == Ok::<_, Fault>(
            (read_back(fields, so_far), Seq::<u8>::empty()),
        ),
    decreases fields.len(),
{
    let upstream = header_bytes(fields);
    if fields.len() > 0 {
        let name = fields[0].0;
        let values = fields[0].1;
        let line = encode_utf8(field_line(name, values));
        let tail = fields.drop_first();
        let behind = header_bytes(tail);
        assert(readable(name, values));
        lemma_field_line_read_back(name, values, behind);
        assert(upstream.take(line.len() as int) == line);
        assert(upstream.skip(line.len() as int) == behind);
        assert(all_readable(tail)) by {
            assert forall|i: int| 0 <= i < tail.len() implies readable(
                #[trigger] tail[i].0,
                tail[i].1,
            ) by {
                assert(tail[i] == fields[i + 1]);
            }
        }
        lemma_fields_read_back_to_end(
            tail,
            (budget - line.len()) as nat,
            added(so_far, lowered(name), joined(values)),
        );
    }
}

/// Whether a name is in lowercase: it holds no ASCII capital letter.
pub open spec fn is_lowercase(name: Seq<char>) -> bool {
    forall|i: int| 0 <= i < name.len() ==> !('A' <= #[trigger] name[i] <= 'Z')
}

/// Reading back sorted fields whose names are in lowercase ASCII and have
/// one value each, after nothing, gives the fields themselves.
pub proof fn lemma_read_back_same(fields: Fields)
    requires
        sorted(fields),
        forall|i: int|
            0 <= i < fields.len() ==> is_ascii_chars(#[trigger] fields[i].0) && is_lowercase(
                fields[i].0,
            ) && fields[i].1.len() == 1,
    ensures
        read_back(fields, Fields::empty()) == fields,
{
    assert(fields.skip(0) == fields);
    assert(fields.take(0) == Fields::empty());
    lemma_read_back_rest(fields, 0);
}

/// Reading back the fields from the `k`th on, after those before it, gives
/// all the fields.
proof fn lemma_read_back_rest(fields: Fields, k: nat)
    requires
        k <= fields.len(),
        sorted(fields),
        forall|i: int|
            0 <= i < fields.len() ==> is_ascii_chars(#[trigger] fields[i].0) && is_lowercase(
                fields[i].0,
            ) && fields[i].1.len() == 1,
    ensures
        read_back(fields.skip(k as int), fields.take(k as int)) == fields,
    decreases fields.len() - k,
{
    let todo = fields.skip(k as int);
    let done = fields.take(k as int);
    if k == fields.len() {
        assert(done == fields);
    } else {
        let name = fields[k as int].0;
        let values = fields[k as int].1;
        assert(todo[0] == fields[k as int]);
        assert(lowered(name) == name) by {
            assert(is_lowercase(name));
            assert forall|i: int| 0 <= i < name.len() implies ascii_lower(name[i])
                == name[i] by {}
            assert(lowered(name) =~= name);
        }
        assert(joined(values) == values[0]);
        assert forall|i: int| 0 <= i < k implies name_before(
            #[trigger] done[i].0,
            name,
        ) by {
            assert(done[i] == fields[i]);
        }
        lemma_rank_is(done, name, k);
        assert(!holds(done, name));
        assert(values == seq![values[0]]);
        assert(added(done, name, values[0]) == fields.take(k as int + 1)) by {
            assert(done.insert(k as int, (name, seq![values[0]])) =~= fields.take(k as int + 1));
        }
        assert(todo.drop_first() == fields.skip(k as int + 1));
        lemma_read_back_rest(fields, k + 1);
    }
}

/// What is written for a command line, whatever follows it, is read as the
/// command, and what follows is left.
pub proof fn lemma_command_read_back(command: Command, behind: Seq<u8>)
    ensures
        command_from(encode_utf8(command.spelling()) + seq![EOL] + behind) == Ok::<_, Fault>(
            (command, behind),
        ),
{
    let word = command.spelling();
    let whole = word + seq!['\n'];
    let head = encode_utf8(word);
    let upstream = head + seq![EOL] + behind;
    lemma_spelling_is_capitals(command);
    lemma_command_of_spelling(command);
    assert forall|i: int| 0 <= i < word.len() implies word[i] != '\n' by {
        assert('A' <= word[i] <= 'Z');
    }
    assert(is_ascii_chars(word)) by {
        assert forall|i: int| 0 <= i < word.len() implies '\0' <= #[trigger] word[i]
            <= '\u{7f}' by {
            assert('A' <= word[i] <= 'Z');
        }
    }
    is_ascii_chars_encode_utf8(word);
    lemma_encode_utf8_concat(word, seq!['\n']);
    lemma_encode_utf8_ascii('\n');
    lemma_encode_utf8_lacks(word, '\n');
    let line = encode_utf8(whole);
    assert(line == head + seq![EOL]);
    assert forall|i: int| 0 <= i < head.len() implies upstream[i] != EOL by {
        assert(upstream[i] == head[i]);
    }
    assert(upstream[head.len() as int] == EOL);
    lemma_offset_of_is(upstream, EOL, head.len());
    assert(upstream.take(head.len() as int + 1) == line);
    assert(upstream.skip(head.len() as int + 1) == behind);
    encode_utf8_valid_utf8(whole);
    encode_utf8_decode_utf8(whole);
    assert(trimmed_start(whole) == whole) by {
        assert(whole[0] == word[0]);
        assert('A' <= word[0] <= 'Z');
    }
    assert(trimmed_end(whole) == word) by {
        assert(is_whitespace(whole.last()));
        assert(whole.drop_last() == word);
        assert('A' <= word.last() <= 'Z');
        assert(trimmed_end(whole) == trimmed_end(word));
    }
}

/// Whether a body can be told from what follows it, given the length that
/// is declared for it: it has the declared length, or, with no length
/// declared, holds no null byte.
pub open spec fn body_fits(body: Seq<u8>, length: Option<u64>) -> bool {
    match length {
        Some(n) => n == body.len(),
        None => forall|i: int| 0 <= i < body.len() ==> body[i] != NULL,
    }
}

/// The length that the fields declare for the body once they are read
/// back, if it is a number.
pub open spec fn declared_length(fields: Fields) -> Option<u64> {
    match content_length_of(read_back(fields, Fields::empty())) {
        Ok(length) => length,
        Err(_) => None,
    }
}

/// Whether a frame that is written can be read back: its fields are
/// readable and fit the limit of a header block, the length that they
/// declare is a number, and the body fits it.
pub open spec fn frame_readable(fields: Fields, body: Seq<u8>) -> bool {
    &&& all_readable(fields)
    &&& header_bytes(fields).len() + 1 <= MAX_HEADER_SIZE
    &&& content_length_of(read_back(fields, Fields::empty())) is Ok
    &&& body_fits(body, declared_length(fields))
}

/// What is written for a readable frame, whatever follows it, is read back
/// as the same command, the fields as `read_back` says, and the same body;
/// and what follows the frame is left behind its body.
pub proof fn lemma_frame_read_back(command: Command, fields: Fields, body: Seq<u8>, rest: Seq<u8>)
    requires
        frame_readable(fields, body),
    ensures
        head_from(frame_bytes(command, fields, body) + rest) == Ok::<_, Fault>(
            (Head {
                command,
                fields: read_back(fields, Fields::empty()),
                length: declared_length(fields),
                rest: body + seq![NULL] + rest,
            }),
        ),
        body_bytes(body + seq![NULL] + rest, declared_length(fields)) == body,
        after_body(body + seq![NULL] + rest, declared_length(fields)) == rest,
{
    let behind_header = body + seq![NULL] + rest;
    let behind_command = header_bytes(fields) + seq![EOL] + behind_header;
    assert(frame_bytes(command, fields, body) + rest == encode_utf8(command.spelling())
        + seq![EOL] + behind_command);
    lemma_command_read_back(command, behind_command);
    lemma_fields_read_back(fields, behind_header, MAX_HEADER_SIZE as nat, Fields::empty());
    match declared_length(fields) {
        Some(n) => {
            lemma_body_of_declared_length(body, rest);
        },
        None => {
            lemma_body_without_length(body, rest);
        },
    }
}

/// A frame as plain values: its command, its fields and the bytes of its
/// body.
pub type Plain = (Command, Fields, Seq<u8>);

/// The bytes of frames written one after the other.
pub open spec fn frames_bytes(frames: Seq<Plain>) -> Seq<u8>
    decreases frames.len(),
{
    if frames.len() == 0 {
        Seq::empty()
    } else {
        frame_bytes(frames[0].0, frames[0].1, frames[0].2) + frames_bytes(frames.drop_first())
    }
}

/// What reading `count` frames from `upstream` gives, each read to the end
/// of its body and closed before the next: the frames, and what is left of
/// `upstream` behind the last.
pub open spec fn frames_from(upstream: Seq<u8>, count: nat) -> Result<(Seq<Plain>, Seq<u8>), Fault>
    decreases count,
{
    if count == 0 {
        Ok((Seq::empty(), upstream))
    } else {
        match head_from(upstream) {
            Err(fault) => Err(fault),
            Ok(head) => match frames_from(
                after_body(head.rest, head.length),
                (count - 1) as nat,
            ) {
                Err(fault) => Err(fault),
                Ok((frames, rest)) => Ok(
                    (
                        seq![(head.command, head.fields, body_bytes(head.rest, head.length))]
                            + frames,
                        rest,
                    ),
                ),
            },
        }
    }
}

/// The frames as they come back: each with its fields read back.
pub open spec fn frames_read_back(frames: Seq<Plain>) -> Seq<Plain> {
    Seq::new(
        frames.len(),
        |i: int| (frames[i].0, read_back(frames[i].1, Fields::empty()), frames[i].2),
    )
}

/// Readable frames that are written one after the other are read back one
/// after the other: as many frames, in the same order, each with the same
/// command and body and with its fields read back; and what followed the
/// last frame is left.
pub proof fn lemma_frames_read_back(frames: Seq<Plain>, rest: Seq<u8>)
    requires
        forall|i: int| 0 <= i < frames.len() ==> frame_readable(#[trigger] frames[i].1, frames[i].2),
    ensures
        frames_from(frames_bytes(frames) + rest, frames.len()) == Ok::<_, Fault>(
            (frames_read_back(frames), rest),
        ),
    decreases frames.len(),
{
    if frames.len() == 0 {
        assert(frames_bytes(frames) + rest == rest);
        assert(frames_read_back(frames) == Seq::<Plain>::empty());
    } else {
        let first = frames[0];
        let others = frames.drop_first();
        let behind = frames_bytes(others) + rest;
        assert(frame_readable(first.1, first.2));
        assert(frames_bytes(frames) + rest == frame_bytes(first.0, first.1, first.2) + behind);
        lemma_frame_read_back(first.0, first.1, first.2, behind);
        assert forall|i: int| 0 <= i < others.len() implies frame_readable(
            #[trigger] others[i].1,
            others[i].2,
        ) by {
            assert(others[i] == frames[i + 1]);
        }
        lemma_frames_read_back(others, rest);
        assert(seq![(first.0, read_back(first.1, Fields::empty()), first.2)] + frames_read_back(
            others,
        ) == frames_read_back(frames)) by {
            let left = seq![(first.0, read_back(first.1, Fields::empty()), first.2)]
                + frames_read_back(others);
            assert forall|i: int| 0 <= i < frames.len() implies left[i] == frames_read_back(
                frames,
            )[i] by {
                if i > 0 {
                    assert(others[i - 1] == frames[i]);
                }
            }
            assert(left =~= frames_read_back(frames));
        }
    }
}

} // verus!
