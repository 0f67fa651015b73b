use crate::error::{Fault, ReadError};
use crate::escape::{decode_chars, decoded, encode, encoded};
use crate::fields::{
    added, holds, lemma_added_sorted, lemma_rank_is, lemma_removed_sorted, lemma_replaced_sorted,
    rank, removed, replaced, sorted, texts, values_of, well_formed, Fields,
};
use crate::io::EOL;
use crate::line::{line_length, line_too_long_text, read_line};
use crate::order::{lemma_name_before_total, name_before, relate, Relation};
use crate::scan::{lemma_offset_of_is, offset_of};
use crate::source::ByteSource;
use crate::text::{
    chars_of, drop_line_end, drop_whitespace, find_char, lowered, push_char, skip_whitespace,
    string_of, to_lowercase, trimmed, trimmed_start, without_line_end,
};
use crate::utf8::{lemma_encode_utf8_ascii, lemma_encode_utf8_concat, lemma_utf8_with_ascii_tail};
use vstd::prelude::*;
use vstd::string::StringExecFns;
use vstd::utf8::{decode_utf8, encode_utf8, encode_utf8_decode_utf8, valid_utf8};

verus! {

/// The largest number of bytes that the lines of a header block may have
/// together.
pub const MAX_HEADER_SIZE: u64 = 1024000;

/// The values of a field as they are written: joined by commas.
pub open spec fn joined(values: Seq<Seq<char>>) -> Seq<char>
    decreases values.len(),
{
    if values.len() == 0 {
        Seq::empty()
    } else if values.len() == 1 {
        values[0]
    } else {
        joined(values.drop_last()) + seq![','] + values.last()
    }
}

/// The line that is written for a field: the escaped name, a colon and a
/// space, the escaped values joined by commas, and a line feed.
pub open spec fn field_line(name: Seq<char>, values: Seq<Seq<char>>) -> Seq<char> {
    encoded(name) + seq![':', ' '] + encoded(joined(values)) + seq!['\n']
}

/// The bytes that are written for the fields: the lines of the fields, in
/// the order of the fields, each in UTF-8.
pub open spec fn header_bytes(fields: Fields) -> Seq<u8>
    decreases fields.len(),
{
    if fields.len() == 0 {
        Seq::empty()
    } else {
        encode_utf8(field_line(fields[0].0, fields[0].1)) + header_bytes(fields.drop_first())
    }
}

/// What is written for fields in two parts is what is written for the
/// first part, followed by what is written for the second.
pub proof fn lemma_header_bytes_concat(first: Fields, second: Fields)
    ensures
        header_bytes(first + second) == header_bytes(first) + header_bytes(second),
    decreases first.len(),
{
    if first.len() == 0 {
        assert(first + second == second);
    } else {
        assert((first + second).drop_first() == first.drop_first() + second);
        lemma_header_bytes_concat(first.drop_first(), second);
    }
}

/// In what is written for the fields of a header table, the line of a
/// field stands before the line of every field that follows it, and names
/// the name that is sorted first: the lines ascend strictly by name.
pub proof fn lemma_lines_ascend(fields: Fields, i: int, j: int)
    requires
        sorted(fields),
        0 <= i < j < fields.len(),
    ensures
        name_before(fields[i].0, fields[j].0),
        header_bytes(fields) == header_bytes(fields.take(i)) + encode_utf8(
            field_line(fields[i].0, fields[i].1),
        ) + header_bytes(fields.subrange(i + 1, j)) + encode_utf8(
            field_line(fields[j].0, fields[j].1),
        ) + header_bytes(fields.skip(j + 1)),
{
    let a = fields.take(i);
    let b = seq![fields[i]];
    let c = fields.subrange(i + 1, j);
    let d = seq![fields[j]];
    let e = fields.skip(j + 1);
    assert(fields == a + b + c + d + e);
    lemma_header_bytes_concat(a + b + c + d, e);
    lemma_header_bytes_concat(a + b + c, d);
    lemma_header_bytes_concat(a + b, c);
    lemma_header_bytes_concat(a, b);
    assert(header_bytes(b) == encode_utf8(field_line(fields[i].0, fields[i].1))) by {
        assert(b.drop_first() == Fields::empty());
        assert(header_bytes(b) == encode_utf8(field_line(b[0].0, b[0].1)) + header_bytes(
            Fields::empty(),
        ));
    }
    assert(header_bytes(d) == encode_utf8(field_line(fields[j].0, fields[j].1))) by {
        assert(d.drop_first() == Fields::empty());
        assert(header_bytes(d) == encode_utf8(field_line(d[0].0, d[0].1)) + header_bytes(
            Fields::empty(),
        ));
    }
}

/// The text of the error for a header line without a colon.
pub open spec fn no_colon_text() -> Seq<char> {
    "invalid header field format"@
}

/// The text of the error for a header line whose name is empty.
pub open spec fn empty_name_text() -> Seq<char> {
    "empty header field name"@
}

/// What a line of a header block says. A line that is not UTF-8 is an
/// encoding error. A line that is empty once the carriage returns and line
/// feeds at its end are gone says nothing: it ends the block. Any other
/// line must hold a colon; what stands before the first colon is the name,
/// what stands after it the value. Escapes are resolved in both. The name
/// loses the white space around it and is made lowercase, and must not be
/// empty then; the value loses the white space before it and the carriage
/// returns and line feeds at its end.
pub open spec fn field_of_line(line: Seq<u8>) -> Result<Option<(Seq<char>, Seq<char>)>, Fault> {
    if !valid_utf8(line) {
        Err(Fault::Encoding)
    } else {
        let text = without_line_end(decode_utf8(line));
        let colon = offset_of(text, ':') as int;
        if text.len() == 0 {
            Ok(None)
        } else if colon == text.len() {
            Err(Fault::Format(no_colon_text()))
        } else {
            let name = lowered(trimmed(decoded(text.take(colon))));
            let value = without_line_end(trimmed_start(decoded(text.skip(colon + 1))));
            if name.len() == 0 {
                Err(Fault::Format(empty_name_text()))
            } else {
                Ok(Some((name, value)))
            }
        }
    }
}

/// A header line says the same whether it ends with a carriage return and
/// a line feed or with a line feed alone.
pub proof fn lemma_line_endings_agree(content: Seq<u8>)
    ensures
        field_of_line(content + seq![0x0Du8, EOL]) == field_of_line(content + seq![EOL]),
{
    let text = decode_utf8(content);
    lemma_encode_utf8_concat(seq!['\r'], seq!['\n']);
    lemma_encode_utf8_ascii('\r');
    lemma_encode_utf8_ascii('\n');
    assert(seq!['\r'] + seq!['\n'] == seq!['\r', '\n']);
    assert(seq![0x0Du8] + seq![EOL] == seq![0x0Du8, EOL]);
    lemma_utf8_with_ascii_tail(content, seq!['\r', '\n']);
    lemma_utf8_with_ascii_tail(content, seq!['\n']);
    if valid_utf8(content) {
        let long = text + seq!['\r', '\n'];
        let short = text + seq!['\n'];
        assert(long.drop_last() == text + seq!['\r']);
        assert((text + seq!['\r']).drop_last() == text);
        assert(short.drop_last() == text);
        assert(without_line_end(long) == without_line_end(text + seq!['\r']));
        assert(without_line_end(text + seq!['\r']) == without_line_end(text));
        assert(without_line_end(short) == without_line_end(text));
    }
}

/// What reading a header block from `upstream` gives, with `budget` bytes
/// left for its lines and the fields `so_far` read already: the fields of
/// the block and what is left of `upstream` behind it. The block ends with
/// its first empty line, which is taken off, or with `upstream`.
pub open spec fn fields_from(upstream: Seq<u8>, budget: nat, so_far: Fields) -> Result<
    (Fields, Seq<u8>),
    Fault,
>
    decreases upstream.len(),
{
    let n = line_length(upstream);
    if n > budget {
        Err(Fault::Format(line_too_long_text()))
    } else if n == 0 {
        Ok((so_far, upstream))
    } else {
        match field_of_line(upstream.take(n as int)) {
            Err(fault) => Err(fault),
            Ok(None) => Ok((so_far, upstream.skip(n as int))),
            Ok(Some((name, value))) => fields_from(
                upstream.skip(n as int),
                (budget - n) as nat,
                added(so_far, name, value),
            ),
        }
    }
}

/// What one more line does to the reading of a header block that has
/// gathered `fields` and has `budget` bytes left: it fails, or ends the
/// block, or adds a value to the fields and takes its length off the
/// budget.
pub open spec fn fields_step(fields: Fields, budget: nat, line: Seq<u8>) -> Result<
    Option<(Fields, nat)>,
    Fault,
> {
    if line.len() > budget {
        Err(Fault::Format(line_too_long_text()))
    } else {
        match field_of_line(line) {
            Err(fault) => Err(fault),
            Ok(None) => Ok(None),
            Ok(Some((name, value))) => Ok(
                Some((added(fields, name, value), (budget - line.len()) as nat)),
            ),
        }
    }
}

/// Reading a header block is reading its first line, taking the step that
/// the line asks for, and reading on behind the line.
pub proof fn lemma_fields_from_step(upstream: Seq<u8>, budget: nat, so_far: Fields)
    ensures
        fields_from(upstream, budget, so_far) == match fields_step(
            so_far,
            budget,
            upstream.take(line_length(upstream) as int),
        ) {
            Err(fault) => Err(fault),
            Ok(None) => Ok((so_far, upstream.skip(line_length(upstream) as int))),
            Ok(Some((fields, left))) => fields_from(
                upstream.skip(line_length(upstream) as int),
                left,
                fields,
            ),
        },
{
    if line_length(upstream) == 0 {
        let line = upstream.take(0);
        assert(line == Seq::<u8>::empty());
        assert(valid_utf8(line));
        assert(decode_utf8(line) == Seq::<char>::empty());
        assert(upstream.skip(0) == upstream);
    }
}

/// The bytes of a block of lines, each given without its line ending and
/// written with a carriage return and a line feed behind it, or with a
/// line feed alone.
pub open spec fn block_of(lines: Seq<Seq<u8>>, with_carriage_return: bool) -> Seq<u8>
    decreases lines.len(),
{
    if lines.len() == 0 {
        Seq::empty()
    } else if with_carriage_return {
        lines[0] + seq![0x0Du8, EOL] + block_of(lines.drop_first(), true)
    } else {
        lines[0] + seq![EOL] + block_of(lines.drop_first(), false)
    }
}

/// Whether a line holds no line feed.
pub open spec fn without_line_feed(line: Seq<u8>) -> bool {
    forall|j: int| 0 <= j < line.len() ==> line[j] != EOL
}

/// Whether two readings of a header block gave the same: the same fields,
/// or the same fault.
pub open spec fn same_fields(
    one: Result<(Fields, Seq<u8>), Fault>,
    other: Result<(Fields, Seq<u8>), Fault>,
) -> bool {
    match (one, other) {
        (Ok((fields, _)), Ok((others, _))) => fields == others,
        (Err(fault), Err(other_fault)) => fault == other_fault,
        _ => false,
    }
}

/// A header block whose lines end with a carriage return and a line feed
/// is read as the same block with line feeds alone: both give the same
/// fields, or fail alike, where both are within their budgets.
pub proof fn lemma_block_endings_agree(
    lines: Seq<Seq<u8>>,
    long_budget: nat,
    short_budget: nat,
    so_far: Fields,
)
    requires
        forall|i: int| 0 <= i < lines.len() ==> without_line_feed(#[trigger] lines[i]),
        block_of(lines, true).len() <= long_budget,
        block_of(lines, false).len() <= short_budget,
    ensures
        same_fields(
            fields_from(block_of(lines, true), long_budget, so_far),
            fields_from(block_of(lines, false), short_budget, so_far),
        ),
    decreases lines.len(),
{
    let long = block_of(lines, true);
    let short = block_of(lines, false);
    if lines.len() > 0 {
        let content = lines[0];
        let rest = lines.drop_first();
        let n = content.len();
        assert(without_line_feed(content));
        let long_line = content + seq![0x0Du8, EOL];
        let short_line = content + seq![EOL];
        assert(long == long_line + block_of(rest, true));
        assert(short == short_line + block_of(rest, false));
        assert forall|i: int| 0 <= i < n + 1 implies long[i] != EOL by {
            if i < n {
                assert(long[i] == content[i]);
            }
        }
        assert forall|i: int| 0 <= i < n implies short[i] != EOL by {
            assert(short[i] == content[i]);
        }
        assert(long[n as int + 1] == EOL);
        assert(short[n as int] == EOL);
        lemma_offset_of_is(long, EOL, n + 1);
        lemma_offset_of_is(short, EOL, n);
        assert(long.take(n as int + 2) == long_line);
        assert(short.take(n as int + 1) == short_line);
        assert(long.skip(n as int + 2) == block_of(rest, true));
        assert(short.skip(n as int + 1) == block_of(rest, false));
        lemma_line_endings_agree(content);
        lemma_fields_from_step(long, long_budget, so_far);
        lemma_fields_from_step(short, short_budget, so_far);
        assert forall|i: int| 0 <= i < rest.len() implies without_line_feed(
            #[trigger] rest[i],
        ) by {
            assert(rest[i] == lines[i + 1]);
        }
        match field_of_line(short_line) {
            Ok(Some((name, value))) => {
                lemma_block_endings_agree(
                    rest,
                    (long_budget - (n + 2)) as nat,
                    (short_budget - (n + 1)) as nat,
                    added(so_far, name, value),
                );
            },
            _ => {},
        }
    }
}

/// Joins strings by commas.
fn join(values: &Vec<String>) -> (line: String)
    ensures
        line@ == joined(texts(values@)),
{
    let mut line = String::new();
    let mut i: usize = 0;
    assert(texts(values@).take(0) =~= Seq::<Seq<char>>::empty());
    while i < values.len()
        invariant
            i <= values@.len(),
            line@ == joined(texts(values@).take(i as int)),
        decreases values@.len() - i,
    {
        proof {
            let next = texts(values@).take(i + 1);
            assert(next.drop_last() =~= texts(values@).take(i as int));
            assert(next.last() == values@[i as int]@);
        }
        if i > 0 {
            push_char(&mut line, ',');
        }
        line.append(values[i].as_str());
        i += 1;
    }
    assert(texts(values@).take(values@.len() as int) =~= texts(values@));
    line
}

/// Reads what a line of a header block says.
pub fn parse_field(line: &Vec<u8>) -> (field: Result<Option<(String, String)>, ReadError>)
    ensures
        match field {
            Ok(Some((name, value))) => field_of_line(line@) matches Ok(Some(said)) && said == (
                name@,
                value@,
            ),
            Ok(None) => field_of_line(line@) matches Ok(None),
            Err(e) => field_of_line(line@) matches Err(fault) && fault == e@,
        },
{
    let text = match core::str::from_utf8(line.as_slice()) {
        Ok(text) => text,
        Err(e) => {
            return Err(ReadError::Encoding(e));
        },
    };
    proof {
        encode_utf8_decode_utf8(text@);
    }
    let chars = chars_of(text);
    assert(chars@.subrange(0, chars@.len() as int) == chars@);
    let end = drop_line_end(&chars, 0, chars.len());
    let ghost stripped = chars@.subrange(0, end as int);
    if end == 0 {
        return Ok(None);
    }
    let colon = find_char(&chars, 0, end, ':');
    if colon == end {
        return Err(ReadError::format("invalid header field format"));
    }
    assert(chars@.subrange(0, colon as int) == stripped.take(colon as int));
    assert(chars@.subrange(colon + 1, end as int) == stripped.skip(colon + 1));
    let raw_name = decode_chars(&chars, 0, colon);
    let raw_value = decode_chars(&chars, colon + 1, end);
    assert(raw_name@.subrange(0, raw_name@.len() as int) == raw_name@);
    assert(raw_value@.subrange(0, raw_value@.len() as int) == raw_value@);
    let name_start = skip_whitespace(&raw_name, 0, raw_name.len());
    let name_end = drop_whitespace(&raw_name, name_start, raw_name.len());
    let trimmed_name = string_of(&raw_name, name_start, name_end);
    let name = to_lowercase(trimmed_name.as_str());
    let value_start = skip_whitespace(&raw_value, 0, raw_value.len());
    let value_end = drop_line_end(&raw_value, value_start, raw_value.len());
    let value = string_of(&raw_value, value_start, value_end);
    if name.as_str().unicode_len() == 0 {
        return Err(ReadError::format("empty header field name"));
    }
    Ok(Some((name, value)))
}

/// One field of a header table.
#[derive(Debug, PartialEq)]
struct Field {
    name: String,
    values: Vec<String>,
}

/// A field as plain values.
spec fn field_view(field: Field) -> (Seq<char>, Seq<Seq<char>>) {
    (field.name@, texts(field.values@))
}

/// Fields as plain values.
spec fn fields_view(fields: Seq<Field>) -> Fields {
    Seq::new(fields.len(), |i: int| field_view(fields[i]))
}

/// The header table of a frame: field names with their values, sorted by
/// name.
#[derive(Debug, PartialEq)]
pub struct Header {
    fields: Vec<Field>,
}

impl View for Header {
    type V = Fields;

    closed spec fn view(&self) -> Fields {
        fields_view(self.fields@)
    }
}

impl Default for Header {
    fn default() -> (header: Header)
        ensures
            header@ == Fields::empty(),
            header.wf(),
    {
        Header::new()
    }
}

impl Header {
    #[verifier::type_invariant]
    spec fn inv(&self) -> bool {
        sorted(self@)
    }

    /// Whether the table is well formed: besides the order of its names,
    /// which every table has, no name is empty and every name has one
    /// value or more. An empty table is, and a table stays so as long as no
    /// empty name and no empty list of values is put in.
    pub open spec fn wf(&self) -> bool {
        well_formed(self@)
    }

    /// An empty table.
    pub fn new() -> (header: Header)
        ensures
            header@ == Fields::empty(),
            header.wf(),
    {
        let fields: Vec<Field> = Vec::new();
        assert(fields_view(fields@) =~= Fields::empty());
        Header { fields }
    }

    /// The number of field names in the table.
    pub fn len(&self) -> (n: usize)
        ensures
            n == self@.len(),
            sorted(self@),
    {
        proof {
            use_type_invariant(self);
        }
        self.fields.len()
    }

    /// The name and the values of the field at the given place in the order
    /// of the names.
    pub fn field_at(&self, i: usize) -> (field: (&String, &Vec<String>))
        requires
            i < self@.len(),
        ensures
            field.0@ == self@[i as int].0,
            texts(field.1@) == self@[i as int].1,
            sorted(self@),
    {
        proof {
            use_type_invariant(self);
        }
        (&self.fields[i].name, &self.fields[i].values)
    }

    /// The place of `key` among the names of the table, and whether the
    /// table holds it.
    fn find(&self, key: &str) -> (place: (usize, bool))
        ensures
            place.0 == rank(self@, key@),
            place.1 == holds(self@, key@),
            place.0 <= self.fields@.len(),
            place.1 ==> place.0 < self.fields@.len(),
            sorted(self@),
    {
        proof {
            use_type_invariant(self);
        }
        let mut i: usize = 0;
        while i < self.fields.len()
            invariant
                i <= self.fields@.len(),
                sorted(self@),
                forall|j: int| 0 <= j < i ==> name_before(#[trigger] self@[j].0, key@),
            decreases self.fields@.len() - i,
        {
            match relate(self.fields[i].name.as_str(), key) {
                Relation::Before => {
                    i += 1;
                },
                Relation::Same => {
                    proof {
                        lemma_name_before_total(key@, key@);
                        lemma_rank_is(self@, key@, i as nat);
                    }
                    return (i, true);
                },
                Relation::After => {
                    proof {
                        lemma_name_before_total(self@[i as int].0, key@);
                        lemma_rank_is(self@, key@, i as nat);
                    }
                    return (i, false);
                },
            }
        }
        proof {
            lemma_rank_is(self@, key@, i as nat);
        }
        (i, false)
    }

    /// The values of the field `key`, if the table holds it.
    pub fn get(&self, key: &str) -> (values: Option<&Vec<String>>)
        ensures
            match values {
                Some(v) => values_of(self@, key@) == Some(texts(v@)),
                None => values_of(self@, key@) is None,
            },
            sorted(self@),
    {
        let (at, found) = self.find(key);
        if found {
            Some(&self.fields[at].values)
        } else {
            None
        }
    }

    /// Appends `value` to the values of the field `key`; the field is made
    /// if the table does not hold it.
    pub fn push(&mut self, key: &str, value: String)
        ensures
            final(self)@ == added(old(self)@, key@, value@),
            sorted(final(self)@),
            old(self).wf() && key@.len() > 0 ==> final(self).wf(),
    {
        let (at, found) = self.find(key);
        proof {
            lemma_added_sorted(self@, key@, value@);
        }
        let mut fields: Vec<Field> = Vec::new();
        assert(fields_view(fields@) =~= Fields::empty());
        core::mem::swap(&mut self.fields, &mut fields);
        let ghost before = fields@;
        if found {
            fields[at].values.push(value);
            assert(fields_view(fields@) =~= added(fields_view(before), key@, value@)) by {
                assert(texts(fields@[at as int].values@) =~= texts(before[at as int].values@).push(
                    value@,
                ));
            }
        } else {
            let mut values: Vec<String> = Vec::with_capacity(1);
            values.push(value);
            let field = Field { name: key.to_owned(), values };
            assert(field_view(field) == (key@, seq![value@])) by {
                assert(texts(field.values@) =~= seq![value@]);
            }
            fields.insert(at, field);
            assert(fields_view(fields@) =~= added(fields_view(before), key@, value@));
        }
        self.fields = fields;
    }

    /// Appends `value` to the values of the field `key`; the field is made
    /// if the table does not hold it.
    pub fn add(&mut self, key: &str, value: &str)
        ensures
            final(self)@ == added(old(self)@, key@, value@),
            sorted(final(self)@),
            old(self).wf() && key@.len() > 0 ==> final(self).wf(),
    {
        self.push(key, value.to_owned())
    }

    /// Gives the field `key` the given values in place of those it has; the
    /// field is made if the table does not hold it.
    pub fn set(&mut self, key: &str, values: Vec<String>)
        ensures
            final(self)@ == replaced(old(self)@, key@, texts(values@)),
            sorted(final(self)@),
            old(self).wf() && key@.len() > 0 && values@.len() > 0 ==> final(self).wf(),
    {
        let (at, found) = self.find(key);
        proof {
            lemma_replaced_sorted(self@, key@, texts(values@));
        }
        let mut fields: Vec<Field> = Vec::new();
        assert(fields_view(fields@) =~= Fields::empty());
        core::mem::swap(&mut self.fields, &mut fields);
        let ghost before = fields@;
        if found {
            fields[at].values = values;
            assert(fields_view(fields@) =~= replaced(fields_view(before), key@, texts(values@)));
        } else {
            let field = Field { name: key.to_owned(), values };
            fields.insert(at, field);
            assert(fields_view(fields@) =~= replaced(fields_view(before), key@, texts(values@)));
        }
        self.fields = fields;
    }

    /// Writes the fields to the end of `w`, in the order of their names, one
    /// line each, and returns the number of bytes written.
    pub fn write_to(&self, w: &mut Vec<u8>) -> (written: u64)
        ensures
            final(w)@ == old(w)@ + header_bytes(self@),
            written == header_bytes(self@).len(),
            sorted(self@),
    {
        proof {
            use_type_invariant(self);
            reveal_strlit(": ");
            reveal_strlit("\n");
        }
        let start = w.len();
        let mut i: usize = 0;
        assert(self@.skip(0) == self@);
        while i < self.fields.len()
            invariant
                i <= self.fields@.len(),
                ": "@ == seq![':', ' '],
                "\n"@ == seq!['\n'],
                w@ + header_bytes(self@.skip(i as int)) == old(w)@ + header_bytes(self@),
            decreases self.fields@.len() - i,
        {
            let field = &self.fields[i];
            proof {
                let rest = self@.skip(i as int);
                assert(rest[0] == field_view(*field));
                assert(rest.drop_first() == self@.skip(i + 1));
            }
            let mut line = encode(field.name.as_str());
            line.append(": ");
            let values = join(&field.values);
            let escaped = encode(values.as_str());
            line.append(escaped.as_str());
            line.append("\n");
            assert(line@ == field_line(field.name@, texts(field.values@)));
            w.extend_from_slice(line.as_str().as_bytes());
            i += 1;
        }
        assert(w@.len() == start + header_bytes(self@).len());
        (w.len() - start) as u64
    }

    /// Reads a header block from the source, line by line, and returns its
    /// fields. The block ends with its first empty line, which is taken off
    /// the source, or with the source.
    pub fn read_from(source: &mut ByteSource) -> (header: Result<Header, ReadError>)
        ensures
            match header {
                Ok(h) => h.wf() && (fields_from(
                    old(source).remaining(),
                    MAX_HEADER_SIZE as nat,
                    Fields::empty(),
                ) matches Ok(block) && block == (h@, final(source).remaining())),
                Err(e) => fields_from(
                    old(source).remaining(),
                    MAX_HEADER_SIZE as nat,
                    Fields::empty(),
                ) matches Err(fault) && fault == e@,
            },
    {
        let mut reader = FieldsReader::new();
        let ghost whole = reader.rest_from(source.remaining());
        loop
            invariant
                whole == fields_from(
                    old(source).remaining(),
                    MAX_HEADER_SIZE as nat,
                    Fields::empty(),
                ),
                reader.rest_from(source.remaining()) == whole,
            decreases source.remaining().len(),
        {
            proof {
                lemma_fields_from_step(
                    source.remaining(),
                    reader.budget() as nat,
                    reader.fields(),
                );
            }
            let mut line: Vec<u8> = Vec::new();
            match read_line(source, reader.line_budget(), &mut line) {
                Ok(n) => {},
                Err(e) => {
                    return Err(e);
                },
            }
            match reader.accept(&line) {
                Ok(done) => {
                    if done {
                        return Ok(reader.finish());
                    }
                },
                Err(e) => {
                    return Err(e);
                },
            }
        }
    }

    /// Takes the field `key` out of the table, if the table holds it.
    pub fn remove(&mut self, key: &str)
        ensures
            final(self)@ == removed(old(self)@, key@),
            sorted(final(self)@),
            old(self).wf() ==> final(self).wf(),
    {
        let (at, found) = self.find(key);
        proof {
            lemma_removed_sorted(self@, key@);
        }
        if found {
            let mut fields: Vec<Field> = Vec::new();
            assert(fields_view(fields@) =~= Fields::empty());
            core::mem::swap(&mut self.fields, &mut fields);
            let ghost before = fields@;
            fields.remove(at);
            assert(fields_view(fields@) =~= removed(fields_view(before), key@));
            self.fields = fields;
        }
    }
}

/// Gathers the fields of a header block from its lines, one at a time,
/// within the limit of a header block.
#[derive(Debug)]
pub struct FieldsReader {
    header: Header,
    budget: u64,
}

impl FieldsReader {
    #[verifier::type_invariant]
    spec fn inv(&self) -> bool {
        well_formed(self.header@)
    }

    /// The fields that were gathered.
    pub closed spec fn fields(&self) -> Fields {
        self.header@
    }

    /// The number of bytes that the lines to come may have together.
    pub closed spec fn budget(&self) -> u64 {
        self.budget
    }

    /// What the rest of the block gives when it is read from `upstream`.
    pub open spec fn rest_from(&self, upstream: Seq<u8>) -> Result<(Fields, Seq<u8>), Fault> {
        fields_from(upstream, self.budget() as nat, self.fields())
    }

    /// A reader at the start of a header block.
    pub fn new() -> (reader: FieldsReader)
        ensures
            reader.fields() == Fields::empty(),
            reader.budget() == MAX_HEADER_SIZE,
    {
        FieldsReader { header: Header::new(), budget: MAX_HEADER_SIZE }
    }

    /// The largest number of bytes that the next line may have.
    pub fn line_budget(&self) -> (budget: u64)
        ensures
            budget == self.budget(),
    {
        self.budget
    }

    /// Takes the next line of the block, or an empty line where the source
    /// is at its end, and says whether the block is complete. A line that
    /// names a field adds its value to the fields that were gathered.
    pub fn accept(&mut self, line: &Vec<u8>) -> (done: Result<bool, ReadError>)
        ensures
            well_formed(final(self).fields()),
            match fields_step(old(self).fields(), old(self).budget() as nat, line@) {
                Err(fault) => done matches Err(e) && e@ == fault,
                Ok(None) => {
                    &&& done matches Ok(complete) && complete
                    &&& final(self).fields() == old(self).fields()
                    &&& final(self).budget() == old(self).budget()
                },
                Ok(Some((fields, left))) => {
                    &&& done matches Ok(complete) && !complete
                    &&& final(self).fields() == fields
                    &&& final(self).budget() == left
                    &&& line@.len() > 0
                },
            },
    {
        proof {
            use_type_invariant(&*self);
        }
        if line.len() as u64 > self.budget {
            return Err(ReadError::format("line exceeds size limit"));
        }
        match parse_field(line) {
            Err(e) => Err(e),
            Ok(None) => Ok(true),
            Ok(Some((name, value))) => {
                proof {
                    if line@.len() == 0 {
                        assert(valid_utf8(line@));
                        assert(decode_utf8(line@) == Seq::<char>::empty());
                    }
                }
                let mut header = Header::new();
                core::mem::swap(&mut self.header, &mut header);
                header.push(name.as_str(), value);
                self.header = header;
                self.budget = self.budget - line.len() as u64;
                Ok(false)
            },
        }
    }

    /// The header table of the fields that were gathered.
    pub fn finish(self) -> (header: Header)
        ensures
            header@ == self.fields(),
            header.wf(),
    {
        proof {
            use_type_invariant(&self);
        }
        self.header
    }
}

} // verus!
