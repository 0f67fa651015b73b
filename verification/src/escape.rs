use crate::text::{chars_of, push_char, string_of};
use vstd::prelude::*;

verus! {

/// The escape sequence that stands for one character of header text.
pub open spec fn escape_of(c: char) -> Seq<char> {
    if c == '\\' {
        seq!['\\', '\\']
    } else if c == '\r' {
        seq!['\\', 'r']
    } else if c == '\n' {
        seq!['\\', 'n']
    } else if c == ':' {
        seq!['\\', 'c']
    } else {
        seq![c]
    }
}

/// The escaped form of a text: every character replaced by its escape
/// sequence, in order.
pub open spec fn encoded(s: Seq<char>) -> Seq<char>
    decreases s.len(),
{
    if s.len() == 0 {
        Seq::empty()
    } else {
        escape_of(s[0]) + encoded(s.drop_first())
    }
}

/// The character that an escape sequence with second character `c` stands
/// for. A backslash before any other character is dropped and the character
/// stands for itself.
pub open spec fn unescape_of(c: char) -> char {
    if c == 'c' {
        ':'
    } else if c == 'n' {
        '\n'
    } else if c == 'r' {
        '\r'
    } else {
        c
    }
}

/// The text that an escaped text stands for. A backslash takes the next
/// character with it; a backslash at the very end is dropped.
pub open spec fn decoded(s: Seq<char>) -> Seq<char>
    decreases s.len(),
{
    if s.len() == 0 {
        Seq::empty()
    } else if s[0] != '\\' {
        seq![s[0]] + decoded(s.drop_first())
    } else if s.len() == 1 {
        Seq::empty()
    } else {
        seq![unescape_of(s[1])] + decoded(s.skip(2))
    }
}

/// What is still to come out of a decoder that stands before `rest`, having
/// just seen an unpaired backslash or not.
pub open spec fn decoded_after(pending: bool, rest: Seq<char>) -> Seq<char> {
    if !pending {
        decoded(rest)
    } else if rest.len() == 0 {
        Seq::empty()
    } else {
        seq![unescape_of(rest[0])] + decoded(rest.drop_first())
    }
}

/// Escapes the four special characters of header text.
pub fn encode(input: &str) -> (output: String)
    ensures
        output@ == encoded(input@),
{
    let chars = chars_of(input);
    let mut output = String::new();
    let mut i: usize = 0;
    assert(chars@.skip(0) == chars@);
    while i < chars.len()
        invariant
            i <= chars@.len(),
            output@ + encoded(chars@.skip(i as int)) == encoded(chars@),
        decreases chars@.len() - i,
    {
        let c = chars[i];
        proof {
            let rest = chars@.skip(i as int);
            assert(rest.drop_first() == chars@.skip(i + 1));
            assert(encoded(rest) == escape_of(c) + encoded(chars@.skip(i + 1)));
        }
        if c == '\\' {
            push_char(&mut output, '\\');
            push_char(&mut output, '\\');
        } else if c == '\r' {
            push_char(&mut output, '\\');
            push_char(&mut output, 'r');
        } else if c == '\n' {
            push_char(&mut output, '\\');
            push_char(&mut output, 'n');
        } else if c == ':' {
            push_char(&mut output, '\\');
            push_char(&mut output, 'c');
        } else {
            push_char(&mut output, c);
        }
        i += 1;
    }
    output
}

/// Resolves the escape sequences of `chars[from..to]`.
pub fn decode_chars(chars: &Vec<char>, from: usize, to: usize) -> (output: Vec<char>)
    requires
        from <= to <= chars@.len(),
    ensures
        output@ == decoded(chars@.subrange(from as int, to as int)),
{
    let ghost input = chars@.subrange(from as int, to as int);
    let mut output: Vec<char> = Vec::new();
    let mut pending = false;
    let mut i: usize = from;
    assert(input.skip(0) == input);
    while i < to
        invariant
            from <= i <= to <= chars@.len(),
            input == chars@.subrange(from as int, to as int),
            output@ + decoded_after(pending, input.skip(i - from)) == decoded(input),
        decreases to - i,
    {
        let c = chars[i];
        proof {
            let rest = input.skip(i - from);
            assert(rest[0] == c);
            assert(rest.drop_first() == input.skip(i - from + 1));
            if !pending && c == '\\' && rest.len() > 1 {
                assert(rest.skip(2) == input.skip(i - from + 1).drop_first());
            }
        }
        if pending {
            if c == 'c' {
                output.push(':');
            } else if c == 'n' {
                output.push('\n');
            } else if c == 'r' {
                output.push('\r');
            } else {
                output.push(c);
            }
            pending = false;
        } else if c == '\\' {
            pending = true;
        } else {
            output.push(c);
        }
        i += 1;
    }
    output
}

/// Resolves the escape sequences of header text.
pub fn decode(input: &str) -> (output: String)
    ensures
        output@ == decoded(input@),
{
    let chars = chars_of(input);
    assert(chars@.subrange(0, chars@.len() as int) == chars@);
    let plain = decode_chars(&chars, 0, chars.len());
    assert(plain@.subrange(0, plain@.len() as int) == plain@);
    string_of(&plain, 0, plain.len())
}

/// Escaping a text made of two parts gives the escaped first part followed
/// by the escaped second part.
pub proof fn lemma_encoded_concat(a: Seq<char>, b: Seq<char>)
    ensures
        encoded(a + b) == encoded(a) + encoded(b),
    decreases a.len(),
{
    if a.len() == 0 {
        assert(a + b == b);
    } else {
        assert((a + b).drop_first() == a.drop_first() + b);
        lemma_encoded_concat(a.drop_first(), b);
    }
}

/// Resolving the escapes of an escape sequence followed by any text gives
/// the escaped character followed by what the text stands for.
pub proof fn lemma_decoded_escape(c: char, rest: Seq<char>)
    ensures
        decoded(escape_of(c) + rest) == seq![c] + decoded(rest),
{
    let s = escape_of(c) + rest;
    if c == '\\' || c == '\r' || c == '\n' || c == ':' {
        assert(s.skip(2) == rest);
    } else {
        assert(s.drop_first() == rest);
    }
}

/// Resolving the escapes of an escaped text gives the text back.
pub proof fn lemma_decoded_encoded(s: Seq<char>)
    ensures
        decoded(encoded(s)) == s,
    decreases s.len(),
{
    if s.len() > 0 {
        lemma_decoded_escape(s[0], encoded(s.drop_first()));
        lemma_decoded_encoded(s.drop_first());
        assert(seq![s[0]] + s.drop_first() == s);
    }
}

/// An escaped text holds no colon, carriage return or line feed.
pub proof fn lemma_encoded_has_no_specials(s: Seq<char>)
    ensures
        forall|i: int|
            0 <= i < encoded(s).len() ==> {
                let c = #[trigger] encoded(s)[i];
                c != ':' && c != '\r' && c != '\n'
            },
    decreases s.len(),
{
    if s.len() > 0 {
        lemma_encoded_has_no_specials(s.drop_first());
        let head = escape_of(s[0]);
        let tail = encoded(s.drop_first());
        assert forall|i: int| 0 <= i < encoded(s).len() implies {
            let c = #[trigger] encoded(s)[i];
            c != ':' && c != '\r' && c != '\n'
        } by {
            if i >= head.len() {
                assert(encoded(s)[i] == tail[i - head.len()]);
            }
        }
    }
}

/// A text without a backslash stands for itself.
pub proof fn lemma_decoded_plain(s: Seq<char>)
    requires
        forall|i: int| 0 <= i < s.len() ==> s[i] != '\\',
    ensures
        decoded(s) == s,
    decreases s.len(),
{
    if s.len() > 0 {
        lemma_decoded_plain(s.drop_first());
        assert(seq![s[0]] + s.drop_first() == s);
    }
}

} // verus!
