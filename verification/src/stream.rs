use crate::configuration::Configuration;
use crate::decode::{decode_request, decode_request_spec};
use crate::grammar::DecodeError;
use crate::lexer::is_space;
use crate::message::{RequestMessage, RequestView};
use crate::token::{BACKSLASH, CLOSE, OPEN, QUOTE};
use vstd::prelude::*;
use vstd::slice::slice_subrange;

verus! {

/// The number of white space bytes that a text begins with.
pub open spec fn leading_space(text: Seq<u8>) -> nat
    decreases text.len(),
{
    if text.len() > 0 && is_space(text[0]) {
        1 + leading_space(text.skip(1))
    } else {
        0
    }
}

/// A length, if there is one, with some bytes more in front.
pub open spec fn further(length: Option<nat>, by: nat) -> Option<nat> {
    match length {
        Some(n) => Some(n + by),
        None => None,
    }
}

/// The number of bytes up to the bracket that closes an array, that bracket
/// included, in a text that begins inside the array: `depth` brackets are
/// open at its start, and `quoted` says whether a quoted string is. A
/// bracket inside a quoted string does not count, and in such a string the
/// byte behind a backslash does not end it. There is no such number where
/// the text ends before the array does.
pub open spec fn array_rest(text: Seq<u8>, depth: nat, quoted: bool) -> Option<nat>
    decreases text.len(),
{
    if text.len() == 0 {
        None
    } else if quoted {
        if text[0] == BACKSLASH {
            if text.len() >= 2 {
                further(array_rest(text.skip(2), depth, true), 2)
            } else {
                None
            }
        } else {
            further(array_rest(text.skip(1), depth, text[0] != QUOTE), 1)
        }
    } else if text[0] == CLOSE {
        if depth <= 1 {
            Some(1)
        } else {
            further(array_rest(text.skip(1), (depth - 1) as nat, false), 1)
        }
    } else if text[0] == OPEN {
        further(array_rest(text.skip(1), depth + 1, false), 1)
    } else {
        further(array_rest(text.skip(1), depth, text[0] == QUOTE), 1)
    }
}

/// The number of bytes of the unit that a text begins with. A unit is the
/// white space in front of it and an array up to the bracket that closes
/// it; where something else than an array begins, the unit is the white
/// space and that one byte. There is no unit in white space alone, nor in
/// an array that the text ends in.
pub open spec fn unit_length(text: Seq<u8>) -> Option<nat> {
    let space = leading_space(text);
    if space >= text.len() {
        None
    } else if text[space as int] != OPEN {
        Some(space + 1)
    } else {
        further(array_rest(text.skip(space + 1 as int), 1, false), space + 1)
    }
}

/// What the decoder makes of a text that is at its end: a result for each
/// unit in turn, and a last one for an array that the text ends in. A unit
/// that is no request gives an error, and the units behind it are read
/// all the same.
pub open spec fn requests(text: Seq<u8>, config: Configuration) -> Seq<
    Result<RequestView, DecodeError>,
>
    decreases text.len(),
{
    match unit_length(text) {
        Some(n) => if 0 < n <= text.len() {
            seq![decode_request_spec(text.take(n as int), config)] + requests(
                text.skip(n as int),
                config,
            )
        } else {
            Seq::empty()
        },
        None => if leading_space(text) >= text.len() {
            Seq::empty()
        } else {
            seq![Err(DecodeError::Malformed)]
        },
    }
}

/// What the decoder makes of a text that may go on: a result for each unit
/// that the text holds all of.
pub open spec fn arrived(text: Seq<u8>, config: Configuration) -> Seq<
    Result<RequestView, DecodeError>,
>
    decreases text.len(),
{
    match unit_length(text) {
        Some(n) => if 0 < n <= text.len() {
            seq![decode_request_spec(text.take(n as int), config)] + arrived(
                text.skip(n as int),
                config,
            )
        } else {
            Seq::empty()
        },
        None => Seq::empty(),
    }
}

/// The number of bytes in the units that a text holds all of.
pub open spec fn arrived_length(text: Seq<u8>) -> nat
    decreases text.len(),
{
    match unit_length(text) {
        Some(n) => if 0 < n <= text.len() {
            n + arrived_length(text.skip(n as int))
        } else {
            0
        },
        None => 0,
    }
}

/// The white space in front of a text is counted the same whatever follows
/// the text, once the text holds something else.
pub proof fn lemma_leading_space_extend(text: Seq<u8>, more: Seq<u8>)
    requires
        leading_space(text) < text.len(),
    ensures
        leading_space(text + more) == leading_space(text),
    decreases text.len(),
{
    let all = text + more;
    assert(all[0] == text[0]);
    if is_space(text[0]) {
        assert(all.skip(1) == text.skip(1) + more);
        lemma_leading_space_extend(text.skip(1), more);
    }
}

/// An array that ends in a text ends at the same place whatever follows the
/// text.
pub proof fn lemma_array_rest_extend(text: Seq<u8>, depth: nat, quoted: bool, more: Seq<u8>)
    requires
        array_rest(text, depth, quoted) is Some,
    ensures
        array_rest(text + more, depth, quoted) == array_rest(text, depth, quoted),
        array_rest(text, depth, quoted)->0 <= text.len(),
        array_rest(text, depth, quoted)->0 > 0,
    decreases text.len(),
{
    let all = text + more;
    assert(all[0] == text[0]);
    assert(all.skip(1) == text.skip(1) + more);
    if quoted {
        if text[0] == BACKSLASH {
            assert(all.skip(2) == text.skip(2) + more);
            lemma_array_rest_extend(text.skip(2), depth, true, more);
        } else {
            lemma_array_rest_extend(text.skip(1), depth, text[0] != QUOTE, more);
        }
    } else if text[0] == CLOSE {
        if depth > 1 {
            lemma_array_rest_extend(text.skip(1), (depth - 1) as nat, false, more);
        }
    } else if text[0] == OPEN {
        lemma_array_rest_extend(text.skip(1), depth + 1, false, more);
    } else {
        lemma_array_rest_extend(text.skip(1), depth, text[0] == QUOTE, more);
    }
}

/// A unit that a text begins with is the same unit whatever follows the
/// text.
pub proof fn lemma_unit_extend(text: Seq<u8>, more: Seq<u8>)
    requires
        unit_length(text) is Some,
    ensures
        unit_length(text + more) == unit_length(text),
        0 < unit_length(text)->0 <= text.len(),
        (text + more).take(unit_length(text)->0 as int) == text.take(unit_length(text)->0 as int),
{
    let all = text + more;
    let space = leading_space(text);
    lemma_leading_space_extend(text, more);
    assert(all[space as int] == text[space as int]);
    if text[space as int] == OPEN {
        assert(all.skip(space + 1 as int) == text.skip(space + 1 as int) + more);
        lemma_array_rest_extend(text.skip(space + 1 as int), 1, false, more);
    }
}

/// The decoder reads a unit and goes on with what follows it, whether or
/// not the unit is a request: the results for a unit and some more text
/// are the result for the unit and the results for the rest.
pub proof fn lemma_requests_continue(unit: Seq<u8>, more: Seq<u8>, config: Configuration)
    requires
        unit_length(unit) == Some(unit.len()),
    ensures
        requests(unit + more, config) == seq![decode_request_spec(unit, config)] + requests(
            more,
            config,
        ),
{
    lemma_unit_extend(unit, more);
    assert((unit + more).take(unit.len() as int) == unit);
    assert((unit + more).skip(unit.len() as int) == more);
    assert(unit.take(unit.len() as int) == unit);
}

/// A unit that arrived is read the same whatever arrives behind it: the
/// results for a unit and some more text are the result for the unit and
/// the results for the rest.
pub proof fn lemma_arrived_continue(unit: Seq<u8>, more: Seq<u8>, config: Configuration)
    requires
        unit_length(unit) == Some(unit.len()),
    ensures
        arrived(unit + more, config) == seq![decode_request_spec(unit, config)] + arrived(
            more,
            config,
        ),
{
    lemma_unit_extend(unit, more);
    assert((unit + more).take(unit.len() as int) == unit);
    assert((unit + more).skip(unit.len() as int) == more);
    assert(unit.take(unit.len() as int) == unit);
}

/// Returns the place behind the white space that starts at `from`.
fn skip_space(text: &[u8], from: usize) -> (at: usize)
    requires
        from <= text@.len(),
    ensures
        at == from + leading_space(text@.skip(from as int)),
        at <= text@.len(),
{
    let mut i: usize = from;
    while i < text.len() && (text[i] == 32 || text[i] == 9 || text[i] == 10 || text[i] == 13)
        invariant
            from <= i <= text@.len(),
            leading_space(text@.skip(from as int)) == (i - from) + leading_space(
                text@.skip(i as int),
            ),
        decreases text.len() - i,
    {
        assert(text@.skip(i as int)[0] == text@[i as int]);
        assert(text@.skip(i as int).skip(1) == text@.skip(i + 1));
        i += 1;
    }
    proof {
        if i < text.len() {
            assert(text@.skip(i as int)[0] == text@[i as int]);
        }
    }
    i
}

/// Returns the place behind the bracket that closes the array whose opening
/// bracket stands just before `from`.
fn find_close(text: &[u8], from: usize) -> (end: Option<usize>)
    requires
        1 <= from <= text@.len(),
    ensures
        match end {
            Some(end) => array_rest(text@.skip(from as int), 1, false) == Some((end - from) as nat)
                && from < end <= text@.len(),
            None => array_rest(text@.skip(from as int), 1, false) is None,
        },
{
    let mut i: usize = from;
    let mut depth: usize = 1;
    let mut quoted = false;
    while i < text.len()
        invariant
            1 <= from <= i <= text@.len(),
            1 <= depth <= i - from + 1,
            array_rest(text@.skip(from as int), 1, false) == further(
                array_rest(text@.skip(i as int), depth as nat, quoted),
                (i - from) as nat,
            ),
        decreases text.len() - i,
    {
        let byte = text[i];
        let ghost here = text@.skip(i as int);
        assert(here[0] == byte);
        assert(here.skip(1) == text@.skip(i + 1));
        if quoted {
            if byte == BACKSLASH {
                if text.len() - i < 2 {
                    return None;
                }
                assert(here.skip(2) == text@.skip(i + 2));
                i += 2;
            } else {
                quoted = byte != QUOTE;
                i += 1;
            }
        } else if byte == CLOSE {
            if depth <= 1 {
                return Some(i + 1);
            }
            depth -= 1;
            i += 1;
        } else if byte == OPEN {
            depth += 1;
            i += 1;
        } else {
            quoted = byte == QUOTE;
            i += 1;
        }
    }
    None
}

/// Returns the place behind the unit that starts at `from`, if the text
/// holds all of it.
pub fn find_unit(text: &[u8], from: usize) -> (end: Option<usize>)
    requires
        from <= text@.len(),
    ensures
        match end {
            Some(end) => unit_length(text@.skip(from as int)) == Some((end - from) as nat) && from
                < end <= text@.len(),
            None => unit_length(text@.skip(from as int)) is None,
        },
{
    let ghost rest = text@.skip(from as int);
    let at = skip_space(text, from);
    if at >= text.len() {
        return None;
    }
    assert(rest[at - from] == text@[at as int]);
    if text[at] != OPEN {
        return Some(at + 1);
    }
    assert(rest.skip(at - from + 1) == text@.skip(at + 1));
    find_close(text, at + 1)
}

/// What became of a unit, and the place behind it.
pub struct Unit {
    /// The request that the unit is, or why it is none.
    pub request: Result<RequestMessage, DecodeError>,
    /// The place in the text behind the unit.
    pub end: usize,
}

/// Decodes the unit that starts at `from`, if the text holds all of it.
pub fn next_unit(text: &[u8], from: usize, config: &Configuration) -> (unit: Option<Unit>)
    requires
        from <= text@.len(),
    ensures
        match unit {
            Some(unit) => {
                &&& from < unit.end <= text@.len()
                &&& unit_length(text@.skip(from as int)) == Some((unit.end - from) as nat)
                &&& match unit.request {
                    Ok(request) => decode_request_spec(
                        text@.subrange(from as int, unit.end as int),
                        *config,
                    ) == Ok::<RequestView, DecodeError>(request@) && request@.valid(*config),
                    Err(e) => decode_request_spec(
                        text@.subrange(from as int, unit.end as int),
                        *config,
                    ) == Err::<RequestView, DecodeError>(e),
                }
            },
            None => unit_length(text@.skip(from as int)) is None,
        },
{
    match find_unit(text, from) {
        Some(end) => {
            let request = decode_request(slice_subrange(text, from, end), config);
            Some(Unit { request, end })
        },
        None => None,
    }
}

/// A decoder over the bytes of a source that is at its end. It hands out
/// the requests one by one.
pub struct DeserializeJsonIter {
    bytes: Vec<u8>,
    position: usize,
    config: Configuration,
}

impl DeserializeJsonIter {
    /// The place of the decoder lies within its bytes.
    #[verifier::type_invariant]
    spec fn within(self) -> bool {
        self.position <= self.bytes@.len()
    }

    /// The bytes that are still to be read.
    pub closed spec fn remaining(self) -> Seq<u8> {
        self.bytes@.skip(self.position as int)
    }

    /// The configuration that the requests must keep to.
    pub closed spec fn config(self) -> Configuration {
        self.config
    }

    /// Returns a decoder over the given bytes.
    pub fn new(bytes: Vec<u8>, config: Configuration) -> (iter: DeserializeJsonIter)
        ensures
            iter.remaining() == bytes@,
            iter.config() == config,
    {
        assert(bytes@.skip(0) == bytes@);
        DeserializeJsonIter { bytes, position: 0, config }
    }

    /// Returns what becomes of the next unit, or `None` when nothing but
    /// white space is left. An array that the bytes end in counts as a unit
    /// that is no request.
    pub fn next(&mut self) -> (item: Option<Result<RequestMessage, DecodeError>>)
        ensures
            final(self).config() == old(self).config(),
            final(self).remaining().len() <= old(self).remaining().len(),
            match item {
                Some(Ok(request)) => {
                    &&& requests(old(self).remaining(), old(self).config()).len() > 0
                    &&& requests(old(self).remaining(), old(self).config())[0] == Ok::<
                        RequestView,
                        DecodeError,
                    >(request@)
                    &&& request@.valid(old(self).config())
                },
                Some(Err(e)) => {
                    &&& requests(old(self).remaining(), old(self).config()).len() > 0
                    &&& requests(old(self).remaining(), old(self).config())[0] == Err::<
                        RequestView,
                        DecodeError,
                    >(e)
                },
                None => requests(old(self).remaining(), old(self).config()).len() == 0,
            },
            requests(final(self).remaining(), old(self).config()) == if item is Some {
                requests(old(self).remaining(), old(self).config()).skip(1)
            } else {
                Seq::empty()
            },
    {
        proof {
            use_type_invariant(&*self);
        }
        let ghost before = self.remaining();
        let ghost results = requests(before, self.config);
        match next_unit(self.bytes.as_slice(), self.position, &self.config) {
            Some(unit) => {
                proof {
                    let n = unit.end - self.position;
                    assert(before.take(n) == self.bytes@.subrange(
                        self.position as int,
                        unit.end as int,
                    ));
                    assert(before.skip(n) == self.bytes@.skip(unit.end as int));
                    let rest = requests(before.skip(n), self.config);
                    assert((seq![results[0]] + rest).skip(1) == rest);
                }
                self.position = unit.end;
                Some(unit.request)
            },
            None => {
                let at = skip_space(self.bytes.as_slice(), self.position);
                self.position = self.bytes.len();
                proof {
                    assert(self.remaining().len() == 0);
                    assert(requests(self.remaining(), self.config).len() == 0);
                    if at < self.bytes.len() {
                        assert(results.skip(1) == Seq::<Result<RequestView, DecodeError>>::empty());
                    }
                }
                if at >= self.bytes.len() {
                    None
                } else {
                    Some(Err(DecodeError::Malformed))
                }
            },
        }
    }
}

} // verus!
