use vstd::prelude::*;

verus! {

/// The byte that ends a line.
pub const NEWLINE: u8 = 10;

/// The carriage return, which is dropped where it stands before the end of
/// a line.
pub const RETURN: u8 = 13;

/// How many bytes of a text stand before its first byte `stop`; the length
/// of the text where it holds no such byte.
pub open spec fn prefix_len(text: Seq<u8>, stop: u8) -> nat
    decreases text.len(),
{
    if text.len() == 0 || text[0] == stop {
        0
    } else {
        1 + prefix_len(text.drop_first(), stop)
    }
}

/// The first line of an input that is not empty: what stands before the
/// first end of line, without a carriage return that stands right before it.
/// An input without an end of line is one line, carriage returns and all.
pub open spec fn first_line(input: Seq<u8>) -> Seq<u8> {
    let n = prefix_len(input, NEWLINE) as int;
    if 0 < n < input.len() && input[n - 1] == RETURN {
        input.take(n - 1)
    } else {
        input.take(n)
    }
}

/// What follows the first line and its end of line.
pub open spec fn after_first_line(input: Seq<u8>) -> Seq<u8> {
    let n = prefix_len(input, NEWLINE) as int;
    if n < input.len() {
        input.skip(n + 1)
    } else {
        Seq::empty()
    }
}

/// The lines of an input. Every end of line ends a line; what follows the
/// last end of line is one more line unless it is empty.
pub open spec fn lines_of(input: Seq<u8>) -> Seq<Seq<u8>>
    decreases input.len(),
{
    if input.len() == 0 {
        Seq::empty()
    } else {
        seq![first_line(input)] + lines_of(after_first_line(input))
    }
}

/// The bytes before the first `stop` are no `stop`, and the byte behind them
/// is one, where there is a byte behind them.
pub proof fn lemma_prefix_len(text: Seq<u8>, stop: u8)
    ensures
        prefix_len(text, stop) <= text.len(),
        forall|i: int| 0 <= i < prefix_len(text, stop) ==> #[trigger] text[i] != stop,
        prefix_len(text, stop) < text.len() ==> text[prefix_len(text, stop) as int] == stop,
    decreases text.len(),
{
    if text.len() > 0 && text[0] != stop {
        let rest = text.drop_first();
        lemma_prefix_len(rest, stop);
        assert forall|i: int| 0 <= i < prefix_len(text, stop) implies #[trigger] text[i]
            != stop by {
            if i > 0 {
                assert(rest[i - 1] == text[i]);
            }
        }
    }
}

/// Where the first byte `stop` stands at or behind `from`; the length of the
/// text where there is none.
pub fn find_byte(text: &[u8], from: usize, stop: u8) -> (at: usize)
    requires
        from <= text.len(),
    ensures
        from <= at <= text.len(),
        at == from + prefix_len(text@.skip(from as int), stop),
{
    let mut at = from;
    while at < text.len() && text[at] != stop
        invariant
            from <= at <= text.len(),
            prefix_len(text@.skip(from as int), stop) == (at - from) + prefix_len(
                text@.skip(at as int),
                stop,
            ),
        decreases text.len() - at,
    {
        assert(text@.skip(at as int).drop_first() =~= text@.skip(at + 1));
        at = at + 1;
    }
    at
}

/// The line that starts at `from`: where its text ends, and where the next
/// line starts.
pub fn next_line(input: &[u8], from: usize) -> (r: (usize, usize))
    requires
        from < input.len(),
    ensures
        from <= r.0 <= r.1 <= input.len(),
        from < r.1,
        input@.subrange(from as int, r.0 as int) == first_line(input@.skip(from as int)),
        input@.skip(r.1 as int) == after_first_line(input@.skip(from as int)),
{
    let end = find_byte(input, from, NEWLINE);
    if end < input.len() {
        let stop = if from < end && input[end - 1] == RETURN {
            end - 1
        } else {
            end
        };
        (stop, end + 1)
    } else {
        (end, end)
    }
}

} // verus!
