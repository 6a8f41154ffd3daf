//! Plain-text scanning used by the GTFS reader: whitespace trimming,
//! splitting on a separator, line splitting and unsigned decimal parsing,
//! each stated over the character sequence of the text.

use vstd::prelude::*;
use vstd::std_specs::iter::IteratorSpec;

verus! {

broadcast use vstd::string::group_string_axioms;

/// Unicode `White_Space` characters (what `char::is_whitespace` accepts).
pub open spec fn is_whitespace(c: char) -> bool {
    let v = c as u32;
    ||| (9 <= v <= 13)
    ||| v == 32
    ||| v == 0x85
    ||| v == 0xA0
    ||| v == 0x1680
    ||| (0x2000 <= v <= 0x200A)
    ||| v == 0x2028
    ||| v == 0x2029
    ||| v == 0x202F
    ||| v == 0x205F
    ||| v == 0x3000
}

/// Whether a character is Unicode whitespace.
pub fn char_is_whitespace(c: char) -> (r: bool)
    ensures
        r == is_whitespace(c),
{
    let v = c as u32;
    (9 <= v && v <= 13) || v == 32 || v == 0x85 || v == 0xA0 || v == 0x1680 || (0x2000 <= v && v
        <= 0x200A) || v == 0x2028 || v == 0x2029 || v == 0x202F || v == 0x205F || v == 0x3000
}

/// The text without its leading whitespace.
pub open spec fn trim_start(s: Seq<char>) -> Seq<char>
    decreases s.len(),
{
    if s.len() > 0 && is_whitespace(s[0]) {
        trim_start(s.drop_first())
    } else {
        s
    }
}

/// The text without its trailing whitespace.
pub open spec fn trim_end(s: Seq<char>) -> Seq<char>
    decreases s.len(),
{
    if s.len() > 0 && is_whitespace(s.last()) {
        trim_end(s.drop_last())
    } else {
        s
    }
}

/// The text without leading and trailing whitespace.
pub open spec fn trim(s: Seq<char>) -> Seq<char> {
    trim_end(trim_start(s))
}

/// The pieces of the text between occurrences of `sep` (as `str::split`
/// gives them: `n` separators give `n + 1` pieces, empty ones included).
pub open spec fn split_on(s: Seq<char>, sep: char) -> Seq<Seq<char>>
    decreases s.len(),
{
    if s.len() == 0 {
        seq![Seq::empty()]
    } else {
        let rest = split_on(s.drop_last(), sep);
        if s.last() == sep {
            rest.push(Seq::empty())
        } else {
            rest.update(rest.len() - 1, rest.last().push(s.last()))
        }
    }
}

/// A line with its `\r` terminator removed, if it has one.
pub open spec fn strip_cr(line: Seq<char>) -> Seq<char> {
    if line.len() > 0 && line.last() == '\r' {
        line.drop_last()
    } else {
        line
    }
}

/// The lines of a text (as `str::lines` gives them): pieces between `\n`
/// characters with a `\r` before the `\n` removed; a last piece is a line
/// only if it is not empty, and keeps any final `\r`.
pub open spec fn lines_of(s: Seq<char>) -> Seq<Seq<char>> {
    let parts = split_on(s, '\n');
    let body = parts.take(parts.len() - 1).map_values(|p: Seq<char>| strip_cr(p));
    if parts.last().len() > 0 {
        body.push(parts.last())
    } else {
        body
    }
}

/// The characters of a string.
pub fn chars_of(s: &str) -> (r: Vec<char>)
    ensures
        r@ == s@,
{
    let mut it = s.chars();
    let mut out: Vec<char> = Vec::new();
    loop
        invariant
            out@ + it.remaining() == s@,
            it.decrease() is Some,
        decreases it.decrease()->0,
    {
        let ghost before = it.remaining();
        match it.next() {
            Some(c) => {
                proof {
                    assert(out@.push(c) + it.remaining() =~= out@ + before);
                }
                out.push(c);
            },
            None => {
                proof {
                    assert(out@ =~= s@);
                }
                return out;
            },
        }
    }
}

proof fn lemma_trim_start_sub(s: Seq<char>, a: int, a2: int, b: int)
    requires
        0 <= a <= a2 <= b <= s.len(),
        forall|k: int| a <= k < a2 ==> is_whitespace(#[trigger] s[k]),
        a2 == b || !is_whitespace(s[a2]),
    ensures
        trim_start(s.subrange(a, b)) == s.subrange(a2, b),
    decreases a2 - a,
{
    if a < a2 {
        assert(s.subrange(a, b).drop_first() =~= s.subrange(a + 1, b));
        lemma_trim_start_sub(s, a + 1, a2, b);
    } else {
        if a2 < b {
            assert(s.subrange(a, b)[0] == s[a2]);
        }
    }
}

proof fn lemma_trim_end_sub(s: Seq<char>, a: int, b2: int, b: int)
    requires
        0 <= a <= b2 <= b <= s.len(),
        forall|k: int| b2 <= k < b ==> is_whitespace(#[trigger] s[k]),
        b2 == a || !is_whitespace(s[b2 - 1]),
    ensures
        trim_end(s.subrange(a, b)) == s.subrange(a, b2),
    decreases b - b2,
{
    if b2 < b {
        assert(s.subrange(a, b).drop_last() =~= s.subrange(a, b - 1));
        lemma_trim_end_sub(s, a, b2, b - 1);
    } else {
        if a < b2 {
            assert(s.subrange(a, b).last() == s[b2 - 1]);
        }
    }
}

/// The range of `chars[start..end]` left once leading and trailing
/// whitespace is trimmed.
pub fn trim_range(chars: &Vec<char>, start: usize, end: usize) -> (r: (usize, usize))
    requires
        start <= end <= chars@.len(),
    ensures
        start <= r.0 <= r.1 <= end,
        chars@.subrange(r.0 as int, r.1 as int) == trim(chars@.subrange(start as int, end as int)),
{
    let mut a = start;
    while a < end && char_is_whitespace(chars[a])
        invariant
            start <= a <= end <= chars@.len(),
            forall|k: int| start <= k < a ==> is_whitespace(#[trigger] chars@[k]),
        decreases end - a,
    {
        a = a + 1;
    }
    let mut b = end;
    while b > a && char_is_whitespace(chars[b - 1])
        invariant
            start <= a <= b <= end <= chars@.len(),
            forall|k: int| b <= k < end ==> is_whitespace(#[trigger] chars@[k]),
        decreases b - a,
    {
        b = b - 1;
    }
    proof {
        lemma_trim_start_sub(chars@, start as int, a as int, end as int);
        lemma_trim_end_sub(chars@, a as int, b as int, end as int);
    }
    (a, b)
}

/// The pieces given by splitting `chars[start..end]` on `sep`, as ranges.
pub fn split_ranges(chars: &Vec<char>, start: usize, end: usize, sep: char) -> (r: Vec<(usize, usize)>)
    requires
        start <= end <= chars@.len(),
    ensures
        r@.len() == split_on(chars@.subrange(start as int, end as int), sep).len(),
        forall|k: int|
            0 <= k < r@.len() ==> {
                &&& start <= (#[trigger] r@[k]).0 <= r@[k].1 <= end
                &&& chars@.subrange(r@[k].0 as int, r@[k].1 as int) == split_on(
                    chars@.subrange(start as int, end as int),
                    sep,
                )[k]
            },
{
    let mut out: Vec<(usize, usize)> = Vec::new();
    let mut piece_start = start;
    let mut i = start;
    proof {
        assert(chars@.subrange(start as int, start as int) =~= Seq::<char>::empty());
    }
    while i < end
        invariant
            start <= piece_start <= i <= end <= chars@.len(),
            split_on(chars@.subrange(start as int, i as int), sep).len() == out@.len() + 1,
            forall|k: int|
                0 <= k < out@.len() ==> {
                    &&& start <= (#[trigger] out@[k]).0 <= out@[k].1 <= i
                    &&& chars@.subrange(out@[k].0 as int, out@[k].1 as int) == split_on(
                        chars@.subrange(start as int, i as int),
                        sep,
                    )[k]
                },
            split_on(chars@.subrange(start as int, i as int), sep).last() == chars@.subrange(
                piece_start as int,
                i as int,
            ),
        decreases end - i,
    {
        let ghost prev = split_on(chars@.subrange(start as int, i as int), sep);
        proof {
            assert(chars@.subrange(start as int, i + 1).drop_last() =~= chars@.subrange(start as int, i as int));
            assert(chars@.subrange(start as int, i + 1).last() == chars@[i as int]);
        }
        if chars[i] == sep {
            out.push((piece_start, i));
            piece_start = i + 1;
            proof {
                assert(chars@.subrange(piece_start as int, i + 1) =~= Seq::<char>::empty());
            }
        } else {
            proof {
                assert(chars@.subrange(piece_start as int, i + 1) =~= chars@.subrange(piece_start as int, i as int).push(chars@[i as int]));
            }
        }
        i = i + 1;
    }
    out.push((piece_start, end));
    out
}

proof fn lemma_split_len(s: Seq<char>, sep: char)
    ensures
        split_on(s, sep).len() >= 1,
    decreases s.len(),
{
    if s.len() > 0 {
        lemma_split_len(s.drop_last(), sep);
    }
}

/// The lines of the text, as ranges of its characters.
pub fn line_ranges(chars: &Vec<char>) -> (r: Vec<(usize, usize)>)
    ensures
        r@.len() == lines_of(chars@).len(),
        forall|k: int|
            0 <= k < r@.len() ==> {
                &&& (#[trigger] r@[k]).0 <= r@[k].1 <= chars@.len()
                &&& chars@.subrange(r@[k].0 as int, r@[k].1 as int) == lines_of(chars@)[k]
            },
{
    let n = chars.len();
    let pieces = split_ranges(chars, 0, n, '\n');
    proof {
        assert(chars@.subrange(0, n as int) =~= chars@);
        lemma_split_len(chars@, '\n');
    }
    let ghost parts = split_on(chars@, '\n');
    let mut out: Vec<(usize, usize)> = Vec::new();
    let last = pieces.len() - 1;
    let mut k: usize = 0;
    while k < last
        invariant
            pieces@.len() == parts.len(),
            last == pieces@.len() - 1,
            0 <= k <= last,
            n == chars@.len(),
            forall|j: int|
                0 <= j < pieces@.len() ==> {
                    &&& 0 <= (#[trigger] pieces@[j]).0 <= pieces@[j].1 <= n
                    &&& chars@.subrange(pieces@[j].0 as int, pieces@[j].1 as int) == parts[j]
                },
            out@.len() == k,
            forall|j: int|
                0 <= j < k ==> {
                    &&& (#[trigger] out@[j]).0 <= out@[j].1 <= n
                    &&& chars@.subrange(out@[j].0 as int, out@[j].1 as int) == strip_cr(parts[j])
                },
        decreases last - k,
    {
        let (a, b) = pieces[k];
        proof {
            assert(chars@.subrange(a as int, b as int) == parts[k as int]);
        }
        if b > a && chars[b - 1] == '\r' {
            proof {
                assert(chars@.subrange(a as int, b - 1) =~= chars@.subrange(a as int, b as int).drop_last());
            }
            out.push((a, b - 1));
        } else {
            out.push((a, b));
        }
        k = k + 1;
    }
    let (a, b) = pieces[last];
    let ghost body = parts.take(parts.len() - 1).map_values(|p: Seq<char>| strip_cr(p));
    proof {
        assert(body.len() == out@.len());
        assert forall|j: int| 0 <= j < out@.len() implies chars@.subrange((#[trigger] out@[j]).0 as int, out@[j].1 as int) == body[j] by {
        }
    }
    if b > a {
        out.push((a, b));
        proof {
            assert(chars@.subrange(a as int, b as int) == parts.last());
        }
    }
    out
}

/// Decimal value of a run of ASCII digits.
pub open spec fn digits_value(s: Seq<char>) -> nat
    decreases s.len(),
{
    if s.len() == 0 {
        0
    } else {
        digits_value(s.drop_last()) * 10 + ((s.last() as u32) - ('0' as u32)) as nat
    }
}

/// Every character is an ASCII digit.
pub open spec fn all_digits(s: Seq<char>) -> bool {
    forall|k: int| 0 <= k < s.len() ==> '0' <= #[trigger] s[k] <= '9'
}

/// The `u32` that `str::parse::<u32>` reads from the text: an optional `+`
/// followed by at least one ASCII digit, with a value that fits.
pub open spec fn parse_u32_spec(s: Seq<char>) -> Option<u32> {
    let body = if s.len() > 0 && s[0] == '+' { s.drop_first() } else { s };
    if body.len() == 0 || !all_digits(body) || digits_value(body) > u32::MAX {
        None
    } else {
        Some(digits_value(body) as u32)
    }
}

proof fn lemma_digits_value_monotone(s: Seq<char>, k: int)
    requires
        0 <= k <= s.len(),
        all_digits(s),
    ensures
        digits_value(s.take(k)) <= digits_value(s),
    decreases s.len() - k,
{
    if k < s.len() {
        lemma_digits_value_monotone(s, k + 1);
        assert(s.take(k + 1).drop_last() =~= s.take(k));
    } else {
        assert(s.take(k) =~= s);
    }
}

/// Parse `chars[start..end]` as `str::parse::<u32>` does.
pub fn parse_u32_range(chars: &Vec<char>, start: usize, end: usize) -> (r: Option<u32>)
    requires
        start <= end <= chars@.len(),
    ensures
        r == parse_u32_spec(chars@.subrange(start as int, end as int)),
{
    let ghost s = chars@.subrange(start as int, end as int);
    let mut a = start;
    if a < end && chars[a] == '+' {
        a = a + 1;
    }
    let ghost body = chars@.subrange(a as int, end as int);
    proof {
        if start < end && chars@[start as int] == '+' {
            assert(body =~= s.drop_first());
        } else {
            assert(body =~= s);
        }
    }
    if a == end {
        return None;
    }
    let mut value: u64 = 0;
    let mut i = a;
    proof {
        assert(body.take(0) =~= Seq::<char>::empty());
    }
    while i < end
        invariant
            a <= i <= end <= chars@.len(),
            a < end,
            start <= end,
            s == chars@.subrange(start as int, end as int),
            body == chars@.subrange(a as int, end as int),
            body == (if s.len() > 0 && s[0] == '+' { s.drop_first() } else { s }),
            all_digits(chars@.subrange(a as int, i as int)),
            value == digits_value(body.take(i - a)),
            value <= u32::MAX,
        decreases end - i,
    {
        let c = chars[i];
        if !('0' <= c && c <= '9') {
            proof {
                assert(body[i - a] == c);
                assert(!('0' <= body[i - a] <= '9'));
                assert(!all_digits(body));
            }
            return None;
        }
        let d = (c as u32 - '0' as u32) as u64;
        proof {
            assert(body.take(i - a + 1).drop_last() =~= body.take(i - a));
            assert(body.take(i - a + 1).last() == c);
        }
        value = value * 10 + d;
        proof {
            assert(value == digits_value(body.take(i - a + 1)));
            assert forall|k: int| 0 <= k < chars@.subrange(a as int, i + 1).len() implies '0' <= #[trigger] chars@.subrange(a as int, i + 1)[k] <= '9' by {
                if k < i - a {
                    assert(chars@.subrange(a as int, i + 1)[k] == chars@.subrange(a as int, i as int)[k]);
                }
            }
        }
        if value > u32::MAX as u64 {
            proof {
                let j = i - a + 1;
                if all_digits(body) {
                    lemma_digits_value_monotone(body, j);
                    assert(digits_value(body) > u32::MAX);
                }
            }
            return None;
        }
        i = i + 1;
    }
    proof {
        assert(body.take(end - a) =~= body);
        assert(chars@.subrange(a as int, end as int) =~= body);
    }
    Some(value as u32)
}

/// Parse a text as `str::parse::<u32>` does.
pub fn parse_u32_str(s: &str) -> (r: Option<u32>)
    ensures
        r == parse_u32_spec(s@),
{
    let chars = chars_of(s);
    proof {
        assert(chars@.subrange(0, chars@.len() as int) =~= chars@);
    }
    parse_u32_range(&chars, 0, chars.len())
}

/// A `String` holding the given characters.
#[verifier::external_body]
fn string_from_chars(chars: &[char]) -> (r: String)
    ensures
        r@ == chars@,
{
    String::from_iter(chars.iter())
}

/// A `String` holding `chars[start..end]`.
pub fn string_of_range(chars: &Vec<char>, start: usize, end: usize) -> (r: String)
    requires
        start <= end <= chars@.len(),
    ensures
        r@ == chars@.subrange(start as int, end as int),
{
    string_from_chars(&chars.as_slice()[start..end])
}

} // verus!
