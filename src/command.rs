//! The line-oriented commands of the simulator's front end.
use vstd::prelude::*;

verus! {

/// What a command line asks for.
#[derive(Clone, Copy, PartialEq, Eq, Structural)]
pub enum Request {
    /// `m m`: move the train one station.
    MoveTrain,
    /// `m f`: finish the session.
    Finish,
    /// `<word> <arrival> <departure>`: add a passenger.
    AddPassenger { arrival: u32, departure: u32 },
}

/// `s` without one trailing newline, if it has one.
pub open spec fn strip_newline(s: Seq<char>) -> Seq<char> {
    if s.len() > 0 && s.last() == '\n' {
        s.drop_last()
    } else {
        s
    }
}

/// The pieces of `s` between single spaces; two spaces in a row leave an
/// empty piece, and an empty `s` is one empty piece.
pub open spec fn pieces(s: Seq<char>) -> Seq<Seq<char>>
    decreases s.len(),
{
    if s.len() == 0 {
        seq![Seq::empty()]
    } else {
        let rest = pieces(s.drop_last());
        if s.last() == ' ' {
            rest.push(Seq::empty())
        } else {
            rest.update(rest.len() - 1, rest.last().push(s.last()))
        }
    }
}

pub open spec fn is_digit(c: char) -> bool {
    '0' <= c <= '9'
}

/// The value of a sequence of decimal digits.
pub open spec fn digits_value(w: Seq<char>) -> int
    decreases w.len(),
{
    if w.len() == 0 {
        0
    } else {
        digits_value(w.drop_last()) * 10 + (w.last() as int - '0' as int)
    }
}

/// `w` without its leading `+`, if it has one.
pub open spec fn unsigned_part(w: Seq<char>) -> Seq<char> {
    if w.len() > 0 && w[0] == '+' {
        w.drop_first()
    } else {
        w
    }
}

pub open spec fn all_digits(d: Seq<char>) -> bool {
    forall|i: int| 0 <= i < d.len() ==> is_digit(#[trigger] d[i])
}

/// The unsigned number that `w` writes: an optional `+`, then one or more
/// decimal digits, of a value that fits in `u32`.
pub open spec fn number_of(w: Seq<char>) -> Option<u32> {
    let d = unsigned_part(w);
    if d.len() > 0 && all_digits(d) && digits_value(d) <= u32::MAX {
        Some(digits_value(d) as u32)
    } else {
        None
    }
}

/// The request of a command line, or `None` for a malformed one.
pub open spec fn request_of(line: Seq<char>) -> Option<Request> {
    let c = strip_newline(line);
    if c == seq!['m', ' ', 'm'] {
        Some(Request::MoveTrain)
    } else if c == seq!['m', ' ', 'f'] {
        Some(Request::Finish)
    } else {
        let ws = pieces(c);
        if ws.len() >= 3 && number_of(ws[1]) is Some && number_of(ws[2]) is Some {
            Some(
                Request::AddPassenger {
                    arrival: number_of(ws[1])->Some_0,
                    departure: number_of(ws[2])->Some_0,
                },
            )
        } else {
            None
        }
    }
}

proof fn lemma_digits_grow(w: Seq<char>, i: int)
    requires
        0 <= i <= w.len(),
        forall|k: int| 0 <= k < w.len() ==> is_digit(#[trigger] w[k]),
    ensures
        0 <= digits_value(w.take(i)) <= digits_value(w),
    decreases w.len(),
{
    if w.len() > 0 {
        if i == w.len() {
            assert(w.take(i) =~= w);
            lemma_digits_grow(w.drop_last(), i - 1);
            assert(w.drop_last().take(i - 1) =~= w.drop_last());
        } else {
            lemma_digits_grow(w.drop_last(), i);
            assert(w.drop_last().take(i) =~= w.take(i));
            lemma_digits_grow(w.drop_last(), w.len() - 1);
            assert(w.drop_last().take(w.len() - 1) =~= w.drop_last());
        }
    }
}

/// The number that `w` writes, as `number_of` reads it.
fn parse_number(w: &Vec<char>) -> (r: Option<u32>)
    ensures
        r == number_of(w@),
{
    let n = w.len();
    let start: usize = if n > 0 && w[0] == '+' {
        1
    } else {
        0
    };
    let ghost d = unsigned_part(w@);
    if start == n {
        return None;
    }
    let mut value: u64 = 0;
    let mut i: usize = start;
    while i < n
        invariant
            start <= i <= n,
            n == w@.len(),
            start < n,
            d == w@.skip(start as int),
            d == unsigned_part(w@),
            forall|k: int| 0 <= k < i - start ==> is_digit(#[trigger] d[k]),
            value == digits_value(d.take(i - start)),
            value <= u32::MAX,
        decreases n - i,
    {
        let ch = w[i];
        if !('0' <= ch && ch <= '9') {
            assert(d[i - start] == w@[i as int]);
            assert(!is_digit(d[i - start]));
            assert(number_of(w@) is None);
            return None;
        }
        let ghost t = d.take(i - start + 1);
        assert(t.drop_last() =~= d.take(i - start));
        let next = value * 10 + (ch as u64 - '0' as u64);
        if next > u32::MAX as u64 {
            proof {
                assert(t.last() == ch);
                assert(digits_value(t) == next);
                if all_digits(d) {
                    lemma_digits_grow(d, i - start + 1);
                }
                assert(number_of(w@) is None);
            }
            return None;
        }
        value = next;
        i = i + 1;
    }
    assert(d.take(d.len() as int) =~= d);
    Some(value as u32)
}

/// The characters of `s`.
fn chars_of(s: &str) -> (r: Vec<char>)
    ensures
        r@ == s@,
{
    let n = s.unicode_len();
    let mut out: Vec<char> = Vec::new();
    let mut i: usize = 0;
    while i < n
        invariant
            n == s@.len(),
            i <= n,
            out@ == s@.take(i as int),
        decreases n - i,
    {
        out.push(s.get_char(i));
        assert(out@ =~= s@.take(i + 1));
        i = i + 1;
    }
    assert(s@.take(n as int) =~= s@);
    out
}

/// Reads a command line: `m m` moves the train, `m f` finishes, and a line
/// of at least three space-separated words whose second and third are
/// numbers adds a passenger between those stations. One trailing newline
/// is ignored. Any other line gives `None`.
pub fn parse_request(line: &str) -> (r: Option<Request>)
    ensures
        r == request_of(line@),
{
    let mut c = chars_of(line);
    let ghost full = c@;
    let n = c.len();
    if n > 0 && c[n - 1] == '\n' {
        c.pop();
    }
    assert(c@ == strip_newline(full));
    if c.len() == 3 && c[0] == 'm' && c[1] == ' ' && (c[2] == 'm' || c[2] == 'f') {
        if c[2] == 'm' {
            assert(c@ =~= seq!['m', ' ', 'm']);
            return Some(Request::MoveTrain);
        } else {
            assert(c@ =~= seq!['m', ' ', 'f']);
            return Some(Request::Finish);
        }
    }
    assert(c@ != seq!['m', ' ', 'm']) by {
        if c@ == seq!['m', ' ', 'm'] {
            assert(c@[2] == 'm');
        }
    }
    assert(c@ != seq!['m', ' ', 'f']) by {
        if c@ == seq!['m', ' ', 'f'] {
            assert(c@[2] == 'f');
        }
    }
    let mut ws: Vec<Vec<char>> = Vec::new();
    ws.push(Vec::new());
    let m = c.len();
    let mut i: usize = 0;
    assert(c@.take(0) =~= Seq::<char>::empty());
    assert(ws@.map_values(|v: Vec<char>| v@) =~= pieces(c@.take(0)));
    while i < m
        invariant
            m == c@.len(),
            i <= m,
            ws@.len() >= 1,
            ws@.map_values(|v: Vec<char>| v@) == pieces(c@.take(i as int)),
        decreases m - i,
    {
        let ch = c[i];
        let ghost t = c@.take(i + 1);
        assert(t.drop_last() =~= c@.take(i as int));
        if ch == ' ' {
            ws.push(Vec::new());
        } else {
            let last = ws.len() - 1;
            ws[last].push(ch);
        }
        assert(ws@.map_values(|v: Vec<char>| v@) =~= pieces(t));
        i = i + 1;
    }
    assert(c@.take(m as int) =~= c@);
    if ws.len() < 3 {
        return None;
    }
    assert(ws@[1]@ == pieces(c@)[1]);
    assert(ws@[2]@ == pieces(c@)[2]);
    let arrival = parse_number(&ws[1]);
    let departure = parse_number(&ws[2]);
    match (arrival, departure) {
        (Some(a), Some(d)) => Some(Request::AddPassenger { arrival: a, departure: d }),
        _ => None,
    }
}

} // verus!
