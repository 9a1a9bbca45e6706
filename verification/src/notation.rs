//! The text notation of a fleet: one `x,y` pair per occupied cell, pairs
//! separated by `;`, as in `0,0;1,0;2,0`.

use vstd::prelude::*;
use vstd::string::*;
use crate::fleet::Cell;
use crate::messages::{join_texts, joined_with, texts};
use crate::text::{decimal, digit_char, push_decimal};

verus! {

/// One cell as text: column, comma, row.
pub open spec fn pair_text(c: Cell) -> Seq<char> {
    decimal(c.0 as nat) + ","@ + decimal(c.1 as nat)
}

/// The cells as text, pairs separated by `;`.
pub open spec fn fleet_text(cells: Seq<Cell>) -> Seq<char> {
    joined_with(cells.map_values(|c: Cell| pair_text(c)), ";"@)
}

/// The value of a decimal digit, or -1 for any other character.
pub open spec fn digit_of(c: char) -> int {
    if c == '0' {
        0
    } else if c == '1' {
        1
    } else if c == '2' {
        2
    } else if c == '3' {
        3
    } else if c == '4' {
        4
    } else if c == '5' {
        5
    } else if c == '6' {
        6
    } else if c == '7' {
        7
    } else if c == '8' {
        8
    } else if c == '9' {
        9
    } else {
        -1
    }
}

/// Whether the text consists of decimal digits only.
pub open spec fn all_digits(t: Seq<char>) -> bool {
    forall|i: int| 0 <= i < t.len() ==> digit_of(#[trigger] t[i]) >= 0
}

/// The number that a text of decimal digits denotes.
pub open spec fn number_value(t: Seq<char>) -> int
    decreases t.len(),
{
    if t.len() == 0 {
        0
    } else {
        number_value(t.drop_last()) * 10 + digit_of(t.last())
    }
}

/// The byte that a text denotes: an optional `+`, then one or more decimal
/// digits whose value is at most 255. Any other text denotes nothing.
pub open spec fn parse_byte(t: Seq<char>) -> Option<u8> {
    let digits = if t.len() > 0 && t[0] == '+' {
        t.drop_first()
    } else {
        t
    };
    if digits.len() == 0 || !all_digits(digits) || number_value(digits) > 255 {
        None
    } else {
        Some(number_value(digits) as u8)
    }
}

/// The first index at or after `from` that holds `sep`, or the length of
/// the text if there is none.
pub open spec fn next_sep(s: Seq<char>, from: int, sep: char) -> int
    decreases s.len() - from,
{
    if from >= s.len() {
        s.len() as int
    } else if s[from] == sep {
        from
    } else {
        next_sep(s, from + 1, sep)
    }
}

/// The cell that one segment of the notation denotes. The segment is cut
/// at its commas; the first two pieces must denote bytes, and further
/// pieces are ignored. A segment without a comma denotes nothing.
pub open spec fn parse_pair(seg: Seq<char>) -> Option<Cell> {
    let first = next_sep(seg, 0, ',');
    if first >= seg.len() {
        None
    } else {
        let second = next_sep(seg, first + 1, ',');
        match (parse_byte(seg.subrange(0, first)), parse_byte(seg.subrange(first + 1, second))) {
            (Some(x), Some(y)) => Some((x, y)),
            _ => None,
        }
    }
}

/// The cells denoted by the segments of the text that start at or after
/// `from`.
pub open spec fn parse_fleet_from(s: Seq<char>, from: int) -> Seq<Cell>
    decreases s.len() - from,
{
    let end = next_sep(s, from, ';');
    let head = match parse_pair(s.subrange(from, end)) {
        Some(c) => seq![c],
        None => Seq::empty(),
    };
    if end < from || end >= s.len() {
        head
    } else {
        head + parse_fleet_from(s, end + 1)
    }
}

/// The cells that a text denotes. The text is cut at its semicolons; each
/// segment that denotes a cell contributes it, in order, and every other
/// segment is skipped.
pub open spec fn parse_fleet_text(s: Seq<char>) -> Seq<Cell> {
    parse_fleet_from(s, 0)
}

/// Where the next separator is found lies between the start of the search
/// and the end of the text, and no separator stands before it.
pub proof fn lemma_next_sep(s: Seq<char>, from: int, sep: char)
    requires
        0 <= from <= s.len(),
    ensures
        from <= next_sep(s, from, sep) <= s.len(),
        next_sep(s, from, sep) < s.len() ==> s[next_sep(s, from, sep)] == sep,
        forall|i: int| from <= i < next_sep(s, from, sep) ==> s[i] != sep,
    decreases s.len() - from,
{
    if from < s.len() && s[from] != sep {
        lemma_next_sep(s, from + 1, sep);
    }
}

/// A text of digits denotes at least what any of its beginnings denotes.
proof fn lemma_number_value_grows(t: Seq<char>, k: int)
    requires
        all_digits(t),
        0 <= k <= t.len(),
    ensures
        0 <= number_value(t.subrange(0, k)) <= number_value(t),
    decreases t.len() - k,
{
    if k == t.len() {
        assert(t.subrange(0, k) =~= t);
        lemma_number_value_nonneg(t);
    } else {
        lemma_number_value_grows(t, k + 1);
        let longer = t.subrange(0, k + 1);
        assert(longer.drop_last() =~= t.subrange(0, k));
        assert(longer.last() == t[k]);
        lemma_number_value_nonneg(t.subrange(0, k));
    }
}

proof fn lemma_number_value_nonneg(t: Seq<char>)
    requires
        all_digits(t),
    ensures
        number_value(t) >= 0,
    decreases t.len(),
{
    if t.len() > 0 {
        lemma_number_value_nonneg(t.drop_last());
    }
}

/// A numeral consists of digits and denotes its number.
pub proof fn lemma_decimal_denotes(n: nat)
    ensures
        decimal(n).len() >= 1,
        all_digits(decimal(n)),
        number_value(decimal(n)) == n,
    decreases n,
{
    let t = decimal(n);
    if n < 10 {
        assert(t.drop_last() =~= Seq::<char>::empty());
        assert(digit_of(digit_char(n)) == n);
        assert(number_value(t.drop_last()) == 0);
    } else {
        lemma_decimal_denotes(n / 10);
        let head = decimal(n / 10);
        assert(t.drop_last() =~= head);
        assert(t.last() == digit_char(n % 10));
        assert(digit_of(digit_char(n % 10)) == n % 10);
        assert forall|i: int| 0 <= i < t.len() implies digit_of(#[trigger] t[i]) >= 0 by {
            if i < head.len() {
                assert(t[i] == head[i]);
            }
        }
    }
}

/// A separator that stands at `at`, with none between `from` and `at`, is
/// the next separator from `from`; so is the end of a text without one.
proof fn lemma_next_sep_is(s: Seq<char>, from: int, sep: char, at: int)
    requires
        0 <= from <= at <= s.len(),
        forall|i: int| from <= i < at ==> s[i] != sep,
        at == s.len() || s[at] == sep,
    ensures
        next_sep(s, from, sep) == at,
    decreases at - from,
{
    if from < at {
        lemma_next_sep_is(s, from + 1, sep, at);
    }
}

/// The text of a cell denotes the cell, and holds no semicolon.
proof fn lemma_pair_round_trip(c: Cell)
    ensures
        parse_pair(pair_text(c)) == Some(c),
        forall|i: int| 0 <= i < pair_text(c).len() ==> pair_text(c)[i] != ';',
{
    reveal_strlit(",");
    let dx = decimal(c.0 as nat);
    let dy = decimal(c.1 as nat);
    let seg = pair_text(c);
    lemma_decimal_denotes(c.0 as nat);
    lemma_decimal_denotes(c.1 as nat);
    let n = dx.len() as int;
    assert(seg.len() == n + 1 + dy.len());
    assert(seg[n] == ',');
    assert forall|i: int| 0 <= i < n implies seg[i] == dx[i] && digit_of(seg[i]) >= 0 by {}
    assert forall|i: int| n < i < seg.len() implies seg[i] == dy[i - n - 1] && digit_of(seg[i])
        >= 0 by {
        assert(digit_of(dy[i - n - 1]) >= 0);
    }
    lemma_next_sep_is(seg, 0, ',', n);
    lemma_next_sep_is(seg, n + 1, ',', seg.len() as int);
    assert(seg.subrange(0, n) =~= dx);
    assert(seg.subrange(n + 1, seg.len() as int) =~= dy);
    assert(digit_of(dx[0]) >= 0);
    assert(digit_of(dy[0]) >= 0);
    assert(parse_byte(dx) == Some(c.0));
    assert(parse_byte(dy) == Some(c.1));
    assert forall|i: int| 0 <= i < seg.len() implies seg[i] != ';' by {
        if i < n {
            assert(digit_of(seg[i]) >= 0);
        } else if i > n {
            assert(digit_of(seg[i]) >= 0);
        }
    }
}

/// A text joined from two or more parts is its first part, the separator
/// and the rest joined.
proof fn lemma_joined_front(parts: Seq<Seq<char>>, sep: Seq<char>)
    requires
        parts.len() >= 2,
    ensures
        joined_with(parts, sep) == parts[0] + sep + joined_with(parts.drop_first(), sep),
    decreases parts.len(),
{
    let init = parts.drop_last();
    let tail = parts.drop_first();
    if parts.len() == 2 {
        assert(init.len() == 1 && init[0] == parts[0]);
        assert(tail.len() == 1 && tail[0] == parts[1]);
        assert(joined_with(init, sep) == parts[0]);
        assert(joined_with(tail, sep) == parts[1]);
    } else {
        lemma_joined_front(init, sep);
        assert(init.drop_first() =~= tail.drop_last());
        assert(init[0] == parts[0]);
        assert(tail.last() == parts.last());
        assert(joined_with(tail, sep) == joined_with(tail.drop_last(), sep) + sep + tail.last());
        assert(joined_with(parts, sep) =~= parts[0] + sep + joined_with(tail, sep));
    }
}

proof fn lemma_next_sep_shift(prefix: Seq<char>, rest: Seq<char>, from: int, sep: char)
    requires
        0 <= from <= rest.len(),
    ensures
        next_sep(prefix + rest, prefix.len() + from, sep) == prefix.len() + next_sep(
            rest,
            from,
            sep,
        ),
    decreases rest.len() - from,
{
    let s = prefix + rest;
    if from < rest.len() {
        assert(s[prefix.len() + from] == rest[from]);
        if rest[from] != sep {
            lemma_next_sep_shift(prefix, rest, from + 1, sep);
        }
    }
}

/// Reading a text from behind a beginning is reading what follows the
/// beginning.
proof fn lemma_parse_shift(prefix: Seq<char>, rest: Seq<char>, from: int)
    requires
        0 <= from <= rest.len(),
    ensures
        parse_fleet_from(prefix + rest, prefix.len() + from) == parse_fleet_from(rest, from),
    decreases rest.len() - from,
{
    let s = prefix + rest;
    let n = prefix.len() as int;
    lemma_next_sep_shift(prefix, rest, from, ';');
    lemma_next_sep(rest, from, ';');
    let end = next_sep(rest, from, ';');
    assert(s.subrange(n + from, n + end) =~= rest.subrange(from, end));
    if end < rest.len() {
        lemma_parse_shift(prefix, rest, end + 1);
    }
}

/// Writing cells as text and reading the text gives the cells back, for
/// every list of cells.
pub proof fn law_fleet_text_round_trip(cells: Seq<Cell>)
    ensures
        parse_fleet_text(fleet_text(cells)) == cells,
    decreases cells.len(),
{
    reveal_strlit(";");
    let parts = cells.map_values(|c: Cell| pair_text(c));
    let text = fleet_text(cells);
    if cells.len() == 0 {
        assert(text =~= Seq::<char>::empty());
        assert(text.subrange(0, 0) =~= Seq::<char>::empty());
        assert(parse_fleet_from(text, 0) =~= cells);
    } else if cells.len() == 1 {
        lemma_pair_round_trip(cells[0]);
        assert(text == pair_text(cells[0]));
        lemma_next_sep_is(text, 0, ';', text.len() as int);
        assert(text.subrange(0, text.len() as int) =~= text);
        assert(parse_fleet_from(text, 0) =~= cells);
    } else {
        let first = pair_text(cells[0]);
        let tail = cells.drop_first();
        let rest = fleet_text(tail);
        lemma_pair_round_trip(cells[0]);
        lemma_joined_front(parts, ";"@);
        assert(parts.drop_first() =~= tail.map_values(|c: Cell| pair_text(c)));
        assert(parts[0] == first);
        let prefix = first + ";"@;
        assert(text =~= prefix + rest);
        let n = first.len() as int;
        assert(text[n] == ';');
        assert forall|i: int| 0 <= i < n implies text[i] != ';' by {
            assert(text[i] == first[i]);
        }
        lemma_next_sep_is(text, 0, ';', n);
        assert(text.subrange(0, n) =~= first);
        lemma_parse_shift(prefix, rest, 0);
        law_fleet_text_round_trip(tail);
        assert(parse_fleet_from(text, n + 1) == tail);
        assert(parse_fleet_from(text, 0) =~= seq![cells[0]] + tail);
        assert(seq![cells[0]] + tail =~= cells);
    }
}

/// The cells as text, pairs separated by `;`.
pub fn fleet_string(fleet: &Vec<Cell>) -> (s: String)
    ensures
        s@ == fleet_text(fleet@),
{
    let mut pairs: Vec<String> = Vec::new();
    let mut i: usize = 0;
    while i < fleet.len()
        invariant
            i <= fleet@.len(),
            texts(pairs@) == fleet@.subrange(0, i as int).map_values(|c: Cell| pair_text(c)),
        decreases fleet@.len() - i,
    {
        let c: Cell = fleet[i];
        let mut pair = String::new();
        push_decimal(&mut pair, c.0 as u64);
        pair.append(",");
        push_decimal(&mut pair, c.1 as u64);
        let ghost before = pairs@;
        pairs.push(pair);
        proof {
            assert(pair@ =~= pair_text(c));
            assert(texts(pairs@) =~= texts(before).push(pair@));
            assert(texts(pairs@) =~= fleet@.subrange(0, i + 1).map_values(|c: Cell| pair_text(c)));
        }
        i = i + 1;
    }
    proof {
        assert(fleet@.subrange(0, fleet@.len() as int) =~= fleet@);
    }
    join_texts(&pairs, ";")
}

fn to_chars(text: &str) -> (chars: Vec<char>)
    ensures
        chars@ == text@,
{
    let n: usize = text.unicode_len();
    let mut chars: Vec<char> = Vec::new();
    let mut i: usize = 0;
    while i < n
        invariant
            n == text@.len(),
            i <= n,
            chars@ == text@.subrange(0, i as int),
        decreases n - i,
    {
        chars.push(text.get_char(i));
        proof {
            assert(chars@ =~= text@.subrange(0, i + 1));
        }
        i = i + 1;
    }
    proof {
        assert(text@.subrange(0, n as int) =~= text@);
    }
    chars
}

fn piece(chars: &Vec<char>, from: usize, to: usize) -> (out: Vec<char>)
    requires
        from <= to <= chars@.len(),
    ensures
        out@ == chars@.subrange(from as int, to as int),
{
    let mut out: Vec<char> = Vec::new();
    let mut i: usize = from;
    while i < to
        invariant
            from <= i <= to <= chars@.len(),
            out@ == chars@.subrange(from as int, i as int),
        decreases to - i,
    {
        out.push(chars[i]);
        proof {
            assert(out@ =~= chars@.subrange(from as int, i + 1));
        }
        i = i + 1;
    }
    out
}

fn find_sep(chars: &Vec<char>, from: usize, sep: char) -> (at: usize)
    requires
        from <= chars@.len(),
    ensures
        at == next_sep(chars@, from as int, sep),
        from <= at <= chars@.len(),
{
    let mut i: usize = from;
    while i < chars.len() && chars[i] != sep
        invariant
            from <= i <= chars@.len(),
            next_sep(chars@, from as int, sep) == next_sep(chars@, i as int, sep),
        decreases chars@.len() - i,
    {
        i = i + 1;
    }
    i
}

fn digit_value(c: char) -> (d: Option<u32>)
    ensures
        match d {
            Some(v) => v == digit_of(c) && v <= 9,
            None => digit_of(c) < 0,
        },
{
    if c == '0' {
        Some(0)
    } else if c == '1' {
        Some(1)
    } else if c == '2' {
        Some(2)
    } else if c == '3' {
        Some(3)
    } else if c == '4' {
        Some(4)
    } else if c == '5' {
        Some(5)
    } else if c == '6' {
        Some(6)
    } else if c == '7' {
        Some(7)
    } else if c == '8' {
        Some(8)
    } else if c == '9' {
        Some(9)
    } else {
        None
    }
}

fn parse_number(t: &Vec<char>) -> (r: Option<u8>)
    ensures
        r == parse_byte(t@),
{
    let start: usize = if t.len() > 0 && t[0] == '+' {
        1
    } else {
        0
    };
    let ghost digits = t@.subrange(start as int, t@.len() as int);
    proof {
        if start == 1 {
            assert(digits =~= t@.drop_first());
        } else {
            assert(digits =~= t@);
        }
    }
    if start == t.len() {
        return None;
    }
    let mut acc: u32 = 0;
    let mut i: usize = start;
    proof {
        assert(digits.subrange(0, 0) =~= Seq::<char>::empty());
    }
    while i < t.len()
        invariant
            start <= i <= t@.len(),
            start < t@.len(),
            digits == t@.subrange(start as int, t@.len() as int),
            digits == (if t@.len() > 0 && t@[0] == '+' {
                t@.drop_first()
            } else {
                t@
            }),
            all_digits(digits.subrange(0, i - start)),
            acc == number_value(digits.subrange(0, i - start)),
            acc <= 255,
        decreases t@.len() - i,
    {
        let ghost done = digits.subrange(0, i - start);
        let ghost more = digits.subrange(0, i - start + 1);
        proof {
            assert(more.drop_last() =~= done);
            assert(more.last() == t@[i as int]);
        }
        match digit_value(t[i]) {
            None => {
                proof {
                    assert(digit_of(digits[i - start]) < 0);
                    assert(!all_digits(digits));
                }
                return None;
            },
            Some(d) => {
                acc = acc * 10 + d;
                proof {
                    assert forall|k: int| 0 <= k < more.len() implies digit_of(#[trigger] more[k])
                        >= 0 by {
                        if k < done.len() {
                            assert(more[k] == done[k]);
                        }
                    }
                }
                if acc > 255 {
                    proof {
                        if all_digits(digits) {
                            lemma_number_value_grows(digits, i - start + 1);
                        }
                    }
                    return None;
                }
            },
        }
        i = i + 1;
    }
    proof {
        assert(digits.subrange(0, digits.len() as int) =~= digits);
    }
    Some(acc as u8)
}

fn parse_cell(seg: &Vec<char>) -> (r: Option<Cell>)
    ensures
        r == parse_pair(seg@),
{
    let first: usize = find_sep(seg, 0, ',');
    if first >= seg.len() {
        return None;
    }
    let second: usize = find_sep(seg, first + 1, ',');
    let left = piece(seg, 0, first);
    let right = piece(seg, first + 1, second);
    match parse_number(&left) {
        None => None,
        Some(x) => match parse_number(&right) {
            None => None,
            Some(y) => Some((x, y)),
        },
    }
}

/// Reads the cells that a text denotes.
///
/// The text is cut at its semicolons and each segment at its commas. A
/// segment whose first two pieces are numbers from 0 to 255, written in
/// decimal digits with an optional `+` in front, denotes the cell in that
/// column and row. Every other segment is skipped.
pub fn parse_fleet(text: &str) -> (cells: Vec<Cell>)
    ensures
        cells@ == parse_fleet_text(text@),
{
    let chars = to_chars(text);
    let mut cells: Vec<Cell> = Vec::new();
    let mut from: usize = 0;
    loop
        invariant_except_break
            parse_fleet_text(text@) == cells@ + parse_fleet_from(chars@, from as int),
        invariant
            from <= chars@.len(),
            chars@ == text@,
        ensures
            cells@ == parse_fleet_text(text@),
        decreases chars@.len() - from,
    {
        let end: usize = find_sep(&chars, from, ';');
        let seg = piece(&chars, from, end);
        let ghost before = cells@;
        match parse_cell(&seg) {
            Some(c) => {
                cells.push(c);
            },
            None => {},
        }
        if end >= chars.len() {
            proof {
                assert(cells@ =~= before + parse_fleet_from(chars@, from as int));
            }
            break;
        }
        proof {
            assert(cells@ + parse_fleet_from(chars@, end + 1) =~= before + parse_fleet_from(
                chars@,
                from as int,
            ));
        }
        from = end + 1;
    }
    cells
}

} // verus!
