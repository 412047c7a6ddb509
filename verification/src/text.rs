//! Reading the word list and the weight table from text.

use crate::frequencies::Frequencies;
use crate::solver::words_view;
use vstd::prelude::*;
use vstd::string::is_ascii;

verus! {

/// The number of characters of `text` before the first `c`: all of them where
/// `c` does not occur.
pub open spec fn first_index_of(text: Seq<char>, c: char) -> nat
    decreases text.len(),
{
    if text.len() == 0 || text[0] == c {
        0
    } else {
        1 + first_index_of(text.skip(1), c)
    }
}

/// A line without the carriage return that may end it.
pub open spec fn without_cr(line: Seq<char>) -> Seq<char> {
    if line.len() > 0 && line.last() == '\r' {
        line.drop_last()
    } else {
        line
    }
}

/// The lines of a text. A line ends at a line feed, or at a carriage return
/// directly followed by one, and holds neither; the last line may end with
/// the text. An empty text has no lines.
pub open spec fn lines_of(text: Seq<char>) -> Seq<Seq<char>>
    decreases text.len(),
{
    if text.len() == 0 {
        Seq::empty()
    } else {
        let n = first_index_of(text, '\n');
        if n >= text.len() {
            seq![text]
        } else {
            seq![without_cr(text.take(n as int))] + lines_of(text.skip(n as int + 1))
        }
    }
}

/// The value of a decimal digit.
pub open spec fn digit_of(c: char) -> nat {
    (c as u32 - '0' as u32) as nat
}

/// Every character is a decimal digit.
pub open spec fn all_digits(digits: Seq<char>) -> bool {
    forall|i: int| 0 <= i < digits.len() ==> '0' <= #[trigger] digits[i] <= '9'
}

/// The number that a sequence of decimal digits writes.
pub open spec fn decimal(digits: Seq<char>) -> nat
    decreases digits.len(),
{
    if digits.len() == 0 {
        0
    } else {
        decimal(digits.drop_last()) * 10 + digit_of(digits.last())
    }
}

/// The count that a field writes: one or more decimal digits, after at most
/// one `+`, whose number fits in 64 bits.
pub open spec fn count_of(field: Seq<char>) -> Option<u64> {
    let digits = if field.len() > 0 && field[0] == '+' {
        field.skip(1)
    } else {
        field
    };
    if digits.len() > 0 && all_digits(digits) && decimal(digits) <= u64::MAX {
        Some(decimal(digits) as u64)
    } else {
        None
    }
}

/// The word and the count of a line `word,count`: the word is what stands
/// before the first comma, the count what stands between it and the next
/// comma or the end of the line. A line without a comma, or whose second
/// field writes no count, has none.
pub open spec fn entry_of(line: Seq<char>) -> Option<(Seq<char>, u64)> {
    let c = first_index_of(line, ',');
    if c >= line.len() {
        None
    } else {
        let rest = line.skip(c as int + 1);
        match count_of(rest.take(first_index_of(rest, ',') as int)) {
            Some(n) => Some((line.take(c as int), n)),
            None => None,
        }
    }
}

/// The table that a sequence of lines writes, a later line replacing an earlier
/// one for the same word; none where a line has no entry.
pub open spec fn table_of(lines: Seq<Seq<char>>) -> Option<Map<Seq<char>, u64>>
    decreases lines.len(),
{
    if lines.len() == 0 {
        Some(Map::empty())
    } else {
        match (table_of(lines.drop_last()), entry_of(lines.last())) {
            (Some(table), Some(entry)) => Some(table.insert(entry.0, entry.1)),
            _ => None,
        }
    }
}

/// The texts that a sequence of string slices holds, in order.
pub open spec fn slices_view(slices: Seq<&str>) -> Seq<Seq<char>> {
    slices.map_values(|s: &str| s@)
}

/// The first `c` of a text stands where no `c` stands before it.
proof fn lemma_first_index_of(text: Seq<char>, c: char, n: int)
    requires
        0 <= n <= text.len(),
        forall|i: int| 0 <= i < n ==> text[i] != c,
        n == text.len() || text[n] == c,
    ensures
        first_index_of(text, c) == n,
    decreases n,
{
    if n > 0 {
        lemma_first_index_of(text.skip(1), c, n - 1);
    }
}

/// The first digits of a number write no more than all of them.
proof fn lemma_decimal_prefix(digits: Seq<char>, n: int)
    requires
        0 <= n <= digits.len(),
    ensures
        decimal(digits.take(n)) <= decimal(digits),
    decreases digits.len() - n,
{
    if n < digits.len() {
        lemma_decimal_prefix(digits, n + 1);
        assert(digits.take(n + 1).drop_last() =~= digits.take(n));
    } else {
        assert(digits.take(n) =~= digits);
    }
}

/// Where the first lines write no table, all the lines write none.
proof fn lemma_table_prefix(lines: Seq<Seq<char>>, n: int)
    requires
        0 <= n <= lines.len(),
        table_of(lines.take(n)).is_none(),
    ensures
        table_of(lines).is_none(),
    decreases lines.len() - n,
{
    if n < lines.len() {
        assert(lines.take(n + 1).drop_last() =~= lines.take(n));
        lemma_table_prefix(lines, n + 1);
    } else {
        assert(lines.take(n) =~= lines);
    }
}

/// The character at position `i`, read directly where the text is known to
/// be ASCII.
fn char_at(s: &str, ascii: bool, i: usize) -> (c: char)
    requires
        i < s@.len(),
        ascii ==> is_ascii(s),
    ensures
        c == s@[i as int],
{
    if ascii {
        let b: u8 = s.get_ascii(i);
        assert('\0' <= s@[i as int] <= '\u{7f}');
        b as char
    } else {
        s.get_char(i)
    }
}

/// The characters from `from` up to `to`, cut directly where the text is
/// known to be ASCII.
fn slice<'a>(s: &'a str, ascii: bool, from: usize, to: usize) -> (r: &'a str)
    requires
        from <= to <= s@.len(),
        ascii ==> is_ascii(s),
    ensures
        r@ == s@.subrange(from as int, to as int),
        ascii ==> is_ascii(r),
{
    if ascii {
        s.substring_ascii(from, to)
    } else {
        s.substring_char(from, to)
    }
}

/// The position of the first `c` at or after `from`, or `len` where there is none.
fn find_char(s: &str, ascii: bool, c: char, from: usize, len: usize) -> (r: usize)
    requires
        from <= len,
        len == s@.len(),
        ascii ==> is_ascii(s),
    ensures
        from <= r <= len,
        r - from == first_index_of(s@.skip(from as int), c),
{
    let mut i: usize = from;
    while i < len && char_at(s, ascii, i) != c
        invariant
            from <= i <= len,
            len == s@.len(),
            ascii ==> is_ascii(s),
            forall|j: int| from <= j < i ==> s@[j] != c,
        decreases len - i,
    {
        i += 1;
    }
    proof {
        lemma_first_index_of(s@.skip(from as int), c, i - from);
    }
    i
}

/// Splits a text into its lines.
pub fn lines(text: &str) -> (r: Vec<&str>)
    ensures
        slices_view(r@) == lines_of(text@),
{
    let ascii = text.is_ascii();
    let len = text.unicode_len();
    let mut out: Vec<&str> = Vec::new();
    let mut start: usize = 0;
    assert(text@.skip(0) =~= text@);
    assert(slices_view(out@) + lines_of(text@) =~= lines_of(text@));
    while start < len
        invariant
            start <= len,
            len == text@.len(),
            ascii ==> is_ascii(text),
            lines_of(text@) == slices_view(out@) + lines_of(text@.skip(start as int)),
        decreases len - start,
    {
        let ghost rest = text@.skip(start as int);
        let ghost before = slices_view(out@);
        let end = find_char(text, ascii, '\n', start, len);
        if end == len {
            out.push(slice(text, ascii, start, len));
            proof {
                assert(text@.subrange(start as int, len as int) =~= rest);
                assert(slices_view(out@) =~= before.push(rest));
                assert(lines_of(text@.skip(len as int)) =~= Seq::<Seq<char>>::empty());
                assert(before + seq![rest] =~= before.push(rest) + Seq::<Seq<char>>::empty());
            }
            start = len;
        } else {
            let mut stop = end;
            if stop > start && char_at(text, ascii, stop - 1) == '\r' {
                stop -= 1;
            }
            out.push(slice(text, ascii, start, stop));
            proof {
                let line = rest.take(end - start);
                assert(line =~= text@.subrange(start as int, end as int));
                assert(without_cr(line) =~= text@.subrange(start as int, stop as int));
                assert(rest.skip(end - start + 1) =~= text@.skip(end + 1));
                assert(slices_view(out@) =~= before.push(without_cr(line)));
                assert(before + (seq![without_cr(line)] + lines_of(text@.skip(end + 1)))
                    =~= before.push(without_cr(line)) + lines_of(text@.skip(end + 1)));
            }
            start = end + 1;
        }
    }
    assert(slices_view(out@) + lines_of(text@.skip(start as int)) =~= slices_view(out@));
    out
}

/// Reads a count as `count_of` defines it.
pub fn parse_count(field: &str) -> (r: Option<u64>)
    ensures
        r == count_of(field@),
{
    let ascii = field.is_ascii();
    let len = field.unicode_len();
    let from: usize = if len > 0 && char_at(field, ascii, 0) == '+' {
        1
    } else {
        0
    };
    if from == len {
        return None;
    }
    let ghost digits = field@.skip(from as int);
    assert(field@.skip(0) =~= field@);
    let mut value: u64 = 0;
    let mut i: usize = from;
    assert(digits.take(0) =~= Seq::<char>::empty());
    while i < len
        invariant
            from <= i <= len,
            len == field@.len(),
            ascii ==> is_ascii(field),
            digits == field@.skip(from as int),
            digits.len() > 0,
            digits == if field@.len() > 0 && field@[0] == '+' {
                field@.skip(1)
            } else {
                field@
            },
            all_digits(digits.take(i - from)),
            value == decimal(digits.take(i - from)),
        decreases len - i,
    {
        let c = char_at(field, ascii, i);
        if c < '0' || c > '9' {
            assert(digits[i - from] == c);
            return None;
        }
        let d: u64 = (c as u32 - '0' as u32) as u64;
        proof {
            assert(digits.take(i - from + 1).drop_last() =~= digits.take(i - from));
            assert(digits.take(i - from + 1).last() == c);
            lemma_decimal_prefix(digits, i - from + 1);
        }
        if value > (u64::MAX - d) / 10 {
            assert(decimal(digits.take(i - from + 1)) > u64::MAX);
            return None;
        }
        value = value * 10 + d;
        i += 1;
    }
    assert(digits.take(i - from) =~= digits);
    Some(value)
}

/// The words of a word list, one on each line.
pub fn read_wordle_answers(file: &str) -> (r: Vec<String>)
    ensures
        words_view(r@) == lines_of(file@),
{
    let found = lines(file);
    let mut out: Vec<String> = Vec::new();
    let mut i: usize = 0;
    while i < found.len()
        invariant
            i <= found.len(),
            words_view(out@) == slices_view(found@.take(i as int)),
        decreases found.len() - i,
    {
        let ghost before = words_view(out@);
        out.push(found[i].to_owned());
        assert(found@.take(i + 1) =~= found@.take(i as int).push(found[i as int]));
        assert(words_view(out@) =~= before.push(found[i as int]@));
        assert(slices_view(found@.take(i + 1)) =~= before.push(found[i as int]@));
        assert(words_view(out@) =~= slices_view(found@.take(i + 1)));
        i += 1;
    }
    assert(found@.take(i as int) =~= found@);
    out
}

/// Reads one line `word,count`.
pub fn parse_entry(line: &str) -> (r: Option<(String, u64)>)
    ensures
        r.is_some() <==> entry_of(line@).is_some(),
        r.is_some() ==> (r.unwrap().0@, r.unwrap().1) == entry_of(line@).unwrap(),
{
    let ascii = line.is_ascii();
    let len = line.unicode_len();
    let comma = find_char(line, ascii, ',', 0, len);
    assert(line@.skip(0) =~= line@);
    if comma == len {
        return None;
    }
    let next = find_char(line, ascii, ',', comma + 1, len);
    let field = slice(line, ascii, comma + 1, next);
    assert(field@ =~= line@.skip(comma + 1).take(next - (comma + 1)));
    match parse_count(field) {
        Some(n) => {
            let word = slice(line, ascii, 0, comma);
            assert(word@ =~= line@.take(comma as int));
            Some((word.to_owned(), n))
        },
        None => None,
    }
}

/// The weight table that a text of lines `word,count` writes, where every line
/// is such a line; a later line replaces an earlier one for the same word.
pub fn read_frequencies(file: &str) -> (r: Option<Frequencies>)
    ensures
        r.is_some() <==> table_of(lines_of(file@)).is_some(),
        r.is_some() ==> Some(r.unwrap()@) == table_of(lines_of(file@)),
{
    let found = lines(file);
    let mut out = Frequencies::new();
    let mut i: usize = 0;
    assert(slices_view(found@).take(0) =~= Seq::<Seq<char>>::empty());
    while i < found.len()
        invariant
            i <= found.len(),
            slices_view(found@) == lines_of(file@),
            table_of(slices_view(found@).take(i as int)) == Some(out@),
        decreases found.len() - i,
    {
        proof {
            let all = slices_view(found@);
            assert(all.take(i + 1).drop_last() =~= all.take(i as int));
            assert(all.take(i + 1).last() == found[i as int]@);
        }
        match parse_entry(found[i]) {
            Some((word, count)) => {
                out.insert(word, count);
            },
            None => {
                proof {
                    lemma_table_prefix(slices_view(found@), i + 1);
                }
                return None;
            },
        }
        i += 1;
    }
    assert(slices_view(found@).take(i as int) =~= slices_view(found@));
    Some(out)
}

} // verus!
