//! Reading an edge from a line of text: two node numbers separated by white space.

use vstd::prelude::*;

verus! {

/// Why a field holds no node index.
#[derive(Clone, Copy, Debug, PartialEq, Eq, Structural)]
pub enum IndexError {
    /// The field is empty.
    Empty,
    /// The field holds a character that is no digit, or a sign and nothing else.
    InvalidDigit,
    /// The digits denote a number too large for a node index.
    Overflow,
}

/// Why a line holds no edge.
#[derive(Clone, Copy, Debug, PartialEq, Eq, Structural)]
pub enum LineError {
    /// The line does not consist of exactly two fields.
    FieldCount,
    /// One of the two fields, the first that fails, is no node index.
    Index(IndexError),
}

/// Whether `c` separates fields: the characters that Unicode classes as white space.
pub open spec fn is_space(c: char) -> bool {
    let n: u32 = c as u32;
    ||| 0x09 <= n <= 0x0d
    ||| n == 0x20
    ||| n == 0x85
    ||| n == 0xa0
    ||| n == 0x1680
    ||| 0x2000 <= n <= 0x200a
    ||| n == 0x2028
    ||| n == 0x2029
    ||| n == 0x202f
    ||| n == 0x205f
    ||| n == 0x3000
}

/// The fields of a line: its maximal runs of characters that are no white space,
/// left to right.
pub open spec fn fields(line: Seq<char>) -> Seq<Seq<char>>
    decreases line.len(),
{
    if line.len() == 0 {
        Seq::empty()
    } else if is_space(line[line.len() - 1]) {
        fields(line.drop_last())
    } else if line.len() == 1 || is_space(line[line.len() - 2]) {
        fields(line.drop_last()).push(seq![line[line.len() - 1]])
    } else {
        let before = fields(line.drop_last());
        before.drop_last().push(before[before.len() - 1].push(line[line.len() - 1]))
    }
}

/// `field` is not empty and holds no white space.
pub open spec fn is_field(field: Seq<char>) -> bool {
    &&& field.len() > 0
    &&& forall|j: int| 0 <= j < field.len() ==> !is_space(#[trigger] field[j])
}

/// Whether `c` is one of the digits `0` to `9`.
pub open spec fn is_digit(c: char) -> bool {
    0x30 <= c as u32 <= 0x39
}

/// The number that a sequence of digits denotes in base ten.
pub open spec fn digits_value(digits: Seq<char>) -> nat
    decreases digits.len(),
{
    if digits.len() == 0 {
        0
    } else {
        10 * digits_value(digits.drop_last()) + (digits[digits.len() - 1] as u32 - 0x30) as nat
    }
}

/// `field` without a leading plus sign.
pub open spec fn unsigned_part(field: Seq<char>) -> Seq<char> {
    if field.len() > 0 && field[0] == '+' {
        field.skip(1)
    } else {
        field
    }
}

/// The first `k` characters of `digits` are digits.
pub open spec fn is_digit_run(digits: Seq<char>, k: int) -> bool {
    &&& 0 <= k <= digits.len()
    &&& forall|i: int| 0 <= i < k ==> is_digit(#[trigger] digits[i])
}

/// The node index that a field denotes: an optional plus sign and then one or
/// more digits, whose value fits a `usize`. A field is out of range as soon as
/// some run of its leading digits is, whatever follows them.
pub open spec fn index_of_field(field: Seq<char>) -> Result<usize, IndexError> {
    let digits = unsigned_part(field);
    if field.len() == 0 {
        Err(IndexError::Empty)
    } else if exists|k: int| #[trigger]
        is_digit_run(digits, k) && digits_value(digits.take(k)) > usize::MAX {
        Err(IndexError::Overflow)
    } else if digits.len() == 0 || !is_digit_run(digits, digits.len() as int) {
        Err(IndexError::InvalidDigit)
    } else {
        Ok(digits_value(digits) as usize)
    }
}

/// The edge that a line denotes: exactly two fields, both node indices.
pub open spec fn edge_of_line(line: Seq<char>) -> Result<(usize, usize), LineError> {
    let parts = fields(line);
    if parts.len() != 2 {
        Err(LineError::FieldCount)
    } else {
        match index_of_field(parts[0]) {
            Err(e) => Err(LineError::Index(e)),
            Ok(src) => match index_of_field(parts[1]) {
                Err(e) => Err(LineError::Index(e)),
                Ok(dest) => Ok((src, dest)),
            },
        }
    }
}

/// The fields held by a list of character vectors.
pub open spec fn fields_view(parts: Seq<Vec<char>>) -> Seq<Seq<char>> {
    Seq::new(parts.len(), |i: int| parts[i]@)
}

/// Whether `c` separates fields.
fn separates(c: char) -> (r: bool)
    ensures
        r == is_space(c),
{
    let n: u32 = c as u32;
    (0x09 <= n && n <= 0x0d) || n == 0x20 || n == 0x85 || n == 0xa0 || n == 0x1680 || (0x2000 <= n
        && n <= 0x200a) || n == 0x2028 || n == 0x2029 || n == 0x202f || n == 0x205f || n == 0x3000
}

/// The characters of `line`, one by one.
fn chars_of(line: &str) -> (chars: Vec<char>)
    ensures
        chars@ == line@,
{
    let mut chars: Vec<char> = Vec::new();
    for c in it: line.chars()
        invariant
            chars@ == it.seq().take(it.index() as int),
            it.seq() == line@,
    {
        chars.push(c);
        assert(it.seq().take(it.index() + 1) =~= it.seq().take(it.index() as int).push(c));
    }
    assert(line@.take(line@.len() as int) =~= line@);
    chars
}

/// Splits a line into its fields.
pub fn split_fields(line: &[char]) -> (parts: Vec<Vec<char>>)
    ensures
        fields_view(parts@) == fields(line@),
{
    let mut parts: Vec<Vec<char>> = Vec::new();
    let mut current: Vec<char> = Vec::new();
    let mut i: usize = 0;
    assert(line@.take(0) =~= Seq::<char>::empty());
    while i < line.len()
        invariant
            i <= line.len(),
            current@.len() > 0 <==> i > 0 && !is_space(line@[i - 1]),
            fields(line@.take(i as int)) == if current@.len() > 0 {
                fields_view(parts@).push(current@)
            } else {
                fields_view(parts@)
            },
        decreases line.len() - i,
    {
        let c = line[i];
        let ghost done = fields_view(parts@);
        proof {
            assert(line@.take(i + 1).drop_last() =~= line@.take(i as int));
        }
        if separates(c) {
            if current.len() > 0 {
                parts.push(current);
                current = Vec::new();
                assert(fields_view(parts@) =~= done.push(parts@[parts@.len() - 1]@));
            }
        } else {
            current.push(c);
            proof {
                let before = fields(line@.take(i as int));
                if current@.len() > 1 {
                    assert(before.drop_last() =~= done);
                } else {
                    assert(current@ =~= seq![c]);
                }
            }
        }
        i += 1;
    }
    assert(line@.take(i as int) =~= line@);
    if current.len() > 0 {
        let ghost done = fields_view(parts@);
        parts.push(current);
        assert(fields_view(parts@) =~= done.push(parts@[parts@.len() - 1]@));
    }
    parts
}

/// Every field of a line is a non-empty run of characters that are no white space,
/// and a line that ends in such a character has a field.
pub proof fn lemma_fields(line: Seq<char>)
    ensures
        forall|i: int| 0 <= i < fields(line).len() ==> is_field(#[trigger] fields(line)[i]),
        line.len() > 0 && !is_space(line[line.len() - 1]) ==> fields(line).len() > 0,
    decreases line.len(),
{
    if line.len() > 0 {
        lemma_fields(line.drop_last());
        let before = fields(line.drop_last());
        let c = line[line.len() - 1];
        if is_space(c) {
        } else if line.len() == 1 || is_space(line[line.len() - 2]) {
            assert forall|i: int| 0 <= i < fields(line).len() implies is_field(
                #[trigger] fields(line)[i],
            ) by {
                if i < before.len() {
                    assert(is_field(before[i]));
                }
            }
        } else {
            assert(is_field(before[before.len() - 1]));
            assert forall|i: int| 0 <= i < fields(line).len() implies is_field(
                #[trigger] fields(line)[i],
            ) by {
                if i < before.len() - 1 {
                    assert(is_field(before[i]));
                }
            }
        }
    }
}

/// A longer sequence of digits denotes no smaller a number than any of its prefixes.
proof fn lemma_digits_value_grows(digits: Seq<char>, k: int)
    requires
        0 <= k <= digits.len(),
    ensures
        digits_value(digits.take(k)) <= digits_value(digits),
    decreases digits.len(),
{
    if k == digits.len() {
        assert(digits.take(k) =~= digits);
    } else {
        assert(digits.drop_last().take(k) =~= digits.take(k));
        lemma_digits_value_grows(digits.drop_last(), k);
    }
}

/// Reads a node index from a field.
pub fn parse_index(field: &[char]) -> (index: Result<usize, IndexError>)
    ensures
        index == index_of_field(field@),
{
    let n = field.len();
    if n == 0 {
        return Err(IndexError::Empty);
    }
    let mut i: usize = 0;
    if field[0] == '+' {
        i = 1;
    }
    let start = i;
    let ghost digits = unsigned_part(field@);
    let mut value: usize = 0;
    assert(digits.take(0) =~= Seq::<char>::empty());
    while i < n
        invariant
            n == field.len(),
            start <= i <= n,
            start <= 1,
            digits == field@.skip(start as int),
            digits == unsigned_part(field@),
            value == digits_value(digits.take(i - start)),
            is_digit_run(digits, i - start),
        decreases n - i,
    {
        let c = field[i];
        let code: u32 = c as u32;
        assert(digits[i - start] == c);
        if code < 0x30 || code > 0x39 {
            proof {
                assert forall|k: int| #[trigger] is_digit_run(digits, k) implies digits_value(
                    digits.take(k),
                ) <= usize::MAX by {
                    assert(k <= i - start);
                    assert(digits.take(i - start).take(k) =~= digits.take(k));
                    lemma_digits_value_grows(digits.take(i - start), k);
                }
            }
            return Err(IndexError::InvalidDigit);
        }
        let digit: usize = (code - 0x30) as usize;
        proof {
            assert(digits.take(i - start + 1).drop_last() =~= digits.take(i - start));
            assert(is_digit_run(digits, i - start + 1));
        }
        let tens = match value.checked_mul(10) {
            Some(tens) => tens,
            None => {
                return Err(IndexError::Overflow);
            },
        };
        value = match tens.checked_add(digit) {
            Some(sum) => sum,
            None => {
                return Err(IndexError::Overflow);
            },
        };
        i += 1;
    }
    proof {
        assert(digits.take(i - start) =~= digits);
        assert forall|k: int| #[trigger] is_digit_run(digits, k) implies digits_value(
            digits.take(k),
        ) <= usize::MAX by {
            lemma_digits_value_grows(digits, k);
        }
    }
    if i == start {
        return Err(IndexError::InvalidDigit);
    }
    Ok(value)
}

/// Reads an edge from a line: two node indices separated by white space, with
/// nothing else on the line but white space.
pub fn parse_edge_line(line: &str) -> (edge: Result<(usize, usize), LineError>)
    ensures
        edge == edge_of_line(line@),
{
    let chars = chars_of(line);
    let parts = split_fields(chars.as_slice());
    assert(fields_view(parts@).len() == parts@.len());
    if parts.len() != 2 {
        return Err(LineError::FieldCount);
    }
    assert(fields_view(parts@)[0] == parts@[0]@);
    assert(fields_view(parts@)[1] == parts@[1]@);
    let src = match parse_index(parts[0].as_slice()) {
        Ok(src) => src,
        Err(e) => {
            return Err(LineError::Index(e));
        },
    };
    let dest = match parse_index(parts[1].as_slice()) {
        Ok(dest) => dest,
        Err(e) => {
            return Err(LineError::Index(e));
        },
    };
    Ok((src, dest))
}

} // verus!
