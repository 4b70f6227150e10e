//! The header block of a response: its lines, its fields, and the body length
//! that it declares.

use vstd::prelude::*;
use crate::bytes::{
    find, find_first, first_at, lemma_find, lemma_find_is, lemma_split_at, lemma_split_nonempty,
    lemma_split_whole, matches_at, occurs_at, split, tail,
};
use crate::decimal::{
    decimal_digits, is_digit, lemma_digits_value, lemma_parse_digits, parse_decimal, parse_u32,
};

verus! {

/// Carriage return, line feed: what ends a header line.
pub open spec fn line_break() -> Seq<u8> {
    seq![13u8, 10u8]
}

/// Two line breaks in a row: what parts the header from the body.
pub open spec fn delimiter() -> Seq<u8> {
    seq![13u8, 10u8, 13u8, 10u8]
}

/// Colon, space: what parts a field's name from its value.
pub open spec fn field_separator() -> Seq<u8> {
    seq![58u8, 32u8]
}

/// The bytes of `Content-Length`, the name of the field that declares the body length.
pub open spec fn length_field_name() -> Seq<u8> {
    seq![67u8, 111u8, 110u8, 116u8, 101u8, 110u8, 116u8, 45u8, 76u8, 101u8, 110u8, 103u8, 116u8, 104u8]
}

/// The lines of a header block.
pub open spec fn header_lines(header: Seq<u8>) -> Seq<Seq<u8>> {
    split(header, line_break())
}

/// The value of the length field that `line` is, if it is one: the line falls
/// into exactly two parts at the field separator, and the first part is,
/// letter for letter, the length field's name.
pub open spec fn length_field(line: Seq<u8>) -> Option<Seq<u8>> {
    let parts = split(line, field_separator());
    if parts.len() == 2 && parts[0] == length_field_name() {
        Some(parts[1])
    } else {
        None
    }
}

/// A length, or the value of the length field that failed to write one.
pub type Declared = Result<u32, Seq<u8>>;

/// The length in force after `lines`, read in order, when `so_far` was in
/// force before them: each length field replaces it with the number it
/// writes, and the first one that writes no number spoils the whole block;
/// its value is then the error.
pub open spec fn fold_lengths(lines: Seq<Seq<u8>>, so_far: u32) -> Declared
    decreases lines.len(),
{
    if lines.len() == 0 {
        Ok(so_far)
    } else {
        match length_field(lines[0]) {
            None => fold_lengths(lines.drop_first(), so_far),
            Some(value) => match parse_decimal(value) {
                None => Err(value),
                Some(n) => fold_lengths(lines.drop_first(), n),
            },
        }
    }
}

/// The body length that a header block declares: that of its last length
/// field, and 0 where it has none. Where one of its length fields writes no
/// number, it declares none, and the value of the first such field is the error.
pub open spec fn declared_length(header: Seq<u8>) -> Declared {
    fold_lengths(header_lines(header), 0)
}

/// What a length read from bytes stands for.
pub open spec fn declared_view(r: Result<u32, &[u8]>) -> Declared {
    match r {
        Ok(n) => Ok(n),
        Err(value) => Err(value@),
    }
}

/// The value of the length field that `line` is, if it is one.
pub fn length_field_value(line: &[u8]) -> (r: Option<&[u8]>)
    ensures
        match r {
            Some(value) => length_field(line@) == Some(value@),
            None => length_field(line@) is None,
        },
{
    let sep: [u8; 2] = [58, 32];
    let name: [u8; 14] = [67, 111, 110, 116, 101, 110, 116, 45, 76, 101, 110, 103, 116, 104];
    assert(sep@ =~= field_separator());
    assert(name@ =~= length_field_name());
    match find_first(line, sep.as_slice()) {
        None => {
            proof {
                lemma_split_whole(line@, field_separator());
            }
            None
        },
        Some(at) => {
            proof {
                lemma_split_at(line@, field_separator(), at as int);
                assert(field_separator().len() == 2);
            }
            let end = line.len();
            let value = &line[at + 2..end];
            let label = &line[0..at];
            assert(value@ == tail(line@, at + 2));
            match find_first(value, sep.as_slice()) {
                Some(next) => {
                    proof {
                        assert(field_separator().len() == 2);
                        lemma_split_at(value@, field_separator(), next as int);
                        lemma_split_nonempty(tail(value@, next + 2), field_separator());
                    }
                    None
                },
                None => {
                    proof {
                        lemma_split_whole(value@, field_separator());
                    }
                    assert(split(line@, field_separator()) =~= seq![label@, value@]);
                    if label.len() == 14 && matches_at(label, name.as_slice(), 0) {
                        assert(label@ =~= label@.subrange(0, 14));
                        Some(value)
                    } else {
                        if label.len() == 14 {
                            assert(label@.subrange(0, 14) =~= label@);
                        }
                        None
                    }
                },
            }
        },
    }
}

/// One line alone leaves in force what it writes, or what was in force
/// before it where it is no length field.
pub proof fn lemma_fold_one(line: Seq<u8>, so_far: u32)
    ensures
        fold_lengths(seq![line], so_far) == match length_field(line) {
            None => Ok::<u32, Seq<u8>>(so_far),
            Some(value) => match parse_decimal(value) {
                None => Err(value),
                Some(n) => Ok(n),
            },
        },
{
    reveal_with_fuel(fold_lengths, 2);
    assert(seq![line].drop_first() =~= Seq::<Seq<u8>>::empty());
    assert(seq![line][0] == line);
}

/// The length in force after one more line.
pub fn apply_line(line: &[u8], so_far: u32) -> (r: Result<u32, &[u8]>)
    ensures
        declared_view(r) == fold_lengths(seq![line@], so_far),
{
    proof {
        lemma_fold_one(line@, so_far);
    }
    match length_field_value(line) {
        None => Ok(so_far),
        Some(value) => match parse_u32(value) {
            None => Err(value),
            Some(n) => Ok(n),
        },
    }
}

/// Folding over a first line and the lines after it is folding over the
/// first, then over the rest with what the first left in force.
pub proof fn lemma_fold_first(first: Seq<u8>, rest: Seq<Seq<u8>>, so_far: u32)
    ensures
        fold_lengths(seq![first] + rest, so_far) == match fold_lengths(seq![first], so_far) {
            Err(value) => Err(value),
            Ok(n) => fold_lengths(rest, n),
        },
{
    let all = seq![first] + rest;
    assert(all.drop_first() =~= rest);
    assert(all[0] == first);
    lemma_fold_one(first, so_far);
}

/// The body length that a header block declares, or the value of its first
/// length field that writes no number.
pub fn read_declared_length(header: &[u8]) -> (r: Result<u32, &[u8]>)
    ensures
        declared_view(r) == declared_length(header@),
{
    let brk: [u8; 2] = [13, 10];
    assert(brk@ =~= line_break());
    assert(line_break().len() == 2);
    let mut rest: &[u8] = header;
    let mut so_far: u32 = 0;
    loop
        invariant
            brk@ == line_break(),
            line_break().len() == 2,
            declared_length(header@) == fold_lengths(header_lines(rest@), so_far),
        decreases rest@.len(),
    {
        let end = rest.len();
        match find_first(rest, brk.as_slice()) {
            None => {
                proof {
                    lemma_split_whole(rest@, line_break());
                }
                return apply_line(rest, so_far);
            },
            Some(at) => {
                proof {
                    lemma_split_at(rest@, line_break(), at as int);
                    lemma_fold_first(
                        rest@.subrange(0, at as int),
                        header_lines(tail(rest@, at + 2)),
                        so_far,
                    );
                }
                match apply_line(&rest[0..at], so_far) {
                    Err(value) => {
                        return Err(value);
                    },
                    Ok(n) => {
                        so_far = n;
                    },
                }
                rest = &rest[at + 2..end];
            },
        }
    }
}

/// The line is a length field that writes no number.
pub open spec fn spoiled(line: Seq<u8>) -> bool {
    length_field(line) matches Some(value) && parse_decimal(value) is None
}

/// Lines declare no length exactly when one of them is a spoiled length
/// field, and the error is then the value of the first of these.
pub proof fn lemma_fold_fails_iff(lines: Seq<Seq<u8>>, so_far: u32)
    ensures
        fold_lengths(lines, so_far) is Err <==> exists|i: int|
            0 <= i < lines.len() && spoiled(#[trigger] lines[i]),
        forall|i: int|
            0 <= i < lines.len() && spoiled(#[trigger] lines[i]) && (forall|j: int|
                0 <= j < i ==> !spoiled(#[trigger] lines[j])) ==> fold_lengths(lines, so_far)
                == Err::<u32, Seq<u8>>(length_field(lines[i])->0),
    decreases lines.len(),
{
    if lines.len() > 0 {
        let rest = lines.drop_first();
        let next = match length_field(lines[0]) {
            None => so_far,
            Some(value) => match parse_decimal(value) {
                None => so_far,
                Some(n) => n,
            },
        };
        lemma_fold_fails_iff(rest, next);
        if spoiled(lines[0]) {
        } else if fold_lengths(lines, so_far) is Err {
            let i = choose|i: int| 0 <= i < rest.len() && spoiled(#[trigger] rest[i]);
            assert(rest[i] == lines[i + 1]);
        } else {
            assert forall|i: int| 0 <= i < lines.len() implies !spoiled(#[trigger] lines[i]) by {
                if i > 0 {
                    assert(lines[i] == rest[i - 1]);
                }
            }
        }
        assert forall|i: int|
            0 <= i < lines.len() && spoiled(#[trigger] lines[i]) && (forall|j: int|
                0 <= j < i ==> !spoiled(#[trigger] lines[j])) implies fold_lengths(lines, so_far)
            == Err::<u32, Seq<u8>>(length_field(lines[i])->0) by {
            if i > 0 {
                assert(!spoiled(lines[0]));
                assert(rest[i - 1] == lines[i]);
                assert forall|j: int| 0 <= j < i - 1 implies !spoiled(#[trigger] rest[j]) by {
                    assert(rest[j] == lines[j + 1]);
                }
            }
        }
    }
}

/// Where lines declare a length, it is the one that the last length field
/// among them writes.
pub proof fn lemma_last_field_decides(lines: Seq<Seq<u8>>, so_far: u32, last: int)
    requires
        0 <= last < lines.len(),
        length_field(lines[last]) is Some,
        forall|j: int| last < j < lines.len() ==> length_field(#[trigger] lines[j]) is None,
        fold_lengths(lines, so_far) is Ok,
    ensures
        parse_decimal(length_field(lines[last])->0) matches Some(n) && fold_lengths(lines, so_far)
            == Ok::<u32, Seq<u8>>(n),
    decreases lines.len(),
{
    let rest = lines.drop_first();
    if last == 0 {
        let n = parse_decimal(length_field(lines[0])->0)->0;
        assert forall|i: int| 0 <= i < rest.len() implies length_field(#[trigger] rest[i])
            is None by {
            assert(rest[i] == lines[i + 1]);
        }
        lemma_lines_without_field(rest, n);
    } else {
        let next = match length_field(lines[0]) {
            None => so_far,
            Some(value) => parse_decimal(value)->0,
        };
        assert(rest[last - 1] == lines[last]);
        assert forall|j: int| last - 1 < j < rest.len() implies length_field(#[trigger] rest[j])
            is None by {
            assert(rest[j] == lines[j + 1]);
        }
        lemma_last_field_decides(rest, next, last - 1);
    }
}

/// Lines of which none is a length field leave in force what was in force.
pub proof fn lemma_lines_without_field(lines: Seq<Seq<u8>>, so_far: u32)
    requires
        forall|i: int| 0 <= i < lines.len() ==> length_field(#[trigger] lines[i]) is None,
    ensures
        fold_lengths(lines, so_far) == Ok::<u32, Seq<u8>>(so_far),
    decreases lines.len(),
{
    if lines.len() > 0 {
        let rest = lines.drop_first();
        assert forall|i: int| 0 <= i < rest.len() implies length_field(#[trigger] rest[i])
            is None by {
            assert(rest[i] == lines[i + 1]);
        }
        lemma_lines_without_field(rest, so_far);
    }
}

/// The length field that declares `n`: the field's name, the separator, and
/// the digits of `n`.
pub open spec fn length_line(n: u32) -> Seq<u8> {
    length_field_name() + field_separator() + decimal_digits(n as nat)
}

/// No byte of the length field's name is a colon.
proof fn lemma_name_has_no_colon(j: int)
    requires
        0 <= j < 14,
    ensures
        length_field_name().len() == 14,
        length_field_name()[j] != 58,
{
    let name = length_field_name();
    assert(name[0] != 58 && name[1] != 58 && name[2] != 58 && name[3] != 58 && name[4] != 58);
    assert(name[5] != 58 && name[6] != 58 && name[7] != 58 && name[8] != 58 && name[9] != 58);
    assert(name[10] != 58 && name[11] != 58 && name[12] != 58 && name[13] != 58);
}

/// In a text that starts with the length field's name and the separator,
/// that separator is the leftmost.
proof fn lemma_separator_after_name(rest: Seq<u8>)
    ensures
        find(length_field_name() + field_separator() + rest, field_separator()) == Some(14int),
{
    let name = length_field_name();
    let sep = field_separator();
    let line = name + sep + rest;
    lemma_name_has_no_colon(0);
    assert(sep.len() == 2 && sep[0] == 58);
    assert(line.subrange(14, 16) =~= sep);
    assert forall|j: int| 0 <= j < 14 implies !occurs_at(line, sep, j) by {
        if occurs_at(line, sep, j) {
            assert(line.subrange(j, j + 2)[0] == line[j]);
            assert(line[j] == name[j]);
            lemma_name_has_no_colon(j);
        }
    }
    assert(first_at(line, sep, 14));
    lemma_find_is(line, sep, 14);
}

/// A run of digits holds no separator.
proof fn lemma_digits_hold_no_separator(digits: Seq<u8>)
    requires
        forall|i: int| 0 <= i < digits.len() ==> is_digit(#[trigger] digits[i]),
    ensures
        find(digits, field_separator()) is None,
{
    let sep = field_separator();
    lemma_find(digits, sep);
    if find(digits, sep) is Some {
        let j = find(digits, sep)->0;
        assert(sep.len() == 2 && sep[0] == 58);
        assert(digits.subrange(j, j + 2)[0] == digits[j]);
        assert(is_digit(digits[j]));
    }
}

/// The length field's name, the separator and a value that holds no
/// separator make a length field with that value.
pub proof fn lemma_field_of(value: Seq<u8>)
    requires
        find(value, field_separator()) is None,
    ensures
        length_field(length_field_name() + field_separator() + value) == Some(value),
{
    let name = length_field_name();
    let sep = field_separator();
    let line = name + sep + value;
    assert(name.len() == 14 && sep.len() == 2) by {
        lemma_name_has_no_colon(0);
    }
    lemma_separator_after_name(value);
    lemma_split_at(line, sep, 14);
    assert(tail(line, 16) == value) by {
        assert(tail(line, 16) =~= value);
    }
    assert(line.subrange(0, 14) == name) by {
        assert(line.subrange(0, 14) =~= name);
    }
    lemma_split_whole(value, sep);
    let parts = split(line, sep);
    assert(parts.len() == 2);
    assert(parts[0] == name);
    assert(parts.drop_first()[0] == value);
    assert(parts[1] == value);
}

/// The line that declares `n` is a length field, and its value writes `n`.
pub proof fn lemma_length_line(n: u32)
    ensures
        length_field(length_line(n)) == Some(decimal_digits(n as nat)),
        parse_decimal(decimal_digits(n as nat)) == Some(n),
        !spoiled(length_line(n)),
{
    let digits = decimal_digits(n as nat);
    lemma_parse_digits(n);
    lemma_digits_value(n as nat);
    lemma_digits_hold_no_separator(digits);
    lemma_field_of(digits);
}

/// A header declares `n` where the line that declares `n` is its last
/// length field and no length field before it is spoiled.
pub proof fn lemma_declares(header: Seq<u8>, at: int, n: u32)
    requires
        0 <= at < header_lines(header).len(),
        header_lines(header)[at] == length_line(n),
        forall|j: int|
            at < j < header_lines(header).len() ==> length_field(
                #[trigger] header_lines(header)[j],
            ) is None,
        forall|j: int| 0 <= j < at ==> !spoiled(#[trigger] header_lines(header)[j]),
    ensures
        declared_length(header) == Ok::<u32, Seq<u8>>(n),
{
    let lines = header_lines(header);
    lemma_length_line(n);
    lemma_fold_fails_iff(lines, 0);
    assert forall|i: int| 0 <= i < lines.len() implies !spoiled(#[trigger] lines[i]) by {
        if i > at {
            assert(length_field(lines[i]) is None);
        }
    }
    lemma_last_field_decides(lines, 0, at);
}

} // verus!
