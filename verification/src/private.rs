//! What the producing and the consuming side share: the placement that
//! stands in the queue for a value, and the numbering of the queue files.

use crate::deque;
use crate::sender::SenderSync;
use vstd::prelude::*;

verus! {

/// Where a queued value lives.
#[derive(Debug)]
pub enum Placement<T> {
    /// The value itself, held in memory.
    Memory(T),
    /// A run of this many records in the queue files.
    Disk(usize),
}

/// The queue between the two sides: placements in the ring, the producers'
/// shared state at its back.
pub type Queue<T> = deque::Queue<Placement<T>, SenderSync>;

impl<T> Placement<T> {
    /// The value of a memory placement; nothing for a disk run.
    pub fn extract(self) -> (r: Option<T>)
        ensures
            r == match self {
                Placement::Memory(elem) => Some(elem),
                Placement::Disk(_) => None,
            },
    {
        match self {
            Placement::Memory(elem) => Some(elem),
            Placement::Disk(_) => None,
        }
    }
}

/// Whether `byte` is a decimal digit.
pub open spec fn is_digit(byte: u8) -> bool {
    0x30 <= byte <= 0x39
}

/// The number that `digits` spell in decimal.
pub open spec fn decimal(digits: Seq<u8>) -> nat
    decreases digits.len(),
{
    if digits.len() == 0 {
        0
    } else {
        decimal(digits.drop_last()) * 10 + (digits.last() - 0x30) as nat
    }
}

/// The digits of a file name: the name without a plus sign in front.
pub open spec fn digits_of(name: Seq<u8>) -> Seq<u8> {
    if name.len() > 0 && name[0] == 0x2b {
        name.drop_first()
    } else {
        name
    }
}

/// The sequence number that the file name `name` spells: it is made of
/// decimal digits, at least one, after at most one plus sign, and the
/// number fits the machine. How many zeros lead it does not matter.
pub open spec fn seq_num_of(name: Seq<u8>) -> Option<usize> {
    let digits = digits_of(name);
    if digits.len() > 0 && (forall|i: int| 0 <= i < digits.len() ==> is_digit(#[trigger] digits[i]))
        && decimal(digits) <= usize::MAX {
        Some(decimal(digits) as usize)
    } else {
        None
    }
}

/// The sequence number that the name of the file `name` spells.
pub open spec fn file_seq_num(name: Seq<char>) -> Option<usize> {
    seq_num_of(vstd::utf8::encode_utf8(name))
}

/// The sequence number after `seq_num`; the last one is followed by the
/// first.
pub open spec fn next_seq(seq_num: usize) -> usize {
    if seq_num == usize::MAX {
        0
    } else {
        (seq_num + 1) as usize
    }
}

/// Digits spell no less than the digits they begin with.
proof fn lemma_decimal_grows(digits: Seq<u8>, upto: int)
    requires
        0 <= upto <= digits.len(),
        forall|i: int| 0 <= i < digits.len() ==> is_digit(#[trigger] digits[i]),
    ensures
        decimal(digits.take(upto)) <= decimal(digits),
    decreases digits.len() - upto,
{
    if upto < digits.len() {
        lemma_decimal_grows(digits, upto + 1);
        let longer = digits.take(upto + 1);
        assert(longer.drop_last() =~= digits.take(upto));
        assert(is_digit(digits[upto]));
        assert(longer.last() == digits[upto]);
    } else {
        assert(digits.take(upto) =~= digits);
    }
}

/// The sequence number that the file name `name` spells, if it spells one.
pub fn parse_seq_num(name: &str) -> (r: Option<usize>)
    ensures
        r == file_seq_num(name@),
{
    let bytes = name.as_bytes();
    let start: usize = if bytes.len() > 0 && bytes[0] == 0x2b {
        1
    } else {
        0
    };
    if start == bytes.len() {
        return None;
    }
    let ghost digits = digits_of(bytes@);
    assert(digits =~= bytes@.skip(start as int));
    let mut value: usize = 0;
    let mut i: usize = start;
    while i < bytes.len()
        invariant
            start <= i <= bytes.len(),
            bytes@ == vstd::utf8::encode_utf8(name@),
            digits == digits_of(bytes@),
            digits == bytes@.skip(start as int),
            forall|k: int| 0 <= k < i - start ==> is_digit(#[trigger] digits[k]),
            value == decimal(digits.take(i - start)),
        decreases bytes.len() - i,
    {
        let byte = bytes[i];
        if byte < 0x30 || byte > 0x39 {
            assert(!is_digit(digits[i - start]));
            return None;
        }
        let digit: usize = (byte - 0x30) as usize;
        proof {
            let longer = digits.take(i - start + 1);
            assert(longer.drop_last() =~= digits.take(i - start));
            assert(longer.last() == byte);
            assert(decimal(longer) == value * 10 + digit);
            if value * 10 + digit > usize::MAX {
                if forall|k: int| 0 <= k < digits.len() ==> is_digit(#[trigger] digits[k]) {
                    lemma_decimal_grows(digits, i - start + 1);
                }
            }
        }
        if value > (usize::MAX - digit) / 10 {
            return None;
        }
        value = value * 10 + digit;
        i += 1;
    }
    assert(digits.take(i - start) =~= digits);
    Some(value)
}

/// The sequence number after `seq_num`, which the file has that is written
/// next, and read next.
pub fn successor(seq_num: usize) -> (r: usize)
    ensures
        r == next_seq(seq_num),
{
    seq_num.wrapping_add(1)
}

/// The largest sequence number among the files named `names`, for the file
/// that is written to; with no file it is zero. Nothing comes back if a
/// name spells no sequence number.
pub fn read_seq_num(names: &Vec<String>) -> (r: Option<usize>)
    ensures
        r.is_some() <==> forall|i: int|
            0 <= i < names.len() ==> (#[trigger] file_seq_num(names[i]@)).is_some(),
        r matches Some(max) ==> {
            &&& forall|i: int|
                0 <= i < names.len() ==> (#[trigger] file_seq_num(names[i]@)).unwrap() <= max
            &&& max == 0 || exists|i: int|
                0 <= i < names.len() && #[trigger] file_seq_num(names[i]@) == Some(max)
        },
{
    let mut max: usize = 0;
    let mut i: usize = 0;
    while i < names.len()
        invariant
            i <= names.len(),
            forall|k: int| 0 <= k < i ==> (#[trigger] file_seq_num(names[k]@)).is_some(),
            forall|k: int| 0 <= k < i ==> (#[trigger] file_seq_num(names[k]@)).unwrap() <= max,
            max == 0 || exists|k: int| 0 <= k < i && #[trigger] file_seq_num(names[k]@) == Some(max),
        decreases names.len() - i,
    {
        match parse_seq_num(names[i].as_str()) {
            None => {
                return None;
            },
            Some(num) => {
                assert(file_seq_num(names[i as int]@) == Some(num));
                if num > max {
                    max = num;
                }
            },
        }
        i += 1;
    }
    Some(max)
}

/// The smallest sequence number among the files named `names`, for the
/// file that is read. Nothing comes back if there is no file, or if a name
/// spells no sequence number.
pub fn read_seq_num_min(names: &Vec<String>) -> (r: Option<usize>)
    ensures
        r.is_some() <==> names.len() > 0 && forall|i: int|
            0 <= i < names.len() ==> (#[trigger] file_seq_num(names[i]@)).is_some(),
        r matches Some(min) ==> {
            &&& forall|i: int|
                0 <= i < names.len() ==> min <= (#[trigger] file_seq_num(names[i]@)).unwrap()
            &&& exists|i: int|
                0 <= i < names.len() && #[trigger] file_seq_num(names[i]@) == Some(min)
        },
{
    let mut min: usize = usize::MAX;
    let mut worked = false;
    let mut i: usize = 0;
    let ghost mut at: int = 0;
    while i < names.len()
        invariant
            i <= names.len(),
            worked == (i > 0),
            forall|k: int| 0 <= k < i ==> (#[trigger] file_seq_num(names[k]@)).is_some(),
            forall|k: int| 0 <= k < i ==> min <= (#[trigger] file_seq_num(names[k]@)).unwrap(),
            !worked ==> min == usize::MAX,
            worked ==> 0 <= at < i && file_seq_num(names[at]@) == Some(min),
        decreases names.len() - i,
    {
        match parse_seq_num(names[i].as_str()) {
            None => {
                return None;
            },
            Some(num) => {
                assert(file_seq_num(names[i as int]@) == Some(num));
                proof {
                    if !worked || num < min {
                        at = i as int;
                    }
                }
                worked = true;
                if num < min {
                    min = num;
                }
            },
        }
        i += 1;
    }
    if worked {
        Some(min)
    } else {
        None
    }
}

} // verus!
