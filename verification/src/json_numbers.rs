use vstd::prelude::*;

verus! {

/// The longest run of digits that a number in JSON data may have: what a 32-bit
/// counter can count.
pub const MAX_DIGITS: u32 = 0x7fff_ffff;

/// Where a walk over JSON data has come to.
pub struct Walk {
    /// Inside a string.
    pub in_string: bool,
    /// Inside a string, right behind a backslash.
    pub escaped: bool,
    /// How many digits, outside strings, stand right before.
    pub digits: nat,
    /// Some run of digits was longer than [`MAX_DIGITS`].
    pub too_long: bool,
}

impl Walk {
    /// The walk, one byte farther.
    pub open spec fn step(self, b: u8) -> Walk {
        if self.in_string {
            Walk {
                in_string: self.escaped || b != 34,
                escaped: !self.escaped && b == 92,
                digits: 0,
                too_long: self.too_long,
            }
        } else {
            let digits = if 48 <= b <= 57 {
                self.digits + 1
            } else {
                0
            };
            Walk {
                in_string: b == 34,
                escaped: false,
                digits,
                too_long: self.too_long || digits > MAX_DIGITS,
            }
        }
    }
}

/// The walk over the whole of the data.
pub open spec fn walked(bytes: Seq<u8>) -> Walk
    decreases bytes.len(),
{
    if bytes.len() == 0 {
        Walk { in_string: false, escaped: false, digits: 0, too_long: false }
    } else {
        walked(bytes.drop_last()).step(bytes.last())
    }
}

/// No number has more digits than [`MAX_DIGITS`]. Strings are passed over.
pub open spec fn numbers_countable(bytes: Seq<u8>) -> bool {
    !walked(bytes).too_long
}

/// Once a run of digits was too long, that stays.
proof fn lemma_too_long_stays(bytes: Seq<u8>, i: int)
    requires
        0 <= i <= bytes.len(),
        walked(bytes.take(i)).too_long,
    ensures
        walked(bytes).too_long,
    decreases bytes.len() - i,
{
    if i == bytes.len() {
        assert(bytes.take(i) =~= bytes);
    } else {
        assert(bytes.take(i + 1).drop_last() =~= bytes.take(i));
        lemma_too_long_stays(bytes, i + 1);
    }
}

/// Whether no number has more digits than [`MAX_DIGITS`].
pub fn has_countable_numbers(bytes: &[u8]) -> (r: bool)
    ensures
        r == numbers_countable(bytes@),
{
    let mut in_string: bool = false;
    let mut escaped: bool = false;
    let mut digits: u32 = 0;
    let mut i: usize = 0;
    assert(bytes@.take(0) =~= Seq::<u8>::empty());
    while i < bytes.len()
        invariant
            i <= bytes@.len(),
            digits <= MAX_DIGITS,
            walked(bytes@.take(i as int)) == (Walk {
                in_string,
                escaped,
                digits: digits as nat,
                too_long: false,
            }),
        decreases bytes@.len() - i,
    {
        let b: u8 = bytes[i];
        proof {
            assert(bytes@.take(i + 1).drop_last() =~= bytes@.take(i as int));
            assert(bytes@.take(i + 1).last() == b);
        }
        if in_string {
            in_string = escaped || b != 34;
            escaped = !escaped && b == 92;
            digits = 0;
        } else {
            in_string = b == 34;
            if 48 <= b && b <= 57 {
                if digits == MAX_DIGITS {
                    proof {
                        lemma_too_long_stays(bytes@, i + 1);
                    }
                    return false;
                }
                digits = digits + 1;
            } else {
                digits = 0;
            }
        }
        i = i + 1;
    }
    assert(bytes@.take(i as int) =~= bytes@);
    true
}

/// The `count` bytes in front of `end` are digits.
pub open spec fn is_run(bytes: Seq<u8>, end: int, count: int) -> bool {
    &&& 0 <= count <= end <= bytes.len()
    &&& forall|i: int| end - count <= i < end ==> 48 <= #[trigger] bytes[i] <= 57
}

proof fn lemma_digits_are_a_run(bytes: Seq<u8>)
    ensures
        is_run(bytes, bytes.len() as int, walked(bytes).digits as int),
        walked(bytes).too_long ==> exists|end: int| #[trigger]
            is_run(bytes, end, MAX_DIGITS + 1),
    decreases bytes.len(),
{
    if bytes.len() > 0 {
        let before = bytes.drop_last();
        let n = before.len() as int;
        lemma_digits_are_a_run(before);
        let count = walked(before).digits as int;
        assert forall|i: int| n - count <= i < n implies 48 <= #[trigger] bytes[i] <= 57 by {
            assert(before[i] == bytes[i]);
        }
        if walked(before).too_long {
            let end = choose|end: int| #[trigger] is_run(before, end, MAX_DIGITS + 1);
            assert forall|i: int| end - (MAX_DIGITS + 1) <= i < end implies 48
                <= #[trigger] bytes[i] <= 57 by {
                assert(before[i] == bytes[i]);
            }
            assert(is_run(bytes, end, MAX_DIGITS + 1));
        } else if walked(bytes).too_long {
            assert(is_run(bytes, n + 1, walked(bytes).digits as int));
            assert(is_run(bytes, n + 1, MAX_DIGITS + 1));
        }
    }
}

/// Only a run of more than [`MAX_DIGITS`] digits keeps data from being read, so that all
/// data of at most that many bytes is read.
pub proof fn law_only_long_runs_count(bytes: Seq<u8>)
    ensures
        !numbers_countable(bytes) ==> exists|end: int| #[trigger]
            is_run(bytes, end, MAX_DIGITS + 1),
        bytes.len() <= MAX_DIGITS ==> numbers_countable(bytes),
{
    lemma_digits_are_a_run(bytes);
}

/// A run of more than [`MAX_DIGITS`] digits in data without quotation marks, where no digit
/// belongs to a string, keeps it from being read.
pub proof fn law_long_run_is_noticed(bytes: Seq<u8>, end: int)
    requires
        forall|i: int| 0 <= i < bytes.len() ==> #[trigger] bytes[i] != 34,
        is_run(bytes, end, MAX_DIGITS + 1),
    ensures
        !numbers_countable(bytes),
{
    let start = bytes.take(end);
    lemma_run_is_counted(start, MAX_DIGITS + 1);
    lemma_too_long_stays(bytes, end);
}

proof fn lemma_run_is_counted(bytes: Seq<u8>, count: int)
    requires
        forall|i: int| 0 <= i < bytes.len() ==> #[trigger] bytes[i] != 34,
        is_run(bytes, bytes.len() as int, count),
    ensures
        !walked(bytes).in_string,
        walked(bytes).digits >= count,
        walked(bytes).digits > MAX_DIGITS ==> walked(bytes).too_long,
    decreases bytes.len(),
{
    if bytes.len() > 0 {
        let before = bytes.drop_last();
        let n = before.len() as int;
        assert forall|i: int| 0 <= i < n implies #[trigger] before[i] != 34 by {
            assert(before[i] == bytes[i]);
        }
        let fewer = if count > 0 {
            count - 1
        } else {
            0
        };
        assert forall|i: int| n - fewer <= i < n implies 48 <= #[trigger] before[i] <= 57 by {
            assert(before[i] == bytes[i]);
        }
        lemma_run_is_counted(before, fewer);
        assert(bytes.last() == bytes[n]);
    }
}

} // verus!
