//! A number that only grows.

use crate::encoding::{Encode, EncodeMetric, Encoder};
use crate::output::{Output, OutputError};
use vstd::prelude::*;
use vstd::string::*;

verus! {

/// A count of events. It starts at zero and is only ever added to.
///
/// The count is kept in 64 bits and nothing checks that a sum still fits: one
/// that does not wraps around, as the sum in a machine word does.
#[derive(Clone, Debug)]
pub struct Counter {
    value: u64,
}

/// The suffix of a counter's sample line: `total`.
pub open spec fn total() -> Seq<u8> {
    seq![116u8, 111u8, 116u8, 97u8, 108u8]
}

/// A count of `value` to which `n` is added, in 64 bits.
pub open spec fn added(value: u64, n: u64) -> u64 {
    if value + n <= u64::MAX {
        (value + n) as u64
    } else {
        (value + n - 0x1_0000_0000_0000_0000) as u64
    }
}

/// The count that is reached from `value` by adding the numbers of `steps` one
/// after the other.
pub open spec fn added_all(value: u64, steps: Seq<u64>) -> u64
    decreases steps.len(),
{
    if steps.len() == 0 {
        value
    } else {
        added(added_all(value, steps.drop_last()), steps.last())
    }
}

/// The sum of the numbers of `steps`.
pub open spec fn sum_of(steps: Seq<u64>) -> nat
    decreases steps.len(),
{
    if steps.len() == 0 {
        0
    } else {
        sum_of(steps.drop_last()) + steps.last() as nat
    }
}

impl View for Counter {
    type V = u64;

    /// The count.
    closed spec fn view(&self) -> u64 {
        self.value
    }
}

impl Counter {
    /// A counter at zero.
    pub fn new() -> (counter: Counter)
        ensures
            counter@ == 0,
    {
        Counter { value: 0 }
    }

    /// Adds one to the count.
    pub fn increment(&mut self)
        ensures
            final(self)@ == added(old(self)@, 1),
    {
        self.increment_by(1);
    }

    /// Adds `n` to the count.
    pub fn increment_by(&mut self, n: u64)
        ensures
            final(self)@ == added(old(self)@, n),
    {
        self.value = self.value.wrapping_add(n);
    }

    /// The count.
    pub fn get(&self) -> (value: u64)
        ensures
            value == self@,
    {
        self.value
    }
}

impl Default for Counter {
    fn default() -> (counter: Counter)
        ensures
            counter@ == 0,
    {
        Counter::new()
    }
}

/// The text `total` in bytes.
proof fn lemma_total_text()
    ensures
        "total".spec_bytes() == total(),
{
    reveal_strlit("total");
    assert("total"@ =~= seq!['t', 'o', 't', 'a', 'l']);
    assert(is_ascii("total"));
    is_ascii_spec_bytes("total");
    assert("total".spec_bytes() =~= total());
}

/// A counter is one line: the name with the suffix `total`, and the count.
impl EncodeMetric for Counter {
    open spec fn samples(&self, name: Seq<u8>, labels: Option<Seq<u8>>) -> Seq<u8> {
        crate::encoding::sample_line(
            name,
            Some(total()),
            labels,
            None,
            crate::encoding::decimal(self@ as nat),
        )
    }

    open spec fn fits(&self, labelled: bool) -> bool {
        true
    }

    fn encode<'a, 'b, L: Encode>(&self, encoder: Encoder<'a, 'b, L>) -> (r: Result<
        (),
        OutputError,
    >) {
        let mut encoder = encoder;
        let ghost start = *encoder.writer;
        let ghost head = crate::encoding::line_head(
            encoder.name.spec_bytes(),
            Some(total()),
            encoder.label_bytes(),
        );
        let ghost close = crate::encoding::labels_close(
            crate::encoding::labelled(encoder.label_bytes()),
            None,
        );
        let ghost value = crate::encoding::value_part(crate::encoding::decimal(self@ as nat));
        let ghost line = self.samples(encoder.name.spec_bytes(), encoder.label_bytes());
        proof {
            lemma_total_text();
            Output::lemma_delivers_nothing(start);
            Output::lemma_delivers_after(start, start, Seq::empty(), head, line);
            assert(Seq::<u8>::empty() + head =~= head);
        }
        let labels = match encoder.encode_suffix("total") {
            Ok(next) => next,
            Err(e) => {
                return Err(e);
            },
        };
        proof {
            Output::lemma_delivers_after(start, *labels.writer, head, close, line);
        }
        let last = match labels.no_bucket() {
            Ok(next) => next,
            Err(e) => {
                return Err(e);
            },
        };
        proof {
            Output::lemma_delivers_after(start, *last.writer, head + close, value, line);
        }
        last.encode_value(self.get())
    }
}

/// Adding to a counter never lowers the count, as long as the sum fits in 64
/// bits: of the counts reached on the way through `steps`, a later one is at
/// least as large as an earlier one.
pub proof fn lemma_counter_never_decreases(value: u64, steps: Seq<u64>, i: int, j: int)
    requires
        value + sum_of(steps) <= u64::MAX,
        0 <= i <= j <= steps.len(),
    ensures
        added_all(value, steps.take(i)) <= added_all(value, steps.take(j)),
        added_all(value, steps.take(j)) == value + sum_of(steps.take(j)),
{
    lemma_sum_of_prefix(steps, j);
    lemma_sum_of_prefix(steps, i);
    lemma_added_all_is_sum(value, steps.take(j));
    lemma_added_all_is_sum(value, steps.take(i));
    lemma_sum_of_prefix(steps.take(j), i);
    assert(steps.take(j).take(i) =~= steps.take(i));
}

/// The sum of a prefix is at most the sum of the whole.
proof fn lemma_sum_of_prefix(steps: Seq<u64>, k: int)
    requires
        0 <= k <= steps.len(),
    ensures
        sum_of(steps.take(k)) <= sum_of(steps),
    decreases steps.len(),
{
    if k == steps.len() {
        assert(steps.take(k) =~= steps);
    } else {
        lemma_sum_of_prefix(steps.drop_last(), k);
        assert(steps.drop_last().take(k) =~= steps.take(k));
    }
}

/// Where the sum fits, adding step by step gives the sum.
proof fn lemma_added_all_is_sum(value: u64, steps: Seq<u64>)
    requires
        value + sum_of(steps) <= u64::MAX,
    ensures
        added_all(value, steps) == value + sum_of(steps),
    decreases steps.len(),
{
    if steps.len() > 0 {
        lemma_added_all_is_sum(value, steps.drop_last());
    }
}

} // verus!
