//! Label sets: the names and values that tell the series of one metric apart.

use crate::encoding::Encode;
use crate::output::{Output, OutputError};
use vstd::prelude::*;
use vstd::string::*;

verus! {

/// The labels of a series as a sequence of names and values, each a text.
pub type Labels = Seq<(Seq<char>, Seq<char>)>;

/// The labels `pairs` as they stand between the braces of a sample line:
/// `name="value"` for each, in their order, with `,` between two.
pub open spec fn label_list(pairs: Labels) -> Seq<u8>
    decreases pairs.len(),
{
    if pairs.len() == 0 {
        Seq::empty()
    } else {
        label_list(pairs.drop_last()) + label_item(pairs.len() == 1, pairs.last())
    }
}

/// One label of a list: `name="value"`, behind a `,` unless it is the `first`.
pub open spec fn label_item(first: bool, pair: (Seq<char>, Seq<char>)) -> Seq<u8> {
    (if first {
        Seq::empty()
    } else {
        seq![44u8]
    }) + crate::encoding::label(
        vstd::utf8::encode_utf8(pair.0),
        vstd::utf8::encode_utf8(pair.1),
    )
}

/// Whether no name occurs twice in `pairs`.
pub open spec fn names_differ(pairs: Labels) -> bool {
    forall|i: int, j: int| 0 <= i < j < pairs.len() ==> pairs[i].0 != pairs[j].0
}

/// A set of labels that can be the key of a series in a family: it is a
/// sequence of names and values, writes itself as the list of them, and can be
/// compared and copied. Two label sets are the same key where they hold the
/// same names and values in the same order.
pub trait LabelSet: Encode + Sized {
    /// The names and values, in their order.
    spec fn pairs(&self) -> Labels;

    /// A label set is written as the list of its names and values.
    proof fn lemma_encoding(&self)
        ensures
            self.encoding() == label_list(self.pairs()),
    ;

    /// Whether `other` holds the same names and values in the same order.
    fn same_as(&self, other: &Self) -> (same: bool)
        ensures
            same == (self.pairs() == other.pairs()),
    ;

    /// A label set with the same names and values.
    fn duplicate(&self) -> (copy: Self)
        ensures
            copy.pairs() == self.pairs(),
    ;

    /// Whether no name occurs twice. Only such a label set can be the key of a
    /// series.
    fn has_distinct_names(&self) -> (distinct: bool)
        ensures
            distinct == names_differ(self.pairs()),
    ;
}

/// The names and values of `labels`.
pub open spec fn pairs_of(labels: Seq<(String, String)>) -> Labels {
    Seq::new(labels.len(), |i: int| (labels[i].0@, labels[i].1@))
}

/// The part of a label list that its first `k` labels make is what the list
/// begins with, and the next label follows it.
pub proof fn lemma_label_list_begins_with(pairs: Labels, k: int)
    requires
        0 <= k <= pairs.len(),
    ensures
        label_list(pairs.take(k)).is_prefix_of(label_list(pairs)),
        k < pairs.len() ==> label_list(pairs.take(k + 1)) == label_list(pairs.take(k))
            + label_item(k == 0, pairs[k]),
    decreases pairs.len(),
{
    if k == pairs.len() {
        assert(pairs.take(k) =~= pairs);
    } else {
        lemma_label_list_begins_with(pairs.drop_last(), k);
        assert(pairs.drop_last().take(k) =~= pairs.take(k));
        assert(pairs.take(k + 1).drop_last() =~= pairs.take(k));
        assert(pairs.take(k + 1).last() == pairs[k]);
    }
}

/// Writes one label of a list: `name="value"`, behind a `,` unless it is the
/// `first`.
fn encode_label_item(writer: &mut Output, first: bool, name: &str, value: &str) -> (r: Result<
    (),
    OutputError,
>)
    ensures
        Output::delivers(
            *old(writer),
            *final(writer),
            label_item(first, (name@, value@)),
            r is Ok,
        ),
{
    let ghost begin = *writer;
    let ghost item = label_item(first, (name@, value@));
    let ghost lead = if first {
        Seq::<u8>::empty()
    } else {
        seq![44u8]
    };
    let comma: [u8; 1] = [44];
    let quoted: [u8; 2] = [61, 34];
    let quote: [u8; 1] = [34];
    proof {
        assert(comma@ =~= seq![44u8]);
        assert(quoted@ =~= seq![61u8, 34u8]);
        assert(quote@ =~= seq![34u8]);
        assert(item =~= lead + name.spec_bytes() + seq![61u8, 34u8] + value.spec_bytes() + seq![
            34u8,
        ]);
        Output::lemma_delivers_nothing(begin);
        Output::lemma_delivers_after(begin, begin, Seq::empty(), lead, item);
        assert(Seq::<u8>::empty() + lead =~= lead);
    }
    if !first {
        if writer.write(comma.as_slice()).is_err() {
            return Err(OutputError);
        }
    }
    proof {
        Output::lemma_delivers_after(begin, *writer, lead, name.spec_bytes(), item);
    }
    if writer.write(name.as_bytes()).is_err() {
        return Err(OutputError);
    }
    proof {
        Output::lemma_delivers_after(
            begin,
            *writer,
            lead + name.spec_bytes(),
            seq![61u8, 34u8],
            item,
        );
    }
    if writer.write(quoted.as_slice()).is_err() {
        return Err(OutputError);
    }
    proof {
        Output::lemma_delivers_after(
            begin,
            *writer,
            lead + name.spec_bytes() + seq![61u8, 34u8],
            value.spec_bytes(),
            item,
        );
    }
    if writer.write(value.as_bytes()).is_err() {
        return Err(OutputError);
    }
    proof {
        Output::lemma_delivers_after(
            begin,
            *writer,
            lead + name.spec_bytes() + seq![61u8, 34u8] + value.spec_bytes(),
            seq![34u8],
            item,
        );
    }
    writer.write(quote.as_slice())
}

/// A list of names and values is a label set, written as
/// `name="value",name="value"`.
///
/// Nothing is escaped: a name or value that holds `"`, `\` or a line feed
/// is written byte for byte, and it is for the caller to keep such text out.
impl Encode for Vec<(String, String)> {
    open spec fn encoding(&self) -> Seq<u8> {
        label_list(pairs_of(self@))
    }

    fn encode(&self, writer: &mut Output) -> (r: Result<(), OutputError>) {
        let ghost begin = *writer;
        let ghost pairs = pairs_of(self@);
        let ghost all = label_list(pairs);
        let mut i: usize = 0;
        proof {
            Output::lemma_delivers_nothing(begin);
            assert(pairs.take(0) =~= Seq::empty());
        }
        while i < self.len()
            invariant
                i <= self@.len(),
                begin == *old(writer),
                pairs == pairs_of(self@),
                all == label_list(pairs),
                Output::delivers(begin, *writer, label_list(pairs.take(i as int)), true),
            decreases self@.len() - i,
        {
            proof {
                lemma_label_list_begins_with(pairs, i as int);
                lemma_label_list_begins_with(pairs, i + 1);
                Output::lemma_delivers_after(
                    begin,
                    *writer,
                    label_list(pairs.take(i as int)),
                    label_item(i == 0, pairs[i as int]),
                    all,
                );
            }
            let first = i == 0;
            if encode_label_item(writer, first, self[i].0.as_str(), self[i].1.as_str()).is_err() {
                return Err(OutputError);
            }
            i = i + 1;
        }
        proof {
            assert(pairs.take(i as int) =~= pairs);
        }
        Ok(())
    }
}

impl LabelSet for Vec<(String, String)> {
    open spec fn pairs(&self) -> Labels {
        pairs_of(self@)
    }

    proof fn lemma_encoding(&self) {
    }

    fn same_as(&self, other: &Self) -> (same: bool) {
        if self.len() != other.len() {
            assert(pairs_of(self@).len() != pairs_of(other@).len());
            return false;
        }
        let mut i: usize = 0;
        while i < self.len()
            invariant
                i <= self@.len(),
                self@.len() == other@.len(),
                forall|k: int| 0 <= k < i ==> pairs_of(self@)[k] == pairs_of(other@)[k],
            decreases self@.len() - i,
        {
            if !(self[i].0 == other[i].0 && self[i].1 == other[i].1) {
                assert(pairs_of(self@)[i as int] != pairs_of(other@)[i as int]);
                return false;
            }
            i = i + 1;
        }
        assert(pairs_of(self@) =~= pairs_of(other@));
        true
    }

    fn duplicate(&self) -> (copy: Self) {
        let mut copy: Vec<(String, String)> = Vec::new();
        let mut i: usize = 0;
        while i < self.len()
            invariant
                i <= self@.len(),
                copy@.len() == i,
                forall|k: int| 0 <= k < i ==> pairs_of(copy@)[k] == pairs_of(self@)[k],
            decreases self@.len() - i,
        {
            copy.push((self[i].0.clone(), self[i].1.clone()));
            i = i + 1;
        }
        assert(pairs_of(copy@) =~= pairs_of(self@));
        copy
    }

    fn has_distinct_names(&self) -> (distinct: bool) {
        let mut j: usize = 0;
        proof {
            assert(pairs_of(self@).take(0) =~= Seq::empty());
        }
        while j < self.len()
            invariant
                j <= self@.len(),
                names_differ(pairs_of(self@).take(j as int)),
            decreases self@.len() - j,
        {
            let mut i: usize = 0;
            while i < j
                invariant
                    i <= j < self@.len(),
                    forall|k: int|
                        0 <= k < i ==> pairs_of(self@)[k].0 != pairs_of(self@)[j as int].0,
                decreases j - i,
            {
                if self[i].0 == self[j].0 {
                    assert(pairs_of(self@)[i as int].0 == pairs_of(self@)[j as int].0);
                    return false;
                }
                i = i + 1;
            }
            proof {
                let upto = pairs_of(self@).take(j + 1);
                let before = pairs_of(self@).take(j as int);
                assert forall|a: int, b: int| 0 <= a < b < upto.len() implies upto[a].0
                    != upto[b].0 by {
                    if b < j {
                        assert(before[a].0 != before[b].0);
                    }
                }
            }
            j = j + 1;
        }
        assert(pairs_of(self@).take(j as int) =~= pairs_of(self@));
        true
    }
}

} // verus!
