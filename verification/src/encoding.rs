//! Writing values and sample lines to an output.

use crate::output::{Output, OutputError};
use crate::registry::{Descriptor, MetricType, Registry};
use vstd::prelude::*;
use vstd::string::*;

verus! {

/// A value that can write itself to an output: a number, a piece of text, a
/// label set.
pub trait Encode {
    /// The bytes that stand for this value in a document.
    spec fn encoding(&self) -> Seq<u8>;

    /// Writes the value to `writer`.
    fn encode(&self, writer: &mut Output) -> (r: Result<(), OutputError>)
        ensures
            Output::delivers(*old(writer), *final(writer), self.encoding(), r is Ok),
    ;
}

/// The digits of `n` in base ten, without leading zeros.
pub open spec fn decimal(n: nat) -> Seq<u8>
    decreases n,
{
    if n < 10 {
        seq![(48 + n) as u8]
    } else {
        decimal(n / 10).push((48 + n % 10) as u8)
    }
}

/// Appends the decimal digits of `n` to `digits`.
pub fn push_decimal(n: u64, digits: &mut Vec<u8>)
    ensures
        final(digits)@ == old(digits)@ + decimal(n as nat),
    decreases n,
{
    if n >= 10 {
        push_decimal(n / 10, digits);
    }
    let last: u8 = (n % 10) as u8;
    digits.push(48 + last);
    assert(digits@ =~= old(digits)@ + decimal(n as nat));
}

/// Nothing at all: the label set of a series without labels.
impl Encode for () {
    open spec fn encoding(&self) -> Seq<u8> {
        Seq::empty()
    }

    fn encode(&self, writer: &mut Output) -> (r: Result<(), OutputError>) {
        proof {
            Output::lemma_delivers_nothing(*writer);
        }
        Ok(())
    }
}

/// A whole number is written in decimal.
impl Encode for u64 {
    open spec fn encoding(&self) -> Seq<u8> {
        decimal(*self as nat)
    }

    fn encode(&self, writer: &mut Output) -> (r: Result<(), OutputError>) {
        let mut digits: Vec<u8> = Vec::new();
        push_decimal(*self, &mut digits);
        assert(digits@ =~= decimal(*self as nat));
        writer.write(digits.as_slice())
    }
}

/// Text is written as it is, in UTF-8, with nothing escaped.
impl<'t> Encode for &'t str {
    open spec fn encoding(&self) -> Seq<u8> {
        self.spec_bytes()
    }

    fn encode(&self, writer: &mut Output) -> (r: Result<(), OutputError>) {
        writer.write(self.as_bytes())
    }
}

/// The name that a sample line begins with: `name`, or `name_suffix`.
pub open spec fn series_name(name: Seq<u8>, suffix: Option<Seq<u8>>) -> Seq<u8> {
    match suffix {
        Some(s) => name + seq![95u8] + s,
        None => name,
    }
}

/// Whether a series with the label set `labels` has a label: it has a label
/// set, and one that is not empty.
pub open spec fn labelled(labels: Option<Seq<u8>>) -> bool {
    match labels {
        Some(l) => l.len() > 0,
        None => false,
    }
}

/// How the label block of a line begins: with `{` and the labels of the series,
/// where it has any, and else not at all.
pub open spec fn labels_open(labels: Option<Seq<u8>>) -> Seq<u8> {
    match labels {
        Some(l) => if l.len() > 0 {
            seq![123u8] + l
        } else {
            Seq::empty()
        },
        None => Seq::empty(),
    }
}

/// A label as it stands in a label block: `key="value"`.
pub open spec fn label(key: Seq<u8>, value: Seq<u8>) -> Seq<u8> {
    key + seq![61u8, 34u8] + value + seq![34u8]
}

/// How the label block of a line ends. A bucket label comes last, behind `,`
/// where the block is `opened` already and behind `{` where it is not, and `}`
/// follows it. Without a bucket label `}` closes a block that is `opened`, and
/// a line without labels has no block.
pub open spec fn labels_close(opened: bool, bucket: Option<(Seq<u8>, Seq<u8>)>) -> Seq<u8> {
    match bucket {
        Some((key, value)) => (if opened {
            seq![44u8]
        } else {
            seq![123u8]
        }) + label(key, value) + seq![125u8],
        None => if opened {
            seq![125u8]
        } else {
            Seq::empty()
        },
    }
}

/// How a line ends: a space, the value and a line feed.
pub open spec fn value_part(value: Seq<u8>) -> Seq<u8> {
    seq![32u8] + value + seq![10u8]
}

/// A line up to its bucket label: the name and the start of the label block.
pub open spec fn line_head(name: Seq<u8>, suffix: Option<Seq<u8>>, labels: Option<Seq<u8>>) -> Seq<
    u8,
> {
    series_name(name, suffix) + labels_open(labels)
}

/// One sample line: `name[_suffix][{label,...}] value` and a line feed. It
/// has a label block where the series has a label or the line a bucket label,
/// and then one block for both.
pub open spec fn sample_line(
    name: Seq<u8>,
    suffix: Option<Seq<u8>>,
    labels: Option<Seq<u8>>,
    bucket: Option<(Seq<u8>, Seq<u8>)>,
    value: Seq<u8>,
) -> Seq<u8> {
    line_head(name, suffix, labels) + labels_close(labelled(labels), bucket) + value_part(value)
}

/// The first stage of a sample line, and what every line of one series shares:
/// the output, the name of the metric and the labels of the series.
///
/// Each line is written in three steps, and each step hands out the value with
/// which alone the next step can be made: the name (with or without a suffix),
/// then the end of the label block (with or without a bucket label), then the
/// value. The last two steps use up the value that they are made with, so
/// that no line ends twice or holds two label blocks.
///
/// The fields of the stages can be read, for the contracts speak of them. A
/// stage cannot be made outside this library but by the step before it.
#[non_exhaustive]
pub struct Encoder<'a, 'b, S> {
    pub writer: &'a mut Output,
    pub name: &'a str,
    pub labels: Option<&'b S>,
}

/// The second stage of a sample line: the name is written and the label block
/// is opened where the series has labels.
#[must_use]
#[non_exhaustive]
pub struct BucketEncoder<'a> {
    pub writer: &'a mut Output,
    pub opened_curly_brackets: bool,
}

/// The last stage of a sample line: only the value is missing.
#[must_use]
#[non_exhaustive]
pub struct ValueEncoder<'a> {
    pub writer: &'a mut Output,
}

impl<'a, 'b, S: Encode> Encoder<'a, 'b, S> {
    /// The labels of the series as they stand in a label block, if it has any.
    pub open spec fn label_bytes(&self) -> Option<Seq<u8>> {
        match self.labels {
            Some(labels) => Some(labels.encoding()),
            None => None,
        }
    }

    /// An encoder for the lines of the metric `name`, without labels.
    pub fn new(writer: &'a mut Output, name: &'a str) -> (encoder: Self)
        ensures
            *encoder.writer == *old(writer),
            *final(encoder.writer) == *final(writer),
            encoder.name == name,
            encoder.labels is None,
    {
        Encoder { writer, name, labels: None }
    }

    /// Begins a line with the name of the metric, `_` and `suffix`.
    pub fn encode_suffix<'c>(&'c mut self, suffix: &'static str) -> (r: Result<
        BucketEncoder<'c>,
        OutputError,
    >)
        ensures
            final(self).name == old(self).name,
            final(self).labels == old(self).labels,
            *final(final(self).writer) == *final(old(self).writer),
            match r {
                Ok(next) => {
                    &&& Output::delivers(
                        *old(self).writer,
                        *next.writer,
                        line_head(
                            old(self).name.spec_bytes(),
                            Some(suffix.spec_bytes()),
                            old(self).label_bytes(),
                        ),
                        true,
                    )
                    &&& *final(next.writer) == *final(self).writer
                    &&& next.opened_curly_brackets == labelled(old(self).label_bytes())
                },
                Err(_) => Output::delivers(
                    *old(self).writer,
                    *final(self).writer,
                    line_head(
                        old(self).name.spec_bytes(),
                        Some(suffix.spec_bytes()),
                        old(self).label_bytes(),
                    ),
                    false,
                ),
            },
    {
        let ghost start = *self.writer;
        let ghost name = self.name.spec_bytes();
        let ghost open = labels_open(self.label_bytes());
        let ghost head = line_head(name, Some(suffix.spec_bytes()), self.label_bytes());
        let underscore: [u8; 1] = [95];
        proof {
            assert(underscore@ =~= seq![95u8]);
            assert(head =~= name + seq![95u8] + suffix.spec_bytes() + open);
            Output::lemma_delivers_nothing(start);
            Output::lemma_delivers_after(start, start, Seq::empty(), name, head);
            assert(Seq::<u8>::empty() + name =~= name);
        }
        if self.writer.write(self.name.as_bytes()).is_err() {
            return Err(OutputError);
        }
        proof {
            Output::lemma_delivers_after(start, *self.writer, name, seq![95u8], head);
        }
        if self.writer.write(underscore.as_slice()).is_err() {
            return Err(OutputError);
        }
        proof {
            Output::lemma_delivers_after(
                start,
                *self.writer,
                name + seq![95u8],
                suffix.spec_bytes(),
                head,
            );
        }
        if self.writer.write(suffix.as_bytes()).is_err() {
            return Err(OutputError);
        }
        proof {
            Output::lemma_delivers_after(
                start,
                *self.writer,
                name + seq![95u8] + suffix.spec_bytes(),
                open,
                head,
            );
        }
        self.encode_labels()
    }

    /// Begins a line with the name of the metric alone.
    pub fn no_suffix<'c>(&'c mut self) -> (r: Result<BucketEncoder<'c>, OutputError>)
        ensures
            final(self).name == old(self).name,
            final(self).labels == old(self).labels,
            *final(final(self).writer) == *final(old(self).writer),
            match r {
                Ok(next) => {
                    &&& Output::delivers(
                        *old(self).writer,
                        *next.writer,
                        line_head(old(self).name.spec_bytes(), None, old(self).label_bytes()),
                        true,
                    )
                    &&& *final(next.writer) == *final(self).writer
                    &&& next.opened_curly_brackets == labelled(old(self).label_bytes())
                },
                Err(_) => Output::delivers(
                    *old(self).writer,
                    *final(self).writer,
                    line_head(old(self).name.spec_bytes(), None, old(self).label_bytes()),
                    false,
                ),
            },
    {
        let ghost start = *self.writer;
        let ghost name = self.name.spec_bytes();
        let ghost open = labels_open(self.label_bytes());
        let ghost head = line_head(name, None, self.label_bytes());
        proof {
            Output::lemma_delivers_nothing(start);
            Output::lemma_delivers_after(start, start, Seq::empty(), name, head);
            assert(Seq::<u8>::empty() + name =~= name);
        }
        if self.writer.write(self.name.as_bytes()).is_err() {
            return Err(OutputError);
        }
        proof {
            Output::lemma_delivers_after(start, *self.writer, name, open, head);
        }
        self.encode_labels()
    }

    /// Begins the label block of a line, where the series has a label.
    pub fn encode_labels<'c>(&'c mut self) -> (r: Result<BucketEncoder<'c>, OutputError>)
        ensures
            final(self).name == old(self).name,
            final(self).labels == old(self).labels,
            *final(final(self).writer) == *final(old(self).writer),
            match r {
                Ok(next) => {
                    &&& Output::delivers(
                        *old(self).writer,
                        *next.writer,
                        labels_open(old(self).label_bytes()),
                        true,
                    )
                    &&& *final(next.writer) == *final(self).writer
                    &&& next.opened_curly_brackets == labelled(old(self).label_bytes())
                },
                Err(_) => Output::delivers(
                    *old(self).writer,
                    *final(self).writer,
                    labels_open(old(self).label_bytes()),
                    false,
                ),
            },
    {
        let ghost start = *self.writer;
        match self.labels {
            Some(labels) => {
                // An empty label set is found out by writing it where one
                // byte fits.
                let mut probe = Output::with_limit(1);
                let _ = labels.encode(&mut probe);
                if probe.as_bytes().len() == 0 {
                    proof {
                        Output::lemma_delivers_nothing(start);
                    }
                    return Ok(
                        BucketEncoder { opened_curly_brackets: false, writer: &mut *self.writer },
                    );
                }
                let ghost open = labels_open(self.label_bytes());
                let brace: [u8; 1] = [123];
                proof {
                    assert(brace@ =~= seq![123u8]);
                    Output::lemma_delivers_nothing(start);
                    Output::lemma_delivers_after(start, start, Seq::empty(), seq![123u8], open);
                    assert(Seq::<u8>::empty() + seq![123u8] =~= seq![123u8]);
                }
                if self.writer.write(brace.as_slice()).is_err() {
                    return Err(OutputError);
                }
                proof {
                    Output::lemma_delivers_after(
                        start,
                        *self.writer,
                        seq![123u8],
                        labels.encoding(),
                        open,
                    );
                }
                if labels.encode(self.writer).is_err() {
                    return Err(OutputError);
                }
                Ok(BucketEncoder { opened_curly_brackets: true, writer: &mut *self.writer })
            },
            None => {
                proof {
                    Output::lemma_delivers_nothing(start);
                }
                Ok(BucketEncoder { opened_curly_brackets: false, writer: &mut *self.writer })
            },
        }
    }
    /// The same output and name for a series with the labels `label_set`. The
    /// encoder that it is made from has no labels.
    pub fn with_label_set<'c, 'd, NewLabelSet: Encode>(
        &'c mut self,
        label_set: &'d NewLabelSet,
    ) -> (encoder: Encoder<'c, 'd, NewLabelSet>)
        requires
            old(self).labels is None,
        ensures
            final(self).name == old(self).name,
            final(self).labels == old(self).labels,
            *final(final(self).writer) == *final(old(self).writer),
            *encoder.writer == *old(self).writer,
            *final(encoder.writer) == *final(self).writer,
            encoder.name == old(self).name,
            encoder.labels == Some(label_set),
    {
        Encoder { writer: &mut *self.writer, name: self.name, labels: Some(label_set) }
    }
}

impl<'a> BucketEncoder<'a> {
    /// Ends the label block with the bucket label `key="value"`.
    pub fn encode_bucket<K: Encode, V: Encode>(self, key: K, value: V) -> (r: Result<
        ValueEncoder<'a>,
        OutputError,
    >)
        ensures
            match r {
                Ok(next) => {
                    &&& Output::delivers(
                        *old(self.writer),
                        *next.writer,
                        labels_close(
                            self.opened_curly_brackets,
                            Some((key.encoding(), value.encoding())),
                        ),
                        true,
                    )
                    &&& *final(next.writer) == *final(self.writer)
                },
                Err(_) => Output::delivers(
                    *old(self.writer),
                    *final(self.writer),
                    labels_close(
                        self.opened_curly_brackets,
                        Some((key.encoding(), value.encoding())),
                    ),
                    false,
                ),
            },
    {
        let ghost start = *self.writer;
        let ghost first = if self.opened_curly_brackets {
            seq![44u8]
        } else {
            seq![123u8]
        };
        let ghost close = labels_close(
            self.opened_curly_brackets,
            Some((key.encoding(), value.encoding())),
        );
        let comma: [u8; 1] = [44];
        let brace: [u8; 1] = [123];
        let quoted: [u8; 2] = [61, 34];
        let end: [u8; 2] = [34, 125];
        proof {
            assert(comma@ =~= seq![44u8]);
            assert(brace@ =~= seq![123u8]);
            assert(quoted@ =~= seq![61u8, 34u8]);
            assert(end@ =~= seq![34u8, 125u8]);
            assert(close =~= first + key.encoding() + seq![61u8, 34u8] + value.encoding() + seq![
                34u8,
                125u8,
            ]);
            Output::lemma_delivers_nothing(start);
            Output::lemma_delivers_after(start, start, Seq::empty(), first, close);
            assert(Seq::<u8>::empty() + first =~= first);
        }
        let written = if self.opened_curly_brackets {
            self.writer.write(comma.as_slice())
        } else {
            self.writer.write(brace.as_slice())
        };
        if written.is_err() {
            return Err(OutputError);
        }
        proof {
            Output::lemma_delivers_after(start, *self.writer, first, key.encoding(), close);
        }
        if key.encode(self.writer).is_err() {
            return Err(OutputError);
        }
        proof {
            Output::lemma_delivers_after(
                start,
                *self.writer,
                first + key.encoding(),
                seq![61u8, 34u8],
                close,
            );
        }
        if self.writer.write(quoted.as_slice()).is_err() {
            return Err(OutputError);
        }
        proof {
            Output::lemma_delivers_after(
                start,
                *self.writer,
                first + key.encoding() + seq![61u8, 34u8],
                value.encoding(),
                close,
            );
        }
        if value.encode(self.writer).is_err() {
            return Err(OutputError);
        }
        proof {
            Output::lemma_delivers_after(
                start,
                *self.writer,
                first + key.encoding() + seq![61u8, 34u8] + value.encoding(),
                seq![34u8, 125u8],
                close,
            );
        }
        if self.writer.write(end.as_slice()).is_err() {
            return Err(OutputError);
        }
        Ok(ValueEncoder { writer: self.writer })
    }

    /// Ends the label block, if there is one, without a bucket label.
    pub fn no_bucket(self) -> (r: Result<ValueEncoder<'a>, OutputError>)
        ensures
            match r {
                Ok(next) => {
                    &&& Output::delivers(
                        *old(self.writer),
                        *next.writer,
                        labels_close(self.opened_curly_brackets, None),
                        true,
                    )
                    &&& *final(next.writer) == *final(self.writer)
                },
                Err(_) => Output::delivers(
                    *old(self.writer),
                    *final(self.writer),
                    labels_close(self.opened_curly_brackets, None),
                    false,
                ),
            },
    {
        if self.opened_curly_brackets {
            let brace: [u8; 1] = [125];
            proof {
                assert(brace@ =~= seq![125u8]);
            }
            if self.writer.write(brace.as_slice()).is_err() {
                return Err(OutputError);
            }
        } else {
            proof {
                Output::lemma_delivers_nothing(*self.writer);
            }
        }
        Ok(ValueEncoder { writer: self.writer })
    }
}

impl<'a> ValueEncoder<'a> {
    /// Ends the line with a space, the value `v` and a line feed.
    pub fn encode_value<V: Encode>(self, v: V) -> (r: Result<(), OutputError>)
        ensures
            Output::delivers(
                *old(self.writer),
                *final(self.writer),
                value_part(v.encoding()),
                r is Ok,
            ),
    {
        let ghost start = *self.writer;
        let ghost part = value_part(v.encoding());
        let space: [u8; 1] = [32];
        let line_feed: [u8; 1] = [10];
        proof {
            assert(space@ =~= seq![32u8]);
            assert(line_feed@ =~= seq![10u8]);
            Output::lemma_delivers_nothing(start);
            Output::lemma_delivers_after(start, start, Seq::empty(), seq![32u8], part);
            assert(Seq::<u8>::empty() + seq![32u8] =~= seq![32u8]);
        }
        if self.writer.write(space.as_slice()).is_err() {
            return Err(OutputError);
        }
        proof {
            Output::lemma_delivers_after(start, *self.writer, seq![32u8], v.encoding(), part);
        }
        if v.encode(self.writer).is_err() {
            return Err(OutputError);
        }
        proof {
            Output::lemma_delivers_after(
                start,
                *self.writer,
                seq![32u8] + v.encoding(),
                seq![10u8],
                part,
            );
        }
        self.writer.write(line_feed.as_slice())
    }
}

/// A metric that can write its sample lines: a counter, a histogram, a family
/// of either.
pub trait EncodeMetric {
    /// The sample lines of the metric `name`, for the series with `labels`.
    spec fn samples(&self, name: Seq<u8>, labels: Option<Seq<u8>>) -> Seq<u8>;

    /// Whether the metric can be written as a series that has labels already
    /// (`labelled`) or as one that has none. A family cannot take labels from
    /// outside: it gives each of its members its own.
    spec fn fits(&self, labelled: bool) -> bool;

    /// Writes the sample lines of the metric through `encoder`.
    fn encode<'a, 'b, L: Encode>(&self, encoder: Encoder<'a, 'b, L>) -> (r: Result<
        (),
        OutputError,
    >)
        requires
            self.fits(encoder.labels is Some),
        ensures
            Output::delivers(
                *old(encoder.writer),
                *final(encoder.writer),
                self.samples(encoder.name.spec_bytes(), encoder.label_bytes()),
                r is Ok,
            ),
    ;
}

/// How a help line begins: `# HELP `.
pub open spec fn help_start() -> Seq<u8> {
    seq![35u8, 32u8, 72u8, 69u8, 76u8, 80u8, 32u8]
}

/// How a type line begins: `# TYPE `.
pub open spec fn type_start() -> Seq<u8> {
    seq![35u8, 32u8, 84u8, 89u8, 80u8, 69u8, 32u8]
}

/// The line that ends a document: `# EOF` and a line feed.
pub open spec fn end_of_document() -> Seq<u8> {
    seq![35u8, 32u8, 69u8, 79u8, 70u8, 10u8]
}

/// A line that says something of the metric `name`: how it `start`s, the
/// name, a space, what is said, and a line feed.
pub open spec fn comment_line(start: Seq<u8>, name: Seq<u8>, text: Seq<u8>) -> Seq<u8> {
    start + name + seq![32u8] + text + seq![10u8]
}

/// The help line of a metric: `# HELP name help`.
pub open spec fn help_line(name: Seq<u8>, help: Seq<u8>) -> Seq<u8> {
    comment_line(help_start(), name, help)
}

/// The type line of a metric: `# TYPE name kind`.
pub open spec fn type_line(name: Seq<u8>, kind: MetricType) -> Seq<u8> {
    comment_line(type_start(), name, kind.word())
}

/// What a document holds of one registered metric: its help line, its type
/// line and its sample lines, which bear no labels but those that the metric
/// itself gives them.
pub open spec fn block<M: EncodeMetric>(entry: (Descriptor, M)) -> Seq<u8> {
    help_line(entry.0.name_bytes(), entry.0.help_bytes()) + type_line(
        entry.0.name_bytes(),
        entry.0.kind(),
    ) + entry.1.samples(entry.0.name_bytes(), None)
}

/// The blocks of the metrics of `entries`, one behind the other.
pub open spec fn blocks<M: EncodeMetric>(entries: Seq<(Descriptor, M)>) -> Seq<u8>
    decreases entries.len(),
{
    if entries.len() == 0 {
        Seq::empty()
    } else {
        blocks(entries.drop_last()) + block(entries.last())
    }
}

/// The document for the metrics of `entries`: the block of each, in the order
/// of `entries`, and the line that ends a document.
pub open spec fn document<M: EncodeMetric>(entries: Seq<(Descriptor, M)>) -> Seq<u8> {
    blocks(entries) + end_of_document()
}

/// The blocks of the first `k` metrics are what the blocks of all begin with.
pub proof fn lemma_blocks_begin_with<M: EncodeMetric>(entries: Seq<(Descriptor, M)>, k: int)
    requires
        0 <= k <= entries.len(),
    ensures
        blocks(entries.take(k)).is_prefix_of(blocks(entries)),
        k < entries.len() ==> blocks(entries.take(k + 1)) == blocks(entries.take(k)) + block(
            entries[k],
        ),
    decreases entries.len(),
{
    if k == entries.len() {
        assert(entries.take(k) =~= entries);
    } else {
        lemma_blocks_begin_with(entries.drop_last(), k);
        assert(entries.drop_last().take(k) =~= entries.take(k));
        assert(entries.take(k + 1).drop_last() =~= entries.take(k));
        assert(entries.take(k + 1).last() == entries[k]);
    }
}

/// The document begins with the blocks of the first `k` metrics and the
/// block of the next, and so with each part of that block: its help line,
/// its type line, its samples.
proof fn lemma_document_begins_with<M: EncodeMetric>(entries: Seq<(Descriptor, M)>, k: int)
    requires
        0 <= k < entries.len(),
    ensures
        ({
            let done = blocks(entries.take(k));
            let name = entries[k].0.name_bytes();
            let help = help_line(name, entries[k].0.help_bytes());
            let kind = type_line(name, entries[k].0.kind());
            let samples = entries[k].1.samples(name, None);
            &&& (done + help).is_prefix_of(document(entries))
            &&& (done + help + kind).is_prefix_of(document(entries))
            &&& (done + help + kind + samples).is_prefix_of(document(entries))
            &&& blocks(entries.take(k + 1)) == done + help + kind + samples
        }),
{
    let done = blocks(entries.take(k));
    let name = entries[k].0.name_bytes();
    let help = help_line(name, entries[k].0.help_bytes());
    let kind = type_line(name, entries[k].0.kind());
    let samples = entries[k].1.samples(name, None);
    let upto = blocks(entries.take(k + 1));
    let whole = document(entries);
    lemma_blocks_begin_with(entries, k);
    lemma_blocks_begin_with(entries, k + 1);
    assert(upto =~= done + help + kind + samples);
    assert(upto.is_prefix_of(whole));
    assert((done + help + kind) =~= upto.subrange(0, (done + help + kind).len() as int));
    assert((done + help) =~= upto.subrange(0, (done + help).len() as int));
}

/// The bytes of `# HELP `.
fn help_word() -> (word: &'static [u8])
    ensures
        word@ == help_start(),
{
    let word = "# HELP ";
    proof {
        reveal_strlit("# HELP ");
        assert(is_ascii(word));
        is_ascii_spec_bytes(word);
        assert(word.spec_bytes() =~= help_start());
    }
    word.as_bytes()
}

/// The bytes of `# TYPE `.
fn type_word() -> (word: &'static [u8])
    ensures
        word@ == type_start(),
{
    let word = "# TYPE ";
    proof {
        reveal_strlit("# TYPE ");
        assert(is_ascii(word));
        is_ascii_spec_bytes(word);
        assert(word.spec_bytes() =~= type_start());
    }
    word.as_bytes()
}

/// The bytes of `# EOF` and a line feed.
fn end_word() -> (word: &'static [u8])
    ensures
        word@ == end_of_document(),
{
    let word = "# EOF\n";
    proof {
        reveal_strlit("# EOF\n");
        assert(is_ascii(word));
        is_ascii_spec_bytes(word);
        assert(word.spec_bytes() =~= end_of_document());
    }
    word.as_bytes()
}

/// Writes the line that begins with `start` and says `text` of `name`.
fn encode_comment_line(writer: &mut Output, start: &[u8], name: &str, text: &str) -> (r: Result<
    (),
    OutputError,
>)
    ensures
        Output::delivers(
            *old(writer),
            *final(writer),
            comment_line(start@, name.spec_bytes(), text.spec_bytes()),
            r is Ok,
        ),
{
    let ghost begin = *writer;
    let ghost line = comment_line(start@, name.spec_bytes(), text.spec_bytes());
    let space: [u8; 1] = [32];
    let line_feed: [u8; 1] = [10];
    proof {
        assert(space@ =~= seq![32u8]);
        assert(line_feed@ =~= seq![10u8]);
        Output::lemma_delivers_nothing(begin);
        Output::lemma_delivers_after(begin, begin, Seq::empty(), start@, line);
        assert(Seq::<u8>::empty() + start@ =~= start@);
    }
    if writer.write(start).is_err() {
        return Err(OutputError);
    }
    proof {
        Output::lemma_delivers_after(begin, *writer, start@, name.spec_bytes(), line);
    }
    if writer.write(name.as_bytes()).is_err() {
        return Err(OutputError);
    }
    proof {
        Output::lemma_delivers_after(
            begin,
            *writer,
            start@ + name.spec_bytes(),
            seq![32u8],
            line,
        );
    }
    if writer.write(space.as_slice()).is_err() {
        return Err(OutputError);
    }
    proof {
        Output::lemma_delivers_after(
            begin,
            *writer,
            start@ + name.spec_bytes() + seq![32u8],
            text.spec_bytes(),
            line,
        );
    }
    if writer.write(text.as_bytes()).is_err() {
        return Err(OutputError);
    }
    proof {
        Output::lemma_delivers_after(
            begin,
            *writer,
            start@ + name.spec_bytes() + seq![32u8] + text.spec_bytes(),
            seq![10u8],
            line,
        );
    }
    writer.write(line_feed.as_slice())
}

/// Writes the document for the metrics of `registry` to `writer`: for each
/// metric, in the order of registration, its help line, its type line and its
/// samples, and behind the last the line that ends a document.
///
/// Where the output has no room for all of it, it is filled with as much of
/// the document as fits and the call fails.
pub fn encode<M: EncodeMetric>(writer: &mut Output, registry: &Registry<M>) -> (r: Result<
    (),
    OutputError,
>)
    requires
        forall|i: int| 0 <= i < registry@.len() ==> (#[trigger] registry@[i]).1.fits(false),
    ensures
        Output::delivers(*old(writer), *final(writer), document(registry@), r is Ok),
{
    let ghost begin = *writer;
    let ghost whole = document(registry@);
    let mut i: usize = 0;
    proof {
        Output::lemma_delivers_nothing(begin);
        assert(registry@.take(0) =~= Seq::empty());
    }
    while i < registry.len()
        invariant
            i <= registry@.len(),
            begin == *old(writer),
            whole == document(registry@),
            Output::delivers(begin, *writer, blocks(registry@.take(i as int)), true),
            forall|i: int| 0 <= i < registry@.len() ==> (#[trigger] registry@[i]).1.fits(false),
        decreases registry@.len() - i,
    {
        let desc = registry.descriptor(i);
        let metric = registry.metric(i);
        let ghost done = blocks(registry@.take(i as int));
        let ghost name = desc.name_bytes();
        let ghost help = help_line(name, desc.help_bytes());
        let ghost kind = type_line(name, desc.kind());
        let ghost samples = metric.samples(name, None);
        proof {
            lemma_document_begins_with(registry@, i as int);
            Output::lemma_delivers_after(begin, *writer, done, help, whole);
        }
        if encode_comment_line(writer, help_word(), desc.name(), desc.help()).is_err() {
            return Err(OutputError);
        }
        proof {
            Output::lemma_delivers_after(begin, *writer, done + help, kind, whole);
        }
        if encode_comment_line(writer, type_word(), desc.name(), desc.m_type().as_str()).is_err() {
            return Err(OutputError);
        }
        proof {
            Output::lemma_delivers_after(begin, *writer, done + help + kind, samples, whole);
        }
        let encoder = Encoder::<()>::new(writer, desc.name());
        if metric.encode(encoder).is_err() {
            return Err(OutputError);
        }
        i = i + 1;
    }
    proof {
        assert(registry@.take(i as int) =~= registry@);
        Output::lemma_delivers_after(
            begin,
            *writer,
            blocks(registry@),
            end_of_document(),
            whole,
        );
    }
    writer.write(end_word())
}

} // verus!
