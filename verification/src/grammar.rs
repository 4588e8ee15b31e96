//! What holds of every document: where its lines begin, which of them are
//! comments, and that it ends with one line that says so.

use crate::counter::Counter;
use crate::encoding::EncodeMetric;
use crate::histogram::Histogram;
use crate::label::{LabelSet, Labels};
use crate::metric::Metric;
use crate::number::Bound;
use crate::registry::Descriptor;
use vstd::prelude::*;

verus! {

/// Whether a line of `text` begins at `p`: at its start, or behind a line
/// feed.
pub open spec fn line_starts_at(text: Seq<u8>, p: int) -> bool {
    &&& 0 <= p < text.len()
    &&& p == 0 || text[p - 1] == 10
}

/// Whether a comment begins at `p`: a line whose first byte is `#`.
pub open spec fn comment_at(text: Seq<u8>, p: int) -> bool {
    &&& line_starts_at(text, p)
    &&& text[p] == 35
}

/// Whether the line `line` stands in `text` at `p`.
pub open spec fn stands_at(text: Seq<u8>, p: int, line: Seq<u8>) -> bool {
    &&& line_starts_at(text, p)
    &&& p + line.len() <= text.len()
    &&& text.subrange(p, p + line.len()) == line
}

/// Whether `text` holds no line feed.
pub open spec fn plain(text: Seq<u8>) -> bool {
    forall|i: int| 0 <= i < text.len() ==> text[i] != 10
}

/// Whether `text` is one line: it ends with a line feed and holds no other.
pub open spec fn one_line(text: Seq<u8>) -> bool {
    &&& text.len() > 0
    &&& text.last() == 10
    &&& plain(text.drop_last())
}

/// Whether `text` is made of whole lines: it is empty or ends with a line
/// feed.
pub open spec fn whole_lines(text: Seq<u8>) -> bool {
    text.len() == 0 || text.last() == 10
}

/// Whether `text` is made of whole lines of which none is a comment.
pub open spec fn samples_only(text: Seq<u8>) -> bool {
    &&& whole_lines(text)
    &&& forall|p: int| !comment_at(text, p)
}

/// Whether `text` is made of whole lines of which every comment is a help
/// line or a type line: its third byte is `H` or `T`.
pub open spec fn tidy(text: Seq<u8>) -> bool {
    &&& whole_lines(text)
    &&& forall|p: int| #[trigger]
        comment_at(text, p) ==> p + 2 < text.len() && (text[p + 2] == 72 || text[p + 2] == 84)
}

/// Whether a name can begin a sample line: it holds no line feed and does not
/// begin with `#`.
pub open spec fn plain_name(name: Seq<u8>) -> bool {
    &&& plain(name)
    &&& name.len() > 0 ==> name[0] != 35
}

/// Whether an optional part of a line holds no line feed.
pub open spec fn plain_if_any(part: Option<Seq<u8>>) -> bool {
    match part {
        Some(text) => plain(text),
        None => true,
    }
}

/// Behind whole lines, lines begin where they begin in what follows; within
/// them, where they begin in them.
pub proof fn lemma_line_starts_of_parts(first: Seq<u8>, second: Seq<u8>, p: int)
    requires
        whole_lines(first),
    ensures
        line_starts_at(first + second, p) <==> if p < first.len() {
            line_starts_at(first, p)
        } else {
            line_starts_at(second, p - first.len())
        },
        comment_at(first + second, p) <==> if p < first.len() {
            comment_at(first, p)
        } else {
            comment_at(second, p - first.len())
        },
{
    let both = first + second;
    if 0 <= p < both.len() {
        if p < first.len() {
            assert(both[p] == first[p]);
            if p > 0 {
                assert(both[p - 1] == first[p - 1]);
            }
        } else {
            assert(both[p] == second[p - first.len()]);
            if p > first.len() {
                assert(both[p - 1] == second[p - first.len() - 1]);
            } else if p > 0 {
                assert(both[p - 1] == first.last());
            }
        }
    }
}

/// One line begins at its start and nowhere else.
pub proof fn lemma_one_line_starts_once(line: Seq<u8>, p: int)
    requires
        one_line(line),
    ensures
        line_starts_at(line, p) <==> p == 0,
{
    if 0 < p < line.len() {
        assert(line.drop_last()[p - 1] == line[p - 1]);
    }
}

/// Whole lines behind whole lines are whole lines, and no comment is among
/// them where none is among either.
pub proof fn lemma_samples_only_of_parts(first: Seq<u8>, second: Seq<u8>)
    requires
        samples_only(first),
        samples_only(second),
    ensures
        samples_only(first + second),
{
    let both = first + second;
    assert forall|p: int| !comment_at(both, p) by {
        lemma_line_starts_of_parts(first, second, p);
    }
    if second.len() > 0 {
        assert(both.last() == second.last());
    } else {
        assert(both =~= first);
    }
}

/// Tidy lines behind tidy lines are tidy.
pub proof fn lemma_tidy_of_parts(first: Seq<u8>, second: Seq<u8>)
    requires
        tidy(first),
        tidy(second),
    ensures
        tidy(first + second),
{
    let both = first + second;
    assert forall|p: int| #[trigger] comment_at(both, p) implies p + 2 < both.len() && (both[p
        + 2] == 72 || both[p + 2] == 84) by {
        lemma_line_starts_of_parts(first, second, p);
        if p < first.len() {
            assert(comment_at(first, p));
            assert(both[p + 2] == first[p + 2]);
        } else {
            assert(comment_at(second, p - first.len()));
            assert(both[p + 2] == second[p - first.len() + 2]);
        }
    }
    if second.len() > 0 {
        assert(both.last() == second.last());
    } else {
        assert(both =~= first);
    }
}

/// Lines without comments are tidy.
pub proof fn lemma_samples_only_is_tidy(text: Seq<u8>)
    requires
        samples_only(text),
    ensures
        tidy(text),
{
}

/// A sample line is one line, and no comment, where none of its parts holds
/// a line feed and its name does not begin with `#`.
pub proof fn lemma_sample_line_is_one_line(
    name: Seq<u8>,
    suffix: Option<Seq<u8>>,
    labels: Option<Seq<u8>>,
    bucket: Option<(Seq<u8>, Seq<u8>)>,
    value: Seq<u8>,
)
    requires
        plain_name(name),
        plain_if_any(suffix),
        plain_if_any(labels),
        bucket is Some ==> plain(bucket->Some_0.0) && plain(bucket->Some_0.1),
        plain(value),
    ensures
        one_line(crate::encoding::sample_line(name, suffix, labels, bucket, value)),
        crate::encoding::sample_line(name, suffix, labels, bucket, value)[0] != 35,
        samples_only(crate::encoding::sample_line(name, suffix, labels, bucket, value)),
{
    let line = crate::encoding::sample_line(name, suffix, labels, bucket, value);
    let series = crate::encoding::series_name(name, suffix);
    let open = crate::encoding::labels_open(labels);
    let close = crate::encoding::labels_close(crate::encoding::labelled(labels), bucket);
    let head = series + open + close;
    assert(plain(series));
    assert(plain(open));
    assert(plain(close));
    assert(plain(head));
    assert(line =~= head + seq![32u8] + value + seq![10u8]);
    assert(line.drop_last() =~= head + seq![32u8] + value);
    assert(plain(line.drop_last()));
    assert(line[0] != 35) by {
        if name.len() > 0 {
            assert(line[0] == name[0]);
        } else if suffix is Some {
            assert(line[0] == 95);
        } else if crate::encoding::labelled(labels) {
            assert(line[0] == 123);
        } else if bucket is Some {
            assert(line[0] == 123);
        } else {
            assert(line[0] == 32);
        }
    }
    assert forall|p: int| !comment_at(line, p) by {
        lemma_one_line_starts_once(line, p);
    }
}

/// A help line or a type line is one line, and a comment whose third byte is
/// `H` or `T`, where neither the name nor what is said of it holds a line
/// feed.
pub proof fn lemma_comment_line_is_one_line(start: Seq<u8>, name: Seq<u8>, text: Seq<u8>)
    requires
        start == crate::encoding::help_start() || start == crate::encoding::type_start(),
        plain(name),
        plain(text),
    ensures
        one_line(crate::encoding::comment_line(start, name, text)),
        comment_at(crate::encoding::comment_line(start, name, text), 0),
        tidy(crate::encoding::comment_line(start, name, text)),
{
    let line = crate::encoding::comment_line(start, name, text);
    assert(plain(start));
    assert(line.drop_last() =~= start + name + seq![32u8] + text);
    assert(plain(line.drop_last()));
    assert(line[0] == start[0]);
    assert(line[2] == start[2]);
    assert forall|p: int| #[trigger] comment_at(line, p) implies p + 2 < line.len() && (line[p + 2]
        == 72 || line[p + 2] == 84) by {
        lemma_one_line_starts_once(line, p);
    }
}

/// The digits of a number hold no line feed.
pub proof fn lemma_decimal_is_plain(n: nat)
    ensures
        plain(crate::encoding::decimal(n)),
    decreases n,
{
    if n >= 10 {
        lemma_decimal_is_plain(n / 10);
    }
}

/// The line of a counter is a sample line where its name and labels allow
/// it.
pub proof fn lemma_counter_samples(counter: Counter, name: Seq<u8>, labels: Option<Seq<u8>>)
    requires
        plain_name(name),
        plain_if_any(labels),
    ensures
        samples_only(counter.samples(name, labels)),
{
    lemma_decimal_is_plain(counter@ as nat);
    lemma_sample_line_is_one_line(
        name,
        Some(crate::counter::total()),
        labels,
        None,
        crate::encoding::decimal(counter@ as nat),
    );
}

/// Whether the texts that a histogram holds can stand in a line: neither its
/// sum nor one of its bounds holds a line feed.
pub open spec fn plain_histogram(histogram: Histogram) -> bool {
    &&& plain(histogram.sum_bytes())
    &&& forall|i: int| 0 <= i < histogram@.len() ==> plain((#[trigger] histogram@[i]).0.label())
}

/// The lines of buckets are sample lines.
pub proof fn lemma_bucket_lines(buckets: Seq<(Bound, u64)>, name: Seq<u8>, labels: Option<Seq<u8>>)
    requires
        plain_name(name),
        plain_if_any(labels),
        forall|i: int| 0 <= i < buckets.len() ==> plain((#[trigger] buckets[i]).0.label()),
    ensures
        samples_only(crate::histogram::bucket_lines(buckets, name, labels)),
    decreases buckets.len(),
{
    if buckets.len() > 0 {
        lemma_bucket_lines(buckets.drop_last(), name, labels);
        lemma_decimal_is_plain(buckets.last().1 as nat);
        lemma_sample_line_is_one_line(
            name,
            Some(crate::histogram::bucket_word()),
            labels,
            Some((crate::histogram::le_word(), buckets.last().0.label())),
            crate::encoding::decimal(buckets.last().1 as nat),
        );
        lemma_samples_only_of_parts(
            crate::histogram::bucket_lines(buckets.drop_last(), name, labels),
            crate::histogram::bucket_line(buckets.last(), name, labels),
        );
    }
}

/// The lines of a histogram are sample lines where its name, its labels and
/// the texts that it holds allow it.
pub proof fn lemma_histogram_samples(histogram: Histogram, name: Seq<u8>, labels: Option<Seq<u8>>)
    requires
        plain_name(name),
        plain_if_any(labels),
        plain_histogram(histogram),
    ensures
        samples_only(histogram.samples(name, labels)),
{
    let sum = crate::encoding::sample_line(
        name,
        Some(crate::histogram::sum_word()),
        labels,
        None,
        histogram.sum_bytes(),
    );
    let count = crate::encoding::sample_line(
        name,
        Some(crate::histogram::count_word()),
        labels,
        None,
        crate::encoding::decimal(histogram.total() as nat),
    );
    lemma_decimal_is_plain(histogram.total() as nat);
    lemma_sample_line_is_one_line(
        name,
        Some(crate::histogram::sum_word()),
        labels,
        None,
        histogram.sum_bytes(),
    );
    lemma_sample_line_is_one_line(
        name,
        Some(crate::histogram::count_word()),
        labels,
        None,
        crate::encoding::decimal(histogram.total() as nat),
    );
    lemma_bucket_lines(histogram@, name, labels);
    lemma_samples_only_of_parts(sum, count);
    lemma_samples_only_of_parts(
        sum + count,
        crate::histogram::bucket_lines(histogram@, name, labels),
    );
}

/// Whether neither a name nor a value of `pairs` holds a line feed.
pub open spec fn plain_labels(pairs: Labels) -> bool {
    forall|i: int|
        0 <= i < pairs.len() ==> plain(vstd::utf8::encode_utf8((#[trigger] pairs[i]).0))
            && plain(vstd::utf8::encode_utf8(pairs[i].1))
}

/// A list of labels holds no line feed where none of its names and values
/// does.
pub proof fn lemma_label_list_is_plain(pairs: Labels)
    requires
        plain_labels(pairs),
    ensures
        plain(crate::label::label_list(pairs)),
    decreases pairs.len(),
{
    if pairs.len() > 0 {
        lemma_label_list_is_plain(pairs.drop_last());
        assert(plain(vstd::utf8::encode_utf8(pairs[pairs.len() - 1].0)));
        assert(plain(crate::label::label_item(pairs.len() == 1, pairs.last())));
    }
}

/// The lines of a family are sample lines where the lines of each of its
/// series are, under the labels of the series.
pub proof fn lemma_family_samples<M: EncodeMetric>(entries: Seq<(Labels, M)>, name: Seq<u8>)
    requires
        forall|i: int|
            0 <= i < entries.len() ==> samples_only(
                (#[trigger] entries[i]).1.samples(
                    name,
                    Some(crate::label::label_list(entries[i].0)),
                ),
            ),
    ensures
        samples_only(crate::family::family_samples(entries, name)),
    decreases entries.len(),
{
    if entries.len() > 0 {
        lemma_family_samples(entries.drop_last(), name);
        assert(samples_only(
            entries[entries.len() - 1].1.samples(
                name,
                Some(crate::label::label_list(entries[entries.len() - 1].0)),
            ),
        ));
        lemma_samples_only_of_parts(
            crate::family::family_samples(entries.drop_last(), name),
            entries.last().1.samples(name, Some(crate::label::label_list(entries.last().0))),
        );
    }
}

/// Whether the texts that a metric holds can stand in a line: none of the
/// labels of its series and none of the numbers of its histograms holds a
/// line feed.
pub open spec fn plain_metric<S: LabelSet>(metric: Metric<S>) -> bool {
    match metric {
        Metric::Counter(_) => true,
        Metric::Histogram(histogram) => plain_histogram(histogram),
        Metric::CounterFamily(family) => forall|i: int|
            0 <= i < family@.len() ==> plain_labels((#[trigger] family@[i]).0),
        Metric::HistogramFamily(family) => forall|i: int|
            0 <= i < family@.len() ==> plain_labels((#[trigger] family@[i]).0) && plain_histogram(
                family@[i].1,
            ),
    }
}

/// The lines of a metric in a registry are sample lines where its name and
/// the texts that it holds allow it.
pub proof fn lemma_metric_samples<S: LabelSet>(metric: Metric<S>, name: Seq<u8>)
    requires
        plain_name(name),
        plain_metric(metric),
    ensures
        samples_only(metric.samples(name, None)),
{
    match metric {
        Metric::Counter(counter) => {
            lemma_counter_samples(counter, name, None);
        },
        Metric::Histogram(histogram) => {
            lemma_histogram_samples(histogram, name, None);
        },
        Metric::CounterFamily(family) => {
            let entries = family@;
            assert forall|i: int| 0 <= i < entries.len() implies samples_only(
                (#[trigger] entries[i]).1.samples(
                    name,
                    Some(crate::label::label_list(entries[i].0)),
                ),
            ) by {
                lemma_label_list_is_plain(entries[i].0);
                lemma_counter_samples(
                    entries[i].1,
                    name,
                    Some(crate::label::label_list(entries[i].0)),
                );
            }
            lemma_family_samples(entries, name);
        },
        Metric::HistogramFamily(family) => {
            let entries = family@;
            assert forall|i: int| 0 <= i < entries.len() implies samples_only(
                (#[trigger] entries[i]).1.samples(
                    name,
                    Some(crate::label::label_list(entries[i].0)),
                ),
            ) by {
                lemma_label_list_is_plain(entries[i].0);
                lemma_histogram_samples(
                    entries[i].1,
                    name,
                    Some(crate::label::label_list(entries[i].0)),
                );
            }
            lemma_family_samples(entries, name);
        },
    }
}

/// Whether the document can be told line by line what `entry` states: its
/// name and help hold no line feed, the name does not begin with `#`, and
/// the samples of the metric are lines of which none is a comment.
pub open spec fn well_lined<M: EncodeMetric>(entry: (Descriptor, M)) -> bool {
    &&& plain_name(entry.0.name_bytes())
    &&& plain(entry.0.help_bytes())
    &&& samples_only(entry.1.samples(entry.0.name_bytes(), None))
}

/// Two comments of one line each and samples behind them: the comments stand
/// at the start and behind one another, the samples follow, and no other
/// comment is among the lines.
proof fn lemma_two_comments_and_samples(first: Seq<u8>, second: Seq<u8>, samples: Seq<u8>, p: int)
    requires
        one_line(first),
        one_line(second),
        first[0] == 35,
        second[0] == 35,
        samples_only(samples),
    ensures
        stands_at(first + second + samples, 0, first),
        stands_at(first + second + samples, first.len() as int, second),
        (first + second + samples).subrange(
            (first.len() + second.len()) as int,
            (first.len() + second.len() + samples.len()) as int,
        ) == samples,
        comment_at(first + second + samples, p) <==> (p == 0 || p == first.len()),
{
    let lines = first + second;
    let block = lines + samples;
    assert(whole_lines(lines)) by {
        assert(lines.last() == second.last());
    }
    lemma_line_starts_of_parts(lines, samples, p);
    lemma_line_starts_of_parts(first, second, p);
    lemma_one_line_starts_once(first, p);
    lemma_one_line_starts_once(second, p - first.len());
    assert(comment_at(block, p) <==> (p == 0 || p == first.len()));
    lemma_line_starts_of_parts(lines, samples, 0);
    lemma_line_starts_of_parts(first, second, 0);
    lemma_line_starts_of_parts(lines, samples, first.len() as int);
    lemma_line_starts_of_parts(first, second, first.len() as int);
    lemma_one_line_starts_once(second, 0);
    assert(block.subrange(0, first.len() as int) =~= first);
    assert(block.subrange(first.len() as int, (first.len() + second.len()) as int) =~= second);
    assert(block.subrange(
        (first.len() + second.len()) as int,
        (first.len() + second.len() + samples.len()) as int,
    ) =~= samples);
}

/// Within a part of a text that stands behind whole lines, lines begin where
/// they begin in the part.
proof fn lemma_part_of_text(before: Seq<u8>, part: Seq<u8>, rest: Seq<u8>, q: int)
    requires
        whole_lines(before),
        0 <= q < part.len(),
    ensures
        line_starts_at(before + part + rest, before.len() + q) <==> line_starts_at(part, q),
        comment_at(before + part + rest, before.len() + q) <==> comment_at(part, q),
{
    let text = before + part + rest;
    assert(text[before.len() + q] == part[q]);
    if q > 0 {
        assert(text[before.len() + q - 1] == part[q - 1]);
    } else if before.len() > 0 {
        assert(text[before.len() - 1] == before.last());
    }
}

/// A line that stands in a part of a text stands in the text, as far behind
/// as the part begins.
proof fn lemma_stands_in_text(
    before: Seq<u8>,
    part: Seq<u8>,
    rest: Seq<u8>,
    q: int,
    line: Seq<u8>,
)
    requires
        whole_lines(before),
        stands_at(part, q, line),
    ensures
        stands_at(before + part + rest, before.len() + q, line),
{
    let text = before + part + rest;
    lemma_part_of_text(before, part, rest, q);
    assert(text.subrange(before.len() + q, before.len() + q + line.len()) =~= part.subrange(
        q,
        q + line.len(),
    ));
}

/// The block of a metric is its help line, its type line and its samples,
/// and the two lines are its only comments.
pub proof fn lemma_block_has_two_comments<M: EncodeMetric>(entry: (Descriptor, M), p: int)
    requires
        well_lined(entry),
    ensures
        tidy(crate::encoding::block(entry)),
        stands_at(
            crate::encoding::block(entry),
            0,
            crate::encoding::help_line(entry.0.name_bytes(), entry.0.help_bytes()),
        ),
        stands_at(
            crate::encoding::block(entry),
            crate::encoding::help_line(entry.0.name_bytes(), entry.0.help_bytes()).len() as int,
            crate::encoding::type_line(entry.0.name_bytes(), entry.0.kind()),
        ),
        comment_at(crate::encoding::block(entry), p) <==> (p == 0 || p
            == crate::encoding::help_line(entry.0.name_bytes(), entry.0.help_bytes()).len()),
{
    let name = entry.0.name_bytes();
    let help = crate::encoding::help_line(name, entry.0.help_bytes());
    let kind = crate::encoding::type_line(name, entry.0.kind());
    let samples = entry.1.samples(name, None);
    lemma_comment_line_is_one_line(crate::encoding::help_start(), name, entry.0.help_bytes());
    assert(plain(entry.0.kind().word()));
    lemma_comment_line_is_one_line(crate::encoding::type_start(), name, entry.0.kind().word());
    lemma_samples_only_is_tidy(samples);
    lemma_tidy_of_parts(help, kind);
    lemma_tidy_of_parts(help + kind, samples);
    lemma_two_comments_and_samples(help, kind, samples, p);
}

/// The blocks of metrics that can be told line by line are tidy.
pub proof fn lemma_blocks_are_tidy<M: EncodeMetric>(entries: Seq<(Descriptor, M)>)
    requires
        forall|i: int| 0 <= i < entries.len() ==> well_lined(#[trigger] entries[i]),
    ensures
        tidy(crate::encoding::blocks(entries)),
    decreases entries.len(),
{
    if entries.len() > 0 {
        lemma_blocks_are_tidy(entries.drop_last());
        assert(well_lined(entries[entries.len() - 1]));
        lemma_block_has_two_comments(entries.last(), 0);
        lemma_tidy_of_parts(
            crate::encoding::blocks(entries.drop_last()),
            crate::encoding::block(entries.last()),
        );
    }
}

/// A document ends with the line that ends a document, and that line stands
/// nowhere else in it.
pub proof fn lemma_document_ends_once<M: EncodeMetric>(entries: Seq<(Descriptor, M)>, p: int)
    requires
        forall|i: int| 0 <= i < entries.len() ==> well_lined(#[trigger] entries[i]),
    ensures
        stands_at(crate::encoding::document(entries), p, crate::encoding::end_of_document()) <==> p
            == crate::encoding::document(entries).len() - crate::encoding::end_of_document().len(),
        crate::encoding::document(entries).len() - crate::encoding::end_of_document().len()
            == crate::encoding::blocks(entries).len(),
{
    let body = crate::encoding::blocks(entries);
    let end = crate::encoding::end_of_document();
    let document = crate::encoding::document(entries);
    lemma_blocks_are_tidy(entries);
    lemma_line_starts_of_parts(body, end, p);
    assert(one_line(end)) by {
        assert(end.drop_last() =~= seq![35u8, 32u8, 69u8, 79u8, 70u8]);
    }
    lemma_one_line_starts_once(end, p - body.len());
    lemma_line_starts_of_parts(body, end, body.len() as int);
    lemma_one_line_starts_once(end, 0);
    assert(document.subrange(body.len() as int, document.len() as int) =~= end);
    if stands_at(document, p, end) && p < body.len() {
        assert(document.subrange(p, p + end.len())[0] == document[p]);
        assert(document.subrange(p, p + end.len())[2] == document[p + 2]);
        assert(comment_at(body, p));
        assert(document[p + 2] == body[p + 2]);
    }
}

/// The document as three parts: the blocks of the first `k` metrics, the block
/// of the next and the rest.
proof fn lemma_document_in_parts<M: EncodeMetric>(entries: Seq<(Descriptor, M)>, k: int)
    requires
        0 <= k < entries.len(),
    ensures
        ({
            let before = crate::encoding::blocks(entries.take(k));
            let block = crate::encoding::block(entries[k]);
            let document = crate::encoding::document(entries);
            &&& before.len() + block.len() <= crate::encoding::blocks(entries).len()
            &&& document == before + block + document.subrange(
                (before.len() + block.len()) as int,
                document.len() as int,
            )
        }),
{
    let before = crate::encoding::blocks(entries.take(k));
    let block = crate::encoding::block(entries[k]);
    let document = crate::encoding::document(entries);
    crate::encoding::lemma_blocks_begin_with(entries, k);
    crate::encoding::lemma_blocks_begin_with(entries, k + 1);
    assert((before + block).is_prefix_of(crate::encoding::blocks(entries)));
    assert(document =~= before + block + document.subrange(
        (before.len() + block.len()) as int,
        document.len() as int,
    ));
}

/// Two comments and samples as a part of a text that stands behind whole
/// lines: where the part begins the two comments stand, the samples follow
/// them, and no other comment begins within the part.
proof fn lemma_block_in_text(
    before: Seq<u8>,
    first: Seq<u8>,
    second: Seq<u8>,
    samples: Seq<u8>,
    rest: Seq<u8>,
    p: int,
)
    requires
        whole_lines(before),
        one_line(first),
        one_line(second),
        first[0] == 35,
        second[0] == 35,
        samples_only(samples),
    ensures
        ({
            let text = before + (first + second + samples) + rest;
            let at = before.len() as int;
            let end = at + first.len() + second.len() + samples.len();
            &&& stands_at(text, at, first)
            &&& stands_at(text, at + first.len(), second)
            &&& text.subrange(at + first.len() + second.len(), end) == samples
            &&& at <= p < end ==> (comment_at(text, p) <==> (p == at || p == at + first.len()))
        }),
{
    let block = first + second + samples;
    let text = before + block + rest;
    let at = before.len() as int;
    let end = at + block.len();
    lemma_two_comments_and_samples(first, second, samples, p - at);
    lemma_stands_in_text(before, block, rest, 0, first);
    lemma_stands_in_text(before, block, rest, first.len() as int, second);
    if at <= p < end {
        lemma_part_of_text(before, block, rest, p - at);
    }
    assert(text.subrange(at + first.len() + second.len(), end) =~= block.subrange(
        (first.len() + second.len()) as int,
        block.len() as int,
    ));
}

/// In a document the samples of each metric stand behind one help line and
/// one type line of that metric: the block of metric `k` stands behind the
/// blocks of those registered before it, it begins with the two lines, the
/// samples follow them, and no other comment stands in it.
pub proof fn lemma_samples_follow_help_and_type<M: EncodeMetric>(
    entries: Seq<(Descriptor, M)>,
    k: int,
    p: int,
)
    requires
        forall|i: int| 0 <= i < entries.len() ==> well_lined(#[trigger] entries[i]),
        0 <= k < entries.len(),
    ensures
        ({
            let document = crate::encoding::document(entries);
            let name = entries[k].0.name_bytes();
            let help = crate::encoding::help_line(name, entries[k].0.help_bytes());
            let kind = crate::encoding::type_line(name, entries[k].0.kind());
            let samples = entries[k].1.samples(name, None);
            let at = crate::encoding::blocks(entries.take(k)).len() as int;
            let end = at + help.len() + kind.len() + samples.len();
            &&& end <= crate::encoding::blocks(entries).len()
            &&& stands_at(document, at, help)
            &&& stands_at(document, at + help.len(), kind)
            &&& document.subrange(at + help.len() + kind.len(), end) == samples
            &&& at <= p < end ==> (comment_at(document, p) <==> (p == at || p == at + help.len()))
        }),
{
    let document = crate::encoding::document(entries);
    let before = crate::encoding::blocks(entries.take(k));
    let name = entries[k].0.name_bytes();
    let help = crate::encoding::help_line(name, entries[k].0.help_bytes());
    let kind = crate::encoding::type_line(name, entries[k].0.kind());
    let samples = entries[k].1.samples(name, None);
    let rest = document.subrange(
        (before.len() + (help + kind + samples).len()) as int,
        document.len() as int,
    );
    assert(document == before + (help + kind + samples) + rest) by {
        lemma_document_in_parts(entries, k);
    }
    assert(before.len() + (help + kind + samples).len() <= crate::encoding::blocks(
        entries,
    ).len()) by {
        lemma_document_in_parts(entries, k);
    }
    assert(whole_lines(before)) by {
        assert forall|i: int| 0 <= i < entries.take(k).len() implies well_lined(
            #[trigger] entries.take(k)[i],
        ) by {
            assert(entries.take(k)[i] == entries[i]);
        }
        lemma_blocks_are_tidy(entries.take(k));
    }
    assert(one_line(help) && one_line(kind) && help[0] == 35 && kind[0] == 35 && samples_only(
        samples,
    )) by {
        assert(well_lined(entries[k]));
        lemma_comment_line_is_one_line(
            crate::encoding::help_start(),
            name,
            entries[k].0.help_bytes(),
        );
        assert(plain(entries[k].0.kind().word()));
        lemma_comment_line_is_one_line(
            crate::encoding::type_start(),
            name,
            entries[k].0.kind().word(),
        );
    }
    lemma_block_in_text(before, help, kind, samples, rest, p);
}

} // verus!
