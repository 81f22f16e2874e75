//! The rows of a report: one per file of each group.

use crate::compare::{found_links, ByStrength, GroupLink, MatchIndex};
use crate::disposal::{done_text, Disposal, Fate, ACTION_COLUMN};
use crate::display::{
    bitrate_text, clock_text, codec_text, csv_seconds, format_bitrate, format_codec,
    format_duration, format_frame_rate, format_quality, format_shared, format_size, is_rate_text,
    is_seconds_text, is_shared_text, is_thousandths, quality_text, rate_thousandths, size_text,
    thousandths, thousandths_text, whole_seconds,
};
use crate::fingerprint::{bitrate_of, quality_of, VideoFingerprint};
use crate::ordering::in_order;
use crate::overlap::{Footage, Share, Span};
use crate::quantity::Seconds;
use crate::text::{decimal, number, texts};
use vstd::prelude::*;

verus! {

/// The name of the `i`th group, counting from one.
pub open spec fn group_text(i: int) -> Seq<char> {
    "group_"@ + decimal((i + 1) as nat)
}

/// The name of a group.
pub fn group_name(i: usize) -> (name: String)
    requires
        i < u64::MAX,
    ensures
        name@ == group_text(i as int),
{
    let mut name = "group_".to_owned();
    name.append(number(i as u64 + 1).as_str());
    name
}

/// What is said of a file: held for review, or else deleted, or else kept. Once the
/// run acts, what became of a deleted file is said instead.
pub open spec fn action_text(
    review: bool,
    doomed: bool,
    disposal: Option<Disposal>,
    outcome: Option<Fate>,
) -> Seq<char> {
    if review {
        "REVIEW"@
    } else if doomed {
        match disposal {
            None => "DELETE"@,
            Some(d) => match outcome {
                None => "SKIPPED"@,
                Some(Fate::Done { aliased }) => done_text(&d, aliased),
                Some(Fate::Changed) => "CHANGED"@,
                Some(Fate::Failed) => "FAILED"@,
            },
        }
    } else if disposal is Some {
        "KEPT"@
    } else {
        "KEEP"@
    }
}

/// The label of a file, the same in every group it stands in.
pub fn action(
    review: bool,
    doomed: bool,
    disposal: &Option<Disposal>,
    outcome: Option<Fate>,
) -> (label: &'static str)
    ensures
        label@ == action_text(review, doomed, *disposal, outcome),
{
    if review {
        return "REVIEW";
    }
    match disposal {
        None => {
            if doomed {
                "DELETE"
            } else {
                "KEEP"
            }
        },
        Some(d) => {
            if !doomed {
                return "KEPT";
            }
            match outcome {
                None => "SKIPPED",
                Some(Fate::Done { aliased }) => d.done_label(aliased),
                Some(Fate::Changed) => "CHANGED",
                Some(Fate::Failed) => "FAILED",
            }
        },
    }
}

/// The footage the strongest link describes, where the file's runtime is known.
pub open spec fn best_footage(fp: &VideoFingerprint, links: Seq<GroupLink>) -> Option<Footage> {
    if links.len() > 0 && fp.duration.num() > 0 {
        Some(links[0].matched_seconds)
    } else {
        None
    }
}

/// Where the strongest link's footage lies.
pub open spec fn best_span(links: Seq<GroupLink>) -> Option<Span> {
    if links.len() > 0 {
        links[0].span
    } else {
        None
    }
}

/// A runtime as hours, minutes and seconds, or a dash where it is unknown.
pub open spec fn length_text(length: Seconds) -> Seq<char> {
    if length.num() > 0 {
        clock_text(whole_seconds(length))
    } else {
        "-"@
    }
}

/// A point in time as hours, minutes and seconds, or nothing.
pub open spec fn moment_text(ms: Option<u32>) -> Seq<char> {
    match ms {
        Some(ms) => clock_text((ms / 1000) as nat),
        None => Seq::empty(),
    }
}

/// Whether this is a length in seconds to two places, or nothing where it is unknown.
pub open spec fn is_length_text(length: Seconds, s: Seq<char>) -> bool {
    if length.num() > 0 {
        is_length_seconds(length, s)
    } else {
        s.len() == 0
    }
}

/// Whether this is a point in time in seconds to two places, or nothing.
pub open spec fn is_moment_seconds(ms: Option<u32>, s: Seq<char>) -> bool {
    match ms {
        Some(ms) => exists|at: Seconds|
            at.num() == ms && at.den() == 1000 && #[trigger] is_length_seconds(at, s),
        None => s.len() == 0,
    }
}

/// Whether this is a length in seconds to two places.
pub open spec fn is_length_seconds(length: Seconds, s: Seq<char>) -> bool {
    exists|whole: Share| whole.part() == 1 && whole.whole() == 1 && #[trigger] is_seconds_text(
        Some(Footage { share: whole, runtime: length }),
        s,
    )
}

/// Whether this is a rate as a plain number, or nothing where it is unknown.
pub open spec fn is_plain_rate(fp: &VideoFingerprint, s: Seq<char>) -> bool {
    if fp.frame_rate.num() > 0 {
        exists|t: nat| #[trigger] is_thousandths(fp.frame_rate, t) && s == thousandths_text(t)
    } else {
        s.len() == 0
    }
}

/// How many columns a row has.
pub const COLUMNS: usize = 23;

/// Whether these are the cells of a file's row: who it is, what it is, and what it was
/// found in.
pub open spec fn is_row(
    cells: Seq<Seq<char>>,
    group: Seq<char>,
    action: Seq<char>,
    fp: &VideoFingerprint,
    links: Seq<GroupLink>,
    fps: Seq<VideoFingerprint>,
) -> bool {
    let span = best_span(links);
    let from = span_start(span);
    let to = span_end(span);
    &&& cells.len() == COLUMNS
    &&& cells[0] == group
    &&& cells[1] == action
    &&& cells[2] == fp.path@
    &&& cells[3] == length_text(fp.duration)
    &&& is_length_text(fp.duration, cells[4])
    &&& cells[5] == decimal(fp.width as nat) + "x"@ + decimal(fp.height as nat)
    &&& cells[6] == decimal(fp.width as nat)
    &&& cells[7] == decimal(fp.height as nat)
    &&& is_plain_rate(fp, cells[8])
    &&& cells[9] == codec_text(fp.codec@)
    &&& cells[10] == size_text(fp.file_size as nat)
    &&& cells[11] == decimal(fp.file_size as nat)
    &&& cells[12] == bitrate_text(bitrate_of(fp))
    &&& cells[13] == decimal(bitrate_of(fp))
    &&& cells[14] == quality_text(quality_of(fp))
    &&& cells[15] == (if quality_of(fp) > 0 {
        decimal(quality_of(fp))
    } else {
        Seq::empty()
    })
    &&& cells[16] == (if links.len() > 0 {
        fps[links[0].other as int].path@
    } else {
        Seq::empty()
    })
    &&& cells[17] == decimal(fp.valid_hashes@.len())
    &&& is_seconds_text(best_footage(fp, links), cells[18])
    &&& cells[19] == moment_text(from)
    &&& cells[20] == moment_text(to)
    &&& is_moment_seconds(from, cells[21])
    &&& is_moment_seconds(to, cells[22])
}

/// Where a stretch starts, where there is one.
pub open spec fn span_start(span: Option<Span>) -> Option<u32> {
    match span {
        Some(s) => Some(s.start_ms),
        None => None,
    }
}

/// Where a stretch ends, where there is one.
pub open spec fn span_end(span: Option<Span>) -> Option<u32> {
    match span {
        Some(s) => Some(s.end_ms),
        None => None,
    }
}

fn length_cell(length: Seconds) -> (s: String)
    ensures
        s@ == length_text(length),
{
    if length.is_positive() {
        format_duration(length)
    } else {
        "-".to_owned()
    }
}

/// A length in seconds to two places.
fn seconds_cell(length: Seconds) -> (s: String)
    ensures
        is_length_seconds(length, s@),
{
    let whole = Share::new(1, 1);
    let s = csv_seconds(Some(Footage { share: whole, runtime: length }));
    assert(is_seconds_text(Some(Footage { share: whole, runtime: length }), s@));
    s
}

fn length_seconds_cell(length: Seconds) -> (s: String)
    ensures
        is_length_text(length, s@),
{
    if length.is_positive() {
        seconds_cell(length)
    } else {
        String::new()
    }
}

fn moment_cell(ms: Option<u32>) -> (s: String)
    ensures
        s@ == moment_text(ms),
{
    match ms {
        Some(ms) => crate::display::clock((ms / 1000) as u64),
        None => {
            let s = String::new();
            assert(s@ =~= Seq::<char>::empty());
            s
        },
    }
}

fn moment_seconds_cell(ms: Option<u32>) -> (s: String)
    ensures
        is_moment_seconds(ms, s@),
{
    match ms {
        Some(ms) => {
            let at = Seconds::from_ms(ms as u64);
            let s = seconds_cell(at);
            assert(is_length_seconds(at, s@));
            s
        },
        None => String::new(),
    }
}

fn rate_cell(fp: &VideoFingerprint) -> (s: String)
    ensures
        is_plain_rate(fp, s@),
{
    let (num, _) = fp.frame_rate.parts();
    if num > 0 {
        let t = rate_thousandths(fp.frame_rate);
        assert(is_thousandths(fp.frame_rate, t as nat));
        thousandths(t)
    } else {
        String::new()
    }
}

fn empty() -> (s: String)
    ensures
        s@ == Seq::<char>::empty(),
{
    let s = String::new();
    assert(s@ =~= Seq::<char>::empty());
    s
}

/// The cells of a file's row.
///
/// A figure that is unknown is an empty cell, never a zero. Everything in the last
/// block answers for the row's own file.
pub fn row(
    group: &str,
    action: &str,
    fp: &VideoFingerprint,
    links: &Vec<GroupLink>,
    fps: &[VideoFingerprint],
) -> (cells: Vec<String>)
    requires
        forall|i: int| 0 <= i < links@.len() ==> (#[trigger] links@[i]).other < fps@.len(),
    ensures
        is_row(texts(cells@), group@, action@, fp, links@, fps@),
{
    let span: Option<Span> = if links.len() > 0 {
        links[0].span
    } else {
        None
    };
    let (from, to): (Option<u32>, Option<u32>) = match span {
        Some(s) => (Some(s.start_ms), Some(s.end_ms)),
        None => (None, None),
    };
    let matched: Option<Footage> = if links.len() > 0 && fp.duration.is_positive() {
        Some(links[0].matched_seconds)
    } else {
        None
    };
    let mut resolution = number(fp.width as u64);
    resolution.append("x");
    resolution.append(number(fp.height as u64).as_str());
    let mut cells: Vec<String> = Vec::new();
    cells.push(group.to_owned());
    cells.push(action.to_owned());
    cells.push(fp.path.as_str().to_owned());
    cells.push(length_cell(fp.duration));
    cells.push(length_seconds_cell(fp.duration));
    cells.push(resolution);
    cells.push(number(fp.width as u64));
    cells.push(number(fp.height as u64));
    cells.push(rate_cell(fp));
    cells.push(format_codec(fp.codec.as_str()));
    cells.push(format_size(fp.file_size));
    cells.push(number(fp.file_size));
    cells.push(format_bitrate(fp.bitrate()));
    cells.push(number(fp.bitrate()));
    cells.push(format_quality(fp.quality()));
    cells.push(
        if fp.quality() > 0 {
            number(fp.quality())
        } else {
            empty()
        },
    );
    cells.push(
        if links.len() > 0 {
            fps[links[0].other].path.as_str().to_owned()
        } else {
            empty()
        },
    );
    cells.push(number(fp.valid_hashes.len() as u64));
    cells.push(csv_seconds(matched));
    cells.push(moment_cell(from));
    cells.push(moment_cell(to));
    cells.push(moment_seconds_cell(from));
    cells.push(moment_seconds_cell(to));
    cells
}

/// A text filled up with spaces to a width.
pub open spec fn padded_text(s: Seq<char>, width: nat) -> Seq<char>
    decreases width - s.len(),
{
    if s.len() >= width {
        s
    } else {
        padded_text(s.push(' '), width)
    }
}

fn pad(s: &str, width: usize) -> (out: String)
    requires
        width < 1000,
    ensures
        out@ == padded_text(s@, width as nat),
{
    let mut out = s.to_owned();
    proof {
        reveal_strlit(" ");
        assert(" "@ =~= seq![' ']);
    }
    let mut len = crate::text::characters(s).len();
    while len < width
        invariant
            len == out@.len(),
            " "@ == seq![' '],
            padded_text(out@, width as nat) == padded_text(s@, width as nat),
        decreases width - len,
    {
        proof {
            assert(out@ + " "@ =~= out@.push(' '));
        }
        out.append(" ");
        len = len + 1;
    }
    out
}

/// Whether this is a file's line in the listing.
pub open spec fn is_line(
    line: Seq<char>,
    action: Seq<char>,
    fp: &VideoFingerprint,
    links: Seq<GroupLink>,
) -> bool {
    exists|rate: Seq<char>, shared: Seq<char>|
        #[trigger] is_rate_text(fp.frame_rate, rate) && #[trigger] is_shared_text(
            best_footage(fp, links),
            shared,
        ) && line == "\t"@ + padded_text(action + ","@, ACTION_COLUMN as nat) + " "@ + length_text(
            fp.duration,
        ) + ", "@ + decimal(fp.width as nat) + "x"@ + decimal(fp.height as nat) + ", "@ + rate
            + ", "@ + codec_text(fp.codec@) + ", "@ + size_text(fp.file_size as nat) + ", "@
            + bitrate_text(bitrate_of(fp)) + ", "@ + quality_text(quality_of(fp)) + ", "@ + decimal(
            fp.valid_hashes@.len(),
        ) + " samples, "@ + shared + " matched, "@ + fp.path@
}

/// A file's line in the listing: its action leads, padded to a column, and its path
/// trails.
pub fn line(action: &str, fp: &VideoFingerprint, links: &Vec<GroupLink>) -> (text: String)
    ensures
        is_line(text@, action@, fp, links@),
{
    let matched: Option<Footage> = if links.len() > 0 && fp.duration.is_positive() {
        Some(links[0].matched_seconds)
    } else {
        None
    };
    let rate = format_frame_rate(fp.frame_rate);
    let shared = format_shared(matched);
    let mut head = action.to_owned();
    head.append(",");
    let mut text = "\t".to_owned();
    text.append(pad(head.as_str(), ACTION_COLUMN).as_str());
    text.append(" ");
    text.append(length_cell(fp.duration).as_str());
    text.append(", ");
    text.append(number(fp.width as u64).as_str());
    text.append("x");
    text.append(number(fp.height as u64).as_str());
    text.append(", ");
    text.append(rate.as_str());
    text.append(", ");
    text.append(format_codec(fp.codec.as_str()).as_str());
    text.append(", ");
    text.append(format_size(fp.file_size).as_str());
    text.append(", ");
    text.append(format_bitrate(fp.bitrate()).as_str());
    text.append(", ");
    text.append(format_quality(fp.quality()).as_str());
    text.append(", ");
    text.append(number(fp.valid_hashes.len() as u64).as_str());
    text.append(" samples, ");
    text.append(shared.as_str());
    text.append(" matched, ");
    text.append(fp.path.as_str());
    assert(is_rate_text(fp.frame_rate, rate@));
    assert(is_shared_text(best_footage(fp, links@), shared@));
    text
}

/// Whether this is a character that a field of the report has to be quoted for.
pub open spec fn is_special(c: char) -> bool {
    c == ';' || c == '"' || c == '\n' || c == '\r'
}

/// A text with every quote doubled.
pub open spec fn doubled(s: Seq<char>) -> Seq<char>
    decreases s.len(),
{
    if s.len() == 0 {
        s
    } else if s.last() == '"' {
        doubled(s.drop_last()).push('"').push('"')
    } else {
        doubled(s.drop_last()).push(s.last())
    }
}

/// A field as it is written.
pub open spec fn field_text(s: Seq<char>) -> Seq<char> {
    if exists|i: int| 0 <= i < s.len() && is_special(#[trigger] s[i]) {
        seq!['"'] + doubled(s) + seq!['"']
    } else {
        s
    }
}

/// Fields with the delimiter between them.
pub open spec fn fields_text(fields: Seq<Seq<char>>) -> Seq<char>
    decreases fields.len(),
{
    if fields.len() == 0 {
        Seq::empty()
    } else if fields.len() == 1 {
        field_text(fields[0])
    } else {
        fields_text(fields.drop_last()).push(';') + field_text(fields.last())
    }
}

/// `csv::Writer::write_record`, on a writer with `;` for a delimiter over a growing
/// buffer, and `csv::Writer::into_inner`: one record as one line of text.
///
/// Trusted of them: a field that holds the delimiter, a quote or the end of a line is
/// quoted, with its quotes doubled; every other field is written as it is; fields are
/// separated by the delimiter and the record ends with a newline. Writing to a buffer
/// in memory does not fail, nor does the first record of a writer. A record of fewer
/// than two fields is left out: one empty field would be quoted.
#[verifier::external_body]
fn csv_line(fields: &Vec<String>) -> (line: Option<String>)
    requires
        fields@.len() >= 2,
    ensures
        line is Some,
        line->0@ == fields_text(texts(fields@)).push('\n'),
{
    let mut writer = csv::WriterBuilder::new().delimiter(b';').from_writer(Vec::new());
    writer.write_record(fields).ok()?;
    let bytes = writer.into_inner().ok()?;
    String::from_utf8(bytes).ok()
}

/// The names of the columns, in order.
pub open spec fn header_texts() -> Seq<Seq<char>> {
    seq![
        "group"@,
        "action"@,
        "full_path"@,
        "length"@,
        "length_seconds"@,
        "resolution"@,
        "width"@,
        "height"@,
        "framerate_fps"@,
        "codec"@,
        "size"@,
        "size_bytes"@,
        "bitrate"@,
        "bitrate_bps"@,
        "quality"@,
        "quality_bits_per_frame"@,
        "matched_with"@,
        "samples"@,
        "matched_seconds"@,
        "matched_from"@,
        "matched_to"@,
        "matched_from_seconds"@,
        "matched_to_seconds"@,
    ]
}

/// The names of the columns.
pub fn header() -> (cells: Vec<String>)
    ensures
        texts(cells@) == header_texts(),
        cells@.len() == COLUMNS,
{
    let mut cells: Vec<String> = Vec::new();
    cells.push("group".to_owned());
    cells.push("action".to_owned());
    cells.push("full_path".to_owned());
    cells.push("length".to_owned());
    cells.push("length_seconds".to_owned());
    cells.push("resolution".to_owned());
    cells.push("width".to_owned());
    cells.push("height".to_owned());
    cells.push("framerate_fps".to_owned());
    cells.push("codec".to_owned());
    cells.push("size".to_owned());
    cells.push("size_bytes".to_owned());
    cells.push("bitrate".to_owned());
    cells.push("bitrate_bps".to_owned());
    cells.push("quality".to_owned());
    cells.push("quality_bits_per_frame".to_owned());
    cells.push("matched_with".to_owned());
    cells.push("samples".to_owned());
    cells.push("matched_seconds".to_owned());
    cells.push("matched_from".to_owned());
    cells.push("matched_to".to_owned());
    cells.push("matched_from_seconds".to_owned());
    cells.push("matched_to_seconds".to_owned());
    assert(texts(cells@) =~= header_texts());
    cells
}

/// Every row of one group.
pub struct GroupRows {
    pub name: String,
    pub rows: Vec<Vec<String>>,
    pub lines: Vec<String>,
}

/// The rows of a group, one after the other.
pub open spec fn rows_text(rows: Seq<Vec<String>>) -> Seq<char>
    decreases rows.len(),
{
    if rows.len() == 0 {
        Seq::empty()
    } else {
        rows_text(rows.drop_last()) + fields_text(texts(rows.last()@)).push('\n')
    }
}

/// The rows of several groups, one after the other.
pub open spec fn groups_rows_text(groups: Seq<GroupRows>) -> Seq<char>
    decreases groups.len(),
{
    if groups.len() == 0 {
        Seq::empty()
    } else {
        groups_rows_text(groups.drop_last()) + rows_text(groups.last().rows@)
    }
}

/// Every row is complete.
pub open spec fn rows_are_full(groups: Seq<GroupRows>) -> bool {
    forall|i: int, j: int|
        0 <= i < groups.len() && 0 <= j < groups[i].rows@.len() ==> (
        #[trigger] groups[i].rows@[j])@.len() == COLUMNS
}

/// The report as a table: the names of the columns, then a row per file of each group.
/// `None` where a row could not be written, which does not happen.
pub fn csv_report(groups: &Vec<GroupRows>) -> (text: Option<String>)
    requires
        rows_are_full(groups@),
    ensures
        text matches Some(t) && t@ == fields_text(header_texts()).push('\n') + groups_rows_text(
            groups@,
        ),
{
    let names = header();
    let mut text = match csv_line(&names) {
        Some(l) => l,
        None => {
            return None;
        },
    };
    let ghost head = text@;
    assert(head + groups_rows_text(groups@.take(0)) =~= head);
    for i in 0..groups.len()
        invariant
            rows_are_full(groups@),
            text@ == head + groups_rows_text(groups@.take(i as int)),
    {
        let rows = &groups[i].rows;
        let ghost before = text@;
        assert(before + rows_text(rows@.take(0)) =~= before);
        for j in 0..rows.len()
            invariant
                rows_are_full(groups@),
                i < groups@.len(),
                rows == &groups@[i as int].rows,
                text@ == before + rows_text(rows@.take(j as int)),
        {
            assert(groups@[i as int].rows@[j as int]@.len() == COLUMNS);
            match csv_line(&rows[j]) {
                Some(l) => {
                    let ghost so_far = text@;
                    text.append(l.as_str());
                    proof {
                        assert(rows@.take(j + 1).drop_last() =~= rows@.take(j as int));
                        assert(text@ =~= before + rows_text(rows@.take(j + 1)));
                    }
                },
                None => {
                    return None;
                },
            }
        }
        proof {
            assert(rows@.take(rows@.len() as int) =~= rows@);
            assert(groups@.take(i + 1).drop_last() =~= groups@.take(i as int));
            assert(text@ =~= head + groups_rows_text(groups@.take(i + 1)));
        }
    }
    assert(groups@.take(groups@.len() as int) =~= groups@);
    Some(text)
}

/// The lines of a group, one after the other.
pub open spec fn lines_text(lines: Seq<String>) -> Seq<char>
    decreases lines.len(),
{
    if lines.len() == 0 {
        Seq::empty()
    } else {
        lines_text(lines.drop_last()) + lines.last()@ + "\n"@
    }
}

/// The listing: each group under its name, with an empty line after it.
pub open spec fn listing_text(groups: Seq<GroupRows>) -> Seq<char>
    decreases groups.len(),
{
    if groups.len() == 0 {
        Seq::empty()
    } else {
        let g = groups.last();
        listing_text(groups.drop_last()) + g.name@ + ":\n"@ + lines_text(g.lines@) + "\n"@
    }
}

/// The report as text: the listing, then the summary.
pub fn txt_report(groups: &Vec<GroupRows>, summary: &str) -> (text: String)
    ensures
        text@ == listing_text(groups@) + summary@ + "\n"@,
{
    let mut text = String::new();
    assert(text@ =~= listing_text(groups@.take(0)));
    for i in 0..groups.len()
        invariant
            text@ == listing_text(groups@.take(i as int)),
    {
        let g = &groups[i];
        text.append(g.name.as_str());
        text.append(":\n");
        let ghost before = text@;
        assert(before + lines_text(g.lines@.take(0)) =~= before);
        for j in 0..g.lines.len()
            invariant
                text@ == before + lines_text(g.lines@.take(j as int)),
        {
            text.append(g.lines[j].as_str());
            text.append("\n");
            proof {
                assert(g.lines@.take(j + 1).drop_last() =~= g.lines@.take(j as int));
                assert(text@ =~= before + lines_text(g.lines@.take(j + 1)));
            }
        }
        text.append("\n");
        proof {
            assert(g.lines@.take(g.lines@.len() as int) =~= g.lines@);
            assert(groups@.take(i + 1).drop_last() =~= groups@.take(i as int));
            assert(text@ =~= listing_text(groups@.take(i + 1)));
        }
    }
    assert(groups@.take(groups@.len() as int) =~= groups@);
    text.append(summary);
    text.append("\n");
    text
}

/// Whether these are the links a file has within a group, strongest first.
pub open spec fn are_links(
    index: &MatchIndex,
    subject: usize,
    group: Seq<usize>,
    fps: &[VideoFingerprint],
    links: Seq<GroupLink>,
) -> bool {
    &&& links.to_multiset() == found_links(
        index,
        subject,
        group,
        fps@[subject as int].duration,
    ).to_multiset()
    &&& in_order(links, &ByStrength { fps })
}

/// Whether these are the rows and lines of one group.
pub open spec fn are_group_rows(
    rows: GroupRows,
    i: int,
    group: Seq<usize>,
    index: &MatchIndex,
    fps: &[VideoFingerprint],
    review: Seq<bool>,
    doomed: Seq<bool>,
    disposal: Option<Disposal>,
    outcome: Seq<Option<Fate>>,
) -> bool {
    &&& rows.name@ == group_text(i)
    &&& rows.rows@.len() == group.len()
    &&& rows.lines@.len() == group.len()
    &&& forall|j: int|
        0 <= j < group.len() ==> is_member_row(
            rows,
            i,
            j,
            group,
            index,
            fps,
            #[trigger] group[j],
            action_text(
                review[group[j] as int],
                doomed[group[j] as int],
                disposal,
                outcome[group[j] as int],
            ),
        )
}

/// Whether this is the row and the line of one member.
pub open spec fn is_member_row(
    rows: GroupRows,
    i: int,
    j: int,
    group: Seq<usize>,
    index: &MatchIndex,
    fps: &[VideoFingerprint],
    x: usize,
    action: Seq<char>,
) -> bool {
    exists|links: Seq<GroupLink>|
        #[trigger] are_links(index, x, group, fps, links) && is_row(
            texts(rows.rows@[j]@),
            group_text(i),
            action,
            &fps@[x as int],
            links,
            fps@,
        ) && is_line(rows.lines@[j]@, action, &fps@[x as int], links)
}

/// The rows and lines of one group.
pub fn group_rows(
    i: usize,
    group: &Vec<usize>,
    index: &MatchIndex,
    fps: &[VideoFingerprint],
    review: &Vec<bool>,
    doomed: &Vec<bool>,
    disposal: &Option<Disposal>,
    outcome: &Vec<Option<Fate>>,
) -> (out: GroupRows)
    requires
        i < u64::MAX,
        forall|j: int| 0 <= j < group@.len() ==> #[trigger] group@[j] < fps@.len(),
        review@.len() == fps@.len(),
        doomed@.len() == fps@.len(),
        outcome@.len() == fps@.len(),
    ensures
        are_group_rows(
            out,
            i as int,
            group@,
            index,
            fps,
            review@,
            doomed@,
            *disposal,
            outcome@,
        ),
        forall|j: int| 0 <= j < out.rows@.len() ==> (#[trigger] out.rows@[j])@.len() == COLUMNS,
{
    let name = group_name(i);
    let mut rows: Vec<Vec<String>> = Vec::new();
    let mut lines: Vec<String> = Vec::new();
    for j in 0..group.len()
        invariant
            name@ == group_text(i as int),
            forall|j: int| 0 <= j < group@.len() ==> #[trigger] group@[j] < fps@.len(),
            review@.len() == fps@.len(),
            doomed@.len() == fps@.len(),
            outcome@.len() == fps@.len(),
            rows@.len() == j,
            lines@.len() == j,
            forall|k: int| 0 <= k < j ==> (#[trigger] rows@[k])@.len() == COLUMNS,
            forall|k: int|
                0 <= k < j ==> is_pair_row(
                    rows@[k],
                    lines@[k],
                    i as int,
                    group@,
                    index,
                    fps,
                    #[trigger] group@[k],
                    action_text(
                        review@[group@[k] as int],
                        doomed@[group@[k] as int],
                        *disposal,
                        outcome@[group@[k] as int],
                    ),
                ),
    {
        let x = group[j];
        let links = index.links_of(x, group.as_slice(), fps);
        let label = action(review[x], doomed[x], disposal, outcome[x]);
        let cells = row(name.as_str(), label, &fps[x], &links, fps);
        let text = line(label, &fps[x], &links);
        proof {
            assert(texts(cells@).len() == cells@.len());
            assert(are_links(index, x, group@, fps, links@));
        }
        rows.push(cells);
        lines.push(text);
    }
    let out = GroupRows { name, rows, lines };
    proof {
        assert forall|j: int| 0 <= j < group@.len() implies is_member_row(
            out,
            i as int,
            j,
            group@,
            index,
            fps,
            #[trigger] group@[j],
            action_text(
                review@[group@[j] as int],
                doomed@[group@[j] as int],
                *disposal,
                outcome@[group@[j] as int],
            ),
        ) by {}
    }
    out
}

/// Whether a row and a line describe one file of a group.
spec fn is_pair_row(
    cells: Vec<String>,
    text: String,
    i: int,
    group: Seq<usize>,
    index: &MatchIndex,
    fps: &[VideoFingerprint],
    x: usize,
    action: Seq<char>,
) -> bool {
    exists|links: Seq<GroupLink>|
        #[trigger] are_links(index, x, group, fps, links) && is_row(
            texts(cells@),
            group_text(i),
            action,
            &fps@[x as int],
            links,
            fps@,
        ) && is_line(text@, action, &fps@[x as int], links)
}

/// The label belongs to the file, not to the group: two rows of one file carry the
/// same action.
pub proof fn lemma_the_action_belongs_to_the_file(
    a: GroupRows,
    b: GroupRows,
    i: int,
    j: int,
    ga: Seq<usize>,
    gb: Seq<usize>,
    index: &MatchIndex,
    fps: &[VideoFingerprint],
    review: Seq<bool>,
    doomed: Seq<bool>,
    disposal: Option<Disposal>,
    outcome: Seq<Option<Fate>>,
    p: int,
    q: int,
)
    requires
        are_group_rows(a, i, ga, index, fps, review, doomed, disposal, outcome),
        are_group_rows(b, j, gb, index, fps, review, doomed, disposal, outcome),
        0 <= p < ga.len(),
        0 <= q < gb.len(),
        ga[p] == gb[q],
    ensures
        a.rows@[p]@[1]@ == b.rows@[q]@[1]@,
{
    let x = ga[p];
    let action = action_text(review[x as int], doomed[x as int], disposal, outcome[x as int]);
    assert(is_member_row(a, i, p, ga, index, fps, ga[p], action));
    assert(is_member_row(b, j, q, gb, index, fps, gb[q], action));
    assert(texts(a.rows@[p]@)[1] == a.rows@[p]@[1]@);
    assert(texts(b.rows@[q]@)[1] == b.rows@[q]@[1]@);
}

} // verus!
