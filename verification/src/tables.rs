//! What the rows, lines and entries of a report promise of the files they describe.

use crate::compare::{GroupLink, MatchIndex};
use crate::display::{
    bitrate_text, clock, footage_parts, format_bitrate, format_codec, format_duration,
    format_frame_rate, format_quality, format_shared, format_size, hundredths, hundredths_text,
    is_footage_parts, is_rate_text, is_seconds_text, is_shared_text, is_thousandths, nearest,
    nearest_up, quality_text, rate_thousandths, rounded, rounded_up, size_text, tenths_text,
    thousandths, thousandths_text,
};
use crate::disposal::{Disposal, Fate};
use crate::document::{
    document, file_entry, is_group_entry, is_link_entry, is_member_entry, Document, FileEntry,
};
use crate::fingerprint::{bitrate_of, quality_of, VideoFingerprint};
use crate::overlap::{Footage, Share};
use crate::quantity::{lemma_scaled, Rate, Seconds};
use crate::report::Results;
use crate::rows::{
    action, action_text, best_footage, csv_report, group_name, group_rows, groups_rows_text,
    is_length_seconds, is_member_row, is_moment_seconds, length_text, line, lines_text,
    listing_text, padded_text, row, txt_report, GroupRows,
};
use crate::text::{decimal, number, texts};
use vstd::prelude::*;

verus! {

/// A file that is held for review is marked so, whatever else is said of it. Else one that
/// is not marked for deletion is kept, and of one that is it is said what became of it
/// once the run acts.
pub proof fn lemma_what_a_file_is_marked(
    review: bool,
    doomed: bool,
    disposal: &Option<Disposal>,
    outcome: Option<Fate>,
    label: &'static str,
    done: &'static str,
)
    requires
        call_ensures(action, (review, doomed, disposal, outcome), label),
        *disposal is Some && outcome is Some ==> (outcome->0 matches Fate::Done { aliased }
            ==> call_ensures(Disposal::done_label, (&disposal->0, aliased), done)),
    ensures
        review ==> label@ == "REVIEW"@,
        !review && !doomed && *disposal is None ==> label@ == "KEEP"@,
        !review && !doomed && *disposal is Some ==> label@ == "KEPT"@,
        !review && doomed && *disposal is None ==> label@ == "DELETE"@,
        !review && doomed && *disposal is Some && outcome is None ==> label@ == "SKIPPED"@,
        !review && doomed && *disposal is Some && outcome == Some(Fate::Changed) ==> label@
            == "CHANGED"@,
        !review && doomed && *disposal is Some && outcome == Some(Fate::Failed) ==> label@
            == "FAILED"@,
        !review && doomed && *disposal is Some && outcome is Some && outcome->0 is Done ==> label@
            == done@,
{
}

/// Groups are numbered from one.
pub proof fn lemma_groups_are_numbered_from_one(i: usize, name: String, n: String)
    requires
        i < u64::MAX,
        call_ensures(group_name, (i,), name),
        call_ensures(number, ((i + 1) as u64,), n),
    ensures
        name@ == "group_"@ + n@,
{
    assert((i + 1) as nat == ((i + 1) as u64) as nat);
}

/// A row tells who a file is and what it is: its group, what is to become of it, its path,
/// the size of its picture, its codec, how many bytes it has, and what they come to for a
/// second and for a frame. What it does not know it leaves empty, or marks with a dash.
pub proof fn lemma_what_a_row_says_of_a_file(
    group: &str,
    label: &str,
    fp: &VideoFingerprint,
    links: &Vec<GroupLink>,
    fps: &[VideoFingerprint],
    cells: Vec<String>,
    length: String,
    width: String,
    height: String,
    codec: &str,
    codec_cell: String,
    size: String,
    bytes: String,
    bps: u64,
    bitrate: String,
    plain_bitrate: String,
    bits: u64,
    quality: String,
    plain_quality: String,
    samples: String,
)
    requires
        call_ensures(row, (group, label, fp, links, fps), cells),
        call_ensures(format_duration, (fp.duration,), length),
        call_ensures(number, (fp.width as u64,), width),
        call_ensures(number, (fp.height as u64,), height),
        codec@ == fp.codec@,
        call_ensures(format_codec, (codec,), codec_cell),
        call_ensures(format_size, (fp.file_size,), size),
        call_ensures(number, (fp.file_size,), bytes),
        call_ensures(VideoFingerprint::bitrate, (fp,), bps),
        call_ensures(format_bitrate, (bps,), bitrate),
        call_ensures(number, (bps,), plain_bitrate),
        call_ensures(VideoFingerprint::quality, (fp,), bits),
        call_ensures(format_quality, (bits,), quality),
        call_ensures(number, (bits,), plain_quality),
        call_ensures(number, (fp.valid_hashes@.len() as u64,), samples),
    ensures
        cells@.len() == 23,
        cells@[0]@ == group@,
        cells@[1]@ == label@,
        cells@[2]@ == fp.path@,
        fp.duration.num() > 0 ==> cells@[3]@ == length@,
        fp.duration.num() == 0 ==> cells@[3]@ == "-"@ && cells@[4]@.len() == 0,
        cells@[5]@ == width@ + "x"@ + height@,
        cells@[6]@ == width@,
        cells@[7]@ == height@,
        fp.frame_rate.num() == 0 ==> cells@[8]@.len() == 0,
        cells@[9]@ == codec_cell@,
        cells@[10]@ == size@,
        cells@[11]@ == bytes@,
        cells@[12]@ == bitrate@,
        cells@[13]@ == plain_bitrate@,
        cells@[14]@ == quality@,
        bits > 0 ==> cells@[15]@ == plain_quality@,
        bits == 0 ==> cells@[15]@.len() == 0,
        cells@[17]@ == samples@,
{
    lemma_cells(cells);
    assert(fp.valid_hashes.len() == fp.valid_hashes@.len());
}

proof fn lemma_cells(cells: Vec<String>)
    ensures
        texts(cells@).len() == cells@.len(),
        forall|k: int| 0 <= k < cells@.len() ==> #[trigger] texts(cells@)[k] == cells@[k]@,
{
}

/// A row tells how long a file is in seconds, to the nearest hundredth, and how many
/// frames of it a second has, to the nearest thousandth.
pub proof fn lemma_what_a_row_says_in_numbers(
    group: &str,
    label: &str,
    fp: &VideoFingerprint,
    links: &Vec<GroupLink>,
    fps: &[VideoFingerprint],
    cells: Vec<String>,
    t: u64,
    seconds: String,
    r: u64,
    rate: String,
)
    requires
        call_ensures(row, (group, label, fp, links, fps), cells),
        fp.duration.num() <= u128::MAX,
        0 < fp.duration.den() <= u128::MAX,
        call_ensures(nearest, (100, fp.duration.num() as u128, fp.duration.den() as u128), t),
        t < 0x8000_0000_0000_0000,
        call_ensures(hundredths, (t,), seconds),
        call_ensures(rate_thousandths, (fp.frame_rate,), r),
        r < 0x8000_0000_0000_0000,
        call_ensures(thousandths, (r,), rate),
    ensures
        fp.duration.num() > 0 ==> cells@[4]@ == seconds@,
        fp.frame_rate.num() > 0 ==> cells@[8]@ == rate@,
{
    lemma_cells(cells);
    assert(texts(cells@)[4] == cells@[4]@);
    assert(texts(cells@)[8] == cells@[8]@);
    if fp.duration.num() > 0 {
        lemma_seconds(fp.duration, cells@[4]@, t);
    }
    if fp.frame_rate.num() > 0 {
        let u = choose|u: nat| #[trigger]
            is_thousandths(fp.frame_rate, u) && cells@[8]@
                == thousandths_text(u);
        assert(u == r);
    }
}

proof fn lemma_seconds(length: Seconds, s: Seq<char>, t: u64)
    requires
        is_length_seconds(length, s),
        length.num() <= u128::MAX,
        0 < length.den() <= u128::MAX,
        call_ensures(nearest, (100, length.num() as u128, length.den() as u128), t),
        t < 0x8000_0000_0000_0000,
    ensures
        s == hundredths_text(t as nat),
{
    let one = choose|one: Share|
        one.part() == 1 && one.whole() == 1 && #[trigger] is_seconds_text(
            Some(Footage { share: one, runtime: length }),
            s,
        );
    let f = Footage { share: one, runtime: length };
    let u = choose|u: nat| #[trigger]
        is_footage_parts(f, 100, u) && s == hundredths_text(u);
    assert(f.share.part() * 100 == 100) by (nonlinear_arith)
        requires
            f.share.part() == 1,
    ;
    assert(f.share.part() * f.runtime.num() == length.num()) by (nonlinear_arith)
        requires
            f.share.part() == 1,
            f.runtime == length,
    ;
    assert(f.share.whole() * f.runtime.den() == length.den()) by (nonlinear_arith)
        requires
            f.share.whole() == 1,
            f.runtime == length,
    ;
    assert(u == t);
}

/// A row tells of the first link what it says: which file it leads to, how long the
/// footage is where the file's own runtime is known, and from when to when it lies. A file
/// without links has none of these.
pub proof fn lemma_what_a_row_says_of_the_best_link(
    group: &str,
    label: &str,
    fp: &VideoFingerprint,
    links: &Vec<GroupLink>,
    fps: &[VideoFingerprint],
    cells: Vec<String>,
    from: String,
    to: String,
    h: u64,
    matched: String,
)
    requires
        call_ensures(row, (group, label, fp, links, fps), cells),
        links@.len() > 0 && links@[0].span is Some ==> call_ensures(
            clock,
            ((links@[0].span->0.start_ms / 1000) as u64,),
            from,
        ) && call_ensures(clock, ((links@[0].span->0.end_ms / 1000) as u64,), to),
        links@.len() > 0 ==> call_ensures(
            footage_parts,
            (links@[0].matched_seconds, 100),
            h,
        ) && h < 0x8000_0000_0000_0000,
        call_ensures(hundredths, (h,), matched),
    ensures
        links@.len() == 0 ==> forall|k: int|
            k == 16 || 18 <= k < 23 ==> (#[trigger] cells@[k])@.len() == 0,
        links@.len() > 0 ==> cells@[16]@ == fps@[links@[0].other as int].path@,
        links@.len() > 0 && fp.duration.num() > 0 ==> cells@[18]@ == matched@,
        links@.len() > 0 && fp.duration.num() == 0 ==> cells@[18]@.len() == 0,
        links@.len() > 0 && links@[0].span is Some ==> cells@[19]@ == from@ && cells@[20]@ == to@,
        links@.len() > 0 && links@[0].span is None ==> cells@[19]@.len() == 0 && cells@[20]@.len()
            == 0 && cells@[21]@.len() == 0 && cells@[22]@.len() == 0,
{
    lemma_cells(cells);
    assert forall|k: int| 0 <= k < 23 implies #[trigger] texts(cells@)[k] == cells@[k]@ by {}
    if links@.len() > 0 && fp.duration.num() > 0 {
        let f = links@[0].matched_seconds;
        let u = choose|u: nat| #[trigger]
            is_footage_parts(f, 100, u) && cells@[18]@
                == hundredths_text(u);
        assert(u == h);
    }
}

/// A moment of a link is told in seconds, to the nearest hundredth.
pub proof fn lemma_what_a_row_says_of_a_moment(
    group: &str,
    label: &str,
    fp: &VideoFingerprint,
    links: &Vec<GroupLink>,
    fps: &[VideoFingerprint],
    cells: Vec<String>,
    start: u64,
    from: String,
    end: u64,
    to: String,
)
    requires
        call_ensures(row, (group, label, fp, links, fps), cells),
        links@.len() > 0,
        links@[0].span is Some,
        call_ensures(nearest, (100, links@[0].span->0.start_ms as u128, 1000), start),
        call_ensures(hundredths, (start,), from),
        call_ensures(nearest, (100, links@[0].span->0.end_ms as u128, 1000), end),
        call_ensures(hundredths, (end,), to),
    ensures
        cells@[21]@ == from@,
        cells@[22]@ == to@,
{
    lemma_cells(cells);
    assert(texts(cells@)[21] == cells@[21]@);
    assert(texts(cells@)[22] == cells@[22]@);
    lemma_moment(links@[0].span->0.start_ms, cells@[21]@, start);
    lemma_moment(links@[0].span->0.end_ms, cells@[22]@, end);
}

proof fn lemma_moment(ms: u32, s: Seq<char>, t: u64)
    requires
        is_moment_seconds(Some(ms), s),
        call_ensures(nearest, (100, ms as u128, 1000), t),
    ensures
        s == hundredths_text(t as nat),
{
    let at = choose|at: Seconds|
        at.num() == ms && at.den() == 1000 && #[trigger] is_length_seconds(at, s);
    lemma_scaled(100, ms as nat, 1000);
    assert(t <= 0xffff_ffff) by {
        assert(rounded(100 * ms as nat, 1000) <= 0xffff_ffff);
    }
    lemma_seconds(at, s, t);
}

/// A line of the listing leads with what is to become of a file, in a column of its own,
/// and ends with its path. Between them it tells the figures of the file's row.
pub proof fn lemma_what_a_line_says(
    label: &str,
    fp: &VideoFingerprint,
    links: &Vec<GroupLink>,
    text: String,
    length: String,
    width: String,
    height: String,
    r: u64,
    rate: String,
    codec: &str,
    codec_text: String,
    size: String,
    bps: u64,
    bitrate: String,
    bits: u64,
    quality: String,
    samples: String,
    t: u64,
    shared: String,
) -> (head: Seq<char>)
    requires
        call_ensures(line, (label, fp, links), text),
        call_ensures(format_duration, (fp.duration,), length),
        call_ensures(number, (fp.width as u64,), width),
        call_ensures(number, (fp.height as u64,), height),
        call_ensures(rate_thousandths, (fp.frame_rate,), r),
        r < 0x8000_0000_0000_0000,
        call_ensures(format_frame_rate, (fp.frame_rate,), rate),
        codec@ == fp.codec@,
        call_ensures(format_codec, (codec,), codec_text),
        call_ensures(format_size, (fp.file_size,), size),
        call_ensures(VideoFingerprint::bitrate, (fp,), bps),
        call_ensures(format_bitrate, (bps,), bitrate),
        call_ensures(VideoFingerprint::quality, (fp,), bits),
        call_ensures(format_quality, (bits,), quality),
        call_ensures(number, (fp.valid_hashes@.len() as u64,), samples),
        links@.len() > 0 ==> call_ensures(
            footage_parts,
            (links@[0].matched_seconds, 10),
            t,
        ) && t < 0x8000_0000_0000_0000,
        call_ensures(
            format_shared,
            (if links@.len() > 0 && fp.duration.num() > 0 {
                Some(links@[0].matched_seconds)
            } else {
                None
            },),
            shared,
        ),
    ensures
        is_column(head, label@),
        text@ == "\t"@ + head + " "@ + (if fp.duration.num() > 0 {
            length@
        } else {
            "-"@
        }) + ", "@ + width@ + "x"@ + height@ + ", "@ + rate@ + ", "@ + codec_text@ + ", "@ + size@
            + ", "@ + bitrate@ + ", "@ + quality@ + ", "@ + samples@ + " samples, "@ + shared@
            + " matched, "@ + fp.path@,
{
    let best = best_footage(fp, links@);
    let (told, part) = choose|told: Seq<char>, part: Seq<char>|
        #[trigger] is_rate_text(fp.frame_rate, told) && #[trigger] is_shared_text(best, part)
            && text@ == "\t"@ + padded_text(label@ + ","@, 9) + " "@ + length_text(fp.duration)
            + ", "@ + decimal(fp.width as nat) + "x"@ + decimal(fp.height as nat) + ", "@ + told
            + ", "@ + crate::display::codec_text(fp.codec@) + ", "@ + size_text(fp.file_size as nat)
            + ", "@ + bitrate_text(bitrate_of(fp)) + ", "@ + quality_text(quality_of(fp)) + ", "@
            + decimal(fp.valid_hashes@.len()) + " samples, "@ + part + " matched, "@ + fp.path@;
    lemma_one_rate_text(fp.frame_rate, r as nat, told, rate@);
    lemma_one_shared_text(best, t as nat, part, shared@);
    let head = padded_text(label@ + ","@, 9);
    reveal_strlit(",");
    let front = label@.push(',');
    assert(label@ + ","@ =~= front);
    assert(front.drop_last() =~= label@);
    lemma_padded(front, 9);
    assert(fp.valid_hashes.len() == fp.valid_hashes@.len());
    head
}

proof fn lemma_one_rate_text(rate: Rate, t: nat, a: Seq<char>, b: Seq<char>)
    requires
        is_thousandths(rate, t),
        t < 0x8000_0000_0000_0000,
        is_rate_text(rate, a),
        is_rate_text(rate, b),
    ensures
        a == b,
{
    if rate.num() > 0 {
        let u = choose|u: nat| #[trigger]
            is_thousandths(rate, u) && a == thousandths_text(u) + "fps"@;
        let v = choose|v: nat| #[trigger]
            is_thousandths(rate, v) && b == thousandths_text(v) + "fps"@;
        assert(u == t && v == t);
    }
}

proof fn lemma_one_shared_text(f: Option<Footage>, t: nat, a: Seq<char>, b: Seq<char>)
    requires
        f is Some ==> is_footage_parts(f->0, 10, t) && t < 0x8000_0000_0000_0000,
        is_shared_text(f, a),
        is_shared_text(f, b),
    ensures
        a == b,
{
    if f is Some {
        let u = choose|u: nat| #[trigger]
            is_footage_parts(f->0, 10, u) && a == tenths_text(u) + "s"@;
        let v = choose|v: nat| #[trigger]
            is_footage_parts(f->0, 10, v) && b == tenths_text(v) + "s"@;
        assert(u == t && v == t);
    }
}

/// Whether a text is a label and a comma, followed by spaces to nine characters.
pub open spec fn is_column(head: Seq<char>, label: Seq<char>) -> bool {
    &&& head.len() == if label.len() < 8 {
        9
    } else {
        label.len() + 1
    }
    &&& head.take(label.len() as int) == label
    &&& head[label.len() as int] == ','
    &&& forall|k: int| label.len() < k < head.len() ==> #[trigger] head[k] == ' '
}

proof fn lemma_padded(s: Seq<char>, width: nat)
    ensures
        ({
            let out = padded_text(s, width);
            &&& out.len() == if s.len() < width {
                width
            } else {
                s.len()
            }
            &&& out.take(s.len() as int) == s
            &&& forall|k: int| s.len() <= k < out.len() ==> #[trigger] out[k] == ' '
            &&& s.len() > 0 ==> out[s.len() - 1] == s.last() && out.take(s.len() - 1) =~= s.drop_last()
        }),
    decreases width - s.len(),
{
    let out = padded_text(s, width);
    if s.len() < width {
        let more = s.push(' ');
        lemma_padded(more, width);
        assert(out.take(more.len() as int) == more);
        assert(out.take(s.len() as int) =~= out.take(more.len() as int).take(s.len() as int));
        assert(more.take(s.len() as int) =~= s);
        assert forall|k: int| s.len() <= k < out.len() implies #[trigger] out[k] == ' ' by {
            if k == s.len() {
                assert(out.take(more.len() as int)[k] == more[k]);
            }
        }
    } else {
        assert(out.take(s.len() as int) =~= s);
    }
    if s.len() > 0 {
        assert(out.take(s.len() as int)[s.len() - 1] == s[s.len() - 1]);
        assert(out.take(s.len() - 1) =~= out.take(s.len() as int).take(s.len() - 1));
        assert(s.take(s.len() - 1) =~= s.drop_last());
    }
}

/// A group has a row and a line for each of its members, in order: each is that file's,
/// under the group's name, with what is to become of the file.
pub proof fn lemma_a_group_has_a_row_for_each_member(
    i: usize,
    group: &Vec<usize>,
    index: &MatchIndex,
    fps: &[VideoFingerprint],
    review: &Vec<bool>,
    doomed: &Vec<bool>,
    disposal: &Option<Disposal>,
    outcome: &Vec<Option<Fate>>,
    out: GroupRows,
    j: int,
    name: String,
    label: &'static str,
)
    requires
        call_ensures(
            group_rows,
            (i, group, index, fps, review, doomed, disposal, outcome),
            out,
        ),
        call_ensures(group_name, (i,), name),
        0 <= j < group@.len(),
        call_ensures(
            action,
            (
                review@[group@[j] as int],
                doomed@[group@[j] as int],
                disposal,
                outcome@[group@[j] as int],
            ),
            label,
        ),
    ensures
        out.name@ == name@,
        out.rows@.len() == group@.len(),
        out.lines@.len() == group@.len(),
        out.rows@[j]@[0]@ == name@,
        out.rows@[j]@[1]@ == label@,
        out.rows@[j]@[2]@ == fps@[group@[j] as int].path@,
{
    let x = group@[j];
    let said = action_text(
        review@[x as int],
        doomed@[x as int],
        *disposal,
        outcome@[x as int],
    );
    assert(is_member_row(out, i as int, j, group@, index, fps, group@[j], said));
    lemma_cells(out.rows@[j]);
    assert(texts(out.rows@[j]@)[0] == out.rows@[j]@[0]@);
    assert(texts(out.rows@[j]@)[1] == out.rows@[j]@[1]@);
    assert(texts(out.rows@[j]@)[2] == out.rows@[j]@[2]@);
}

/// A table of groups is the names of its columns, and then the rows of each: those of more
/// groups follow those of the first ones.
pub proof fn lemma_a_table_goes_on_with_more_groups(
    groups: &Vec<GroupRows>,
    more: &Vec<GroupRows>,
    both: &Vec<GroupRows>,
    none: &Vec<GroupRows>,
    text: Option<String>,
    other: Option<String>,
    whole: Option<String>,
    head: Option<String>,
)
    requires
        both@ == groups@ + more@,
        none@.len() == 0,
        call_ensures(csv_report, (groups,), text),
        call_ensures(csv_report, (more,), other),
        call_ensures(csv_report, (both,), whole),
        call_ensures(csv_report, (none,), head),
    ensures
        text is Some && other is Some && whole is Some && head is Some,
        whole->0@.len() + head->0@.len() == text->0@.len() + other->0@.len(),
        head->0@.is_prefix_of(other->0@),
        whole->0@ == text->0@ + other->0@.skip(head->0@.len() as int),
{
    let top = head->0@;
    assert(groups_rows_text(none@) =~= Seq::<char>::empty());
    lemma_rows_go_on(groups@, more@);
    assert(other->0@.skip(top.len() as int) =~= groups_rows_text(more@));
    assert(whole->0@ =~= text->0@ + other->0@.skip(top.len() as int));
    assert(other->0@.take(top.len() as int) =~= top);
}

proof fn lemma_rows_go_on(a: Seq<GroupRows>, b: Seq<GroupRows>)
    ensures
        groups_rows_text(a + b) == groups_rows_text(a)
            + groups_rows_text(b),
        listing_text(a + b) == listing_text(a)
            + listing_text(b),
    decreases b.len(),
{
    if b.len() == 0 {
        assert(a + b =~= a);
        assert(groups_rows_text(a) =~= groups_rows_text(a)
            + groups_rows_text(b));
        assert(listing_text(a) =~= listing_text(a)
            + listing_text(b));
    } else {
        let less = b.drop_last();
        lemma_rows_go_on(a, less);
        assert((a + b).drop_last() =~= a + less);
        assert((a + b).last() == b.last());
        assert(groups_rows_text(a + b) =~= groups_rows_text(a)
            + groups_rows_text(b));
        assert(listing_text(a + b) =~= listing_text(a)
            + listing_text(b));
    }
}

/// A listing is its groups one after the other, and the summary last. A group is its name
/// and a colon, a line for each file, and an empty line.
pub proof fn lemma_a_listing_goes_on_with_more_groups(
    groups: &Vec<GroupRows>,
    more: &Vec<GroupRows>,
    both: &Vec<GroupRows>,
    nothing: &str,
    summary: &str,
    text: String,
    whole: String,
    other: String,
)
    requires
        both@ == groups@ + more@,
        nothing@.len() == 0,
        call_ensures(txt_report, (groups, nothing), text),
        call_ensures(txt_report, (more, summary), other),
        call_ensures(txt_report, (both, summary), whole),
    ensures
        text@.len() > 0,
        whole@ == text@.drop_last() + other@,
        more@.len() == 0 ==> other@ == summary@ + "\n"@,
        more@.len() == 1 && more@[0].lines@.len() == 0 ==> other@ == more@[0].name@ + ":\n\n"@
            + summary@ + "\n"@,
        more@.len() == 1 && more@[0].lines@.len() == 1 ==> other@ == more@[0].name@ + ":\n"@
            + more@[0].lines@[0]@ + "\n\n"@ + summary@ + "\n"@,
{
    reveal_strlit("\n");
    reveal_strlit(":\n");
    reveal_strlit("\n\n");
    reveal_strlit(":\n\n");
    lemma_rows_go_on(groups@, more@);
    assert(text@.drop_last() =~= listing_text(groups@));
    assert(whole@ =~= text@.drop_last() + other@);
    reveal_with_fuel(listing_text, 2);
    reveal_with_fuel(lines_text, 2);
    if more@.len() == 0 {
        assert(other@ =~= summary@ + "\n"@);
    } else if more@.len() == 1 && more@[0].lines@.len() == 0 {
        assert(other@ =~= more@[0].name@ + ":\n\n"@ + summary@ + "\n"@);
    } else if more@.len() == 1 && more@[0].lines@.len() == 1 {
        assert(other@ =~= more@[0].name@ + ":\n"@ + more@[0].lines@[0]@ + "\n\n"@ + summary@
            + "\n"@);
    }
}

/// An entry tells of a file what its row does.
pub proof fn lemma_what_an_entry_says_of_a_file(
    label: &str,
    fp: &VideoFingerprint,
    links: &Vec<GroupLink>,
    fps: &[VideoFingerprint],
    e: FileEntry,
    group: &str,
    cells: Vec<String>,
    bps: u64,
    bits: u64,
    rate: u64,
    t: u64,
)
    requires
        call_ensures(file_entry, (label, fp, links, fps), e),
        call_ensures(row, (group, label, fp, links, fps), cells),
        call_ensures(VideoFingerprint::bitrate, (fp,), bps),
        call_ensures(VideoFingerprint::quality, (fp,), bits),
        call_ensures(rate_thousandths, (fp.frame_rate,), rate),
        rate < 0x8000_0000_0000_0000,
        fp.duration.num() <= u128::MAX,
        0 < fp.duration.den() <= u128::MAX,
        call_ensures(nearest_up, (100, fp.duration.num() as u128, fp.duration.den() as u128), t),
        t < 0x8000_0000_0000_0000,
    ensures
        e.action@ == cells@[1]@,
        e.full_path@ == cells@[2]@,
        e.length@ == cells@[3]@,
        e.length_seconds == if fp.duration.num() > 0 {
            Some(t)
        } else {
            None
        },
        e.resolution@ == cells@[5]@,
        e.width == fp.width,
        e.height == fp.height,
        e.framerate_fps == if fp.frame_rate.num() > 0 {
            Some(rate)
        } else {
            None
        },
        e.codec@ == cells@[9]@,
        e.size@ == cells@[10]@,
        e.size_bytes == fp.file_size,
        e.bitrate@ == cells@[12]@,
        e.bitrate_bps == bps,
        e.quality@ == cells@[14]@,
        e.quality_bits_per_frame == if bits > 0 {
            Some(bits)
        } else {
            None
        },
        e.samples == fp.valid_hashes@.len(),
        e.matches@.len() == links@.len(),
        links@.len() == 0 <==> e.matched_with is None,
        e.matched_with matches Some(path) ==> path@ == cells@[16]@,
{
    lemma_cells(cells);
    assert forall|k: int| 0 <= k < 23 implies #[trigger] texts(cells@)[k] == cells@[k]@ by {}
    if links@.len() > 0 {
        assert(is_link_entry(e.matches@[0], fp, links@[0], fps@));
    }
}

/// An entry tells of each link which file it leads to, how long the footage is where the
/// file's runtime is known, and where it lies: to the second for reading, and to the
/// nearest hundredth.
pub proof fn lemma_what_an_entry_says_of_a_link(
    label: &str,
    fp: &VideoFingerprint,
    links: &Vec<GroupLink>,
    fps: &[VideoFingerprint],
    e: FileEntry,
    i: int,
    from: String,
    to: String,
)
    requires
        call_ensures(file_entry, (label, fp, links, fps), e),
        0 <= i < links@.len(),
        links@[i].span is Some ==> call_ensures(
            clock,
            ((links@[i].span->0.start_ms / 1000) as u64,),
            from,
        ) && call_ensures(clock, ((links@[i].span->0.end_ms / 1000) as u64,), to),
        links@[i].matched_seconds.share.whole() * links@[i].matched_seconds.runtime.den() > 0,
    ensures
        e.matches@.len() == links@.len(),
        e.matches@[i].full_path@ == fps@[links@[i].other as int].path@,
        e.matches@[i].matched_seconds is Some <==> fp.duration.num() > 0,
        e.matches@[i].matched_seconds matches Some(t) ==> t < 0x8000_0000_0000_0000 ==> {
            let f = links@[i].matched_seconds;
            let (n, d) = (
                100 * (f.share.part() * f.runtime.num()),
                f.share.whole() * f.runtime.den(),
            );
            (2 * t - 1) * d <= 2 * n < (2 * t + 1) * d
        },
        links@[i].span is None ==> e.matches@[i].matched_from is None && e.matches@[i].matched_to
            is None && e.matches@[i].matched_from_seconds is None
            && e.matches@[i].matched_to_seconds is None,
        links@[i].span matches Some(s) ==> {
            &&& e.matches@[i].matched_from matches Some(x) && x@ == from@
            &&& e.matches@[i].matched_to matches Some(x) && x@ == to@
            &&& e.matches@[i].matched_from_seconds matches Some(t) && (2 * t - 1) * 10 <= 2
                * s.start_ms < (2 * t + 1) * 10
            &&& e.matches@[i].matched_to_seconds matches Some(t) && (2 * t - 1) * 10 <= 2 * s.end_ms
                < (2 * t + 1) * 10
        },
{
    assert(is_link_entry(e.matches@[i], fp, links@[i], fps@));
    if let Some(t) = e.matches@[i].matched_seconds {
        let f = links@[i].matched_seconds;
        let (n, d) = (100 * (f.share.part() * f.runtime.num()), f.share.whole() * f.runtime.den());
        lemma_half_up(n, d);
    }
    if let Some(s) = links@[i].span {
        lemma_half_up(s.start_ms as nat * 100, 1000);
        lemma_half_up(s.end_ms as nat * 100, 1000);
    }
}

proof fn lemma_half_up(n: nat, d: nat)
    requires
        d > 0,
    ensures
        (2 * rounded_up(n, d) - 1) * d <= 2 * n < (2 * rounded_up(n, d) + 1) * d,
{
    let (q, r) = ((n / d) as int, (n % d) as int);
    let (m, e) = (n as int, d as int);
    vstd::arithmetic::div_mod::lemma_fundamental_div_mod(m, e);
    vstd::arithmetic::div_mod::lemma_mod_bound(m, e);
    assert((2 * q + 1) * e == 2 * (e * q) + e) by (nonlinear_arith);
    assert((2 * q - 1) * e == 2 * (e * q) - e) by (nonlinear_arith);
    assert((2 * (q + 1) + 1) * e == 2 * (e * q) + 3 * e) by (nonlinear_arith);
    assert((2 * (q + 1) - 1) * e == 2 * (e * q) + e) by (nonlinear_arith);
}

/// A document holds the figures of the run, each under its own name, and a group with an
/// entry for each member.
pub proof fn lemma_what_a_document_holds(
    groups: &Vec<Vec<usize>>,
    fps: &[VideoFingerprint],
    index: &MatchIndex,
    elapsed: u64,
    results: &Results,
    doc: Document,
    mode: &'static str,
)
    requires
        call_ensures(document, (groups, fps, index, elapsed, results), doc),
        results.disposal is Some ==> call_ensures(
            Disposal::mode,
            (&results.disposal->0,),
            mode,
        ),
    ensures
        doc.results@.len() == groups@.len(),
        doc.summary.total_groups == groups@.len(),
        doc.summary.total_files_matched == results.matched_files,
        doc.summary.time_elapsed_seconds == elapsed,
        doc.summary.files_marked_delete == results.fates.delete@.len(),
        doc.summary.reclaimable_bytes == results.reclaimable_bytes,
        doc.summary.deletion_enabled <==> results.disposal is Some,
        results.disposal is None ==> doc.summary.mode@ == "report"@,
        results.disposal is Some ==> doc.summary.mode@ == mode@,
        results.disposal matches Some(Disposal::MoveTo(dir)) ==> (doc.summary.move_to matches Some(
            told,
        ) && told@ == dir@),
        !(results.disposal matches Some(Disposal::MoveTo(dir))) ==> doc.summary.move_to is None,
        doc.summary.files_removed == results.tally.removed_count,
        doc.summary.bytes_removed == results.tally.removed_bytes,
        doc.summary.files_unlinked == results.tally.aliased_count,
        doc.summary.bytes_unlinked == results.tally.aliased_bytes,
        doc.summary.files_failed == results.tally.failed_count,
        doc.summary.files_changed == results.tally.changed_count,
{
}

/// A document's group is that of the report: under its name, with an entry for each
/// member in order, each of that file, with what is to become of it.
pub proof fn lemma_a_document_has_an_entry_for_each_member(
    groups: &Vec<Vec<usize>>,
    fps: &[VideoFingerprint],
    index: &MatchIndex,
    elapsed: u64,
    results: &Results,
    doc: Document,
    i: usize,
    j: int,
    name: String,
    label: &'static str,
)
    requires
        call_ensures(document, (groups, fps, index, elapsed, results), doc),
        i < groups@.len(),
        0 <= j < groups@[i as int]@.len(),
        call_ensures(group_name, (i,), name),
        call_ensures(
            action,
            (
                results.fates.review@[groups@[i as int]@[j] as int],
                results.fates.doomed@[groups@[i as int]@[j] as int],
                &results.disposal,
                results.tally.outcome@[groups@[i as int]@[j] as int],
            ),
            label,
        ),
    ensures
        doc.results@[i as int].group@ == name@,
        doc.results@[i as int].files@.len() == groups@[i as int]@.len(),
        doc.results@[i as int].files@[j].full_path@ == fps@[groups@[i as int]@[j] as int].path@,
        doc.results@[i as int].files@[j].action@ == label@,
{
    let e = doc.results@[i as int];
    assert(is_group_entry(e, i as int, groups@[i as int]@, index, fps, results));
    let group = groups@[i as int]@;
    let x = group[j];
    let said = action_text(
        results.fates.review@[x as int],
        results.fates.doomed@[x as int],
        results.disposal,
        results.tally.outcome@[x as int],
    );
    assert(is_member_entry(e.files@[j], group, index, fps, group[j], said));
}

} // verus!
