//! What a search finds in the lines of one file.

use crate::descriptor::Located;
use crate::letters::bytes_of;
use crate::occurrence::{first_occurrence, is_first_occurrence, lemma_first_occurrence, occurs};
use crate::unicode::trimmed;
use vstd::prelude::*;

verus! {

/// What has been read of a text, line by line: the lines that are complete,
/// each with the line feed that ends it, and the start of the line that is
/// still open.
pub struct Lining {
    pub done: Seq<Seq<char>>,
    pub open: Seq<char>,
}

impl Lining {
    /// The lines, the open one included if it holds anything.
    pub open spec fn all(self) -> Seq<Seq<char>> {
        if self.open.len() > 0 {
            self.done.push(self.open)
        } else {
            self.done
        }
    }

    /// The lining after one more character: every character joins the open
    /// line, and a line feed completes it.
    pub open spec fn read(self, c: char) -> Lining {
        if c == '\n' {
            Lining { done: self.done.push(self.open.push(c)), open: seq![] }
        } else {
            Lining { done: self.done, open: self.open.push(c) }
        }
    }
}

/// The lining of a whole text, read from left to right.
pub open spec fn lining_of(text: Seq<char>) -> Lining
    decreases text.len(),
{
    if text.len() == 0 {
        Lining { done: seq![], open: seq![] }
    } else {
        lining_of(text.drop_last()).read(text.last())
    }
}

/// The raw lines of a text: each line ends with its line feed, which belongs
/// to it, as does a carriage return before the line feed; only the last
/// line may lack a line feed, and no line is empty.
pub open spec fn raw_lines_of(text: Seq<char>) -> Seq<Seq<char>> {
    lining_of(text).all()
}

/// The texts of `lines` one after another.
pub open spec fn lines_joined(lines: Seq<Seq<char>>) -> Seq<char>
    decreases lines.len(),
{
    if lines.len() == 0 {
        seq![]
    } else {
        lines_joined(lines.drop_last()) + lines.last()
    }
}

/// The bytes of two texts one after another are the bytes of the one, then
/// the bytes of the other.
pub proof fn lemma_bytes_of_concat(left: Seq<char>, right: Seq<char>)
    ensures
        bytes_of(left + right) == bytes_of(left) + bytes_of(right),
    decreases left.len(),
{
    if left.len() == 0 {
        assert(left + right =~= right);
        assert(bytes_of(left) + bytes_of(right) =~= bytes_of(right));
    } else {
        assert((left + right).drop_first() =~= left.drop_first() + right);
        lemma_bytes_of_concat(left.drop_first(), right);
        assert(bytes_of(left + right) =~= bytes_of(left) + bytes_of(right));
    }
}

/// Lines hold together as many bytes as the text they make.
pub proof fn lemma_bytes_in_joined(lines: Seq<Seq<char>>)
    ensures
        bytes_in(lines) == bytes_of(lines_joined(lines)).len(),
    decreases lines.len(),
{
    if lines.len() > 0 {
        lemma_bytes_in_joined(lines.drop_last());
        lemma_bytes_of_concat(lines_joined(lines.drop_last()), lines.last());
    }
}

/// The raw lines of a text make the text again, and hold as many bytes as
/// the text.
pub proof fn lemma_raw_lines_make_the_text(text: Seq<char>)
    ensures
        lines_joined(raw_lines_of(text)) == text,
        bytes_in(raw_lines_of(text)) == bytes_of(text).len(),
{
    lemma_lining_makes_the_text(text);
    let end = lining_of(text);
    if end.open.len() > 0 {
        assert(end.all().drop_last() =~= end.done);
    } else {
        assert(lines_joined(end.done) + end.open =~= lines_joined(end.done));
    }
    lemma_bytes_in_joined(raw_lines_of(text));
}

proof fn lemma_lining_makes_the_text(text: Seq<char>)
    ensures
        lines_joined(lining_of(text).done) + lining_of(text).open == text,
    decreases text.len(),
{
    if text.len() == 0 {
        assert(lines_joined(lining_of(text).done) + lining_of(text).open =~= text);
    } else {
        lemma_lining_makes_the_text(text.drop_last());
        let before = lining_of(text.drop_last());
        let after = lining_of(text);
        let c = text.last();
        assert(text =~= text.drop_last().push(c));
        if c == '\n' {
            assert(after.done.drop_last() =~= before.done);
            assert(lines_joined(after.done) + after.open =~= (lines_joined(before.done)
                + before.open).push(c));
        } else {
            assert(lines_joined(after.done) + after.open =~= (lines_joined(before.done)
                + before.open).push(c));
        }
    }
}

/// The number of bytes that `lines` hold together.
pub open spec fn bytes_in(lines: Seq<Seq<char>>) -> nat
    decreases lines.len(),
{
    if lines.len() == 0 {
        0
    } else {
        bytes_in(lines.drop_last()) + bytes_of(lines.last()).len()
    }
}

/// The record for `pattern` in one line, if the line holds the pattern.
/// `row` is the number of the line and `before` the number of bytes in the
/// lines above it. The column is that of the leftmost occurrence in the raw
/// line; the record keeps the line without the white space at its ends.
pub open spec fn located_in_line(
    path: Seq<char>,
    row: nat,
    before: nat,
    line: Seq<char>,
    pattern: Seq<char>,
) -> Option<Located> {
    match first_occurrence(bytes_of(line), bytes_of(pattern)) {
        Some(col) => Some(
            Located {
                path,
                row,
                col: col as nat,
                pos: (before + col) as nat,
                len: bytes_of(pattern).len(),
                line: trimmed(line),
            },
        ),
        None => None,
    }
}

/// The records of one line: one for each pattern that the line holds, in the
/// order of the patterns.
pub open spec fn line_matches(
    path: Seq<char>,
    row: nat,
    before: nat,
    line: Seq<char>,
    patterns: Seq<Seq<char>>,
) -> Seq<Located>
    decreases patterns.len(),
{
    if patterns.len() == 0 {
        seq![]
    } else {
        let earlier = line_matches(path, row, before, line, patterns.drop_last());
        match located_in_line(path, row, before, line, patterns.last()) {
            Some(record) => earlier.push(record),
            None => earlier,
        }
    }
}

/// The records of a file: those of its first line, then those of its second
/// line, and so on. Lines are numbered from one, and each line, matched or
/// not, adds its bytes to the offset of the lines below it.
pub open spec fn file_matches(
    path: Seq<char>,
    lines: Seq<Seq<char>>,
    patterns: Seq<Seq<char>>,
) -> Seq<Located>
    decreases lines.len(),
{
    if lines.len() == 0 {
        seq![]
    } else {
        file_matches(path, lines.drop_last(), patterns) + line_matches(
            path,
            lines.len(),
            bytes_in(lines.drop_last()),
            lines.last(),
            patterns,
        )
    }
}

/// The descriptors of `records`, in order.
pub open spec fn descriptors(records: Seq<Located>) -> Seq<Seq<char>> {
    records.map_values(|record: Located| record.descriptor())
}

/// What a search reports for the records it found: nothing when there are
/// none, else their descriptors in order.
pub open spec fn reported(records: Seq<Located>) -> Option<Seq<Seq<char>>> {
    if records.len() == 0 {
        None
    } else {
        Some(descriptors(records))
    }
}

/// The first lines of a file hold no more bytes than the whole file.
pub proof fn lemma_bytes_in_prefix(lines: Seq<Seq<char>>, count: int)
    requires
        0 <= count <= lines.len(),
    ensures
        bytes_in(lines.take(count)) <= bytes_in(lines),
    decreases lines.len(),
{
    if count == lines.len() {
        assert(lines.take(count) =~= lines);
    } else {
        lemma_bytes_in_prefix(lines.drop_last(), count);
        assert(lines.drop_last().take(count) =~= lines.take(count));
    }
}

/// Every record of a line stems from one of the patterns.
pub proof fn lemma_line_record(
    path: Seq<char>,
    row: nat,
    before: nat,
    line: Seq<char>,
    patterns: Seq<Seq<char>>,
    index: int,
)
    requires
        0 <= index < line_matches(path, row, before, line, patterns).len(),
    ensures
        exists|p: int|
            0 <= p < patterns.len() && located_in_line(
                path,
                row,
                before,
                line,
                #[trigger] patterns[p],
            ) == Some(line_matches(path, row, before, line, patterns)[index]),
    decreases patterns.len(),
{
    let earlier = line_matches(path, row, before, line, patterns.drop_last());
    if index < earlier.len() {
        lemma_line_record(path, row, before, line, patterns.drop_last(), index);
        let p = choose|p: int|
            0 <= p < patterns.drop_last().len() && located_in_line(
                path,
                row,
                before,
                line,
                #[trigger] patterns.drop_last()[p],
            ) == Some(earlier[index]);
        assert(patterns[p] == patterns.drop_last()[p]);
    } else {
        let p = patterns.len() - 1;
        assert(located_in_line(path, row, before, line, patterns[p]) == Some(
            line_matches(path, row, before, line, patterns)[index],
        ));
    }
}

/// The records of one line come in the order of the patterns that they
/// stem from.
pub proof fn lemma_line_records_in_order(
    path: Seq<char>,
    row: nat,
    before: nat,
    line: Seq<char>,
    patterns: Seq<Seq<char>>,
    first: int,
    second: int,
)
    requires
        0 <= first < second < line_matches(path, row, before, line, patterns).len(),
    ensures
        exists|p: int, q: int|
            {
                &&& 0 <= p < q < patterns.len()
                &&& located_in_line(path, row, before, line, #[trigger] patterns[p]) == Some(
                    line_matches(path, row, before, line, patterns)[first],
                )
                &&& located_in_line(path, row, before, line, #[trigger] patterns[q]) == Some(
                    line_matches(path, row, before, line, patterns)[second],
                )
            },
    decreases patterns.len(),
{
    let shorter = patterns.drop_last();
    let earlier = line_matches(path, row, before, line, shorter);
    let records = line_matches(path, row, before, line, patterns);
    if second < earlier.len() {
        lemma_line_records_in_order(path, row, before, line, shorter, first, second);
        let (p, q) = choose|p: int, q: int|
            {
                &&& 0 <= p < q < shorter.len()
                &&& located_in_line(path, row, before, line, #[trigger] shorter[p]) == Some(
                    earlier[first],
                )
                &&& located_in_line(path, row, before, line, #[trigger] shorter[q]) == Some(
                    earlier[second],
                )
            };
        assert(patterns[p] == shorter[p]);
        assert(patterns[q] == shorter[q]);
        assert(records[first] == earlier[first]);
        assert(records[second] == earlier[second]);
    } else {
        lemma_line_record(path, row, before, line, shorter, first);
        let p = choose|p: int|
            0 <= p < shorter.len() && located_in_line(
                path,
                row,
                before,
                line,
                #[trigger] shorter[p],
            ) == Some(earlier[first]);
        let q = patterns.len() - 1;
        assert(patterns[p] == shorter[p]);
        assert(records[first] == earlier[first]);
        assert(located_in_line(path, row, before, line, patterns[q]) == Some(records[second]));
    }
}

/// The offsets of a record are those of the place where its pattern stands.
///
/// Every record that a file gives lies on one of its lines and stems from one
/// of the patterns: its row is the number of that line, its column the
/// leftmost offset of the pattern in the raw line, its length that of the
/// pattern, and its position the number of bytes in all the lines above, line
/// terminators included, plus the column.
pub proof fn lemma_match_offsets(
    path: Seq<char>,
    lines: Seq<Seq<char>>,
    patterns: Seq<Seq<char>>,
    index: int,
)
    requires
        0 <= index < file_matches(path, lines, patterns).len(),
    ensures
        ({
            let record = file_matches(path, lines, patterns)[index];
            let above = bytes_in(lines.take(record.row - 1));
            &&& 1 <= record.row <= lines.len()
            &&& record.pos == above + record.col
            &&& exists|p: int|
                0 <= p < patterns.len() && located_in_line(
                    path,
                    record.row,
                    above,
                    lines[record.row - 1],
                    #[trigger] patterns[p],
                ) == Some(record)
        }),
    decreases lines.len(),
{
    let upper = file_matches(path, lines.drop_last(), patterns);
    let record = file_matches(path, lines, patterns)[index];
    if index < upper.len() {
        lemma_match_offsets(path, lines.drop_last(), patterns, index);
        assert(record == upper[index]);
        let shorter = lines.drop_last();
        let p = choose|p: int|
            0 <= p < patterns.len() && located_in_line(
                path,
                record.row,
                bytes_in(shorter.take(record.row - 1)),
                shorter[record.row - 1],
                #[trigger] patterns[p],
            ) == Some(record);
        lemma_first_occurrence(bytes_of(shorter[record.row - 1]), bytes_of(patterns[p]));
        assert(shorter.take(record.row - 1) =~= lines.take(record.row - 1));
        assert(shorter[record.row - 1] == lines[record.row - 1]);
        assert(located_in_line(
            path,
            record.row,
            bytes_in(lines.take(record.row - 1)),
            lines[record.row - 1],
            patterns[p],
        ) == Some(record));
    } else {
        let before = bytes_in(lines.drop_last());
        let row = lines.len();
        let here = line_matches(path, row, before, lines.last(), patterns);
        assert(record == here[index - upper.len()]);
        lemma_line_record(path, row, before, lines.last(), patterns, index - upper.len());
        let p = choose|p: int|
            0 <= p < patterns.len() && located_in_line(
                path,
                row,
                before,
                lines.last(),
                #[trigger] patterns[p],
            ) == Some(record);
        lemma_first_occurrence(bytes_of(lines.last()), bytes_of(patterns[p]));
        assert(record.row == row);
        assert(lines.take(record.row - 1) =~= lines.drop_last());
        assert(located_in_line(
            path,
            record.row,
            bytes_in(lines.take(record.row - 1)),
            lines[record.row - 1],
            patterns[p],
        ) == Some(record));
    }
}

/// One pattern gives one line at most one record, at the leftmost place
/// where the line holds the pattern, however often it holds it; a line that
/// does not hold the pattern gives none.
pub proof fn lemma_first_occurrence_only(
    path: Seq<char>,
    row: nat,
    before: nat,
    line: Seq<char>,
    pattern: Seq<char>,
)
    ensures
        ({
            let records = line_matches(path, row, before, line, seq![pattern]);
            if occurs(bytes_of(line), bytes_of(pattern)) {
                &&& records.len() == 1
                &&& is_first_occurrence(bytes_of(line), bytes_of(pattern), records[0].col as int)
                &&& records[0].pos == before + records[0].col
            } else {
                records.len() == 0
            }
        }),
{
    lemma_first_occurrence(bytes_of(line), bytes_of(pattern));
    let patterns = seq![pattern];
    assert(patterns.drop_last() =~= Seq::<Seq<char>>::empty());
    assert(line_matches(path, row, before, line, patterns.drop_last()).len() == 0);
    match first_occurrence(bytes_of(line), bytes_of(pattern)) {
        Some(col) => {
            assert(is_first_occurrence(bytes_of(line), bytes_of(pattern), col));
        },
        None => {},
    }
}

/// The records among `records` that lie on line `row`, in order.
pub open spec fn on_row(records: Seq<Located>, row: nat) -> Seq<Located>
    decreases records.len(),
{
    if records.len() == 0 {
        seq![]
    } else if records.last().row == row {
        on_row(records.drop_last(), row).push(records.last())
    } else {
        on_row(records.drop_last(), row)
    }
}

proof fn lemma_on_row_concat(left: Seq<Located>, right: Seq<Located>, row: nat)
    ensures
        on_row(left + right, row) == on_row(left, row) + on_row(right, row),
    decreases right.len(),
{
    if right.len() == 0 {
        assert(left + right =~= left);
        assert(on_row(left, row) + on_row(right, row) =~= on_row(left, row));
    } else {
        lemma_on_row_concat(left, right.drop_last(), row);
        assert((left + right).drop_last() =~= left + right.drop_last());
        assert((left + right).last() == right.last());
        if right.last().row == row {
            assert(on_row(left, row) + on_row(right.drop_last(), row).push(right.last()) =~= (
            on_row(left, row) + on_row(right.drop_last(), row)).push(right.last()));
        }
    }
}

proof fn lemma_on_row_all_or_none(records: Seq<Located>, row: nat)
    ensures
        (forall|i: int| 0 <= i < records.len() ==> (#[trigger] records[i]).row == row) ==> on_row(
            records,
            row,
        ) == records,
        (forall|i: int| 0 <= i < records.len() ==> (#[trigger] records[i]).row != row) ==> on_row(
            records,
            row,
        ) == Seq::<Located>::empty(),
    decreases records.len(),
{
    if records.len() > 0 {
        lemma_on_row_all_or_none(records.drop_last(), row);
        let shorter = records.drop_last();
        if forall|i: int| 0 <= i < records.len() ==> (#[trigger] records[i]).row == row {
            assert forall|i: int| 0 <= i < shorter.len() implies (#[trigger] shorter[i]).row
                == row by {
                assert(shorter[i] == records[i]);
            }
            assert(records.last() == records[records.len() - 1]);
            assert(shorter.push(records.last()) =~= records);
        }
        if forall|i: int| 0 <= i < records.len() ==> (#[trigger] records[i]).row != row {
            assert forall|i: int| 0 <= i < shorter.len() implies (#[trigger] shorter[i]).row
                != row by {
                assert(shorter[i] == records[i]);
            }
            assert(records.last() == records[records.len() - 1]);
        }
    }
}

/// Every record of a line carries the number of that line.
pub proof fn lemma_line_rows(
    path: Seq<char>,
    row: nat,
    before: nat,
    line: Seq<char>,
    patterns: Seq<Seq<char>>,
)
    ensures
        forall|i: int|
            0 <= i < line_matches(path, row, before, line, patterns).len() ==> (
            #[trigger] line_matches(path, row, before, line, patterns)[i]).row == row,
    decreases patterns.len(),
{
    if patterns.len() > 0 {
        lemma_line_rows(path, row, before, line, patterns.drop_last());
        let earlier = line_matches(path, row, before, line, patterns.drop_last());
        let records = line_matches(path, row, before, line, patterns);
        assert forall|i: int| 0 <= i < records.len() implies (#[trigger] records[i]).row
            == row by {
            if i < earlier.len() {
                assert(records[i] == earlier[i]);
            }
        }
    }
}

/// The records that a file gives for one of its lines are the records of
/// that line, with the bytes of the lines above it as their offset: what one
/// line gives does not depend on what the other lines hold.
pub proof fn lemma_records_of_a_line(
    path: Seq<char>,
    lines: Seq<Seq<char>>,
    patterns: Seq<Seq<char>>,
    index: int,
)
    requires
        0 <= index < lines.len(),
    ensures
        on_row(file_matches(path, lines, patterns), (index + 1) as nat) == line_matches(
            path,
            (index + 1) as nat,
            bytes_in(lines.take(index)),
            lines[index],
            patterns,
        ),
    decreases lines.len(),
{
    let row = (index + 1) as nat;
    let upper = file_matches(path, lines.drop_last(), patterns);
    let here = line_matches(
        path,
        lines.len(),
        bytes_in(lines.drop_last()),
        lines.last(),
        patterns,
    );
    lemma_on_row_concat(upper, here, row);
    lemma_line_rows(path, lines.len(), bytes_in(lines.drop_last()), lines.last(), patterns);
    lemma_on_row_all_or_none(here, row);
    lemma_on_row_all_or_none(upper, row);
    if index == lines.len() - 1 {
        assert forall|i: int| 0 <= i < upper.len() implies (#[trigger] upper[i]).row != row by {
            lemma_match_offsets(path, lines.drop_last(), patterns, i);
        }
        assert(lines.take(index) =~= lines.drop_last());
        assert(on_row(upper, row) + here =~= here);
    } else {
        lemma_records_of_a_line(path, lines.drop_last(), patterns, index);
        assert(lines.drop_last().take(index) =~= lines.take(index));
        assert(lines.drop_last()[index] == lines[index]);
        assert(on_row(upper, row) + Seq::<Located>::empty() =~= on_row(upper, row));
    }
}

/// One pattern gives each line of a file at most one record, at the
/// leftmost place where the line holds the pattern, however often the line
/// holds it; a line that does not hold the pattern gives none.
pub proof fn lemma_one_record_per_line(
    path: Seq<char>,
    lines: Seq<Seq<char>>,
    pattern: Seq<char>,
    index: int,
)
    requires
        0 <= index < lines.len(),
    ensures
        ({
            let records = on_row(file_matches(path, lines, seq![pattern]), (index + 1) as nat);
            let line = bytes_of(lines[index]);
            if occurs(line, bytes_of(pattern)) {
                &&& records.len() == 1
                &&& is_first_occurrence(line, bytes_of(pattern), records[0].col as int)
                &&& records[0].pos == bytes_in(lines.take(index)) + records[0].col
            } else {
                records.len() == 0
            }
        }),
{
    lemma_records_of_a_line(path, lines, seq![pattern], index);
    lemma_first_occurrence_only(
        path,
        (index + 1) as nat,
        bytes_in(lines.take(index)),
        lines[index],
        pattern,
    );
}

/// A line gives no more records than there are patterns.
pub proof fn lemma_line_matches_len(
    path: Seq<char>,
    row: nat,
    before: nat,
    line: Seq<char>,
    patterns: Seq<Seq<char>>,
)
    ensures
        line_matches(path, row, before, line, patterns).len() <= patterns.len(),
    decreases patterns.len(),
{
    if patterns.len() > 0 {
        lemma_line_matches_len(path, row, before, line, patterns.drop_last());
    }
}

/// Rows never fall from one record of a file to the next, and a later line
/// never gives a position before that of an earlier line.
pub proof fn lemma_rows_ascend(
    path: Seq<char>,
    lines: Seq<Seq<char>>,
    patterns: Seq<Seq<char>>,
    first: int,
    second: int,
)
    requires
        0 <= first <= second < file_matches(path, lines, patterns).len(),
    ensures
        ({
            let records = file_matches(path, lines, patterns);
            &&& records[first].row <= records[second].row
            &&& records[first].row < records[second].row ==> records[first].pos
                <= records[second].pos
        }),
    decreases lines.len(),
{
    let upper = file_matches(path, lines.drop_last(), patterns);
    let records = file_matches(path, lines, patterns);
    if second < upper.len() {
        lemma_rows_ascend(path, lines.drop_last(), patterns, first, second);
        assert(records[first] == upper[first]);
        assert(records[second] == upper[second]);
    } else {
        let early = records[first];
        let late = records[second];
        lemma_match_offsets(path, lines, patterns, second);
        lemma_match_offsets(path, lines, patterns, first);
        let before = bytes_in(lines.drop_last());
        let here = line_matches(path, lines.len(), before, lines.last(), patterns);
        assert(late == here[second - upper.len()]);
        lemma_line_record(path, lines.len(), before, lines.last(), patterns, second - upper.len());
        assert(late.row == lines.len());
        if early.row < late.row {
            let above = bytes_in(lines.take(early.row - 1));
            let line = lines[early.row - 1];
            let p = choose|p: int|
                0 <= p < patterns.len() && located_in_line(
                    path,
                    early.row,
                    above,
                    line,
                    #[trigger] patterns[p],
                ) == Some(early);
            lemma_first_occurrence(bytes_of(line), bytes_of(patterns[p]));
            assert(is_first_occurrence(bytes_of(line), bytes_of(patterns[p]), early.col as int));
            assert(early.col <= bytes_of(line).len());
            let through = lines.take(early.row as int);
            assert(through.drop_last() =~= lines.take(early.row - 1));
            assert(through.last() == line);
            assert(early.pos <= bytes_in(through));
            lemma_bytes_in_prefix(lines.drop_last(), early.row as int);
            assert(lines.drop_last().take(early.row as int) =~= through);
            assert(lines.take(late.row - 1) =~= lines.drop_last());
        }
    }
}

} // verus!
