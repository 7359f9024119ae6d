//! Match records and their encoding as one line of text.

use crate::decimal::{decimal, decimal_string, is_decimal_digit, lemma_decimal_digits};
use vstd::prelude::*;
use vstd::string::StringExecFns;

verus! {

/// One located occurrence of one pattern in one line of one file.
#[derive(Clone, Debug, PartialEq, Eq)]
pub struct MatchRecord {
    /// The file the match was found in.
    pub path: String,
    /// The number of the line within the file, counted from one.
    pub row: usize,
    /// The byte offset of the match within the line.
    pub col: usize,
    /// The byte offset of the match from the start of the file.
    pub pos: usize,
    /// The length of the pattern in bytes.
    pub len: usize,
    /// The line the match occurred on, without surrounding white space.
    pub line: String,
}

/// A match record as a mathematical value.
pub struct Located {
    pub path: Seq<char>,
    pub row: nat,
    pub col: nat,
    pub pos: nat,
    pub len: nat,
    pub line: Seq<char>,
}

impl View for MatchRecord {
    type V = Located;

    open spec fn view(&self) -> Located {
        Located {
            path: self.path@,
            row: self.row as nat,
            col: self.col as nat,
            pos: self.pos as nat,
            len: self.len as nat,
            line: self.line@,
        }
    }
}

impl Located {
    /// The descriptor of the record: the path in round brackets, the four
    /// numbers in square brackets with commas between them, then the line.
    /// Nothing is escaped.
    pub open spec fn descriptor(self) -> Seq<char> {
        seq!['('] + self.path + seq![')', '['] + decimal(self.row) + seq![','] + decimal(self.col)
            + seq![','] + decimal(self.pos) + seq![','] + decimal(self.len) + seq![']']
            + self.line
    }

    /// The six fields of the record as texts, in the order in which a
    /// descriptor holds them.
    pub open spec fn fields(self) -> Seq<Seq<char>> {
        seq![
            self.path,
            decimal(self.row),
            decimal(self.col),
            decimal(self.pos),
            decimal(self.len),
            self.line,
        ]
    }
}

/// What the decoder holds while it reads: the fields closed so far and the
/// characters gathered for the field that is still open.
pub struct Decoding {
    pub closed: Seq<Seq<char>>,
    pub open: Seq<char>,
}

impl Decoding {
    /// The decoder before it has read anything.
    pub open spec fn start() -> Decoding {
        Decoding { closed: seq![], open: seq![] }
    }

    /// Closes the open field and opens an empty one.
    pub open spec fn close(self) -> Decoding {
        Decoding { closed: self.closed.push(self.open), open: seq![] }
    }

    /// Appends `c` to the open field.
    pub open spec fn gather(self, c: char) -> Decoding {
        Decoding { closed: self.closed, open: self.open.push(c) }
    }

    /// The decoder after it has read `c`.
    ///
    /// While no field is closed, the path is open: `)` closes it and any
    /// other character joins it. While one to four fields are closed, a
    /// number is open: `,` and `]` close it, a decimal digit joins it and
    /// any other character is dropped. Once five fields are closed,
    /// every character joins the line.
    pub open spec fn read(self, c: char) -> Decoding {
        if self.closed.len() == 0 {
            if c == ')' {
                self.close()
            } else {
                self.gather(c)
            }
        } else if self.closed.len() < 5 {
            if c == ',' || c == ']' {
                self.close()
            } else if is_decimal_digit(c) {
                self.gather(c)
            } else {
                self
            }
        } else {
            self.gather(c)
        }
    }

    /// The decoder after it has read all of `text`, from left to right.
    pub open spec fn read_all(self, text: Seq<char>) -> Decoding
        decreases text.len(),
    {
        if text.len() == 0 {
            self
        } else {
            self.read_all(text.drop_last()).read(text.last())
        }
    }

    /// The fields when reading ends: those closed, then the open one.
    pub open spec fn finish(self) -> Seq<Seq<char>> {
        self.closed.push(self.open)
    }
}

/// The fields that decoding gives for `found`: the first character is
/// skipped, whatever it is, and the rest is read by the decoder.
pub open spec fn decoded(found: Seq<char>) -> Seq<Seq<char>> {
    if found.len() == 0 {
        Decoding::start().finish()
    } else {
        Decoding::start().read_all(found.drop_first()).finish()
    }
}

impl Decoding {
    /// Reading a text in two parts is reading the whole.
    pub proof fn lemma_read_all_concat(self, left: Seq<char>, right: Seq<char>)
        ensures
            self.read_all(left + right) == self.read_all(left).read_all(right),
        decreases right.len(),
    {
        if right.len() == 0 {
            assert(left + right =~= left);
        } else {
            assert((left + right).drop_last() =~= left + right.drop_last());
            assert((left + right).last() == right.last());
            self.lemma_read_all_concat(left, right.drop_last());
        }
    }

    /// Reading one character.
    pub proof fn lemma_read_one(self, c: char)
        ensures
            self.read_all(seq![c]) == self.read(c),
    {
        assert(seq![c].drop_last() =~= Seq::<char>::empty());
        assert(self.read_all(seq![c].drop_last()) == self);
    }

    /// The decoder gathers the whole of `text` into the open field when that
    /// field is the path and `text` holds no `)`, when it is a number and
    /// `text` holds digits only, or when it is the line.
    pub proof fn lemma_read_gathers(self, text: Seq<char>)
        requires
            self.closed.len() == 0 ==> forall|i: int| 0 <= i < text.len() ==> text[i] != ')',
            1 <= self.closed.len() < 5 ==> forall|i: int|
                0 <= i < text.len() ==> is_decimal_digit(#[trigger] text[i]),
        ensures
            self.read_all(text) == (Decoding { closed: self.closed, open: self.open + text }),
        decreases text.len(),
    {
        if text.len() == 0 {
            assert(self.open + text =~= self.open);
        } else {
            self.lemma_read_gathers(text.drop_last());
            let c = text.last();
            assert(c == text[text.len() - 1]);
            assert(is_decimal_digit(c) ==> c != ',' && c != ']');
            assert((self.open + text.drop_last()).push(c) =~= self.open + text);
        }
    }
}

/// Decoding undoes encoding: the descriptor of a record whose path holds no
/// `)` decodes into the six fields of that record, the numbers written in
/// base ten. The line may hold anything.
pub proof fn lemma_decode_encode(record: Located)
    requires
        forall|i: int| 0 <= i < record.path.len() ==> record.path[i] != ')',
    ensures
        decoded(record.descriptor()) == record.fields(),
{
    lemma_decimal_digits(record.row);
    lemma_decimal_digits(record.col);
    lemma_decimal_digits(record.pos);
    lemma_decimal_digits(record.len);
    let row = decimal(record.row);
    let col = decimal(record.col);
    let pos = decimal(record.pos);
    let len = decimal(record.len);
    let t1 = record.path;
    let t2 = t1 + seq![')'];
    let t3 = t2 + seq!['['];
    let t4 = t3 + row;
    let t5 = t4 + seq![','];
    let t6 = t5 + col;
    let t7 = t6 + seq![','];
    let t8 = t7 + pos;
    let t9 = t8 + seq![','];
    let t10 = t9 + len;
    let t11 = t10 + seq![']'];
    let t12 = t11 + record.line;
    assert(record.descriptor().drop_first() =~= t12);
    let s0 = Decoding::start();
    let s1 = s0.read_all(t1);
    s0.lemma_read_gathers(t1);
    assert(s1.open =~= record.path);
    let s2 = s1.read(')');
    s0.lemma_read_all_concat(t1, seq![')']);
    s1.lemma_read_one(')');
    let s3 = s2.read('[');
    s0.lemma_read_all_concat(t2, seq!['[']);
    s2.lemma_read_one('[');
    assert(s3 == s2);
    let s4 = s3.read_all(row);
    s0.lemma_read_all_concat(t3, row);
    s3.lemma_read_gathers(row);
    assert(s4.open =~= row);
    let s5 = s4.read(',');
    s0.lemma_read_all_concat(t4, seq![',']);
    s4.lemma_read_one(',');
    let s6 = s5.read_all(col);
    s0.lemma_read_all_concat(t5, col);
    s5.lemma_read_gathers(col);
    assert(s6.open =~= col);
    let s7 = s6.read(',');
    s0.lemma_read_all_concat(t6, seq![',']);
    s6.lemma_read_one(',');
    let s8 = s7.read_all(pos);
    s0.lemma_read_all_concat(t7, pos);
    s7.lemma_read_gathers(pos);
    assert(s8.open =~= pos);
    let s9 = s8.read(',');
    s0.lemma_read_all_concat(t8, seq![',']);
    s8.lemma_read_one(',');
    let s10 = s9.read_all(len);
    s0.lemma_read_all_concat(t9, len);
    s9.lemma_read_gathers(len);
    assert(s10.open =~= len);
    let s11 = s10.read(']');
    s0.lemma_read_all_concat(t10, seq![']']);
    s10.lemma_read_one(']');
    let s12 = s11.read_all(record.line);
    s0.lemma_read_all_concat(t11, record.line);
    s11.lemma_read_gathers(record.line);
    assert(s12.open =~= record.line);
    assert(s0.read_all(t12) == s12);
    assert(s12.finish() =~= record.fields());
}

/// Decoding gives at least one field and at most six.
pub proof fn lemma_decoded_len(found: Seq<char>)
    ensures
        1 <= decoded(found).len() <= 6,
{
    if found.len() > 0 {
        lemma_closed_len(found.drop_first());
    }
}

proof fn lemma_closed_len(text: Seq<char>)
    ensures
        Decoding::start().read_all(text).closed.len() <= 5,
    decreases text.len(),
{
    if text.len() > 0 {
        lemma_closed_len(text.drop_last());
    }
}

impl MatchRecord {
    /// Encodes the record as its descriptor.
    pub fn encode(&self) -> (text: String)
        ensures
            text@ == self@.descriptor(),
    {
        encode_fields(
            self.path.as_str(),
            self.row,
            self.col,
            self.pos,
            self.len,
            self.line.as_str(),
        )
    }
}

/// Encodes the six fields of a match record as a descriptor.
pub fn encode_fields(path: &str, row: usize, col: usize, pos: usize, len: usize, line: &str) -> (text:
    String)
    ensures
        text@ == (Located {
            path: path@,
            row: row as nat,
            col: col as nat,
            pos: pos as nat,
            len: len as nat,
            line: line@,
        }).descriptor(),
{
    proof {
        reveal_strlit("(");
        reveal_strlit(")[");
        reveal_strlit(",");
        reveal_strlit("]");
    }
    let mut text = String::from_str("(");
    text.append(path);
    text.append(")[");
    text.append(decimal_string(row).as_str());
    text.append(",");
    text.append(decimal_string(col).as_str());
    text.append(",");
    text.append(decimal_string(pos).as_str());
    text.append(",");
    text.append(decimal_string(len).as_str());
    text.append("]");
    text.append(line);
    assert(text@ =~= (Located {
        path: path@,
        row: row as nat,
        col: col as nat,
        pos: pos as nat,
        len: len as nat,
        line: line@,
    }).descriptor());
    text
}

} // verus!
