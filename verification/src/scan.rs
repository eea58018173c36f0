//! The table scanner: a state machine over the lines of a text that finds
//! the header line behind the first blank line, then reads rows until the
//! next blank line.

use crate::record::{
    column_names, lemma_zip_fields_names, record_views, str_views, views, zip_fields, Fields,
    Record,
};
use crate::rules::{
    blank_pattern, gap_pattern, is_blank, line_fields, line_is_blank, regex_accepts, split_fields,
    RuleError,
};
use vstd::prelude::*;

verus! {

/// Where the scanner stands. The states are passed through in this order and
/// never left backwards.
#[derive(Clone, Copy, Debug, PartialEq, Eq, Structural)]
pub enum ScanState {
    /// Before the table: waiting for a blank line.
    SeekTable,
    /// Behind the blank line: the next line is the header.
    ReadHeader,
    /// Behind the header: every line is a row, until a blank one.
    ReadTable,
    /// Behind the table.
    End,
}

/// What the scanner needs of one line.
pub struct Line<'a> {
    /// Whether the line is blank.
    pub blank: bool,
    /// The fields that the line splits into.
    pub fields: Vec<&'a str>,
}

/// A line in contracts.
pub struct LineView {
    pub blank: bool,
    pub fields: Seq<Seq<char>>,
}

impl<'a> View for Line<'a> {
    type V = LineView;

    open spec fn view(&self) -> LineView {
        LineView { blank: self.blank, fields: str_views(self.fields@) }
    }
}

/// A scanner in contracts.
pub struct ScanView {
    pub state: ScanState,
    pub headers: Seq<Seq<char>>,
    pub records: Seq<Fields>,
    pub pins_parsed: nat,
}

/// The scanner before the first line.
pub open spec fn initial() -> ScanView {
    ScanView {
        state: ScanState::SeekTable,
        headers: Seq::empty(),
        records: Seq::empty(),
        pins_parsed: 0,
    }
}

/// Whether `line`, met in state `s`, becomes a record: it is a row of the
/// table, not blank, and has as many fields as there are headers.
pub open spec fn accepts(s: ScanView, line: LineView) -> bool {
    s.state == ScanState::ReadTable && !line.blank && line.fields.len() == s.headers.len()
}

/// The scanner after one more line.
pub open spec fn step(s: ScanView, line: LineView) -> ScanView {
    match s.state {
        ScanState::SeekTable => if line.blank {
            ScanView { state: ScanState::ReadHeader, ..s }
        } else {
            s
        },
        ScanState::ReadHeader => ScanView { state: ScanState::ReadTable, headers: line.fields, ..s },
        ScanState::ReadTable => if line.blank {
            ScanView { state: ScanState::End, pins_parsed: s.records.len(), ..s }
        } else if line.fields.len() == s.headers.len() {
            ScanView { records: s.records.push(zip_fields(s.headers, line.fields)), ..s }
        } else {
            s
        },
        ScanState::End => ScanView { pins_parsed: s.records.len(), ..s },
    }
}

/// The scanner after all of `lines`.
pub open spec fn run(lines: Seq<LineView>) -> ScanView
    decreases lines.len(),
{
    if lines.len() == 0 {
        initial()
    } else {
        step(run(lines.drop_last()), lines.last())
    }
}

/// What the line rules make of a line of text.
pub open spec fn line_view(line: Seq<char>) -> LineView {
    LineView { blank: line_is_blank(line), fields: line_fields(line) }
}

/// What the line rules make of each line of a text.
pub open spec fn line_views(lines: Seq<Seq<char>>) -> Seq<LineView> {
    Seq::new(lines.len(), |i: int| line_view(lines[i]))
}

/// Whether the line rules that state `state` asks of `line` can be applied:
/// the patterns that they need are accepted as regular expressions. Before the
/// table a line is asked whether it is blank, the header line is split, a row
/// is asked whether it is blank and split if it is not, and behind the table
/// nothing is asked.
pub open spec fn rules_suffice(state: ScanState, line: Seq<char>) -> bool {
    match state {
        ScanState::SeekTable => regex_accepts(blank_pattern()),
        ScanState::ReadHeader => regex_accepts(gap_pattern()),
        ScanState::ReadTable => regex_accepts(blank_pattern()) && (line_is_blank(line)
            || regex_accepts(gap_pattern())),
        ScanState::End => true,
    }
}

/// Whether the rules can be applied to line `i` of `text`, in the state in
/// which the lines before it leave the scanner.
pub open spec fn rules_suffice_at(text: Seq<Seq<char>>, i: int) -> bool {
    rules_suffice(run(line_views(text).take(i)).state, text[i])
}

/// Whether the rules can be applied to every line of `text`.
pub open spec fn scan_succeeds(text: Seq<Seq<char>>) -> bool {
    forall|i: int| 0 <= i < text.len() ==> #[trigger] rules_suffice_at(text, i)
}

/// The positions of the lines of `lines` that become records.
pub open spec fn accepted_lines(lines: Seq<LineView>) -> Set<int> {
    Set::new(|i: int| 0 <= i < lines.len() && accepts(run(lines.take(i)), lines[i]))
}

/// The place of a state in the order in which the states are passed through.
pub open spec fn rank(state: ScanState) -> nat {
    match state {
        ScanState::SeekTable => 0,
        ScanState::ReadHeader => 1,
        ScanState::ReadTable => 2,
        ScanState::End => 3,
    }
}

/// A line moves the scanner forward by at most one state and never back, and
/// it takes no record away.
pub proof fn lemma_step_forward(s: ScanView, line: LineView)
    ensures
        rank(s.state) <= rank(step(s, line).state) <= rank(s.state) + 1,
        s.records.len() <= step(s, line).records.len() <= s.records.len() + 1,
        step(s, line).records.take(s.records.len() as int) == s.records,
        step(s, line).records.len() == s.records.len() + 1 <==> accepts(s, line),
{
    assert(step(s, line).records.take(s.records.len() as int) =~= s.records);
}

/// There are as many records as there are lines that were met while reading
/// the table, were not blank, and split into as many fields as there are
/// headers. No other line leaves a record.
pub proof fn lemma_record_count(lines: Seq<LineView>)
    ensures
        accepted_lines(lines).finite(),
        run(lines).records.len() == accepted_lines(lines).len(),
    decreases lines.len(),
{
    if lines.len() == 0 {
        assert(accepted_lines(lines) =~= Set::<int>::empty());
    } else {
        let d = lines.drop_last();
        let n = lines.len() - 1;
        lemma_record_count(d);
        lemma_step_forward(run(d), lines.last());
        assert(lines.take(n) =~= d);
        assert forall|i: int| 0 <= i < n implies lines.take(i) == d.take(i) by {
            assert(lines.take(i) =~= d.take(i));
        }
        if accepts(run(d), lines.last()) {
            assert(accepted_lines(lines) =~= accepted_lines(d).insert(n));
        } else {
            assert(accepted_lines(lines) =~= accepted_lines(d));
        }
    }
}

/// Scanning depends on the text alone: two scans of one text end in the same
/// state with the same headers and the same records.
pub proof fn lemma_scan_repeatable(text: Seq<Seq<char>>, first: ScanView, second: ScanView)
    requires
        first == run(line_views(text)),
        second == run(line_views(text)),
    ensures
        first.state == second.state,
        first.headers == second.headers,
        first.records == second.records,
        first.pins_parsed == second.pins_parsed,
{
}

/// Every record has exactly the header names as its fields, and the pins
/// count, once the end of the table is passed, is the number of records.
pub proof fn lemma_scan_invariant(lines: Seq<LineView>)
    ensures
        forall|j: int|
            0 <= j < run(lines).records.len() ==> (#[trigger] run(lines).records[j]).dom()
                == column_names(run(lines).headers, run(lines).headers.len()),
        rank(run(lines).state) < 2 ==> run(lines).records.len() == 0,
        run(lines).state == ScanState::End ==> run(lines).pins_parsed == run(lines).records.len(),
        run(lines).state != ScanState::End ==> run(lines).pins_parsed == 0,
    decreases lines.len(),
{
    if lines.len() > 0 {
        let before = run(lines.drop_last());
        let line = lines.last();
        lemma_scan_invariant(lines.drop_last());
        if accepts(before, line) {
            lemma_zip_fields_names(before.headers, line.fields, before.headers.len());
        }
    }
}

/// The table scanner.
pub struct Scanner {
    state: ScanState,
    headers: Vec<String>,
    records: Vec<Record>,
    pins_parsed: usize,
}

impl View for Scanner {
    type V = ScanView;

    closed spec fn view(&self) -> ScanView {
        ScanView {
            state: self.state,
            headers: views(self.headers@),
            records: record_views(self.records@),
            pins_parsed: self.pins_parsed as nat,
        }
    }
}

impl Scanner {
    /// A scanner that has seen no line.
    pub fn new() -> (s: Scanner)
        ensures
            s@ == initial(),
    {
        let s = Scanner {
            state: ScanState::SeekTable,
            headers: Vec::new(),
            records: Vec::new(),
            pins_parsed: 0,
        };
        assert(s@.headers =~= Seq::empty());
        assert(s@.records =~= Seq::empty());
        s
    }

    /// Takes the next line.
    pub fn feed(&mut self, line: Line)
        ensures
            final(self)@ == step(old(self)@, line@),
    {
        match self.state {
            ScanState::SeekTable => {
                if line.blank {
                    self.state = ScanState::ReadHeader;
                }
            },
            ScanState::ReadHeader => {
                let mut headers: Vec<String> = Vec::new();
                let mut i: usize = 0;
                while i < line.fields.len()
                    invariant
                        i <= line.fields.len(),
                        headers.len() == i,
                        forall|j: int| 0 <= j < i ==> headers[j]@ == line.fields[j]@,
                    decreases line.fields.len() - i,
                {
                    headers.push(line.fields[i].to_owned());
                    i += 1;
                }
                assert(views(headers@) =~= str_views(line.fields@));
                self.headers = headers;
                self.state = ScanState::ReadTable;
            },
            ScanState::ReadTable => {
                if line.blank {
                    self.pins_parsed = self.records.len();
                    self.state = ScanState::End;
                } else if line.fields.len() == self.headers.len() {
                    let record = Record::new(self.headers.as_slice(), line.fields.as_slice());
                    assert(record_views(self.records@.push(record)) =~= record_views(
                        self.records@,
                    ).push(record@));
                    self.records.push(record);
                }
            },
            ScanState::End => {
                self.pins_parsed = self.records.len();
            },
        }
    }

    /// Takes the next line of text: asks the line rules what the state needs
    /// to know of it, then moves as [`Scanner::feed`] does. When a rule cannot
    /// be applied the scanner stays as it was.
    pub fn feed_line(&mut self, line: &str) -> (r: Result<(), RuleError>)
        ensures
            r is Ok <==> rules_suffice(old(self)@.state, line@),
            r is Ok ==> final(self)@ == step(old(self)@, line_view(line@)),
            r is Err ==> final(self)@ == old(self)@,
    {
        let blank = match self.state {
            ScanState::SeekTable | ScanState::ReadTable => match is_blank(line) {
                Ok(b) => b,
                Err(e) => {
                    return Err(e);
                },
            },
            _ => false,
        };
        let fields = match self.state {
            ScanState::ReadHeader => match split_fields(line) {
                Ok(v) => v,
                Err(e) => {
                    return Err(e);
                },
            },
            ScanState::ReadTable => if blank {
                Vec::new()
            } else {
                match split_fields(line) {
                    Ok(v) => v,
                    Err(e) => {
                        return Err(e);
                    },
                }
            },
            _ => Vec::new(),
        };
        self.feed(Line { blank, fields });
        Ok(())
    }

    /// The state that the scanner is in.
    pub fn state(&self) -> (s: ScanState)
        ensures
            s == self@.state,
    {
        self.state
    }

    /// The header names, in column order; empty until the header is read.
    pub fn headers(&self) -> (h: &Vec<String>)
        ensures
            views(h@) == self@.headers,
    {
        &self.headers
    }

    /// The records read so far, in line order.
    pub fn records(&self) -> (r: &Vec<Record>)
        ensures
            record_views(r@) == self@.records,
    {
        &self.records
    }

    /// The size of the table as recorded behind its end; zero before that.
    pub fn pins_parsed(&self) -> (n: usize)
        ensures
            n == self@.pins_parsed,
    {
        self.pins_parsed
    }
}

/// Scans a whole text, line by line. The scan succeeds exactly if the line
/// rules can be applied to every line that is asked; a text without lines
/// asks nothing.
pub fn scan(lines: &Vec<String>) -> (r: Result<Scanner, RuleError>)
    ensures
        match r {
            Ok(s) => scan_succeeds(views(lines@)) && s@ == run(line_views(views(lines@))),
            Err(RuleError::Pattern) => !scan_succeeds(views(lines@)),
        },
{
    let mut scanner = Scanner::new();
    let ghost text = views(lines@);
    let ghost all = line_views(text);
    let mut i: usize = 0;
    assert(all.take(0) =~= Seq::<LineView>::empty());
    while i < lines.len()
        invariant
            i <= lines.len(),
            text == views(lines@),
            all == line_views(text),
            scanner@ == run(all.take(i as int)),
            forall|j: int| 0 <= j < i ==> #[trigger] rules_suffice_at(text, j),
        decreases lines.len() - i,
    {
        assert(text[i as int] == lines[i as int]@);
        match scanner.feed_line(lines[i].as_str()) {
            Ok(()) => {},
            Err(e) => {
                assert(!rules_suffice_at(text, i as int));
                return Err(e);
            },
        }
        proof {
            let t = all.take(i as int + 1);
            assert(t.drop_last() =~= all.take(i as int));
            assert(t.last() == line_view(lines[i as int]@));
        }
        i += 1;
    }
    assert(all.take(lines.len() as int) =~= all);
    Ok(scanner)
}

} // verus!
