//! The decisions of file-processor mode: exit codes, which export targets
//! are accepted, the messages it prints, and what happens to the result of
//! each statement of a script.
//!
//! Reading the script, parsing and running statements and writing files are
//! done by the caller, which hands each outcome to a [`Script`] and acts on
//! its answer.

use vstd::prelude::*;
use crate::text::push_decimal;
use crate::text::decimal;
use crate::value::{copy_text, copy_value, QueryResult, ResultView, Val, Value};

verus! {

/// The exit code of file-processor mode.
#[derive(Debug, Clone, Copy, PartialEq, Eq, Structural)]
pub enum ExitCode {
    /// Every statement ran and the output was written.
    Success,
    /// The input file or the export target could not be used.
    SetupError,
    /// The script does not parse.
    ParseError,
    /// A statement failed when it ran.
    ExecutionError,
}

/// The number of an exit code: 0, 1, 2 and 3 in declaration order.
pub open spec fn exit_number(code: ExitCode) -> i32 {
    match code {
        ExitCode::Success => 0,
        ExitCode::SetupError => 1,
        ExitCode::ParseError => 2,
        ExitCode::ExecutionError => 3,
    }
}

impl ExitCode {
    /// The process exit code.
    pub fn as_i32(&self) -> (r: i32)
        ensures
            r == exit_number(*self),
    {
        match self {
            ExitCode::Success => 0,
            ExitCode::SetupError => 1,
            ExitCode::ParseError => 2,
            ExitCode::ExecutionError => 3,
        }
    }
}

/// The formats a result can be exported in.
#[derive(Debug, Clone, Copy, PartialEq, Eq, Structural)]
pub enum ExportFormat {
    Csv,
    Xlsx,
    Json,
    Txt,
    Xml,
}

/// The format an extension selects, if any.
pub open spec fn format_of(ext: Seq<char>) -> Option<ExportFormat> {
    if ext == "csv"@ {
        Some(ExportFormat::Csv)
    } else if ext == "xlsx"@ {
        Some(ExportFormat::Xlsx)
    } else if ext == "json"@ {
        Some(ExportFormat::Json)
    } else if ext == "txt"@ {
        Some(ExportFormat::Txt)
    } else if ext == "xml"@ {
        Some(ExportFormat::Xml)
    } else {
        None
    }
}

/// The message for an extension no format is selected by.
pub open spec fn unsupported_message(ext: Seq<char>) -> Seq<char> {
    "unsupported export type: "@ + ext + "; supported: csv, xlsx, json, txt, xml"@
}

/// Whether two texts hold the same characters.
pub fn same_text(a: &str, b: &str) -> (r: bool)
    ensures
        r == (a@ == b@),
{
    let n = a.unicode_len();
    if n != b.unicode_len() {
        return false;
    }
    let mut i: usize = 0;
    while i < n
        invariant
            n == a@.len(),
            n == b@.len(),
            i <= n,
            a@.take(i as int) == b@.take(i as int),
        decreases n - i,
    {
        if a.get_char(i) != b.get_char(i) {
            assert(a@[i as int] != b@[i as int]);
            return false;
        }
        assert(a@.take(i + 1) =~= a@.take(i as int).push(a@[i as int]));
        assert(b@.take(i + 1) =~= b@.take(i as int).push(b@[i as int]));
        i = i + 1;
    }
    assert(a@.take(n as int) =~= a@);
    assert(b@.take(n as int) =~= b@);
    true
}

/// The export format an extension selects: `csv`, `xlsx`, `json`, `txt` or
/// `xml`; any other extension is refused with a message that lists them.
pub fn export_format(ext: &str) -> (r: Result<ExportFormat, String>)
    ensures
        match r {
            Ok(f) => format_of(ext@) == Some(f),
            Err(m) => format_of(ext@) is None && m@ == unsupported_message(ext@),
        },
{
    if same_text(ext, "csv") {
        Ok(ExportFormat::Csv)
    } else if same_text(ext, "xlsx") {
        Ok(ExportFormat::Xlsx)
    } else if same_text(ext, "json") {
        Ok(ExportFormat::Json)
    } else if same_text(ext, "txt") {
        Ok(ExportFormat::Txt)
    } else if same_text(ext, "xml") {
        Ok(ExportFormat::Xml)
    } else {
        let mut m = String::from_str("unsupported export type: ");
        m.append(ext);
        m.append("; supported: csv, xlsx, json, txt, xml");
        Err(m)
    }
}

/// Whether an export target's extension (`None` where the path has none)
/// selects a format.
pub fn is_supported_extension(ext: Option<&str>) -> (r: bool)
    ensures
        r == match ext {
            Some(e) => format_of(e@) is Some,
            None => false,
        },
{
    match ext {
        Some(e) => export_format(e).is_ok(),
        None => false,
    }
}

/// What the caller found at one step of setting a script up, in the order
/// the steps come: the input file is looked for and read, the export target
/// is checked, and the script is parsed.
pub enum SetupEvent {
    /// The input file does not exist.
    Missing,
    /// Reading the input file failed, with the reader's message.
    ReadFailed(String),
    /// The input file was read. The extension of the export target's path,
    /// where the path has one (not looked at when not exporting).
    Read(Option<String>),
    /// The script does not parse, with the parser's message.
    ParseFailed(String),
    /// The script parsed into this many statements, blank ones left out.
    Parsed(usize),
}

/// The content of a [`SetupEvent`].
pub ghost enum SetupEventView {
    Missing,
    ReadFailed(Seq<char>),
    Read(Option<Seq<char>>),
    ParseFailed(Seq<char>),
    Parsed(nat),
}

impl View for SetupEvent {
    type V = SetupEventView;

    open spec fn view(&self) -> SetupEventView {
        match self {
            SetupEvent::Missing => SetupEventView::Missing,
            SetupEvent::ReadFailed(e) => SetupEventView::ReadFailed(e@),
            SetupEvent::Read(ext) => SetupEventView::Read(ext.deep_view()),
            SetupEvent::ParseFailed(e) => SetupEventView::ParseFailed(e@),
            SetupEvent::Parsed(n) => SetupEventView::Parsed(*n as nat),
        }
    }
}

/// What to do after a step of setting a script up.
pub enum Step {
    /// Go on to the next step.
    Go,
    /// Stop: print the message, if any, and exit with the code.
    Stop { message: Option<String>, code: ExitCode },
}

/// The content of a [`Step`].
pub ghost enum StepView {
    Go,
    Stop(Option<Seq<char>>, ExitCode),
}

impl View for Step {
    type V = StepView;

    open spec fn view(&self) -> StepView {
        match self {
            Step::Go => StepView::Go,
            Step::Stop { message, code } => StepView::Stop(message.deep_view(), *code),
        }
    }
}

/// An optional text, or the empty text.
pub open spec fn text_or_empty(t: Option<Seq<char>>) -> Seq<char> {
    match t {
        Some(s) => s,
        None => Seq::empty(),
    }
}

/// The step that follows an event of setting up the script at `path`: a
/// missing or unreadable file, or an export target whose extension selects
/// no format, stops with the setup error; a script that does not parse
/// stops with the parse error; a script without statements stops with
/// success, hinting `no statements` only when it is neither silent nor
/// exporting; anything else goes on.
pub open spec fn setup_outcome(
    path: Seq<char>,
    silent: bool,
    exporting: bool,
    event: SetupEventView,
) -> StepView {
    match event {
        SetupEventView::Missing => StepView::Stop(
            Some("no input file: "@ + path),
            ExitCode::SetupError,
        ),
        SetupEventView::ReadFailed(e) => StepView::Stop(
            Some("failed to read "@ + path + ": "@ + e),
            ExitCode::SetupError,
        ),
        SetupEventView::Read(ext) => if exporting && format_of(text_or_empty(ext)) is None {
            StepView::Stop(Some(unsupported_message(text_or_empty(ext))), ExitCode::SetupError)
        } else {
            StepView::Go
        },
        SetupEventView::ParseFailed(e) => StepView::Stop(
            Some(path + ": "@ + e),
            ExitCode::ParseError,
        ),
        SetupEventView::Parsed(n) => if n == 0 {
            StepView::Stop(
                if !silent && !exporting {
                    Some("no statements"@)
                } else {
                    None
                },
                ExitCode::Success,
            )
        } else {
            StepView::Go
        },
    }
}

/// Decides the step after an event of setting up the script at `path`,
/// run quietly when `silent` and exported when `exporting`.
pub fn setup_step(path: &str, silent: bool, exporting: bool, event: SetupEvent) -> (r: Step)
    ensures
        r@ == setup_outcome(path@, silent, exporting, event@),
{
    match event {
        SetupEvent::Missing => {
            let mut m = String::from_str("no input file: ");
            m.append(path);
            Step::Stop { message: Some(m), code: ExitCode::SetupError }
        },
        SetupEvent::ReadFailed(e) => {
            let mut m = String::from_str("failed to read ");
            m.append(path);
            m.append(": ");
            m.append(e.as_str());
            Step::Stop { message: Some(m), code: ExitCode::SetupError }
        },
        SetupEvent::Read(ext) => {
            if !exporting {
                return Step::Go;
            }
            let e = match &ext {
                Some(x) => x.as_str(),
                None => {
                    proof {
                        reveal_strlit("");
                    }
                    ""
                },
            };
            assert(e@ == text_or_empty(ext.deep_view()));
            match export_format(e) {
                Ok(_) => Step::Go,
                Err(m) => Step::Stop { message: Some(m), code: ExitCode::SetupError },
            }
        },
        SetupEvent::ParseFailed(e) => {
            let mut m = String::from_str(path);
            m.append(": ");
            m.append(e.as_str());
            Step::Stop { message: Some(m), code: ExitCode::ParseError }
        },
        SetupEvent::Parsed(n) => {
            if n > 0 {
                Step::Go
            } else if !silent && !exporting {
                Step::Stop { message: Some(String::from_str("no statements")), code: ExitCode::Success }
            } else {
                Step::Stop { message: None, code: ExitCode::Success }
            }
        },
    }
}

/// The message and exit code when the export target cannot be written.
pub fn export_failure(target: &str, error: &str) -> (r: (String, ExitCode))
    ensures
        r.0@ == "cannot write "@ + target@ + ": "@ + error@,
        r.1 == ExitCode::SetupError,
{
    let mut m = String::from_str("cannot write ");
    m.append(target);
    m.append(": ");
    m.append(error);
    (m, ExitCode::SetupError)
}

/// A result without columns or rows, exported when a script's last
/// statement produced nothing to export.
pub fn empty_result() -> (r: QueryResult)
    ensures
        r@ == empty_result_view(),
{
    let r = QueryResult {
        columns: Vec::new(),
        column_sources: Vec::new(),
        rows: Vec::new(),
        elapsed_ms: 0,
        rows_affected: 0,
    };
    assert(r@.columns =~= Seq::<Seq<char>>::empty());
    assert(r@.sources =~= Seq::<Option<Seq<char>>>::empty());
    assert(r@.rows =~= Seq::<Seq<crate::value::Val>>::empty());
    r
}

/// The progress of a script through file-processor mode: how many of its
/// statements have been handled, and the result kept for export.
pub struct Script {
    silent: bool,
    exporting: bool,
    statements: usize,
    done: usize,
    kept: Option<QueryResult>,
    params: Vec<(String, Value)>,
}

/// The content of a [`Script`].
pub ghost struct ScriptView {
    pub silent: bool,
    pub exporting: bool,
    pub statements: nat,
    pub done: nat,
    pub kept: Option<ResultView>,
    /// The parameters assigned so far, by name.
    pub params: Map<Seq<char>, Val>,
}

/// The parameters a list of assignments leaves, a later one of a name
/// replacing an earlier.
pub open spec fn params_map(entries: Seq<(Seq<char>, Val)>) -> Map<Seq<char>, Val>
    decreases entries.len(),
{
    if entries.len() == 0 {
        Map::empty()
    } else {
        params_map(entries.drop_last()).insert(entries.last().0, entries.last().1)
    }
}

/// The content of an optional result.
pub open spec fn opt_result(r: Option<QueryResult>) -> Option<ResultView> {
    match r {
        Some(q) => Some(q@),
        None => None,
    }
}

impl View for Script {
    type V = ScriptView;

    closed spec fn view(&self) -> ScriptView {
        ScriptView {
            silent: self.silent,
            exporting: self.exporting,
            statements: self.statements as nat,
            done: self.done as nat,
            kept: opt_result(self.kept),
            params: params_map(self.params.deep_view()),
        }
    }
}

impl Script {
    /// A script of `statements` statements (blank ones left out), run
    /// quietly when `silent`, its last result exported when `exporting`.
    pub fn new(silent: bool, exporting: bool, statements: usize) -> (r: Script)
        ensures
            r@ == (ScriptView {
                silent,
                exporting,
                statements: statements as nat,
                done: 0,
                kept: None,
                params: Map::empty(),
            }),
    {
        let r = Script { silent, exporting, statements, done: 0, kept: None, params: Vec::new() };
        assert(r.params.deep_view() =~= Seq::<(Seq<char>, Val)>::empty());
        r
    }

    /// Whether a statement is left to handle.
    pub fn has_next(&self) -> (r: bool)
        ensures
            r == (self@.done < self@.statements),
    {
        self.done < self.statements
    }

    /// Whether an empty script gets the `no statements` hint: only when it
    /// is neither silent nor exporting.
    pub fn hints_empty(&self) -> (r: bool)
        ensures
            r == (self@.statements == 0 && !self@.silent && !self@.exporting),
    {
        self.statements == 0 && !self.silent && !self.exporting
    }

    /// Takes a parameter assignment, the next statement: the parameter is
    /// set when the assignment has a value, and the statement produces no
    /// result either way.
    pub fn on_param(&mut self, name: String, value: Option<Value>)
        requires
            old(self)@.done < old(self)@.statements,
        ensures
            final(self)@ == (ScriptView {
                done: old(self)@.done + 1,
                params: match value {
                    Some(v) => old(self)@.params.insert(name@, v@),
                    None => old(self)@.params,
                },
                ..old(self)@
            }),
    {
        self.done = self.done + 1;
        match value {
            Some(v) => {
                let ghost before = self.params.deep_view();
                let ghost entry = (name@, v@);
                self.params.push((name, v));
                assert(self.params.deep_view() =~= before.push(entry));
                assert(self.params.deep_view().drop_last() =~= before);
            },
            None => {},
        }
    }

    /// Whether any parameter has been set.
    pub fn has_params(&self) -> (r: bool)
        ensures
            r == exists|k: Seq<char>| self@.params.dom().contains(k),
    {
        let n = self.params.len();
        if n > 0 {
            let ghost e = self.params.deep_view();
            assert(e.len() == self.params@.len());
            assert(params_map(e) == params_map(e.drop_last()).insert(e.last().0, e.last().1));
            assert(params_map(e).dom().contains(e.last().0));
            assert(self@.params.dom().contains(e.last().0));
            true
        } else {
            assert(self.params.deep_view() =~= Seq::<(Seq<char>, Val)>::empty());
            assert(params_map(self.params.deep_view()) == Map::<Seq<char>, Val>::empty());
            assert(self@.params == Map::<Seq<char>, Val>::empty());
            false
        }
    }

    /// The parameter assignments with a value, in the order they came: set
    /// in that order, later over earlier, they give the parameters.
    pub fn param_entries(&self) -> (r: Vec<(String, Value)>)
        ensures
            params_map(r.deep_view()) == self@.params,
    {
        let mut out: Vec<(String, Value)> = Vec::new();
        for i in 0..self.params.len()
            invariant
                out.deep_view() == self.params.deep_view().take(i as int),
        {
            let ghost before = out.deep_view();
            let name = copy_text(&self.params[i].0);
            let value = copy_value(&self.params[i].1);
            assert(self.params.deep_view()[i as int] == (self.params@[i as int].0@, self.params@[i as int].1@));
            let ghost entry = (name@, value@);
            out.push((name, value));
            assert(out.deep_view() =~= before.push(entry));
            assert(out.deep_view() =~= self.params.deep_view().take(i + 1));
        }
        assert(self.params.deep_view().take(self.params.len() as int) =~= self.params.deep_view());
        out
    }

    /// Takes the result of the next statement. The last statement's result
    /// is kept for export when exporting; any other result is handed back
    /// to be shown unless the script is silent, and dropped otherwise.
    pub fn on_result(&mut self, result: QueryResult) -> (shown: Option<QueryResult>)
        requires
            old(self)@.done < old(self)@.statements,
        ensures
            final(self)@.silent == old(self)@.silent,
            final(self)@.exporting == old(self)@.exporting,
            final(self)@.statements == old(self)@.statements,
            final(self)@.done == old(self)@.done + 1,
            final(self)@.params == old(self)@.params,
            old(self)@.done + 1 == old(self)@.statements && old(self)@.exporting ==> {
                &&& final(self)@.kept == Some(result@)
                &&& shown is None
            },
            !(old(self)@.done + 1 == old(self)@.statements && old(self)@.exporting) ==> {
                &&& final(self)@.kept == old(self)@.kept
                &&& opt_result(shown) == if old(self)@.silent {
                    None
                } else {
                    Some(result@)
                }
            },
    {
        let is_last = self.done + 1 == self.statements;
        self.done = self.done + 1;
        if is_last && self.exporting {
            self.kept = Some(result);
            None
        } else if !self.silent {
            Some(result)
        } else {
            None
        }
    }

    /// Ends the script at a statement that failed: no later statement runs
    /// and nothing is exported (the script is used up), the message is
    /// `statement N: error` with `N` counted from one, and the exit code is
    /// the execution error.
    pub fn on_failure(self, error: &str) -> (r: (String, ExitCode))
        requires
            self@.done < self@.statements,
        ensures
            r.0@ == "statement "@ + decimal(self@.done + 1) + ": "@ + error@,
            r.1 == ExitCode::ExecutionError,
            exit_number(r.1) == 3,
    {
        let mut m = String::from_str("statement ");
        push_decimal(&mut m, (self.done + 1) as u128);
        m.append(": ");
        m.append(error);
        (m, ExitCode::ExecutionError)
    }

    /// What is exported once every statement ran: the kept result, or an
    /// empty one when the last statement produced none; nothing when not
    /// exporting.
    pub fn finish(self) -> (r: Option<QueryResult>)
        ensures
            !self@.exporting ==> r is None,
            self@.exporting ==> opt_result(r) == Some(
                match self@.kept {
                    Some(k) => k,
                    None => empty_result_view(),
                },
            ),
    {
        if !self.exporting {
            None
        } else {
            match self.kept {
                Some(k) => Some(k),
                None => Some(empty_result()),
            }
        }
    }
}

/// A result without columns or rows.
pub open spec fn empty_result_view() -> ResultView {
    ResultView {
        columns: Seq::empty(),
        sources: Seq::empty(),
        rows: Seq::empty(),
        elapsed_ms: 0,
        rows_affected: 0,
    }
}

/// Exit codes are distinct numbers, so a script can tell every outcome
/// apart.
pub proof fn lemma_exit_codes_distinct(a: ExitCode, b: ExitCode)
    ensures
        exit_number(a) == exit_number(b) <==> a == b,
        0 <= exit_number(a) <= 3,
{
}

} // verus!
