//! The error type of the library, and its mathematical model.
use vstd::prelude::*;

verus! {

#[verifier::external_type_specification]
#[verifier::external_body]
pub struct ExIoError(std::io::Error);

/// Everything that can go wrong while reading a test file or taking a case's arguments.
#[derive(Debug)]
pub enum DataDrivenError {
    /// A directive line or a case block is malformed.
    Parse(String),
    /// A test file could not be read.
    Io(std::io::Error),
    /// Another error, placed at a line of a file.
    WithContext { line: usize, filename: String, inner: Box<DataDrivenError> },
    /// An argument is missing, has the wrong number of values, or does not parse.
    Argument(String),
    /// Arguments were left over after a case was handled.
    DidntUseAllArguments(Vec<String>),
}

/// The model of an error: its text as character sequences.
pub enum ErrorView {
    Parse(Seq<char>),
    Io,
    WithContext { line: nat, filename: Seq<char>, inner: Box<ErrorView> },
    Argument(Seq<char>),
    DidntUseAllArguments(Seq<Seq<char>>),
}

impl View for DataDrivenError {
    type V = ErrorView;

    open spec fn view(&self) -> ErrorView
        decreases self,
    {
        match self {
            DataDrivenError::Parse(m) => ErrorView::Parse(m@),
            DataDrivenError::Io(_) => ErrorView::Io,
            DataDrivenError::WithContext { line, filename, inner } => ErrorView::WithContext {
                line: *line as nat,
                filename: filename@,
                inner: Box::new((**inner).view()),
            },
            DataDrivenError::Argument(m) => ErrorView::Argument(m@),
            DataDrivenError::DidntUseAllArguments(keys) => ErrorView::DidntUseAllArguments(
                keys@.map_values(|k: String| k@),
            ),
        }
    }
}

/// The error placed at `line`: a context keeps its file name and takes the new line,
/// any other error gets a context with an empty file name.
pub open spec fn at_line(e: ErrorView, line: nat) -> ErrorView {
    match e {
        ErrorView::WithContext { filename, inner, .. } => ErrorView::WithContext {
            line,
            filename,
            inner,
        },
        _ => ErrorView::WithContext { line, filename: seq![], inner: Box::new(e) },
    }
}

/// The error placed in file `name`: a context keeps its line, any other error gets line 0.
pub open spec fn in_file(e: ErrorView, name: Seq<char>) -> ErrorView {
    match e {
        ErrorView::WithContext { line, inner, .. } => ErrorView::WithContext {
            line,
            filename: name,
            inner,
        },
        _ => ErrorView::WithContext { line: 0, filename: name, inner: Box::new(e) },
    }
}

impl DataDrivenError {
    /// Places the error at a line of its file.
    pub fn with_line(self, line: usize) -> (r: Self)
        ensures
            r@ == at_line(self@, line as nat),
    {
        match self {
            DataDrivenError::WithContext { filename, inner, .. } => DataDrivenError::WithContext {
                line,
                filename,
                inner,
            },
            e => DataDrivenError::WithContext { line, filename: String::new(), inner: Box::new(e) },
        }
    }

    /// Places the error in a file.
    pub fn with_filename(self, filename: String) -> (r: Self)
        ensures
            r@ == in_file(self@, filename@),
    {
        match self {
            DataDrivenError::WithContext { line, inner, .. } => DataDrivenError::WithContext {
                line,
                filename,
                inner,
            },
            e => DataDrivenError::WithContext { line: 0, filename, inner: Box::new(e) },
        }
    }
}

} // verus!
