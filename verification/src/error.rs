//! Why a watch is refused.

use crate::decimal;
use vstd::prelude::*;

verus! {

broadcast use vstd::string::group_string_axioms;

/// Why a watch is refused.
#[derive(Debug, Clone)]
pub enum WatchError {
    /// An item of a specification has no `=`.
    InvalidItem { item: String },
    /// A specification gives an empty command.
    EmptyExp,
    /// A period is not a number.
    InvalidPeriod { value: String },
    /// A period is not a positive number.
    NotPositive { field: String },
    /// A text names no measure.
    UnknownMeasure { name: String },
    /// A text names no side.
    UnknownAxis { name: String },
    /// A specification has an item with an unknown key.
    UnknownKey { key: String },
    /// A specification gives no command.
    MissingExp,
    /// A block of a configuration gives no command.
    MissingField { index: usize },
    /// A block of a configuration names no measure where it should.
    InvalidMeasure { index: usize, name: String },
    /// A block of a configuration names no side where it should.
    InvalidAxis { index: usize, name: String },
    /// A configuration has no block.
    NoBlocks,
    /// Both a configuration and specifications are given.
    TwoSources,
    /// Neither a configuration nor a specification is given.
    NoSource,
}

/// A `WatchError` with the characters of its texts.
pub enum Fault {
    InvalidItem { item: Seq<char> },
    EmptyExp,
    InvalidPeriod { value: Seq<char> },
    NotPositive { field: Seq<char> },
    UnknownMeasure { name: Seq<char> },
    UnknownAxis { name: Seq<char> },
    UnknownKey { key: Seq<char> },
    MissingExp,
    MissingField { index: nat },
    InvalidMeasure { index: nat, name: Seq<char> },
    InvalidAxis { index: nat, name: Seq<char> },
    NoBlocks,
    TwoSources,
    NoSource,
}

impl View for WatchError {
    type V = Fault;

    open spec fn view(&self) -> Fault {
        match *self {
            WatchError::InvalidItem { item } => Fault::InvalidItem { item: item@ },
            WatchError::EmptyExp => Fault::EmptyExp,
            WatchError::InvalidPeriod { value } => Fault::InvalidPeriod { value: value@ },
            WatchError::NotPositive { field } => Fault::NotPositive { field: field@ },
            WatchError::UnknownMeasure { name } => Fault::UnknownMeasure { name: name@ },
            WatchError::UnknownAxis { name } => Fault::UnknownAxis { name: name@ },
            WatchError::UnknownKey { key } => Fault::UnknownKey { key: key@ },
            WatchError::MissingExp => Fault::MissingExp,
            WatchError::MissingField { index } => Fault::MissingField { index: index as nat },
            WatchError::InvalidMeasure { index, name } => Fault::InvalidMeasure {
                index: index as nat,
                name: name@,
            },
            WatchError::InvalidAxis { index, name } => Fault::InvalidAxis {
                index: index as nat,
                name: name@,
            },
            WatchError::NoBlocks => Fault::NoBlocks,
            WatchError::TwoSources => Fault::TwoSources,
            WatchError::NoSource => Fault::NoSource,
        }
    }
}

/// What is said of a text that names no measure.
pub open spec fn unknown_measure_text(name: Seq<char>) -> Seq<char> {
    "Unknown measure '"@ + name + "'. Supported values: float, bytes"@
}

/// What is said of a text that names no side.
pub open spec fn unknown_axis_text(name: Seq<char>) -> Seq<char> {
    "Unknown axis '"@ + name + "'. Supported values: left, right"@
}

/// The name of a block of a configuration.
pub open spec fn block_name(index: nat) -> Seq<char> {
    "watch["@ + decimal::digits(index) + "]"@
}

impl Fault {
    /// What is said of the fault.
    pub open spec fn text(self) -> Seq<char> {
        match self {
            Fault::InvalidItem { item } => "Invalid --watch item '"@ + item
                + "', expected key=value"@,
            Fault::EmptyExp => "watch exp must not be empty"@,
            Fault::InvalidPeriod { value } => "Invalid watch period value '"@ + value + "'"@,
            Fault::NotPositive { field } => field + " must be a positive number"@,
            Fault::UnknownMeasure { name } => unknown_measure_text(name),
            Fault::UnknownAxis { name } => unknown_axis_text(name),
            Fault::UnknownKey { key } => "Unknown key '"@ + key + "' in --watch spec"@,
            Fault::MissingExp => "`exp` is required in --watch specification"@,
            Fault::MissingField { index } => block_name(index)
                + " is missing required field `exp`"@,
            Fault::InvalidMeasure { index, .. } => block_name(index) + ".measure is invalid"@,
            Fault::InvalidAxis { index, .. } => block_name(index) + ".axis is invalid"@,
            Fault::NoBlocks => "Config must include at least one [[watch]] block"@,
            Fault::TwoSources => "Cannot combine --file and --watch"@,
            Fault::NoSource =>
                "No watches provided. Use --file <path> or at least one --watch spec"@,
        }
    }

    /// What lies behind the fault, where that is another one.
    pub open spec fn reason(self) -> Option<Seq<char>> {
        match self {
            Fault::InvalidPeriod { value } => Some(
                if value.len() == 0 {
                    "cannot parse float from empty string"@
                } else {
                    "invalid float literal"@
                },
            ),
            Fault::InvalidMeasure { name, .. } => Some(unknown_measure_text(name)),
            Fault::InvalidAxis { name, .. } => Some(unknown_axis_text(name)),
            _ => None,
        }
    }
}

/// `before`, `middle` and `after` as one text.
fn three(before: &str, middle: &str, after: &str) -> (s: String)
    ensures
        s@ == before@ + middle@ + after@,
{
    let mut s = before.to_owned();
    s.append(middle);
    s.append(after);
    s
}

/// The name of a block of a configuration.
fn name_block(index: usize) -> (s: String)
    ensures
        s@ == block_name(index as nat),
{
    three("watch[", decimal::decimal(index as u64).as_str(), "]")
}

/// What is said of a text that names no measure.
pub fn unknown_measure(name: &str) -> (s: String)
    ensures
        s@ == unknown_measure_text(name@),
{
    three("Unknown measure '", name, "'. Supported values: float, bytes")
}

/// What is said of a text that names no side.
pub fn unknown_axis(name: &str) -> (s: String)
    ensures
        s@ == unknown_axis_text(name@),
{
    three("Unknown axis '", name, "'. Supported values: left, right")
}

/// The field of a block of a configuration that holds its period.
pub fn period_field(index: usize) -> (s: String)
    ensures
        s@ == block_name(index as nat) + ".period"@,
{
    name_block(index).concat(".period")
}

impl WatchError {
    /// What is said of the error.
    pub fn message(&self) -> (s: String)
        ensures
            s@ == self@.text(),
    {
        match self {
            WatchError::InvalidItem { item } => three(
                "Invalid --watch item '",
                item.as_str(),
                "', expected key=value",
            ),
            WatchError::EmptyExp => "watch exp must not be empty".to_owned(),
            WatchError::InvalidPeriod { value } => three(
                "Invalid watch period value '",
                value.as_str(),
                "'",
            ),
            WatchError::NotPositive { field } => field.clone().concat(" must be a positive number"),
            WatchError::UnknownMeasure { name } => unknown_measure(name.as_str()),
            WatchError::UnknownAxis { name } => unknown_axis(name.as_str()),
            WatchError::UnknownKey { key } => three(
                "Unknown key '",
                key.as_str(),
                "' in --watch spec",
            ),
            WatchError::MissingExp => "`exp` is required in --watch specification".to_owned(),
            WatchError::MissingField { index } => name_block(*index).concat(
                " is missing required field `exp`",
            ),
            WatchError::InvalidMeasure { index, .. } => name_block(*index).concat(
                ".measure is invalid",
            ),
            WatchError::InvalidAxis { index, .. } => name_block(*index).concat(".axis is invalid"),
            WatchError::NoBlocks => "Config must include at least one [[watch]] block".to_owned(),
            WatchError::TwoSources => "Cannot combine --file and --watch".to_owned(),
            WatchError::NoSource =>
                "No watches provided. Use --file <path> or at least one --watch spec".to_owned(),
        }
    }

    /// What lies behind the error, where that is another one.
    pub fn cause(&self) -> (s: Option<String>)
        ensures
            s is Some <==> self@.reason() is Some,
            s matches Some(t) ==> t@ == self@.reason()->0,
    {
        match self {
            WatchError::InvalidPeriod { value } => {
                if value.as_str().is_empty() {
                    Some("cannot parse float from empty string".to_owned())
                } else {
                    Some("invalid float literal".to_owned())
                }
            },
            WatchError::InvalidMeasure { name, .. } => Some(unknown_measure(name.as_str())),
            WatchError::InvalidAxis { name, .. } => Some(unknown_axis(name.as_str())),
            _ => None,
        }
    }
}

/// What is said of a fault names what was read.
pub proof fn lemma_fault_texts(s: Seq<char>, index: nat)
    ensures
        (Fault::InvalidItem { item: s }).text() == "Invalid --watch item '"@ + s
            + "', expected key=value"@,
        Fault::EmptyExp.text() == "watch exp must not be empty"@,
        (Fault::InvalidPeriod { value: s }).text() == "Invalid watch period value '"@ + s + "'"@,
        (Fault::NotPositive { field: s }).text() == s + " must be a positive number"@,
        (Fault::UnknownMeasure { name: s }).text() == "Unknown measure '"@ + s
            + "'. Supported values: float, bytes"@,
        (Fault::UnknownAxis { name: s }).text() == "Unknown axis '"@ + s
            + "'. Supported values: left, right"@,
        (Fault::UnknownKey { key: s }).text() == "Unknown key '"@ + s + "' in --watch spec"@,
        Fault::MissingExp.text() == "`exp` is required in --watch specification"@,
        (Fault::MissingField { index }).text() == "watch["@ + decimal::digits(index) + "]"@
            + " is missing required field `exp`"@,
        (Fault::InvalidMeasure { index, name: s }).text() == "watch["@ + decimal::digits(index) + "]"@
            + ".measure is invalid"@,
        (Fault::InvalidAxis { index, name: s }).text() == "watch["@ + decimal::digits(index) + "]"@
            + ".axis is invalid"@,
        Fault::NoBlocks.text() == "Config must include at least one [[watch]] block"@,
        Fault::TwoSources.text() == "Cannot combine --file and --watch"@,
        Fault::NoSource.text()
            == "No watches provided. Use --file <path> or at least one --watch spec"@,
{
}

/// What lies behind a fault: that a text is empty or no number, or that it names nothing; and
/// nothing behind any other.
pub proof fn lemma_fault_reasons(s: Seq<char>, index: nat)
    ensures
        s.len() > 0 ==> (Fault::InvalidPeriod { value: s }).reason() == Some(
            "invalid float literal"@,
        ),
        s.len() == 0 ==> (Fault::InvalidPeriod { value: s }).reason() == Some(
            "cannot parse float from empty string"@,
        ),
        (Fault::InvalidMeasure { index, name: s }).reason() == Some(
            (Fault::UnknownMeasure { name: s }).text(),
        ),
        (Fault::InvalidAxis { index, name: s }).reason() == Some(
            (Fault::UnknownAxis { name: s }).text(),
        ),
        (Fault::InvalidItem { item: s }).reason() is None,
        Fault::EmptyExp.reason() is None,
        (Fault::NotPositive { field: s }).reason() is None,
        (Fault::UnknownMeasure { name: s }).reason() is None,
        (Fault::UnknownAxis { name: s }).reason() is None,
        (Fault::UnknownKey { key: s }).reason() is None,
        Fault::MissingExp.reason() is None,
        (Fault::MissingField { index }).reason() is None,
        Fault::NoBlocks.reason() is None,
        Fault::TwoSources.reason() is None,
        Fault::NoSource.reason() is None,
{
}

/// An error and its characters are of the same kind, with the same texts and numbers.
pub proof fn lemma_error_views(s: String, index: usize)
    ensures
        (WatchError::InvalidItem { item: s })@ == (Fault::InvalidItem { item: s@ }),
        WatchError::EmptyExp@ == Fault::EmptyExp,
        (WatchError::InvalidPeriod { value: s })@ == (Fault::InvalidPeriod { value: s@ }),
        (WatchError::NotPositive { field: s })@ == (Fault::NotPositive { field: s@ }),
        (WatchError::UnknownMeasure { name: s })@ == (Fault::UnknownMeasure { name: s@ }),
        (WatchError::UnknownAxis { name: s })@ == (Fault::UnknownAxis { name: s@ }),
        (WatchError::UnknownKey { key: s })@ == (Fault::UnknownKey { key: s@ }),
        WatchError::MissingExp@ == Fault::MissingExp,
        (WatchError::MissingField { index })@ == (Fault::MissingField { index: index as nat }),
        (WatchError::InvalidMeasure { index, name: s })@ == (Fault::InvalidMeasure {
            index: index as nat,
            name: s@,
        }),
        (WatchError::InvalidAxis { index, name: s })@ == (Fault::InvalidAxis {
            index: index as nat,
            name: s@,
        }),
        WatchError::NoBlocks@ == Fault::NoBlocks,
        WatchError::TwoSources@ == Fault::TwoSources,
        WatchError::NoSource@ == Fault::NoSource,
{
}

} // verus!
