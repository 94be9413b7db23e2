//! Options of the printer.

use vstd::prelude::*;

verus! {

/// The character sequence that ends a line.
#[derive(Clone, Copy, Debug, PartialEq, Eq, Structural)]
pub enum LineEnding {
    /// Line feed only, common on Linux and macOS.
    Lf,
    /// Carriage return and line feed, common on Windows.
    Crlf,
    /// Carriage return only, used very rarely.
    Cr,
}

impl LineEnding {
    /// The characters that end a line.
    pub open spec fn chars(self) -> Seq<char> {
        match self {
            LineEnding::Lf => seq!['\n'],
            LineEnding::Crlf => seq!['\r', '\n'],
            LineEnding::Cr => seq!['\r'],
        }
    }

    /// The characters that end a line.
    pub fn as_str(&self) -> (text: &'static str)
        ensures
            text@ == self.chars(),
    {
        proof {
            reveal_strlit("\n");
            reveal_strlit("\r\n");
            reveal_strlit("\r");
        }
        match self {
            LineEnding::Lf => {
                let text = "\n";
                assert(text@ =~= seq!['\n']);
                text
            },
            LineEnding::Crlf => {
                let text = "\r\n";
                assert(text@ =~= seq!['\r', '\n']);
                text
            },
            LineEnding::Cr => {
                let text = "\r";
                assert(text@ =~= seq!['\r']);
                text
            },
        }
    }
}

/// What a level of indention is made of.
#[derive(Clone, Copy, Debug, PartialEq, Eq, Structural)]
pub enum IndentStyle {
    Tab,
    Space,
}

impl IndentStyle {
    /// Whether a level of indention is a tab.
    pub fn is_tab(&self) -> (tab: bool)
        ensures
            tab == (*self == IndentStyle::Tab),
    {
        match self {
            IndentStyle::Tab => true,
            IndentStyle::Space => false,
        }
    }
}

/// The number of columns of a level of indention, and of a tab.
#[derive(Clone, Copy, Debug, PartialEq, Eq, Structural)]
pub struct IndentWidth {
    pub columns: u8,
}

impl IndentWidth {
    /// A width of the given number of columns.
    pub fn new(columns: u8) -> (width: Self)
        ensures
            width.columns == columns,
    {
        IndentWidth { columns }
    }

    /// The number of columns.
    pub fn value(&self) -> (columns: u8)
        ensures
            columns == self.columns,
    {
        self.columns
    }
}

/// The number of columns that the printer tries not to exceed.
#[derive(Clone, Copy, Debug, PartialEq, Eq, Structural)]
pub struct PrintWidth {
    pub columns: u16,
}

impl PrintWidth {
    /// A width of the given number of columns.
    pub fn new(columns: u16) -> (width: Self)
        ensures
            width.columns == columns,
    {
        PrintWidth { columns }
    }
}

/// Options that affect how the printer prints the format elements.
#[derive(Clone, Copy, Debug, PartialEq, Eq, Structural)]
pub struct PrinterOptions {
    /// The number of columns that a line should not exceed.
    pub print_width: PrintWidth,
    /// The line ending to print for a line break.
    pub line_ending: LineEnding,
    /// Whether the printer indents with tabs or spaces.
    pub indent_style: IndentStyle,
    /// The number of columns of a level of indention.
    pub indent_width: IndentWidth,
}

impl PrinterOptions {
    /// These options with another print width.
    pub fn with_print_width(self, print_width: PrintWidth) -> (options: Self)
        ensures
            options == (PrinterOptions { print_width, ..self }),
    {
        PrinterOptions {
            print_width,
            line_ending: self.line_ending,
            indent_style: self.indent_style,
            indent_width: self.indent_width,
        }
    }
}

impl Default for PrinterOptions {
    /// 80 columns, line feeds, and tabs of two columns.
    fn default() -> (options: Self)
        ensures
            options.print_width.columns == 80,
            options.line_ending == LineEnding::Lf,
            options.indent_style == IndentStyle::Tab,
            options.indent_width.columns == 2,
    {
        PrinterOptions {
            print_width: PrintWidth { columns: 80 },
            line_ending: LineEnding::Lf,
            indent_style: IndentStyle::Tab,
            indent_width: IndentWidth { columns: 2 },
        }
    }
}

} // verus!
