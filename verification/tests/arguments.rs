use biome_formatter::arguments::{Argument, Arguments, Format, Formatter, FormatterView};
use biome_formatter::diagnostics::{FormatError, FormatResult};
use biome_formatter::format_element::FormatElement;
use biome_formatter::tag::{Group, Tag};

struct Text(&'static str);

impl Format<()> for Text {
    fn formats(&self, _: FormatterView<()>, _: FormatResult<()>, _: FormatterView<()>) -> bool {
        true
    }

    fn fmt(&self, f: &mut Formatter<()>) -> FormatResult<()> {
        f.write_element(FormatElement::StaticText { text: self.0 });
        Ok(())
    }
}

struct Space;

impl Format<()> for Space {
    fn formats(&self, _: FormatterView<()>, _: FormatResult<()>, _: FormatterView<()>) -> bool {
        true
    }

    fn fmt(&self, f: &mut Formatter<()>) -> FormatResult<()> {
        f.write_element(FormatElement::Space);
        Ok(())
    }
}

struct Grouped<'a>(Arguments<'a, ()>);

impl Format<()> for Grouped<'_> {
    fn formats(&self, _: FormatterView<()>, _: FormatResult<()>, _: FormatterView<()>) -> bool {
        true
    }

    fn fmt(&self, f: &mut Formatter<()>) -> FormatResult<()> {
        f.write_element(FormatElement::Tag(Tag::StartGroup(Group::new())));
        f.write_fmt(self.0)?;
        f.write_element(FormatElement::Tag(Tag::EndGroup));
        Ok(())
    }
}

struct Failing;

impl Format<()> for Failing {
    fn formats(&self, _: FormatterView<()>, _: FormatResult<()>, _: FormatterView<()>) -> bool {
        true
    }

    fn fmt(&self, _: &mut Formatter<()>) -> FormatResult<()> {
        Err(FormatError::SyntaxError)
    }
}

#[test]
fn test_nesting() {
    let mut formatter = Formatter::new(());

    let inner = [Argument::new(&Text("(")), Argument::new(&Text(")"))];
    let grouped = Grouped(Arguments::new(&inner));
    let items = [
        Argument::new(&Text("function")),
        Argument::new(&Space),
        Argument::new(&Text("a")),
        Argument::new(&Space),
        Argument::new(&grouped),
    ];
    formatter.write_fmt(Arguments::new(&items)).unwrap();

    assert_eq!(
        formatter.into_vec(),
        vec![
            FormatElement::StaticText { text: "function" },
            FormatElement::Space,
            FormatElement::StaticText { text: "a" },
            FormatElement::Space,
            // Group
            FormatElement::Tag(Tag::StartGroup(Group::new())),
            FormatElement::StaticText { text: "(" },
            FormatElement::StaticText { text: ")" },
            FormatElement::Tag(Tag::EndGroup)
        ]
    );
}

#[test]
fn formatting_stops_at_the_first_error() {
    let mut formatter = Formatter::new(());
    let items = [
        Argument::new(&Text("a")),
        Argument::new(&Failing),
        Argument::new(&Text("b")),
    ];
    let arguments = Arguments::new(&items);
    assert_eq!(Err(FormatError::SyntaxError), arguments.fmt(&mut formatter));
    assert_eq!(
        formatter.into_vec(),
        vec![FormatElement::StaticText { text: "a" }]
    );
}

#[test]
fn a_single_argument_makes_up_arguments() {
    let argument = Argument::new(&Text("a"));
    let arguments = Arguments::from(&argument);
    assert_eq!(1, arguments.items().len());

    let mut formatter = Formatter::new(());
    assert_eq!(Ok(()), arguments.clone().fmt(&mut formatter));
    assert_eq!(Ok(()), argument.clone().fmt(&mut formatter));
    assert_eq!(&(), formatter.context());
    assert_eq!(
        formatter.into_vec(),
        vec![
            FormatElement::StaticText { text: "a" },
            FormatElement::StaticText { text: "a" }
        ]
    );
}
