use biome_formatter::diagnostics::{ActualStart, InvalidDocumentError, PrintError};
use biome_formatter::format_element::{BestFittingElement, Document, FormatElement, LineMode};
use biome_formatter::options::{
    IndentStyle, IndentWidth, LineEnding, PrintWidth, PrinterOptions,
};
use biome_formatter::printed::{Printed, SourceMarker};
use biome_formatter::printer::Printer;
use biome_formatter::tag::{
    Align, Condition, DedentMode, Group, GroupId, GroupMode, LabelId, PrintMode, Tag, TagKind,
    VerbatimKind,
};
use biome_formatter::text_size::{TextRange, TextSize};
use std::rc::Rc;

type Elements = Vec<FormatElement>;

fn concat(parts: Vec<Elements>) -> Elements {
    parts.into_iter().flatten().collect()
}

fn text(text: &'static str) -> Elements {
    vec![FormatElement::StaticText { text }]
}

fn located(slice: &str, position: u32) -> Elements {
    vec![FormatElement::LocatedTokenText {
        slice: slice.to_string(),
        source_position: TextSize::new(position),
    }]
}

fn space() -> Elements {
    vec![FormatElement::Space]
}

fn line(mode: LineMode) -> Elements {
    vec![FormatElement::Line(mode)]
}

fn soft_line_break() -> Elements {
    line(LineMode::Soft)
}

fn soft_line_break_or_space() -> Elements {
    line(LineMode::SoftOrSpace)
}

fn hard_line_break() -> Elements {
    line(LineMode::Hard)
}

fn empty_line() -> Elements {
    line(LineMode::Empty)
}

fn tagged(start: Tag, content: Elements, end: Tag) -> Elements {
    concat(vec![
        vec![FormatElement::Tag(start)],
        content,
        vec![FormatElement::Tag(end)],
    ])
}

fn indent(content: Elements) -> Elements {
    tagged(Tag::StartIndent, content, Tag::EndIndent)
}

fn soft_block_indent(content: Elements) -> Elements {
    concat(vec![
        indent(concat(vec![soft_line_break(), content])),
        soft_line_break(),
    ])
}

fn block_indent(content: Elements) -> Elements {
    concat(vec![
        indent(concat(vec![hard_line_break(), content])),
        hard_line_break(),
    ])
}

fn group(content: Elements) -> Elements {
    group_with_id(None, content)
}

fn group_with_id(id: Option<GroupId>, content: Elements) -> Elements {
    tagged(
        Tag::StartGroup(Group::new().with_id(id)),
        content,
        Tag::EndGroup,
    )
}

fn conditional(mode: PrintMode, group_id: Option<GroupId>, content: Elements) -> Elements {
    tagged(
        Tag::StartConditionalContent(Condition { mode, group_id }),
        content,
        Tag::EndConditionalContent,
    )
}

fn if_group_breaks(content: Elements) -> Elements {
    conditional(PrintMode::Expanded, None, content)
}

fn line_suffix(content: Elements) -> Elements {
    tagged(Tag::StartLineSuffix, content, Tag::EndLineSuffix)
}

fn entry(content: Elements) -> Elements {
    tagged(Tag::StartEntry, content, Tag::EndEntry)
}

/// Items with a separator before each but the first.
fn fill(entries: Vec<(Elements, Elements)>) -> Elements {
    let mut content = Vec::new();
    for (index, (separator, item)) in entries.into_iter().enumerate() {
        if index > 0 {
            content.extend(entry(separator));
        }
        content.extend(entry(item));
    }
    tagged(Tag::StartFill, content, Tag::EndFill)
}

fn best_fitting(variants: Vec<Elements>) -> Elements {
    vec![FormatElement::BestFitting(BestFittingElement::from_vec(
        variants.into_iter().map(entry).collect(),
    ))]
}

fn array(items: Vec<Elements>) -> Elements {
    let mut joined = Vec::new();
    for (index, item) in items.into_iter().enumerate() {
        if index > 0 {
            joined.extend(text(","));
            joined.extend(soft_line_break_or_space());
        }
        joined.extend(item);
    }
    group(concat(vec![
        text("["),
        soft_block_indent(concat(vec![joined, if_group_breaks(text(","))])),
        text("]"),
    ]))
}

/// Expands the groups around forced line breaks.
fn propagate_expands(mut elements: Elements) -> Elements {
    let mut enclosing: Vec<usize> = Vec::new();
    for index in 0..elements.len() {
        let breaks = match &elements[index] {
            FormatElement::Tag(Tag::StartGroup(_)) => {
                enclosing.push(index);
                false
            }
            FormatElement::Tag(Tag::EndGroup) => {
                enclosing.pop();
                false
            }
            FormatElement::Line(mode) => matches!(mode, LineMode::Hard | LineMode::Empty),
            FormatElement::ExpandParent => true,
            FormatElement::StaticText { text } => text.contains('\n'),
            FormatElement::DynamicText { text, .. } => text.contains('\n'),
            FormatElement::LocatedTokenText { slice, .. } => slice.contains('\n'),
            _ => false,
        };
        if breaks {
            for start in enclosing.iter() {
                if let FormatElement::Tag(Tag::StartGroup(group)) = &elements[*start] {
                    let expanded = group.with_mode(GroupMode::Propagated);
                    elements[*start] = FormatElement::Tag(Tag::StartGroup(expanded));
                }
            }
        }
    }
    elements
}

fn space_options() -> PrinterOptions {
    PrinterOptions {
        indent_style: IndentStyle::Space,
        indent_width: IndentWidth::new(2),
        line_ending: LineEnding::Lf,
        ..PrinterOptions::default()
    }
}

fn width_options(width: u16) -> PrinterOptions {
    PrinterOptions::default().with_print_width(PrintWidth::new(width))
}

fn format(content: Elements) -> Printed {
    format_with_options(content, space_options())
}

fn format_with_options(content: Elements, options: PrinterOptions) -> Printed {
    let document = Document::new(propagate_expands(content));
    Printer::new(options)
        .print(&document)
        .expect("Document to be valid")
}

fn print_error(content: Elements) -> InvalidDocumentError {
    let document = Document::new(content);
    match Printer::new(width_options(10)).print(&document) {
        Ok(printed) => panic!("printed {:?}", printed),
        Err(PrintError::InvalidDocument(error)) => error,
    }
}

#[test]
fn it_prints_a_group_on_a_single_line_if_it_fits() {
    let result = format(array(vec![
        text("\"a\""),
        text("\"b\""),
        text("\"c\""),
        text("\"d\""),
    ]));

    assert_eq!(r#"["a", "b", "c", "d"]"#, result.as_code())
}

#[test]
fn it_tracks_the_indent_for_each_token() {
    let formatted = format(concat(vec![
        text("a"),
        soft_block_indent(concat(vec![
            text("b"),
            soft_block_indent(concat(vec![
                text("c"),
                soft_block_indent(concat(vec![text("d"), soft_line_break(), text("d")])),
                text("c"),
            ])),
            text("b"),
        ])),
        text("a"),
    ]));

    assert_eq!(
        r#"a
  b
    c
      d
      d
    c
  b
a"#,
        formatted.as_code()
    )
}

#[test]
fn it_converts_line_endings() {
    let options = PrinterOptions {
        line_ending: LineEnding::Crlf,
        ..PrinterOptions::default()
    };

    let result = format_with_options(
        concat(vec![
            text("function main() {"),
            block_indent(text("let x = `This is a multiline\nstring`;")),
            text("}"),
            hard_line_break(),
        ]),
        options,
    );

    assert_eq!(
        "function main() {\r\n\tlet x = `This is a multiline\r\nstring`;\r\n}\r\n",
        result.as_code()
    );
}

#[test]
fn it_converts_line_endings_to_cr() {
    let options = PrinterOptions {
        line_ending: LineEnding::Cr,
        ..PrinterOptions::default()
    };

    let result = format_with_options(
        concat(vec![
            text("function main() {"),
            block_indent(text("let x = `This is a multiline\nstring`;")),
            text("}"),
            hard_line_break(),
        ]),
        options,
    );

    assert_eq!(
        "function main() {\r\tlet x = `This is a multiline\rstring`;\r}\r",
        result.as_code()
    );
}

#[test]
fn it_breaks_a_group_if_a_string_contains_a_newline() {
    let result = format(array(vec![
        text("`This is a string spanning\ntwo lines`"),
        text("\"b\""),
    ]));

    assert_eq!(
        r#"[
  `This is a string spanning
two lines`,
  "b",
]"#,
        result.as_code()
    )
}

#[test]
fn it_breaks_a_group_if_it_contains_a_hard_line_break() {
    let result = format(group(concat(vec![text("a"), block_indent(text("b"))])));

    assert_eq!("a\n  b\n", result.as_code())
}

#[test]
fn it_breaks_parent_groups_if_they_dont_fit_on_a_single_line() {
    let result = format(array(vec![
        text("\"a\""),
        text("\"b\""),
        text("\"c\""),
        text("\"d\""),
        array(vec![
            text("\"0123456789\""),
            text("\"0123456789\""),
            text("\"0123456789\""),
            text("\"0123456789\""),
            text("\"0123456789\""),
        ]),
    ]));

    assert_eq!(
        r#"[
  "a",
  "b",
  "c",
  "d",
  ["0123456789", "0123456789", "0123456789", "0123456789", "0123456789"],
]"#,
        result.as_code()
    );
}

#[test]
fn it_use_the_indent_character_specified_in_the_options() {
    let options = PrinterOptions {
        indent_style: IndentStyle::Tab,
        indent_width: IndentWidth::new(2),
        print_width: PrintWidth::new(19),
        ..PrinterOptions::default()
    };

    let result = format_with_options(
        array(vec![text("'a'"), text("'b'"), text("'c'"), text("'d'")]),
        options,
    );

    assert_eq!("[\n\t'a',\n\t\'b',\n\t\'c',\n\t'd',\n]", result.as_code());
}

#[test]
fn it_prints_consecutive_hard_lines_as_one() {
    let result = format(concat(vec![
        text("a"),
        hard_line_break(),
        hard_line_break(),
        hard_line_break(),
        text("b"),
    ]));

    assert_eq!("a\nb", result.as_code())
}

#[test]
fn it_prints_consecutive_empty_lines_as_one() {
    let result = format(concat(vec![
        text("a"),
        empty_line(),
        empty_line(),
        empty_line(),
        text("b"),
    ]));

    assert_eq!("a\n\nb", result.as_code())
}

#[test]
fn it_prints_consecutive_mixed_lines_as_one() {
    let result = format(concat(vec![
        text("a"),
        empty_line(),
        hard_line_break(),
        empty_line(),
        hard_line_break(),
        text("b"),
    ]));

    assert_eq!("a\n\nb", result.as_code())
}

#[test]
fn test_fill_breaks() {
    let content = fill(vec![
        // These all fit on the same line together
        (
            soft_line_break_or_space(),
            concat(vec![text("1"), text(",")]),
        ),
        (
            soft_line_break_or_space(),
            concat(vec![text("2"), text(",")]),
        ),
        (
            soft_line_break_or_space(),
            concat(vec![text("3"), text(",")]),
        ),
        // This one fits on a line by itself,
        (
            soft_line_break_or_space(),
            concat(vec![text("723493294"), text(",")]),
        ),
        // fits without breaking
        (
            soft_line_break_or_space(),
            group(concat(vec![
                text("["),
                soft_block_indent(text("5")),
                text("],"),
            ])),
        ),
        // this one must be printed in expanded mode to fit
        (
            soft_line_break_or_space(),
            group(concat(vec![
                text("["),
                soft_block_indent(text("123456789")),
                text("]"),
            ])),
        ),
    ]);

    let document = Document::new(content);

    let printed = Printer::new(PrinterOptions::default().with_print_width(PrintWidth::new(10)))
        .print(&document)
        .unwrap();

    assert_eq!(
        printed.as_code(),
        "1, 2, 3,\n723493294,\n[5],\n[\n\t123456789\n]"
    )
}

#[test]
fn line_suffix_printed_at_end() {
    let printed = format(concat(vec![
        group(concat(vec![
            text("["),
            soft_block_indent(fill(vec![
                (
                    soft_line_break_or_space(),
                    concat(vec![text("1"), text(",")]),
                ),
                (
                    soft_line_break_or_space(),
                    concat(vec![text("2"), text(",")]),
                ),
                (
                    soft_line_break_or_space(),
                    concat(vec![text("3"), if_group_breaks(text(","))]),
                ),
            ])),
            text("]"),
        ])),
        text(";"),
        line_suffix(concat(vec![space(), text("// trailing"), space()])),
    ]));

    assert_eq!(printed.as_code(), "[1, 2, 3]; // trailing")
}

#[test]
fn conditional_with_group_id_in_fits() {
    let group_id = GroupId { value: 0 };
    let printed = format(concat(vec![
        group_with_id(
            Some(group_id),
            concat(vec![
                text("The referenced group breaks."),
                hard_line_break(),
            ]),
        ),
        group(concat(vec![
            text("This group breaks because:"),
            soft_line_break_or_space(),
            conditional(
                PrintMode::Flat,
                Some(group_id),
                text("This content fits but should not be printed."),
            ),
            conditional(
                PrintMode::Expanded,
                Some(group_id),
                text("It measures with the 'if_group_breaks' variant because the referenced group breaks and that's just way too much text."),
            ),
        ])),
    ]));

    assert_eq!(
        printed.as_code(),
        "The referenced group breaks.\nThis group breaks because:\nIt measures with the 'if_group_breaks' variant because the referenced group breaks and that's just way too much text."
    );
}

#[test]
fn out_of_order_group_ids() {
    let id_1 = GroupId { value: 0 };
    let id_2 = GroupId { value: 1 };
    let printed = format(concat(vec![
        group_with_id(Some(id_2), text("Group with id-2")),
        hard_line_break(),
        group_with_id(
            Some(id_1),
            text("Group with id-1 does not fit on the line because it exceeds the line width of 80 characters by"),
        ),
        hard_line_break(),
        conditional(PrintMode::Flat, Some(id_2), text("Group 2 fits")),
        hard_line_break(),
        conditional(PrintMode::Expanded, Some(id_1), text("Group 1 breaks")),
    ]));

    assert_eq!(
        printed.as_code(),
        r#"Group with id-2
Group with id-1 does not fit on the line because it exceeds the line width of 80 characters by
Group 2 fits
Group 1 breaks"#
    );
}

#[test]
fn break_group_if_partial_string_exceeds_print_width() {
    let options = PrinterOptions {
        print_width: PrintWidth::new(10),
        ..PrinterOptions::default()
    };

    let result = format_with_options(
        group(concat(vec![
            text("("),
            soft_line_break(),
            text("This is a string\n containing a newline"),
            soft_line_break(),
            text(")"),
        ])),
        options,
    );

    assert_eq!(
        "(\nThis is a string\n containing a newline\n)",
        result.as_code()
    );
}

#[test]
fn prints_with_an_initial_indent() {
    let document = Document::new(concat(vec![text("a"), hard_line_break(), text("b")]));
    let printed = Printer::new(space_options())
        .print_with_indent(&document, 2)
        .unwrap();
    assert_eq!("a\n    b", printed.as_code());

    let unindented = Printer::new(space_options())
        .print_with_indent(&document, 0)
        .unwrap();
    assert_eq!(format(concat(vec![text("a"), hard_line_break(), text("b")])), unindented);
}

#[test]
fn the_default_printer_has_the_default_options() {
    let document = Document::new(indent(concat(vec![hard_line_break(), text("a\nb")])));
    let printed = Printer::default().print(&document).unwrap();
    assert_eq!("\ta\nb", printed.as_code());
    assert_eq!(None, printed.range());
}

#[test]
fn an_empty_document_prints_nothing() {
    let printed = format(Vec::new());
    assert_eq!("", printed.as_code());
    assert_eq!(0, printed.sourcemap().len());
    assert_eq!(0, printed.verbatim_ranges().len());
}

#[test]
fn spaces_at_the_start_of_a_line_are_dropped() {
    let printed = format(concat(vec![
        space(),
        text("a"),
        space(),
        space(),
        text("b"),
        space(),
        hard_line_break(),
        space(),
        vec![FormatElement::HardSpace],
        text("c"),
        vec![FormatElement::HardSpace],
        text("d"),
    ]));
    assert_eq!("a b\nc d", printed.as_code());
}

#[test]
fn wide_characters_take_two_columns() {
    let content = || group(concat(vec![text("漢字"), soft_line_break(), text("ab")]));
    assert_eq!("漢字ab", format_with_options(content(), width_options(6)).as_code());
    assert_eq!("漢字\nab", format_with_options(content(), width_options(5)).as_code());
}

#[test]
fn combining_characters_take_no_column() {
    let content = || group(concat(vec![text("e\u{301}"), soft_line_break(), text("bc")]));
    assert_eq!(
        "e\u{301}bc",
        format_with_options(content(), width_options(3)).as_code()
    );
}

#[test]
fn an_align_on_top_of_another_is_a_level_deeper() {
    let content = || {
        let align = Tag::StartAlign(Align::new(3).unwrap());
        tagged(
            align,
            concat(vec![
                hard_line_break(),
                text("a"),
                tagged(
                    align,
                    concat(vec![
                        hard_line_break(),
                        text("b"),
                        indent(concat(vec![hard_line_break(), text("c")])),
                    ]),
                    Tag::EndAlign,
                ),
            ]),
            Tag::EndAlign,
        )
    };
    assert_eq!(
        "   a\n        b\n          c",
        format(content()).as_code()
    );
    assert_eq!(
        "   a\n\t      b\n\t\t\tc",
        format_with_options(content(), PrinterOptions::default()).as_code()
    );
}

#[test]
fn dedents_restore_the_indention() {
    let content = |mode| {
        indent(indent(concat(vec![
            hard_line_break(),
            text("a"),
            tagged(
                Tag::StartDedent(mode),
                concat(vec![hard_line_break(), text("b")]),
                Tag::EndDedent(mode),
            ),
            hard_line_break(),
            text("c"),
        ])))
    };
    assert_eq!("    a\n  b\n    c", format(content(DedentMode::Level)).as_code());
    assert_eq!("    a\nb\n    c", format(content(DedentMode::Root)).as_code());
}

#[test]
fn content_is_indented_if_the_group_breaks() {
    let id = GroupId { value: 3 };
    let content = || {
        concat(vec![
            group_with_id(
                Some(id),
                concat(vec![text("aaaa"), soft_line_break(), text("bbbb")]),
            ),
            tagged(
                Tag::StartIndentIfGroupBreaks(id),
                concat(vec![hard_line_break(), text("c")]),
                Tag::EndIndentIfGroupBreaks(id),
            ),
        ])
    };
    assert_eq!("aaaabbbb\nc", format_with_options(content(), width_options(8)).as_code());
    assert_eq!("aaaa\nbbbb\n\tc", format_with_options(content(), width_options(7)).as_code());
}

#[test]
fn the_first_variant_that_fits_is_printed() {
    let content = || {
        concat(vec![
            text("x"),
            best_fitting(vec![
                text("aaaaaaaa"),
                concat(vec![text("bb"), soft_line_break(), text("bb")]),
                concat(vec![text("c"), soft_line_break(), text("c")]),
            ]),
        ])
    };
    assert_eq!("xaaaaaaaa", format_with_options(content(), width_options(9)).as_code());
    assert_eq!("xbbbb", format_with_options(content(), width_options(8)).as_code());
    assert_eq!("xc\nc", format_with_options(content(), width_options(4)).as_code());
}

#[test]
fn a_fitting_group_prints_the_most_flat_variant() {
    let printed = format(group(concat(vec![
        text("x"),
        best_fitting(vec![text("a"), text("b")]),
        soft_line_break(),
        text("y"),
    ])));
    assert_eq!("xay", printed.as_code());
}

#[test]
fn interned_content_is_printed_each_time() {
    let shared = Rc::new(concat(vec![text("a"), soft_line_break_or_space()]));
    let printed = format(group(concat(vec![
        vec![FormatElement::Interned(shared.clone())],
        vec![FormatElement::Interned(shared)],
        text("b"),
    ])));
    assert_eq!("a a b", printed.as_code());
}

#[test]
fn entries_may_start_in_interned_content() {
    let shared = Rc::new(entry(text("a")));
    let printed = format(tagged(
        Tag::StartFill,
        vec![FormatElement::Interned(shared)],
        Tag::EndFill,
    ));
    assert_eq!("a", printed.as_code());
}

#[test]
fn line_suffixes_come_before_the_line_break() {
    let printed = format(concat(vec![
        text("a"),
        line_suffix(text(" // 1")),
        line_suffix(text(" // 2")),
        text(";"),
        hard_line_break(),
        text("b"),
    ]));
    assert_eq!("a; // 1 // 2\nb", printed.as_code());
}

#[test]
fn a_boundary_breaks_the_line_only_behind_a_line_suffix() {
    let boundary = || vec![FormatElement::LineSuffixBoundary];
    let printed = format(concat(vec![
        text("a"),
        boundary(),
        line_suffix(text(" //")),
        boundary(),
        text("b"),
    ]));
    assert_eq!("a //\nb", printed.as_code());
}

#[test]
fn a_line_suffix_keeps_a_group_with_a_boundary_from_fitting() {
    let content = concat(vec![
        line_suffix(text(" //")),
        group(concat(vec![
            text("a"),
            soft_line_break(),
            vec![FormatElement::LineSuffixBoundary],
            text("b"),
        ])),
    ]);
    assert_eq!("a //\nb", format(content).as_code());
}

#[test]
fn expanded_groups_are_not_measured() {
    let printed = format(tagged(
        Tag::StartGroup(Group::new().with_mode(GroupMode::Expand)),
        concat(vec![
            text("a"),
            soft_line_break(),
            text("b"),
            vec![FormatElement::ExpandParent],
        ]),
        Tag::EndGroup,
    ));
    assert_eq!("a\nb", printed.as_code());
}

#[test]
fn text_that_breaks_the_line_fits_up_to_the_line_break() {
    // Without expanding the group around it
    let document = Document::new(group(concat(vec![
        text("ab"),
        soft_line_break(),
        text("cd\nefghijklmnop"),
        soft_line_break(),
        text("q"),
    ])));
    let printed = Printer::new(width_options(6)).print(&document).unwrap();
    assert_eq!("abcd\nefghijklmnopq", printed.as_code());
}

#[test]
fn a_fill_prints_separators_that_do_not_fit_expanded() {
    let separator = || concat(vec![text(" and"), soft_line_break_or_space()]);
    let content = fill(vec![
        (Vec::new(), text("aaa")),
        (separator(), text("bbb")),
        (separator(), text("ccccc")),
    ]);
    let printed = Printer::new(width_options(10))
        .print(&Document::new(content))
        .unwrap()
        .as_code()
        .to_string();
    assert_eq!("aaa and\nbbb and\nccccc", printed);
}

#[test]
fn a_fill_expands_items_that_do_not_fit() {
    let content = fill(vec![
        (
            Vec::new(),
            concat(vec![text("aaaaaa"), soft_line_break(), text("bbbbbb")]),
        ),
        (soft_line_break_or_space(), text("c")),
    ]);
    let printed = Printer::new(width_options(10))
        .print(&Document::new(content))
        .unwrap()
        .as_code()
        .to_string();
    assert_eq!("aaaaaa\nbbbbbb\nc", printed);
}

#[test]
fn tokens_are_mapped_to_the_source() {
    let printed = format(concat(vec![
        located("a", 4),
        text(";"),
        hard_line_break(),
        located("bc", 9),
    ]));
    let marker = |source, dest| SourceMarker {
        source: TextSize::new(source),
        dest: TextSize::new(dest),
    };
    assert_eq!("a;\nbc", printed.as_code());
    assert_eq!(
        &[
            marker(4, 0),
            marker(5, 1),
            marker(5, 2),
            marker(9, 3),
            marker(11, 5)
        ],
        printed.sourcemap()
    );
}

#[test]
fn verbatim_ranges_are_recorded() {
    let verbatim = |kind, content| tagged(Tag::StartVerbatim(kind), content, Tag::EndVerbatim);
    let printed = format(concat(vec![
        text("ab"),
        verbatim(
            VerbatimKind::Verbatim {
                length: TextSize::new(3),
            },
            text("cde"),
        ),
        verbatim(VerbatimKind::Suppressed, text("f")),
        verbatim(VerbatimKind::Bogus, text("g")),
    ]));
    assert_eq!("abcdefg", printed.as_code());
    assert_eq!(
        &[TextRange {
            start: TextSize::new(2),
            end: TextSize::new(5)
        }],
        printed.verbatim_ranges()
    );
}

#[test]
fn labels_print_their_content() {
    let printed = format(tagged(
        Tag::StartLabelled(LabelId { value: 7 }),
        text("a"),
        Tag::EndLabelled,
    ));
    assert_eq!("a", printed.as_code());
}

#[test]
fn an_end_tag_without_start_tag_is_an_error() {
    assert_eq!(
        InvalidDocumentError::StartTagMissing {
            kind: TagKind::Group
        },
        print_error(vec![FormatElement::Tag(Tag::EndGroup)])
    );
}

#[test]
fn an_end_tag_of_another_kind_is_an_error() {
    assert_eq!(
        InvalidDocumentError::StartEndTagMismatch {
            start_kind: TagKind::Indent,
            end_kind: TagKind::Align
        },
        print_error(vec![
            FormatElement::Tag(Tag::StartIndent),
            FormatElement::Tag(Tag::EndAlign)
        ])
    );
}

#[test]
fn a_variant_must_be_an_entry() {
    let variants = |first: Elements| {
        vec![FormatElement::BestFitting(BestFittingElement::from_vec(
            vec![first, entry(text("b"))],
        ))]
    };
    let expected = |actual| InvalidDocumentError::ExpectedStart {
        expected_start: TagKind::Entry,
        actual,
    };
    assert_eq!(
        expected(ActualStart::Content),
        print_error(variants(text("a")))
    );
    assert_eq!(
        expected(ActualStart::Start(TagKind::Indent)),
        print_error(variants(indent(text("a"))))
    );
    assert_eq!(
        expected(ActualStart::End(TagKind::Fill)),
        print_error(variants(vec![FormatElement::Tag(Tag::EndFill)]))
    );
    assert_eq!(
        expected(ActualStart::EndOfDocument),
        print_error(variants(Vec::new()))
    );
}

#[test]
fn a_fill_must_end() {
    assert_eq!(
        InvalidDocumentError::StartEndTagMismatch {
            start_kind: TagKind::Fill,
            end_kind: TagKind::Fill
        },
        print_error(vec![FormatElement::Tag(Tag::StartFill)])
    );
}

#[test]
fn an_entry_must_end() {
    assert_eq!(
        InvalidDocumentError::StartEndTagMismatch {
            start_kind: TagKind::Entry,
            end_kind: TagKind::Entry
        },
        print_error(vec![
            FormatElement::Tag(Tag::StartFill),
            FormatElement::Tag(Tag::StartEntry),
            FormatElement::StaticText { text: "a" }
        ])
    );
}

#[test]
fn fills_inside_of_other_parts_print_at_every_width() {
    let items = || {
        fill(vec![
            (soft_line_break_or_space(), group(text("1,"))),
            (
                soft_line_break_or_space(),
                concat(vec![text("2,"), line_suffix(text(" // two"))]),
            ),
            (
                hard_line_break(),
                best_fitting(vec![
                    text("(3),"),
                    concat(vec![
                        text("("),
                        indent(concat(vec![hard_line_break(), text("3")])),
                        hard_line_break(),
                        text("),"),
                    ]),
                ]),
            ),
            (
                soft_line_break_or_space(),
                fill(vec![
                    (soft_line_break(), text("4")),
                    (soft_line_break(), text("5")),
                ]),
            ),
        ])
    };
    let expected = |width: u16| match width {
        0 => "[\n  1,\n  2, // two\n  (\n    3\n  ),\n  4\n  5\n]",
        4 | 5 => "[\n  1,\n  2, // two\n  (\n    3\n  ),\n  45\n]",
        _ => "[\n  1, 2, // two\n  (3), 45\n]",
    };
    for width in [0, 4, 5, 20, 80] {
        let options = space_options().with_print_width(PrintWidth::new(width));
        let content = concat(vec![text("["), soft_block_indent(items()), text("]")]);
        let printed = format_with_options(group(content), options);
        assert_eq!(expected(width), printed.as_code());
    }
}

#[test]
fn a_separator_is_measured_inside_of_a_fill_of_its_own() {
    let expanded = |content: Elements| {
        tagged(
            Tag::StartGroup(Group::new().with_mode(GroupMode::Expand)),
            content,
            Tag::EndGroup,
        )
    };
    let separated = || {
        fill(vec![
            (Vec::new(), text("a")),
            (group(text(" b")), expanded(text("c"))),
        ])
    };
    assert_eq!("a bc", format(separated()).as_code());
    assert_eq!(
        InvalidDocumentError::StartEndTagMismatch {
            start_kind: TagKind::Fill,
            end_kind: TagKind::Group
        },
        print_error(expanded(separated()))
    );
}

#[test]
fn measuring_does_not_go_beyond_a_line_suffix() {
    assert_eq!(
        InvalidDocumentError::StartEndTagMismatch {
            start_kind: TagKind::LineSuffix,
            end_kind: TagKind::LineSuffix
        },
        print_error(concat(vec![
            line_suffix(group(text("a"))),
            hard_line_break()
        ]))
    );
}

#[test]
fn unsupported_documents_are_not_printed() {
    let unknown_group = Document::new(conditional(
        PrintMode::Flat,
        Some(GroupId { value: 1 }),
        text("a"),
    ));
    assert!(Printer::try_print(space_options(), &unknown_group).is_none());

    let unclosed_suffix = Document::new(vec![FormatElement::Tag(Tag::StartLineSuffix)]);
    assert!(Printer::try_print_with_indent(space_options(), &unclosed_suffix, 1).is_none());

    let too_deep = Document::new(indent(concat(vec![hard_line_break(), text("a")])));
    assert!(Printer::try_print_with_indent(space_options(), &too_deep, u16::MAX).is_none());
}

#[test]
fn supported_documents_are_printed() {
    let document = Document::new(concat(vec![text("a"), hard_line_break(), text("b")]));
    let printed = Printer::try_print(space_options(), &document).unwrap().unwrap();
    assert_eq!("a\nb", printed.as_code());
    let indented = Printer::try_print_with_indent(space_options(), &document, 1)
        .unwrap()
        .unwrap();
    assert_eq!("a\n  b", indented.as_code());

    let invalid = Document::new(vec![FormatElement::Tag(Tag::EndGroup)]);
    assert_eq!(
        Some(Err(PrintError::InvalidDocument(
            InvalidDocumentError::StartTagMissing {
                kind: TagKind::Group
            }
        ))),
        Printer::try_print(space_options(), &invalid)
    );
}
