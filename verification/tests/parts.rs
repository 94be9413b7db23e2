use biome_formatter::diagnostics::{ActualStart, InvalidDocumentError, PrintError, PrintResult};
use biome_formatter::format_element::{BestFittingElement, Document, FormatElement, LineMode};
use biome_formatter::options::{
    IndentStyle, IndentWidth, LineEnding, PrintWidth, PrinterOptions,
};
use biome_formatter::printed::{Printed, SourceMarker};
use biome_formatter::printer::call_stack::{PrintCallStack, PrintElementArgs, PrintIndentStack};
use biome_formatter::printer::fits::{Fits, FitsEnd, FitsMeasurer};
use biome_formatter::printer::group_modes::GroupModes;
use biome_formatter::printer::indention::Indention;
use biome_formatter::printer::invalid::{invalid_end_tag, invalid_start_tag};
use biome_formatter::printer::line_suffixes::{LineSuffixEntry, LineSuffixes};
use biome_formatter::printer::queue::PrintQueue;
use biome_formatter::printer::stack::{Stack, StackedStack};
use biome_formatter::printer::state::{Halt, PrinterState};
use biome_formatter::printer::width::{char_columns, columns_of_width};
use biome_formatter::tag::{
    Align, Group, GroupId, GroupMode, PrintMode, Tag, TagKind,
};
use biome_formatter::text_size::{TextRange, TextSize};
use std::rc::Rc;

fn align(count: u8) -> Align {
    Align::new(count).unwrap()
}

fn text(text: &'static str) -> FormatElement {
    FormatElement::StaticText { text }
}

fn tag(tag: Tag) -> FormatElement {
    FormatElement::Tag(tag)
}

#[test]
fn sizes_are_counted_in_bytes() {
    assert_eq!(TextSize::of("abc"), Some(TextSize::new(3)));
    assert_eq!(TextSize::of("\u{5b57}"), Some(TextSize::new(3)));
    assert_eq!(TextSize::of(""), Some(TextSize::new(0)));
    assert_eq!(
        TextSize::new(3).checked_add(TextSize::new(4)),
        Some(TextSize::new(7))
    );
    assert_eq!(TextSize::new(u32::MAX).checked_add(TextSize::new(1)), None);
}

#[test]
fn ranges_have_an_end_that_fits() {
    assert_eq!(
        TextRange::at(TextSize::new(2), TextSize::new(3)),
        Some(TextRange {
            start: TextSize::new(2),
            end: TextSize::new(5),
        })
    );
    assert_eq!(
        TextRange::at(TextSize::new(u32::MAX), TextSize::new(1)),
        None
    );
}

#[test]
fn options_have_defaults() {
    let options = PrinterOptions::default();
    assert_eq!(options.print_width, PrintWidth::new(80));
    assert_eq!(options.line_ending, LineEnding::Lf);
    assert_eq!(options.indent_style, IndentStyle::Tab);
    assert_eq!(options.indent_width.value(), 2);
    let narrow = options.with_print_width(PrintWidth::new(10));
    assert_eq!(narrow.print_width, PrintWidth::new(10));
    assert_eq!(narrow.indent_style, IndentStyle::Tab);
}

#[test]
fn line_endings_have_their_characters() {
    assert_eq!(LineEnding::Lf.as_str(), "\n");
    assert_eq!(LineEnding::Crlf.as_str(), "\r\n");
    assert_eq!(LineEnding::Cr.as_str(), "\r");
    assert!(IndentStyle::Tab.is_tab());
    assert!(!IndentStyle::Space.is_tab());
}

#[test]
fn aligns_add_up_to_the_largest_count() {
    assert_eq!(Align::new(0), None);
    assert_eq!(align(3).saturating_add(align(4)).count(), 7);
    assert_eq!(align(200).saturating_add(align(100)).count(), 255);
}

#[test]
fn tags_have_a_kind_and_a_side() {
    assert!(Tag::StartEntry.is_start());
    assert!(!Tag::EndEntry.is_start());
    assert_eq!(Tag::StartEntry.kind(), TagKind::Entry);
    assert_eq!(Tag::EndLineSuffix.kind(), TagKind::LineSuffix);
    assert_eq!(Tag::StartGroup(Group::new()).kind(), TagKind::Group);
}

#[test]
fn groups_are_flat_unless_expanded() {
    let group = Group::new();
    assert_eq!(group.id, None);
    assert!(group.mode.is_flat());
    assert!(!group.with_mode(GroupMode::Expand).mode.is_flat());
    assert!(!group.with_mode(GroupMode::Propagated).mode.is_flat());
    assert_eq!(
        group.with_id(Some(GroupId { value: 3 })).id,
        Some(GroupId { value: 3 })
    );
}

#[test]
fn indentions_start_at_no_level() {
    assert_eq!(Indention::new(), Indention::Level(0));
    assert_eq!(Indention::default(), Indention::Level(0));
    assert!(Indention::new().is_empty());
    assert!(!Indention::Level(1).is_empty());
    assert!(!Indention::new().set_align(align(1)).is_empty());
}

#[test]
fn an_align_on_top_of_an_align_increments_the_level() {
    let aligned = Indention::Level(2).set_align(align(3));
    assert_eq!(aligned.level(), 2);
    assert_eq!(aligned.align(), 3);
    let twice = aligned.set_align(align(4));
    assert_eq!(twice.level(), 3);
    assert_eq!(twice.align(), 7);
    let again = Indention::Align {
        level: 1,
        align: align(2),
        align_count: 1,
    }
    .set_align(align(3));
    assert_eq!(
        again,
        Indention::Align {
            level: 2,
            align: align(5),
            align_count: 2,
        }
    );
}

#[test]
fn a_level_on_top_of_an_align_depends_on_the_style() {
    let aligned = Indention::Level(2).set_align(align(3));
    assert_eq!(
        aligned.increment_level(IndentStyle::Tab),
        Indention::Level(4)
    );
    let spaces = aligned.increment_level(IndentStyle::Space);
    assert_eq!(spaces.level(), 3);
    assert_eq!(spaces.align(), 3);
    assert_eq!(
        aligned
            .set_align(align(1))
            .increment_level(IndentStyle::Tab),
        Indention::Level(5)
    );
    assert_eq!(
        Indention::Level(2).increment_level(IndentStyle::Tab),
        Indention::Level(3)
    );
    let two_aligns = Indention::Align {
        level: 1,
        align: align(4),
        align_count: 2,
    };
    assert_eq!(
        two_aligns.increment_level(IndentStyle::Tab),
        Indention::Level(3)
    );
}

#[test]
fn levels_are_limited() {
    assert!(Indention::Level(1).can_increment(IndentStyle::Tab));
    assert!(!Indention::Level(u16::MAX).can_increment(IndentStyle::Tab));
    assert!(Indention::Level(u16::MAX).can_align());
    let aligned = Indention::Level(u16::MAX - 1).set_align(align(1));
    assert!(!aligned.can_increment(IndentStyle::Tab));
    assert!(aligned.can_increment(IndentStyle::Space));
    assert!(aligned.can_align());
    assert!(!aligned.set_align(align(1)).can_align());
}

#[test]
fn group_modes_are_found_by_id() {
    let mut modes = GroupModes::default();
    let (first, second) = (GroupId { value: 1 }, GroupId { value: 5 });
    assert_eq!(modes.get_print_mode(second), None);
    modes.insert_print_mode(second, PrintMode::Expanded);
    assert_eq!(modes.get_print_mode(second), Some(PrintMode::Expanded));
    assert_eq!(modes.get_print_mode(first), None);
    modes.insert_print_mode(first, PrintMode::Flat);
    modes.insert_print_mode(second, PrintMode::Flat);
    assert_eq!(modes.get_print_mode(first), Some(PrintMode::Flat));
    assert_eq!(
        modes.unwrap_print_mode(second, &FormatElement::Space),
        PrintMode::Flat
    );
}

#[test]
fn a_stacked_stack_leaves_its_base_alone() {
    let base = vec![1, 2];
    let mut stack = StackedStack::new(&base);
    assert_eq!(stack.top(), Some(2));
    assert_eq!(stack.pop(), Some(2));
    stack.push(7);
    assert_eq!(stack.top(), Some(7));
    assert_eq!(stack.pop(), Some(7));
    assert_eq!(stack.pop(), Some(1));
    assert_eq!(stack.pop(), None);
    assert_eq!(stack.top(), None);
    assert_eq!(base, vec![1, 2]);
}

#[test]
fn the_call_stack_checks_the_kind() {
    let mut stack = PrintCallStack::new(PrintElementArgs::new());
    assert_eq!(stack.top_kind(), None);
    assert_eq!(stack.top().mode(), PrintMode::Expanded);
    let flat = stack.top().with_print_mode(PrintMode::Flat);
    stack.push(TagKind::Group, flat);
    assert_eq!(stack.top_kind(), Some(TagKind::Group));
    assert_eq!(stack.top().mode(), PrintMode::Flat);
    assert_eq!(
        stack.pop(TagKind::Indent).err(),
        Some(PrintError::InvalidDocument(
            InvalidDocumentError::StartEndTagMismatch {
                start_kind: TagKind::Group,
                end_kind: TagKind::Indent,
            }
        ))
    );

    let mut stack = PrintCallStack::new(PrintElementArgs::new());
    stack.push(TagKind::Group, flat);
    assert_eq!(stack.pop(TagKind::Group), Ok(flat));
    assert_eq!(
        stack.pop(TagKind::Group).err(),
        Some(PrintError::InvalidDocument(
            InvalidDocumentError::StartTagMissing {
                kind: TagKind::Group
            }
        ))
    );
}

#[test]
fn dedents_go_back_and_forth() {
    let mut indents = PrintIndentStack::new(Indention::Level(1));
    indents.stack.indent(IndentStyle::Tab);
    assert_eq!(indents.stack.indention(), Indention::Level(2));
    indents.stack.start_dedent();
    assert_eq!(indents.stack.indention(), Indention::Level(1));
    indents.stack.end_dedent();
    assert_eq!(indents.stack.indention(), Indention::Level(2));
    indents.stack.reset_indent();
    assert_eq!(indents.stack.indention(), Indention::Level(0));
    indents.stack.pop();
    indents.stack.align(align(2));
    assert_eq!(indents.stack.indention().align(), 2);
    indents.stack.pop();
    indents.stack.pop();
    assert_eq!(indents.stack.indention(), Indention::Level(1));
}

#[test]
fn the_indention_of_the_first_suffix_comes_first() {
    let mut indents = PrintIndentStack::new(Indention::Level(0));
    indents.push_suffix(Indention::Level(1));
    indents.push_suffix(Indention::Level(2));
    assert_eq!(indents.stack.indention(), Indention::Level(0));
    indents.flush_suffixes();
    assert_eq!(indents.stack.indention(), Indention::Level(1));
    indents.stack.pop();
    assert_eq!(indents.stack.indention(), Indention::Level(2));
    indents.stack.pop();
    assert_eq!(indents.stack.indention(), Indention::Level(0));
}

#[test]
fn a_queue_hands_out_elements_in_order() {
    let elements = vec![text("a"), text("b")];
    let more = vec![text("c"), text("d")];
    let single = text("e");
    let mut queue = PrintQueue::new(&elements);
    assert_eq!(queue.pop(), Some(&text("a")));
    queue.extend_back(&more);
    queue.push(&single);
    assert_eq!(queue.top(), Some(&text("e")));
    assert_eq!(queue.pop(), Some(&text("e")));
    assert_eq!(queue.pop(), Some(&text("c")));
    assert_eq!(queue.pop_slice(), Some(&[text("d")][..]));
    assert_eq!(queue.pop(), Some(&text("b")));
    assert!(queue.is_empty());
    assert_eq!(queue.pop(), None);
    assert_eq!(queue.top(), None);
    assert_eq!(queue.pop_slice(), None);
}

#[test]
fn the_top_of_a_queue_is_inside_of_interned_content() {
    let elements = vec![FormatElement::Interned(Rc::new(vec![
        tag(Tag::StartEntry),
        text("a"),
    ]))];
    let queue = PrintQueue::new(&elements);
    assert_eq!(queue.top(), Some(&tag(Tag::StartEntry)));
    assert!(queue.starts_entry());
}

#[test]
fn content_ends_with_the_tag_that_belongs_to_it() {
    let elements = vec![
        text("a"),
        FormatElement::Interned(Rc::new(vec![
            tag(Tag::StartLineSuffix),
            text("b"),
            tag(Tag::EndLineSuffix),
        ])),
        tag(Tag::EndLineSuffix),
        text("c"),
    ];
    let mut queue = PrintQueue::new(&elements);
    let content = queue.take_content(TagKind::LineSuffix).unwrap();
    assert_eq!(
        content,
        vec![
            &text("a"),
            &tag(Tag::StartLineSuffix),
            &text("b"),
            &tag(Tag::EndLineSuffix),
        ]
    );
    assert_eq!(queue.pop(), Some(&text("c")));

    let mut queue = PrintQueue::new(&elements);
    assert!(queue.skip_content(TagKind::LineSuffix));
    assert_eq!(queue.pop(), Some(&text("c")));
    assert!(!PrintQueue::new(&elements).skip_content(TagKind::ConditionalContent));
}

#[test]
fn line_suffixes_wait_until_they_are_taken() {
    let (first, second) = (text("a"), text("b"));
    let args = PrintElementArgs::new();
    let mut suffixes = LineSuffixes::new();
    assert!(!suffixes.has_pending());
    suffixes.extend(args, vec![&first, &second]);
    assert!(suffixes.has_pending());
    let entries = suffixes.take_pending();
    assert!(!suffixes.has_pending());
    assert_eq!(entries.len(), 3);
    assert!(matches!(entries[0], LineSuffixEntry::Suffix(element) if *element == first));
    assert!(matches!(entries[1], LineSuffixEntry::Suffix(element) if *element == second));
    assert!(matches!(entries[2], LineSuffixEntry::Args(found) if found == args));
}

#[test]
fn characters_take_columns() {
    let options = PrinterOptions::default();
    let wide = PrinterOptions {
        indent_width: IndentWidth::new(8),
        ..options
    };
    assert_eq!(char_columns(&options, 'a'), 1);
    assert_eq!(char_columns(&options, ' '), 1);
    assert_eq!(char_columns(&options, '~'), 1);
    assert_eq!(char_columns(&options, '\u{5b57}'), 2);
    assert_eq!(char_columns(&options, '\u{301}'), 0);
    assert_eq!(char_columns(&options, '\u{1}'), 0);
    assert_eq!(char_columns(&options, '\u{7f}'), 0);
    assert_eq!(char_columns(&options, '\u{9f}'), 0);
    assert_eq!(char_columns(&options, '\u{a0}'), 1);
    assert_eq!(char_columns(&options, '\u{17d8}'), 3);
    assert_eq!(char_columns(&options, '\t'), 2);
    assert_eq!(char_columns(&wide, '\t'), 8);
    assert_eq!(columns_of_width(&wide, '\t', None), 8);
    assert_eq!(columns_of_width(&wide, 'a', None), 0);
    assert_eq!(columns_of_width(&wide, 'a', Some(4)), 4);
}

#[test]
fn tests_fit_or_they_do_not() {
    assert_eq!(Fits::from(true), Fits::Yes);
    assert_eq!(Fits::from(false), Fits::No);
}

#[test]
fn a_missing_end_names_the_part_that_is_open() {
    let missing: PrintResult<()> = invalid_end_tag(TagKind::Entry, None);
    assert_eq!(
        missing,
        Err(PrintError::InvalidDocument(
            InvalidDocumentError::StartTagMissing {
                kind: TagKind::Entry
            }
        ))
    );
    let other: PrintResult<()> = invalid_end_tag(TagKind::Entry, Some(TagKind::Group));
    assert_eq!(
        other,
        Err(PrintError::InvalidDocument(
            InvalidDocumentError::StartEndTagMismatch {
                start_kind: TagKind::Entry,
                end_kind: TagKind::Group,
            }
        ))
    );
}

#[test]
fn a_missing_start_names_what_is_there() {
    for (element, actual) in [
        (None, ActualStart::EndOfDocument),
        (Some(text("a")), ActualStart::Content),
        (
            Some(tag(Tag::StartIndent)),
            ActualStart::Start(TagKind::Indent),
        ),
        (Some(tag(Tag::EndIndent)), ActualStart::End(TagKind::Indent)),
    ] {
        let result: PrintResult<()> = invalid_start_tag(TagKind::Entry, element.as_ref());
        assert_eq!(
            result,
            Err(PrintError::InvalidDocument(
                InvalidDocumentError::ExpectedStart {
                    expected_start: TagKind::Entry,
                    actual,
                }
            ))
        );
    }
}

#[test]
fn measuring_leaves_the_queue_and_tracks_the_groups() {
    let id = GroupId { value: 0 };
    let elements = vec![
        tag(Tag::StartGroup(Group::new().with_id(Some(id)))),
        text("abc"),
        tag(Tag::EndGroup),
        text("def"),
    ];
    let queue = PrintQueue::new(&elements);
    let stack = PrintCallStack::new(PrintElementArgs::new());
    let indents = PrintIndentStack::new(Indention::new());
    let mut state = PrinterState::default();
    let options = PrinterOptions::default();

    let mut measurer = FitsMeasurer::new(
        &queue,
        &stack,
        &indents,
        options.with_print_width(PrintWidth::new(6)),
        &mut state,
    );
    let mut end = FitsEnd::Document;
    assert!(matches!(measurer.fits(&mut end), Ok(true)));
    let modes = measurer.finish();
    assert_eq!(modes.get_print_mode(id), Some(PrintMode::Expanded));
    assert_eq!(queue.top(), Some(&elements[0]));

    let mut measurer = FitsMeasurer::new(
        &queue,
        &stack,
        &indents,
        options.with_print_width(PrintWidth::new(5)),
        &mut state,
    );
    assert!(matches!(measurer.fits(&mut end), Ok(false)));
    measurer.finish();
}

#[test]
fn items_and_separators_are_measured_one_by_one() {
    let elements = vec![
        tag(Tag::StartEntry),
        text("abc"),
        tag(Tag::EndEntry),
        tag(Tag::StartEntry),
        FormatElement::Line(LineMode::SoftOrSpace),
        tag(Tag::EndEntry),
        tag(Tag::StartEntry),
        text("def"),
        tag(Tag::EndEntry),
    ];
    let queue = PrintQueue::new(&elements);
    let stack = PrintCallStack::new(PrintElementArgs::new());
    let indents = PrintIndentStack::new(Indention::new());
    let mut state = PrinterState::default();
    let options = PrinterOptions::default().with_print_width(PrintWidth::new(6));

    let mut measurer = FitsMeasurer::new_flat(&queue, &stack, &indents, options, &mut state);
    assert!(matches!(measurer.fill_item_fits(), Ok(true)));
    assert!(matches!(
        measurer.fill_separator_fits(PrintMode::Flat),
        Ok(true)
    ));
    assert!(matches!(measurer.fill_item_fits(), Ok(false)));
    measurer.finish();

    let mut measurer = FitsMeasurer::new_flat(&queue, &stack, &indents, options, &mut state);
    assert!(matches!(measurer.fill_item_fits(), Ok(true)));
    assert!(matches!(
        measurer.fill_separator_fits(PrintMode::Expanded),
        Ok(true)
    ));
    measurer.finish();

    let rest = PrintQueue::new(&elements[1..]);
    let mut measurer = FitsMeasurer::new_flat(&rest, &stack, &indents, options, &mut state);
    assert!(matches!(
        measurer.fill_item_fits(),
        Err(Halt::Error(PrintError::InvalidDocument(
            InvalidDocumentError::ExpectedStart {
                expected_start: TagKind::Entry,
                actual: ActualStart::Content,
            }
        )))
    ));
    measurer.finish();
}

#[test]
fn an_entry_without_an_end_is_not_measured() {
    let stack = PrintCallStack::new(PrintElementArgs::new());
    let indents = PrintIndentStack::new(Indention::new());
    let options = PrinterOptions::default().with_print_width(PrintWidth::new(3));
    for content in [
        vec![text("a")],
        vec![text("abcdef")],
        vec![FormatElement::Line(LineMode::Hard)],
        vec![tag(Tag::StartEntry), tag(Tag::EndEntry)],
        vec![text("abcdef"), text("b")],
        vec![FormatElement::Line(LineMode::Hard), text("b")],
        vec![
            FormatElement::Line(LineMode::Hard),
            tag(Tag::StartEntry),
            tag(Tag::EndEntry),
        ],
        vec![
            tag(Tag::StartEntry),
            text("abcdef"),
            FormatElement::Interned(Rc::new(vec![tag(Tag::EndEntry)])),
            text("b"),
        ],
    ] {
        let mut elements = vec![tag(Tag::StartEntry)];
        elements.extend(content);
        let queue = PrintQueue::new(&elements);
        let mut state = PrinterState::default();
        let mut measurer = FitsMeasurer::new_flat(&queue, &stack, &indents, options, &mut state);
        assert!(matches!(
            measurer.fill_item_fits(),
            Err(Halt::Error(PrintError::InvalidDocument(
                InvalidDocumentError::StartEndTagMismatch {
                    start_kind: TagKind::Entry,
                    end_kind: TagKind::Entry,
                }
            )))
        ));
        measurer.finish();
    }
}

#[test]
fn measuring_an_entry_may_stop_before_its_end() {
    let stack = PrintCallStack::new(PrintElementArgs::new());
    let indents = PrintIndentStack::new(Indention::new());
    let options = PrinterOptions::default().with_print_width(PrintWidth::new(3));
    for (stopper, fits) in [
        (text("abcdef"), false),
        (FormatElement::Line(LineMode::Hard), true),
    ] {
        let elements = vec![
            tag(Tag::StartEntry),
            tag(Tag::StartEntry),
            stopper,
            tag(Tag::StartEntry),
            FormatElement::Interned(Rc::new(vec![tag(Tag::EndEntry), tag(Tag::EndEntry)])),
            tag(Tag::EndEntry),
            text("b"),
        ];
        let queue = PrintQueue::new(&elements);
        let mut state = PrinterState::default();
        let mut measurer = FitsMeasurer::new_flat(&queue, &stack, &indents, options, &mut state);
        assert!(matches!(measurer.fill_item_fits(), Ok(result) if result == fits));
        assert_eq!(measurer.queue.pop(), Some(&elements[3]));
        assert_eq!(measurer.queue.pop(), Some(&elements[4]));
        measurer.finish();
    }
}

#[test]
fn entries_end_behind_those_inside_of_them() {
    let elements = vec![
        text("a"),
        tag(Tag::StartEntry),
        FormatElement::Interned(Rc::new(vec![tag(Tag::EndEntry), tag(Tag::EndEntry)])),
        tag(Tag::EndEntry),
    ];
    for (depth, ends) in [(1, true), (2, true), (3, false)] {
        assert_eq!(PrintQueue::new(&elements).ends_entry(depth), Some(ends));
    }
    assert_eq!(PrintQueue::new(&elements).ends_entry(usize::MAX), None);

    let queue = PrintQueue::new(&elements);
    let mut one = queue.stacked();
    let mut other = one.copied();
    assert_eq!(other.pop(), Some(&elements[0]));
    assert_eq!(one.pop(), Some(&elements[0]));
    one.push(&elements[3]);
    let mut copy = one.copied();
    assert_eq!(copy.pop(), Some(&elements[3]));
    assert_eq!(one.pop(), Some(&elements[3]));
    assert_eq!(one.pop(), Some(&elements[1]));
    assert_eq!(copy.pop(), Some(&elements[1]));
}

#[test]
fn variants_go_from_flat_to_expanded() {
    let element = BestFittingElement::from_vec(vec![
        vec![text("a")],
        vec![text("b")],
        vec![text("c")],
    ]);
    assert_eq!(element.most_flat(), &[text("a")]);
    assert_eq!(element.most_expanded(), &[text("c")]);
    assert_eq!(element.variants().len(), 3);
}

#[test]
fn printed_code_keeps_its_parts() {
    let marker = SourceMarker {
        source: TextSize::new(1),
        dest: TextSize::new(2),
    };
    let range = TextRange {
        start: TextSize::new(0),
        end: TextSize::new(3),
    };
    let printed = Printed::new("abc".to_string(), Some(range), vec![marker], vec![range]);
    assert_eq!(printed.as_code(), "abc");
    assert_eq!(printed.range(), Some(range));
    assert_eq!(printed.sourcemap(), &[marker]);
    assert_eq!(printed.verbatim_ranges(), &[range]);
    let document = Document::new(vec![text("a")]);
    assert_eq!(document.as_slice(), &[text("a")]);
}
