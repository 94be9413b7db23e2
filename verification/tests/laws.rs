use biome_formatter::diagnostics::PrintError;
use biome_formatter::format_element::{BestFittingElement, Document, FormatElement, LineMode};
use biome_formatter::options::{
    IndentStyle, IndentWidth, LineEnding, PrintWidth, PrinterOptions,
};
use biome_formatter::printed::Printed;
use biome_formatter::printer::Printer;
use biome_formatter::tag::{Align, DedentMode, Group, GroupId, GroupMode, LabelId, PrintMode, Tag};
use biome_formatter::text_size::TextSize;
use std::rc::Rc;

type Elements = Vec<FormatElement>;

fn join(parts: Vec<Elements>) -> Elements {
    parts.into_iter().flatten().collect()
}

fn word(text: &'static str) -> Elements {
    vec![FormatElement::StaticText { text }]
}

fn soft() -> Elements {
    vec![FormatElement::Line(LineMode::Soft)]
}

fn soft_or_space() -> Elements {
    vec![FormatElement::Line(LineMode::SoftOrSpace)]
}

fn hard() -> Elements {
    vec![FormatElement::Line(LineMode::Hard)]
}

fn part(start: Tag, content: Elements, end: Tag) -> Elements {
    join(vec![
        vec![FormatElement::Tag(start)],
        content,
        vec![FormatElement::Tag(end)],
    ])
}

fn group(content: Elements) -> Elements {
    part(Tag::StartGroup(Group::new()), content, Tag::EndGroup)
}

fn expanded(content: Elements) -> Elements {
    part(
        Tag::StartGroup(Group::new().with_mode(GroupMode::Expand)),
        content,
        Tag::EndGroup,
    )
}

fn indent(content: Elements) -> Elements {
    part(Tag::StartIndent, content, Tag::EndIndent)
}

fn entry(content: Elements) -> Elements {
    part(Tag::StartEntry, content, Tag::EndEntry)
}

fn fill(entries: Vec<Elements>) -> Elements {
    part(
        Tag::StartFill,
        entries.into_iter().flat_map(entry).collect(),
        Tag::EndFill,
    )
}

fn line_suffix(content: Elements) -> Elements {
    part(Tag::StartLineSuffix, content, Tag::EndLineSuffix)
}

fn interned(content: Elements) -> Elements {
    vec![FormatElement::Interned(Rc::new(content))]
}

fn best_fitting(variants: Vec<Elements>) -> Elements {
    vec![FormatElement::BestFitting(BestFittingElement::from_vec(
        variants.into_iter().map(entry).collect(),
    ))]
}

fn options(width: u16) -> PrinterOptions {
    PrinterOptions::default().with_print_width(PrintWidth::new(width))
}

fn printed(content: Elements, options: PrinterOptions) -> Printed {
    Printer::try_print(options, &Document::new(content))
        .expect("a supported document")
        .expect("a valid document")
}

fn code(content: Elements, width: u16) -> String {
    printed(content, options(width)).as_code().to_string()
}

fn visible(text: &str) -> String {
    text.chars()
        .filter(|character| !matches!(character, ' ' | '\t' | '\n' | '\r'))
        .collect()
}

/// A document with all the parts whose texts are printed in their order.
fn everything() -> Elements {
    join(vec![
        word("a b"),
        hard(),
        group(join(vec![
            word("("),
            indent(join(vec![soft(), word("c,"), soft_or_space(), word("d")])),
            soft(),
            word(")"),
        ])),
        part(
            Tag::StartAlign(Align::new(3).unwrap()),
            join(vec![hard(), word("e")]),
            Tag::EndAlign,
        ),
        indent(part(
            Tag::StartDedent(DedentMode::Level),
            join(vec![hard(), word("f")]),
            Tag::EndDedent(DedentMode::Level),
        )),
        interned(join(vec![
            vec![FormatElement::Space, FormatElement::HardSpace],
            word("g\nh"),
        ])),
        part(
            Tag::StartLabelled(LabelId { value: 1 }),
            word("i"),
            Tag::EndLabelled,
        ),
        fill(vec![
            word("j"),
            soft_or_space(),
            expanded(join(vec![word("k"), soft(), word("l")])),
            soft_or_space(),
            word("m"),
        ]),
    ])
}

#[test]
fn only_blanks_change() {
    for width in [1, 5, 10, 80] {
        for line_ending in [LineEnding::Lf, LineEnding::Crlf, LineEnding::Cr] {
            for indent_style in [IndentStyle::Tab, IndentStyle::Space] {
                let options = PrinterOptions {
                    line_ending,
                    indent_style,
                    indent_width: IndentWidth::new(4),
                    ..options(width)
                };
                assert_eq!(
                    visible(printed(everything(), options).as_code()),
                    "ab(c,d)efghijklm"
                );
            }
        }
    }
}

fn letters(text: &str) -> Vec<char> {
    let mut letters: Vec<char> = visible(text).chars().collect();
    letters.sort();
    letters
}

#[test]
fn every_text_is_printed() {
    let content = || {
        join(vec![
            word("a"),
            line_suffix(join(vec![word("// b"), indent(word("c"))])),
            interned(join(vec![word("d"), line_suffix(word("// e"))])),
            everything(),
            line_suffix(word("f")),
        ])
    };
    for width in [1, 10, 80] {
        let code = code(content(), width);
        assert!(code.starts_with("ada b// bc// e"));
        assert!(code.ends_with("mf"));
        assert_eq!(letters(&code), letters("a // b c d // e ab(c,d)efghijklm f"));
    }
}

#[test]
fn every_line_break_is_the_line_ending() {
    let lines = printed(
        everything(),
        PrinterOptions {
            line_ending: LineEnding::Crlf,
            ..options(5)
        },
    );
    let code = lines.as_code();
    assert!(code.contains("\r\n"));
    assert_eq!(code.matches('\n').count(), code.matches("\r\n").count());

    let returns = printed(
        everything(),
        PrinterOptions {
            line_ending: LineEnding::Cr,
            ..options(5)
        },
    );
    assert!(returns.as_code().contains('\r'));
    assert!(!returns.as_code().contains('\n'));
}

#[test]
fn both_ends_of_a_text_are_in_the_source_map() {
    let printed = printed(
        join(vec![
            word("ab"),
            hard(),
            vec![FormatElement::DynamicText {
                text: "cd".to_string(),
                source_position: TextSize::new(10),
            }],
            word("!"),
        ]),
        options(80),
    );
    assert_eq!(printed.as_code(), "ab\ncd!");
    let markers: Vec<(u32, u32)> = printed
        .sourcemap()
        .iter()
        .map(|marker| (marker.source.raw, marker.dest.raw))
        .collect();
    assert_eq!(markers, vec![(0, 0), (0, 2), (10, 3), (12, 5), (12, 6)]);
}

#[test]
fn a_group_that_fits_stays_on_the_line() {
    let content = || {
        group(join(vec![
            word("ab"),
            soft_or_space(),
            indent(join(vec![word("cd"), soft(), word("ef")])),
            best_fitting(vec![word("g"), join(vec![hard(), word("h")])]),
        ]))
    };
    assert_eq!(code(content(), 8), "ab cdefg");
    assert_eq!(code(content(), 7), "ab\ncd\n\tefg");
}

#[test]
fn what_comes_behind_a_group_must_fit_up_to_the_next_line_break() {
    let content = || {
        join(vec![
            group(join(vec![word("ab"), soft_or_space(), word("cd")])),
            word("efg"),
            soft(),
            word("hijklmnop"),
        ])
    };
    assert_eq!(code(content(), 8), "ab cdefg\nhijklmnop");
    assert_eq!(code(content(), 7), "ab\ncdefg\nhijklmnop");
}

#[test]
fn a_pair_and_the_next_item_that_fit_are_flat() {
    let content = fill(vec![
        word("aa"),
        soft_or_space(),
        word("bb"),
        soft_or_space(),
        word("cc"),
    ]);
    assert_eq!(code(content, 8), "aa bb cc");
}

#[test]
fn a_separator_expands_before_an_item_that_does_not_fit() {
    let content = fill(vec![
        word("aa"),
        soft_or_space(),
        word("bb"),
        soft_or_space(),
        word("cc"),
    ]);
    assert_eq!(code(content, 7), "aa bb\ncc");
}

#[test]
fn an_item_is_flat_if_the_expanded_separator_fits() {
    let content = fill(vec![
        join(vec![word("aa"), soft(), word("bb")]),
        join(vec![soft(), word("||||")]),
        word("c"),
    ]);
    assert_eq!(code(content, 6), "aabb\n||||c");
}

#[test]
fn an_item_expands_if_neither_separator_fits() {
    let content = fill(vec![
        join(vec![word("aa"), soft(), word("bb")]),
        join(vec![word("||||"), soft()]),
        word("c"),
    ]);
    assert_eq!(code(content, 6), "aa\nbb||||\nc");
}

#[test]
fn an_item_that_does_not_fit_expands_with_its_separator() {
    let content = fill(vec![
        join(vec![word("aaaa"), soft(), word("bbbb")]),
        soft_or_space(),
        word("c"),
    ]);
    assert_eq!(code(content, 6), "aaaa\nbbbb\nc");
}

#[test]
fn an_entry_is_printed_to_its_end() {
    let variant = || {
        join(vec![
            word("a"),
            best_fitting(vec![word("b"), word("c")]),
            fill(vec![word("d"), soft(), word("e")]),
        ])
    };
    let content = join(vec![
        best_fitting(vec![variant(), word("-")]),
        indent(join(vec![hard(), word("f")])),
    ]);
    assert_eq!(code(content, 80), "abde\n\tf");
}

#[test]
fn line_suffixes_are_printed_in_their_order() {
    let content = join(vec![
        word("a"),
        line_suffix(word(" // 1")),
        line_suffix(join(vec![word(" // 2"), indent(word(" // 3"))])),
        word("b"),
        hard(),
        word("c"),
        line_suffix(word(" // 4")),
    ]);
    assert_eq!(code(content, 80), "ab // 1 // 2 // 3\nc // 4");
}

#[test]
fn nested_documents_are_printed_without_an_error() {
    let id = GroupId { value: 0 };
    let content = || {
        join(vec![
            part(
                Tag::StartGroup(Group::new().with_id(Some(id))),
                join(vec![
                    word("a"),
                    line_suffix(expanded(word("b"))),
                    soft(),
                    best_fitting(vec![word("c"), join(vec![hard(), word("d")])]),
                ]),
                Tag::EndGroup,
            ),
            part(
                Tag::StartIndentIfGroupBreaks(id),
                join(vec![soft(), word("e")]),
                Tag::EndIndentIfGroupBreaks(id),
            ),
        ])
    };
    for width in 0..8 {
        for indent in 0..3 {
            let document = Document::new(content());
            let result = Printer::try_print_with_indent(options(width), &document, indent);
            assert!(matches!(result, Some(Ok(_))));
        }
    }
}

#[test]
fn documents_that_do_not_nest_lead_to_an_error() {
    for content in [
        vec![FormatElement::Tag(Tag::EndGroup)],
        vec![
            FormatElement::Tag(Tag::StartIndent),
            FormatElement::Tag(Tag::StartGroup(Group::new())),
            FormatElement::Tag(Tag::EndIndent),
            FormatElement::Tag(Tag::EndGroup),
        ],
    ] {
        let document = Document::new(content);
        let result = Printer::try_print(options(80), &document);
        assert!(matches!(
            result,
            Some(Err(PrintError::InvalidDocument(_)))
        ));
    }
}

#[test]
fn measuring_sees_the_modes_of_the_groups_before() {
    let id = GroupId { value: 0 };
    let content = |mode: GroupMode| {
        join(vec![
            part(
                Tag::StartGroup(Group::new().with_id(Some(id)).with_mode(mode)),
                join(vec![word("a"), soft(), word("b")]),
                Tag::EndGroup,
            ),
            group(join(vec![
                part(
                    Tag::StartConditionalContent(biome_formatter::tag::Condition {
                        mode: PrintMode::Expanded,
                        group_id: Some(id),
                    }),
                    word("!!"),
                    Tag::EndConditionalContent,
                ),
                word("c"),
                soft(),
                word("d"),
            ])),
        ])
    };
    assert_eq!(code(content(GroupMode::Flat), 4), "abcd");
    assert_eq!(code(content(GroupMode::Expand), 4), "a\nb!!c\nd");
}
