use editor_core::block_map::{BlockProperties, Restyle, RowEdit};
use editor_core::block_snapshot::DisplayRow;
use editor_core::block_transforms::{BlockBody, BlockDisposition, BlockStyle};
use editor_core::display_map::{
    BufferShape, DisplayMap, DisplayMapSnapshot, DisplayPoint, FoldRange, RowChange,
};
use editor_core::point::{Bias, Point};
use editor_core::wrap_rows::{PieceKind, RowPiece, WrapLine, WrapSnapshot};

fn lines(text: &[(u32, u32, u32, &str)]) -> WrapSnapshot {
    WrapSnapshot::new(
        text.iter()
            .map(|(row, column, indent, line)| {
                WrapLine::plain(Point::new(*row, *column), *indent, line.as_bytes().to_vec())
            })
            .collect(),
    )
}

fn plain(text: &str) -> WrapSnapshot {
    WrapSnapshot::new(
        text.split('\n')
            .enumerate()
            .map(|(row, line)| {
                WrapLine::plain(Point::new(row as u32, 0), 0, line.as_bytes().to_vec())
            })
            .collect(),
    )
}

fn unchanged(wrap_snapshot: WrapSnapshot, positions: Vec<Point>) -> RowChange {
    RowChange { wrap_snapshot, positions, edits: vec![] }
}

fn above(row: u32, text: &str) -> BlockProperties {
    BlockProperties {
        position: Point::new(row, 0),
        disposition: BlockDisposition::Above,
        body: BlockBody { text: text.as_bytes().to_vec(), runs: vec![], style: None },
    }
}

fn shape(text: &str) -> BufferShape {
    BufferShape {
        line_lens: text.split('\n').map(|line| line.len() as u32).collect(),
        folds: vec![],
    }
}

fn snapshot_of(text: &str) -> DisplayMapSnapshot {
    DisplayMap::new(plain(text)).snapshot(unchanged(plain(text), vec![]), shape(text))
}

// The row of a buffer line in which a tab reaches to the next of every four columns.
fn tabbed(row: u32, line: &str) -> WrapLine {
    let mut r = WrapLine::plain(Point::new(row, 0), 0, vec![]);
    let mut at: u32 = 0;
    let mut shown_chars: usize = 0;
    for c in line.chars() {
        at += c.len_utf8() as u32;
        let end = Point::new(row, at);
        if c == '\t' {
            let spaces = 4 - shown_chars % 4;
            shown_chars += spaces;
            r.text.extend(vec![b' '; spaces]);
            r.pieces.push(RowPiece { kind: PieceKind::Tab, shown: spaces as u32, end });
        } else {
            shown_chars += 1;
            r.text.extend(c.to_string().as_bytes());
            match r.pieces.last_mut() {
                Some(p) if p.kind == PieceKind::Text => {
                    p.shown += c.len_utf8() as u32;
                    p.end = end;
                }
                _ => r.pieces.push(RowPiece {
                    kind: PieceKind::Text,
                    shown: c.len_utf8() as u32,
                    end,
                }),
            }
        }
    }
    r
}

fn tabs_snapshot(text: &str) -> DisplayMapSnapshot {
    let rows = || {
        let lines = text.split('\n').enumerate();
        WrapSnapshot::new(lines.map(|(row, line)| tabbed(row as u32, line)).collect())
    };
    DisplayMap::new(rows()).snapshot(unchanged(rows(), vec![]), shape(text))
}

fn display_text(snapshot: &DisplayMapSnapshot, row: u32) -> String {
    String::from_utf8(snapshot.text_chunks(row).collect_text()).unwrap()
}

#[test]
fn points_are_read_and_changed() {
    let mut point = DisplayPoint::new(3, 4);
    assert_eq!(point.row(), 3);
    assert_eq!(point.column(), 4);
    assert!(!point.is_zero());
    assert!(DisplayPoint::zero().is_zero());
    *point.row_mut() = 7;
    *point.column_mut() = 0;
    assert_eq!(point, DisplayPoint::new(7, 0));
}

#[test]
fn text_is_shown_with_blocks() {
    let mut map = DisplayMap::new(plain("one\ntwo\nthree"));
    let ids = map.insert_blocks(
        unchanged(plain("one\ntwo\nthree"), vec![]),
        vec![above(1, "block")],
    );
    let snapshot = map.snapshot(
        unchanged(plain("one\ntwo\nthree"), vec![Point::new(1, 0)]),
        shape("one\ntwo\nthree"),
    );
    assert_eq!(String::from_utf8(snapshot.text()).unwrap(), "one\nblock\ntwo\nthree");
    assert_eq!(snapshot.max_point(), DisplayPoint::new(3, 5));
    assert_eq!(snapshot.longest_row(), 3);
    assert_eq!(snapshot.buffer_row_count(), 3);
    assert_eq!(snapshot.line_len(1), 5);
    assert!(snapshot.is_block_line(1));
    assert_eq!(snapshot.line(2), b"two".to_vec());
    let mut rows = snapshot.buffer_rows(1);
    assert_eq!(rows.next(), Some(DisplayRow::Block(ids[0], None)));
    assert_eq!(rows.next(), Some(DisplayRow::Buffer(1)));

    assert_eq!(snapshot.to_display_point(Point::new(1, 2)), DisplayPoint::new(2, 2));
    assert_eq!(snapshot.to_point(DisplayPoint::new(2, 2)), Point::new(1, 2));
    assert_eq!(
        snapshot.clip_point(DisplayPoint::new(1, 2), Bias::Left),
        DisplayPoint::new(0, 3)
    );
    assert_eq!(
        snapshot.clip_point(DisplayPoint::new(1, 2), Bias::Right),
        DisplayPoint::new(2, 0)
    );

    map.restyle_blocks(&vec![Restyle { id: ids[0], runs: vec![], style: Some(BlockStyle(3)) }]);
    map.remove_blocks(
        unchanged(plain("one\ntwo\nthree"), vec![Point::new(1, 0)]),
        &vec![ids[0]],
    );
    let snapshot = map.snapshot(
        unchanged(plain("one\ntwo\nthree"), vec![]),
        shape("one\ntwo\nthree"),
    );
    assert_eq!(String::from_utf8(snapshot.text()).unwrap(), "one\ntwo\nthree");
}

#[test]
fn edits_are_followed() {
    let mut map = DisplayMap::new(plain("one\ntwo"));
    let change = RowChange {
        wrap_snapshot: plain("one\nnew\ntwo"),
        positions: vec![],
        edits: vec![RowEdit { old_start: 1, old_end: 1, new_start: 1, new_end: 2 }],
    };
    let snapshot = map.snapshot(change, shape("one\nnew\ntwo"));
    assert_eq!(String::from_utf8(snapshot.text()).unwrap(), "one\nnew\ntwo");
}

#[test]
fn row_boundaries_go_over_soft_wraps() {
    let wrap = || lines(&[(0, 0, 0, "one "), (0, 4, 2, "  two"), (1, 0, 0, "x")]);
    let snapshot = DisplayMap::new(wrap()).snapshot(unchanged(wrap(), vec![]), shape("one two\nx"));
    assert_eq!(
        snapshot.prev_row_boundary(DisplayPoint::new(1, 3)),
        (DisplayPoint::new(0, 0), Point::new(0, 0))
    );
    assert_eq!(
        snapshot.next_row_boundary(DisplayPoint::new(0, 1)),
        (DisplayPoint::new(1, 5), Point::new(0, 7))
    );
    assert_eq!(snapshot.soft_wrap_indent(0), Some(2));
    assert_eq!(snapshot.soft_wrap_indent(1), None);
}

#[test]
fn columns_and_characters_are_converted() {
    let snapshot = snapshot_of("a\u{3b1}\u{270b}b");
    assert_eq!(snapshot.column_to_chars(0, 6), 3);
    assert_eq!(snapshot.column_from_chars(0, 3), 6);
    assert_eq!(snapshot.clip_point(DisplayPoint::new(0, 2), Bias::Left), DisplayPoint::new(0, 1));
    assert_eq!(snapshot.clip_point(DisplayPoint::new(0, 2), Bias::Right), DisplayPoint::new(0, 3));
    assert_eq!(snapshot.chars_at(DisplayPoint::new(0, 1)), "\u{3b1}\u{270b}b".as_bytes().to_vec());
}

#[test]
fn indents_and_emptiness_are_told() {
    let snapshot = snapshot_of("  x\n   ");
    assert_eq!(snapshot.line_indent(0), (2, false));
    assert_eq!(snapshot.line_indent(1), (3, true));
    assert!(!snapshot.is_empty());
    assert!(snapshot_of("").is_empty());
    assert_eq!(snapshot.text_chunks(1).collect_text(), b"   ".to_vec());
    assert_eq!(snapshot.chunks(0, 1).next().unwrap().text, b"  x\n".to_vec());
}

#[test]
fn boundaries_enclose_clipped_positions() {
    let rows = || {
        lines(&[(0, 0, 0, "one "), (0, 4, 2, "  two"), (1, 0, 0, "a\u{3b1}b"), (2, 0, 0, "")])
    };
    let mut map = DisplayMap::new(rows());
    map.insert_blocks(unchanged(rows(), vec![]), vec![above(1, "x\ny")]);
    let snapshot = map.snapshot(
        unchanged(rows(), vec![Point::new(1, 0)]),
        shape("one two\na\u{3b1}b\n"),
    );
    let end = snapshot.max_point();
    for row in 0..=end.row() {
        for column in 0..8 {
            for bias in [Bias::Left, Bias::Right] {
                let clipped = snapshot.clip_point(DisplayPoint::new(row, column), bias);
                let (first, start) = snapshot.prev_row_boundary(clipped);
                let (last, finish) = snapshot.next_row_boundary(clipped);
                assert!(first <= clipped && clipped <= last);
                assert_eq!(start.row, finish.row);
                assert_eq!(start.column, 0);
                if last < end {
                    assert!(finish.row < 2);
                }
            }
        }
    }
}

#[test]
fn test_soft_wraps() {
    let rows = || {
        lines(&[
            (0, 0, 0, "one two "),
            (0, 8, 0, "three four "),
            (0, 19, 0, "five"),
            (1, 0, 0, "six seven "),
            (1, 10, 0, "eight"),
        ])
    };
    let mut map = DisplayMap::new(rows());
    let text = "one two three four five\nsix seven eight";
    let snapshot = map.snapshot(unchanged(rows(), vec![]), shape(text));
    assert_eq!(
        display_text(&snapshot, 0),
        "one two \nthree four \nfive\nsix seven \neight"
    );
    assert_eq!(
        snapshot.clip_point(DisplayPoint::new(0, 8), Bias::Left),
        DisplayPoint::new(0, 7)
    );
    assert_eq!(
        snapshot.clip_point(DisplayPoint::new(0, 8), Bias::Right),
        DisplayPoint::new(1, 0)
    );
    let change = RowChange {
        wrap_snapshot: lines(&[
            (0, 0, 0, "one two "),
            (0, 8, 0, "three four "),
            (0, 19, 0, "five"),
            (1, 0, 0, "six and "),
            (1, 8, 0, "seven eight"),
        ]),
        positions: vec![],
        edits: vec![RowEdit { old_start: 3, old_end: 5, new_start: 3, new_end: 5 }],
    };
    let text = "one two three four five\nsix and seven eight";
    let snapshot = map.snapshot(change, shape(text));
    assert_eq!(display_text(&snapshot, 1), "three four \nfive\nsix and \nseven eight");

    // Re-wrap on font size changes
    let change = RowChange {
        wrap_snapshot: lines(&[
            (0, 0, 0, "one two "),
            (0, 8, 0, "three "),
            (0, 14, 0, "four five"),
            (1, 0, 0, "six and "),
            (1, 8, 0, "seven "),
            (1, 14, 0, "eight"),
        ]),
        positions: vec![],
        edits: vec![
            RowEdit { old_start: 0, old_end: 3, new_start: 0, new_end: 3 },
            RowEdit { old_start: 3, old_end: 5, new_start: 3, new_end: 6 },
        ],
    };
    let snapshot = map.snapshot(change, shape(text));
    assert_eq!(
        display_text(&snapshot, 1),
        "three \nfour five\nsix and \nseven \neight"
    );
}

#[test]
fn indentation_is_clipped_away() {
    let rows = || lines(&[(0, 0, 0, "  one "), (0, 6, 2, "  tw\u{3b1}"), (1, 0, 0, "x")]);
    let snapshot =
        DisplayMap::new(rows()).snapshot(unchanged(rows(), vec![]), shape("  one tw\u{3b1}\nx"));
    let clip = |row, column, bias| {
        let p = snapshot.clip_point(DisplayPoint::new(row, column), bias);
        (p.row(), p.column())
    };
    assert_eq!(clip(1, 1, Bias::Left), (0, 5));
    assert_eq!(clip(1, 1, Bias::Right), (1, 2));
    assert_eq!(clip(0, 20, Bias::Left), (0, 5));
    assert_eq!(clip(0, 20, Bias::Right), (1, 2));
    assert_eq!(clip(1, 5, Bias::Left), (1, 4));
    assert_eq!(clip(1, 5, Bias::Right), (1, 6));
    assert_eq!(clip(1, 20, Bias::Left), (1, 6));
    assert_eq!(snapshot.to_point(DisplayPoint::new(1, 1)), Point::new(0, 6));
    assert_eq!(snapshot.to_display_point(Point::new(0, 6)), DisplayPoint::new(1, 2));
}

#[test]
fn test_clip_point() {
    let text = "\n'a', '\u{3b1}',\t'\u{270b}',\t'\u{274e}', '\u{1f350}'\n";
    let shown = "\n'a', '\u{3b1}',   '\u{270b}',    '\u{274e}', '\u{1f350}'\n";
    let map = tabs_snapshot(text);
    assert_eq!(display_text(&map, 0), shown);
    let alpha = "'a', '\u{3b1}',".len() as u32;
    let hand = "'a', '\u{3b1}',   '\u{270b}',".len() as u32;
    let cases = vec![
        ("'a', '".len() as u32, Bias::Left, "'a', '".len() as u32),
        ("'a', '".len() as u32 + 1, Bias::Left, "'a', '".len() as u32),
        ("'a', '".len() as u32 + 1, Bias::Right, "'a', '\u{3b1}".len() as u32),
        (alpha + 1, Bias::Left, alpha),
        (alpha + 1, Bias::Right, alpha + 3),
        (alpha + 4 + 1, Bias::Left, alpha + 4),
        (alpha + 4 + 1, Bias::Right, alpha + 4 + 3),
        (hand, Bias::Right, hand),
        (hand + 1, Bias::Left, hand),
        (hand + 1, Bias::Right, hand + 4),
    ];
    for (input_column, bias, output_column) in cases {
        assert_eq!(
            map.clip_point(DisplayPoint::new(1, input_column), bias),
            DisplayPoint::new(1, output_column)
        );
    }
}

#[test]
fn test_tabs_with_multibyte_chars() {
    let text = "\u{2705}\t\t\u{3b1}\n\u{3b2}\t\n\u{1f3c0}\u{3b2}\t\t\u{3b3}";
    let map = tabs_snapshot(text);
    let shown = "\u{2705}       \u{3b1}\n\u{3b2}   \n\u{1f3c0}\u{3b2}      \u{3b3}";
    assert_eq!(String::from_utf8(map.text()).unwrap(), shown);
    assert_eq!(display_text(&map, 0), shown);
    assert_eq!(display_text(&map, 1), "\u{3b2}   \n\u{1f3c0}\u{3b2}      \u{3b3}");
    assert_eq!(display_text(&map, 2), "\u{1f3c0}\u{3b2}      \u{3b3}");

    let point = Point::new(0, "\u{2705}\t\t".len() as u32);
    let display_point = DisplayPoint::new(0, "\u{2705}       ".len() as u32);
    assert_eq!(map.to_display_point(point), display_point);
    assert_eq!(map.to_point(display_point), point);

    let point = Point::new(1, "\u{3b2}\t".len() as u32);
    let display_point = DisplayPoint::new(1, "\u{3b2}   ".len() as u32);
    assert_eq!(map.to_display_point(point), display_point);
    assert_eq!(map.to_point(display_point), point);

    let point = Point::new(2, "\u{1f3c0}\u{3b2}\t\t".len() as u32);
    let display_point = DisplayPoint::new(2, "\u{1f3c0}\u{3b2}      ".len() as u32);
    assert_eq!(map.to_display_point(point), display_point);
    assert_eq!(map.to_point(display_point), point);

    // Display points inside of expanded tabs
    assert_eq!(
        map.to_point(DisplayPoint::new(0, "\u{2705}      ".len() as u32)),
        Point::new(0, "\u{2705}\t".len() as u32)
    );
    assert_eq!(
        map.to_point(DisplayPoint::new(0, "\u{2705} ".len() as u32)),
        Point::new(0, "\u{2705}".len() as u32)
    );

    // Clipping display points inside of multi-byte characters
    assert_eq!(
        map.clip_point(DisplayPoint::new(0, "\u{2705}".len() as u32 - 1), Bias::Left),
        DisplayPoint::new(0, 0)
    );
    assert_eq!(
        map.clip_point(DisplayPoint::new(0, "\u{2705}".len() as u32 - 1), Bias::Right),
        DisplayPoint::new(0, "\u{2705}".len() as u32)
    );
}

#[test]
fn test_max_point() {
    assert_eq!(tabs_snapshot("aaa\n\t\tbbb").max_point(), DisplayPoint::new(1, 11));
}

#[test]
fn test_text_chunks() {
    let text = "aaaaaa\n\tb\tbbbbb\nc\tccccc\ndddddd\neeeeee\nffffff";
    let map = tabs_snapshot(text);
    assert_eq!(display_text(&map, 1).lines().next(), Some("    b   bbbbb"));
    assert_eq!(display_text(&map, 2).lines().next(), Some("c   ccccc"));
}

#[test]
fn folds_join_lines() {
    // Of "fn outer() {", "", "mod m {", "  fn inner() {}", "}" the part from (0, 6) to (3, 2) is folded,
    // and what is left is wrapped.
    let text = "fn outer() {\n\nmod m {\n  fn inner() {}\n}";
    let rows = || {
        WrapSnapshot::new(vec![
            WrapLine::plain(Point::new(0, 0), 0, b"fn ".to_vec()),
            WrapLine {
                start: Point::new(0, 3),
                indent: 1,
                text: " out\u{2026}".as_bytes().to_vec(),
                pieces: vec![
                    RowPiece { kind: PieceKind::Text, shown: 3, end: Point::new(0, 6) },
                    RowPiece { kind: PieceKind::Fold, shown: 3, end: Point::new(3, 2) },
                ],
                runs: vec![],
            },
            WrapLine::plain(Point::new(3, 2), 1, b" fn inner() {}".to_vec()),
            WrapLine::plain(Point::new(4, 0), 0, b"}".to_vec()),
        ])
    };
    let mut map = DisplayMap::new(plain(text));
    let folded = RowChange {
        wrap_snapshot: rows(),
        positions: vec![],
        edits: vec![RowEdit { old_start: 0, old_end: 4, new_start: 0, new_end: 3 }],
    };
    map.fold(unchanged(plain(text), vec![]), folded);
    let fold = FoldRange { start: Point::new(0, 6), end: Point::new(3, 2) };
    let buffer = BufferShape { folds: vec![fold], ..shape(text) };
    let snapshot = map.snapshot(unchanged(rows(), vec![]), buffer);
    assert_eq!(display_text(&snapshot, 0), "fn \n out\u{2026}\n fn inner() {}\n}");
    assert_eq!(snapshot.fold_count(), 1);
    assert_eq!(snapshot.folds_in_range(Point::new(1, 0), Point::new(2, 0)), vec![fold]);
    assert!(snapshot.folds_in_range(Point::new(3, 2), Point::new(4, 0)).is_empty());
    assert!(snapshot.intersects_fold(Point::new(0, 6)));
    assert!(snapshot.intersects_fold(Point::new(2, 4)));
    assert!(!snapshot.intersects_fold(Point::new(3, 2)));
    assert!(snapshot.is_line_folded(0) && snapshot.is_line_folded(2));
    assert!(!snapshot.is_line_folded(3));
    assert_eq!(snapshot.buffer_row_count(), 5);
    let mut shown = snapshot.buffer_rows(0);
    let found = [shown.next(), shown.next(), shown.next(), shown.next(), shown.next()];
    assert_eq!(
        found,
        [
            Some(DisplayRow::Buffer(0)),
            Some(DisplayRow::Wrap),
            Some(DisplayRow::Wrap),
            Some(DisplayRow::Buffer(4)),
            None,
        ]
    );

    // Positions in the fold are shown at its edges.
    assert_eq!(snapshot.to_display_point(Point::new(1, 0)), DisplayPoint::new(1, 4));
    assert_eq!(
        snapshot.point_to_display_point(Point::new(1, 0), Bias::Right),
        DisplayPoint::new(2, 1)
    );
    assert_eq!(snapshot.to_point(DisplayPoint::new(1, 5)), Point::new(0, 6));
    assert_eq!(
        snapshot.display_point_to_point(DisplayPoint::new(1, 5), Bias::Right),
        Point::new(3, 2)
    );
    assert_eq!(
        snapshot.clip_point(DisplayPoint::new(1, 5), Bias::Left),
        DisplayPoint::new(1, 4)
    );
    assert_eq!(
        snapshot.clip_point(DisplayPoint::new(1, 5), Bias::Right),
        DisplayPoint::new(2, 1)
    );

    // The boundaries go over the fold.
    for row in 0..3 {
        assert_eq!(
            snapshot.prev_row_boundary(DisplayPoint::new(row, 2)),
            (DisplayPoint::new(0, 0), Point::new(0, 0))
        );
        assert_eq!(
            snapshot.next_row_boundary(DisplayPoint::new(row, 2)),
            (DisplayPoint::new(2, 14), Point::new(3, 15))
        );
    }

    let unfolded = RowChange {
        wrap_snapshot: plain(text),
        positions: vec![],
        edits: vec![RowEdit { old_start: 0, old_end: 3, new_start: 0, new_end: 4 }],
    };
    map.unfold(unchanged(rows(), vec![]), unfolded);
    let snapshot = map.snapshot(unchanged(plain(text), vec![]), shape(text));
    assert_eq!(String::from_utf8(snapshot.text()).unwrap(), text);
}
