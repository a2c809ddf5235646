use editor_core::block_chunks::{offset_for_row, BlockChunks};
use editor_core::block_map::{BlockMap, BlockProperties, Restyle, RowEdit};
use editor_core::block_snapshot::{BlockPoint, BlockSnapshot, DisplayRow};
use editor_core::block_transforms::{
    AlignedBlock, BlockBody, BlockDisposition, BlockId, BlockStyle, HighlightStyle,
};
use editor_core::point::{Bias, Point};
use editor_core::proto::DiagnosticSeverity;
use editor_core::wrap_rows::{PieceKind, RowPiece, TextStyle, WrapLine, WrapSnapshot};

fn rows(text: &str) -> WrapSnapshot {
    WrapSnapshot::new(
        text.split('\n')
            .enumerate()
            .map(|(row, line)| {
                WrapLine::plain(Point::new(row as u32, 0), 0, line.as_bytes().to_vec())
            })
            .collect(),
    )
}

fn wrapped(lines: &[(u32, u32, &str)]) -> WrapSnapshot {
    WrapSnapshot::new(
        lines
            .iter()
            .map(|(row, column, line)| {
                WrapLine::plain(Point::new(*row, *column), 0, line.as_bytes().to_vec())
            })
            .collect(),
    )
}

fn block(row: u32, column: u32, disposition: BlockDisposition, text: &str) -> BlockProperties {
    BlockProperties {
        position: Point::new(row, column),
        disposition,
        body: BlockBody { text: text.as_bytes().to_vec(), runs: vec![], style: None },
    }
}

fn shown(snapshot: &BlockSnapshot) -> String {
    String::from_utf8(snapshot.text()).unwrap()
}

fn all_rows(snapshot: &BlockSnapshot, from: u32) -> Vec<DisplayRow> {
    let mut rows = snapshot.buffer_rows(from);
    let mut found = Vec::new();
    while let Some(row) = rows.next() {
        found.push(row);
    }
    found
}

#[test]
fn test_offset_for_row() {
    assert_eq!(offset_for_row("", 0), (0, 0));
    assert_eq!(offset_for_row("", 1), (0, 0));
    assert_eq!(offset_for_row("abcd", 0), (0, 0));
    assert_eq!(offset_for_row("abcd", 1), (0, 4));
    assert_eq!(offset_for_row("\n", 0), (0, 0));
    assert_eq!(offset_for_row("\n", 1), (1, 1));
    assert_eq!(offset_for_row("abc\ndef\nghi", 0), (0, 0));
    assert_eq!(offset_for_row("abc\ndef\nghi", 1), (1, 4));
    assert_eq!(offset_for_row("abc\ndef\nghi", 2), (2, 8));
    assert_eq!(offset_for_row("abc\ndef\nghi", 3), (2, 11));
}

const RED: u32 = 1;
const BLUE: u32 = 2;
const CLEAR: u32 = 0;

fn colored_chunks(block: &AlignedBlock, start: u32, end: u32) -> Vec<(String, u32)> {
    let mut chunks = BlockChunks::new(block, start, end, true);
    let mut found = Vec::new();
    while let Some(chunk) = chunks.next() {
        found.push((
            String::from_utf8(chunk.text).unwrap(),
            chunk.highlight_style.map_or(CLEAR, |s| s.0),
        ));
    }
    found
}

#[test]
fn test_block_chunks() {
    let block = AlignedBlock {
        id: BlockId(0),
        disposition: BlockDisposition::Above,
        column: 5,
        body: BlockBody {
            text: b"one!\ntwo three\nfour".to_vec(),
            runs: vec![
                (3, HighlightStyle(RED)),
                (6, HighlightStyle(CLEAR)),
                (5, HighlightStyle(BLUE)),
            ],
            style: None,
        },
    };
    let pairs = |chunks: &[(&str, u32)]| -> Vec<(String, u32)> {
        chunks.iter().map(|(text, color)| (text.to_string(), *color)).collect()
    };

    assert_eq!(
        colored_chunks(&block, 0, 3),
        pairs(&[
            ("     ", CLEAR),
            ("one", RED),
            ("!\n", CLEAR),
            ("     ", CLEAR),
            ("two ", CLEAR),
            ("three", BLUE),
            ("\n", CLEAR),
            ("     ", CLEAR),
            ("four", CLEAR)
        ])
    );
    assert_eq!(
        colored_chunks(&block, 0, 1),
        pairs(&[("     ", CLEAR), ("one", RED), ("!\n", CLEAR)])
    );
    assert_eq!(
        colored_chunks(&block, 1, 3),
        pairs(&[
            ("     ", CLEAR),
            ("two ", CLEAR),
            ("three", BLUE),
            ("\n", CLEAR),
            ("     ", CLEAR),
            ("four", CLEAR)
        ])
    );
}

#[test]
fn test_basic_blocks() {
    let mut block_map = BlockMap::new(rows("aaa\nbbb\nccc\nddd"));
    block_map.write(rows("aaa\nbbb\nccc\nddd"), &vec![], &vec![]);
    let block_ids = block_map.insert(vec![
        block(1, 0, BlockDisposition::Above, "BLOCK 1"),
        block(1, 2, BlockDisposition::Above, "BLOCK 2"),
        block(3, 2, BlockDisposition::Below, "BLOCK 3"),
    ]);

    let places = vec![Point::new(1, 0), Point::new(1, 2), Point::new(3, 2)];
    let snapshot = block_map.read(rows("aaa\nbbb\nccc\nddd"), &places, &vec![]);
    assert_eq!(shown(&snapshot), "aaa\nBLOCK 1\n  BLOCK 2\nbbb\nccc\nddd\n  BLOCK 3");
    assert_eq!(snapshot.to_block_point(Point::new(0, 3)), BlockPoint::new(0, 3));
    assert_eq!(snapshot.to_block_point(Point::new(1, 0)), BlockPoint::new(3, 0));
    assert_eq!(snapshot.to_block_point(Point::new(3, 3)), BlockPoint::new(5, 3));

    assert_eq!(snapshot.to_wrap_point(BlockPoint::new(0, 3)), Point::new(0, 3));
    assert_eq!(snapshot.to_wrap_point(BlockPoint::new(1, 0)), Point::new(1, 0));
    assert_eq!(snapshot.to_wrap_point(BlockPoint::new(3, 0)), Point::new(1, 0));
    assert_eq!(snapshot.to_wrap_point(BlockPoint::new(6, 0)), Point::new(3, 3));

    let clip = |row, column, bias| snapshot.clip_point(BlockPoint::new(row, column), bias);
    assert_eq!(clip(1, 0, Bias::Left), BlockPoint::new(0, 3));
    assert_eq!(clip(1, 0, Bias::Right), BlockPoint::new(3, 0));
    assert_eq!(clip(1, 1, Bias::Left), BlockPoint::new(0, 3));
    assert_eq!(clip(1, 1, Bias::Right), BlockPoint::new(3, 0));
    assert_eq!(clip(3, 0, Bias::Left), BlockPoint::new(3, 0));
    assert_eq!(clip(3, 0, Bias::Right), BlockPoint::new(3, 0));
    assert_eq!(clip(5, 3, Bias::Left), BlockPoint::new(5, 3));
    assert_eq!(clip(5, 3, Bias::Right), BlockPoint::new(5, 3));
    assert_eq!(clip(6, 0, Bias::Left), BlockPoint::new(5, 3));
    assert_eq!(clip(6, 0, Bias::Right), BlockPoint::new(5, 3));

    assert_eq!(
        all_rows(&snapshot, 0),
        vec![
            DisplayRow::Buffer(0),
            DisplayRow::Block(block_ids[0], None),
            DisplayRow::Block(block_ids[1], None),
            DisplayRow::Buffer(1),
            DisplayRow::Buffer(2),
            DisplayRow::Buffer(3),
            DisplayRow::Block(block_ids[2], None)
        ]
    );

    // Insert a line break, separating two block decorations into separate
    // lines.
    let places = vec![Point::new(1, 0), Point::new(2, 1), Point::new(4, 2)];
    let edits = vec![RowEdit { old_start: 1, old_end: 2, new_start: 1, new_end: 3 }];
    let snapshot = block_map.read(rows("aaa\nb!!!\nbb\nccc\nddd"), &places, &edits);
    assert_eq!(
        shown(&snapshot),
        "aaa\nBLOCK 1\nb!!!\n BLOCK 2\nbb\nccc\nddd\n  BLOCK 3"
    );
}

#[test]
fn test_blocks_on_wrapped_lines() {
    let lines = || {
        wrapped(&[
            (0, 0, "one two "),
            (0, 8, "three"),
            (1, 0, "four five "),
            (1, 10, "six"),
            (2, 0, "seven "),
            (2, 6, "eight"),
        ])
    };
    let mut block_map = BlockMap::new(lines());
    block_map.write(lines(), &vec![], &vec![]);
    block_map.insert(vec![
        block(1, 12, BlockDisposition::Above, "<BLOCK 1"),
        block(1, 1, BlockDisposition::Below, ">BLOCK 2"),
    ]);

    // Blocks with an 'above' disposition go above their corresponding buffer line.
    // Blocks with a 'below' disposition go below their corresponding buffer line.
    let places = vec![Point::new(1, 1), Point::new(1, 12)];
    let snapshot = block_map.read(lines(), &places, &vec![]);
    assert_eq!(
        shown(&snapshot),
        "one two \nthree\n  <BLOCK 1\nfour five \nsix\n >BLOCK 2\nseven \neight"
    );
}

#[test]
fn blocks_are_removed() {
    let mut block_map = BlockMap::new(rows("aaa\nbbb"));
    let ids = block_map.insert(vec![
        block(0, 0, BlockDisposition::Below, "one\ntwo"),
        block(1, 0, BlockDisposition::Below, "three"),
    ]);
    assert_eq!(shown(&block_map.snapshot()), "aaa\none\ntwo\nbbb\nthree");
    block_map.remove(&vec![ids[0]]);
    let snapshot = block_map.snapshot();
    assert_eq!(shown(&snapshot), "aaa\nbbb\nthree");
    assert_eq!(snapshot.max_point(), BlockPoint::new(2, 5));
    assert_eq!(snapshot.longest_row(), 2);
    assert_eq!(snapshot.line_len(2), 5);
    assert!(snapshot.is_block_line(2));
    assert!(!snapshot.is_block_line(1));
}

#[test]
fn blocks_are_restyled() {
    let mut block_map = BlockMap::new(rows("aaa"));
    let ids = block_map.insert(vec![block(0, 0, BlockDisposition::Above, "note")]);
    block_map.restyle(&vec![Restyle {
        id: ids[0],
        runs: vec![(4, HighlightStyle(RED))],
        style: Some(BlockStyle(7)),
    }]);
    let snapshot = block_map.snapshot();
    assert_eq!(
        all_rows(&snapshot, 0),
        vec![DisplayRow::Block(ids[0], Some(BlockStyle(7))), DisplayRow::Buffer(0)]
    );
    let mut chunks = snapshot.chunks(0, 1, true);
    let first = chunks.next().unwrap();
    assert_eq!(first.text, b"note".to_vec());
    assert_eq!(first.highlight_style, Some(HighlightStyle(RED)));
}

#[test]
fn rows_start_in_the_middle() {
    let mut block_map = BlockMap::new(rows("aaa\nbbb\nccc"));
    block_map.insert(vec![block(1, 0, BlockDisposition::Above, "x\ny")]);
    let snapshot = block_map.snapshot();
    assert_eq!(
        all_rows(&snapshot, 2),
        vec![DisplayRow::Block(BlockId(0), None), DisplayRow::Buffer(1), DisplayRow::Buffer(2)]
    );
    let text: Vec<u8> = snapshot.chunks(2, 5, false).collect_text();
    assert_eq!(String::from_utf8(text).unwrap(), "y\nbbb\nccc");
}

#[test]
fn wrapped_rows_are_told_from_lines() {
    let snapshot = BlockMap::new(wrapped(&[(0, 0, "ab "), (0, 3, "cd"), (1, 0, "e")])).snapshot();
    assert_eq!(
        all_rows(&snapshot, 0),
        vec![DisplayRow::Buffer(0), DisplayRow::Wrap, DisplayRow::Buffer(1)]
    );
}

#[test]
fn wrapped_text_keeps_its_styles() {
    let red = TextStyle { highlight: Some(HighlightStyle(RED)), diagnostic: None };
    let wrong = TextStyle { highlight: None, diagnostic: Some(DiagnosticSeverity::Error) };
    let plain = TextStyle { highlight: None, diagnostic: None };
    let lines = || {
        WrapSnapshot::new(vec![
            WrapLine {
                runs: vec![(3, red), (1, plain), (2, wrong)],
                ..WrapLine::plain(Point::new(0, 0), 0, b"let a".to_vec())
            },
            WrapLine {
                runs: vec![(1, wrong), (0, red)],
                ..WrapLine::plain(Point::new(1, 0), 0, b"x y".to_vec())
            },
        ])
    };
    let mut block_map = BlockMap::new(lines());
    block_map.insert(vec![block(1, 0, BlockDisposition::Below, "note")]);
    let snapshot = block_map.snapshot();
    let mut found = Vec::new();
    let mut chunks = snapshot.chunks(0, 3, true);
    while let Some(chunk) = chunks.next() {
        let text = String::from_utf8(chunk.text).unwrap();
        found.push((text, chunk.highlight_style, chunk.diagnostic));
    }
    let error = Some(DiagnosticSeverity::Error);
    assert_eq!(
        found,
        vec![
            ("let".to_string(), Some(HighlightStyle(RED)), None),
            (" ".to_string(), None, None),
            ("a\nx".to_string(), None, error),
            (" y".to_string(), None, None),
            ("\n".to_string(), None, None),
            ("note".to_string(), None, None),
        ]
    );
    // Without styles the text comes in as few pieces as there are stretches of rows.
    let mut chunks = snapshot.chunks(0, 3, false);
    let first = chunks.next().unwrap();
    assert_eq!(first.text, b"let a\nx y".to_vec());
    assert_eq!((first.highlight_style, first.diagnostic), (None, None));
    assert_eq!(chunks.next().unwrap().text, b"\n".to_vec());
    // A row may be begun in the middle of the buffer.
    let mut chunks = snapshot.chunks(1, 2, true);
    assert_eq!(chunks.next().unwrap().diagnostic, error);
    assert_eq!(chunks.next().unwrap().text, b" y".to_vec());
}

#[test]
fn blocks_with_styles_come_in_pieces() {
    let mut block_map = BlockMap::new(rows("aaa\nbbb"));
    block_map.insert(vec![BlockProperties {
        position: Point::new(1, 2),
        disposition: BlockDisposition::Above,
        body: BlockBody {
            text: b"one\ntwo".to_vec(),
            runs: vec![(2, HighlightStyle(RED)), (3, HighlightStyle(BLUE))],
            style: None,
        },
    }]);
    let snapshot = block_map.snapshot();
    let mut found = Vec::new();
    let mut chunks = snapshot.chunks(1, 4, true);
    while let Some(chunk) = chunks.next() {
        found.push((String::from_utf8(chunk.text).unwrap(), chunk.highlight_style.map(|s| s.0)));
    }
    assert_eq!(
        found,
        vec![
            ("  ".to_string(), None),
            ("on".to_string(), Some(RED)),
            ("e\n".to_string(), Some(BLUE)),
            ("  ".to_string(), None),
            ("t".to_string(), Some(BLUE)),
            ("wo".to_string(), None),
            ("\n".to_string(), None),
            ("bbb".to_string(), None),
        ]
    );
}

#[test]
fn removing_undoes_inserting() {
    let mut block_map = BlockMap::new(wrapped(&[(0, 0, "ab "), (0, 3, "cd"), (1, 0, "e")]));
    block_map.insert(vec![block(1, 0, BlockDisposition::Above, "kept")]);
    let before = shown(&block_map.snapshot());
    let ids = block_map.insert(vec![
        block(0, 0, BlockDisposition::Above, "one"),
        block(0, 4, BlockDisposition::Below, "two\nthree"),
        block(1, 0, BlockDisposition::Below, "four"),
    ]);
    assert_eq!(
        shown(&block_map.snapshot()),
        "one\nab \ncd\n two\n three\nkept\ne\nfour"
    );
    block_map.remove(&ids);
    assert_eq!(shown(&block_map.snapshot()), before);
    assert_eq!(before, "ab \ncd\nkept\ne");
}

#[test]
fn text_is_its_rows_joined() {
    let mut block_map = BlockMap::new(rows("aaa\nbbbbbb\n"));
    block_map.insert(vec![block(1, 0, BlockDisposition::Above, "x\ny")]);
    let snapshot = block_map.snapshot();
    let expected = ["aaa", "x", "y", "bbbbbb", ""];
    for row in 0..5 {
        let text: Vec<u8> = snapshot.chunks(row, 5, false).collect_text();
        assert_eq!(String::from_utf8(text).unwrap(), expected[row as usize..].join("\n"));
        assert_eq!(snapshot.line_len(row), expected[row as usize].len() as u32);
    }
    assert_eq!(shown(&snapshot), "aaa\nx\ny\nbbbbbb\n");
    assert_eq!(snapshot.longest_row(), 3);
}

#[test]
fn without_edits_the_rows_stay() {
    let mut block_map = BlockMap::new(rows("aaa\nbbb"));
    block_map.insert(vec![block(0, 1, BlockDisposition::Below, "x")]);
    let before = block_map.snapshot();
    let after = block_map.read(rows("aaa\nbbb"), &vec![Point::new(0, 1)], &vec![]);
    assert_eq!(after.text(), before.text());
    assert_eq!(all_rows(&after, 0), all_rows(&before, 0));
}

#[test]
fn edits_may_be_empty_or_within_a_line() {
    // A row comes in between two others.
    let mut block_map = BlockMap::new(rows("aaa\nbbb"));
    block_map.insert(vec![block(1, 0, BlockDisposition::Above, "x")]);
    let edit = RowEdit { old_start: 1, old_end: 1, new_start: 1, new_end: 2 };
    let snapshot = block_map.read(rows("aaa\nnew\nbbb"), &vec![Point::new(2, 0)], &vec![edit]);
    assert_eq!(shown(&snapshot), "aaa\nnew\nx\nbbb");
    // It goes away again.
    let edit = RowEdit { old_start: 1, old_end: 2, new_start: 1, new_end: 1 };
    let snapshot = block_map.read(rows("aaa\nbbb"), &vec![Point::new(1, 0)], &vec![edit]);
    assert_eq!(shown(&snapshot), "aaa\nx\nbbb");

    // The second row of a wrapped line becomes two.
    let mut block_map = BlockMap::new(wrapped(&[(0, 0, "ab "), (0, 3, "cd ef")]));
    block_map.insert(vec![
        block(0, 0, BlockDisposition::Above, "x"),
        block(0, 0, BlockDisposition::Below, "y"),
    ]);
    let edit = RowEdit { old_start: 1, old_end: 2, new_start: 1, new_end: 3 };
    let snapshot = block_map.read(
        wrapped(&[(0, 0, "ab "), (0, 3, "cd "), (0, 6, "ef")]),
        &vec![Point::new(0, 0), Point::new(0, 0)],
        &vec![edit],
    );
    assert_eq!(shown(&snapshot), "x\nab \ncd \nef\ny");

    // Rows come at both ends.
    let mut block_map = BlockMap::new(rows("b\nc"));
    block_map.insert(vec![
        block(0, 0, BlockDisposition::Below, "x"),
        block(1, 0, BlockDisposition::Above, "y"),
    ]);
    let snapshot = block_map.read(
        rows("a\nb\nc\nd"),
        &vec![Point::new(1, 0), Point::new(2, 0)],
        &vec![
            RowEdit { old_start: 0, old_end: 0, new_start: 0, new_end: 1 },
            RowEdit { old_start: 2, old_end: 2, new_start: 3, new_end: 4 },
        ],
    );
    assert_eq!(shown(&snapshot), "a\nb\nx\ny\nc\nd");
}

// The lines "aaa", "bbb", "ccc", "ddd", where the second to the third are folded into the first.
fn folded() -> WrapSnapshot {
    let joined = WrapLine {
        start: Point::new(0, 0),
        indent: 0,
        text: "a\u{2026}c".as_bytes().to_vec(),
        pieces: vec![
            RowPiece { kind: PieceKind::Text, shown: 1, end: Point::new(0, 1) },
            RowPiece { kind: PieceKind::Fold, shown: 3, end: Point::new(2, 2) },
            RowPiece { kind: PieceKind::Text, shown: 1, end: Point::new(2, 3) },
        ],
        runs: vec![],
    };
    WrapSnapshot::new(vec![joined, WrapLine::plain(Point::new(3, 0), 0, b"ddd".to_vec())])
}

#[test]
fn blocks_stand_by_folded_lines() {
    let mut block_map = BlockMap::new(rows("aaa\nbbb\nccc\nddd"));
    let ids = block_map.insert(vec![
        block(1, 1, BlockDisposition::Above, "x"),
        block(2, 0, BlockDisposition::Below, "y"),
    ]);
    assert_eq!(shown(&block_map.snapshot()), "aaa\n x\nbbb\nccc\ny\nddd");
    // The first three lines become one row.
    let edit = RowEdit { old_start: 0, old_end: 3, new_start: 0, new_end: 1 };
    let positions = vec![Point::new(1, 1), Point::new(2, 0)];
    let snapshot = block_map.read(folded(), &positions, &vec![edit]);
    assert_eq!(shown(&snapshot), " x\na\u{2026}c\n y\nddd");
    assert_eq!(
        all_rows(&snapshot, 0),
        vec![
            DisplayRow::Block(ids[0], None),
            DisplayRow::Buffer(0),
            DisplayRow::Block(ids[1], None),
            DisplayRow::Buffer(3),
        ]
    );
    // Blocks come and go in a line that is folded away.
    let more = block_map.insert(vec![block(1, 0, BlockDisposition::Below, "z")]);
    assert_eq!(shown(&block_map.snapshot()), " x\na\u{2026}c\n y\n z\nddd");
    block_map.remove(&more);
    assert_eq!(shown(&block_map.snapshot()), " x\na\u{2026}c\n y\nddd");
    // The fold is opened again.
    let edit = RowEdit { old_start: 0, old_end: 1, new_start: 0, new_end: 3 };
    let snapshot = block_map.read(rows("aaa\nbbb\nccc\nddd"), &positions, &vec![edit]);
    assert_eq!(shown(&snapshot), "aaa\n x\nbbb\nccc\ny\nddd");
}
