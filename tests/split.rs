use csv_split::lines::{content_len, line_end};
use csv_split::part::{copy_step, part_bytes, part_file_name, part_prefix, CopyStep};
use csv_split::scan::{plan_split, Boundary, Scanner, SplitError};
use csv_split::split::split_parts;

const BOM: [u8; 3] = [0xEF, 0xBB, 0xBF];

fn cat(pieces: &[&[u8]]) -> Vec<u8> {
    let mut v = Vec::new();
    for p in pieces {
        v.extend_from_slice(p);
    }
    v
}

#[test]
fn header_and_five_lines_in_parts_of_two() {
    let input = b"id,name\n1,a\n2,b\n3,c\n4,d\n5,e\n";
    let parts = split_parts(input, 1, 2).unwrap();
    assert_eq!(parts.len(), 2);
    assert_eq!(parts[0], b"id,name\n1,a\n2,b\n".to_vec());
    assert_eq!(parts[1], cat(&[&BOM, b"id,name\n3,c\n4,d\n"]));
    assert_eq!(part_file_name(b"stem", 0), b"stem_0.csv".to_vec());
    assert_eq!(part_file_name(b"stem", 1), b"stem_1.csv".to_vec());
}

#[test]
fn no_header_four_lines_in_parts_of_two() {
    let input = b"a\nb\nc\nd\n";
    let parts = split_parts(input, 0, 2).unwrap();
    assert_eq!(parts.len(), 2);
    assert_eq!(parts[0], b"a\nb\n".to_vec());
    assert_eq!(parts[1], cat(&[&BOM, b"c\nd\n"]));
}

#[test]
fn boundaries_of_header_and_five_lines() {
    let input = b"id,name\n1,a\n2,b\n3,c\n4,d\n5,e\n";
    let plan = plan_split(input, 1, 2).unwrap();
    assert_eq!(plan.header, b"id,name\n".to_vec());
    assert_eq!(plan.header_len, 8);
    assert_eq!(
        plan.boundaries,
        vec![
            Boundary { start_offset: 8, byte_length: 8, sequence_index: 0, is_first: true },
            Boundary { start_offset: 16, byte_length: 8, sequence_index: 1, is_first: false },
        ]
    );
}

#[test]
fn dropped_remainder_is_counted_exactly() {
    let input = b"h\n1\n22\n333\n4444\n55555\n";
    let plan = plan_split(input, 1, 2).unwrap();
    let sum: usize = plan.boundaries.iter().map(|b| b.byte_length).sum();
    let dropped = input.len() - sum - plan.header_len as usize;
    assert_eq!(dropped, 6);
    let whole = plan_split(b"h\n1\n22\n333\n4444\n", 1, 2).unwrap();
    let sum: usize = whole.boundaries.iter().map(|b| b.byte_length).sum();
    assert_eq!(sum + whole.header_len as usize, 16);
}

#[test]
fn data_of_parts_rebuilds_input_after_header() {
    let input = b"x,y\r\n1,2\r\n3,4\r\n5,6\r\n7,8\r\n9,0\r\n10,11\r\n";
    let plan = plan_split(input, 1, 3).unwrap();
    assert_eq!(plan.boundaries.len(), 2);
    let mut data = Vec::new();
    for b in &plan.boundaries {
        let s = b.start_offset as usize;
        data.extend_from_slice(&input[s..s + b.byte_length]);
    }
    assert_eq!(data, input[plan.header_len as usize..].to_vec());
}

#[test]
fn every_part_but_first_opens_with_bom() {
    let input = b"h\n1\n2\n3\n4\n5\n6\n";
    let parts = split_parts(input, 1, 1).unwrap();
    assert_eq!(parts.len(), 6);
    assert!(!parts[0].starts_with(&BOM));
    for p in &parts[1..] {
        assert!(p.starts_with(&BOM));
        assert!(p[3..].starts_with(b"h\n"));
    }
}

#[test]
fn header_lines_are_reterminated() {
    let input = b"a,b\r\nc,d\r\n1\r\n2\r\n";
    let plan = plan_split(input, 2, 1).unwrap();
    assert_eq!(plan.header, b"a,b\nc,d\n".to_vec());
    assert_eq!(plan.header_len, 10);
    let parts = split_parts(input, 2, 1).unwrap();
    assert_eq!(parts[0], b"a,b\nc,d\n1\r\n".to_vec());
    assert_eq!(parts[1], cat(&[&BOM, b"a,b\nc,d\n2\r\n"]));
}

#[test]
fn too_few_lines_for_header() {
    assert_eq!(plan_split(b"only\n", 2, 1).err(), Some(SplitError::TruncatedInput));
    assert_eq!(split_parts(b"", 1, 1).err(), Some(SplitError::TruncatedInput));
}

#[test]
fn empty_input_without_header() {
    let plan = plan_split(b"", 0, 1).unwrap();
    assert!(plan.header.is_empty());
    assert_eq!(plan.header_len, 0);
    assert!(plan.boundaries.is_empty());
}

#[test]
fn last_line_without_line_feed() {
    let input = b"h\n1\n2";
    let parts = split_parts(input, 1, 2).unwrap();
    assert_eq!(parts, vec![b"h\n1\n2".to_vec()]);
    let plan = plan_split(b"h", 1, 1).unwrap();
    assert_eq!(plan.header, b"h\n".to_vec());
    assert_eq!(plan.header_len, 1);
}

#[test]
fn scanner_emits_parts_as_lines_arrive() {
    let mut s = Scanner::new(2, 1);
    assert_eq!(s.feed(b"h\n"), None);
    assert!(s.header_complete());
    assert_eq!(s.feed(b"ab\n"), None);
    assert_eq!(
        s.feed(b"c\n"),
        Some(Boundary { start_offset: 2, byte_length: 5, sequence_index: 0, is_first: true })
    );
    assert_eq!(s.feed(b"d\n"), None);
    assert_eq!(
        s.feed(b"efg\n"),
        Some(Boundary { start_offset: 7, byte_length: 6, sequence_index: 1, is_first: false })
    );
    assert_eq!(s.header().clone(), b"h\n".to_vec());
    assert_eq!(s.header_len(), 2);
    assert_eq!(s.finish(), Ok(()));
    let t = Scanner::new(1, 3);
    assert_eq!(t.finish(), Err(SplitError::TruncatedInput));
}

#[test]
fn copy_steps_cut_the_last_read() {
    assert_eq!(copy_step(0, 2500, 1024), CopyStep { write: 1024, done: false });
    assert_eq!(copy_step(2048, 2500, 1024), CopyStep { write: 452, done: true });
    assert_eq!(copy_step(0, 1024, 1024), CopyStep { write: 1024, done: true });
    assert_eq!(copy_step(10, 100, 0), CopyStep { write: 0, done: true });
}

#[test]
fn prefix_and_part_bytes() {
    assert_eq!(part_prefix(b"h\n", true), b"h\n".to_vec());
    assert_eq!(part_prefix(b"h\n", false), cat(&[&BOM, b"h\n"]));
    assert_eq!(part_prefix(b"", false), BOM.to_vec());
    let b = Boundary { start_offset: 2, byte_length: 3, sequence_index: 4, is_first: false };
    assert_eq!(part_bytes(b"h\nxy\nz\n", b"h\n", &b), cat(&[&BOM, b"h\nxy\n"]));
}

#[test]
fn part_names_are_decimal() {
    assert_eq!(part_file_name(b"data", 12), b"data_12.csv".to_vec());
    assert_eq!(part_file_name(b"d", 100907), b"d_100907.csv".to_vec());
    assert_eq!(part_file_name(b"", 9), b"_9.csv".to_vec());
}

#[test]
fn line_ends_and_contents() {
    let input = b"ab\ncd\r\nef";
    assert_eq!(line_end(input, 0), 3);
    assert_eq!(line_end(input, 3), 7);
    assert_eq!(line_end(input, 7), 9);
    assert_eq!(line_end(input, 2), 3);
    assert_eq!(content_len(b"cd\r\n"), 2);
    assert_eq!(content_len(b"cd\n"), 2);
    assert_eq!(content_len(b"cd\r"), 3);
    assert_eq!(content_len(b"\n"), 0);
}
