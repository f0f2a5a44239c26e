use ipadic_neologd_builder::builder::{collect_lines, parse_rows};
use ipadic_neologd_builder::dict::is_skip_word;
use ipadic_neologd_builder::text::{normalize_text, parse_i32, parse_u32, split_lines};
use ipadic_neologd_builder::{compile_dict, CsvRow, DictError, IpadicNeologdBuilder, RowError};

fn row(line: &str) -> CsvRow {
    CsvRow::from_line(line.as_bytes()).unwrap()
}

fn detail(fields: &[&str]) -> Vec<u8> {
    let v: Vec<String> = fields.iter().map(|s| s.to_string()).collect();
    bincode::serialize(&v).unwrap()
}

fn lookup(index: &[u8], key: &str) -> Option<u32> {
    yada::DoubleArray::new(index.to_vec()).exact_match_search(key.as_bytes())
}

#[test]
fn single_entry_scenario() {
    let b = IpadicNeologdBuilder::new();
    let src = vec!["すもも,100,200,300,名詞,一般,*,*,*,*,すもも,スモモ,スモモ\n".as_bytes().to_vec()];
    let a = b.build_dict(&src).unwrap();
    assert_eq!(a.vals, vec![0, 0, 0, 0, 0x2C, 0x01, 0x64, 0x00]);
    assert_eq!(a.words, detail(&["名詞", "一般", "*", "*", "*", "*", "すもも", "スモモ", "スモモ"]));
    assert_eq!(a.words_index, vec![0, 0, 0, 0]);
    assert_eq!(lookup(&a.index, "すもも"), Some(1));
}

#[test]
fn packed_values_follow_lexicographic_order() {
    let rows = vec![
        row("b,1,1,10,n,*,*,*,*,*,b,b,b"),
        row("a,2,2,20,n,*,*,*,*,*,a,a,a"),
        row("b,3,3,-30,n,*,*,*,*,*,b,b,b"),
        row("c,4,4,40,n,*,*,*,*,*,c,c,c"),
    ];
    let a = compile_dict(&rows).unwrap();
    assert_eq!(lookup(&a.index, "a"), Some(1));
    assert_eq!(lookup(&a.index, "b"), Some((1 << 5) | 2));
    assert_eq!(lookup(&a.index, "c"), Some((3 << 5) | 1));
    assert_eq!(lookup(&a.index, "d"), None);
    let ids: Vec<u32> = a.vals.chunks(8).map(|c| u32::from_le_bytes([c[0], c[1], c[2], c[3]])).collect();
    assert_eq!(ids, vec![1, 0, 2, 3]);
    let costs: Vec<i16> = a.vals.chunks(8).map(|c| i16::from_le_bytes([c[4], c[5]])).collect();
    assert_eq!(costs, vec![20, 10, -30, 40]);
    let cost_ids: Vec<u16> = a.vals.chunks(8).map(|c| u16::from_le_bytes([c[6], c[7]])).collect();
    assert_eq!(cost_ids, vec![2, 1, 3, 4]);
}

#[test]
fn skipped_surface_forms_have_no_entries() {
    let rows = vec![
        row("カブシキガイシャ,1,1,1,n,*,*,*,*,*,x,x,x"),
        row("x,1,1,1,n,*,*,*,*,*,x,x,x"),
        row("タカラヅカカゲキダンキセイ,1,1,1,n,*,*,*,*,*,x,x,x"),
    ];
    let a = compile_dict(&rows).unwrap();
    assert_eq!(a.vals.len(), 8);
    assert_eq!(&a.vals[0..4], &[1, 0, 0, 0]);
    assert_eq!(a.words_index.len(), 12);
    assert_eq!(lookup(&a.index, "カブシキガイシャ"), None);
    assert!(is_skip_word(&"カブシキガイシャ".as_bytes().to_vec()));
    assert!(!is_skip_word(&"カブシキ".as_bytes().to_vec()));
}

#[test]
fn words_index_points_at_each_record() {
    let rows = vec![
        row("x,1,1,1,pos,a,b,c,ct,cf,base,read,pron"),
        row("y,1,1,1,p,*,*,*,*,*,y,yy,yyy"),
    ];
    let a = compile_dict(&rows).unwrap();
    let first = detail(&["pos", "a", "b", "c", "ct", "cf", "base", "read", "pron"]);
    let second = detail(&["p", "*", "*", "*", "*", "*", "y", "yy", "yyy"]);
    let off = u32::from_le_bytes([a.words_index[4], a.words_index[5], a.words_index[6], a.words_index[7]]) as usize;
    assert_eq!(off, first.len());
    assert_eq!(&a.words[off..], &second[..]);
    assert_eq!(&a.words[..off], &first[..]);
}

#[test]
fn thirty_one_entries_are_accepted() {
    let rows: Vec<CsvRow> = (0..31).map(|_| row("w,1,1,1,n,*,*,*,*,*,w,w,w")).collect();
    let a = compile_dict(&rows).unwrap();
    assert_eq!(lookup(&a.index, "w"), Some(31));
    assert_eq!(a.vals.len(), 31 * 8);
}

#[test]
fn thirty_two_entries_are_refused() {
    let rows: Vec<CsvRow> = (0..32).map(|_| row("w,1,1,1,n,*,*,*,*,*,w,w,w")).collect();
    assert!(matches!(compile_dict(&rows), Err(DictError::TooManyEntries)));
}

#[test]
fn no_entries_is_an_error() {
    let rows = vec![row("カブシキガイシャ,1,1,1,n,*,*,*,*,*,x,x,x")];
    assert!(matches!(compile_dict(&rows), Err(DictError::Empty)));
    assert!(matches!(compile_dict(&Vec::new()), Err(DictError::Empty)));
}

#[test]
fn zero_byte_in_surface_is_refused() {
    let rows = vec![row("a\u{0}b,1,1,1,n,*,*,*,*,*,x,x,x")];
    assert!(matches!(compile_dict(&rows), Err(DictError::InvalidSurface)));
}

#[test]
fn bad_line_names_its_position() {
    let b = IpadicNeologdBuilder::new();
    let src = vec![
        "a,1,1,1,n,*,*,*,*,*,a,a,a\n".as_bytes().to_vec(),
        "b,1,1,1,n,*,*,*,*,*,b,b,b\nc,x,1,1,n,*,*,*,*,*,c,c,c\n".as_bytes().to_vec(),
    ];
    assert!(matches!(b.build_dict(&src), Err(DictError::Row { line: 2, error: RowError::LeftId })));
}

#[test]
fn row_errors() {
    assert_eq!(CsvRow::from_line(b"a,1,1").unwrap_err(), RowError::MissingField);
    assert_eq!(CsvRow::from_line(b"a,-1,1,1,n,*,*,*,*,*,a,a,a").unwrap_err(), RowError::LeftId);
    assert_eq!(CsvRow::from_line(b"a,1,,1,n,*,*,*,*,*,a,a,a").unwrap_err(), RowError::RightId);
    assert_eq!(CsvRow::from_line(b"a,1,1,2147483648,n,*,*,*,*,*,a,a,a").unwrap_err(), RowError::WordCost);
}

#[test]
fn row_fields() {
    let r = row("すもも,100,200,-300,名詞,一般,*,*,*,*,すもも,スモモ,スモモ");
    assert_eq!(r.surface_form, "すもも".as_bytes());
    assert_eq!(r.left_id, 100);
    assert_eq!(r.right_id, 200);
    assert_eq!(r.word_cost, -300);
    assert_eq!(r.pos_level1, "名詞".as_bytes());
    assert_eq!(r.pos_level2, "一般".as_bytes());
    assert_eq!(r.base_form, "すもも".as_bytes());
    assert_eq!(r.reading, "スモモ".as_bytes());
    assert_eq!(r.pronunciation, "スモモ".as_bytes());
}

#[test]
fn numbers_parse_as_std_does() {
    assert_eq!(parse_u32(b"+5"), Some(5));
    assert_eq!(parse_u32(b"4294967295"), Some(u32::MAX));
    assert_eq!(parse_u32(b"4294967296"), None);
    assert_eq!(parse_u32(b""), None);
    assert_eq!(parse_u32(b"+"), None);
    assert_eq!(parse_u32(b"-1"), None);
    assert_eq!(parse_i32(b"-2147483648"), Some(i32::MIN));
    assert_eq!(parse_i32(b"2147483647"), Some(i32::MAX));
    assert_eq!(parse_i32(b"-0"), Some(0));
    assert_eq!(parse_i32(b"-"), None);
    assert_eq!(parse_i32(b"1a"), None);
}

#[test]
fn ambiguous_dashes_are_normalized() {
    assert_eq!(normalize_text("a―b～c".as_bytes()), "a—b〜c".as_bytes());
    assert_eq!(normalize_text("plain".as_bytes()), "plain".as_bytes());
}

#[test]
fn lines_split_like_str_lines() {
    assert_eq!(split_lines(b"a\r\nb\n"), vec![b"a".to_vec(), b"b".to_vec()]);
    assert_eq!(split_lines(b"a\n\nb"), vec![b"a".to_vec(), b"".to_vec(), b"b".to_vec()]);
    assert_eq!(split_lines(b""), Vec::<Vec<u8>>::new());
    let lines = collect_lines(&vec!["x―\n".as_bytes().to_vec(), "y".as_bytes().to_vec()]);
    assert_eq!(lines, vec!["x—".as_bytes().to_vec(), b"y".to_vec()]);
}

#[test]
fn parse_rows_reads_every_line() {
    let lines = vec![b"a,1,2,3,n,*,*,*,*,*,a,a,a".to_vec(), b"b,4,5,6,n,*,*,*,*,*,b,b,b".to_vec()];
    let rows = parse_rows(&lines).unwrap();
    assert_eq!(rows.len(), 2);
    assert_eq!(rows[1].left_id, 4);
}

#[test]
fn wide_costs_keep_their_low_sixteen_bits() {
    let rows = vec![
        row("p,65537,1,40000,n,*,*,*,*,*,p,p,p"),
        row("q,2,1,-40000,n,*,*,*,*,*,q,q,q"),
    ];
    let a = compile_dict(&rows).unwrap();
    assert_eq!(i16::from_le_bytes([a.vals[4], a.vals[5]]), -25536);
    assert_eq!(u16::from_le_bytes([a.vals[6], a.vals[7]]), 1);
    assert_eq!(i16::from_le_bytes([a.vals[12], a.vals[13]]), 25536);
    assert_eq!(u16::from_le_bytes([a.vals[14], a.vals[15]]), 2);
}

#[test]
fn normalized_sources_build_alike() {
    let b = IpadicNeologdBuilder::new();
    let x = b.build_dict(&vec!["a―,1,1,1,n,～,*,*,*,*,a,a,a\n".as_bytes().to_vec()]).unwrap();
    let y = b.build_dict(&vec!["a—,1,1,1,n,〜,*,*,*,*,a,a,a\n".as_bytes().to_vec()]).unwrap();
    assert_eq!(x.index, y.index);
    assert_eq!(x.vals, y.vals);
    assert_eq!(x.words, y.words);
    assert_eq!(x.words_index, y.words_index);
}
