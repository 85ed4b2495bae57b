use adapto_rs::dispatch::Job;
use adapto_rs::matcher::{naive_matching, MatchFraction};
use adapto_rs::record::{check_record, FQRec, TrimError, TrimParams};
use adapto_rs::stream::{get_next_record, shift, trim_all, Trimmer};
use adapto_rs::trim::{qual_trim, trim_n_ends};

const ADAPTOR: &[u8] = b"AGATCGGAAGAGC";

fn frac(num: u32, den: u32) -> MatchFraction {
    MatchFraction::new(num, den).unwrap()
}

fn params(num: u32, den: u32) -> TrimParams {
    TrimParams { cutoff: 20, min_frac: frac(num, den), min_ltrs: 1 }
}

fn run(input: &[u8], buffer_size: usize, p: TrimParams) -> Result<Vec<u8>, TrimError> {
    trim_all(input, buffer_size, ADAPTOR.to_vec(), p)
}

#[test]
fn ambiguous_ends_are_trimmed() {
    assert_eq!(trim_n_ends(b"NNACGTNN"), (2, 6));
    assert_eq!(trim_n_ends(b"NACNGTN"), (1, 6));
}

#[test]
fn all_ambiguous_gives_empty_interval() {
    assert_eq!(trim_n_ends(b"NNNN"), (0, 0));
    assert_eq!(trim_n_ends(b""), (0, 0));
}

#[test]
fn no_ambiguous_keeps_whole_read() {
    assert_eq!(trim_n_ends(b"ACGT"), (0, 4));
    assert_eq!(trim_n_ends(b"A"), (0, 1));
}

#[test]
fn quality_trim_cuts_low_tail() {
    assert_eq!(qual_trim(b"II##", 0, 20), (0, 2));
    assert_eq!(qual_trim(b"II##", 20, 20), (0, 2));
}

#[test]
fn quality_trim_stops_at_negative_excursion() {
    assert_eq!(qual_trim(b"I5I#", 0, 20), (0, 3));
}

#[test]
fn quality_trim_front_end() {
    assert_eq!(qual_trim(b"##II", 20, 0), (2, 4));
    assert_eq!(qual_trim(b"##II", 0, 0), (0, 4));
}

#[test]
fn quality_trim_all_low_collapses() {
    assert_eq!(qual_trim(b"!!!!", 0, 20), (0, 0));
    assert_eq!(qual_trim(b"", 0, 20), (0, 0));
}

#[test]
fn quality_trim_higher_cutoff_keeps_no_more() {
    let q = b"I5I#";
    let (s1, e1) = qual_trim(q, 0, 20);
    let (s2, e2) = qual_trim(q, 0, 40);
    assert_eq!((s2, e2), (0, 1));
    assert!(e2 - s2 <= e1 - s1);
}

#[test]
fn exact_adaptor_is_found() {
    assert_eq!(naive_matching(ADAPTOR, b"ACGTAGATCGGAAGAGC", frac(1, 1), 1), 4);
    assert_eq!(naive_matching(ADAPTOR, b"ACGTAGATCGGAAGAGCTT", frac(1, 1), 1), 4);
}

#[test]
fn adaptor_with_one_mismatch() {
    assert_eq!(naive_matching(ADAPTOR, b"ACGTAGATCGGTAGAGC", frac(9, 10), 1), 4);
    assert_eq!(naive_matching(ADAPTOR, b"ACGTAGATCGGTAGAGC", frac(1, 1), 1), 17);
}

#[test]
fn partial_adaptor_at_tail() {
    assert_eq!(naive_matching(ADAPTOR, b"ACGTAGATC", frac(9, 10), 1), 4);
    assert_eq!(naive_matching(ADAPTOR, b"ACGTAGA", frac(1, 1), 3), 4);
    assert_eq!(naive_matching(ADAPTOR, b"ACGTAGA", frac(1, 1), 4), 7);
}

#[test]
fn no_adaptor_gives_read_length() {
    assert_eq!(naive_matching(ADAPTOR, b"ACGTACGT", frac(9, 10), 1), 8);
    assert_eq!(naive_matching(ADAPTOR, b"", frac(9, 10), 1), 0);
}

#[test]
fn empty_adaptor_matches_at_start() {
    assert_eq!(naive_matching(b"", b"ACGT", frac(9, 10), 1), 0);
}

#[test]
fn match_fraction_range() {
    assert!(MatchFraction::new(0, 10).is_none());
    assert!(MatchFraction::new(11, 10).is_none());
    assert_eq!(MatchFraction::new(10, 10), Some(MatchFraction { num: 10, den: 10 }));
}

#[test]
fn clean_record_is_unchanged() {
    let input = b"@r1 extra words\nACGTACGT\n+r1 extra words\nIIIIIIII\n";
    let out = run(input, 1 << 18, params(9, 10)).unwrap();
    assert_eq!(out, b"@r1\nACGTACGT\n+\nIIIIIIII\n".to_vec());
}

#[test]
fn appended_adaptor_is_removed() {
    let input = b"@r\nACGTAGATCGGAAGAGC\n+\nIIIIIIIIIIIIIIIII\n";
    let out = run(input, 1 << 18, params(1, 1)).unwrap();
    assert_eq!(out, b"@r\nACGT\n+\nIIII\n".to_vec());
}

#[test]
fn low_quality_record_is_emptied() {
    let input = b"@r\tdesc\nACGTACGT\n+\n!!!!!!!!\n";
    let out = run(input, 1 << 18, params(9, 10)).unwrap();
    assert_eq!(out, b"@r\n\n+\n\n".to_vec());
}

#[test]
fn ambiguous_bases_and_low_tail_removed() {
    let input = b"@r\nNNACGTACNN\n+\nIIIIIIII##\n";
    let out = run(input, 1 << 18, params(9, 10)).unwrap();
    assert_eq!(out, b"@r\nACGTAC\n+\nIIIIII\n".to_vec());
}

#[test]
fn small_buffer_gives_same_output() {
    let input = b"@a x\nACGTAGATCGGAAGAGC\n+\nIIIIIIIIIIIIIIIII\n@b\nNNACGTACGTNN\n+\nIIIIIIIIIIII\n@c\nACGTTT\n+\nIII!!!\n";
    let big = run(input, 1 << 18, params(9, 10)).unwrap();
    for size in [1usize, 3, 7, 10, 16, 33, 64] {
        assert_eq!(run(input, size, params(9, 10)).unwrap(), big);
    }
    assert_eq!(big, b"@a\nACGT\n+\nIIII\n@b\nACGTACGT\n+\nIIIIIIII\n@c\nACG\n+\nIII\n".to_vec());
}

#[test]
fn empty_input_gives_empty_output() {
    assert_eq!(run(b"", 8, params(9, 10)).unwrap(), Vec::<u8>::new());
}

#[test]
fn missing_marker_is_an_error() {
    assert_eq!(run(b"Xr\nACGT\n+\nIIII\n", 64, params(9, 10)), Err(TrimError::MissingMarker));
}

#[test]
fn missing_separator_is_an_error() {
    assert_eq!(run(b"@r\nACGT\n-\nIIII\n", 64, params(9, 10)), Err(TrimError::MissingSeparator));
}

#[test]
fn quality_length_mismatch_is_an_error() {
    assert_eq!(run(b"@r\nACGT\n+\nIII\n", 64, params(9, 10)), Err(TrimError::LengthMismatch));
}

#[test]
fn truncated_record_is_an_error() {
    assert_eq!(run(b"@r\nACGT\n+\nIIII", 64, params(9, 10)), Err(TrimError::Truncated));
    assert_eq!(run(b"@r\nACGT\n+\nIIII\n@s\nAC", 5, params(9, 10)), Err(TrimError::Truncated));
}

#[test]
fn split_record_waits_for_its_end() {
    let mut t = Trimmer::new(32, ADAPTOR.to_vec(), params(9, 10));
    assert_eq!(t.free_space(), 32);
    t.refill(b"@r\nACGT\n+\nII");
    assert_eq!(t.trim_window().unwrap(), Vec::<u8>::new());
    assert_eq!(t.free_space(), 32 - 12);
    assert!(t.finish().is_err());
    t.refill(b"II\n");
    assert_eq!(t.trim_window().unwrap(), b"@r\nACGT\n+\nIIII\n".to_vec());
    assert_eq!(t.free_space(), 32);
    assert!(t.finish().is_ok());
}

#[test]
fn full_window_grows() {
    let mut t = Trimmer::new(4, ADAPTOR.to_vec(), params(9, 10));
    t.refill(b"@r\nA");
    assert_eq!(t.trim_window().unwrap(), Vec::<u8>::new());
    assert_eq!(t.free_space(), 0);
    assert_eq!(t.make_room(), Ok(()));
    assert_eq!(t.free_space(), 4);
}

#[test]
fn locator_and_shift() {
    let buf = b"@r\nAC\n+\nII\n@s\nA".to_vec();
    let mut cursor = 0usize;
    let rec = get_next_record(&buf, &mut cursor, buf.len()).unwrap().unwrap();
    assert_eq!(rec, FQRec { n: 0, r: 3, o: 6, q: 8, e: 11 });
    assert_eq!(cursor, 11);
    assert_eq!(get_next_record(&buf, &mut cursor, buf.len()), Ok(None));
    assert_eq!(cursor, 11);
    let mut buf2 = buf.clone();
    let mut filled = buf2.len();
    shift(&mut buf2, &mut cursor, &mut filled);
    assert_eq!((cursor, filled), (0, 4));
    assert_eq!(&buf2[..4], b"@s\nA");
    assert_eq!(&buf2[4..], &buf[4..]);
}

#[test]
fn shift_keeps_bytes_past_the_suffix() {
    let mut buf = b"abcdef".to_vec();
    let mut cursor = 4usize;
    let mut filled = 6usize;
    shift(&mut buf, &mut cursor, &mut filled);
    assert_eq!(buf, b"efcdef".to_vec());
    assert_eq!((cursor, filled), (0, 2));
}

#[test]
fn locator_reports_missing_marker() {
    let buf = b"Xr\nAC\n+\nII\n".to_vec();
    let mut cursor = 0usize;
    assert_eq!(get_next_record(&buf, &mut cursor, buf.len()), Err(TrimError::MissingMarker));
    assert_eq!(cursor, 0);
    let partial = b"Xr\nAC\n+\nII".to_vec();
    assert_eq!(get_next_record(&partial, &mut cursor, partial.len()), Ok(None));
}

#[test]
fn record_compacts_in_place() {
    let mut buf = b"@r1 more\nNACGTAGATCGGAAGAGC\n+r1 more\nIIIIIIIIIIIIIIIIII\n@next\n".to_vec();
    let mut cursor = 0usize;
    let filled = buf.len();
    let mut rec = get_next_record(&buf, &mut cursor, filled).unwrap().unwrap();
    assert_eq!(check_record(&buf, &rec), Ok(()));
    assert_eq!(rec.trim_bounds(ADAPTOR, params(1, 1), &buf), (1, 5));
    let old_end = rec.e;
    rec.process(ADAPTOR, params(1, 1), &mut buf);
    assert_eq!(&buf[rec.n..rec.e], b"@r1\nACGT\n+\nIIII\n");
    assert!(rec.e <= old_end);
    assert_eq!((rec.r, rec.o, rec.q, rec.e), (4, 9, 11, 16));
    assert_eq!(rec.o - rec.r - 1, 4);
    assert_eq!(rec.e - rec.q - 1, 4);
    assert!(rec.n < rec.r && rec.r < rec.e);
    assert_eq!(&buf[old_end..], b"@next\n");
}

#[test]
fn parallel_window_matches_in_place_window() {
    let input = b"@a x\nACGTAGATCGGAAGAGC\n+\nIIIIIIIIIIIIIIIII\n@b\nNNACGTACGTNN\n+\nIIIIIIIIIIII\n@c\nAC";
    let mut seq = Trimmer::new(256, ADAPTOR.to_vec(), params(9, 10));
    let mut par = Trimmer::new(256, ADAPTOR.to_vec(), params(9, 10));
    seq.refill(input);
    par.refill(input);
    let a = seq.trim_window().unwrap();
    let b = par.trim_window_par().unwrap();
    assert_eq!(a, b"@a\nACGT\n+\nIIII\n@b\nACGTACGT\n+\nIIIIIIII\n".to_vec());
    assert_eq!(a, b);
    assert_eq!(seq.free_space(), par.free_space());
    assert_eq!(par.free_space(), 256 - 5);
}

#[test]
fn parallel_window_reports_faults() {
    let mut t = Trimmer::new(64, ADAPTOR.to_vec(), params(9, 10));
    t.refill(b"@r\nACGT\n+\nIIII\nXs\nAC\n+\nII\n");
    assert_eq!(t.trim_window_par(), Err(TrimError::MissingMarker));
}

#[test]
fn job_keeps_only_rewritten_bytes() {
    let bytes = b"@r1 more\nACGTAGATCGGAAGAGC\n+\nIIIIIIIIIIIIIIIII\n".to_vec();
    let rec = FQRec { n: 0, r: 9, o: 27, q: 29, e: 47 };
    let mut job = Job { rec, bytes };
    job.run(ADAPTOR, params(1, 1));
    assert_eq!(job.bytes, b"@r1\nACGT\n+\nIIII\n".to_vec());
}
