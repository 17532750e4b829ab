use thinp_pack::container::{
    check_run, frame_run, next_run, read_header, run_length, split_runs, write_header, FormatError,
    HEADER_BYTES, LENGTH_BYTES, MAGIC, PACK_VERSION,
};

fn header_of(magic: u64, version: u64, block_size: u64, nr_blocks: u64) -> Vec<u8> {
    let mut h = Vec::new();
    h.extend_from_slice(&magic.to_le_bytes());
    h.extend_from_slice(&version.to_le_bytes());
    h.extend_from_slice(&block_size.to_le_bytes());
    h.extend_from_slice(&nr_blocks.to_le_bytes());
    h
}

#[test]
fn header_has_the_documented_bytes() {
    let mut w = Vec::new();
    write_header(&mut w, 0x1122_3344_5566_7788);
    let expected: Vec<u8> = vec![
        0x77, 0xef, 0x09, 0x63, 0xaa, 0xa0, 0x37, 0xa5, // magic
        3, 0, 0, 0, 0, 0, 0, 0, // version
        0, 0x10, 0, 0, 0, 0, 0, 0, // block size
        0x88, 0x77, 0x66, 0x55, 0x44, 0x33, 0x22, 0x11, // block count
    ];
    assert_eq!(w, expected);
}

#[test]
fn header_constants_have_their_values() {
    assert_eq!(MAGIC, 0xa537a0aa6309ef77);
    assert_eq!(PACK_VERSION, 3);
    assert_eq!(HEADER_BYTES, 32);
    assert_eq!(LENGTH_BYTES, 8);
}

#[test]
fn write_header_appends() {
    let mut w = vec![1u8, 2, 3];
    write_header(&mut w, 5);
    assert_eq!(w.len(), 35);
    assert_eq!(&w[..3], &[1, 2, 3]);
    assert_eq!(read_header(&w[3..]), Ok(5));
}

#[test]
fn header_round_trip() {
    for n in [0u64, 1, 128, 4096, 1 << 40, u64::MAX] {
        let mut w = Vec::new();
        write_header(&mut w, n);
        assert_eq!(read_header(&w), Ok(n));
        // What follows the header does not matter.
        w.extend_from_slice(&[0xde, 0xad, 0xbe, 0xef]);
        assert_eq!(read_header(&w), Ok(n));
    }
}

#[test]
fn altered_magic_is_rejected() {
    assert_eq!(
        read_header(&header_of(MAGIC + 1, PACK_VERSION, 4096, 7)),
        Err(FormatError::BadMagic)
    );
    assert_eq!(
        read_header(&header_of(0, PACK_VERSION, 4096, 7)),
        Err(FormatError::BadMagic)
    );
    let mut w = Vec::new();
    write_header(&mut w, 7);
    for i in 0..8 {
        let mut h = w.clone();
        h[i] ^= 1;
        assert_eq!(read_header(&h), Err(FormatError::BadMagic));
    }
}

#[test]
fn altered_version_is_rejected() {
    assert_eq!(
        read_header(&header_of(MAGIC, 2, 4096, 7)),
        Err(FormatError::BadVersion)
    );
    assert_eq!(
        read_header(&header_of(MAGIC, 4, 4096, 7)),
        Err(FormatError::BadVersion)
    );
}

#[test]
fn other_block_size_is_rejected() {
    assert_eq!(
        read_header(&header_of(MAGIC, PACK_VERSION, 512, 7)),
        Err(FormatError::BadBlockSize)
    );
    assert_eq!(
        read_header(&header_of(MAGIC, PACK_VERSION, 8192, 7)),
        Err(FormatError::BadBlockSize)
    );
}

#[test]
fn first_wrong_field_names_the_error() {
    assert_eq!(
        read_header(&header_of(1, 2, 3, 4)),
        Err(FormatError::BadMagic)
    );
    assert_eq!(
        read_header(&header_of(MAGIC, 2, 3, 4)),
        Err(FormatError::BadVersion)
    );
}

#[test]
fn short_header_is_truncated() {
    let h = header_of(MAGIC, PACK_VERSION, 4096, 7);
    assert_eq!(read_header(&[]), Err(FormatError::TruncatedHeader));
    assert_eq!(read_header(&h[..7]), Err(FormatError::TruncatedHeader));
    assert_eq!(read_header(&h[..8]), Err(FormatError::TruncatedHeader));
    assert_eq!(read_header(&h[..16]), Err(FormatError::TruncatedHeader));
    assert_eq!(read_header(&h[..31]), Err(FormatError::TruncatedHeader));
    assert_eq!(read_header(&h[..32]), Ok(7));
    // A wrong field that is there is reported before a missing one.
    let bad = header_of(MAGIC, 9, 4096, 7);
    assert_eq!(read_header(&bad[..20]), Err(FormatError::BadVersion));
    assert_eq!(read_header(&[0u8; 8]), Err(FormatError::BadMagic));
}

#[test]
fn frame_is_length_then_bytes() {
    assert_eq!(frame_run(&[]), vec![0u8; 8]);
    assert_eq!(
        frame_run(&[7, 8, 9]),
        vec![3, 0, 0, 0, 0, 0, 0, 0, 7, 8, 9]
    );
    let long = vec![5u8; 300];
    let f = frame_run(&long);
    assert_eq!(&f[..8], &[44, 1, 0, 0, 0, 0, 0, 0]);
    assert_eq!(&f[8..], &long[..]);
}

#[test]
fn run_length_reads_a_length_field() {
    assert_eq!(run_length(&[]), None);
    assert_eq!(run_length(&[1, 2, 3, 4, 5, 6, 7]), None);
    assert_eq!(run_length(&[1, 0, 0, 0, 0, 0, 0, 0]), Some(1));
    assert_eq!(run_length(&[0, 1, 0, 0, 0, 0, 0, 0, 99]), Some(256));
    assert_eq!(run_length(&[0xff; 8]), Some(u64::MAX));
}

#[test]
fn next_run_finds_each_run() {
    let mut body = frame_run(&[1, 2, 3]);
    body.extend_from_slice(&frame_run(&[]));
    body.extend_from_slice(&frame_run(&[4]));
    assert_eq!(next_run(&body, 0), Ok(Some((8, 11))));
    assert_eq!(next_run(&body, 11), Ok(Some((19, 19))));
    assert_eq!(next_run(&body, 19), Ok(Some((27, 28))));
    assert_eq!(next_run(&body, 28), Ok(None));
}

#[test]
fn next_run_reports_a_run_cut_short() {
    let body = frame_run(&[1, 2, 3]);
    assert_eq!(next_run(&body[..10], 0), Err(FormatError::TruncatedRun));
    assert_eq!(next_run(&body[..8], 0), Err(FormatError::TruncatedRun));
    assert_eq!(next_run(&[0xff; 8], 0), Err(FormatError::TruncatedRun));
}

#[test]
fn incomplete_length_field_ends_the_body() {
    assert_eq!(next_run(&[1, 2, 3], 0), Ok(None));
    assert_eq!(next_run(&[1, 2, 3, 4, 5, 6, 7], 0), Ok(None));
    let mut body = frame_run(&[9, 9]);
    body.extend_from_slice(&[1, 0, 0]);
    assert_eq!(split_runs(&body), Ok(vec![vec![9u8, 9]]));
}

#[test]
fn split_runs_gives_the_runs_back() {
    assert_eq!(split_runs(&[]), Ok(Vec::<Vec<u8>>::new()));
    let runs: Vec<Vec<u8>> = vec![vec![1, 2, 3], vec![], vec![0xff; 1000], vec![4]];
    let mut body = Vec::new();
    for r in &runs {
        body.extend_from_slice(&frame_run(r));
    }
    assert_eq!(split_runs(&body), Ok(runs));
}

#[test]
fn split_runs_reports_a_run_cut_short() {
    let mut body = frame_run(&[1, 2, 3]);
    body.extend_from_slice(&frame_run(&[4, 5, 6, 7]));
    let cut = &body[..body.len() - 1];
    assert_eq!(split_runs(cut), Err(FormatError::TruncatedRun));
}

#[test]
fn check_run_tells_a_run_cut_short() {
    assert_eq!(check_run(0, 0), Ok(()));
    assert_eq!(check_run(5, 5), Ok(()));
    assert_eq!(check_run(5, 6), Ok(()));
    assert_eq!(check_run(5, 4), Err(FormatError::TruncatedRun));
    assert_eq!(check_run(1, 0), Err(FormatError::TruncatedRun));
    assert_eq!(check_run(u64::MAX, 1000), Err(FormatError::TruncatedRun));
}
