use mm3u::download::parse_u64;
use mm3u::download::range_header;
use mm3u::download::u64_to_dec;
use mm3u::download::write_page;
use mm3u::download::DownError;
use mm3u::download::DownTask;
use mm3u::download::Pdata;
use mm3u::status::Status;

fn fresh_task() -> DownTask {
    DownTask::new(
        "http://example.test/file.bin".to_string(),
        "./output".to_string(),
        "file.bin".to_string(),
        1024,
        Status::new(Vec::new()),
    )
}

#[test]
fn parse_u64_accepts_digits_only() {
    assert_eq!(parse_u64(&b"123".to_vec()), Some(123));
    assert_eq!(parse_u64(&b"0".to_vec()), Some(0));
    assert_eq!(parse_u64(&b"5242880".to_vec()), Some(5242880));
    assert_eq!(parse_u64(&b"18446744073709551615".to_vec()), Some(u64::MAX));
    assert_eq!(parse_u64(&Vec::new()), None);
    assert_eq!(parse_u64(&b"12x".to_vec()), None);
    assert_eq!(parse_u64(&b"-5".to_vec()), None);
    assert_eq!(parse_u64(&b"18446744073709551616".to_vec()), None);
}

#[test]
fn probe_reads_range_support_and_length() {
    let task = fresh_task();
    let r = task
        .check_request_range(true, Some(b"bytes".to_vec()), Some(b"5242880".to_vec()))
        .expect("probe");
    assert_eq!(r, (true, 5242880));

    // Accept-Ranges must match exactly.
    let r = task
        .check_request_range(true, Some(b"Bytes".to_vec()), Some(b"10".to_vec()))
        .expect("probe");
    assert_eq!(r, (false, 10));
    let r = task.check_request_range(true, None, Some(b"10".to_vec())).expect("probe");
    assert_eq!(r.0, false);

    // A missing or unparsable length is unknown: 0.
    let r = task.check_request_range(true, Some(b"bytes".to_vec()), None).expect("probe");
    assert_eq!(r, (true, 0));
    let r = task
        .check_request_range(true, Some(b"bytes".to_vec()), Some(b"12x".to_vec()))
        .expect("probe");
    assert_eq!(r, (true, 0));
}

#[test]
fn probe_fails_on_non_success_status() {
    let task = fresh_task();
    let r = task.check_request_range(false, Some(b"bytes".to_vec()), Some(b"10".to_vec()));
    assert_eq!(r, Err(DownError::RequestError));
}

#[test]
fn range_header_is_rendered_in_decimal() {
    assert_eq!(range_header(0, 1023), b"bytes=0-1023".to_vec());
    assert_eq!(range_header(10241, 20481), b"bytes=10241-20481".to_vec());
    // The final open-ended page.
    assert_eq!(range_header(4194304, u64::MAX), b"bytes=4194304-".to_vec());
    assert_eq!(u64_to_dec(0), b"0".to_vec());
    assert_eq!(u64_to_dec(10241), b"10241".to_vec());
    assert_eq!(u64_to_dec(u64::MAX), b"18446744073709551615".to_vec());
}

#[test]
fn down_chunk_wraps_a_successful_body() {
    let task = fresh_task();
    let p = task.down_chunk(3, 3072, true, vec![1, 2, 3]).expect("chunk");
    assert_eq!(p.index, 3);
    assert_eq!(p.offset, 3072);
    assert_eq!(p.data, vec![1, 2, 3]);

    match task.down_chunk(3, 3072, false, Vec::new()) {
        Err(DownError::RequestError) => {}
        _ => panic!("a failed fetch must be a RequestError"),
    }
}

#[test]
fn writer_records_the_crc32_of_the_payload() {
    let mut status = Status::new(Vec::new());
    status.set_page(1024, 9).expect("set_page");
    let mut file: Vec<u8> = Vec::new();
    let chunk = Pdata { index: 0, offset: 0, data: b"123456789".to_vec() };
    write_page(&mut file, &mut status, &chunk).expect("write_page");
    assert_eq!(file, b"123456789".to_vec());
    // The standard CRC-32 (IEEE) check value for "123456789".
    assert_eq!(status.find_crc32()[0], 0xcbf4_3926);
    assert_eq!(status.find_crc32()[0], crc32fast::hash(b"123456789"));
}

#[test]
fn writer_pads_sparse_gaps_with_zeros() {
    let mut status = Status::new(Vec::new());
    status.set_page(4, 12).expect("set_page");
    let mut file: Vec<u8> = Vec::new();
    // The middle page lands first: the file is padded up to its offset.
    let chunk = Pdata { index: 1, offset: 4, data: vec![9, 9, 9, 9] };
    write_page(&mut file, &mut status, &chunk).expect("write_page");
    assert_eq!(file, vec![0, 0, 0, 0, 9, 9, 9, 9]);
    // An earlier page landing later overwrites only its own range.
    let chunk = Pdata { index: 0, offset: 0, data: vec![1, 2, 3, 4] };
    write_page(&mut file, &mut status, &chunk).expect("write_page");
    assert_eq!(file, vec![1, 2, 3, 4, 9, 9, 9, 9]);
}
