use reversed_words::{ReversedWords, SeekFrom, StreamError};

#[test]
fn read_simple_sequential() {
    let data: Vec<u8> = vec![0, 1, 2, 3, 4, 5, 6, 7];
    let data_len = data.len();
    let mut ram = ReversedWords::new(data);
    let mut out = vec![0u8; 8];
    let result = ram.read(&mut out).unwrap();
    assert_eq!(vec![3, 2, 1, 0, 7, 6, 5, 4], out);
    assert_eq!(data_len, result);
}

#[test]
fn read_seek_unaligned() {
    let data: Vec<u8> = vec![0, 1, 2, 3, 4, 5, 6, 7];
    let mut ram = ReversedWords::new(data);
    let mut out = vec![0u8; 3]; // just read 3 bytes
    ram.seek(SeekFrom::Start(2)).unwrap();
    let result = ram.read(&mut out).unwrap();
    assert_eq!(vec![1, 0, 7], out);
    assert_eq!(3, result);
}

#[test]
fn write_simple_sequential() {
    let source: Vec<u8> = vec![0, 1, 2, 3, 4, 5, 6, 7];
    let target = vec![0u8; 8];
    let mut ram = ReversedWords::new(target);
    let result = ram.write(&source).unwrap();
    assert_eq!(vec![3, 2, 1, 0, 7, 6, 5, 4], ram.into_inner());
    assert_eq!(source.len(), result);
}

#[test]
fn write_seek_unaligned() {
    let target = vec![0u8; 8];
    let mut ram = ReversedWords::new(target);
    ram.seek(SeekFrom::Start(2)).unwrap();
    let result = ram.write(&vec![1, 2, 3, 4]).unwrap();
    assert_eq!(vec![2, 1, 0, 0, 0, 0, 4, 3], ram.into_inner());
    assert_eq!(4, result);
}

#[test]
fn write_seek_unaligned_2() {
    let target = vec![0u8; 8];
    let mut ram = ReversedWords::new(target);
    ram.seek(SeekFrom::Start(6)).unwrap();
    let result = ram.write(&vec![16, 32]).unwrap();
    assert_eq!(vec![0, 0, 0, 0, 32, 16, 0, 0], ram.into_inner());
    assert_eq!(2, result);
}

#[test]
fn read_and_write_aligned_block() {
    let target = vec![0u8; 128];
    let source: Vec<u8> = (0..128).collect();
    let mut ram = ReversedWords::new(target);
    let written = ram.write(&source).unwrap();
    assert_eq!(source.len(), written);
    ram.seek(SeekFrom::Start(0)).unwrap();

    let mut read_buffer: Vec<u8> = Vec::new();
    loop {
        let mut chunk = vec![0u8; 16];
        let n = ram.read(&mut chunk).unwrap();
        if n == 0 {
            break;
        }
        read_buffer.extend_from_slice(&chunk[..n]);
    }
    assert_eq!(source, read_buffer);
}

#[test]
fn read_and_write_unaligned_blocks() {
    let target = vec![0u8; 128];
    let target_len = target.len();
    let source: Vec<u8> = (0..32).collect();
    let mut ram = ReversedWords::new(target);
    ram.seek(SeekFrom::Start(2)).unwrap();
    assert_eq!(source.len(), ram.write(&source).unwrap());
    ram.seek(SeekFrom::Start(31)).unwrap();
    assert_eq!(source.len(), ram.write(&source).unwrap());
    ram.seek(SeekFrom::Start(65)).unwrap();
    assert_eq!(source.len(), ram.write(&source).unwrap());
    ram.seek(SeekFrom::End(-1)).unwrap();
    ram.write(&vec![255]).unwrap();

    let mut expected_result = vec![0u8, 0u8];
    expected_result.append(&mut source.clone());
    expected_result.truncate(31);
    expected_result.append(&mut source.clone());
    expected_result.append(&mut vec![0u8, 0u8]);
    expected_result.append(&mut source.clone());
    while expected_result.len() < target_len {
        expected_result.push(0u8);
    }
    expected_result[target_len - 1] = 255;

    let mut read_buffer: Vec<u8> = Vec::new();
    ram.seek(SeekFrom::Start(0)).unwrap();
    loop {
        let mut chunk = vec![0u8; 16];
        let n = ram.read(&mut chunk).unwrap();
        if n == 0 {
            break;
        }
        read_buffer.extend_from_slice(&chunk[..n]);
    }
    assert_eq!(expected_result, read_buffer);
}

#[test]
fn write_past_end_fails() {
    // Writing more bytes than remain stores only the in-bounds ones and
    // reports the short count; the rest of the buffer is untouched.
    let target = vec![0u8; 8];
    let mut ram = ReversedWords::new(target);
    ram.seek(SeekFrom::Start(6)).unwrap();
    let written = ram.write(&vec![9, 10, 11, 12]).unwrap();
    assert_eq!(2, written);
    assert_eq!(vec![0, 0, 0, 0, 10, 9, 0, 0], ram.into_inner());
}

#[test]
fn write_at_end_stores_nothing() {
    let target = vec![0u8; 8];
    let mut ram = ReversedWords::new(target);
    ram.seek(SeekFrom::Start(8)).unwrap();
    let written = ram.write(&vec![1, 2, 3]).unwrap();
    assert_eq!(0, written);
    assert_eq!(vec![0u8; 8], ram.into_inner());
}

#[test]
fn round_trip_aligned_block() {
    let target = vec![0u8; 12];
    let source: Vec<u8> = vec![41, 7, 255, 0, 13, 128, 2, 99, 54, 17, 200, 1];
    let mut ram = ReversedWords::new(target);
    assert_eq!(source.len(), ram.write(&source).unwrap());
    ram.seek(SeekFrom::Start(0)).unwrap();
    let mut out = vec![0u8; 12];
    assert_eq!(source.len(), ram.read(&mut out).unwrap());
    assert_eq!(source, out);
}

#[test]
fn round_trip_unaligned_range() {
    let target = vec![0u8; 16];
    let source: Vec<u8> = vec![5, 6, 7, 8, 9];
    let mut ram = ReversedWords::new(target);
    ram.seek(SeekFrom::Start(3)).unwrap();
    assert_eq!(source.len(), ram.write(&source).unwrap());
    ram.seek(SeekFrom::Start(3)).unwrap();
    let mut out = vec![0u8; 5];
    assert_eq!(source.len(), ram.read(&mut out).unwrap());
    assert_eq!(source, out);
}

#[test]
fn end_of_stream_returns_zero() {
    let data: Vec<u8> = vec![0, 1, 2, 3, 4, 5, 6, 7];
    let mut ram = ReversedWords::new(data);
    ram.seek(SeekFrom::Start(7)).unwrap();
    let mut out = vec![0u8; 4];
    let first = ram.read(&mut out).unwrap();
    assert_eq!(1, first);
    assert_eq!(4, out[0]); // logical byte 7 is physical byte 4
    let second = ram.read(&mut out).unwrap();
    assert_eq!(0, second);
    let third = ram.read(&mut out).unwrap();
    assert_eq!(0, third);
}

#[test]
fn seek_before_start_fails() {
    let data: Vec<u8> = vec![0u8; 8];
    let mut ram = ReversedWords::new(data);
    assert_eq!(Err(StreamError::InvalidSeek), ram.seek(SeekFrom::Current(-1)));
    assert_eq!(Err(StreamError::InvalidSeek), ram.seek(SeekFrom::End(-9)));
    // a failed seek leaves the cursor where it was
    assert_eq!(Ok(0), ram.stream_position());
}

#[test]
fn seek_reports_new_position() {
    let data: Vec<u8> = vec![0u8; 8];
    let mut ram = ReversedWords::new(data);
    assert_eq!(Ok(5), ram.seek(SeekFrom::Start(5)));
    assert_eq!(Ok(3), ram.seek(SeekFrom::Current(-2)));
    assert_eq!(Ok(7), ram.seek(SeekFrom::End(-1)));
    assert_eq!(Ok(10), ram.seek(SeekFrom::End(2)));
    assert_eq!(Ok(10), ram.stream_position());
}

#[test]
fn cursor_after_unaligned_write() {
    // A write leaves the cursor at the last physical slot it stored to,
    // plus one, which need not be the next logical position.
    let target = vec![0u8; 8];
    let mut ram = ReversedWords::new(target);
    ram.seek(SeekFrom::Start(6)).unwrap();
    ram.write(&vec![16, 32]).unwrap();
    // slots 4 and 5 were stored; the cursor sits at 6
    assert_eq!(Ok(6), ram.stream_position());
}

#[test]
fn cursor_after_read_consumes_whole_words() {
    let data: Vec<u8> = vec![0, 1, 2, 3, 4, 5, 6, 7];
    let mut ram = ReversedWords::new(data);
    ram.seek(SeekFrom::Start(2)).unwrap();
    let mut out = vec![0u8; 3];
    ram.read(&mut out).unwrap();
    // two words were consumed to serve a read that ended inside the second
    assert_eq!(Ok(8), ram.stream_position());
}

#[test]
fn word_size_two_reverses_pairs() {
    let target = vec![0u8; 8];
    let mut ram = ReversedWords::new_with_word_size(target, 2);
    assert_eq!(4, ram.write(&vec![1, 2, 3, 4]).unwrap());
    assert_eq!(vec![2, 1, 4, 3, 0, 0, 0, 0], ram.into_inner());
}

#[test]
fn word_size_one_is_transparent() {
    let target = vec![0u8; 5];
    let mut ram = ReversedWords::new_with_word_size(target, 1);
    assert_eq!(5, ram.write(&vec![10, 20, 30, 40, 50]).unwrap());
    assert_eq!(vec![10, 20, 30, 40, 50], ram.into_inner());
}

#[test]
fn word_size_eight_read() {
    let data: Vec<u8> = vec![0, 1, 2, 3, 4, 5, 6, 7];
    let mut ram = ReversedWords::new_with_word_size(data, 8);
    let mut out = vec![0u8; 8];
    assert_eq!(8, ram.read(&mut out).unwrap());
    assert_eq!(vec![7, 6, 5, 4, 3, 2, 1, 0], out);
}

#[test]
fn empty_write_only_rewinds() {
    let target = vec![0u8; 8];
    let mut ram = ReversedWords::new(target);
    ram.seek(SeekFrom::Start(6)).unwrap();
    assert_eq!(0, ram.write(&Vec::new()).unwrap());
    // the cursor rewinds to the start of the containing word
    assert_eq!(Ok(4), ram.stream_position());
    assert_eq!(vec![0u8; 8], ram.into_inner());
}

#[test]
fn empty_read_only_rewinds() {
    let data: Vec<u8> = vec![0, 1, 2, 3, 4, 5, 6, 7];
    let mut ram = ReversedWords::new(data);
    ram.seek(SeekFrom::Start(5)).unwrap();
    let mut out: Vec<u8> = Vec::new();
    assert_eq!(0, ram.read(&mut out).unwrap());
    assert_eq!(Ok(4), ram.stream_position());
}

#[test]
fn flush_changes_nothing() {
    let data: Vec<u8> = vec![0u8; 4];
    let mut ram = ReversedWords::new(data);
    ram.seek(SeekFrom::Start(3)).unwrap();
    assert_eq!(Ok(()), ram.flush());
    assert_eq!(Ok(3), ram.stream_position());
}
