use rand::Rng;
use search::disk::bits::CodecError;
use search::disk::bits_reader::BitsReader;
use search::disk::bits_writer::BitsWriter;

#[test]
fn bits_reader_test_read() {
    let mut w = BitsWriter::new();

    (1..100).for_each(|i| {
        w.write_vbyte(i);
    });

    (1..100).for_each(|i| {
        w.write_gamma(i);
    });

    w.write_vbyte(3);
    (1..4).for_each(|i| {
        w.write_gamma(i);
    });

    w.write_str("hello");
    w.write_str("");

    w.flush();

    let mut r = BitsReader::new(w.into_bytes()).unwrap();

    (1..100).for_each(|i| assert_eq!(i, r.read_vbyte().unwrap()));
    (1..100).for_each(|i| assert_eq!(i, r.read_gamma().unwrap()));

    assert_eq!(r.read_vbyte_gamma_gap_vector().unwrap(), [1, 3, 6]);

    assert_eq!(r.read_str().unwrap(), "hello");
    assert_eq!(r.read_str().unwrap(), "");
}

#[test]
fn bits_reader_test_seek() {
    let mut w = BitsWriter::new();

    let offset = (0..1000).map(|i| w.write_gamma(i)).sum();
    w.write_gamma(10);

    w.flush();

    let mut r = BitsReader::new(w.into_bytes()).unwrap();

    r.seek(offset).unwrap();
    assert_eq!(r.read_gamma().unwrap(), 10);
}

#[test]
fn bits_writer_test_gamma_coding() {
    let (g, l) = BitsWriter::int_to_gamma(1);
    assert_eq!(format!("{g:b}"), "1");
    assert_eq!(l, 1);

    let (g, l) = BitsWriter::int_to_gamma(7);
    assert_eq!(format!("{g:b}"), "11100");
    assert_eq!(l, 5);
}

#[test]
fn bits_writer_test_vbyte_coding() {
    let (vb, l) = BitsWriter::int_to_vbyte(1024);
    assert_eq!(format!("{vb:b}"), "1000100000000000");
    assert_eq!(l, 16);

    let (vb, l) = BitsWriter::int_to_vbyte(1);
    assert_eq!(format!("{vb:b}"), "10000001");
    assert_eq!(l, 8);
}

#[test]
fn bits_writer_test_buffer_overflow() {
    let word = (1 << 10) - 1;
    let len = 10;

    let mut w = BitsWriter::new();
    w.written = 125;

    w.write_internal(word, len);

    let b = w.buffer;
    assert_eq!(b, (1 << 7) - 1)
}

#[test]
fn test_read_write() {
    let n = 100_000;

    let mut rng = rand::thread_rng();

    let values: Vec<u32> = (0..n).map(|_| rng.gen_range(0..u32::MAX - 1)).collect();
    let mut coding: Vec<u32> = (0..n).map(|_| rng.gen()).collect();

    let mut writer = BitsWriter::new();
    writer.write_vbyte(n);

    values.iter().zip(coding.iter_mut()).for_each(|(v, c)| {
        if *c % 2 == 0 {
            writer.write_vbyte(*v);
        } else {
            writer.write_gamma(*v);
        }
    });

    writer.flush();

    let mut reader = BitsReader::new(writer.into_bytes()).unwrap();
    assert_eq!(n, reader.read_vbyte().unwrap());

    values.iter().zip(coding.iter_mut()).for_each(|(v, c)| {
        let r = if *c % 2 == 0 {
            reader.read_vbyte().unwrap()
        } else {
            reader.read_gamma().unwrap()
        };

        assert_eq!(r, *v)
    });
}

#[test]
fn reader_test_read_gamma() {
    let mut w = BitsWriter::new();
    for i in 1..100 {
        w.write_gamma(i);
    }
    for i in 1..100 {
        w.write_vbyte(i);
    }
    w.flush();

    let mut r = BitsReader::new(w.into_bytes()).unwrap();
    for i in 1..100 {
        let a = r.read_gamma().unwrap();
        assert_eq!(i, a);
    }
    for i in 1..100 {
        let a = r.read_vbyte().unwrap();
        assert_eq!(i, a);
    }
}

#[test]
fn writer_test_gamma_coding() {
    let (g, l) = BitsWriter::int_to_gamma(1);
    assert_eq!(format!("{g:b}"), "1");
    assert_eq!(l, 1);

    let (g, l) = BitsWriter::int_to_gamma(7);
    assert_eq!(format!("{g:b}"), "11100");
    assert_eq!(l, 5);
}

#[test]
fn writer_test_vbyte_coding() {
    let (vb, l) = BitsWriter::int_to_vbyte(1024);
    assert_eq!(format!("{vb:b}"), "1000100000000000");
    assert_eq!(l, 16);

    let (vb, l) = BitsWriter::int_to_vbyte(1);
    assert_eq!(format!("{vb:b}"), "10000001");
    assert_eq!(l, 8);
}

#[test]
fn writer_test_buffer_overflow() {
    let word = (1 << 10) - 1;
    let len = 10;

    let mut w = BitsWriter::new();
    w.written = 125;

    w.write_internal(word, len);

    let b = w.buffer;
    assert_eq!(b, (1 << 7) - 1)
}

#[test]
fn gamma_lengths() {
    // 2 * floor(log2(n + 1)) + 1 bits
    let mut w = BitsWriter::new();
    assert_eq!(w.write_gamma(0), 1);
    assert_eq!(w.write_gamma(1), 3);
    assert_eq!(w.write_gamma(2), 3);
    assert_eq!(w.write_gamma(3), 5);
    assert_eq!(w.write_gamma(1022), 19);
    assert_eq!(w.write_gamma(1023), 21);
    assert_eq!(w.write_gamma(u32::MAX - 1), 63);
}

#[test]
fn vbyte_lengths() {
    let mut w = BitsWriter::new();
    assert_eq!(w.write_vbyte(0), 8);
    assert_eq!(w.write_vbyte(126), 8);
    assert_eq!(w.write_vbyte(127), 16);
    assert_eq!(w.write_vbyte(16382), 16);
    assert_eq!(w.write_vbyte(16383), 24);
    assert_eq!(w.write_vbyte(u32::MAX - 1), 40);
    assert_eq!(w.write_str("héllo"), 5 + 8 * 6);
}

#[test]
fn stream_layout() {
    let mut w = BitsWriter::new();
    // the code of 0 is the bit 1; that of 2 is 3 = 11b: a zero, a one, a one
    w.write_gamma(0);
    w.write_gamma(2);
    w.write_vbyte(0);
    let bytes = w.finish();
    assert_eq!(bytes.len(), 32);
    assert_eq!(bytes[0], 0b0001_1101);
    assert_eq!(bytes[1], 0b0000_1000);
    assert!(bytes[2..].iter().all(|b| *b == 0));
}

#[test]
fn flush_of_a_full_register_adds_one_register() {
    let mut w = BitsWriter::new();
    for _ in 0..16 {
        w.write_vbyte(0);
    }
    assert_eq!(w.finish().len(), 32);
    assert_eq!(BitsWriter::new().finish().len(), 16);
}

#[test]
fn largest_values_round_trip() {
    let mut w = BitsWriter::new();
    w.write_gamma(u32::MAX - 1);
    w.write_vbyte(u32::MAX - 1);
    w.write_gamma(0);
    w.write_vbyte(0);
    let mut r = BitsReader::new(w.finish()).unwrap();
    assert_eq!(r.read_gamma().unwrap(), u32::MAX - 1);
    assert_eq!(r.read_vbyte().unwrap(), u32::MAX - 1);
    assert_eq!(r.read_gamma().unwrap(), 0);
    assert_eq!(r.read_vbyte().unwrap(), 0);
}

#[test]
fn seek_behind_each_value() {
    let mut w = BitsWriter::new();
    let mut offsets = Vec::new();
    let mut offset = 0;
    for i in 0..300u32 {
        offsets.push(offset);
        offset += w.write_gamma(i * 7);
        offset += w.write_str("ab");
    }
    let bytes = w.finish();
    let mut r = BitsReader::new(bytes).unwrap();
    for i in (0..300u32).rev() {
        r.seek(offsets[i as usize]).unwrap();
        assert_eq!(r.read_gamma().unwrap(), i * 7);
        assert_eq!(r.read_str().unwrap(), "ab");
    }
}

#[test]
fn reading_beyond_the_stream_is_an_error() {
    assert!(matches!(BitsReader::new(vec![0; 15]), Err(CodecError::UnexpectedEof)));
    let mut r = BitsReader::new(vec![0xff; 16]).unwrap();
    for _ in 0..15 {
        assert_eq!(r.read_vbyte().unwrap(), 126);
    }
    // the last byte stands at the end of the last register
    assert_eq!(r.read_vbyte(), Err(CodecError::UnexpectedEof));
    let mut r = BitsReader::new(vec![0xff; 32]).unwrap();
    assert_eq!(r.seek(17 * 8), Err(CodecError::UnexpectedEof));
    assert_eq!(r.seek(16 * 8).unwrap(), ());
    assert_eq!(r.seek(u64::MAX), Err(CodecError::UnexpectedEof));
}

#[test]
fn malformed_codes_are_errors() {
    // 32 zeros and more: no code of a `u32`
    let mut r = BitsReader::new(vec![0; 32]).unwrap();
    assert_eq!(r.read_gamma(), Err(CodecError::Malformed));
    // five bytes without the bit that ends the code
    let mut r = BitsReader::new(vec![1; 32]).unwrap();
    assert_eq!(r.read_vbyte(), Err(CodecError::Malformed));
    // the value 0 stands for nothing
    let mut data = vec![0; 32];
    data[0] = 0x80;
    let mut r = BitsReader::new(data).unwrap();
    assert_eq!(r.read_vbyte(), Err(CodecError::Malformed));
    // bytes that are not UTF-8
    let mut w = BitsWriter::new();
    w.write_gamma(1);
    w.write_internal(0xff, 8);
    let mut r = BitsReader::new(w.finish()).unwrap();
    assert_eq!(r.read_str(), Err(CodecError::Malformed));
    // a vector that does not ascend
    let mut w = BitsWriter::new();
    w.write_vbyte(2);
    w.write_gamma(4);
    w.write_gamma(0);
    let mut r = BitsReader::new(w.finish()).unwrap();
    assert_eq!(r.read_vbyte_gamma_gap_vector(), Err(CodecError::Malformed));
    // a vector that starts at zero
    let mut w = BitsWriter::new();
    w.write_vbyte(2);
    w.write_gamma(0);
    w.write_gamma(3);
    let mut r = BitsReader::new(w.finish()).unwrap();
    assert_eq!(r.read_vbyte_gamma_gap_vector().unwrap(), [0, 3]);
}

#[test]
fn a_truncated_string_is_an_error() {
    let mut w = BitsWriter::new();
    w.write_str("a string that is longer than one register of sixteen bytes");
    let bytes = w.finish();
    let mut r = BitsReader::new(bytes[..32].to_vec()).unwrap();
    assert_eq!(r.read_str(), Err(CodecError::UnexpectedEof));
}

#[test]
fn gap_vector_up_to_the_largest_number() {
    // the sums fit: both are returned
    let mut w = BitsWriter::new();
    w.write_vbyte(2);
    w.write_gamma(u32::MAX - 1);
    w.write_gamma(1);
    let mut r = BitsReader::new(w.finish()).unwrap();
    assert_eq!(r.read_vbyte_gamma_gap_vector().unwrap(), [u32::MAX - 1, u32::MAX]);
    // a sum beyond the largest number does not
    let mut w = BitsWriter::new();
    w.write_vbyte(2);
    w.write_gamma(u32::MAX - 1);
    w.write_gamma(2);
    let mut r = BitsReader::new(w.finish()).unwrap();
    assert_eq!(r.read_vbyte_gamma_gap_vector(), Err(CodecError::Malformed));
}

#[test]
fn gap_vector_is_the_running_sum() {
    let gaps = [5u32, 1, 1, 7, 100, 1];
    let mut w = BitsWriter::new();
    w.write_vbyte(gaps.len() as u32);
    for g in gaps {
        w.write_gamma(g);
    }
    w.write_gamma(42);
    let mut r = BitsReader::new(w.finish()).unwrap();
    assert_eq!(r.read_vbyte_gamma_gap_vector().unwrap(), [5, 6, 7, 14, 114, 115]);
    // exactly the vector was consumed
    assert_eq!(r.read_gamma().unwrap(), 42);
}
