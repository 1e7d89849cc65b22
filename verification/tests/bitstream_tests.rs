use rustyzip::bitstream::{bitstr_to_value, value_to_bitstr, BitBuf, BitReader, BitWriter};
use rustyzip::stream::{MemReader, MemWriter};

#[test]
fn test_bitstr_to_value() {
    assert_eq!(bitstr_to_value("11010001"), 0xd1);
    assert_eq!(bitstr_to_value("0"), 0);
    assert_eq!(bitstr_to_value("1"), 1);
    assert_eq!(bitstr_to_value("10"), 2);
    assert_eq!(bitstr_to_value("11"), 3);
    assert_eq!(bitstr_to_value("1111"), 0x0F);
    assert_eq!(bitstr_to_value("1111111100001111"), 0xFF0F);
    assert_eq!(bitstr_to_value("1111111100001110"), 0xFF0E);
}

#[test]
fn test_value_to_bitstr() {
    assert_eq!(value_to_bitstr(0xd1), "11010001");
    assert_eq!(value_to_bitstr(0), "0");
    assert_eq!(value_to_bitstr(1), "1");
    assert_eq!(value_to_bitstr(2), "10");
    assert_eq!(value_to_bitstr(3), "11");
    assert_eq!(value_to_bitstr(0x0F), "1111");
    assert_eq!(value_to_bitstr(0xFF0F), "1111111100001111");
    assert_eq!(value_to_bitstr(0xFF0E), "1111111100001110");
    for n in 0u32..16 {
        let s = value_to_bitstr(n);
        let v = bitstr_to_value(&s);
        assert_eq!(n, v);
    }
}

#[test]
fn test_read_lsb() {
    // 11010001 11010001 00000000 11111111
    let mut mr = MemReader::new(vec![0xd1, 0xd1, 0x00, 0xff]);
    let mut bb = BitBuf::new(true);
    assert_eq!(bb.read_bits(8, &mut mr).unwrap(), bitstr_to_value("11010001"));
    assert_eq!(bb.read_bits(2, &mut mr).unwrap(), bitstr_to_value("01"));
    assert_eq!(bb.read_bits(2, &mut mr).unwrap(), bitstr_to_value("00"));
    assert_eq!(bb.read_bits(3, &mut mr).unwrap(), bitstr_to_value("101"));
    assert_eq!(bb.read_bits(1, &mut mr).unwrap(), bitstr_to_value("1"));

    let mut mr = MemReader::new(vec![0xd1, 0xd1, 0x00, 0xff]);
    let mut bb = BitBuf::new(true);
    for expect in ["1", "0", "0", "0", "1", "0", "1", "1", "1", "0", "0"] {
        assert_eq!(bb.read_bits(1, &mut mr).unwrap(), bitstr_to_value(expect));
    }

    let mut mr = MemReader::new(vec![0xd1, 0xd1, 0x00, 0xff]);
    let mut bb = BitBuf::new(true);
    for expect in ["01", "00", "01", "11", "01", "00", "01", "11"] {
        assert_eq!(bb.read_bits(2, &mut mr).unwrap(), bitstr_to_value(expect));
    }

    let mut mr = MemReader::new(vec![0xd1, 0xd1, 0x00, 0xff]);
    let mut bb = BitBuf::new(true);
    for expect in ["001", "010", "111", "000", "101"] {
        assert_eq!(bb.read_bits(3, &mut mr).unwrap(), bitstr_to_value(expect));
    }

    let mut mr = MemReader::new(vec![0xd1, 0xd1, 0x00, 0xff]);
    let mut bb = BitBuf::new(true);
    for expect in ["0001", "1101", "0001", "1101"] {
        assert_eq!(bb.read_bits(4, &mut mr).unwrap(), bitstr_to_value(expect));
    }

    let mut mr = MemReader::new(vec![0xd1, 0xd1, 0x00, 0xff]);
    let mut bb = BitBuf::new(true);
    for expect in ["10001", "01110", "10100"] {
        assert_eq!(bb.read_bits(5, &mut mr).unwrap(), bitstr_to_value(expect));
    }

    let mut mr = MemReader::new(vec![0xd1, 0xd1, 0x00, 0xff]);
    let mut bb = BitBuf::new(true);
    assert_eq!(bb.read_bits(9, &mut mr).unwrap(), bitstr_to_value("111010001"));
    assert_eq!(bb.read_bits(9, &mut mr).unwrap(), bitstr_to_value("001101000"));

    let mut mr = MemReader::new(vec![0xd1, 0xd1, 0x00, 0xff]);
    let mut bb = BitBuf::new(true);
    assert_eq!(bb.read_bits(10, &mut mr).unwrap(), bitstr_to_value("0111010001"));
    assert_eq!(bb.read_bits(10, &mut mr).unwrap(), bitstr_to_value("0000110100"));

    let mut mr = MemReader::new(vec![0xd1, 0xd1, 0x00, 0xff]);
    let mut bb = BitBuf::new(true);
    assert_eq!(bb.read_bits(11, &mut mr).unwrap(), bitstr_to_value("00111010001"));
    assert_eq!(bb.read_bits(11, &mut mr).unwrap(), bitstr_to_value("00000011010"));

    let mut mr = MemReader::new(vec![0xd1, 0xd1, 0x00, 0xff]);
    let mut bb = BitBuf::new(true);
    assert_eq!(bb.read_bits(12, &mut mr).unwrap(), bitstr_to_value("000111010001"));
    assert_eq!(bb.read_bits(12, &mut mr).unwrap(), bitstr_to_value("000000001101"));

    let mut mr = MemReader::new(vec![0xd1, 0xd1, 0x00, 0xff]);
    let mut bb = BitBuf::new(true);
    assert_eq!(bb.read_bits(13, &mut mr).unwrap(), bitstr_to_value("1000111010001"));
    assert_eq!(bb.read_bits(13, &mut mr).unwrap(), bitstr_to_value("1100000000110"));

    let mut mr = MemReader::new(vec![0xd1, 0xd1, 0x00, 0xff]);
    let mut bb = BitBuf::new(true);
    assert_eq!(bb.read_bits(14, &mut mr).unwrap(), bitstr_to_value("01000111010001"));
    assert_eq!(bb.read_bits(14, &mut mr).unwrap(), bitstr_to_value("11110000000011"));

    let mut mr = MemReader::new(vec![0xd1, 0xd1, 0x00, 0xff]);
    let mut bb = BitBuf::new(true);
    assert_eq!(bb.read_bits(15, &mut mr).unwrap(), bitstr_to_value("101000111010001"));
    assert_eq!(bb.read_bits(15, &mut mr).unwrap(), bitstr_to_value("111111000000001"));

    let mut mr = MemReader::new(vec![0xd1, 0xd1, 0x00, 0xff]);
    let mut bb = BitBuf::new(true);
    assert_eq!(bb.read_bits(16, &mut mr).unwrap(), bitstr_to_value("1101000111010001"));
    assert_eq!(bb.read_bits(16, &mut mr).unwrap(), bitstr_to_value("1111111100000000"));

    let mut mr = MemReader::new(vec![0xd1, 0xd1, 0x00, 0xff]);
    let mut bb = BitBuf::new(true);
    assert_eq!(bb.read_bits(17, &mut mr).unwrap(), bitstr_to_value("01101000111010001"));
    assert_eq!(bb.read_bits(15, &mut mr).unwrap(), bitstr_to_value("111111110000000"));
    assert_eq!(bb.read_bits(1, &mut mr), None);
    assert_eq!(bb.read_bits(2, &mut mr), None);
    assert_eq!(bb.read_bits(3, &mut mr), None);
}

#[test]
fn test_read_msb() {
    let mut mr = MemReader::new(vec![0xd1, 0xd1, 0x00, 0xff]);
    let mut bb = BitBuf::new(false);
    assert_eq!(bb.read_bits(8, &mut mr).unwrap(), bitstr_to_value("11010001"));
    assert_eq!(bb.read_bits(2, &mut mr).unwrap(), bitstr_to_value("11"));
    assert_eq!(bb.read_bits(2, &mut mr).unwrap(), bitstr_to_value("01"));
    assert_eq!(bb.read_bits(3, &mut mr).unwrap(), bitstr_to_value("000"));
    assert_eq!(bb.read_bits(1, &mut mr).unwrap(), bitstr_to_value("1"));

    let mut mr = MemReader::new(vec![0xd1, 0xd1, 0x00, 0xff]);
    let mut bb = BitBuf::new(false);
    for expect in ["1", "1", "0", "1", "0", "0", "0", "1", "1", "1", "0"] {
        assert_eq!(bb.read_bits(1, &mut mr).unwrap(), bitstr_to_value(expect));
    }

    let mut mr = MemReader::new(vec![0xd1, 0xd1, 0x00, 0xff]);
    let mut bb = BitBuf::new(false);
    for expect in ["11", "01", "00", "01", "11", "01", "00", "01"] {
        assert_eq!(bb.read_bits(2, &mut mr).unwrap(), bitstr_to_value(expect));
    }

    let mut mr = MemReader::new(vec![0xd1, 0xd1, 0x00, 0xff]);
    let mut bb = BitBuf::new(false);
    for expect in ["110", "100", "011", "101", "000"] {
        assert_eq!(bb.read_bits(3, &mut mr).unwrap(), bitstr_to_value(expect));
    }

    let mut mr = MemReader::new(vec![0xd1, 0xd1, 0x00, 0xff]);
    let mut bb = BitBuf::new(false);
    for expect in ["1101", "0001", "1101", "0001"] {
        assert_eq!(bb.read_bits(4, &mut mr).unwrap(), bitstr_to_value(expect));
    }

    let mut mr = MemReader::new(vec![0xd1, 0xd1, 0x00, 0xff]);
    let mut bb = BitBuf::new(false);
    for expect in ["11010", "00111", "01000"] {
        assert_eq!(bb.read_bits(5, &mut mr).unwrap(), bitstr_to_value(expect));
    }

    let mut mr = MemReader::new(vec![0xd1, 0xd1, 0x00, 0xff]);
    let mut bb = BitBuf::new(false);
    assert_eq!(bb.read_bits(9, &mut mr).unwrap(), bitstr_to_value("110100011"));
    assert_eq!(bb.read_bits(9, &mut mr).unwrap(), bitstr_to_value("101000100"));

    let mut mr = MemReader::new(vec![0xd1, 0xd1, 0x00, 0xff]);
    let mut bb = BitBuf::new(false);
    assert_eq!(bb.read_bits(10, &mut mr).unwrap(), bitstr_to_value("1101000111"));
    assert_eq!(bb.read_bits(10, &mut mr).unwrap(), bitstr_to_value("0100010000"));

    let mut mr = MemReader::new(vec![0xd1, 0xd1, 0x00, 0xff]);
    let mut bb = BitBuf::new(false);
    assert_eq!(bb.read_bits(11, &mut mr).unwrap(), bitstr_to_value("11010001110"));
    assert_eq!(bb.read_bits(11, &mut mr).unwrap(), bitstr_to_value("10001000000"));

    let mut mr = MemReader::new(vec![0xd1, 0xd1, 0x00, 0xff]);
    let mut bb = BitBuf::new(false);
    assert_eq!(bb.read_bits(12, &mut mr).unwrap(), bitstr_to_value("110100011101"));
    assert_eq!(bb.read_bits(12, &mut mr).unwrap(), bitstr_to_value("000100000000"));

    let mut mr = MemReader::new(vec![0xd1, 0xd1, 0x00, 0xff]);
    let mut bb = BitBuf::new(false);
    assert_eq!(bb.read_bits(13, &mut mr).unwrap(), bitstr_to_value("1101000111010"));
    assert_eq!(bb.read_bits(13, &mut mr).unwrap(), bitstr_to_value("0010000000011"));

    let mut mr = MemReader::new(vec![0xd1, 0xd1, 0x00, 0xff]);
    let mut bb = BitBuf::new(false);
    assert_eq!(bb.read_bits(14, &mut mr).unwrap(), bitstr_to_value("11010001110100"));
    assert_eq!(bb.read_bits(14, &mut mr).unwrap(), bitstr_to_value("01000000001111"));

    let mut mr = MemReader::new(vec![0xd1, 0xd1, 0x00, 0xff]);
    let mut bb = BitBuf::new(false);
    assert_eq!(bb.read_bits(15, &mut mr).unwrap(), bitstr_to_value("110100011101000"));
    assert_eq!(bb.read_bits(15, &mut mr).unwrap(), bitstr_to_value("100000000111111"));

    let mut mr = MemReader::new(vec![0xd1, 0xd1, 0x00, 0xff]);
    let mut bb = BitBuf::new(false);
    assert_eq!(bb.read_bits(16, &mut mr).unwrap(), bitstr_to_value("1101000111010001"));
    assert_eq!(bb.read_bits(16, &mut mr).unwrap(), bitstr_to_value("0000000011111111"));

    let mut mr = MemReader::new(vec![0xd1, 0xd1, 0x00, 0xff]);
    let mut bb = BitBuf::new(false);
    assert_eq!(bb.read_bits(17, &mut mr).unwrap(), bitstr_to_value("11010001110100010"));
    assert_eq!(bb.read_bits(15, &mut mr).unwrap(), bitstr_to_value("000000011111111"));
    assert_eq!(bb.read_bits(1, &mut mr), None);
    assert_eq!(bb.read_bits(2, &mut mr), None);
    assert_eq!(bb.read_bits(3, &mut mr), None);
}

#[test]
fn test_reader_lsb() {
    let mut br = BitReader::new(MemReader::new(vec![0xd1, 0xd1, 0x00, 0xff]), true);
    assert_eq!(br.read_bits(8).unwrap(), bitstr_to_value("11010001"));
    assert_eq!(br.read_bits(2).unwrap(), bitstr_to_value("01"));
    assert_eq!(br.read_bits(2).unwrap(), bitstr_to_value("00"));
    assert_eq!(br.read_bits(3).unwrap(), bitstr_to_value("101"));
    assert_eq!(br.read_bits(1).unwrap(), bitstr_to_value("1"));

    let mut br = BitReader::new(MemReader::new(vec![0xd1, 0xd1, 0x00, 0xff]), true);
    for expect in ["1", "0", "0", "0", "1", "0", "1", "1", "1", "0", "0"] {
        assert_eq!(br.read_bits(1).unwrap(), bitstr_to_value(expect));
    }

    let mut br = BitReader::new(MemReader::new(vec![0xd1, 0xd1, 0x00, 0xff]), true);
    for expect in ["01", "00", "01", "11", "01", "00", "01", "11"] {
        assert_eq!(br.read_bits(2).unwrap(), bitstr_to_value(expect));
    }

    let mut br = BitReader::new(MemReader::new(vec![0xd1, 0xd1, 0x00, 0xff]), true);
    for expect in ["001", "010", "111", "000", "101"] {
        assert_eq!(br.read_bits(3).unwrap(), bitstr_to_value(expect));
    }

    let mut br = BitReader::new(MemReader::new(vec![0xd1, 0xd1, 0x00, 0xff]), true);
    for expect in ["0001", "1101", "0001", "1101"] {
        assert_eq!(br.read_bits(4).unwrap(), bitstr_to_value(expect));
    }

    let mut br = BitReader::new(MemReader::new(vec![0xd1, 0xd1, 0x00, 0xff]), true);
    for expect in ["10001", "01110", "10100"] {
        assert_eq!(br.read_bits(5).unwrap(), bitstr_to_value(expect));
    }

    let mut br = BitReader::new(MemReader::new(vec![0xd1, 0xd1, 0x00, 0xff]), true);
    assert_eq!(br.read_bits(9).unwrap(), bitstr_to_value("111010001"));
    assert_eq!(br.read_bits(9).unwrap(), bitstr_to_value("001101000"));

    let mut br = BitReader::new(MemReader::new(vec![0xd1, 0xd1, 0x00, 0xff]), true);
    assert_eq!(br.read_bits(10).unwrap(), bitstr_to_value("0111010001"));
    assert_eq!(br.read_bits(10).unwrap(), bitstr_to_value("0000110100"));

    let mut br = BitReader::new(MemReader::new(vec![0xd1, 0xd1, 0x00, 0xff]), true);
    assert_eq!(br.read_bits(11).unwrap(), bitstr_to_value("00111010001"));
    assert_eq!(br.read_bits(11).unwrap(), bitstr_to_value("00000011010"));

    let mut br = BitReader::new(MemReader::new(vec![0xd1, 0xd1, 0x00, 0xff]), true);
    assert_eq!(br.read_bits(12).unwrap(), bitstr_to_value("000111010001"));
    assert_eq!(br.read_bits(12).unwrap(), bitstr_to_value("000000001101"));

    let mut br = BitReader::new(MemReader::new(vec![0xd1, 0xd1, 0x00, 0xff]), true);
    assert_eq!(br.read_bits(13).unwrap(), bitstr_to_value("1000111010001"));
    assert_eq!(br.read_bits(13).unwrap(), bitstr_to_value("1100000000110"));

    let mut br = BitReader::new(MemReader::new(vec![0xd1, 0xd1, 0x00, 0xff]), true);
    assert_eq!(br.read_bits(14).unwrap(), bitstr_to_value("01000111010001"));
    assert_eq!(br.read_bits(14).unwrap(), bitstr_to_value("11110000000011"));

    let mut br = BitReader::new(MemReader::new(vec![0xd1, 0xd1, 0x00, 0xff]), true);
    assert_eq!(br.read_bits(15).unwrap(), bitstr_to_value("101000111010001"));
    assert_eq!(br.read_bits(15).unwrap(), bitstr_to_value("111111000000001"));

    let mut br = BitReader::new(MemReader::new(vec![0xd1, 0xd1, 0x00, 0xff]), true);
    assert_eq!(br.read_bits(16).unwrap(), bitstr_to_value("1101000111010001"));
    assert_eq!(br.read_bits(16).unwrap(), bitstr_to_value("1111111100000000"));

    let mut br = BitReader::new(MemReader::new(vec![0xd1, 0xd1, 0x00, 0xff]), true);
    assert_eq!(br.read_bits(17).unwrap(), bitstr_to_value("01101000111010001"));
    assert_eq!(br.read_bits(15).unwrap(), bitstr_to_value("111111110000000"));
    assert_eq!(br.read_bits(1), None);
    assert_eq!(br.read_bits(2), None);
    assert_eq!(br.read_bits(3), None);
}

#[test]
fn test_reader_msb() {
    let mut br = BitReader::new(MemReader::new(vec![0xd1, 0xd1, 0x00, 0xff]), false);
    assert_eq!(br.read_bits(8).unwrap(), bitstr_to_value("11010001"));
    assert_eq!(br.read_bits(2).unwrap(), bitstr_to_value("11"));
    assert_eq!(br.read_bits(2).unwrap(), bitstr_to_value("01"));
    assert_eq!(br.read_bits(3).unwrap(), bitstr_to_value("000"));
    assert_eq!(br.read_bits(1).unwrap(), bitstr_to_value("1"));

    let mut br = BitReader::new(MemReader::new(vec![0xd1, 0xd1, 0x00, 0xff]), false);
    for expect in ["1", "1", "0", "1", "0", "0", "0", "1", "1", "1", "0"] {
        assert_eq!(br.read_bits(1).unwrap(), bitstr_to_value(expect));
    }

    let mut br = BitReader::new(MemReader::new(vec![0xd1, 0xd1, 0x00, 0xff]), false);
    for expect in ["11", "01", "00", "01", "11", "01", "00", "01"] {
        assert_eq!(br.read_bits(2).unwrap(), bitstr_to_value(expect));
    }

    let mut br = BitReader::new(MemReader::new(vec![0xd1, 0xd1, 0x00, 0xff]), false);
    for expect in ["110", "100", "011", "101", "000"] {
        assert_eq!(br.read_bits(3).unwrap(), bitstr_to_value(expect));
    }

    let mut br = BitReader::new(MemReader::new(vec![0xd1, 0xd1, 0x00, 0xff]), false);
    for expect in ["1101", "0001", "1101", "0001"] {
        assert_eq!(br.read_bits(4).unwrap(), bitstr_to_value(expect));
    }

    let mut br = BitReader::new(MemReader::new(vec![0xd1, 0xd1, 0x00, 0xff]), false);
    for expect in ["11010", "00111", "01000"] {
        assert_eq!(br.read_bits(5).unwrap(), bitstr_to_value(expect));
    }

    let mut br = BitReader::new(MemReader::new(vec![0xd1, 0xd1, 0x00, 0xff]), false);
    assert_eq!(br.read_bits(9).unwrap(), bitstr_to_value("110100011"));
    assert_eq!(br.read_bits(9).unwrap(), bitstr_to_value("101000100"));

    let mut br = BitReader::new(MemReader::new(vec![0xd1, 0xd1, 0x00, 0xff]), false);
    assert_eq!(br.read_bits(10).unwrap(), bitstr_to_value("1101000111"));
    assert_eq!(br.read_bits(10).unwrap(), bitstr_to_value("0100010000"));

    let mut br = BitReader::new(MemReader::new(vec![0xd1, 0xd1, 0x00, 0xff]), false);
    assert_eq!(br.read_bits(11).unwrap(), bitstr_to_value("11010001110"));
    assert_eq!(br.read_bits(11).unwrap(), bitstr_to_value("10001000000"));

    let mut br = BitReader::new(MemReader::new(vec![0xd1, 0xd1, 0x00, 0xff]), false);
    assert_eq!(br.read_bits(12).unwrap(), bitstr_to_value("110100011101"));
    assert_eq!(br.read_bits(12).unwrap(), bitstr_to_value("000100000000"));

    let mut br = BitReader::new(MemReader::new(vec![0xd1, 0xd1, 0x00, 0xff]), false);
    assert_eq!(br.read_bits(13).unwrap(), bitstr_to_value("1101000111010"));
    assert_eq!(br.read_bits(13).unwrap(), bitstr_to_value("0010000000011"));

    let mut br = BitReader::new(MemReader::new(vec![0xd1, 0xd1, 0x00, 0xff]), false);
    assert_eq!(br.read_bits(14).unwrap(), bitstr_to_value("11010001110100"));
    assert_eq!(br.read_bits(14).unwrap(), bitstr_to_value("01000000001111"));

    let mut br = BitReader::new(MemReader::new(vec![0xd1, 0xd1, 0x00, 0xff]), false);
    assert_eq!(br.read_bits(15).unwrap(), bitstr_to_value("110100011101000"));
    assert_eq!(br.read_bits(15).unwrap(), bitstr_to_value("100000000111111"));

    let mut br = BitReader::new(MemReader::new(vec![0xd1, 0xd1, 0x00, 0xff]), false);
    assert_eq!(br.read_bits(16).unwrap(), bitstr_to_value("1101000111010001"));
    assert_eq!(br.read_bits(16).unwrap(), bitstr_to_value("0000000011111111"));

    let mut br = BitReader::new(MemReader::new(vec![0xd1, 0xd1, 0x00, 0xff]), false);
    assert_eq!(br.read_bits(17).unwrap(), bitstr_to_value("11010001110100010"));
    assert_eq!(br.read_bits(15).unwrap(), bitstr_to_value("000000011111111"));
    assert_eq!(br.read_bits(1), None);
    assert_eq!(br.read_bits(2), None);
    assert_eq!(br.read_bits(3), None);
}

#[test]
fn test_write_lsb() {
    let mut bw = BitWriter::new(MemWriter::new(), true);
    bw.write_bits(8, bitstr_to_value("11010001"));
    bw.write_bits(2, bitstr_to_value("01"));
    bw.write_bits(2, bitstr_to_value("00"));
    bw.write_bits(3, bitstr_to_value("101"));
    bw.write_bits(1, bitstr_to_value("1"));
    assert_eq!(bw.inner().inner(), vec![0xd1u8, 0xd1u8]);

    let mut bw = BitWriter::new(MemWriter::new(), true);
    for bit in [1, 0, 0, 0, 1, 0, 1, 1, 1, 0, 0] {
        bw.write_bits(1, bit);
    }
    bw.flush_bits();
    assert_eq!(
        bw.inner().inner(),
        vec![bitstr_to_value("11010001") as u8, bitstr_to_value("001") as u8]
    );

    let mut bw = BitWriter::new(MemWriter::new(), true);
    for s in ["01", "00", "01", "11", "01", "00", "01", "11"] {
        bw.write_bits(2, bitstr_to_value(s));
    }
    bw.flush_bits();
    assert_eq!(
        bw.inner().inner(),
        vec![bitstr_to_value("11010001") as u8, bitstr_to_value("11010001") as u8]
    );

    let mut bw = BitWriter::new(MemWriter::new(), true);
    for s in ["001", "010", "111", "000", "101"] {
        bw.write_bits(3, bitstr_to_value(s));
    }
    bw.flush_bits();
    assert_eq!(
        bw.inner().inner(),
        vec![bitstr_to_value("11010001") as u8, bitstr_to_value("1010001") as u8]
    );

    let mut bw = BitWriter::new(MemWriter::new(), true);
    for s in ["0001", "1101", "0001", "1101"] {
        bw.write_bits(4, bitstr_to_value(s));
    }
    bw.flush_bits();
    assert_eq!(
        bw.inner().inner(),
        vec![bitstr_to_value("11010001") as u8, bitstr_to_value("11010001") as u8]
    );

    let mut bw = BitWriter::new(MemWriter::new(), true);
    bw.write_bits(9, bitstr_to_value("111010001"));
    bw.write_bits(9, bitstr_to_value("001101000"));
    bw.flush_bits();
    assert_eq!(
        bw.inner().inner(),
        vec![
            bitstr_to_value("11010001") as u8,
            bitstr_to_value("11010001") as u8,
            bitstr_to_value("00") as u8
        ]
    );

    let mut bw = BitWriter::new(MemWriter::new(), true);
    bw.write_bits(14, bitstr_to_value("01000111010001"));
    bw.write_bits(14, bitstr_to_value("11110000000011"));
    bw.flush_bits();
    assert_eq!(
        bw.inner().inner(),
        vec![
            bitstr_to_value("11010001") as u8,
            bitstr_to_value("11010001") as u8,
            bitstr_to_value("00000000") as u8,
            bitstr_to_value("1111") as u8
        ]
    );

    let mut bw = BitWriter::new(MemWriter::new(), true);
    bw.write_bits(17, bitstr_to_value("01101000111010001"));
    bw.write_bits(15, bitstr_to_value("111111110000000"));
    bw.flush_bits();
    assert_eq!(
        bw.inner().inner(),
        vec![
            bitstr_to_value("11010001") as u8,
            bitstr_to_value("11010001") as u8,
            bitstr_to_value("00000000") as u8,
            bitstr_to_value("11111111") as u8
        ]
    );
}

#[test]
fn test_write_msb() {
    let mut bw = BitWriter::new(MemWriter::new(), false);
    bw.write_bits(8, bitstr_to_value("11010001"));
    bw.write_bits(2, bitstr_to_value("11"));
    bw.write_bits(2, bitstr_to_value("01"));
    bw.write_bits(3, bitstr_to_value("000"));
    bw.write_bits(1, bitstr_to_value("1"));
    assert_eq!(bw.inner().inner(), vec![0xd1u8, 0xd1u8]);

    let mut bw = BitWriter::new(MemWriter::new(), false);
    for bit in [1, 1, 0, 1, 0, 0, 0, 1, 1, 1, 0] {
        bw.write_bits(1, bit);
    }
    bw.flush_bits();
    assert_eq!(
        bw.inner().inner(),
        vec![bitstr_to_value("11010001") as u8, bitstr_to_value("11000000") as u8]
    );

    let mut bw = BitWriter::new(MemWriter::new(), false);
    for s in ["11", "01", "00", "01", "11", "01", "00", "01"] {
        bw.write_bits(2, bitstr_to_value(s));
    }
    bw.flush_bits();
    assert_eq!(
        bw.inner().inner(),
        vec![bitstr_to_value("11010001") as u8, bitstr_to_value("11010001") as u8]
    );

    let mut bw = BitWriter::new(MemWriter::new(), false);
    for s in ["110", "100", "011", "101", "000"] {
        bw.write_bits(3, bitstr_to_value(s));
    }
    bw.flush_bits();
    assert_eq!(
        bw.inner().inner(),
        vec![bitstr_to_value("11010001") as u8, bitstr_to_value("11010000") as u8]
    );

    let mut bw = BitWriter::new(MemWriter::new(), false);
    for s in ["1101", "0001", "1101", "0001"] {
        bw.write_bits(4, bitstr_to_value(s));
    }
    bw.flush_bits();
    assert_eq!(
        bw.inner().inner(),
        vec![bitstr_to_value("11010001") as u8, bitstr_to_value("11010001") as u8]
    );

    let mut bw = BitWriter::new(MemWriter::new(), false);
    bw.write_bits(9, bitstr_to_value("110100011"));
    bw.write_bits(9, bitstr_to_value("101000100"));
    bw.flush_bits();
    assert_eq!(
        bw.inner().inner(),
        vec![
            bitstr_to_value("11010001") as u8,
            bitstr_to_value("11010001") as u8,
            bitstr_to_value("00000000") as u8
        ]
    );

    let mut bw = BitWriter::new(MemWriter::new(), false);
    bw.write_bits(14, bitstr_to_value("11010001110100"));
    bw.write_bits(14, bitstr_to_value("01000000001111"));
    bw.flush_bits();
    assert_eq!(
        bw.inner().inner(),
        vec![
            bitstr_to_value("11010001") as u8,
            bitstr_to_value("11010001") as u8,
            bitstr_to_value("00000000") as u8,
            bitstr_to_value("11110000") as u8
        ]
    );

    let mut bw = BitWriter::new(MemWriter::new(), false);
    bw.write_bits(17, bitstr_to_value("11010001110100010"));
    bw.write_bits(15, bitstr_to_value("000000011111111"));
    bw.flush_bits();
    assert_eq!(
        bw.inner().inner(),
        vec![
            bitstr_to_value("11010001") as u8,
            bitstr_to_value("11010001") as u8,
            bitstr_to_value("00000000") as u8,
            bitstr_to_value("11111111") as u8
        ]
    );
}
