use ebml_writer::errors::TagWriterError;
use ebml_writer::TagWriter;
use ebml_writer::tags::{TagData, TagPosition};
use ebml_writer::tools::Vint;

/// Writes one whole tag with a new writer and hands back what came out.
fn written(id: u64, data: TagData) -> Vec<u8> {
    let mut writer = TagWriter::new();
    writer
        .write(TagPosition::FullTag(id, data))
        .expect("a whole tag is written")
        .expect("a whole tag with nothing open is handed out")
}

#[test]
fn write_ebml_tag() {
    let mut writer = TagWriter::new();
    let written = writer
        .write(TagPosition::FullTag(0x1a45dfa3, TagData::Master(Vec::new())))
        .expect("Error writing tag");

    let zero_size = 0u64.as_vint().expect("Error converting [0] to vint")[0];
    assert_eq!(Some(vec![0x1a, 0x45, 0xdf, 0xa3, zero_size]), written);
}

#[test]
fn empty_container_is_header_only() {
    assert_eq!(
        written(0x1a45dfa3, TagData::Master(Vec::new())),
        vec![0x1a, 0x45, 0xdf, 0xa3, 0x80]
    );
}

#[test]
fn unsigned_255_takes_one_octet() {
    assert_eq!(written(0x83, TagData::UnsignedInt(255)), vec![0x83, 0x81, 0xff]);
}

#[test]
fn unsigned_zero_takes_one_octet() {
    assert_eq!(written(0x83, TagData::UnsignedInt(0)), vec![0x83, 0x81, 0x00]);
}

#[test]
fn unsigned_256_takes_two_octets() {
    assert_eq!(written(0x83, TagData::UnsignedInt(256)), vec![0x83, 0x82, 0x01, 0x00]);
}

#[test]
fn unsigned_65535_takes_two_octets() {
    assert_eq!(written(0x83, TagData::UnsignedInt(65535)), vec![0x83, 0x82, 0xff, 0xff]);
}

#[test]
fn unsigned_65536_takes_four_octets() {
    assert_eq!(
        written(0x83, TagData::UnsignedInt(65536)),
        vec![0x83, 0x84, 0x00, 0x01, 0x00, 0x00]
    );
}

#[test]
fn unsigned_of_40_bits_takes_eight_octets() {
    assert_eq!(
        written(0x83, TagData::UnsignedInt(0x12_3456_789a)),
        vec![0x83, 0x88, 0x00, 0x00, 0x00, 0x12, 0x34, 0x56, 0x78, 0x9a]
    );
}

#[test]
fn unsigned_above_32_bits_takes_eight_octets() {
    assert_eq!(
        written(0x83, TagData::UnsignedInt(0x1_0000_0000)),
        vec![0x83, 0x88, 0x00, 0x00, 0x00, 0x01, 0x00, 0x00, 0x00, 0x00]
    );
    assert_eq!(
        written(0x83, TagData::UnsignedInt(0xffff_ffff)),
        vec![0x83, 0x84, 0xff, 0xff, 0xff, 0xff]
    );
    assert_eq!(
        written(0x83, TagData::UnsignedInt(u64::MAX)),
        vec![0x83, 0x88, 0xff, 0xff, 0xff, 0xff, 0xff, 0xff, 0xff, 0xff]
    );
}

#[test]
fn signed_numbers_take_the_narrowest_twos_complement_width() {
    assert_eq!(written(0x83, TagData::Integer(0)), vec![0x83, 0x81, 0x00]);
    assert_eq!(written(0x83, TagData::Integer(-1)), vec![0x83, 0x81, 0xff]);
    assert_eq!(written(0x83, TagData::Integer(127)), vec![0x83, 0x81, 0x7f]);
    assert_eq!(written(0x83, TagData::Integer(-128)), vec![0x83, 0x81, 0x80]);
    assert_eq!(written(0x83, TagData::Integer(128)), vec![0x83, 0x82, 0x00, 0x80]);
    assert_eq!(written(0x83, TagData::Integer(-129)), vec![0x83, 0x82, 0xff, 0x7f]);
    assert_eq!(written(0x83, TagData::Integer(32767)), vec![0x83, 0x82, 0x7f, 0xff]);
    assert_eq!(written(0x83, TagData::Integer(-32768)), vec![0x83, 0x82, 0x80, 0x00]);
    assert_eq!(
        written(0x83, TagData::Integer(32768)),
        vec![0x83, 0x84, 0x00, 0x00, 0x80, 0x00]
    );
    assert_eq!(
        written(0x83, TagData::Integer(-32769)),
        vec![0x83, 0x84, 0xff, 0xff, 0x7f, 0xff]
    );
    assert_eq!(
        written(0x83, TagData::Integer(i32::MIN as i64)),
        vec![0x83, 0x84, 0x80, 0x00, 0x00, 0x00]
    );
    assert_eq!(
        written(0x83, TagData::Integer(i32::MAX as i64 + 1)),
        vec![0x83, 0x88, 0x00, 0x00, 0x00, 0x00, 0x80, 0x00, 0x00, 0x00]
    );
    assert_eq!(
        written(0x83, TagData::Integer(i32::MIN as i64 - 1)),
        vec![0x83, 0x88, 0xff, 0xff, 0xff, 0xff, 0x7f, 0xff, 0xff, 0xff]
    );
    assert_eq!(
        written(0x83, TagData::Integer(i64::MIN)),
        vec![0x83, 0x88, 0x80, 0x00, 0x00, 0x00, 0x00, 0x00, 0x00, 0x00]
    );
    assert_eq!(
        written(0x83, TagData::Integer(i64::MAX)),
        vec![0x83, 0x88, 0x7f, 0xff, 0xff, 0xff, 0xff, 0xff, 0xff, 0xff]
    );
}

#[test]
fn signed_numbers_agree_with_to_be_bytes() {
    for value in [-5i64, 5, -300, 300, -70000, 70000, -5_000_000_000, 5_000_000_000] {
        let expected: Vec<u8> = if let Ok(n) = i8::try_from(value) {
            n.to_be_bytes().to_vec()
        } else if let Ok(n) = i16::try_from(value) {
            n.to_be_bytes().to_vec()
        } else if let Ok(n) = i32::try_from(value) {
            n.to_be_bytes().to_vec()
        } else {
            value.to_be_bytes().to_vec()
        };
        let out = written(0x83, TagData::Integer(value));
        assert_eq!(out[0], 0x83);
        assert_eq!(out[1], 0x80 | expected.len() as u8);
        assert_eq!(&out[2..], &expected[..]);
    }
}

#[test]
fn text_is_written_as_utf8_without_terminator() {
    assert_eq!(
        written(0x4282, TagData::Utf8(String::from("matroska"))),
        vec![0x42, 0x82, 0x88, b'm', b'a', b't', b'r', b'o', b's', b'k', b'a']
    );
    assert_eq!(
        written(0x4282, TagData::Utf8(String::from("é€"))),
        vec![0x42, 0x82, 0x85, 0xc3, 0xa9, 0xe2, 0x82, 0xac]
    );
    assert_eq!(written(0x4282, TagData::Utf8(String::new())), vec![0x42, 0x82, 0x80]);
}

#[test]
fn octets_are_written_as_they_are() {
    assert_eq!(
        written(0xa3, TagData::Binary(vec![0x00, 0xff, 0x10])),
        vec![0xa3, 0x83, 0x00, 0xff, 0x10]
    );
    assert_eq!(written(0xa3, TagData::Binary(Vec::new())), vec![0xa3, 0x80]);
}

#[test]
fn float_takes_eight_octets() {
    assert_eq!(
        written(0x4489, TagData::Float(1.5f64.to_bits())),
        vec![0x44, 0x89, 0x88, 0x3f, 0xf8, 0x00, 0x00, 0x00, 0x00, 0x00, 0x00]
    );
    let out = written(0x4489, TagData::Float((-0.1f64).to_bits()));
    assert_eq!(&out[..3], &[0x44, 0x89, 0x88]);
    assert_eq!(&out[3..], &(-0.1f64).to_be_bytes()[..]);
}

#[test]
fn size_of_128_octets_takes_a_two_octet_vint() {
    let out = written(0xa3, TagData::Binary(vec![7; 128]));
    assert_eq!(out.len(), 1 + 2 + 128);
    assert_eq!(&out[..3], &[0xa3, 0x40, 0x80]);
    assert!(out[3..].iter().all(|octet| *octet == 7));
    let out = written(0xa3, TagData::Binary(vec![7; 127]));
    assert_eq!(out.len(), 1 + 1 + 127);
    assert_eq!(&out[..2], &[0xa3, 0xff]);
}

#[test]
fn id_is_written_without_leading_zero_octets() {
    assert_eq!(written(0x80, TagData::Binary(vec![1])), vec![0x80, 0x81, 0x01]);
    assert_eq!(written(0x4286, TagData::Binary(vec![1])), vec![0x42, 0x86, 0x81, 0x01]);
    assert_eq!(
        written(0x0100_0000_0000_0001, TagData::Binary(vec![1])),
        vec![0x01, 0x00, 0x00, 0x00, 0x00, 0x00, 0x00, 0x01, 0x81, 0x01]
    );
    // An id of zero has no octets at all: only size and payload are written.
    assert_eq!(written(0, TagData::Binary(vec![1])), vec![0x81, 0x01]);
}

#[test]
fn container_holds_its_children_in_order() {
    let data = TagData::Master(vec![
        (0x4286, TagData::UnsignedInt(1)),
        (0x4282, TagData::Utf8(String::from("webm"))),
        (0xec, TagData::Master(Vec::new())),
    ]);
    assert_eq!(
        written(0x1a45dfa3, data),
        vec![
            0x1a, 0x45, 0xdf, 0xa3, 0x8d, // header, 13 octets follow
            0x42, 0x86, 0x81, 0x01, // first child
            0x42, 0x82, 0x84, b'w', b'e', b'b', b'm', // second child
            0xec, 0x80, // third child, an empty container
        ]
    );
}

#[test]
fn nested_stream_is_handed_out_once_at_the_outermost_close() {
    let (a, b, c) = (0x18538067u64, 0x1f43b675u64, 0xa3u64);
    let mut writer = TagWriter::new();
    assert_eq!(writer.write(TagPosition::StartTag(a)), Ok(None));
    assert_eq!(writer.write(TagPosition::StartTag(b)), Ok(None));
    assert_eq!(
        writer.write(TagPosition::FullTag(c, TagData::Binary(vec![1, 2, 3]))),
        Ok(None)
    );
    assert_eq!(writer.write(TagPosition::EndTag(b)), Ok(None));
    let out = writer.write(TagPosition::EndTag(a));
    assert_eq!(
        out,
        Ok(Some(vec![
            0x18, 0x53, 0x80, 0x67, 0x8a, // A, whose size covers all of B
            0x1f, 0x43, 0xb6, 0x75, 0x85, // B, whose size covers all of C
            0xa3, 0x83, 1, 2, 3, // C
        ]))
    );
}

#[test]
fn stream_and_whole_tag_give_the_same_octets() {
    let mut writer = TagWriter::new();
    assert_eq!(writer.write(TagPosition::StartTag(0x18538067)), Ok(None));
    assert_eq!(writer.write(TagPosition::FullTag(0xe7, TagData::UnsignedInt(1000))), Ok(None));
    assert_eq!(writer.write(TagPosition::StartTag(0xa0)), Ok(None));
    assert_eq!(writer.write(TagPosition::FullTag(0xa1, TagData::Binary(vec![9; 200]))), Ok(None));
    assert_eq!(writer.write(TagPosition::EndTag(0xa0)), Ok(None));
    let streamed = writer.write(TagPosition::EndTag(0x18538067)).unwrap().unwrap();

    let whole = written(
        0x18538067,
        TagData::Master(vec![
            (0xe7, TagData::UnsignedInt(1000)),
            (0xa0, TagData::Master(vec![(0xa1, TagData::Binary(vec![9; 200]))])),
        ]),
    );
    assert_eq!(streamed, whole);
}

#[test]
fn close_with_nothing_open_is_refused() {
    let mut writer = TagWriter::new();
    assert_eq!(
        writer.write(TagPosition::EndTag(0xa3)),
        Err(TagWriterError::UnexpectedClosingTag { tag_id: 0xa3, expected_id: None })
    );
    // The writer is as it was: a whole tag still comes out alone.
    assert_eq!(
        writer.write(TagPosition::FullTag(0xa3, TagData::Binary(vec![1]))),
        Ok(Some(vec![0xa3, 0x81, 0x01]))
    );
}

#[test]
fn close_with_another_id_is_refused_and_drops_the_open_tag() {
    let mut writer = TagWriter::new();
    assert_eq!(writer.write(TagPosition::StartTag(0xa0)), Ok(None));
    assert_eq!(writer.write(TagPosition::StartTag(0xa1)), Ok(None));
    assert_eq!(
        writer.write(TagPosition::EndTag(0xa2)),
        Err(TagWriterError::UnexpectedClosingTag { tag_id: 0xa2, expected_id: Some(0xa1) })
    );
    // 0xa1 is gone for good: closing it now meets 0xa0.
    assert_eq!(
        writer.write(TagPosition::EndTag(0xa1)),
        Err(TagWriterError::UnexpectedClosingTag { tag_id: 0xa1, expected_id: Some(0xa0) })
    );
    // And 0xa0 went with that.
    assert_eq!(
        writer.write(TagPosition::EndTag(0xa0)),
        Err(TagWriterError::UnexpectedClosingTag { tag_id: 0xa0, expected_id: None })
    );
}

#[test]
fn octets_buffered_under_a_dropped_tag_go_out_with_the_next_outermost_tag() {
    let mut writer = TagWriter::new();
    assert_eq!(writer.write(TagPosition::StartTag(0xa0)), Ok(None));
    assert_eq!(writer.write(TagPosition::FullTag(0xa1, TagData::UnsignedInt(1))), Ok(None));
    assert_eq!(
        writer.write(TagPosition::EndTag(0xa2)),
        Err(TagWriterError::UnexpectedClosingTag { tag_id: 0xa2, expected_id: Some(0xa0) })
    );
    assert_eq!(
        writer.write(TagPosition::FullTag(0xa3, TagData::UnsignedInt(2))),
        Ok(Some(vec![0xa1, 0x81, 0x01, 0xa3, 0x81, 0x02]))
    );
}

#[test]
fn each_outermost_tag_is_handed_out_once_and_leaves_nothing_buffered() {
    let mut writer = TagWriter::new();
    let mut handed_out = 0;
    let steps = vec![
        TagPosition::FullTag(0xa1, TagData::UnsignedInt(1)),
        TagPosition::StartTag(0xa0),
        TagPosition::FullTag(0xa1, TagData::UnsignedInt(2)),
        TagPosition::StartTag(0xa2),
        TagPosition::EndTag(0xa2),
        TagPosition::EndTag(0xa0),
        TagPosition::FullTag(0xa1, TagData::UnsignedInt(3)),
    ];
    let mut outputs = Vec::new();
    for step in steps {
        if let Some(octets) = writer.write(step).unwrap() {
            handed_out += 1;
            outputs.push(octets);
        }
    }
    assert_eq!(handed_out, 3);
    assert_eq!(outputs[0], vec![0xa1, 0x81, 0x01]);
    assert_eq!(outputs[1], vec![0xa0, 0x85, 0xa1, 0x81, 0x02, 0xa2, 0x80]);
    // Nothing of the earlier tags is left in what comes out last.
    assert_eq!(outputs[2], vec![0xa1, 0x81, 0x03]);
}

#[test]
fn whole_tag_inside_an_open_tag_is_not_handed_out() {
    let mut writer = TagWriter::new();
    assert_eq!(writer.write(TagPosition::StartTag(0xa0)), Ok(None));
    assert_eq!(
        writer.write(TagPosition::FullTag(
            0xa1,
            TagData::Master(vec![(0xa2, TagData::Integer(-2))])
        )),
        Ok(None)
    );
    assert_eq!(
        writer.write(TagPosition::EndTag(0xa0)),
        Ok(Some(vec![0xa0, 0x85, 0xa1, 0x83, 0xa2, 0x81, 0xfe]))
    );
}
