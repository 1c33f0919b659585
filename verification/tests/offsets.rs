use supramark_markdown::supramark::offsets::{
    position_for, position_from_abs, ref_position, root_position, sub_text_position, AstV2Ctx, OffsetIndex,
};
use supramark_markdown::{SourcePoint, SourcePosition};

fn pt(line: u32, column: u32, byte_offset: usize, utf16_offset: usize) -> SourcePoint {
    SourcePoint { line, column, byte_offset, utf16_offset }
}

#[test]
fn points_count_characters_and_utf16_units() {
    // a(0) 😄(1..5) b(5) \n(6) c(7), end at 8
    let src = "a\u{1F604}b\nc";
    let index = OffsetIndex::new(src);
    assert_eq!(index.point_at(0), pt(1, 1, 0, 0));
    assert_eq!(index.point_at(1), pt(1, 2, 1, 1));
    assert_eq!(index.point_at(5), pt(1, 3, 5, 3));
    assert_eq!(index.point_at(6), pt(1, 4, 6, 4));
    assert_eq!(index.point_at(7), pt(2, 1, 7, 5));
    assert_eq!(index.point_at(8), pt(2, 2, 8, 6));
}

#[test]
fn offset_inside_a_character_maps_to_its_start() {
    let src = "a\u{1F604}b";
    let index = OffsetIndex::new(src);
    assert_eq!(index.point_at(2), pt(1, 2, 1, 1));
    assert_eq!(index.point_at(4), pt(1, 2, 1, 1));
}

#[test]
fn offset_past_the_end_maps_to_the_end() {
    let index = OffsetIndex::new("ab");
    assert_eq!(index.point_at(2), pt(1, 3, 2, 2));
    assert_eq!(index.point_at(100), pt(1, 3, 2, 2));
}

#[test]
fn empty_source_has_one_point() {
    let index = OffsetIndex::new("");
    assert_eq!(index.point_at(0), pt(1, 1, 0, 0));
    assert_eq!(index.point_at(5), pt(1, 1, 0, 0));
}

#[test]
fn cjk_heading_positions() {
    let src = "# \u{6807}\u{9898} \u{1F604}\n\nHello";
    let index = OffsetIndex::new(src);
    // "# " then two 3-byte characters, a space, a 4-byte emoji, a newline.
    assert_eq!(index.point_at(2), pt(1, 3, 2, 2));
    assert_eq!(index.point_at(5), pt(1, 4, 5, 3));
    assert_eq!(index.point_at(9), pt(1, 6, 9, 5));
    assert_eq!(index.point_at(13), pt(1, 7, 13, 7));
    assert_eq!(index.point_at(15), pt(3, 1, 15, 9));
}

#[test]
fn root_position_spans_the_source() {
    let src = "ab\ncd";
    let index = OffsetIndex::new(src);
    let p = root_position(src, &index);
    assert_eq!(p.start, pt(1, 1, 0, 0));
    assert_eq!(p.end, pt(2, 3, 5, 5));
    let q = position_from_abs(&index, 1, 4);
    assert_eq!(q.start, pt(1, 2, 1, 1));
    assert_eq!(q.end, pt(2, 2, 4, 4));
}

#[test]
fn sub_text_position_needs_an_exact_span() {
    let src = "hello world";
    let index = OffsetIndex::new(src);
    let parent = SourcePosition { start: index.point_at(6), end: index.point_at(11) };
    let sub = sub_text_position(&index, Some(&parent), 5, 1, 3).unwrap();
    assert_eq!(sub.start.byte_offset, 7);
    assert_eq!(sub.end.byte_offset, 9);
    assert_eq!(sub_text_position(&index, Some(&parent), 4, 1, 3), None);
    assert_eq!(sub_text_position(&index, None, 5, 1, 3), None);
}

#[test]
fn ref_position_runs_from_bracket_to_past_close() {
    let src = "a [^x<b>y] z";
    let index = OffsetIndex::new(src);
    let open = SourcePosition { start: index.point_at(0), end: index.point_at(5) };
    let close = SourcePosition { start: index.point_at(8), end: index.point_at(12) };
    let p = ref_position(&index, Some(&open), 5, 2, Some(&close), 4, 1).unwrap();
    assert_eq!(p.start.byte_offset, 2);
    assert_eq!(p.end.byte_offset, 10);
    assert_eq!(ref_position(&index, Some(&open), 6, 2, Some(&close), 4, 1), None);
    assert_eq!(ref_position(&index, None, 5, 2, Some(&close), 4, 1), None);
}

#[test]
fn node_positions_add_the_fragment_offset() {
    let src = "\u{FEFF}abc";
    let index = OffsetIndex::new(src);
    let p = position_for(Some((0, 3)), &index, 3).unwrap();
    assert_eq!(p.start, pt(1, 2, 3, 1));
    assert_eq!(p.end, pt(1, 5, 6, 4));
    assert_eq!(position_for(None, &index, 3), None);
    let ctx = AstV2Ctx { index: &index, base_offset: 3 };
    assert_eq!(ctx.position(Some((1, 2))).unwrap().start.byte_offset, 4);
}
