use rts::sprite_sheet::{SpriteRef, SpriteRefError};

#[test]
fn sprite_line_with_five_fields_parses() {
    let s = SpriteRef::parse("newt_gingrich 0 32 16 +24").unwrap();
    assert_eq!(s.name, "newt_gingrich");
    assert_eq!((s.offset_x, s.offset_y, s.width, s.height), (0, 32, 16, 24));
}

#[test]
fn sprite_line_through_from_str() {
    let s: SpriteRef = "tree 4294967295 1 2 3".parse().unwrap();
    assert_eq!(s.name, "tree");
    assert_eq!(s.offset_x, u32::MAX);
}

#[test]
fn sprite_name_keeps_non_ascii_text() {
    let s = SpriteRef::parse("café 1 2 3 4").unwrap();
    assert_eq!(s.name, "café");
}

#[test]
fn sprite_line_with_wrong_field_count_is_rejected() {
    assert_eq!(SpriteRef::parse("a 1 2 3").err(), Some(SpriteRefError::WrongFieldCount));
    assert_eq!(SpriteRef::parse("a 1 2 3 4 5").err(), Some(SpriteRefError::WrongFieldCount));
    assert_eq!(SpriteRef::parse("a  1 2 3").err(), Some(SpriteRefError::BadNumber));
    assert_eq!(SpriteRef::parse("").err(), Some(SpriteRefError::WrongFieldCount));
}

#[test]
fn sprite_line_with_bad_number_is_rejected() {
    assert_eq!(SpriteRef::parse("a 1 2 3 x").err(), Some(SpriteRefError::BadNumber));
    assert_eq!(SpriteRef::parse("a 1 2 3 4294967296").err(), Some(SpriteRefError::BadNumber));
    assert_eq!(SpriteRef::parse("a -1 2 3 4").err(), Some(SpriteRefError::BadNumber));
    assert_eq!(SpriteRef::parse("a + 2 3 4").err(), Some(SpriteRefError::BadNumber));
    assert_eq!(SpriteRef::parse("a 1 2 3 ").err(), Some(SpriteRefError::BadNumber));
}

#[test]
fn sprite_count_line() {
    assert_eq!(rts::sprite_sheet::parse_count("12"), Some(12));
    assert_eq!(rts::sprite_sheet::parse_count("+0"), Some(0));
    assert_eq!(rts::sprite_sheet::parse_count("12 "), None);
    assert_eq!(rts::sprite_sheet::parse_count(""), None);
}

use rts::sprite_sheet::{parse_sheet, SheetError};

#[test]
fn sheet_with_image_count_and_sprites() {
    let (image, sprites) = parse_sheet("sheet.png\r\n2\nnewt 0 0 32 32\ntree 32 0 16 48\nextra line\n").unwrap();
    assert_eq!(image, "sheet.png");
    assert_eq!(sprites.len(), 2);
    assert_eq!(sprites[0].name, "newt");
    assert_eq!((sprites[1].offset_x, sprites[1].height), (32, 48));
}

#[test]
fn sheet_with_no_sprites() {
    let (image, sprites) = parse_sheet("img.png\n0").unwrap();
    assert_eq!(image, "img.png");
    assert!(sprites.is_empty());
}

#[test]
fn sheet_errors() {
    assert_eq!(parse_sheet("").err(), Some(SheetError::MissingImagePath));
    assert_eq!(parse_sheet("img.png\n").err(), Some(SheetError::MissingCount));
    assert_eq!(parse_sheet("img.png\ntwo\n").err(), Some(SheetError::BadCount));
    assert_eq!(parse_sheet("img.png\n2\na 1 2 3 4\n").err(), Some(SheetError::TooFewSprites));
    assert_eq!(
        parse_sheet("img.png\n2\na 1 2 3\nb 1 2 3 4\n").err(),
        Some(SheetError::BadSprite(rts::sprite_sheet::SpriteRefError::WrongFieldCount))
    );
}
