use depth_drawer::{SpriteFinder, SpriteRect};

#[test]
fn finds_sprite_rectangles() {
    let f = SpriteFinder::new([350, 407], [50, 37]);
    assert_eq!(f.sheet_size(), [350, 407]);
    assert_eq!(f.find([0, 0]), Ok(SpriteRect { x: 0, y: 0, w: 50, h: 37 }));
    assert_eq!(f.find([2, 1]), Ok(SpriteRect { x: 100, y: 37, w: 50, h: 37 }));
    assert_eq!(f.find([7, 11]), Ok(SpriteRect { x: 350, y: 407, w: 50, h: 37 }));
}

#[test]
fn refuses_coordinates_past_the_sheet() {
    let f = SpriteFinder::new([350, 407], [50, 37]);
    assert_eq!(f.find([8, 0]), Err(()));
    assert_eq!(f.find([0, 12]), Err(()));
}
