use loom::raster::darken;

#[test]
fn darken_subtracts() {
    let mut px: u8 = 200;
    darken(&mut px, 16);
    assert_eq!(px, 184);
}

#[test]
fn darken_stops_at_black() {
    let mut px: u8 = 10;
    darken(&mut px, 16);
    assert_eq!(px, 0);
    darken(&mut px, 16);
    assert_eq!(px, 0);
}
