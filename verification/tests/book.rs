use loom::book::PageMetrics;

fn metrics() -> PageMetrics<i64> {
    PageMetrics {
        width: 210,
        height: 297,
        margin_inner: 25,
        margin_outer: 15,
        margin_top: 20,
        margin_bottom: 30,
    }
}

#[test]
fn text_area_is_the_page_less_its_margins() {
    let m = metrics();
    assert_eq!(m.text_width(), 170);
    assert_eq!(m.text_height(), 247);
}

#[test]
fn text_area_in_floating_point() {
    let m = PageMetrics::<f32> {
        width: 100.0,
        height: 50.0,
        margin_inner: 10.0,
        margin_outer: 5.0,
        margin_top: 2.5,
        margin_bottom: 2.5,
    };
    assert_eq!(m.text_width(), 85.0);
    assert_eq!(m.text_height(), 45.0);
}

#[test]
fn left_margin_alternates_between_pages() {
    let m = metrics();
    assert_eq!(m.margin_left(0), 15);
    assert_eq!(m.margin_left(1), 25);
    assert_eq!(m.margin_left(2), 15);
    assert_eq!(m.margin_left(7), 25);
}

#[test]
fn page_size_is_width_and_height() {
    assert_eq!(metrics().page_size(), (210, 297));
}
