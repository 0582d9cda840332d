use rtwm::layout::{LayoutEngine, LayoutType, Rect};

fn monitor_1920x1080() -> Rect {
    Rect::new(0, 0, 1920, 1040)
}

#[test]
fn test_left_half_no_gap() {
    let engine = LayoutEngine::new(0, 0);
    let result = engine.calculate(LayoutType::LeftHalf, monitor_1920x1080());
    assert_eq!(result.x, 0);
    assert_eq!(result.y, 0);
    assert_eq!(result.width, 960);
    assert_eq!(result.height, 1040);
}

#[test]
fn test_right_half_no_gap() {
    let engine = LayoutEngine::new(0, 0);
    let result = engine.calculate(LayoutType::RightHalf, monitor_1920x1080());
    assert_eq!(result.x, 960);
    assert_eq!(result.y, 0);
    assert_eq!(result.width, 960);
    assert_eq!(result.height, 1040);
}

#[test]
fn test_fullscreen_no_gap() {
    let engine = LayoutEngine::new(0, 0);
    let result = engine.calculate(LayoutType::Fullscreen, monitor_1920x1080());
    assert_eq!(result.x, 0);
    assert_eq!(result.y, 0);
    assert_eq!(result.width, 1920);
    assert_eq!(result.height, 1040);
}

#[test]
fn test_centered() {
    let engine = LayoutEngine::new(0, 0);
    let result = engine.calculate(LayoutType::Centered, monitor_1920x1080());
    assert_eq!(result.width, 1440);
    assert_eq!(result.height, 780);
    assert_eq!(result.x, 240);
    assert_eq!(result.y, 130);
}

#[test]
fn test_left_half_with_gap() {
    let engine = LayoutEngine::new(8, 0);
    let result = engine.calculate(LayoutType::LeftHalf, monitor_1920x1080());
    assert_eq!(result.width, 956);
    assert_eq!(result.height, 1040);
}

#[test]
fn test_left_half_with_margin() {
    let engine = LayoutEngine::new(0, 10);
    let result = engine.calculate(LayoutType::LeftHalf, monitor_1920x1080());
    assert_eq!(result.x, 10);
    assert_eq!(result.y, 10);
    assert_eq!(result.width, 950);
    assert_eq!(result.height, 1020);
}

#[test]
fn test_top_half() {
    let engine = LayoutEngine::new(8, 0);
    let result = engine.calculate(LayoutType::TopHalf, monitor_1920x1080());
    assert_eq!(result.x, 0);
    assert_eq!(result.y, 0);
    assert_eq!(result.width, 1920);
    assert_eq!(result.height, 516);
}

#[test]
fn test_bottom_half() {
    let engine = LayoutEngine::new(8, 0);
    let result = engine.calculate(LayoutType::BottomHalf, monitor_1920x1080());
    assert_eq!(result.x, 0);
    assert_eq!(result.y, 524);
    assert_eq!(result.width, 1920);
    assert_eq!(result.height, 516);
}

#[test]
fn right_half_with_gap_starts_after_the_gap() {
    let engine = LayoutEngine::new(8, 0);
    let left = engine.calculate(LayoutType::LeftHalf, monitor_1920x1080());
    let right = engine.calculate(LayoutType::RightHalf, monitor_1920x1080());
    assert_eq!(right.x, 964);
    assert_eq!(right.width, 956);
    assert_eq!(left.x + left.width + 8, right.x);
}

#[test]
fn centered_with_margin() {
    let engine = LayoutEngine::new(0, 20);
    let r = engine.calculate(LayoutType::Centered, monitor_1920x1080());
    // inner area 1880 x 1000 at (20, 20)
    assert_eq!(r.width, 1410);
    assert_eq!(r.height, 750);
    assert_eq!(r.x, 20 + 235);
    assert_eq!(r.y, 20 + 125);
}

#[test]
fn area_eaten_by_margin_is_returned_unchanged() {
    let engine = LayoutEngine::new(8, 600);
    let area = monitor_1920x1080();
    let r = engine.calculate(LayoutType::LeftHalf, area);
    assert_eq!(r, area);
}

#[test]
fn tiny_half_is_at_least_one_pixel() {
    let engine = LayoutEngine::new(40, 0);
    let r = engine.calculate(LayoutType::LeftHalf, Rect::new(0, 0, 10, 10));
    assert_eq!(r.width, 1);
}

#[test]
fn layout_fits_detects_overflow() {
    let engine = LayoutEngine::new(0, 0);
    assert!(engine.fits(LayoutType::RightHalf, monitor_1920x1080()));
    assert!(!engine.fits(LayoutType::RightHalf, Rect::new(i32::MAX - 10, 0, 1000, 1000)));
    let wide_margin = LayoutEngine::new(0, i32::MAX);
    assert!(!wide_margin.fits(LayoutType::Fullscreen, monitor_1920x1080()));
}

#[test]
fn rect_from_tuple() {
    assert_eq!(Rect::from_tuple((1, 2, 3, 4)), Rect::new(1, 2, 3, 4));
}
