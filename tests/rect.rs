use tiny_maps::rect::Rect;

#[test]
fn utils_it_works() {
    let r1 = Rect::new(0, 0, 1600, 1200);
    assert_eq!(
        Rect::new(0, 0, 856, 161),
        r1.intersect(&Rect::new(-168, -863, 1024, 1024)).unwrap()
    );
    assert_eq!(
        Rect::new(0, 161, 856, 1024),
        r1.intersect(&Rect::new(-168, 161, 1024, 1024)).unwrap()
    );
    assert_eq!(
        Rect::new(0, 1185, 856, 15),
        r1.intersect(&Rect::new(-168, 1185, 1024, 1024)).unwrap()
    );
    assert_eq!(
        Rect::new(856, 0, 744, 161),
        r1.intersect(&Rect::new(856, -863, 1024, 1024)).unwrap()
    );
    assert_eq!(
        Rect::new(856, 161, 744, 1024),
        r1.intersect(&Rect::new(856, 161, 1024, 1024)).unwrap()
    );
    assert_eq!(
        Rect::new(856, 1185, 744, 15),
        r1.intersect(&Rect::new(856, 1185, 1024, 1024)).unwrap()
    );
}

#[test]
fn touching_rects_do_not_intersect() {
    let a = Rect::new(0, 0, 10, 10);
    assert_eq!(a.intersect(&Rect::new(10, 0, 10, 10)), None);
    assert_eq!(a.intersect(&Rect::new(0, 10, 10, 10)), None);
    assert_eq!(a.intersect(&Rect::new(-10, 0, 10, 10)), None);
    assert_eq!(a.intersect(&Rect::new(10, 10, 10, 10)), None);
    assert_eq!(a.intersect(&Rect::new(9, 9, 10, 10)), Some(Rect::new(9, 9, 1, 1)));
}

#[test]
fn intersection_is_commutative() {
    let rects = [
        Rect::new(0, 0, 1600, 1200),
        Rect::new(-168, -863, 1024, 1024),
        Rect::new(856, 1185, 1024, 1024),
        Rect::new(5, 5, 0, 10),
        Rect::new(-3, 7, 4, 4),
        Rect::new(100, 100, 1, 1),
    ];
    for a in rects.iter() {
        for b in rects.iter() {
            assert_eq!(a.intersect(b), b.intersect(a));
        }
    }
}

#[test]
fn empty_rect_intersects_nothing() {
    let a = Rect::new(5, 5, 0, 10);
    assert_eq!(a.intersect(&Rect::new(0, 0, 100, 100)), None);
    assert_eq!(Rect::new(0, 0, 100, 100).intersect(&a), None);
}

#[test]
fn contained_rect_is_its_own_intersection() {
    let outer = Rect::new(-50, -50, 200, 200);
    let inner = Rect::new(10, 20, 30, 40);
    assert_eq!(outer.intersect(&inner), Some(inner));
}

#[test]
fn edges_and_extents() {
    let r = Rect::new(-168, -863, 1024, 1000);
    assert_eq!(r.left(), -168);
    assert_eq!(r.top(), -863);
    assert_eq!(r.right(), 856);
    assert_eq!(r.bottom(), 137);
    assert_eq!(r.width(), 1024);
    assert_eq!(r.height(), 1000);
}

#[test]
fn extreme_coordinates_do_not_overflow() {
    let a = Rect::new(i64::MAX, i64::MAX, u32::MAX, u32::MAX);
    assert_eq!(a.right(), i64::MAX as i128 + u32::MAX as i128);
    let b = Rect::new(i64::MAX - 5, i64::MAX - 5, 10, 10);
    assert_eq!(a.intersect(&b), Some(Rect::new(i64::MAX, i64::MAX, 5, 5)));
    let c = Rect::new(i64::MIN, i64::MIN, u32::MAX, u32::MAX);
    assert_eq!(a.intersect(&c), None);
}
