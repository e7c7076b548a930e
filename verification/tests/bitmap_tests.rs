use crep_indexer::bitmap::intersect_bitmap_vec;
use crep_indexer::bitmap::intersect_bitmaps;
use crep_indexer::bitmap::union_bitmaps;
use roaring::RoaringBitmap;

#[test]
fn intersection_of_bitmaps() {
    let a = RoaringBitmap::from([1, 2, 3, 70000]);
    let b = RoaringBitmap::from([2, 3, 4, 70000]);
    let c = RoaringBitmap::from([3, 70000, 5]);

    assert_eq!(intersect_bitmaps(&[]), None);
    assert_eq!(intersect_bitmaps(&[&a]), Some(a.clone()));
    assert_eq!(
        intersect_bitmaps(&[&a, &b, &c]),
        Some(RoaringBitmap::from([3, 70000]))
    );
    assert_eq!(intersect_bitmap_vec(vec![]), None);
    assert_eq!(
        intersect_bitmap_vec(vec![a.clone(), b.clone(), c.clone()]),
        Some(RoaringBitmap::from([3, 70000]))
    );
    assert_eq!(
        intersect_bitmap_vec(vec![a.clone(), RoaringBitmap::from([9]), c.clone()]),
        Some(RoaringBitmap::new())
    );
}

#[test]
fn union_of_bitmaps() {
    let a = RoaringBitmap::from([1, 2]);
    let b = RoaringBitmap::from([2, 90000]);

    assert_eq!(union_bitmaps(&[]), None);
    assert_eq!(union_bitmaps(&[&a]), Some(a.clone()));
    assert_eq!(
        union_bitmaps(&[&a, &b]),
        Some(RoaringBitmap::from([1, 2, 90000]))
    );
}
