use rtin::geometry::{Point, Triangle};
use rtin::label::{
    child_indexes, coords, idx_depth, idx_to_label, is_power_of_two, label_to_idx, num_triangles,
    steps, Label, Step,
};
use rtin::label::Step::{BottomLeft, Left, Right, TopRight};

#[test]
fn test_idx_depth() {
    assert_eq!(idx_depth(0), 1);
    assert_eq!(idx_depth(1), 2);
    assert_eq!(idx_depth(2), 2);
    assert_eq!(idx_depth(3), 3);
    assert_eq!(idx_depth(4), 3);
    assert_eq!(idx_depth(5), 3);
    assert_eq!(idx_depth(6), 3);
    assert_eq!(idx_depth(7), 4);
    assert_eq!(idx_depth(14), 4);
    assert_eq!(idx_depth(15), 5);
    assert_eq!(idx_depth(16), 5);
}

#[test]
fn depth_table_zero_to_sixteen() {
    let expected = [1, 2, 2, 3, 3, 3, 3, 4, 4, 4, 4, 4, 4, 4, 4, 5, 5];
    for (i, d) in expected.iter().enumerate() {
        assert_eq!(idx_depth(i as u32), *d);
    }
    assert_eq!(idx_depth(u32::MAX), 33);
}

#[test]
fn test_label() {
    assert_eq!(idx_to_label(0), Label(0b1));
    assert_eq!(idx_to_label(1), Label(0b10));
    assert_eq!(idx_to_label(2), Label(0b11));
    assert_eq!(idx_to_label(3), Label(0b100));
    assert_eq!(idx_to_label(4), Label(0b101));
    assert_eq!(idx_to_label(5), Label(0b110));
    assert_eq!(idx_to_label(6), Label(0b111));
    assert_eq!(idx_to_label(7), Label(0b1000));
    assert_eq!(idx_to_label(14), Label(0b1111));
    assert_eq!(idx_to_label(15), Label(0b10000));
    assert_eq!(idx_to_label(16), Label(0b10001));
}

#[test]
fn test_steps() {
    assert_eq!(steps(Label(0b10110)), vec![BottomLeft, Right, Right, Left]);
    assert_eq!(steps(Label(0b11)), vec![TopRight]);
    assert_eq!(steps(Label(0b110)), vec![TopRight, Left]);
    assert_eq!(
        steps(Label(0b1011011100010)),
        vec![BottomLeft, Right, Right, Left, Right, Right, Right, Left, Left, Left, Right, Left]
    );
}

#[test]
fn steps_of_root_and_base_labels() {
    assert_eq!(steps(Label(1)), vec![]);
    assert_eq!(steps(Label(0b10)), vec![Step::BottomLeft]);
    assert_eq!(steps(Label(0b111)), vec![Step::TopRight, Step::Right]);
}

#[test]
fn label_to_idx_test() {
    for i in 0..10000 {
        let label: Label = idx_to_label(i);
        let actual = label_to_idx(label);
        assert_eq!(
            label_to_idx(label),
            i,
            "{i} -> {actual} (should be same). Label was: {label:?}"
        );
    }
}

#[test]
fn index_label_round_trip_at_large_values() {
    for i in [0x7fff_fffeu32, 0x8000_0000, u32::MAX - 1] {
        assert_eq!(label_to_idx(idx_to_label(i)), i);
    }
    for l in [1u32, 2, 0x8000_0000, u32::MAX] {
        assert_eq!(idx_to_label(label_to_idx(Label(l))), Label(l));
    }
}

#[test]
fn steps_count_matches_depth() {
    for i in 0..5000u32 {
        assert_eq!(steps(idx_to_label(i)).len() as u32 + 1, idx_depth(i));
    }
}

#[test]
fn num_triangles_test() {
    assert_eq!(num_triangles(5), 32);
    assert_eq!(num_triangles(9), 128);
    assert_eq!(num_triangles(17), 512);
}

#[test]
fn num_triangles_is_twice_the_squared_span() {
    for k in 1..16u32 {
        let s = (1u32 << k) + 1;
        assert_eq!(num_triangles(s) as u64, 2 * (s as u64 - 1) * (s as u64 - 1));
    }
    assert_eq!(num_triangles(3), 8);
}

#[test]
fn power_of_two_check() {
    assert!(is_power_of_two(1));
    assert!(is_power_of_two(8));
    assert!(is_power_of_two(0x8000_0000));
    assert!(!is_power_of_two(0));
    assert!(!is_power_of_two(6));
    assert!(!is_power_of_two(u32::MAX));
}

#[test]
fn child_indexes_test() {
    {
        let (l, r) = child_indexes(0);
        assert_eq!(idx_to_label(l), Label(0b10));
        assert_eq!(idx_to_label(r), Label(0b11));
    }
    {
        let (l, r) = child_indexes(1);
        assert_eq!(idx_to_label(l), Label(0b100));
        assert_eq!(idx_to_label(r), Label(0b101));
    }
    {
        let (l, r) = child_indexes(2);
        assert_eq!(idx_to_label(l), Label(0b110));
        assert_eq!(idx_to_label(r), Label(0b111));
    }
}

#[test]
fn child_indexes_far_down() {
    assert_eq!(child_indexes(63), (127, 128));
    assert_eq!(child_indexes(0x7fff_fffe), (0xffff_fffd, 0xffff_fffe));
}

fn p(x: u32, y: u32) -> Point {
    Point { x, y }
}

#[test]
fn test_coords() {
    assert_eq!(coords(Label(0b10), 5), Triangle::new(p(4, 4), p(0, 0), p(0, 4)));
    assert_eq!(coords(Label(0b11), 5), Triangle::new(p(0, 0), p(4, 4), p(4, 0)));
    assert_eq!(coords(Label(0b1010), 5), Triangle::new(p(2, 2), p(0, 0), p(0, 2)));
}

#[test]
fn coords_of_children_split_the_hypotenuse() {
    // BottomLeft then Left: (c, a, mid(a, b)); then Right: (b, c, mid(a, b))
    assert_eq!(coords(Label(0b100), 5), Triangle::new(p(0, 4), p(4, 4), p(2, 2)));
    assert_eq!(coords(Label(0b101), 5), Triangle::new(p(0, 0), p(0, 4), p(2, 2)));
    assert_eq!(coords(Label(1), 5), Triangle::new(p(0, 0), p(0, 0), p(0, 0)));
}

#[test]
fn coords_stay_on_the_grid() {
    for s in [3u32, 5, 9, 17] {
        let n = num_triangles(s);
        for i in 1..n {
            let t = coords(idx_to_label(i), s);
            for q in [t.a, t.b, t.c] {
                assert!(q.x < s && q.y < s);
            }
        }
    }
}

#[test]
fn triangle_accessors_and_iterator() {
    let t = Triangle::new(p(1, 2), p(3, 4), p(5, 6));
    assert_eq!(*t.a(), p(1, 2));
    assert_eq!(*t.b(), p(3, 4));
    assert_eq!(*t.c(), p(5, 6));
    let mut it = t.into_iter();
    assert_eq!(it.next(), Some(&p(1, 2)));
    assert_eq!(it.next(), Some(&p(3, 4)));
    assert_eq!(it.next(), Some(&p(5, 6)));
    assert_eq!(it.next(), None);
    assert_eq!(it.next(), None);
}
