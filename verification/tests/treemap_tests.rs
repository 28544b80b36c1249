//! Tests for the slice-and-dice layout.

use disk_treemap::scanner::FileSystemNode;
use disk_treemap::treemap::generate_treemap;
use disk_treemap::treemap::TreemapNode;

/// A drawable rectangle, derived from the emitted proportional geometry the
/// way a renderer would: x, y, width, height.
#[derive(Clone, Copy, Debug, PartialEq)]
struct Rect {
    x: f64,
    y: f64,
    width: f64,
    height: f64,
}

/// Turns the emitted layout into rectangles inside `bounds`, advancing a
/// cursor along the slicing axis of each group exactly as a renderer does:
/// vertically sliced groups lay strips left to right, horizontally sliced
/// groups top to bottom, each strip spanning `size / total` of the parent's
/// extent.
fn realize(items: &[TreemapNode], bounds: Rect) -> Vec<Rect> {
    // Slot 0 holds the drawing area; slot i + 1 holds item i's rectangle.
    let mut rects: Vec<Rect> = vec![bounds];
    let mut cursors: Vec<(f64, f64)> = vec![(bounds.x, bounds.y)];
    let mut out: Vec<Rect> = Vec::new();
    for it in items {
        let pslot = match it.parent {
            None => 0,
            Some(j) => j + 1,
        };
        let p = rects[pslot];
        let (cx, cy) = cursors[pslot];
        let proportion = it.size as f64 / it.total as f64;
        let r = if it.vertical {
            Rect { x: cx, y: cy, width: p.width * proportion, height: p.height }
        } else {
            Rect { x: cx, y: cy, width: p.width, height: p.height * proportion }
        };
        if it.vertical {
            cursors[pslot].0 = cx + r.width;
        } else {
            cursors[pslot].1 = cy + r.height;
        }
        rects.push(r);
        cursors.push((r.x, r.y));
        out.push(r);
    }
    out
}

fn leaf(name: &str, size: u64) -> FileSystemNode {
    FileSystemNode { name: name.to_string(), size, children: vec![] }
}

#[test]
fn test_generate_treemap() {
    let tree = FileSystemNode {
        name: "root".to_string(),
        size: 60,
        children: vec![leaf("a", 30), leaf("b", 20), leaf("c", 10)],
    };

    let bounds = Rect { x: 0.0, y: 0.0, width: 100.0, height: 100.0 };
    let layout = generate_treemap(&tree);
    let rects = realize(&layout, bounds);

    // Expected layout:
    // 'a' takes 50% of the width (30/60)
    // 'b' takes 33.3% of the width (20/60)
    // 'c' takes 16.6% of the width (10/60)
    let expected_layout = vec![
        (Rect { x: 0.0, y: 0.0, width: 50.0, height: 100.0 }, "a", 30u64, 1usize),
        (Rect { x: 50.0, y: 0.0, width: 100.0 / 3.0, height: 100.0 }, "b", 20u64, 1usize),
        (
            Rect { x: 50.0 + 100.0 / 3.0, y: 0.0, width: 100.0 / 6.0, height: 100.0 },
            "c",
            10u64,
            1usize,
        ),
    ];
    let expected_depths = vec![("a", 1usize), ("b", 1usize), ("c", 1usize)];

    assert_eq!(layout.len(), expected_layout.len());
    for (i, node) in layout.iter().enumerate() {
        let (erect, ename, esize, _) = &expected_layout[i];
        assert_eq!(&node.name, ename);
        assert_eq!(node.size, *esize);
        assert!((rects[i].x - erect.x).abs() < 1e-9);
        assert!((rects[i].y - erect.y).abs() < 1e-9);
        assert!((rects[i].width - erect.width).abs() < 1e-9);
        assert!((rects[i].height - erect.height).abs() < 1e-9);
    }
    for (name, depth) in expected_depths {
        let node = layout.iter().find(|n| n.name == name).unwrap();
        assert_eq!(node.depth, depth);
    }
}

#[test]
fn test_layout_childless_root() {
    let tree = leaf("root", 42);
    let layout = generate_treemap(&tree);
    assert_eq!(layout.len(), 0);
}

#[test]
fn test_layout_zero_total() {
    let tree = FileSystemNode {
        name: "root".to_string(),
        size: 0,
        children: vec![leaf("empty1", 0), leaf("empty2", 0)],
    };
    let layout = generate_treemap(&tree);
    assert_eq!(layout.len(), 0);
}

#[test]
fn test_axis_alternation_nested() {
    let tree = FileSystemNode {
        name: "root".to_string(),
        size: 60,
        children: vec![
            FileSystemNode {
                name: "a".to_string(),
                size: 30,
                children: vec![leaf("a1", 10), leaf("a2", 20)],
            },
            leaf("b", 30),
        ],
    };
    let layout = generate_treemap(&tree);

    // Depth-first emission: a, then a's children, then b.
    let names: Vec<&str> = layout.iter().map(|n| n.name.as_str()).collect();
    assert_eq!(names, vec!["a", "a1", "a2", "b"]);

    // Depth 1 slices vertically under the drawing area; depth 2 slices
    // horizontally inside its parent's rectangle.
    assert_eq!(layout[0].depth, 1);
    assert!(layout[0].vertical);
    assert_eq!(layout[0].parent, None);

    assert_eq!(layout[1].depth, 2);
    assert!(!layout[1].vertical);
    assert_eq!(layout[1].parent, Some(0));

    assert_eq!(layout[2].depth, 2);
    assert!(!layout[2].vertical);
    assert_eq!(layout[2].parent, Some(0));

    assert_eq!(layout[3].depth, 1);
    assert!(layout[3].vertical);
    assert_eq!(layout[3].parent, None);

    // Offsets are prefix sums within each group; totals are group sums.
    assert_eq!((layout[0].offset, layout[0].total), (0, 60));
    assert_eq!((layout[1].offset, layout[1].total), (0, 30));
    assert_eq!((layout[2].offset, layout[2].total), (10, 30));
    assert_eq!((layout[3].offset, layout[3].total), (30, 60));

    // The nested rectangles subdivide the parent's rectangle exactly.
    let bounds = Rect { x: 0.0, y: 0.0, width: 100.0, height: 100.0 };
    let rects = realize(&layout, bounds);
    assert!((rects[0].width - 50.0).abs() < 1e-9);
    assert!((rects[1].height - 100.0 / 3.0).abs() < 1e-9);
    assert!((rects[1].width - 50.0).abs() < 1e-9);
    assert!((rects[2].y - 100.0 / 3.0).abs() < 1e-9);
    assert!((rects[2].height - 200.0 / 3.0).abs() < 1e-9);
    assert!((rects[3].x - 50.0).abs() < 1e-9);
}

#[test]
fn test_axis_returns_at_depth_three() {
    let tree = FileSystemNode {
        name: "root".to_string(),
        size: 40,
        children: vec![FileSystemNode {
            name: "a".to_string(),
            size: 40,
            children: vec![FileSystemNode {
                name: "b".to_string(),
                size: 40,
                children: vec![leaf("c", 15), leaf("d", 25)],
            }],
        }],
    };
    let layout = generate_treemap(&tree);
    let names: Vec<&str> = layout.iter().map(|n| n.name.as_str()).collect();
    assert_eq!(names, vec!["a", "b", "c", "d"]);

    assert_eq!(layout[0].depth, 1);
    assert!(layout[0].vertical);
    assert_eq!(layout[1].depth, 2);
    assert!(!layout[1].vertical);
    assert_eq!(layout[2].depth, 3);
    assert!(layout[2].vertical);
    assert_eq!(layout[3].depth, 3);
    assert!(layout[3].vertical);

    assert_eq!(layout[2].parent, Some(1));
    assert_eq!(layout[3].parent, Some(1));
    assert_eq!((layout[3].offset, layout[3].total), (15, 40));
}

#[test]
fn test_depth1_widths_fill_bounds() {
    let tree = FileSystemNode {
        name: "root".to_string(),
        size: 77,
        children: vec![leaf("p", 13), leaf("q", 17), leaf("r", 19), leaf("s", 28)],
    };
    let bounds = Rect { x: 0.0, y: 0.0, width: 640.0, height: 480.0 };
    let layout = generate_treemap(&tree);
    let rects = realize(&layout, bounds);

    // Vertical slicing at depth 1: widths are proportional to size / total
    // and sum to the full width within floating-point tolerance.
    let mut width_sum: f64 = 0.0;
    for (i, node) in layout.iter().enumerate() {
        assert_eq!(node.depth, 1);
        let expected = 640.0 * node.size as f64 / 77.0;
        assert!((rects[i].width - expected).abs() < 1e-9);
        assert!((rects[i].height - 480.0).abs() < 1e-9);
        width_sum += rects[i].width;
    }
    assert!((width_sum - 640.0).abs() < 1e-9);
}
