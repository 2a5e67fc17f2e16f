use opengeometry::base_types::{Id, JointType};
use opengeometry::joint_corners::{joint_corners, runs_against, Corner, JointCorners};

fn parts(c: JointCorners) -> (Corner, Corner, Option<(Corner, Corner)>) {
    (c.inner, c.outer, c.other)
}

#[test]
fn mitre_between_faces_running_the_same_way() {
    let c = joint_corners(JointType::Miter, false, false, false, false);
    assert_eq!(parts(c), (Corner::InnerOuter, Corner::OuterInner, Some((Corner::OuterInner, Corner::InnerOuter))));
}

#[test]
fn mitre_between_faces_running_opposite_ways() {
    let c = joint_corners(JointType::Miter, true, false, true, false);
    assert_eq!(parts(c), (Corner::InnerInner, Corner::OuterOuter, Some((Corner::InnerInner, Corner::OuterOuter))));
}

#[test]
fn butt_moves_only_the_first_layer() {
    let c = joint_corners(JointType::Butt, false, false, true, false);
    assert_eq!(parts(c), (Corner::InnerInner, Corner::OuterInner, None));
    let c = joint_corners(JointType::Butt, true, false, false, false);
    assert_eq!(parts(c), (Corner::OuterOuter, Corner::InnerOuter, None));
    let c = joint_corners(JointType::Butt, true, false, true, false);
    assert_eq!(parts(c), (Corner::InnerInner, Corner::OuterInner, None));
}

#[test]
fn double_butt_corners() {
    let c = joint_corners(JointType::DoubleButt, true, true, false, false);
    assert_eq!(parts(c), (Corner::InnerOuter, Corner::OuterOuter, Some((Corner::OuterInner, Corner::OuterOuter))));
    let c = joint_corners(JointType::DoubleButt, true, false, false, false);
    assert_eq!(parts(c), (Corner::InnerInner, Corner::OuterInner, Some((Corner::OuterInner, Corner::OuterOuter))));
    let c = joint_corners(JointType::DoubleButt, false, true, false, false);
    assert_eq!(parts(c), (Corner::InnerOuter, Corner::OuterOuter, Some((Corner::InnerInner, Corner::InnerOuter))));
}

#[test]
fn double_butt_between_faces_in_line_is_a_mitre() {
    let c = joint_corners(JointType::DoubleButt, false, false, false, true);
    assert_eq!(parts(c), (Corner::InnerOuter, Corner::OuterInner, Some((Corner::OuterInner, Corner::InnerOuter))));
}

#[test]
fn faces_run_along_or_against_an_edge() {
    let (a, b, c) = (Id::new(0, 0), Id::new(1, 0), Id::new(2, 0));
    let verts = vec![a, b, c];
    assert!(!runs_against(&verts, b, c));
    assert!(!runs_against(&verts, c, a));
    assert!(runs_against(&verts, b, a));
    assert!(runs_against(&verts, a, c));
}
