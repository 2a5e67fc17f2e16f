use vstd::prelude::*;
use crate::base_types::{Id, JointType};
use crate::id_list::{first_index, lemma_index_from, position_of};

verus! {

/// Where a boundary line of the first layer at a joint meets a boundary
/// line of the second: `InnerOuter` is where the first layer's inner
/// boundary meets the second layer's outer boundary.
#[derive(Clone, Copy, Debug, PartialEq, Eq, Structural)]
pub enum Corner {
    InnerInner,
    OuterOuter,
    InnerOuter,
    OuterInner,
}

/// The corners to which a joint moves the edges of two layers: the first
/// layer's inner and outer edge, and the second layer's inner and outer
/// edge when the joint moves them too.
#[derive(Clone, Copy, Debug)]
pub struct JointCorners {
    pub inner: Corner,
    pub outer: Corner,
    pub other: Option<(Corner, Corner)>,
}

/// The joint that is made: where the two faces are nearly in line, a
/// double butt joint becomes a mitre.
pub open spec fn applied_joint_type(joint_type: JointType, nearly_in_line: bool) -> JointType {
    if nearly_in_line && joint_type == JointType::DoubleButt {
        JointType::Miter
    } else {
        joint_type
    }
}

/// Whether, with both faces' senses turned over when `flip`, the first face
/// runs against the edge and the second does not.
pub open spec fn only_first_against(against0: bool, against1: bool, flip: bool) -> bool {
    (against0 != flip) && (against1 == flip)
}

/// The corners of a joint of type `joint_type` between faces that run
/// against the edge or not (`against0`, `against1`).
pub open spec fn corners_for(joint_type: JointType, against0: bool, against1: bool, flip: bool) -> JointCorners {
    let same = against0 == against1;
    let first_only = only_first_against(against0, against1, flip);
    match joint_type {
        JointType::Miter => if same {
            JointCorners {
                inner: Corner::InnerOuter,
                outer: Corner::OuterInner,
                other: Some((Corner::OuterInner, Corner::InnerOuter)),
            }
        } else {
            JointCorners {
                inner: Corner::InnerInner,
                outer: Corner::OuterOuter,
                other: Some((Corner::InnerInner, Corner::OuterOuter)),
            }
        },
        JointType::Butt => if !same && first_only {
            JointCorners { inner: Corner::OuterOuter, outer: Corner::InnerOuter, other: None }
        } else {
            JointCorners { inner: Corner::InnerInner, outer: Corner::OuterInner, other: None }
        },
        JointType::DoubleButt => if !same && first_only {
            JointCorners {
                inner: Corner::InnerInner,
                outer: Corner::OuterInner,
                other: Some((Corner::OuterInner, Corner::OuterOuter)),
            }
        } else if same {
            JointCorners {
                inner: Corner::InnerOuter,
                outer: Corner::OuterOuter,
                other: Some((Corner::OuterInner, Corner::OuterOuter)),
            }
        } else {
            JointCorners {
                inner: Corner::InnerOuter,
                outer: Corner::OuterOuter,
                other: Some((Corner::InnerInner, Corner::InnerOuter)),
            }
        },
    }
}

/// The corners of a joint between two layers. `joint_type` is the joint
/// asked for; `against0` and `against1` say whether each face runs against
/// the joint edge; `flip` whether the turn from the first face to the
/// second is less than a half turn; `nearly_in_line` whether the faces are
/// nearly in line.
pub fn joint_corners(joint_type: JointType, against0: bool, against1: bool, flip: bool, nearly_in_line: bool) -> (r:
    JointCorners)
    ensures
        r == corners_for(applied_joint_type(joint_type, nearly_in_line), against0, against1, flip),
{
    let joint_type = if nearly_in_line && joint_type == JointType::DoubleButt {
        JointType::Miter
    } else {
        joint_type
    };
    let same = against0 == against1;
    let first_only = (against0 != flip) && (against1 == flip);
    match joint_type {
        JointType::Miter => {
            if same {
                JointCorners {
                    inner: Corner::InnerOuter,
                    outer: Corner::OuterInner,
                    other: Some((Corner::OuterInner, Corner::InnerOuter)),
                }
            } else {
                JointCorners {
                    inner: Corner::InnerInner,
                    outer: Corner::OuterOuter,
                    other: Some((Corner::InnerInner, Corner::OuterOuter)),
                }
            }
        },
        JointType::Butt => {
            if !same && first_only {
                JointCorners { inner: Corner::OuterOuter, outer: Corner::InnerOuter, other: None }
            } else {
                JointCorners { inner: Corner::InnerInner, outer: Corner::OuterInner, other: None }
            }
        },
        JointType::DoubleButt => {
            if same {
                JointCorners {
                    inner: Corner::InnerOuter,
                    outer: Corner::OuterOuter,
                    other: Some((Corner::OuterInner, Corner::OuterOuter)),
                }
            } else if first_only {
                JointCorners {
                    inner: Corner::InnerInner,
                    outer: Corner::OuterInner,
                    other: Some((Corner::OuterInner, Corner::OuterOuter)),
                }
            } else {
                JointCorners {
                    inner: Corner::InnerOuter,
                    outer: Corner::OuterOuter,
                    other: Some((Corner::InnerInner, Corner::InnerOuter)),
                }
            }
        },
    }
}

/// Whether a face with corners `verts` runs against the edge from `v0` to
/// `v1`: the corner after the first `v0`, going round, is not `v1`.
pub open spec fn runs_against_spec(verts: Seq<Id>, v0: Id, v1: Id) -> bool {
    verts[(first_index(verts, v0) + 1) % verts.len() as int] != v1
}

/// Whether a face with corners `verts` runs against the edge from `v0` to
/// `v1`.
pub fn runs_against(verts: &Vec<Id>, v0: Id, v1: Id) -> (r: bool)
    requires
        verts@.contains(v0),
    ensures
        r == runs_against_spec(verts@, v0, v1),
{
    proof {
        lemma_index_from(verts@, v0, 0);
    }
    let i = match position_of(verts, v0) {
        Some(i) => i,
        None => {
            return false;
        },
    };
    assert(first_index(verts@, v0) == i as int);
    assert(i < verts.len());
    let next = (i + 1) % verts.len();
    verts[next] != v1
}


/// Whether a corner lies on the first layer's inner boundary line.
pub open spec fn on_first_inner(c: Corner) -> bool {
    c == Corner::InnerInner || c == Corner::InnerOuter
}

/// Whether a corner lies on the second layer's inner boundary line.
pub open spec fn on_second_inner(c: Corner) -> bool {
    c == Corner::InnerInner || c == Corner::OuterInner
}

/// The same point, named with the two layers' roles exchanged.
pub open spec fn seen_from_second(c: Corner) -> Corner {
    match c {
        Corner::InnerOuter => Corner::OuterInner,
        Corner::OuterInner => Corner::InnerOuter,
        other => other,
    }
}

/// The corners of a joint as [`joint_corners`] returns them.
pub open spec fn corners_of(
    joint_type: JointType,
    against0: bool,
    against1: bool,
    flip: bool,
    nearly_in_line: bool,
) -> JointCorners {
    corners_for(applied_joint_type(joint_type, nearly_in_line), against0, against1, flip)
}

/// Turning over both faces' senses and the turn between them together
/// describes the same joint: the corners do not change.
pub proof fn law_corners_ignore_a_common_turn_over(
    joint_type: JointType,
    against0: bool,
    against1: bool,
    flip: bool,
    nearly_in_line: bool,
)
    ensures
        corners_of(joint_type, against0, against1, flip, nearly_in_line) == corners_of(
            joint_type,
            !against0,
            !against1,
            !flip,
            nearly_in_line,
        ),
{
}

/// A butt joint cuts only the first layer, along one boundary line of the
/// second layer: its inner and outer edges move to the two points where the
/// first layer's boundary lines meet that line.
pub proof fn law_butt_cuts_only_the_first_layer(against0: bool, against1: bool, flip: bool, nearly_in_line: bool)
    ensures
        corners_of(JointType::Butt, against0, against1, flip, nearly_in_line).other is None,
        on_second_inner(corners_of(JointType::Butt, against0, against1, flip, nearly_in_line).inner)
            == on_second_inner(corners_of(JointType::Butt, against0, against1, flip, nearly_in_line).outer),
        on_first_inner(corners_of(JointType::Butt, against0, against1, flip, nearly_in_line).inner)
            != on_first_inner(corners_of(JointType::Butt, against0, against1, flip, nearly_in_line).outer),
{
}

/// A mitre cuts both layers along the same line: the second layer's edges
/// move to the very points the first layer's edges move to.
pub proof fn law_mitre_cuts_both_layers_alike(against0: bool, against1: bool, flip: bool, nearly_in_line: bool)
    ensures
        ({
            let c = corners_of(JointType::Miter, against0, against1, flip, nearly_in_line);
            &&& c.other == Some((seen_from_second(c.inner), seen_from_second(c.outer)))
            &&& on_first_inner(c.inner) != on_first_inner(c.outer)
            &&& on_second_inner(c.inner) != on_second_inner(c.outer)
        }),
{
}

/// A double butt joint cuts each layer along one boundary line of the
/// other, unless the faces are nearly in line, where it is a mitre.
pub proof fn law_double_butt_cuts_both_layers(against0: bool, against1: bool, flip: bool)
    ensures
        ({
            let c = corners_of(JointType::DoubleButt, against0, against1, flip, false);
            &&& c.other is Some
            &&& on_second_inner(c.inner) == on_second_inner(c.outer)
            &&& on_first_inner(c.inner) != on_first_inner(c.outer)
            &&& c.other matches Some((i, o)) && on_first_inner(i) == on_first_inner(o) && on_second_inner(i)
                != on_second_inner(o)
        }),
        corners_of(JointType::DoubleButt, against0, against1, flip, true) == corners_of(
            JointType::Miter,
            against0,
            against1,
            flip,
            false,
        ),
{
}

/// Only a double butt joint depends on whether the faces are nearly in
/// line.
pub proof fn law_only_double_butt_depends_on_alignment(
    joint_type: JointType,
    against0: bool,
    against1: bool,
    flip: bool,
)
    requires
        joint_type != JointType::DoubleButt,
    ensures
        corners_of(joint_type, against0, against1, flip, true) == corners_of(joint_type, against0, against1, flip, false),
{
}

} // verus!
