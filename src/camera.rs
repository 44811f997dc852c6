use vstd::prelude::*;

verus! {

/// The sum of the horizontal parts of the mouse deltas.
pub open spec fn total_x(motion: Seq<(i32, i32)>) -> int
    decreases motion.len(),
{
    if motion.len() == 0 {
        0
    } else {
        total_x(motion.drop_last()) + motion.last().0
    }
}

/// The sum of the vertical parts of the mouse deltas.
pub open spec fn total_y(motion: Seq<(i32, i32)>) -> int
    decreases motion.len(),
{
    if motion.len() == 0 {
        0
    } else {
        total_y(motion.drop_last()) + motion.last().1
    }
}

proof fn lemma_totals_bounded(motion: Seq<(i32, i32)>)
    ensures
        -(motion.len() as int) * 0x8000_0000 <= total_x(motion) <= (motion.len() as int) * 0x7fff_ffff,
        -(motion.len() as int) * 0x8000_0000 <= total_y(motion) <= (motion.len() as int) * 0x7fff_ffff,
    decreases motion.len(),
{
    if motion.len() > 0 {
        lemma_totals_bounded(motion.drop_last());
    }
}

/// Decides a frame of camera panning from the mouse deltas read this frame, in
/// pixels: while the pan button is held they add up, and the camera moves by
/// their sum when it is not zero. Without the button, or with a zero sum, the
/// camera stays where it is.
pub fn pan_orbit_camera(pan_pressed: bool, motion: &Vec<(i32, i32)>) -> (r: Option<(i64, i64)>)
    requires
        motion@.len() <= u32::MAX,
    ensures
        !pan_pressed ==> r is None,
        pan_pressed && total_x(motion@) == 0 && total_y(motion@) == 0 ==> r is None,
        pan_pressed && (total_x(motion@) != 0 || total_y(motion@) != 0)
            ==> r == Some((total_x(motion@) as i64, total_y(motion@) as i64)),
{
    if !pan_pressed {
        return None;
    }
    let mut x: i64 = 0;
    let mut y: i64 = 0;
    let mut i: usize = 0;
    while i < motion.len()
        invariant
            i <= motion@.len(),
            motion@.len() <= u32::MAX,
            x == total_x(motion@.subrange(0, i as int)),
            y == total_y(motion@.subrange(0, i as int)),
        decreases motion@.len() - i,
    {
        let ghost pre = motion@.subrange(0, i as int);
        let ghost next = motion@.subrange(0, i + 1);
        assert(next.drop_last() =~= pre);
        proof {
            lemma_totals_bounded(next);
        }
        x = x + motion[i].0 as i64;
        y = y + motion[i].1 as i64;
        i += 1;
    }
    assert(motion@.subrange(0, motion@.len() as int) =~= motion@);
    if x == 0 && y == 0 {
        None
    } else {
        Some((x, y))
    }
}

} // verus!
