//! The two-dimensional finite-state machine: construction from a reference
//! glyph, backtracking execution against a live picture, and the registry of
//! definitions that identifies unknown glyphs.

use vstd::prelude::*;

use crate::glyphdetect::color::{Color, ColorLedger, ColorType};
use crate::glyphdetect::glyph::{count_false, gather_glyphs, glyph_has, glyph_ok, lemma_count_false_le, lemma_count_false_mono, lemma_count_false_update, padd, Glyph};
use crate::glyphdetect::picture::{copy_vec, rotate, Picture};
use crate::glyphdetect::point::{get_index, lemma_index_in_range, spec_index_of, spec_surrounding, BoundingBox, Point};

verus! {

/// A transition between states of the machine. The `usize` in the moving
/// variants names the state whose recorded position the offset is relative to.
#[derive(Debug, Clone, Copy, PartialEq, Eq, Structural)]
pub enum Transition {
    /// Move the head relative to a state's recorded position; consume nothing.
    MoveRelativeState(usize, Point),
    /// Move as above, then consume the pixel there, which must carry the given role.
    MoveRelativeStateConsume(usize, Point, ColorType),
    /// Change states for free.
    Epsilon,
    /// Open a run-length capture group for the given role, tagged by a numeric id.
    CaptureType(ColorType, u8),
    /// Close the open capture group.
    EndCapture,
}

/// A state: an ordered list of (target state, transition) pairs. An empty
/// list marks an accepting state. The order is the backtracking priority.
#[derive(Debug, Clone)]
pub struct State {
    pub t: Vec<(usize, Transition)>,
}

/// The reference-state index a transition reads, if any.
pub open spec fn trans_ref_ok(tr: Transition, m: int) -> bool {
    match tr {
        Transition::MoveRelativeState(j, _) => j < m,
        Transition::MoveRelativeStateConsume(j, _, _) => j < m,
        _ => true,
    }
}

/// Every transition of every state targets a state below `n` and references
/// a state below `m`.
pub open spec fn states_ok(ss: Seq<State>, n: int, m: int) -> bool {
    forall|i: int, k: int|
        0 <= i < ss.len() && 0 <= k < ss[i].t@.len() ==> (#[trigger] ss[i].t@[k]).0 < n
            && trans_ref_ok(ss[i].t@[k].1, m)
}

/// A two-dimensional finite state machine. Execution starts at state 0 and
/// accepts upon reaching a state with no outgoing transitions.
#[derive(Debug, Clone)]
pub struct FSM {
    pub states: Vec<State>,
}

impl FSM {
    /// A machine is well formed when it has an entry state and every
    /// transition targets an existing state. Reference indices may run up to
    /// three past the end: construction emits them to skip a capture
    /// scaffold, and execution bounds-checks them.
    pub open spec fn wf(self) -> bool {
        &&& self.states@.len() >= 1
        &&& states_ok(self.states@, self.states@.len() as int, self.states@.len() as int + 3)
    }
}

/// The state list as its mathematical model: each state's transition list.
pub open spec fn states_model(v: Seq<State>) -> Seq<Seq<(usize, Transition)>> {
    v.map_values(|s: State| s.t@)
}

/// The role a classified color carries: the payload of its classification.
pub open spec fn role_of(inputs: Seq<Color>, outputs: Seq<Color>, fc: Color, c: Color) -> ColorType {
    if inputs.contains(c) {
        ColorType::Input(c)
    } else if outputs.contains(c) {
        ColorType::Output(c)
    } else if c == fc {
        ColorType::Function
    } else {
        ColorType::Loop(c.r)
    }
}

/// The branch set around `head`, up to the `n`-th neighbor offset: those of
/// the first `n` offsets whose pixel is in bounds and relevant.
pub open spec fn spec_branches(
    grid: Seq<Color>,
    w: int,
    h: int,
    inputs: Seq<Color>,
    outputs: Seq<Color>,
    fc: Color,
    head: Point,
    n: int,
) -> Seq<Point>
    decreases n,
{
    if n <= 0 {
        Seq::empty()
    } else {
        let pre = spec_branches(grid, w, h, inputs, outputs, fc, head, n - 1);
        let off = spec_surrounding(n - 1);
        let np = padd(head, off);
        if 0 <= np.x < w && 0 <= np.y < h && crate::glyphdetect::color::spec_classify(
            inputs,
            outputs,
            fc,
            grid[spec_index_of(np, w)],
        ) is Some {
            pre.push(off)
        } else {
            pre
        }
    }
}

/// A transition with its reference index shifted by `base`.
pub open spec fn shift_transition(tr: Transition, base: int) -> Transition {
    match tr {
        Transition::MoveRelativeState(j, p) => Transition::MoveRelativeState(
            (j + base) as usize,
            p,
        ),
        Transition::MoveRelativeStateConsume(j, p, c) => Transition::MoveRelativeStateConsume(
            (j + base) as usize,
            p,
            c,
        ),
        _ => tr,
    }
}

/// A state's transition list with targets and references shifted by `base`.
pub open spec fn shift_row(row: Seq<(usize, Transition)>, base: int) -> Seq<(usize, Transition)> {
    row.map_values(|e: (usize, Transition)| (((e.0 + base) as usize), shift_transition(e.1, base)))
}

/// The step offset from the previous head to the current one.
pub open spec fn spec_step(head: Point, last: Point) -> Point {
    Point { x: (head.x - last.x) as i32, y: (head.y - last.y) as i32 }
}

/// The four-state scaffold that consumes a run of loop markers as one counted
/// capture group: open the capture, a self-loop that re-consumes the run
/// pixel by pixel or exits for free, close the capture, and an empty
/// continuation state.
pub open spec fn capture_scaffold(step: Point, role: ColorType, id: u8) -> Seq<
    Seq<(usize, Transition)>,
> {
    seq![
        seq![(1usize, Transition::CaptureType(role, id))],
        seq![
            (2usize, Transition::MoveRelativeStateConsume(1, step, role)),
            (2usize, Transition::Epsilon),
        ],
        seq![(1usize, Transition::Epsilon), (3usize, Transition::EndCapture)],
        Seq::<(usize, Transition)>::empty(),
    ]
}

/// The states a pixel contributes before its sub-branches: a capture scaffold
/// on a fresh loop marker, a lone placeholder otherwise.
pub open spec fn spec_prefix(cur: ColorType, last: ColorType, step: Point) -> Seq<
    Seq<(usize, Transition)>,
> {
    match cur {
        ColorType::Loop(id) => match last {
            ColorType::Loop(_) => seq![Seq::<(usize, Transition)>::empty()],
            _ => capture_scaffold(step, last, id),
        },
        _ => seq![Seq::<(usize, Transition)>::empty()],
    }
}

/// The transition linking the accumulated states to a new sub-branch: a loop
/// neighbor consumes its own run, so it is entered without consuming (for
/// free when already in a run); leaving a loop scaffold references the state
/// past its capture entry, three slots on.
pub open spec fn link_transition(cur: ColorType, next: ColorType, off: Point) -> Transition {
    match next {
        ColorType::Loop(_) => match cur {
            ColorType::Loop(_) => Transition::Epsilon,
            _ => Transition::MoveRelativeState(0, Point { x: 0, y: 0 }),
        },
        _ => match cur {
            ColorType::Loop(_) => Transition::MoveRelativeStateConsume(3, off, next),
            _ => Transition::MoveRelativeStateConsume(0, off, next),
        },
    }
}

/// The machine built from the glyph pixel at `head`, arrived at from `last`,
/// together with the visited bitmap after the walk: a dead end emits its
/// terminal states alone; otherwise the head's prefix is followed by one
/// renumbered sub-branch per unvisited relevant neighbor, each linked from
/// the end of what was accumulated before it.
pub open spec fn spec_follow(
    grid: Seq<Color>,
    w: int,
    h: int,
    inputs: Seq<Color>,
    outputs: Seq<Color>,
    fc: Color,
    head: Point,
    last: Point,
    visited: Seq<bool>,
) -> (Seq<Seq<(usize, Transition)>>, Seq<bool>)
    decreases count_false(visited), 9int, 0int,
{
    let branches = spec_branches(grid, w, h, inputs, outputs, fc, head, 8);
    let cur = role_of(inputs, outputs, fc, grid[spec_index_of(head, w)]);
    let last_t = role_of(inputs, outputs, fc, grid[spec_index_of(last, w)]);
    let step = spec_step(head, last);
    if branches.len() == 1 && head != last {
        (
            match cur {
                ColorType::Loop(id) => match last_t {
                    ColorType::Loop(_) => seq![Seq::<(usize, Transition)>::empty()],
                    _ => capture_scaffold(step, last_t, id),
                },
                _ => seq![Seq::<(usize, Transition)>::empty()],
            },
            visited,
        )
    } else {
        spec_splice(
            grid,
            w,
            h,
            inputs,
            outputs,
            fc,
            head,
            branches,
            0,
            spec_prefix(cur, last_t, step),
            visited,
        )
    }
}

/// Splices the sub-branches for the branch set entries from `k` on onto the
/// accumulated states, threading the visited bitmap through.
pub open spec fn spec_splice(
    grid: Seq<Color>,
    w: int,
    h: int,
    inputs: Seq<Color>,
    outputs: Seq<Color>,
    fc: Color,
    head: Point,
    branches: Seq<Point>,
    k: int,
    states: Seq<Seq<(usize, Transition)>>,
    visited: Seq<bool>,
) -> (Seq<Seq<(usize, Transition)>>, Seq<bool>)
    decreases count_false(visited), 8int, branches.len() - k,
    via spec_splice_dec
{
    if k < 0 || k >= branches.len() {
        (states, visited)
    } else {
        let np = padd(head, branches[k]);
        let idx = spec_index_of(np, w);
        if 0 <= idx < visited.len() && !visited[idx] {
            let v1 = visited.update(idx, true);
            let r = spec_follow(grid, w, h, inputs, outputs, fc, np, head, v1);
            let rest = r.0;
            // The construction only ever adds marks; this guard keeps the
            // recursion well founded on bitmaps no walk produces.
            let v2 = if r.1.len() == visited.len() && count_false(r.1) <= count_false(v1) {
                r.1
            } else {
                v1
            };
            let base = states.len() as int;
            let shifted = rest.map_values(|row: Seq<(usize, Transition)>| shift_row(row, base));
            let combined = states + shifted;
            let cur = role_of(inputs, outputs, fc, grid[spec_index_of(head, w)]);
            let next = role_of(inputs, outputs, fc, grid[spec_index_of(np, w)]);
            let linked = combined.update(
                base - 1,
                combined[base - 1].push(
                    ((base as usize), link_transition(cur, next, branches[k])),
                ),
            );
            spec_splice(grid, w, h, inputs, outputs, fc, head, branches, k + 1, linked, v2)
        } else {
            spec_splice(grid, w, h, inputs, outputs, fc, head, branches, k + 1, states, visited)
        }
    }
}

#[via_fn]
proof fn spec_splice_dec(
    grid: Seq<Color>,
    w: int,
    h: int,
    inputs: Seq<Color>,
    outputs: Seq<Color>,
    fc: Color,
    head: Point,
    branches: Seq<Point>,
    k: int,
    states: Seq<Seq<(usize, Transition)>>,
    visited: Seq<bool>,
) {
    if 0 <= k < branches.len() {
        let np = padd(head, branches[k]);
        let idx = spec_index_of(np, w);
        if 0 <= idx < visited.len() && !visited[idx] {
            lemma_count_false_update(visited, idx);
        }
    }
}

/// Builds the branching state graph describing the glyph shape around
/// `head_pos`, as a depth-first walk that emits states instead of pixels.
/// Sub-branches are built recursively and spliced on, every transition
/// renumbered by the length of the prefix they are appended to.
pub fn follow(
    func_box: &Picture,
    ledger: &ColorLedger,
    head_pos: Point,
    last_head_pos: Point,
    visited: &mut Vec<bool>,
) -> (states: Vec<State>)
    requires
        func_box.wf(),
        func_box.in_bounds(head_pos),
        func_box.in_bounds(last_head_pos),
        ledger.classify(func_box.pix(head_pos)) is Some,
        ledger.classify(func_box.pix(last_head_pos)) is Some,
        old(visited)@.len() == func_box.pixels@.len(),
    ensures
        final(visited)@.len() == old(visited)@.len(),
        forall|t: int| 0 <= t < old(visited)@.len() ==> old(visited)@[t] ==> final(visited)@[t],
        states@.len() >= 1,
        states_ok(states@, states@.len() as int, states@.len() as int + 3),
        states@.len() + 4 * count_false(final(visited)@) <= 4 + 4 * count_false(old(visited)@),
        states_model(states@) == spec_follow(
            func_box.pixels@,
            func_box.width as int,
            func_box.height as int,
            ledger.inputs@,
            ledger.outputs@,
            ledger.function,
            head_pos,
            last_head_pos,
            old(visited)@,
        ).0,
        final(visited)@ == spec_follow(
            func_box.pixels@,
            func_box.width as int,
            func_box.height as int,
            ledger.inputs@,
            ledger.outputs@,
            ledger.function,
            head_pos,
            last_head_pos,
            old(visited)@,
        ).1,
    decreases count_false(visited@),
{
    let ghost v0 = visited@;
    let ghost cf0 = count_false(v0);
    let w = func_box.width;

    // The branch set: neighbor offsets whose pixel is in bounds and relevant.
    let mut surrounding_pixels: Vec<Point> = Vec::new();
    let mut si: usize = 0;
    while si < 8
        invariant
            func_box.wf(),
            func_box.in_bounds(head_pos),
            w == func_box.width,
            si <= 8,
            surrounding_pixels@ == spec_branches(func_box.pixels@, func_box.width as int, func_box.height as int, ledger.inputs@, ledger.outputs@, ledger.function, head_pos, si as int),
            forall|k: int|
                0 <= k < surrounding_pixels@.len() ==> {
                    let np = padd(head_pos, #[trigger] surrounding_pixels@[k]);
                    &&& -1 <= surrounding_pixels@[k].x <= 1
                    &&& -1 <= surrounding_pixels@[k].y <= 1
                    &&& func_box.in_bounds(np)
                    &&& ledger.classify(func_box.pix(np)) is Some
                },
        decreases 8 - si,
    {
        let ghost bpre = surrounding_pixels@;
        let pos = crate::glyphdetect::point::surrounding(si);
        let new_pos = Point { x: head_pos.x + pos.x, y: head_pos.y + pos.y };
        if new_pos.x >= 0 && new_pos.y >= 0 && new_pos.x < w && new_pos.y < func_box.height {
            let temp_color = func_box.get(new_pos);
            if ledger.identify(&temp_color).is_some() {
                proof {
                    assert(new_pos == padd(head_pos, pos));
                }
                surrounding_pixels.push(pos);
            }
        }
        proof {
            let np = padd(head_pos, spec_surrounding(si as int));
            assert(np == new_pos);
            assert(surrounding_pixels@ == spec_branches(
                func_box.pixels@,
                func_box.width as int,
                func_box.height as int,
                ledger.inputs@,
                ledger.outputs@,
                ledger.function,
                head_pos,
                si as int + 1,
            ));
        }
        si += 1;
    }
    let len_surround = surrounding_pixels.len();
    let ghost branches = surrounding_pixels@;

    let last_color = func_box.get(last_head_pos);
    let last_type = match ledger.identify(&last_color) {
        Some(t) => t,
        None => unreached(),
    };
    let cur_color = func_box.get(head_pos);
    let cur_type = match ledger.identify(&cur_color) {
        Some(t) => t,
        None => unreached(),
    };
    proof {
        assert(branches == spec_branches(func_box.pixels@, func_box.width as int, func_box.height as int, ledger.inputs@, ledger.outputs@, ledger.function, head_pos, 8));
        assert(last_type == role_of(ledger.inputs@, ledger.outputs@, ledger.function, func_box.pix(last_head_pos)));
        assert(cur_type == role_of(ledger.inputs@, ledger.outputs@, ledger.function, func_box.pix(head_pos)));
        assert((head_pos != last_head_pos) == !(head_pos.x == last_head_pos.x && head_pos.y
            == last_head_pos.y));
    }

    // Base case: a dead end. A lone loop-marker end emits the full capture
    // scaffold; a loop marker behind another loop marker is already covered
    // by its predecessor's scaffold.
    if len_surround == 1 && !(head_pos.x == last_head_pos.x && head_pos.y == last_head_pos.y) {
        match cur_type {
            ColorType::Loop(id) => {
                match last_type {
                    ColorType::Loop(_) => {
                        let states = vec![State { t: Vec::new() }];
                        proof {
                            assert(states_ok(states@, states@.len() as int, states@.len() as int + 3));
                            assert(states_model(states@) =~= seq![
                                Seq::<(usize, Transition)>::empty(),
                            ]);
                            assert(states_model(states@) == spec_follow(
                                func_box.pixels@,
                                func_box.width as int,
                                func_box.height as int,
                                ledger.inputs@,
                                ledger.outputs@,
                                ledger.function,
                                head_pos,
                                last_head_pos,
                                v0,
                            ).0);
                        }
                        return states;
                    },
                    _ => {
                        let step = Point {
                            x: head_pos.x - last_head_pos.x,
                            y: head_pos.y - last_head_pos.y,
                        };
                        let states = vec![
                            State { t: vec![(1usize, Transition::CaptureType(last_type, id))] },
                            State {
                                t: vec![
                                    (
                                        2usize,
                                        Transition::MoveRelativeStateConsume(1, step, last_type),
                                    ),
                                    (2usize, Transition::Epsilon),
                                ],
                            },
                            State {
                                t: vec![
                                    (1usize, Transition::Epsilon),
                                    (3usize, Transition::EndCapture),
                                ],
                            },
                            State { t: Vec::new() },
                        ];
                        proof {
                            assert(states_ok(states@, states@.len() as int, states@.len() as int + 3));
                            assert(step == spec_step(head_pos, last_head_pos));
                            assert(states@[0].t@ =~= capture_scaffold(step, last_type, id)[0]);
                            assert(states@[1].t@ =~= capture_scaffold(step, last_type, id)[1]);
                            assert(states@[2].t@ =~= capture_scaffold(step, last_type, id)[2]);
                            assert(states@[3].t@ =~= capture_scaffold(step, last_type, id)[3]);
                            assert(states_model(states@) =~= capture_scaffold(
                                step,
                                last_type,
                                id,
                            ));
                            assert(states_model(states@) == spec_follow(
                                func_box.pixels@,
                                func_box.width as int,
                                func_box.height as int,
                                ledger.inputs@,
                                ledger.outputs@,
                                ledger.function,
                                head_pos,
                                last_head_pos,
                                v0,
                            ).0);
                        }
                        return states;
                    },
                }
            },
            _ => {
                let states = vec![State { t: Vec::new() }];
                proof {
                    assert(states_ok(states@, states@.len() as int, states@.len() as int + 3));
                    assert(states_model(states@) =~= seq![Seq::<(usize, Transition)>::empty()]);
                    assert(states_model(states@) == spec_follow(
                        func_box.pixels@,
                        func_box.width as int,
                        func_box.height as int,
                        ledger.inputs@,
                        ledger.outputs@,
                        ledger.function,
                        head_pos,
                        last_head_pos,
                        v0,
                    ).0);
                }
                return states;
            },
        }
    }

    // General case: the prefix for this pixel, then one spliced sub-branch
    // per unvisited relevant neighbor.
    let mut states: Vec<State> = Vec::new();
    let ghost stepv = spec_step(head_pos, last_head_pos);
    match cur_type {
        ColorType::Loop(id) => {
            match last_type {
                ColorType::Loop(_) => {
                    states.push(State { t: Vec::new() });
                    proof {
                        assert(states_model(states@) =~= spec_prefix(
                            cur_type,
                            last_type,
                            stepv,
                        ));
                    }
                },
                _ => {
                    let step = Point {
                        x: head_pos.x - last_head_pos.x,
                        y: head_pos.y - last_head_pos.y,
                    };
                    states.push(
                        State { t: vec![(1usize, Transition::CaptureType(last_type, id))] },
                    );
                    states.push(
                        State {
                            t: vec![
                                (2usize, Transition::MoveRelativeStateConsume(1, step, last_type)),
                                (2usize, Transition::Epsilon),
                            ],
                        },
                    );
                    states.push(
                        State {
                            t: vec![
                                (1usize, Transition::Epsilon),
                                (3usize, Transition::EndCapture),
                            ],
                        },
                    );
                    states.push(State { t: Vec::new() });
                    proof {
                        assert(step == stepv);
                        assert(states@[0].t@ =~= capture_scaffold(stepv, last_type, id)[0]);
                        assert(states@[1].t@ =~= capture_scaffold(stepv, last_type, id)[1]);
                        assert(states@[2].t@ =~= capture_scaffold(stepv, last_type, id)[2]);
                        assert(states@[3].t@ =~= capture_scaffold(stepv, last_type, id)[3]);
                        assert(states_model(states@) =~= capture_scaffold(stepv, last_type, id));
                        assert(states_model(states@) =~= spec_prefix(
                            cur_type,
                            last_type,
                            stepv,
                        ));
                    }
                },
            }
        },
        _ => {
            states.push(State { t: Vec::new() });
            proof {
                assert(states_model(states@) =~= spec_prefix(cur_type, last_type, stepv));
            }
        },
    }
    let ghost target = spec_splice(
        func_box.pixels@,
        func_box.width as int,
        func_box.height as int,
        ledger.inputs@,
        ledger.outputs@,
        ledger.function,
        head_pos,
        branches,
        0,
        states_model(states@),
        visited@,
    );
    proof {
        assert(states_ok(states@, states@.len() as int, states@.len() as int + 3));
        assert(states@.len() <= 4);
        assert(spec_follow(func_box.pixels@, func_box.width as int, func_box.height as int, ledger.inputs@, ledger.outputs@, ledger.function, head_pos, last_head_pos, v0) == target);
    }

    let mut spi: usize = 0;
    while spi < surrounding_pixels.len()
        invariant
            func_box.wf(),
            func_box.in_bounds(head_pos),
            func_box.in_bounds(last_head_pos),
            ledger.classify(func_box.pix(head_pos)) is Some,
            w == func_box.width,
            spi <= surrounding_pixels@.len(),
            v0 == old(visited)@,
            visited@.len() == v0.len(),
            v0.len() == func_box.pixels@.len(),
            cf0 == count_false(v0),
            forall|t: int| 0 <= t < v0.len() ==> v0[t] ==> visited@[t],
            forall|k: int|
                0 <= k < surrounding_pixels@.len() ==> {
                    let np = padd(head_pos, #[trigger] surrounding_pixels@[k]);
                    &&& -1 <= surrounding_pixels@[k].x <= 1
                    &&& -1 <= surrounding_pixels@[k].y <= 1
                    &&& func_box.in_bounds(np)
                    &&& ledger.classify(func_box.pix(np)) is Some
                },
            states@.len() >= 1,
            states_ok(states@, states@.len() as int, states@.len() as int + 3),
            states@.len() + 4 * count_false(visited@) <= 4 + 4 * cf0,
            branches == surrounding_pixels@,
            cur_type == role_of(ledger.inputs@, ledger.outputs@, ledger.function, func_box.pix(head_pos)),
            spec_splice(
                func_box.pixels@,
                func_box.width as int,
                func_box.height as int,
                ledger.inputs@,
                ledger.outputs@,
                ledger.function,
                head_pos,
                branches,
                spi as int,
                states_model(states@),
                visited@,
            ) == target,
        decreases surrounding_pixels@.len() - spi,
    {
        let ghost s_pre = states_model(states@);
        let pos = surrounding_pixels[spi];
        let new_pos = Point { x: head_pos.x + pos.x, y: head_pos.y + pos.y };
        proof {
            assert(new_pos == padd(head_pos, surrounding_pixels@[spi as int]));
            lemma_index_in_range(new_pos, w as int, func_box.height as int);
            lemma_count_false_mono(v0, visited@);
        }
        let npi = get_index(new_pos, w);
        if !visited[npi] {
            let ghost vpre = visited@;
            visited[npi] = true;
            proof {
                lemma_count_false_update(vpre, spec_index_of(new_pos, w as int));
                assert(visited@ == vpre.update(spec_index_of(new_pos, w as int), true));
                assert(count_false(visited@) + 1 == count_false(vpre));
                assert(count_false(vpre) <= cf0);
                assert(count_false(visited@) < count_false(v0));
            }
            let mut rest_states = follow(func_box, ledger, new_pos, head_pos, visited);
            let ghost vpost = visited@;
            let ghost rest_m0 = states_model(rest_states@);
            let rlen = rest_states.len();
            let base = states.len();
            proof {
                lemma_count_false_mono(vpre.update(spec_index_of(new_pos, w as int), true), vpost);
                lemma_count_false_le(v0);
                assert(base + rlen + 4 <= usize::MAX);
                assert(rest_m0 == spec_follow(
                    func_box.pixels@,
                    func_box.width as int,
                    func_box.height as int,
                    ledger.inputs@,
                    ledger.outputs@,
                    ledger.function,
                    new_pos,
                    head_pos,
                    vpre.update(spec_index_of(new_pos, w as int), true),
                ).0);
                assert(rest_m0.len() == rlen);
            }

            // Shift the sub-branch's targets and reference indices past the
            // states accumulated so far.
            let mut ri: usize = 0;
            while ri < rest_states.len()
                invariant
                    rest_states@.len() == rlen,
                    ri <= rlen,
                    base + rlen + 4 <= usize::MAX,
                    rest_m0.len() == rlen,
                    forall|i: int| ri <= i < rlen ==> (#[trigger] rest_states@[i]).t@ == rest_m0[i],
                    forall|i: int|
                        0 <= i < ri ==> (#[trigger] rest_states@[i]).t@ == shift_row(
                            rest_m0[i],
                            base as int,
                        ),
                    forall|i: int, k: int|
                        0 <= i < rlen && 0 <= k < rest_states@[i].t@.len() && i >= ri ==> (
                        #[trigger] rest_states@[i].t@[k]).0 < rlen && trans_ref_ok(
                            rest_states@[i].t@[k].1,
                            rlen + 3,
                        ),
                    forall|i: int, k: int|
                        0 <= i < ri && 0 <= k < rest_states@[i].t@.len() ==> (
                        #[trigger] rest_states@[i].t@[k]).0 < base + rlen && base
                            <= rest_states@[i].t@[k].0 && trans_ref_ok(
                            rest_states@[i].t@[k].1,
                            base + rlen + 3,
                        ),
                decreases rlen - ri,
            {
                let tlen = rest_states[ri].t.len();
                let mut ti: usize = 0;
                while ti < tlen
                    invariant
                        ri < rest_states@.len(),
                        rest_states@.len() == rlen,
                        tlen == rest_states@[ri as int].t@.len(),
                        ti <= tlen,
                        base + rlen + 4 <= usize::MAX,
                        rest_m0.len() == rlen,
                        rest_m0[ri as int].len() == tlen,
                        forall|i: int|
                            ri < i < rlen ==> (#[trigger] rest_states@[i]).t@ == rest_m0[i],
                        forall|i: int|
                            0 <= i < ri ==> (#[trigger] rest_states@[i]).t@ == shift_row(
                                rest_m0[i],
                                base as int,
                            ),
                        forall|k: int|
                            ti <= k < tlen ==> (#[trigger] rest_states@[ri as int].t@[k])
                                == rest_m0[ri as int][k],
                        forall|k: int|
                            0 <= k < ti ==> (#[trigger] rest_states@[ri as int].t@[k])
                                == shift_row(rest_m0[ri as int], base as int)[k],
                        forall|i: int, k: int|
                            0 <= i < rlen && 0 <= k < rest_states@[i].t@.len() && i > ri ==> (
                            #[trigger] rest_states@[i].t@[k]).0 < rlen && trans_ref_ok(
                                rest_states@[i].t@[k].1,
                                rlen + 3,
                            ),
                        forall|k: int|
                            ti <= k < tlen ==> (#[trigger] rest_states@[ri as int].t@[k]).0 < rlen
                                && trans_ref_ok(rest_states@[ri as int].t@[k].1, rlen + 3),
                        forall|i: int, k: int|
                            0 <= i < ri && 0 <= k < rest_states@[i].t@.len() ==> (
                            #[trigger] rest_states@[i].t@[k]).0 < base + rlen && base
                                <= rest_states@[i].t@[k].0 && trans_ref_ok(
                                rest_states@[i].t@[k].1,
                                base + rlen + 3,
                            ),
                        forall|k: int|
                            0 <= k < ti ==> (#[trigger] rest_states@[ri as int].t@[k]).0 < base
                                + rlen && base <= rest_states@[ri as int].t@[k].0 && trans_ref_ok(
                                rest_states@[ri as int].t@[k].1,
                                base + rlen + 3,
                            ),
                    decreases tlen - ti,
                {
                    let (tgt, tr) = rest_states[ri].t[ti];
                    let ntr = match tr {
                        Transition::MoveRelativeStateConsume(s2, p2, c2) => {
                            Transition::MoveRelativeStateConsume(s2 + base, p2, c2)
                        },
                        Transition::MoveRelativeState(s2, p2) => {
                            Transition::MoveRelativeState(s2 + base, p2)
                        },
                        _ => tr,
                    };
                    rest_states[ri].t[ti] = (tgt + base, ntr);
                    proof {
                        assert(ntr == shift_transition(rest_m0[ri as int][ti as int].1, base as int));
                        assert(rest_states@[ri as int].t@[ti as int] == shift_row(
                            rest_m0[ri as int],
                            base as int,
                        )[ti as int]);
                    }
                    ti += 1;
                }
                proof {
                    assert(rest_states@[ri as int].t@ =~= shift_row(rest_m0[ri as int], base as int));
                }
                ri += 1;
            }
            states.append(&mut rest_states);
            let ghost shifted_m = rest_m0.map_values(
                |row: Seq<(usize, Transition)>| shift_row(row, base as int),
            );
            let ghost combined_m = s_pre + shifted_m;
            proof {
                assert(states@.len() == base + rlen);
                assert(states_ok(states@, states@.len() as int, states@.len() as int + 3));
                assert(s_pre.len() == base);
                assert forall|i: int| 0 <= i < base + rlen implies #[trigger] states_model(
                    states@,
                )[i] == combined_m[i] by {
                    if i < base {
                        assert(states_model(states@)[i] == states@[i].t@);
                        assert(combined_m[i] == s_pre[i]);
                    } else {
                        assert(states_model(states@)[i] == states@[i].t@);
                        assert(states@[i].t@ == shift_row(rest_m0[i - base], base as int));
                        assert(combined_m[i] == shifted_m[i - base]);
                    }
                }
                assert(states_model(states@) =~= combined_m);
            }

            let next_color = func_box.get(new_pos);
            let next_type = match ledger.identify(&next_color) {
                Some(t) => t,
                None => unreached(),
            };
            // The end of the prefix links to the start of the new sub-branch.
            let end_1 = base - 1;
            let start_2 = base;
            let transition: Transition = match next_type {
                // A loop neighbor consumes its own run: move without
                // consuming, or step over for free when already in a run.
                ColorType::Loop(_) => {
                    match cur_type {
                        ColorType::Loop(_) => Transition::Epsilon,
                        _ => Transition::MoveRelativeState(0, Point { x: 0, y: 0 }),
                    }
                },
                _ => {
                    match cur_type {
                        // Leaving a loop scaffold references the state past
                        // its capture entry, three slots on.
                        ColorType::Loop(_) => Transition::MoveRelativeStateConsume(
                            3,
                            pos,
                            next_type,
                        ),
                        _ => Transition::MoveRelativeStateConsume(0, pos, next_type),
                    }
                },
            };
            let ghost spre = states@;
            states[end_1].t.push((start_2, transition));
            proof {
                assert forall|i: int, k: int|
                    0 <= i < states@.len() && 0 <= k < states@[i].t@.len() implies (
                #[trigger] states@[i].t@[k]).0 < states@.len() && trans_ref_ok(
                    states@[i].t@[k].1,
                    states@.len() as int + 3,
                ) by {
                    if i != end_1 || k < spre[i].t@.len() {
                        assert(states@[i].t@[k] == spre[i].t@[k]);
                    } else {
                        assert(states@[i].t@[k] == (start_2 as usize, transition));
                    }
                }
                // One splice step of the model matches what was just built.
                assert(next_type == role_of(ledger.inputs@, ledger.outputs@, ledger.function, func_box.pix(new_pos)));
                assert(transition == link_transition(cur_type, next_type, pos));
                let ghost linked_m = combined_m.update(
                    end_1 as int,
                    combined_m[end_1 as int].push(((base as usize), transition)),
                );
                assert forall|i: int| 0 <= i < states@.len() implies #[trigger] states_model(
                    states@,
                )[i] == linked_m[i] by {
                    assert(states_model(states@)[i] == states@[i].t@);
                    if i != end_1 {
                        assert(states@[i].t@ == spre[i].t@);
                        assert(spre[i].t@ == combined_m[i]);
                    } else {
                        assert(states@[i].t@ =~= combined_m[i].push(
                            ((base as usize), transition),
                        ));
                    }
                }
                assert(states_model(states@) =~= linked_m);
                let idx = spec_index_of(new_pos, w as int);
                let v1 = vpre.update(idx, true);
                assert(count_false(vpost) <= count_false(v1));
                assert(vpost.len() == vpre.len());
                assert(spec_splice(
                    func_box.pixels@,
                    func_box.width as int,
                    func_box.height as int,
                    ledger.inputs@,
                    ledger.outputs@,
                    ledger.function,
                    head_pos,
                    branches,
                    spi as int,
                    s_pre,
                    vpre,
                ) == spec_splice(
                    func_box.pixels@,
                    func_box.width as int,
                    func_box.height as int,
                    ledger.inputs@,
                    ledger.outputs@,
                    ledger.function,
                    head_pos,
                    branches,
                    spi as int + 1,
                    linked_m,
                    vpost,
                ));
            }
        } else {
            proof {
                assert(spec_splice(
                    func_box.pixels@,
                    func_box.width as int,
                    func_box.height as int,
                    ledger.inputs@,
                    ledger.outputs@,
                    ledger.function,
                    head_pos,
                    branches,
                    spi as int,
                    states_model(states@),
                    visited@,
                ) == spec_splice(
                    func_box.pixels@,
                    func_box.width as int,
                    func_box.height as int,
                    ledger.inputs@,
                    ledger.outputs@,
                    ledger.function,
                    head_pos,
                    branches,
                    spi as int + 1,
                    states_model(states@),
                    visited@,
                ));
            }
        }
        spi += 1;
    }
    proof {
        assert(spec_splice(
            func_box.pixels@,
            func_box.width as int,
            func_box.height as int,
            ledger.inputs@,
            ledger.outputs@,
            ledger.function,
            head_pos,
            branches,
            spi as int,
            states_model(states@),
            visited@,
        ) == (states_model(states@), visited@));
    }
    states
}

/// The evidence accumulated by a successful match: consumed function pixels,
/// consumed input and output pixels with their roles, and the closed capture
/// groups as (id, run length) pairs.
#[derive(Debug, Clone)]
pub struct FSMResult {
    pub func: Vec<(Point, Color)>,
    pub inpt: Vec<(Point, Color, ColorType)>,
    pub outp: Vec<(Point, Color, ColorType)>,
    pub capt: Vec<(u8, i32)>,
}

/// Failure to match: a transition led out of bounds, into a consumed pixel,
/// or every alternative of a state was exhausted.
#[derive(Debug)]
pub enum FSMError {
    Missing,
}

/// No pixel position appears twice across the consumed-pixel records.
pub open spec fn res_distinct(res: FSMResult) -> bool {
    &&& forall|k: int, l: int|
        0 <= k < l < res.func@.len() ==> (#[trigger] res.func@[k]).0 != (#[trigger] res.func@[l]).0
    &&& forall|k: int, l: int|
        0 <= k < l < res.inpt@.len() ==> (#[trigger] res.inpt@[k]).0 != (#[trigger] res.inpt@[l]).0
    &&& forall|k: int, l: int|
        0 <= k < l < res.outp@.len() ==> (#[trigger] res.outp@[k]).0 != (#[trigger] res.outp@[l]).0
    &&& forall|k: int, l: int|
        0 <= k < res.func@.len() && 0 <= l < res.inpt@.len() ==> (#[trigger] res.func@[k]).0 != (
        #[trigger] res.inpt@[l]).0
    &&& forall|k: int, l: int|
        0 <= k < res.func@.len() && 0 <= l < res.outp@.len() ==> (#[trigger] res.func@[k]).0 != (
        #[trigger] res.outp@[l]).0
    &&& forall|k: int, l: int|
        0 <= k < res.inpt@.len() && 0 <= l < res.outp@.len() ==> (#[trigger] res.inpt@[k]).0 != (
        #[trigger] res.outp@[l]).0
}

/// Every recorded pixel position lies on the grid.
pub open spec fn res_in_bounds(res: FSMResult, p: Picture) -> bool {
    &&& forall|k: int| 0 <= k < res.func@.len() ==> p.in_bounds((#[trigger] res.func@[k]).0)
    &&& forall|k: int| 0 <= k < res.inpt@.len() ==> p.in_bounds((#[trigger] res.inpt@[k]).0)
    &&& forall|k: int| 0 <= k < res.outp@.len() ==> p.in_bounds((#[trigger] res.outp@[k]).0)
}

/// Every recorded position is an unconsumed (non-blank) in-bounds pixel of
/// `p`, recorded with the very color `p` holds there.
pub open spec fn res_ok(res: FSMResult, p: Picture) -> bool {
    &&& forall|k: int|
        0 <= k < res.func@.len() ==> p.in_bounds((#[trigger] res.func@[k]).0) && p.pix(
            res.func@[k].0,
        ) != crate::glyphdetect::color::white() && res.func@[k].1 == p.pix(res.func@[k].0)
    &&& forall|k: int|
        0 <= k < res.inpt@.len() ==> p.in_bounds((#[trigger] res.inpt@[k]).0) && p.pix(
            res.inpt@[k].0,
        ) != crate::glyphdetect::color::white() && res.inpt@[k].1 == p.pix(res.inpt@[k].0)
    &&& forall|k: int|
        0 <= k < res.outp@.len() ==> p.in_bounds((#[trigger] res.outp@[k]).0) && p.pix(
            res.outp@[k].0,
        ) != crate::glyphdetect::color::white() && res.outp@[k].1 == p.pix(res.outp@[k].0)
    &&& res_distinct(res)
}

/// A result that is valid against a picture with one pixel blanked is valid
/// against the original picture, and that pixel is not among its records.
proof fn lemma_res_transfer(o: FSMResult, pw: Picture, pe: Picture, np: Point)
    requires
        res_ok(o, pw),
        pe.wf(),
        pw.width == pe.width,
        pw.height == pe.height,
        pw.pixels@ == pe.pixels@.update(
            spec_index_of(np, pe.width as int),
            crate::glyphdetect::color::white(),
        ),
        pe.in_bounds(np),
    ensures
        res_ok(o, pe),
        forall|k: int| 0 <= k < o.func@.len() ==> (#[trigger] o.func@[k]).0 != np,
        forall|k: int| 0 <= k < o.inpt@.len() ==> (#[trigger] o.inpt@[k]).0 != np,
        forall|k: int| 0 <= k < o.outp@.len() ==> (#[trigger] o.outp@[k]).0 != np,
{
    let w = pe.width as int;
    let h = pe.height as int;
    lemma_index_in_range(np, w, h);
    assert forall|k: int| 0 <= k < o.func@.len() implies {
        let q = (#[trigger] o.func@[k]).0;
        &&& pe.in_bounds(q)
        &&& pe.pix(q) != crate::glyphdetect::color::white()
        &&& o.func@[k].1 == pe.pix(q)
        &&& q != np
    } by {
        let q = o.func@[k].0;
        lemma_index_in_range(q, w, h);
        if spec_index_of(q, w) == spec_index_of(np, w) {
            crate::glyphdetect::point::lemma_index_injective(q, np, w);
        }
    }
    assert forall|k: int| 0 <= k < o.inpt@.len() implies {
        let q = (#[trigger] o.inpt@[k]).0;
        &&& pe.in_bounds(q)
        &&& pe.pix(q) != crate::glyphdetect::color::white()
        &&& o.inpt@[k].1 == pe.pix(q)
        &&& q != np
    } by {
        let q = o.inpt@[k].0;
        lemma_index_in_range(q, w, h);
        if spec_index_of(q, w) == spec_index_of(np, w) {
            crate::glyphdetect::point::lemma_index_injective(q, np, w);
        }
    }
    assert forall|k: int| 0 <= k < o.outp@.len() implies {
        let q = (#[trigger] o.outp@[k]).0;
        &&& pe.in_bounds(q)
        &&& pe.pix(q) != crate::glyphdetect::color::white()
        &&& o.outp@[k].1 == pe.pix(q)
        &&& q != np
    } by {
        let q = o.outp@[k].0;
        lemma_index_in_range(q, w, h);
        if spec_index_of(q, w) == spec_index_of(np, w) {
            crate::glyphdetect::point::lemma_index_injective(q, np, w);
        }
    }
}

/// The point with the smallest row, then column, among recorded pixels.
pub open spec fn seed_of(gpix: Seq<(Point, Color)>, q: Point) -> bool {
    &&& exists|k: int| 0 <= k < gpix.len() && (#[trigger] gpix[k]).0 == q
    &&& forall|k: int|
        0 <= k < gpix.len() ==> q.y < (#[trigger] gpix[k]).0.y || (q.y == gpix[k].0.y && q.x
            <= gpix[k].0.x)
}

/// The topmost-then-leftmost recorded pixel.
pub open spec fn glyph_seed(gpix: Seq<(Point, Color)>) -> Point {
    choose|q: Point| seed_of(gpix, q)
}

/// A pixel list has at most one topmost-then-leftmost point.
pub proof fn lemma_seed_unique(gpix: Seq<(Point, Color)>, a: Point, b: Point)
    requires
        seed_of(gpix, a),
        seed_of(gpix, b),
    ensures
        a == b,
{
    let ka = choose|k: int| 0 <= k < gpix.len() && (#[trigger] gpix[k]).0 == a;
    let kb = choose|k: int| 0 <= k < gpix.len() && (#[trigger] gpix[k]).0 == b;
    assert(a.y < gpix[kb].0.y || (a.y == gpix[kb].0.y && a.x <= gpix[kb].0.x));
    assert(b.y < gpix[ka].0.y || (b.y == gpix[ka].0.y && b.x <= gpix[ka].0.x));
}

/// The evidence a successful match accumulates, as mathematical sequences.
pub struct MatchEvidence {
    pub func: Seq<(Point, Color)>,
    pub inpt: Seq<(Point, Color, ColorType)>,
    pub outp: Seq<(Point, Color, ColorType)>,
    pub capt: Seq<(u8, i32)>,
}

/// The evidence a result carries.
pub open spec fn evidence_of(r: FSMResult) -> MatchEvidence {
    MatchEvidence { func: r.func@, inpt: r.inpt@, outp: r.outp@, capt: r.capt@ }
}

/// The evidence with the pixel at `np` of color `color` recorded under the
/// expected role `c`; run pixels only count toward the capture.
pub open spec fn record_role(r: MatchEvidence, np: Point, color: Color, c: ColorType) -> MatchEvidence {
    match c {
        ColorType::Output(_) => MatchEvidence { outp: r.outp.push((np, color, c)), ..r },
        ColorType::Input(_) => MatchEvidence { inpt: r.inpt.push((np, color, c)), ..r },
        ColorType::Function => MatchEvidence { func: r.func.push((np, color)), ..r },
        ColorType::Loop(_) => r,
    }
}

/// The evidence with an open capture's most recent count grown by one.
pub open spec fn bump_capture(r: MatchEvidence, capture: int) -> MatchEvidence {
    if capture != -1 && r.capt.len() > 0 {
        let end = r.capt.len() - 1;
        let entry = r.capt[end as int];
        if entry.1 < i32::MAX {
            MatchEvidence { capt: r.capt.update(end as int, (entry.0, (entry.1 + 1) as i32)), ..r }
        } else {
            r
        }
    } else {
        r
    }
}

/// The evidence after consuming the pixel at `np` of color `color` under the
/// expected role `c`.
pub open spec fn consume_evidence(
    r: MatchEvidence,
    np: Point,
    color: Color,
    c: ColorType,
    capture: int,
) -> MatchEvidence {
    bump_capture(record_role(r, np, color, c), capture)
}

/// The evidence with the most recent capture slot stamped by a group id.
pub open spec fn stamp_evidence(r: MatchEvidence, jid: u8) -> MatchEvidence {
    if r.capt.len() > 0 {
        let end = r.capt.len() - 1;
        MatchEvidence { capt: r.capt.update(end as int, (jid, r.capt[end as int].1)), ..r }
    } else {
        r
    }
}

/// The matcher's result on a machine model: `None` for a failed search,
/// `Some` evidence for the first success in declared transition order. It
/// mirrors the interpreter exactly, including the single-step free-move
/// guard and the per-alternative failures, so the interpreter's result is a
/// function of its inputs.
pub open spec fn spec_machine(
    fsm: Seq<Seq<(usize, Transition)>>,
    cur_step: int,
    cur_head: Point,
    grid: Seq<Color>,
    w: int,
    h: int,
    hist: Seq<(usize, Transition, usize)>,
    sp: Seq<Point>,
    capture: int,
    fuel: nat,
) -> Option<MatchEvidence>
    decreases fuel, 1int, 0int,
{
    if fuel == 0 {
        None
    } else if cur_step < 0 || cur_step >= fsm.len() {
        None
    } else if fsm[cur_step].len() == 0 {
        Some(
            MatchEvidence {
                func: Seq::empty(),
                inpt: Seq::empty(),
                outp: Seq::empty(),
                capt: Seq::empty(),
            },
        )
    } else {
        spec_try(fsm, cur_step, cur_head, grid, w, h, hist, sp.update(cur_step, cur_head), capture, 0, fuel)
    }
}

/// Tries the transitions of the current state from index `k` on, in declared
/// order; the first alternative whose sub-search succeeds wins.
pub open spec fn spec_try(
    fsm: Seq<Seq<(usize, Transition)>>,
    cur_step: int,
    cur_head: Point,
    grid: Seq<Color>,
    w: int,
    h: int,
    hist: Seq<(usize, Transition, usize)>,
    sp: Seq<Point>,
    capture: int,
    k: int,
    fuel: nat,
) -> Option<MatchEvidence>
    decreases fuel, 0int, fsm[cur_step].len() - k,
{
    if fuel == 0 || cur_step < 0 || cur_step >= fsm.len() || k < 0 || k >= fsm[cur_step].len() {
        None
    } else {
        let (i, tr) = fsm[cur_step][k];
        let attempt: Option<MatchEvidence> = match tr {
            Transition::MoveRelativeState(j, pos) => {
                if j < sp.len() && i32::MIN <= sp[j as int].x + pos.x <= i32::MAX && i32::MIN
                    <= sp[j as int].y + pos.y <= i32::MAX {
                    let nh = Point {
                        x: (sp[j as int].x + pos.x) as i32,
                        y: (sp[j as int].y + pos.y) as i32,
                    };
                    spec_machine(
                        fsm,
                        i as int,
                        nh,
                        grid,
                        w,
                        h,
                        hist.push((cur_step as usize, tr, i)),
                        sp,
                        capture,
                        (fuel - 1) as nat,
                    )
                } else {
                    None
                }
            },
            Transition::MoveRelativeStateConsume(j, pos, c) => {
                if j < sp.len() && 0 <= sp[j as int].x + pos.x < w && 0 <= sp[j as int].y + pos.y
                    < h {
                    let np = Point {
                        x: (sp[j as int].x + pos.x) as i32,
                        y: (sp[j as int].y + pos.y) as i32,
                    };
                    let idx = spec_index_of(np, w);
                    let color = grid[idx];
                    if color != crate::glyphdetect::color::white() {
                        match spec_machine(
                            fsm,
                            i as int,
                            np,
                            grid.update(idx, crate::glyphdetect::color::white()),
                            w,
                            h,
                            hist.push((cur_step as usize, tr, i)),
                            sp,
                            capture,
                            (fuel - 1) as nat,
                        ) {
                            Some(r) => Some(consume_evidence(r, np, color, c, capture)),
                            None => None,
                        }
                    } else {
                        None
                    }
                } else {
                    None
                }
            },
            Transition::Epsilon => {
                if hist.len() > 0 && hist.last().1 == Transition::Epsilon && hist.last().2
                    == cur_step {
                    None
                } else {
                    spec_machine(
                        fsm,
                        i as int,
                        cur_head,
                        grid,
                        w,
                        h,
                        hist.push((cur_step as usize, tr, i)),
                        sp,
                        capture,
                        (fuel - 1) as nat,
                    )
                }
            },
            Transition::CaptureType(_ct, jid) => {
                match spec_machine(
                    fsm,
                    i as int,
                    cur_head,
                    grid,
                    w,
                    h,
                    hist,
                    sp,
                    jid as int,
                    (fuel - 1) as nat,
                ) {
                    Some(r) => Some(stamp_evidence(r, jid)),
                    None => None,
                }
            },
            Transition::EndCapture => {
                match spec_machine(
                    fsm,
                    i as int,
                    cur_head,
                    grid,
                    w,
                    h,
                    hist,
                    sp,
                    -1,
                    (fuel - 1) as nat,
                ) {
                    Some(r) => Some(MatchEvidence { capt: r.capt.push((0u8, 0i32)), ..r }),
                    None => None,
                }
            },
        };
        if attempt is Some {
            attempt
        } else {
            spec_try(fsm, cur_step, cur_head, grid, w, h, hist, sp, capture, k + 1, fuel)
        }
    }
}

/// The result of running a machine model against a picture, seeded at the
/// glyph's topmost-then-leftmost pixel: that pixel is consumed up front and,
/// on success, reported as the machine's own function pixel.
pub open spec fn spec_do_machine(
    fsm: Seq<Seq<(usize, Transition)>>,
    gpix: Seq<(Point, Color)>,
    grid: Seq<Color>,
    w: int,
    h: int,
) -> Option<MatchEvidence> {
    let seed = glyph_seed(gpix);
    let color = grid[spec_index_of(seed, w)];
    let grid1 = grid.update(spec_index_of(seed, w), crate::glyphdetect::color::white());
    match spec_machine(
        fsm,
        0,
        seed,
        grid1,
        w,
        h,
        Seq::empty(),
        Seq::new(fsm.len(), |t: int| Point { x: 0, y: 0 }),
        -1,
        u64::MAX as nat,
    ) {
        Some(r) => Some(MatchEvidence { func: r.func.push((seed, color)), ..r }),
        None => None,
    }
}

impl FSM {
    /// The recursive matcher. Walks the machine from `cur_step` with the head
    /// at `cur_head`, trying each transition of the state in declared order;
    /// the first success wins. `state_pos` records the head position at every
    /// state entered; `history` guards single-step free-move cycles;
    /// `capture` is the open capture id, or -1 for none. `fuel` bounds the
    /// recursion depth, since a malformed machine could chain free moves
    /// forever; the entry point passes a depth no search exhausts.
    fn follow_machine(
        &self,
        cur_step: usize,
        cur_head: Point,
        p: Picture,
        history: Vec<(usize, Transition, usize)>,
        state_pos: Vec<Point>,
        capture: i16,
        fuel: u64,
    ) -> (r: Result<FSMResult, FSMError>)
        requires
            self.wf(),
            p.wf(),
            cur_step < self.states@.len(),
            state_pos@.len() == self.states@.len(),
        ensures
            r matches Ok(res) ==> res_ok(res, p),
            fuel == 0 ==> r is Err,
            fuel > 0 && self.states@[cur_step as int].t@.len() == 0 ==> (r matches Ok(res)
                && res.func@.len() == 0 && res.inpt@.len() == 0 && res.outp@.len() == 0
                && res.capt@.len() == 0),
            r matches Ok(res) ==> spec_machine(
                states_model(self.states@),
                cur_step as int,
                cur_head,
                p.pixels@,
                p.width as int,
                p.height as int,
                history@,
                state_pos@,
                capture as int,
                fuel as nat,
            ) == Some(evidence_of(res)),
            r is Err ==> spec_machine(
                states_model(self.states@),
                cur_step as int,
                cur_head,
                p.pixels@,
                p.width as int,
                p.height as int,
                history@,
                state_pos@,
                capture as int,
                fuel as nat,
            ) is None,
        decreases fuel,
    {
        let ghost target = spec_machine(
            states_model(self.states@),
            cur_step as int,
            cur_head,
            p.pixels@,
            p.width as int,
            p.height as int,
            history@,
            state_pos@,
            capture as int,
            fuel as nat,
        );
        if fuel == 0 {
            return Err(FSMError::Missing);
        }
        let fuel2 = fuel - 1;
        // A state with no transitions accepts; evidence accumulates on the
        // way back up.
        if self.states[cur_step].t.len() == 0 {
            let res = FSMResult {
                func: Vec::new(),
                inpt: Vec::new(),
                outp: Vec::new(),
                capt: Vec::new(),
            };
            proof {
                assert(states_model(self.states@)[cur_step as int].len() == 0);
                assert(evidence_of(res).func =~= Seq::<(Point, Color)>::empty());
                assert(evidence_of(res).inpt =~= Seq::<(Point, Color, ColorType)>::empty());
                assert(evidence_of(res).outp =~= Seq::<(Point, Color, ColorType)>::empty());
                assert(evidence_of(res).capt =~= Seq::<(u8, i32)>::empty());
                assert(target == Some(evidence_of(res)));
            }
            return Ok(res);
        }
        let mut positions = copy_vec(&state_pos);
        positions[cur_step] = cur_head;
        let ghost sp1 = state_pos@.update(cur_step as int, cur_head);
        let tn = self.states[cur_step].t.len();
        proof {
            assert(states_model(self.states@)[cur_step as int] =~= self.states@[cur_step as int].t@);
            assert(target == spec_try(
                states_model(self.states@),
                cur_step as int,
                cur_head,
                p.pixels@,
                p.width as int,
                p.height as int,
                history@,
                sp1,
                capture as int,
                0,
                fuel as nat,
            ));
        }
        let ghost fsmm = states_model(self.states@);
        let ghost gridv = p.pixels@;
        let ghost wv = p.width as int;
        let ghost hv = p.height as int;
        let ghost histv = history@;
        let ghost capv = capture as int;
        let ghost fuelv = fuel as nat;
        let mut k: usize = 0;
        while k < tn
            invariant
                self.wf(),
                cur_step < self.states@.len(),
                tn == self.states@[cur_step as int].t@.len(),
                k <= tn,
                positions@.len() == self.states@.len(),
                positions@ == sp1,
                sp1 == state_pos@.update(cur_step as int, cur_head),
                p.wf(),
                fuel > 0,
                fuel2 == fuel - 1,
                fsmm == states_model(self.states@),
                gridv == p.pixels@,
                wv == p.width as int,
                hv == p.height as int,
                histv == history@,
                capv == capture as int,
                fuelv == fuel as nat,
                target == spec_machine(
                    fsmm,
                    cur_step as int,
                    cur_head,
                    gridv,
                    wv,
                    hv,
                    histv,
                    state_pos@,
                    capv,
                    fuelv,
                ),
                target == spec_try(
                    fsmm,
                    cur_step as int,
                    cur_head,
                    gridv,
                    wv,
                    hv,
                    histv,
                    sp1,
                    capv,
                    k as int,
                    fuelv,
                ),
            decreases tn - k,
        {
            let (i, transition) = self.states[cur_step].t[k];
            proof {
                assert(self.states@[cur_step as int].t@[k as int].0 < self.states@.len()
                    && trans_ref_ok(
                    self.states@[cur_step as int].t@[k as int].1,
                    self.states@.len() as int + 3,
                ));
                assert(fsmm[cur_step as int] =~= self.states@[cur_step as int].t@);
                assert(fsmm[cur_step as int][k as int] == (i, transition));
            }
            let ghost next_try = spec_try(
                fsmm,
                cur_step as int,
                cur_head,
                gridv,
                wv,
                hv,
                histv,
                sp1,
                capv,
                k as int + 1,
                fuelv,
            );
            match transition {
                // Move the head relative to a recorded state position. A
                // reference past the table or a head leaving the
                // representable plane fails this alternative alone.
                Transition::MoveRelativeState(j, pos) => {
                    if j < positions.len() {
                        let bx = positions[j].x as i64 + pos.x as i64;
                        let by = positions[j].y as i64 + pos.y as i64;
                        if i32::MIN as i64 <= bx && bx <= i32::MAX as i64 && i32::MIN as i64 <= by
                            && by <= i32::MAX as i64 {
                            let nh = Point { x: bx as i32, y: by as i32 };
                            let mut my_history = copy_vec(&history);
                            my_history.push((cur_step, transition, i));
                            proof {
                                assert(my_history@ == histv.push((cur_step, transition, i)));
                            }
                            let rest = self.follow_machine(
                                i,
                                nh,
                                p.duplicate(),
                                my_history,
                                copy_vec(&positions),
                                capture,
                                fuel2,
                            );
                            match rest {
                                Ok(o) => {
                                    proof {
                                        assert(target == Some(evidence_of(o)));
                                    }
                                    return Ok(o);
                                },
                                Err(_) => {
                                    proof {
                                        assert(target == next_try);
                                    }
                                },
                            }
                        } else {
                            proof {
                                assert(target == next_try);
                            }
                        }
                    } else {
                        proof {
                            assert(target == next_try);
                        }
                    }
                },
                // Move, then consume the pixel there; a consume that
                // references past the table, lands out of bounds, or hits a
                // blank pixel fails this alternative alone.
                Transition::MoveRelativeStateConsume(j, pos, c) => {
                    if j < positions.len() {
                        let bx = positions[j].x as i64 + pos.x as i64;
                        let by = positions[j].y as i64 + pos.y as i64;
                        if 0 <= bx && bx < p.width as i64 && 0 <= by && by < p.height as i64 {
                            let new_point = Point { x: bx as i32, y: by as i32 };
                            let color = p.get(new_point);
                            if !(color == Color::white()) {
                                let mut work = p.duplicate();
                                work.set(new_point, Color::white());
                                let ghost pw = work;
                                let mut my_history = copy_vec(&history);
                                my_history.push((cur_step, transition, i));
                                proof {
                                    lemma_index_in_range(new_point, wv, hv);
                                    assert(my_history@ == histv.push((cur_step, transition, i)));
                                    assert(pw.pixels@ == gridv.update(
                                        spec_index_of(new_point, wv),
                                        crate::glyphdetect::color::white(),
                                    ));
                                }
                                let rest = self.follow_machine(
                                    i,
                                    new_point,
                                    work,
                                    my_history,
                                    copy_vec(&positions),
                                    capture,
                                    fuel2,
                                );
                                match rest {
                                    Ok(o) => {
                                        let mut fsm = o;
                                        let ghost ev0 = evidence_of(fsm);
                                        proof {
                                            lemma_res_transfer(fsm, pw, p, new_point);
                                        }
                                        match c {
                                            ColorType::Output(_) => {
                                                fsm.outp.push((new_point, color, c));
                                                proof {
                                                    assert(evidence_of(fsm) == record_role(
                                                        ev0,
                                                        new_point,
                                                        color,
                                                        c,
                                                    ));
                                                }
                                            },
                                            ColorType::Input(_) => {
                                                fsm.inpt.push((new_point, color, c));
                                                proof {
                                                    assert(evidence_of(fsm) == record_role(
                                                        ev0,
                                                        new_point,
                                                        color,
                                                        c,
                                                    ));
                                                }
                                            },
                                            ColorType::Function => {
                                                fsm.func.push((new_point, color));
                                                proof {
                                                    assert(evidence_of(fsm) == record_role(
                                                        ev0,
                                                        new_point,
                                                        color,
                                                        c,
                                                    ));
                                                }
                                            },
                                            ColorType::Loop(_) => {
                                                // Run pixels only advance the open capture.
                                                proof {
                                                    assert(evidence_of(fsm) == record_role(
                                                        ev0,
                                                        new_point,
                                                        color,
                                                        c,
                                                    ));
                                                }
                                            },
                                        }
                                        let ghost ev1 = evidence_of(fsm);
                                        if capture != -1 && fsm.capt.len() > 0 {
                                            let end = fsm.capt.len() - 1;
                                            let (cid, ccount) = fsm.capt[end];
                                            if ccount < i32::MAX {
                                                fsm.capt[end] = (cid, ccount + 1);
                                                proof {
                                                    assert(evidence_of(fsm) == bump_capture(
                                                        ev1,
                                                        capv,
                                                    ));
                                                }
                                            } else {
                                                proof {
                                                    assert(evidence_of(fsm) == bump_capture(
                                                        ev1,
                                                        capv,
                                                    ));
                                                }
                                            }
                                        } else {
                                            proof {
                                                assert(evidence_of(fsm) == bump_capture(ev1, capv));
                                            }
                                        }
                                        proof {
                                            assert(res_ok(fsm, p));
                                            assert(evidence_of(fsm) == consume_evidence(
                                                ev0,
                                                new_point,
                                                color,
                                                c,
                                                capv,
                                            ));
                                            assert(target == Some(evidence_of(fsm)));
                                        }
                                        return Ok(fsm);
                                    },
                                    Err(_) => {
                                        proof {
                                            assert(target == next_try);
                                        }
                                    },
                                }
                            } else {
                                proof {
                                    lemma_index_in_range(new_point, wv, hv);
                                    assert(target == next_try);
                                }
                            }
                        } else {
                            proof {
                                assert(target == next_try);
                            }
                        }
                    } else {
                        proof {
                            assert(target == next_try);
                        }
                    }
                },
                // A free state change; it fails as an alternative when the
                // step just taken was already a free move into this state.
                Transition::Epsilon => {
                    let mut blocked = false;
                    if history.len() > 0 {
                        let (_hs, ht, hn) = history[history.len() - 1];
                        if ht == Transition::Epsilon && hn == cur_step {
                            blocked = true;
                        }
                    }
                    proof {
                        assert(blocked == (histv.len() > 0 && histv.last().1 == Transition::Epsilon
                            && histv.last().2 == cur_step as int));
                    }
                    if !blocked {
                        let mut my_history = copy_vec(&history);
                        my_history.push((cur_step, transition, i));
                        proof {
                            assert(my_history@ == histv.push((cur_step, transition, i)));
                        }
                        let rest = self.follow_machine(
                            i,
                            cur_head,
                            p.duplicate(),
                            my_history,
                            copy_vec(&positions),
                            capture,
                            fuel2,
                        );
                        match rest {
                            Ok(o) => {
                                proof {
                                    assert(target == Some(evidence_of(o)));
                                }
                                return Ok(o);
                            },
                            Err(_) => {
                                proof {
                                    assert(target == next_try);
                                }
                            },
                        }
                    } else {
                        proof {
                            assert(target == next_try);
                        }
                    }
                },
                // Opens a capture group: its pixel count accumulates while it
                // is open, and the id is stamped on the way back up.
                Transition::CaptureType(_ct, jid) => {
                    let rest = self.follow_machine(
                        i,
                        cur_head,
                        p.duplicate(),
                        copy_vec(&history),
                        copy_vec(&positions),
                        jid as i16,
                        fuel2,
                    );
                    proof {
                        assert((jid as i16) as int == jid as int);
                    }
                    match rest {
                        Ok(o) => {
                            let mut fsm = o;
                            let ghost ev0 = evidence_of(fsm);
                            if fsm.capt.len() > 0 {
                                let end = fsm.capt.len() - 1;
                                let (_cid, ccount) = fsm.capt[end];
                                fsm.capt[end] = (jid, ccount);
                                proof {
                                    assert(evidence_of(fsm) == stamp_evidence(ev0, jid));
                                }
                            } else {
                                proof {
                                    assert(evidence_of(fsm) == stamp_evidence(ev0, jid));
                                }
                            }
                            proof {
                                assert(res_ok(fsm, p));
                                assert(target == Some(evidence_of(fsm)));
                            }
                            return Ok(fsm);
                        },
                        Err(_) => {
                            proof {
                                assert(target == next_try);
                            }
                        },
                    }
                },
                // Closes the capture group and opens a fresh slot for the
                // group before it to accumulate into.
                Transition::EndCapture => {
                    let rest = self.follow_machine(
                        i,
                        cur_head,
                        p.duplicate(),
                        copy_vec(&history),
                        copy_vec(&positions),
                        -1i16,
                        fuel2,
                    );
                    match rest {
                        Ok(o) => {
                            let mut fsm = o;
                            let ghost ev0 = evidence_of(fsm);
                            fsm.capt.push((0u8, 0i32));
                            proof {
                                assert(res_ok(fsm, p));
                                assert(evidence_of(fsm) == (MatchEvidence {
                                    capt: ev0.capt.push((0u8, 0i32)),
                                    ..ev0
                                }));
                                assert(target == Some(evidence_of(fsm)));
                            }
                            return Ok(fsm);
                        },
                        Err(_) => {
                            proof {
                                assert(target == next_try);
                            }
                        },
                    }
                },
            }
            k += 1;
        }
        proof {
            assert(target is None);
        }
        // Every alternative from this state failed.
        Err(FSMError::Missing)
    }

    /// The point with the smallest row, then column, among a glyph's pixels.
    pub open spec fn is_seed(g: Glyph, q: Point) -> bool {
        seed_of(g.pixels@, q)
    }

    /// Runs the machine against a working copy of the picture, seeded at the
    /// glyph's topmost-then-leftmost pixel, which is consumed up front and
    /// reported as the machine's own function pixel.
    pub fn do_machine(&self, g: Glyph, p: Picture) -> (r: Result<FSMResult, FSMError>)
        requires
            self.wf(),
            p.wf(),
            g.pixels@.len() >= 1,
            forall|k: int| 0 <= k < g.pixels@.len() ==> p.in_bounds((#[trigger] g.pixels@[k]).0),
        ensures
            r matches Ok(res) ==> {
                &&& res_distinct(res)
                &&& res_in_bounds(res, p)
                &&& res.func@.len() >= 1
                &&& Self::is_seed(g, res.func@.last().0)
                &&& forall|k: int|
                    0 <= k < res.func@.len() ==> (#[trigger] res.func@[k]).1 == p.pix(
                        res.func@[k].0,
                    )
                &&& forall|k: int|
                    0 <= k < res.func@.len() - 1 ==> p.pix((#[trigger] res.func@[k]).0)
                        != crate::glyphdetect::color::white()
                &&& forall|k: int|
                    0 <= k < res.inpt@.len() ==> p.pix((#[trigger] res.inpt@[k]).0)
                        != crate::glyphdetect::color::white()
                &&& forall|k: int|
                    0 <= k < res.outp@.len() ==> p.pix((#[trigger] res.outp@[k]).0)
                        != crate::glyphdetect::color::white()
                &&& forall|k: int|
                    0 <= k < res.inpt@.len() ==> (#[trigger] res.inpt@[k]).1 == p.pix(
                        res.inpt@[k].0,
                    )
                &&& forall|k: int|
                    0 <= k < res.outp@.len() ==> (#[trigger] res.outp@[k]).1 == p.pix(
                        res.outp@[k].0,
                    )
            },
            r matches Ok(res) ==> spec_do_machine(
                states_model(self.states@),
                g.pixels@,
                p.pixels@,
                p.width as int,
                p.height as int,
            ) == Some(evidence_of(res)),
            r is Err ==> spec_do_machine(
                states_model(self.states@),
                g.pixels@,
                p.pixels@,
                p.width as int,
                p.height as int,
            ) is None,
    {
        let mut min = g.pixels[0].0;
        let mut k: usize = 1;
        while k < g.pixels.len()
            invariant
                g.pixels@.len() >= 1,
                1 <= k <= g.pixels@.len(),
                glyph_has(g, min),
                forall|u: int|
                    0 <= u < k ==> min.y < (#[trigger] g.pixels@[u]).0.y || (min.y
                        == g.pixels@[u].0.y && min.x <= g.pixels@[u].0.x),
            decreases g.pixels@.len() - k,
        {
            let (q, _c) = g.pixels[k];
            if q.y < min.y || (q.y == min.y && q.x < min.x) {
                min = q;
                proof {
                    assert(g.pixels@[k as int].0 == min);
                }
            }
            k += 1;
        }
        proof {
            let u = choose|u: int| 0 <= u < g.pixels@.len() && (#[trigger] g.pixels@[u]).0 == min;
            assert(p.in_bounds(min));
            assert(FSM::is_seed(g, min));
            assert(seed_of(g.pixels@, glyph_seed(g.pixels@)));
            lemma_seed_unique(g.pixels@, min, glyph_seed(g.pixels@));
            assert(min == glyph_seed(g.pixels@));
        }
        let mut work = p.duplicate();
        let color = work.get(min);
        work.set(min, Color::white());
        let ghost pw = work;
        let mut state_pos: Vec<Point> = Vec::new();
        let mut si: usize = 0;
        let nstates = self.states.len();
        while si < nstates
            invariant
                state_pos@.len() == si,
                si <= nstates,
                forall|u: int| 0 <= u < si ==> #[trigger] state_pos@[u] == (Point { x: 0, y: 0 }),
            decreases nstates - si,
        {
            state_pos.push(Point { x: 0, y: 0 });
            si += 1;
        }
        proof {
            assert(state_pos@ =~= Seq::new(
                states_model(self.states@).len(),
                |t: int| Point { x: 0, y: 0 },
            ));
        }
        let history: Vec<(usize, Transition, usize)> = Vec::new();
        let result = self.follow_machine(0, min, work, history, state_pos, -1i16, u64::MAX);
        match result {
            Ok(o) => {
                let mut fsm = o;
                let ghost ev0 = evidence_of(fsm);
                proof {
                    lemma_res_transfer(fsm, pw, p, min);
                }
                fsm.func.push((min, color));
                proof {
                    assert(evidence_of(fsm) == (MatchEvidence {
                        func: ev0.func.push((min, color)),
                        ..ev0
                    }));
                    assert(spec_do_machine(
                        states_model(self.states@),
                        g.pixels@,
                        p.pixels@,
                        p.width as int,
                        p.height as int,
                    ) == Some(evidence_of(fsm)));
                }
                return Ok(fsm);
            },
            Err(e) => {
                return Err(e);
            },
        }
    }
}

/// The symbolic identifier a definition glyph stands for.
#[derive(Debug, Copy, Clone, PartialEq, Eq, Structural)]
pub enum GlyphType {
    Dir,
    Add,
    Mul,
    Div,
    Sub,
    Assign,
    Pic,
    CustomFunction(usize),
}

/// A definition: one machine per 90-degree rotation of the reference glyph,
/// under one identifier.
#[derive(Debug, Clone)]
pub struct Definition {
    pub instructions: Vec<FSM>,
    pub identifier: GlyphType,
}

impl Definition {
    /// Every orientation machine of the definition is well formed.
    pub open spec fn wf(self) -> bool {
        forall|k: int| 0 <= k < self.instructions@.len() ==> (#[trigger] self.instructions@[k]).wf()
    }
}

/// The four corner pixels of the picture agree.
pub open spec fn corners_equal(p: Picture) -> bool {
    &&& p.pix_xy(0, 0) == p.pix_xy(p.width - 1, 0)
    &&& p.pix_xy(0, 0) == p.pix_xy(0, p.height - 1)
    &&& p.pix_xy(0, 0) == p.pix_xy(p.width - 1, p.height - 1)
}

/// The function-marker color a definition is built with: the corner color
/// when all four corners agree, the fallback otherwise.
pub open spec fn def_fn_color(p: Picture) -> Color {
    if corners_equal(p) {
        p.pix_xy(0, 0)
    } else {
        crate::glyphdetect::color::blue()
    }
}

/// The point sits on one of the four corners of the picture.
pub open spec fn is_corner(p: Picture, q: Point) -> bool {
    (q.x == 0 || q.x == p.width - 1) && (q.y == 0 || q.y == p.height - 1)
}

/// A reference picture suits definition construction: it is non-empty and
/// holds a non-blank pixel that the derived ledger classifies and that
/// survives the corner blanking — off the corners when the corners agree
/// (they are then blanked), anywhere otherwise. That pixel is the seed every
/// rotation's construction starts from.
pub open spec fn create_def_pre(p: Picture, inputs: Seq<Color>, outputs: Seq<Color>) -> bool {
    &&& p.wf()
    &&& p.width >= 1
    &&& p.height >= 1
    &&& exists|q: Point|
        p.in_bounds(q) && (corners_equal(p) ==> !is_corner(p, q)) && #[trigger] p.pix(q)
            != crate::glyphdetect::color::white() && crate::glyphdetect::color::spec_classify(
            inputs,
            outputs,
            def_fn_color(p),
            p.pix(q),
        ) is Some
}

/// Decides `create_def_pre` for a picture and candidate registered colors.
pub fn has_def_witness(p: &Picture, inputs: &Vec<Color>, outputs: &Vec<Color>) -> (r: bool)
    requires
        p.wf(),
        p.width >= 1,
        p.height >= 1,
    ensures
        r == create_def_pre(*p, inputs@, outputs@),
{
    let tl = p.get(Point { x: 0, y: 0 });
    let tr = p.get(Point { x: p.width - 1, y: 0 });
    let dl = p.get(Point { x: 0, y: p.height - 1 });
    let dr = p.get(Point { x: p.width - 1, y: p.height - 1 });
    let agree = tl == tr && tl == dl && tl == dr;
    let fc = if agree {
        tl
    } else {
        Color::blue()
    };
    proof {
        assert(fc == def_fn_color(*p));
    }
    let ledger = ColorLedger {
        inputs: copy_vec(inputs),
        outputs: copy_vec(outputs),
        function: fc,
    };
    let total = p.pixels.len();
    let mut t: usize = 0;
    while t < total
        invariant
            p.wf(),
            p.width >= 1,
            p.height >= 1,
            total == p.pixels@.len(),
            t <= total,
            fc == def_fn_color(*p),
            ledger.inputs@ == inputs@,
            ledger.outputs@ == outputs@,
            ledger.function == fc,
            agree == corners_equal(*p),
            forall|q: Point|
                p.in_bounds(q) && 0 <= spec_index_of(q, p.width as int) < t ==> (corners_equal(*p)
                    && is_corner(*p, q)) || #[trigger] p.pix(q)
                    == crate::glyphdetect::color::white()
                    || crate::glyphdetect::color::spec_classify(
                    inputs@,
                    outputs@,
                    def_fn_color(*p),
                    p.pix(q),
                ) is None,
        decreases total - t,
    {
        let pos = crate::glyphdetect::point::get_pos(t as i32, p.width);
        proof {
            crate::glyphdetect::glyph::lemma_pos_below_height(pos, p.width as int, p.height as int);
        }
        let corner = agree && (pos.x == 0 || pos.x == p.width - 1) && (pos.y == 0 || pos.y
            == p.height - 1);
        if !corner {
            let c = p.get(pos);
            if !(c == Color::white()) {
                if ledger.identify(&c).is_some() {
                    proof {
                        assert(create_def_pre(*p, inputs@, outputs@));
                    }
                    return true;
                }
            }
        }
        proof {
            assert forall|q: Point|
                p.in_bounds(q) && 0 <= spec_index_of(q, p.width as int) < t + 1 implies (
            corners_equal(*p) && is_corner(*p, q)) || #[trigger] p.pix(q)
                == crate::glyphdetect::color::white()
                || crate::glyphdetect::color::spec_classify(
                inputs@,
                outputs@,
                def_fn_color(*p),
                p.pix(q),
            ) is None by {
                if spec_index_of(q, p.width as int) == t {
                    crate::glyphdetect::point::lemma_index_injective(q, pos, p.width as int);
                }
            }
        }
        t += 1;
    }
    proof {
        assert forall|q: Point| p.in_bounds(q) implies (corners_equal(*p) && is_corner(*p, q))
            || #[trigger] p.pix(q) == crate::glyphdetect::color::white()
            || crate::glyphdetect::color::spec_classify(
            inputs@,
            outputs@,
            def_fn_color(*p),
            p.pix(q),
        ) is None by {
            lemma_index_in_range(q, p.width as int, p.height as int);
        }
    }
    false
}

/// Builds a definition from a reference picture: detects the function-marker
/// color from the corners (blanking them when they agree), blanks every
/// pixel the resulting ledger does not classify, and constructs one machine
/// per 90-degree rotation, each seeded at the first non-blank pixel in
/// row-major order — the topmost-then-leftmost one.
pub fn create_definition(func_box: Picture, inputs: Vec<Color>, outputs: Vec<Color>) -> (d:
    Definition)
    requires
        create_def_pre(func_box, inputs@, outputs@),
    ensures
        d.instructions@.len() == 4,
        d.wf(),
        d.identifier == GlyphType::CustomFunction(0usize),
        forall|k: int|
            0 <= k < 4 ==> states_model((#[trigger] d.instructions@[k]).states@) == def_machines(
                func_box.pixels@,
                func_box.width as int,
                func_box.height as int,
                inputs@,
                outputs@,
            )[k],
{
    let mut func_box = func_box;
    let w0 = func_box.width;
    let h0 = func_box.height;
    let tl = func_box.get(Point { x: 0, y: 0 });
    let tr = func_box.get(Point { x: w0 - 1, y: 0 });
    let dl = func_box.get(Point { x: 0, y: h0 - 1 });
    let dr = func_box.get(Point { x: w0 - 1, y: h0 - 1 });
    let ghost orig = func_box;
    let ghost gw = w0 as int;
    let ghost gh = h0 as int;
    let ghost agree = grid_corners_equal(orig.pixels@, gw, gh);
    let mut ledger = ColorLedger { inputs, outputs, function: Color::blue() };
    proof {
        let c1g = Point { x: 0i32, y: 0i32 };
        let c2g = Point { x: (w0 - 1) as i32, y: 0i32 };
        let c3g = Point { x: 0i32, y: (h0 - 1) as i32 };
        let c4g = Point { x: (w0 - 1) as i32, y: (h0 - 1) as i32 };
        lemma_index_in_range(c1g, gw, gh);
        lemma_index_in_range(c2g, gw, gh);
        lemma_index_in_range(c3g, gw, gh);
        lemma_index_in_range(c4g, gw, gh);
        assert(spec_index_of(c1g, gw) == 0);
        assert(spec_index_of(c2g, gw) == gw - 1);
        assert(spec_index_of(c3g, gw) == (gh - 1) * gw);
        assert(spec_index_of(c4g, gw) == (gh - 1) * gw + gw - 1);
        assert(orig.pix(c1g) == orig.pixels@[0] && orig.pix(c2g) == orig.pixels@[gw - 1]
            && orig.pix(c3g) == orig.pixels@[(gh - 1) * gw] && orig.pix(c4g) == orig.pixels@[(gh
            - 1) * gw + gw - 1]);
        assert(corners_equal(orig) == agree);
        assert((tl == tr && tl == dl && tl == dr) == agree);
    }
    if tl == tr && tl == dl && tl == dr {
        ledger.function = tl;
        // Blank the corners so they cannot interfere with the glyph itself.
        func_box.set(Point { x: 0, y: 0 }, Color::white());
        func_box.set(Point { x: w0 - 1, y: 0 }, Color::white());
        func_box.set(Point { x: 0, y: h0 - 1 }, Color::white());
        func_box.set(Point { x: w0 - 1, y: h0 - 1 }, Color::white());
        proof {
            assert(ledger.function == def_fn_color(orig));
            let q = choose|q: Point|
                orig.in_bounds(q) && (corners_equal(orig) ==> !is_corner(orig, q)) && #[trigger]
                    orig.pix(q) != crate::glyphdetect::color::white()
                    && crate::glyphdetect::color::spec_classify(
                    ledger.inputs@,
                    ledger.outputs@,
                    def_fn_color(orig),
                    orig.pix(q),
                ) is Some;
            lemma_index_in_range(q, w0 as int, h0 as int);
            assert(corners_equal(orig));
            let c1 = Point { x: 0i32, y: 0i32 };
            let c2 = Point { x: (w0 - 1) as i32, y: 0i32 };
            let c3 = Point { x: 0i32, y: (h0 - 1) as i32 };
            let c4 = Point { x: (w0 - 1) as i32, y: (h0 - 1) as i32 };
            assert(q != c1 && q != c2 && q != c3 && q != c4);
            if spec_index_of(q, w0 as int) == spec_index_of(c1, w0 as int) {
                crate::glyphdetect::point::lemma_index_injective(q, c1, w0 as int);
            }
            if spec_index_of(q, w0 as int) == spec_index_of(c2, w0 as int) {
                crate::glyphdetect::point::lemma_index_injective(q, c2, w0 as int);
            }
            if spec_index_of(q, w0 as int) == spec_index_of(c3, w0 as int) {
                crate::glyphdetect::point::lemma_index_injective(q, c3, w0 as int);
            }
            if spec_index_of(q, w0 as int) == spec_index_of(c4, w0 as int) {
                crate::glyphdetect::point::lemma_index_injective(q, c4, w0 as int);
            }
            let j = spec_index_of(q, w0 as int);
            let wht = crate::glyphdetect::color::white();
            let i1 = spec_index_of(c1, w0 as int);
            let i2 = spec_index_of(c2, w0 as int);
            let i3 = spec_index_of(c3, w0 as int);
            let i4 = spec_index_of(c4, w0 as int);
            lemma_index_in_range(c1, w0 as int, h0 as int);
            lemma_index_in_range(c2, w0 as int, h0 as int);
            lemma_index_in_range(c3, w0 as int, h0 as int);
            lemma_index_in_range(c4, w0 as int, h0 as int);
            let s0 = orig.pixels@;
            let s1 = s0.update(i1, wht);
            let s2 = s1.update(i2, wht);
            let s3 = s2.update(i3, wht);
            let s4 = s3.update(i4, wht);
            vstd::seq::axiom_seq_update_different::<Color>(s0, j, i1, wht);
            vstd::seq::axiom_seq_update_different::<Color>(s1, j, i2, wht);
            vstd::seq::axiom_seq_update_different::<Color>(s2, j, i3, wht);
            vstd::seq::axiom_seq_update_different::<Color>(s3, j, i4, wht);
            assert(func_box.pixels@ == s4);
            assert(func_box.pixels@[j] == orig.pixels@[j]);
            assert(func_box.pix(q) == orig.pix(q));
            assert(has_relevant(func_box, ledger));
            assert forall|u: int| 0 <= u < func_box.pixels@.len() implies #[trigger]
                func_box.pixels@[u] == (if agree && is_corner_index(u, gw, gh) {
                crate::glyphdetect::color::white()
            } else {
                orig.pixels@[u]
            }) by {
                assert(i1 == 0 && i2 == gw - 1 && i3 == (gh - 1) * gw && i4 == (gh - 1) * gw + gw
                    - 1);
            }
        }
    } else {
        proof {
            assert(!agree);
            assert forall|u: int| 0 <= u < func_box.pixels@.len() implies #[trigger]
                func_box.pixels@[u] == (if agree && is_corner_index(u, gw, gh) {
                crate::glyphdetect::color::white()
            } else {
                orig.pixels@[u]
            }) by {}
        }
    }
    let ghost fcv = grid_fn_color(orig.pixels@, gw, gh);
    let ghost cg = cleaned_grid(orig.pixels@, gw, gh, ledger.inputs@, ledger.outputs@);
    proof {
        assert(fcv == def_fn_color(orig));
        assert(ledger.function == def_fn_color(orig));
        assert(has_relevant(func_box, ledger)) by {
            let q = choose|q: Point|
                orig.in_bounds(q) && (corners_equal(orig) ==> !is_corner(orig, q)) && #[trigger]
                    orig.pix(q) != crate::glyphdetect::color::white()
                    && crate::glyphdetect::color::spec_classify(
                    ledger.inputs@,
                    ledger.outputs@,
                    def_fn_color(orig),
                    orig.pix(q),
                ) is Some;
            lemma_index_in_range(q, w0 as int, h0 as int);
        }
    }
    let ghost stage1 = func_box.pixels@;

    // Blank everything the ledger does not classify.
    let total = func_box.pixels.len();
    let mut t: usize = 0;
    while t < total
        invariant
            func_box.wf(),
            func_box.width == w0,
            func_box.height == h0,
            total == func_box.pixels@.len(),
            t <= total,
            w0 >= 1,
            h0 >= 1,
            gw == w0 as int,
            gh == h0 as int,
            agree == grid_corners_equal(orig.pixels@, gw, gh),
            fcv == grid_fn_color(orig.pixels@, gw, gh),
            ledger.function == fcv,
            cg == cleaned_grid(orig.pixels@, gw, gh, ledger.inputs@, ledger.outputs@),
            cg.len() == total,
            stage1.len() == total,
            orig.pixels@.len() == total,
            has_relevant(func_box, ledger),
            forall|u: int|
                0 <= u < total ==> #[trigger] stage1[u] == (if agree && is_corner_index(
                    u,
                    gw,
                    gh,
                ) {
                    crate::glyphdetect::color::white()
                } else {
                    orig.pixels@[u]
                }),
            forall|u: int| 0 <= u < t ==> #[trigger] func_box.pixels@[u] == cg[u],
            forall|u: int| t <= u < total ==> #[trigger] func_box.pixels@[u] == stage1[u],
            forall|u: int|
                0 <= u < t ==> #[trigger] func_box.pixels@[u] == crate::glyphdetect::color::white()
                    || ledger.classify(func_box.pixels@[u]) is Some,
        decreases total - t,
    {
        let c = func_box.pixels[t];
        proof {
            if agree && is_corner_index(t as int, gw, gh) {
                assert(stage1[t as int] == crate::glyphdetect::color::white());
                assert(cg[t as int] == crate::glyphdetect::color::white());
            } else {
                assert(stage1[t as int] == orig.pixels@[t as int]);
            }
        }
        if ledger.identify(&c).is_none() {
            let ghost pre = func_box;
            func_box.pixels[t] = Color::white();
            proof {
                let q = choose|q: Point|
                    pre.in_bounds(q) && #[trigger] pre.pix(q)
                        != crate::glyphdetect::color::white() && ledger.classify(
                        pre.pix(q),
                    ) is Some;
                lemma_index_in_range(q, w0 as int, h0 as int);
                assert(spec_index_of(q, w0 as int) != t);
                assert(func_box.pix(q) == pre.pix(q));
                assert(has_relevant(func_box, ledger));
                assert(func_box.pixels@[t as int] == cg[t as int]);
            }
        } else {
            proof {
                assert(func_box.pixels@[t as int] == cg[t as int]);
            }
        }
        t += 1;
    }
    proof {
        assert(all_blank_or_known(func_box, ledger)) by {
            assert forall|q: Point| func_box.in_bounds(q) implies #[trigger] func_box.pix(q)
                == crate::glyphdetect::color::white() || ledger.classify(
                func_box.pix(q),
            ) is Some by {
                lemma_index_in_range(q, w0 as int, h0 as int);
            }
        }
    }

    let mut definition = Definition {
        identifier: GlyphType::CustomFunction(0),
        instructions: Vec::new(),
    };
    let ghost g0 = cg;
    let ghost g1 = rotated_grid(g0, gw, gh);
    let ghost g2 = rotated_grid(g1, gh, gw);
    let ghost g3 = rotated_grid(g2, gw, gh);
    let ghost inv = ledger.inputs@;
    let ghost outv = ledger.outputs@;
    proof {
        assert(func_box.pixels@ =~= cg);
    }

    // One machine per rotation, seeded at the topmost-then-leftmost relevant
    // pixel.
    let mut rot: usize = 0;
    while rot < 4
        invariant
            rot <= 4,
            func_box.wf(),
            has_relevant(func_box, ledger),
            all_blank_or_known(func_box, ledger),
            definition.instructions@.len() == rot,
            definition.wf(),
            definition.identifier == GlyphType::CustomFunction(0usize),
            ledger.inputs@ == inv,
            ledger.outputs@ == outv,
            ledger.function == fcv,
            g1 == rotated_grid(g0, gw, gh),
            g2 == rotated_grid(g1, gh, gw),
            g3 == rotated_grid(g2, gw, gh),
            rot == 0 ==> func_box.pixels@ == g0 && func_box.width as int == gw
                && func_box.height as int == gh,
            rot == 1 ==> func_box.pixels@ == g1 && func_box.width as int == gh
                && func_box.height as int == gw,
            rot == 2 ==> func_box.pixels@ == g2 && func_box.width as int == gw
                && func_box.height as int == gh,
            rot == 3 ==> func_box.pixels@ == g3 && func_box.width as int == gh
                && func_box.height as int == gw,
            rot >= 1 ==> states_model(definition.instructions@[0].states@) == machine_of(
                g0,
                gw,
                gh,
                inv,
                outv,
                fcv,
            ),
            rot >= 2 ==> states_model(definition.instructions@[1].states@) == machine_of(
                g1,
                gh,
                gw,
                inv,
                outv,
                fcv,
            ),
            rot >= 3 ==> states_model(definition.instructions@[2].states@) == machine_of(
                g2,
                gw,
                gh,
                inv,
                outv,
                fcv,
            ),
            rot >= 4 ==> states_model(definition.instructions@[3].states@) == machine_of(
                g3,
                gh,
                gw,
                inv,
                outv,
                fcv,
            ),
        decreases 4 - rot,
    {
        let seed = first_relevant(&func_box, &ledger);
        let mut visited: Vec<bool> = Vec::new();
        let vtotal = func_box.pixels.len();
        let mut vt: usize = 0;
        while vt < vtotal
            invariant
                visited@.len() == vt,
                vt <= vtotal,
                forall|u: int| 0 <= u < vt ==> !(#[trigger] visited@[u]),
            decreases vtotal - vt,
        {
            visited.push(false);
            vt += 1;
        }
        proof {
            lemma_index_in_range(seed, func_box.width as int, func_box.height as int);
            assert(visited@ =~= Seq::new(func_box.pixels@.len(), |u: int| false));
        }
        let sidx = get_index(seed, func_box.width);
        visited[sidx] = true;
        proof {
            assert(visited@ == Seq::new(func_box.pixels@.len(), |u: int| false).update(
                spec_index_of(seed, func_box.width as int),
                true,
            ));
        }
        let fsm = FSM { states: follow(&func_box, &ledger, seed, seed, &mut visited) };
        proof {
            assert(states_model(fsm.states@) == machine_of(
                func_box.pixels@,
                func_box.width as int,
                func_box.height as int,
                inv,
                outv,
                fcv,
            ));
        }
        definition.instructions.push(fsm);
        let rotated = rotate(func_box);
        proof {
            lemma_rotate_keeps_ledger(func_box, rotated, ledger);
            lemma_rotated_grid(func_box, rotated);
        }
        func_box = rotated;
        rot += 1;
    }
    proof {
        assert forall|k: int| 0 <= k < 4 implies states_model(
            (#[trigger] definition.instructions@[k]).states@,
        ) == def_machines(orig.pixels@, gw, gh, inv, outv)[k] by {
            assert(def_machines(orig.pixels@, gw, gh, inv, outv) =~= seq![
                machine_of(g0, gw, gh, inv, outv, fcv),
                machine_of(g1, gh, gw, inv, outv, fcv),
                machine_of(g2, gw, gh, inv, outv, fcv),
                machine_of(g3, gh, gw, inv, outv, fcv),
            ]);
        }
    }
    definition
}

/// The four corners of a row-major grid agree on one color.
pub open spec fn grid_corners_equal(grid: Seq<Color>, w: int, h: int) -> bool {
    &&& grid[0] == grid[w - 1]
    &&& grid[0] == grid[(h - 1) * w]
    &&& grid[0] == grid[(h - 1) * w + w - 1]
}

/// The function-marker color a grid's corners fix: the corner color when all
/// four agree, the fallback otherwise.
pub open spec fn grid_fn_color(grid: Seq<Color>, w: int, h: int) -> Color {
    if grid_corners_equal(grid, w, h) {
        grid[0]
    } else {
        crate::glyphdetect::color::blue()
    }
}

/// The index sits on one of the grid's four corners.
pub open spec fn is_corner_index(t: int, w: int, h: int) -> bool {
    t == 0 || t == w - 1 || t == (h - 1) * w || t == (h - 1) * w + w - 1
}

/// The working grid a definition is traced from: when the corners agree they
/// are blanked, and every pixel the derived ledger does not classify is
/// blanked.
pub open spec fn cleaned_grid(
    grid: Seq<Color>,
    w: int,
    h: int,
    inputs: Seq<Color>,
    outputs: Seq<Color>,
) -> Seq<Color> {
    let fc = grid_fn_color(grid, w, h);
    let agree = grid_corners_equal(grid, w, h);
    Seq::new(
        grid.len(),
        |t: int|
            if agree && is_corner_index(t, w, h) {
                crate::glyphdetect::color::white()
            } else if crate::glyphdetect::color::spec_classify(inputs, outputs, fc, grid[t]) is Some {
                grid[t]
            } else {
                crate::glyphdetect::color::white()
            },
    )
}

/// The grid rotated by 90 degrees: the pixel at (x, y) of a w-by-h source
/// lands at (y, w - 1 - x) of the h-by-w result.
pub open spec fn rotated_grid(grid: Seq<Color>, w: int, h: int) -> Seq<Color> {
    Seq::new(
        grid.len(),
        |t: int| grid[(t % h) * w + (w - 1 - t / h)],
    )
}

/// A rotated picture's buffer is the rotated grid of its source's buffer.
proof fn lemma_rotated_grid(p: Picture, r: Picture)
    requires
        p.wf(),
        r.wf(),
        r.width == p.height,
        r.height == p.width,
        forall|a: int, b: int|
            0 <= a < p.height && 0 <= b < p.width ==> #[trigger] r.pix_xy(a, b) == p.pix_xy(
                p.width - 1 - b,
                a,
            ),
    ensures
        r.pixels@ == rotated_grid(p.pixels@, p.width as int, p.height as int),
{
    let w = p.width as int;
    let h = p.height as int;
    assert(r.pixels@.len() == p.pixels@.len()) by (nonlinear_arith)
        requires
            r.pixels@.len() == r.width as int * r.height as int,
            p.pixels@.len() == p.width as int * p.height as int,
            r.width == p.height,
            r.height == p.width,
    ;
    assert forall|t: int| 0 <= t < r.pixels@.len() implies #[trigger] r.pixels@[t] == p.pixels@[(t
        % h) * w + (w - 1 - t / h)] by {
        let a = t % h;
        let b = t / h;
        assert(0 <= a < h && 0 <= b < w && t == b * h + a) by (nonlinear_arith)
            requires
                0 <= t < h * w,
                a == t % h,
                b == t / h,
                h > 0,
        ;
        assert(r.pix_xy(a, b) == p.pix_xy(w - 1 - b, a));
        assert(r.pix_xy(a, b) == r.pixels@[b * h + a]);
        assert(p.pix_xy(w - 1 - b, a) == p.pixels@[a * w + (w - 1 - b)]);
    }
    assert(r.pixels@ =~= rotated_grid(p.pixels@, w, h));
}

/// The first non-blank index of a grid from `t` on, or the length if none.
pub open spec fn first_relevant_index(grid: Seq<Color>, t: int) -> int
    decreases grid.len() - t,
{
    if t < 0 || t >= grid.len() {
        grid.len() as int
    } else if grid[t] != crate::glyphdetect::color::white() {
        t
    } else {
        first_relevant_index(grid, t + 1)
    }
}

/// The topmost-then-leftmost non-blank pixel of a row-major grid: the first
/// one in row-major order.
pub open spec fn grid_seed(grid: Seq<Color>, w: int) -> Point {
    let t = first_relevant_index(grid, 0);
    Point { x: (t % w) as i32, y: (t / w) as i32 }
}

/// The machine the construction yields on a working grid: built from the
/// grid's topmost-then-leftmost non-blank pixel, that pixel alone marked
/// visited at the start.
pub open spec fn machine_of(
    grid: Seq<Color>,
    w: int,
    h: int,
    inputs: Seq<Color>,
    outputs: Seq<Color>,
    fc: Color,
) -> Seq<Seq<(usize, Transition)>> {
    let seed = grid_seed(grid, w);
    let visited0 = Seq::new(grid.len(), |t: int| false).update(spec_index_of(seed, w), true);
    spec_follow(grid, w, h, inputs, outputs, fc, seed, seed, visited0).0
}

/// The four orientation machines a reference grid yields: the machine of the
/// cleaned working grid and of each of its three further 90-degree rotations,
/// all under the corner-derived function color.
pub open spec fn def_machines(
    grid: Seq<Color>,
    w: int,
    h: int,
    inputs: Seq<Color>,
    outputs: Seq<Color>,
) -> Seq<Seq<Seq<(usize, Transition)>>> {
    let fc = grid_fn_color(grid, w, h);
    let g0 = cleaned_grid(grid, w, h, inputs, outputs);
    let g1 = rotated_grid(g0, w, h);
    let g2 = rotated_grid(g1, h, w);
    let g3 = rotated_grid(g2, w, h);
    seq![
        machine_of(g0, w, h, inputs, outputs, fc),
        machine_of(g1, h, w, inputs, outputs, fc),
        machine_of(g2, w, h, inputs, outputs, fc),
        machine_of(g3, h, w, inputs, outputs, fc),
    ]
}

/// Some in-bounds pixel is non-blank and classified by the ledger.
pub open spec fn has_relevant(p: Picture, ledger: ColorLedger) -> bool {
    exists|q: Point|
        p.in_bounds(q) && #[trigger] p.pix(q) != crate::glyphdetect::color::white()
            && ledger.classify(p.pix(q)) is Some
}

/// Every in-bounds pixel is blank or classified by the ledger.
pub open spec fn all_blank_or_known(p: Picture, ledger: ColorLedger) -> bool {
    forall|q: Point|
        p.in_bounds(q) ==> #[trigger] p.pix(q) == crate::glyphdetect::color::white()
            || ledger.classify(p.pix(q)) is Some
}

/// Rotation by 90 degrees permutes the pixels, so it keeps both ledger
/// properties: some relevant pixel exists, and nothing unknown remains.
proof fn lemma_rotate_keeps_ledger(old_pic: Picture, new_pic: Picture, ledger: ColorLedger)
    requires
        old_pic.wf(),
        new_pic.wf(),
        new_pic.width == old_pic.height,
        new_pic.height == old_pic.width,
        forall|a: int, b: int|
            0 <= a < old_pic.height && 0 <= b < old_pic.width ==> #[trigger] new_pic.pix_xy(a, b)
                == old_pic.pix_xy(old_pic.width - 1 - b, a),
        has_relevant(old_pic, ledger),
        all_blank_or_known(old_pic, ledger),
    ensures
        has_relevant(new_pic, ledger),
        all_blank_or_known(new_pic, ledger),
{
    let w = old_pic.width as int;
    let q = choose|q: Point|
        old_pic.in_bounds(q) && #[trigger] old_pic.pix(q) != crate::glyphdetect::color::white()
            && ledger.classify(old_pic.pix(q)) is Some;
    let nq = Point { x: q.y, y: (w - 1 - q.x) as i32 };
    assert(new_pic.pix_xy(nq.x as int, nq.y as int) == old_pic.pix_xy(q.x as int, q.y as int));
    assert(new_pic.pix(nq) == old_pic.pix(q));
    assert(new_pic.in_bounds(nq) && new_pic.pix(nq) != crate::glyphdetect::color::white()
        && ledger.classify(new_pic.pix(nq)) is Some);
    assert forall|p2: Point| new_pic.in_bounds(p2) implies #[trigger] new_pic.pix(p2)
        == crate::glyphdetect::color::white() || ledger.classify(new_pic.pix(p2)) is Some by {
        let oq = Point { x: (w - 1 - p2.y) as i32, y: p2.x };
        assert(new_pic.pix_xy(p2.x as int, p2.y as int) == old_pic.pix_xy(
            oq.x as int,
            oq.y as int,
        ));
        assert(old_pic.in_bounds(oq));
        assert(new_pic.pix(p2) == old_pic.pix(oq));
    }
}

/// Returns the first non-blank pixel in row-major order: the
/// topmost-then-leftmost relevant pixel of a blanked reference picture.
fn first_relevant(p: &Picture, ledger: &ColorLedger) -> (seed: Point)
    requires
        p.wf(),
        has_relevant(*p, *ledger),
        all_blank_or_known(*p, *ledger),
    ensures
        p.in_bounds(seed),
        p.pix(seed) != crate::glyphdetect::color::white(),
        ledger.classify(p.pix(seed)) is Some,
        seed == grid_seed(p.pixels@, p.width as int),
{
    let total = p.pixels.len();
    proof {
        let q = choose|q: Point|
            p.in_bounds(q) && #[trigger] p.pix(q) != crate::glyphdetect::color::white()
                && ledger.classify(p.pix(q)) is Some;
        lemma_index_in_range(q, p.width as int, p.height as int);
        assert(total > 0);
    }
    let mut t: usize = 0;
    while t < total
        invariant
            p.wf(),
            total == p.pixels@.len(),
            t <= total,
            has_relevant(*p, *ledger),
            all_blank_or_known(*p, *ledger),
            forall|u: int|
                0 <= u < t ==> #[trigger] p.pixels@[u] == crate::glyphdetect::color::white(),
            first_relevant_index(p.pixels@, 0) == first_relevant_index(p.pixels@, t as int),
        decreases total - t,
    {
        proof {
            assert(p.width > 0) by (nonlinear_arith)
                requires
                    p.pixels@.len() == p.width as int * p.height as int,
                    t < p.pixels@.len(),
                    p.width >= 0,
                    p.height >= 0,
            ;
        }
        let c = p.pixels[t];
        if !(c == Color::white()) {
            let pos = crate::glyphdetect::point::get_pos(t as i32, p.width);
            proof {
                crate::glyphdetect::glyph::lemma_pos_below_height(
                    pos,
                    p.width as int,
                    p.height as int,
                );
                assert(p.pix(pos) == p.pixels@[t as int]);
                assert(first_relevant_index(p.pixels@, t as int) == t);
                assert(pos == grid_seed(p.pixels@, p.width as int));
            }
            return pos;
        }
        proof {
            assert(first_relevant_index(p.pixels@, t as int) == first_relevant_index(
                p.pixels@,
                t as int + 1,
            ));
        }
        t += 1;
    }
    proof {
        let q = choose|q: Point|
            p.in_bounds(q) && #[trigger] p.pix(q) != crate::glyphdetect::color::white()
                && ledger.classify(p.pix(q)) is Some;
        lemma_index_in_range(q, p.width as int, p.height as int);
        assert(p.pixels@[spec_index_of(q, p.width as int)] == p.pix(q));
        assert(false);
    }
    unreached()
}

/// A recognized glyph: its identifier and the distinct (color, role) pairs
/// observed among its consumed input and output pixels.
#[derive(Debug, Clone)]
pub struct Identified {
    pub glyph: Glyph,
    pub identifier: GlyphType,
    pub inputs: Vec<(Color, ColorType)>,
    pub outputs: Vec<(Color, ColorType)>,
}

/// Returns whether the vector holds the (color, role) pair.
fn pair_in(v: &Vec<(Color, ColorType)>, c: Color, ct: ColorType) -> (r: bool)
    ensures
        r == v@.contains((c, ct)),
{
    let mut i: usize = 0;
    while i < v.len()
        invariant
            i <= v@.len(),
            forall|k: int| 0 <= k < i ==> #[trigger] v@[k] != (c, ct),
        decreases v@.len() - i,
    {
        let (vc, vt) = v[i];
        if vc == c && vt == ct {
            proof {
                assert(v@[i as int] == (c, ct));
            }
            return true;
        }
        i += 1;
    }
    proof {
        assert(!v@.contains((c, ct)));
    }
    false
}

/// The (color, role) pair occurs among the records.
pub open spec fn pair_from(src: Seq<(Point, Color, ColorType)>, pr: (Color, ColorType)) -> bool {
    exists|l: int| 0 <= l < src.len() && (#[trigger] src[l]).1 == pr.0 && src[l].2 == pr.1
}

/// The distinct (color, role) pairs of a record list, in order of first
/// appearance.
pub open spec fn dedup_model(src: Seq<(Point, Color, ColorType)>) -> Seq<(Color, ColorType)>
    decreases src.len(),
{
    if src.len() == 0 {
        Seq::empty()
    } else {
        let pre = dedup_model(src.drop_last());
        let last = src.last();
        if pre.contains((last.1, last.2)) {
            pre
        } else {
            pre.push((last.1, last.2))
        }
    }
}

/// Collects each distinct (color, role) pair of a record list, in order of
/// first appearance.
fn dedup_pairs(src: &Vec<(Point, Color, ColorType)>) -> (out: Vec<(Color, ColorType)>)
    ensures
        forall|k: int, l: int| 0 <= k < l < out@.len() ==> #[trigger] out@[k] != #[trigger] out@[l],
        forall|k: int| 0 <= k < out@.len() ==> pair_from(src@, #[trigger] out@[k]),
        out@ == dedup_model(src@),
{
    let mut out: Vec<(Color, ColorType)> = Vec::new();
    let mut i: usize = 0;
    while i < src.len()
        invariant
            i <= src@.len(),
            forall|k: int, l: int|
                0 <= k < l < out@.len() ==> #[trigger] out@[k] != #[trigger] out@[l],
            forall|k: int| 0 <= k < out@.len() ==> pair_from(src@, #[trigger] out@[k]),
            out@ == dedup_model(src@.subrange(0, i as int)),
        decreases src@.len() - i,
    {
        let ghost opre = out@;
        let (_pt, c, ct) = src[i];
        proof {
            assert(src@.subrange(0, i as int + 1).drop_last() =~= src@.subrange(0, i as int));
            assert(src@.subrange(0, i as int + 1).last() == src@[i as int]);
        }
        if !pair_in(&out, c, ct) {
            proof {
                assert(forall|k: int| 0 <= k < out@.len() ==> #[trigger] out@[k] != (c, ct));
            }
            let ghost pre = out@;
            out.push((c, ct));
            proof {
                assert forall|k: int| 0 <= k < out@.len() implies pair_from(
                    src@,
                    #[trigger] out@[k],
                ) by {
                    if k < pre.len() {
                        assert(out@[k] == pre[k]);
                    } else {
                        assert(out@[k] == (c, ct));
                        assert(src@[i as int].1 == out@[k].0 && src@[i as int].2 == out@[k].1);
                    }
                }
            }
        }
        proof {
            assert(out@ == dedup_model(src@.subrange(0, i as int + 1)));
        }
        i += 1;
    }
    proof {
        assert(src@.subrange(0, src@.len() as int) =~= src@);
    }
    out
}

/// The identifier and evidence of the first match over a registry: the
/// definitions in registration order, and within one, its orientation
/// machines in construction order; the first machine whose run succeeds
/// decides.
pub open spec fn spec_identify(
    defs: Seq<Definition>,
    di: int,
    fi: int,
    gpix: Seq<(Point, Color)>,
    grid: Seq<Color>,
    w: int,
    h: int,
) -> Option<(GlyphType, MatchEvidence)>
    decreases defs.len() - di, (if 0 <= di < defs.len() {
        defs[di].instructions@.len() as int
    } else {
        0int
    }) - fi,
{
    if di < 0 || di >= defs.len() {
        None
    } else if fi < 0 || fi >= defs[di].instructions@.len() {
        spec_identify(defs, di + 1, 0, gpix, grid, w, h)
    } else {
        match spec_do_machine(states_model(defs[di].instructions@[fi].states@), gpix, grid, w, h) {
            Some(ev) => Some((defs[di].identifier, ev)),
            None => spec_identify(defs, di, fi + 1, gpix, grid, w, h),
        }
    }
}

/// Every function definition known to the program, in registration order.
pub struct DefinitionLedger {
    pub d: Vec<Definition>,
}

impl DefinitionLedger {
    /// Every registered definition is well formed.
    pub open spec fn wf(self) -> bool {
        forall|k: int| 0 <= k < self.d@.len() ==> (#[trigger] self.d@[k]).wf()
    }

    /// Tries every definition in registration order and, within one, every
    /// orientation machine in construction order; the first match decides the
    /// identifier. The reported inputs and outputs carry each distinct
    /// (color, role) pair of the match once.
    pub fn identify(&self, glyph: &Glyph, pic: &Picture) -> (r: Option<Identified>)
        requires
            self.wf(),
            pic.wf(),
            glyph.pixels@.len() >= 1,
            forall|k: int| 0 <= k < glyph.pixels@.len() ==> pic.in_bounds((#[trigger] glyph.pixels@[k]).0),
        ensures
            r matches Some(ident) ==> {
                &&& exists|di: int|
                    0 <= di < self.d@.len() && ident.identifier == (#[trigger] self.d@[di]).identifier
                &&& forall|k: int, l: int|
                    0 <= k < l < ident.inputs@.len() ==> #[trigger] ident.inputs@[k] != (
                    #[trigger] ident.inputs@[l])
                &&& forall|k: int, l: int|
                    0 <= k < l < ident.outputs@.len() ==> #[trigger] ident.outputs@[k] != (
                    #[trigger] ident.outputs@[l])
                &&& forall|k: int|
                    0 <= k < ident.inputs@.len() ==> exists|q: Point|
                        pic.in_bounds(q) && pic.pix(q) == (#[trigger] ident.inputs@[k]).0
                &&& forall|k: int|
                    0 <= k < ident.outputs@.len() ==> exists|q: Point|
                        pic.in_bounds(q) && pic.pix(q) == (#[trigger] ident.outputs@[k]).0
                &&& ident.glyph.pixels@ == glyph.pixels@
                &&& ident.glyph.color == glyph.color
                &&& ident.glyph.b == glyph.b
                &&& (spec_identify(
                    self.d@,
                    0,
                    0,
                    glyph.pixels@,
                    pic.pixels@,
                    pic.width as int,
                    pic.height as int,
                ) matches Some(m) && ident.identifier == m.0 && ident.inputs@ == dedup_model(
                    m.1.inpt,
                ) && ident.outputs@ == dedup_model(m.1.outp))
            },
            r is None ==> spec_identify(
                self.d@,
                0,
                0,
                glyph.pixels@,
                pic.pixels@,
                pic.width as int,
                pic.height as int,
            ) is None,
    {
        let ghost target0 = spec_identify(
            self.d@,
            0,
            0,
            glyph.pixels@,
            pic.pixels@,
            pic.width as int,
            pic.height as int,
        );
        let mut di: usize = 0;
        while di < self.d.len()
            invariant
                self.wf(),
                pic.wf(),
                glyph.pixels@.len() >= 1,
                forall|k: int|
                    0 <= k < glyph.pixels@.len() ==> pic.in_bounds(
                        (#[trigger] glyph.pixels@[k]).0,
                    ),
                di <= self.d@.len(),
                target0 == spec_identify(
                    self.d@,
                    0,
                    0,
                    glyph.pixels@,
                    pic.pixels@,
                    pic.width as int,
                    pic.height as int,
                ),
                target0 == spec_identify(
                    self.d@,
                    di as int,
                    0,
                    glyph.pixels@,
                    pic.pixels@,
                    pic.width as int,
                    pic.height as int,
                ),
            decreases self.d@.len() - di,
        {
            let def = &self.d[di];
            let mut fi: usize = 0;
            while fi < def.instructions.len()
                invariant
                    self.wf(),
                    pic.wf(),
                    glyph.pixels@.len() >= 1,
                    forall|k: int|
                        0 <= k < glyph.pixels@.len() ==> pic.in_bounds(
                            (#[trigger] glyph.pixels@[k]).0,
                        ),
                    di < self.d@.len(),
                    def == &self.d@[di as int],
                    fi <= def.instructions@.len(),
                    target0 == spec_identify(
                        self.d@,
                        0,
                        0,
                        glyph.pixels@,
                        pic.pixels@,
                        pic.width as int,
                        pic.height as int,
                    ),
                    target0 == spec_identify(
                        self.d@,
                        di as int,
                        fi as int,
                        glyph.pixels@,
                        pic.pixels@,
                        pic.width as int,
                        pic.height as int,
                    ),
                decreases def.instructions@.len() - fi,
            {
                proof {
                    assert(self.d@[di as int].wf());
                }
                let gd = glyph.duplicate();
                let pd = pic.duplicate();
                proof {
                    assert(gd.pixels@ == glyph.pixels@ && pd.pixels@ == pic.pixels@ && pd.width
                        == pic.width && pd.height == pic.height);
                    assert(*def == self.d@[di as int]);
                    assert(def.instructions@[fi as int] == self.d@[di as int].instructions@[fi as int]);
                }
                let result = def.instructions[fi].do_machine(gd, pd);
                match result {
                    Ok(ok_fsm) => {
                        let inputs = dedup_pairs(&ok_fsm.inpt);
                        let outputs = dedup_pairs(&ok_fsm.outp);
                        proof {
                            assert forall|k: int| 0 <= k < inputs@.len() implies exists|q: Point|
                                pic.in_bounds(q) && pic.pix(q) == (#[trigger] inputs@[k]).0 by {
                                assert(pair_from(ok_fsm.inpt@, inputs@[k]));
                                let l = choose|l: int|
                                    0 <= l < ok_fsm.inpt@.len() && (#[trigger] ok_fsm.inpt@[l]).1
                                        == inputs@[k].0 && ok_fsm.inpt@[l].2 == inputs@[k].1;
                                assert(pic.in_bounds(ok_fsm.inpt@[l].0) && pic.pix(
                                    ok_fsm.inpt@[l].0,
                                ) == inputs@[k].0);
                            }
                            assert forall|k: int| 0 <= k < outputs@.len() implies exists|q: Point|
                                pic.in_bounds(q) && pic.pix(q) == (#[trigger] outputs@[k]).0 by {
                                assert(pair_from(ok_fsm.outp@, outputs@[k]));
                                let l = choose|l: int|
                                    0 <= l < ok_fsm.outp@.len() && (#[trigger] ok_fsm.outp@[l]).1
                                        == outputs@[k].0 && ok_fsm.outp@[l].2 == outputs@[k].1;
                                assert(pic.in_bounds(ok_fsm.outp@[l].0) && pic.pix(
                                    ok_fsm.outp@[l].0,
                                ) == outputs@[k].0);
                            }
                        }
                        let ident = Identified {
                            glyph: glyph.duplicate(),
                            identifier: def.identifier,
                            inputs,
                            outputs,
                        };
                        proof {
                            assert(ident.identifier == self.d@[di as int].identifier);
                            assert(spec_do_machine(
                                states_model(
                                    self.d@[di as int].instructions@[fi as int].states@,
                                ),
                                glyph.pixels@,
                                pic.pixels@,
                                pic.width as int,
                                pic.height as int,
                            ) == Some(evidence_of(ok_fsm)));
                            assert(spec_identify(
                                self.d@,
                                di as int,
                                fi as int,
                                glyph.pixels@,
                                pic.pixels@,
                                pic.width as int,
                                pic.height as int,
                            ) == Some((self.d@[di as int].identifier, evidence_of(ok_fsm))));
                            assert(target0 == Some(
                                (self.d@[di as int].identifier, evidence_of(ok_fsm)),
                            ));
                            assert(ident.inputs@ == dedup_model(evidence_of(ok_fsm).inpt));
                            assert(ident.outputs@ == dedup_model(evidence_of(ok_fsm).outp));
                        }
                        return Some(ident);
                    },
                    Err(_) => {
                        proof {
                            assert(spec_do_machine(
                                states_model(
                                    self.d@[di as int].instructions@[fi as int].states@,
                                ),
                                glyph.pixels@,
                                pic.pixels@,
                                pic.width as int,
                                pic.height as int,
                            ) is None);
                            assert(target0 == spec_identify(
                                self.d@,
                                di as int,
                                fi as int + 1,
                                glyph.pixels@,
                                pic.pixels@,
                                pic.width as int,
                                pic.height as int,
                            ));
                        }
                    },
                }
                fi += 1;
            }
            proof {
                assert(target0 == spec_identify(
                    self.d@,
                    di as int + 1,
                    0,
                    glyph.pixels@,
                    pic.pixels@,
                    pic.width as int,
                    pic.height as int,
                ));
            }
            di += 1;
        }
        proof {
            assert(target0 is None);
        }
        None
    }

    /// Registers the built-in picture-frame definition from its reference
    /// picture, with no registered input or output colors.
    pub fn load_pic_glyph(&mut self, pic: Picture)
        requires
            old(self).wf(),
            create_def_pre(pic, Seq::<Color>::empty(), Seq::<Color>::empty()),
        ensures
            final(self).wf(),
            final(self).d@.len() == old(self).d@.len() + 1,
            forall|k: int|
                0 <= k < old(self).d@.len() ==> final(self).d@[k] == (#[trigger] old(self).d@[k]),
            final(self).d@.last().identifier == GlyphType::Pic,
            final(self).d@.last().instructions@.len() == 4,
            forall|k: int|
                0 <= k < 4 ==> states_model(
                    (#[trigger] final(self).d@.last().instructions@[k]).states@,
                ) == def_machines(
                    pic.pixels@,
                    pic.width as int,
                    pic.height as int,
                    Seq::<Color>::empty(),
                    Seq::<Color>::empty(),
                )[k],
    {
        let inputs: Vec<Color> = Vec::new();
        let outputs: Vec<Color> = Vec::new();
        proof {
            assert(inputs@ =~= Seq::<Color>::empty());
            assert(outputs@ =~= Seq::<Color>::empty());
        }
        let mut definition = create_definition(pic, inputs, outputs);
        definition.identifier = GlyphType::Pic;
        self.d.push(definition);
        proof {
            assert(self.d@.last() == definition);
        }
    }
}

impl DefinitionLedger {
    /// Registers the built-in direction-marker definition: gathers the glyphs
    /// of its reference picture under a yellow function marker, identifies
    /// the picture frame among them, cuts out the frame's interior, and
    /// builds the definition from it with the fixed direction input and
    /// output colors. Fails when no frame is recognized or its interior
    /// cannot seed a construction.
    #[verifier::rlimit(80)]
    pub fn load_dir(&mut self, pic: Picture) -> (r: Result<(), FSMError>)
        requires
            old(self).wf(),
            pic.wf(),
        ensures
            final(self).wf(),
            r matches Ok(()) ==> final(self).d@.len() == old(self).d@.len() + 1
                && final(self).d@.last().identifier == GlyphType::Dir && forall|k: int|
                0 <= k < old(self).d@.len() ==> final(self).d@[k] == (#[trigger] old(self).d@[k]),
            r matches Ok(()) ==> exists|b: BoundingBox|
                #![trigger inner_grid(pic.pixels@, pic.width as int, b)]
                {
                    let iw = b.l_right.x - b.u_left.x - 1;
                    let ih = b.l_right.y - b.u_left.y - 1;
                    &&& iw >= 1
                    &&& ih >= 1
                    &&& final(self).d@.last().instructions@.len() == 4
                    &&& forall|k: int|
                        0 <= k < 4 ==> states_model(
                            (#[trigger] final(self).d@.last().instructions@[k]).states@,
                        ) == def_machines(
                            inner_grid(pic.pixels@, pic.width as int, b),
                            iw,
                            ih,
                            seq![Color { r: 127, g: 201, b: 255 }],
                            seq![Color { r: 127, g: 255, b: 142 }],
                        )[k]
                },
            r is Err ==> final(self).d@ == old(self).d@,
    {
        let ledger = ColorLedger {
            inputs: Vec::new(),
            outputs: Vec::new(),
            function: Color { r: 255, g: 255, b: 0 },
        };
        let glyphs = gather_glyphs(&pic, ledger);
        let mut gi: usize = 0;
        while gi < glyphs.len()
            invariant
                self.wf(),
                pic.wf(),
                self.d@ == old(self).d@,
                forall|u: int| 0 <= u < glyphs@.len() ==> glyph_ok(pic, #[trigger] glyphs@[u]),
                gi <= glyphs@.len(),
            decreases glyphs@.len() - gi,
        {
            let g = &glyphs[gi];
            let i = self.identify(g, &pic);
            match i {
                Some(identified) => {
                    match identified.identifier {
                        GlyphType::Pic => {
                            // The frame's interior must be wide enough to cut
                            // and must hold a seed for the construction.
                            let b = identified.glyph.b;
                            proof {
                                assert(glyph_ok(pic, glyphs@[gi as int]));
                                assert(crate::glyphdetect::glyph::glyph_members_ok(
                                    pic,
                                    identified.glyph,
                                ));
                                assert(crate::glyphdetect::glyph::glyph_bbox_ok(identified.glyph));
                                lemma_bbox_in_grid(pic, identified.glyph);
                            }
                            if b.u_left.x < b.l_right.x - 1 && b.u_left.y < b.l_right.y - 1 {
                                let innards = isolate_pic_innards(&identified, &pic);
                                let inputs = vec![Color { r: 127, g: 201, b: 255 }];
                                let outputs = vec![Color { r: 127, g: 255, b: 142 }];
                                if innards.width >= 1 && innards.height >= 1 && has_def_witness(
                                    &innards,
                                    &inputs,
                                    &outputs,
                                ) {
                                    let ghost ib = identified.glyph.b;
                                    let ghost igrid = innards.pixels@;
                                    let ghost iw = innards.width as int;
                                    let ghost ih = innards.height as int;
                                    proof {
                                        lemma_inner_grid(pic, innards, ib);
                                        assert(igrid == inner_grid(pic.pixels@, pic.width as int, ib));
                                        assert(inputs@ =~= seq![Color { r: 127, g: 201, b: 255 }]);
                                        assert(outputs@ =~= seq![Color { r: 127, g: 255, b: 142 }]);
                                    }
                                    let mut definition = create_definition(
                                        innards,
                                        inputs,
                                        outputs,
                                    );
                                    definition.identifier = GlyphType::Dir;
                                    self.d.push(definition);
                                    proof {
                                        assert(self.d@.last() == definition);
                                        assert(iw == ib.l_right.x - ib.u_left.x - 1);
                                        assert(ih == ib.l_right.y - ib.u_left.y - 1);
                                        assert(forall|k: int|
                                            0 <= k < 4 ==> states_model(
                                                (#[trigger] definition.instructions@[k]).states@,
                                            ) == def_machines(
                                                inner_grid(pic.pixels@, pic.width as int, ib),
                                                iw,
                                                ih,
                                                seq![Color { r: 127, g: 201, b: 255 }],
                                                seq![Color { r: 127, g: 255, b: 142 }],
                                            )[k]);
                                    }
                                    return Ok(());
                                } else {
                                    return Err(FSMError::Missing);
                                }
                            } else {
                                return Err(FSMError::Missing);
                            }
                        },
                        _ => {},
                    }
                },
                None => {},
            }
            gi += 1;
        }
        Err(FSMError::Missing)
    }
}

/// A glyph's bounding box lies within the grid its members lie on.
proof fn lemma_bbox_in_grid(pic: Picture, g: Glyph)
    requires
        crate::glyphdetect::glyph::glyph_members_ok(pic, g),
        crate::glyphdetect::glyph::glyph_bbox_ok(g),
    ensures
        0 <= g.b.u_left.x,
        0 <= g.b.u_left.y,
        g.b.l_right.x < pic.width,
        g.b.l_right.y < pic.height,
{
    let k1 = choose|k: int| 0 <= k < g.pixels@.len() && (#[trigger] g.pixels@[k]).0.x == g.b.u_left.x;
    let k2 = choose|k: int| 0 <= k < g.pixels@.len() && (#[trigger] g.pixels@[k]).0.y == g.b.u_left.y;
    let k3 = choose|k: int|
        0 <= k < g.pixels@.len() && (#[trigger] g.pixels@[k]).0.x == g.b.l_right.x;
    let k4 = choose|k: int|
        0 <= k < g.pixels@.len() && (#[trigger] g.pixels@[k]).0.y == g.b.l_right.y;
    assert(pic.in_bounds(g.pixels@[k1].0));
    assert(pic.in_bounds(g.pixels@[k2].0));
    assert(pic.in_bounds(g.pixels@[k3].0));
    assert(pic.in_bounds(g.pixels@[k4].0));
}

/// The interior of a bounding box in a row-major grid: the pixels strictly
/// inside the box, read in row-major order.
pub open spec fn inner_grid(grid: Seq<Color>, w: int, b: BoundingBox) -> Seq<Color> {
    let iw = b.l_right.x - b.u_left.x - 1;
    let ih = b.l_right.y - b.u_left.y - 1;
    Seq::new(
        (iw * ih) as nat,
        |t: int| grid[(b.u_left.y + 1 + t / iw) * w + (b.u_left.x + 1 + t % iw)],
    )
}

/// A cut-out interior's buffer is the inner grid of its source's buffer.
proof fn lemma_inner_grid(p: Picture, inner: Picture, b: BoundingBox)
    requires
        p.wf(),
        inner.wf(),
        inner.width == b.l_right.x - b.u_left.x - 1,
        inner.height == b.l_right.y - b.u_left.y - 1,
        inner.width >= 1,
        inner.height >= 1,
        forall|a: int, c: int|
            0 <= a < inner.width && 0 <= c < inner.height ==> #[trigger] inner.pix_xy(a, c)
                == p.pix_xy(b.u_left.x + 1 + a, b.u_left.y + 1 + c),
    ensures
        inner.pixels@ == inner_grid(p.pixels@, p.width as int, b),
{
    let iw = inner.width as int;
    let ih = inner.height as int;
    assert forall|t: int| 0 <= t < inner.pixels@.len() implies #[trigger] inner.pixels@[t]
        == p.pixels@[(b.u_left.y + 1 + t / iw) * p.width + (b.u_left.x + 1 + t % iw)] by {
        let a = t % iw;
        let c = t / iw;
        assert(0 <= a < iw && 0 <= c < ih && t == c * iw + a) by (nonlinear_arith)
            requires
                0 <= t < iw * ih,
                a == t % iw,
                c == t / iw,
                iw > 0,
        ;
        assert(inner.pix_xy(a, c) == p.pix_xy(b.u_left.x + 1 + a, b.u_left.y + 1 + c));
        assert(inner.pix_xy(a, c) == inner.pixels@[c * iw + a]);
    }
    assert(inner.pixels@ =~= inner_grid(p.pixels@, p.width as int, b));
}

/// Cuts out the interior of an identified frame glyph: the pixels strictly
/// inside its bounding box, as a fresh picture.
pub fn isolate_pic_innards(g: &Identified, p: &Picture) -> (inner: Picture)
    requires
        p.wf(),
        g.glyph.b.u_left.x + 2 <= g.glyph.b.l_right.x,
        g.glyph.b.u_left.y + 2 <= g.glyph.b.l_right.y,
        0 <= g.glyph.b.u_left.x,
        0 <= g.glyph.b.u_left.y,
        g.glyph.b.l_right.x < p.width,
        g.glyph.b.l_right.y < p.height,
    ensures
        inner.wf(),
        inner.width == g.glyph.b.l_right.x - g.glyph.b.u_left.x - 1,
        inner.height == g.glyph.b.l_right.y - g.glyph.b.u_left.y - 1,
        forall|a: int, b: int|
            0 <= a < inner.width && 0 <= b < inner.height ==> #[trigger] inner.pix_xy(a, b)
                == p.pix_xy(g.glyph.b.u_left.x + 1 + a, g.glyph.b.u_left.y + 1 + b),
{
    let bounds = crate::glyphdetect::point::BoundingBox {
        u_left: Point { x: g.glyph.b.u_left.x + 1, y: g.glyph.b.u_left.y + 1 },
        l_right: Point { x: g.glyph.b.l_right.x - 1, y: g.glyph.b.l_right.y - 1 },
    };
    crate::glyphdetect::picture::subpicture(p, bounds)
}

} // verus!
