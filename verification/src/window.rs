//! What the window's events lead to.

use vstd::prelude::*;

verus! {

#[derive(Debug, Clone, Copy, PartialEq, Eq, Structural)]
pub enum Button {
    Left,
    Right,
    Other,
}

/// An event of the window.
#[derive(Debug, Clone, Copy, PartialEq, Eq, Structural)]
pub enum WindowInput {
    CloseRequested,
    Resized,
    MouseInput { button: Button, pressed: bool },
    CursorMoved,
    RedrawRequested,
    Other,
}

/// What to do about an event. Where several things are set, they are done in this order.
#[derive(Debug, Clone, Copy, PartialEq, Eq, Structural)]
pub struct Reaction {
    /// Stop the workers and leave.
    pub close: bool,
    /// The images no longer fit the window.
    pub recreate_swapchain: bool,
    /// There may be something to do for the workers.
    pub signal_check: bool,
    /// Zooming starts now.
    pub reset_timer: bool,
    /// Take note of where the cursor is.
    pub move_cursor: bool,
    /// Have the window redrawn soon.
    pub request_redraw: bool,
    /// Draw it now.
    pub redraw: bool,
}

/// Which way to zoom.
#[derive(Debug, Clone, Copy, PartialEq, Eq, Structural)]
pub enum Zoom {
    In,
    Out,
}

/// Which mouse buttons are down.
#[derive(Debug, Clone, Copy, PartialEq, Eq, Structural)]
pub struct Pointer {
    pub left_mouse_down: bool,
    pub right_mouse_down: bool,
}

/// Nothing to do.
pub open spec fn no_reaction() -> Reaction {
    Reaction {
        close: false,
        recreate_swapchain: false,
        signal_check: false,
        reset_timer: false,
        move_cursor: false,
        request_redraw: false,
        redraw: false,
    }
}

/// What an event leads to.
pub open spec fn reaction(input: WindowInput) -> Reaction {
    match input {
        WindowInput::CloseRequested => Reaction { close: true, ..no_reaction() },
        WindowInput::Resized => Reaction {
            recreate_swapchain: true,
            signal_check: true,
            request_redraw: true,
            ..no_reaction()
        },
        WindowInput::MouseInput { button, pressed } => if pressed && !(button is Other) {
            Reaction { reset_timer: true, request_redraw: true, ..no_reaction() }
        } else {
            no_reaction()
        },
        WindowInput::CursorMoved => Reaction { move_cursor: true, ..no_reaction() },
        WindowInput::RedrawRequested => Reaction { redraw: true, ..no_reaction() },
        WindowInput::Other => no_reaction(),
    }
}

impl Pointer {
    pub fn new() -> (r: Self)
        ensures
            r == (Pointer { left_mouse_down: false, right_mouse_down: false }),
    {
        Pointer { left_mouse_down: false, right_mouse_down: false }
    }

    /// Takes note of an event and tells what to do about it.
    pub fn window_event(&mut self, input: WindowInput) -> (r: Reaction)
        ensures
            r == reaction(input),
            final(self).left_mouse_down == (match input {
                WindowInput::MouseInput { button: Button::Left, pressed } => pressed,
                _ => old(self).left_mouse_down,
            }),
            final(self).right_mouse_down == (match input {
                WindowInput::MouseInput { button: Button::Right, pressed } => pressed,
                _ => old(self).right_mouse_down,
            }),
            *final(self) == pointer_after(*old(self), input),
    {
        let mut r = Reaction {
            close: false,
            recreate_swapchain: false,
            signal_check: false,
            reset_timer: false,
            move_cursor: false,
            request_redraw: false,
            redraw: false,
        };
        match input {
            WindowInput::CloseRequested => {
                r.close = true;
            },
            WindowInput::Resized => {
                r.recreate_swapchain = true;
                r.signal_check = true;
                r.request_redraw = true;
            },
            WindowInput::MouseInput { button, pressed } => {
                match button {
                    Button::Left => {
                        self.left_mouse_down = pressed;
                        r.reset_timer = pressed;
                        r.request_redraw = pressed;
                    },
                    Button::Right => {
                        self.right_mouse_down = pressed;
                        r.reset_timer = pressed;
                        r.request_redraw = pressed;
                    },
                    Button::Other => {},
                }
            },
            WindowInput::CursorMoved => {
                r.move_cursor = true;
            },
            WindowInput::RedrawRequested => {
                r.redraw = true;
            },
            WindowInput::Other => {},
        }
        r
    }

    /// Which way to zoom, if a button is down. With both down it is in.
    pub fn zoom(&self) -> (r: Option<Zoom>)
        ensures
            r == (if self.left_mouse_down {
                Some(Zoom::In)
            } else if self.right_mouse_down {
                Some(Zoom::Out)
            } else {
                None
            }),
            r == zoom_of(*self),
    {
        if self.left_mouse_down || self.right_mouse_down {
            Some(
                if self.left_mouse_down {
                    Zoom::In
                } else {
                    Zoom::Out
                },
            )
        } else {
            None
        }
    }

    /// Is the next frame to follow at once? It is while zooming, or while tiles are still needed.
    pub fn redraw_again(&self, tiles_needed: bool) -> (r: bool)
        ensures
            r == (self.left_mouse_down || self.right_mouse_down || tiles_needed),
            r == (zoom_of(*self) is Some || tiles_needed),
    {
        self.left_mouse_down || self.right_mouse_down || tiles_needed
    }
}

/// A corner of a rectangle.
#[derive(Debug, Clone, Copy, PartialEq, Eq, Structural)]
pub struct Corner {
    pub right: bool,
    pub top: bool,
}

/// The corners of a tile, in the order in which they make up two triangles.
pub fn quad_corners() -> (r: [Corner; 6])
    ensures
        r@ == seq![
            Corner { right: false, top: false },
            Corner { right: true, top: false },
            Corner { right: false, top: true },
            Corner { right: true, top: false },
            Corner { right: true, top: true },
            Corner { right: false, top: true },
        ],
        r@ == two_triangles(),
{
    let r = [
        Corner { right: false, top: false },
        Corner { right: true, top: false },
        Corner { right: false, top: true },
        Corner { right: true, top: false },
        Corner { right: true, top: true },
        Corner { right: false, top: true },
    ];
    assert(r@ =~= two_triangles());
    r
}

/// What each part of a reaction is for: leaving is for closing, making the images anew and waking the
/// workers for a new size, the timer for the start of zooming, and drawing for when it is asked for.
pub proof fn law_reaction(input: WindowInput)
    ensures
        reaction(input).close <==> input is CloseRequested,
        reaction(input).recreate_swapchain <==> input is Resized,
        reaction(input).signal_check <==> input is Resized,
        reaction(input).move_cursor <==> input is CursorMoved,
        reaction(input).redraw <==> input is RedrawRequested,
        reaction(input).reset_timer <==> input == (WindowInput::MouseInput {
            button: Button::Left,
            pressed: true,
        }) || input == (WindowInput::MouseInput { button: Button::Right, pressed: true }),
        reaction(input).request_redraw <==> input is Resized || reaction(input).reset_timer,
{
}

/// The corners of a tile, in the order in which they make up two triangles.
pub open spec fn two_triangles() -> Seq<Corner> {
    seq![
        Corner { right: false, top: false },
        Corner { right: true, top: false },
        Corner { right: false, top: true },
        Corner { right: true, top: false },
        Corner { right: true, top: true },
        Corner { right: false, top: true },
    ]
}

/// Which way the corner `c` lies of the way from `a` to `b`: 1 to the left, -1 to the right, 0 on it.
pub open spec fn side(a: Corner, b: Corner, c: Corner) -> int {
    (across(b) - across(a)) * (along(c) - along(a)) - (along(b) - along(a)) * (across(c) - across(a))
}

/// Where the corner is from left to right.
pub open spec fn across(c: Corner) -> int {
    if c.right {
        1
    } else {
        0
    }
}

/// Where the corner is from bottom to top.
pub open spec fn along(c: Corner) -> int {
    if c.top {
        1
    } else {
        0
    }
}

/// Which way a corner lies is told by which corners the others are.
proof fn lemma_side(a: Corner, b: Corner, c: Corner)
    ensures
        a.right != b.right && a.top == b.top && c.right == a.right && c.top != a.top ==> side(a, b, c)
            == (if b.right == c.top {
            1int
        } else {
            -1
        }),
        a.right == b.right && a.top != b.top && c.right != a.right && c.top == b.top ==> side(a, b, c)
            == (if b.top == c.right {
            -1int
        } else {
            1
        }),
{
    let (ax, bx, cx) = (across(a), across(b), across(c));
    let (ay, by, cy) = (along(a), along(b), along(c));
    assert((bx - ax) * (cy - ay) - (by - ay) * (cx - ax) == bx * cy - bx * ay - ax * cy - by * cx + by
        * ax + ay * cx) by (nonlinear_arith);
    assert(bx * cy == (if bx == 1 && cy == 1 { 1int } else { 0 })) by (nonlinear_arith)
        requires
            bx == 0 || bx == 1,
            cy == 0 || cy == 1,
    ;
    assert(bx * ay == (if bx == 1 && ay == 1 { 1int } else { 0 })) by (nonlinear_arith)
        requires
            bx == 0 || bx == 1,
            ay == 0 || ay == 1,
    ;
    assert(ax * cy == (if ax == 1 && cy == 1 { 1int } else { 0 })) by (nonlinear_arith)
        requires
            ax == 0 || ax == 1,
            cy == 0 || cy == 1,
    ;
    assert(by * cx == (if by == 1 && cx == 1 { 1int } else { 0 })) by (nonlinear_arith)
        requires
            by == 0 || by == 1,
            cx == 0 || cx == 1,
    ;
    assert(by * ax == (if by == 1 && ax == 1 { 1int } else { 0 })) by (nonlinear_arith)
        requires
            by == 0 || by == 1,
            ax == 0 || ax == 1,
    ;
    assert(ay * cx == (if ay == 1 && cx == 1 { 1int } else { 0 })) by (nonlinear_arith)
        requires
            ay == 0 || ay == 1,
            cx == 0 || cx == 1,
    ;
}

/// The two triangles turn the same way and cover the tile: each corner is in one of them, and they
/// have just two corners in common, which are opposite ones.
pub proof fn law_two_triangles(c: Corner)
    ensures
        two_triangles().len() == 6,
        side(two_triangles()[0], two_triangles()[1], two_triangles()[2]) == 1,
        side(two_triangles()[3], two_triangles()[4], two_triangles()[5]) == 1,
        exists|i: int| 0 <= i < 6 && #[trigger] two_triangles()[i] == c,
        (exists|i: int| 0 <= i < 3 && #[trigger] two_triangles()[i] == c) && (exists|i: int|
            3 <= i < 6 && #[trigger] two_triangles()[i] == c) <==> c.right != c.top,
{
    let t = two_triangles();
    lemma_side(t[0], t[1], t[2]);
    lemma_side(t[3], t[4], t[5]);
    if c.right {
        if c.top {
            assert(t[4] == c);
        } else {
            assert(t[1] == c && t[3] == c);
        }
    } else {
        if c.top {
            assert(t[2] == c && t[5] == c);
        } else {
            assert(t[0] == c);
        }
    }
}

/// Which mouse buttons are down after an event.
pub open spec fn pointer_after(pointer: Pointer, input: WindowInput) -> Pointer {
    match input {
        WindowInput::MouseInput { button: Button::Left, pressed } => Pointer {
            left_mouse_down: pressed,
            ..pointer
        },
        WindowInput::MouseInput { button: Button::Right, pressed } => Pointer {
            right_mouse_down: pressed,
            ..pointer
        },
        _ => pointer,
    }
}

/// Which mouse buttons are down after several events.
pub open spec fn pointer_after_all(pointer: Pointer, inputs: Seq<WindowInput>) -> Pointer
    decreases inputs.len(),
{
    if inputs.len() == 0 {
        pointer
    } else {
        pointer_after(pointer_after_all(pointer, inputs.drop_last()), inputs.last())
    }
}

/// The event is of this button.
pub open spec fn of_button(input: WindowInput, button: Button) -> bool {
    input matches WindowInput::MouseInput { button: b, .. } && b == button
}

/// A button is down just if it was pressed in the last event of that button, or, where there was
/// none, before.
pub proof fn law_buttons(pointer: Pointer, inputs: Seq<WindowInput>, i: int)
    requires
        -1 <= i < inputs.len(),
    ensures
        (forall|k: int| i < k < inputs.len() ==> !of_button(#[trigger] inputs[k], Button::Left)) && (i
            >= 0 ==> of_button(inputs[i], Button::Left)) ==> pointer_after_all(
            pointer,
            inputs,
        ).left_mouse_down == (if i < 0 {
            pointer.left_mouse_down
        } else {
            inputs[i] == (WindowInput::MouseInput { button: Button::Left, pressed: true })
        }),
        (forall|k: int| i < k < inputs.len() ==> !of_button(#[trigger] inputs[k], Button::Right)) && (i
            >= 0 ==> of_button(inputs[i], Button::Right)) ==> pointer_after_all(
            pointer,
            inputs,
        ).right_mouse_down == (if i < 0 {
            pointer.right_mouse_down
        } else {
            inputs[i] == (WindowInput::MouseInput { button: Button::Right, pressed: true })
        }),
    decreases inputs.len(),
{
    if inputs.len() > 0 {
        let front = inputs.drop_last();
        assert(inputs.last() == inputs[inputs.len() - 1]);
        if i < front.len() {
            law_buttons(pointer, front, i);
            assert forall|k: int| i < k < front.len() implies front[k] == #[trigger] inputs[k] by {}
            if i >= 0 {
                assert(front[i] == inputs[i]);
            }
            if forall|k: int| i < k < inputs.len() ==> !of_button(#[trigger] inputs[k], Button::Left) {
                assert forall|k: int| i < k < front.len() implies !of_button(
                    #[trigger] front[k],
                    Button::Left,
                ) by {
                    assert(front[k] == inputs[k]);
                }
            }
            if forall|k: int| i < k < inputs.len() ==> !of_button(#[trigger] inputs[k], Button::Right) {
                assert forall|k: int| i < k < front.len() implies !of_button(
                    #[trigger] front[k],
                    Button::Right,
                ) by {
                    assert(front[k] == inputs[k]);
                }
            }
        }
    }
}

/// Which way to zoom with these buttons down.
pub open spec fn zoom_of(pointer: Pointer) -> Option<Zoom> {
    if pointer.left_mouse_down {
        Some(Zoom::In)
    } else if pointer.right_mouse_down {
        Some(Zoom::Out)
    } else {
        None
    }
}

/// Pressing the left button zooms in, whatever the other does; pressing the right one alone zooms out;
/// letting go of the last one ends zooming. No other event changes which way it goes.
pub proof fn law_zoom(pointer: Pointer, input: WindowInput)
    ensures
        input == (WindowInput::MouseInput { button: Button::Left, pressed: true }) ==> zoom_of(
            pointer_after(pointer, input),
        ) == Some(Zoom::In),
        input == (WindowInput::MouseInput { button: Button::Right, pressed: true }) ==> zoom_of(
            pointer_after(pointer, input),
        ) == (if pointer.left_mouse_down {
            Some(Zoom::In)
        } else {
            Some(Zoom::Out)
        }),
        input == (WindowInput::MouseInput { button: Button::Left, pressed: false }) ==> (zoom_of(
            pointer_after(pointer, input),
        ) == (if pointer.right_mouse_down {
            Some(Zoom::Out)
        } else {
            None
        })),
        input == (WindowInput::MouseInput { button: Button::Right, pressed: false }) ==> (zoom_of(
            pointer_after(pointer, input),
        ) is Some <==> pointer.left_mouse_down),
        !of_button(input, Button::Left) && !of_button(input, Button::Right) ==> pointer_after(
            pointer,
            input,
        ) == pointer,
{
}

} // verus!
