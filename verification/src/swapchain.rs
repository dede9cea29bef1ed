//! The images that the window shows: their format, how many samples they have, what is drawn into
//! them, and when they have to be made anew.

use vstd::prelude::*;

verus! {

/// The number of the format with 8 bits each for blue, green, red and alpha, from 0 to 1.
pub const B8G8R8A8_UNORM: i32 = 44;

/// Is this the number of the format that is preferred for a window?
pub fn is_preferred_format(format: i32) -> (r: bool)
    ensures
        r == (format == B8G8R8A8_UNORM),
{
    format == B8G8R8A8_UNORM
}

/// `r` is the index of the surface format to use.
pub open spec fn surface_choice(formats: Seq<i32>, r: Option<usize>) -> bool {
    match r {
        None => formats.len() == 0,
        Some(i) => {
            &&& i < formats.len()
            &&& if formats[i as int] == B8G8R8A8_UNORM {
                forall|j: int| 0 <= j < i ==> #[trigger] formats[j] != B8G8R8A8_UNORM
            } else {
                i == 0 && forall|j: int|
                    0 <= j < formats.len() ==> #[trigger] formats[j] != B8G8R8A8_UNORM
            }
        },
    }
}

/// Where there is any format there is a choice. It has the preferred format, number 44, if any has it,
/// and is the first that does; else it is the first of all.
pub proof fn law_surface_choice(formats: Seq<i32>, r: Option<usize>, j: int)
    requires
        surface_choice(formats, r),
        0 <= j < formats.len(),
    ensures
        r matches Some(i) && {
            &&& i < formats.len()
            &&& formats[j] == 44 ==> formats[i as int] == 44 && i <= j
            &&& formats[i as int] != 44 ==> i == 0
        },
{
}

/// The index of the surface format to use, given the numbers of those there are: the first that is
/// preferred, or else the first.
pub fn choose_surface_format(formats: &Vec<i32>) -> (r: Option<usize>)
    ensures
        match r {
            None => formats@.len() == 0,
            Some(i) => {
                &&& i < formats@.len()
                &&& formats@[i as int] == B8G8R8A8_UNORM ==> forall|j: int|
                    0 <= j < i ==> #[trigger] formats@[j] != B8G8R8A8_UNORM
                &&& formats@[i as int] != B8G8R8A8_UNORM ==> i == 0 && forall|j: int|
                    0 <= j < formats@.len() ==> #[trigger] formats@[j] != B8G8R8A8_UNORM
            },
        },
        surface_choice(formats@, r),
{
    let mut i: usize = 0;
    while i < formats.len()
        invariant
            i <= formats@.len(),
            forall|j: int| 0 <= j < i ==> #[trigger] formats@[j] != B8G8R8A8_UNORM,
        decreases formats@.len() - i,
    {
        if is_preferred_format(formats[i]) {
            return Some(i);
        }
        i = i + 1;
    }
    if formats.len() == 0 {
        None
    } else {
        Some(0)
    }
}

/// How many images to ask for: at least two.
pub fn image_count(min_image_count: u32) -> (r: u32)
    ensures
        r == (if min_image_count < 2 {
            2
        } else {
            min_image_count
        }),
        r >= 2,
        r >= min_image_count,
        r == 2 || r == min_image_count,
{
    if min_image_count < 2 {
        2
    } else {
        min_image_count
    }
}

/// The largest sample count in a set, whose bits are the counts themselves. No count but 1 in the
/// set counts as 1.
pub open spec fn largest_count(counts: u32) -> u32 {
    if counts & 64 != 0 {
        64
    } else if counts & 32 != 0 {
        32
    } else if counts & 16 != 0 {
        16
    } else if counts & 8 != 0 {
        8
    } else if counts & 4 != 0 {
        4
    } else if counts & 2 != 0 {
        2
    } else {
        1
    }
}

/// `vulkano::image::SampleCounts::max_count`: the largest sample count in the set. The set is made
/// from the bits of `ash::vk::SampleCountFlags`, which are the counts themselves.
#[verifier::external_body]
fn max_count(counts: u32) -> (r: u32)
    ensures
        r == largest_count(counts),
{
    let flags = ash::vk::SampleCountFlags::from_raw(counts);
    u32::from(vulkano::image::SampleCounts::from(flags).max_count())
}

/// How many samples a pixel of the image that is drawn into has: as many as the device supports
/// for its format, or one if it does not support the format.
pub fn max_sample_count(supported: Option<u32>) -> (r: u32)
    ensures
        r == (match supported {
            Some(counts) => largest_count(counts),
            None => 1,
        }),
        r >= 1,
{
    match supported {
        Some(counts) => max_count(counts),
        None => 1,
    }
}

/// There is area just if neither side is nothing.
proof fn lemma_area(width: u32, height: u32)
    ensures
        width * height > 0 <==> width != 0 && height != 0,
{
    let (w, h) = (width as int, height as int);
    assert(w * h > 0 <==> w != 0 && h != 0) by (nonlinear_arith)
        requires
            w >= 0,
            h >= 0,
    ;
}

/// Is there anything to draw into?
pub fn has_area(width: u32, height: u32) -> (r: bool)
    ensures
        r == (width != 0 && height != 0),
        r <==> width * height > 0,
{
    proof {
        lemma_area(width, height);
    }
    !(width == 0 || height == 0)
}

/// An image that a frame is drawn into.
#[derive(Debug, Clone, Copy, PartialEq, Eq, Structural)]
pub struct Attachment {
    pub samples: u32,
    /// Whatever it held before may be lost; otherwise, it lies in memory as drawing needs it.
    pub discard: bool,
    /// It starts out clear; otherwise, with anything.
    pub clear: bool,
    /// What was drawn into it is kept.
    pub store: bool,
    /// It is left ready to be shown.
    pub present: bool,
}

/// What a frame is drawn into: an image to be shown, and before it, if a pixel has more than one
/// sample, the image that is resolved into it.
pub open spec fn attachments(sample_count: u32) -> Seq<Attachment> {
    if sample_count > 1 {
        seq![
            Attachment {
                samples: sample_count,
                discard: true,
                clear: true,
                store: false,
                present: false,
            },
            Attachment { samples: 1, discard: true, clear: false, store: true, present: true },
        ]
    } else {
        seq![Attachment { samples: 1, discard: false, clear: true, store: true, present: true }]
    }
}

/// The index of the attachment that drawing goes to.
pub const DRAW_ATTACHMENT: u32 = 0;

/// The index of the attachment that what was drawn is resolved into, if it has to be.
pub open spec fn resolve_target(sample_count: u32) -> Option<u32> {
    if sample_count > 1 {
        Some(1)
    } else {
        None
    }
}

/// The index of the attachment that what was drawn is resolved into, if it has to be.
pub fn resolve_attachment(sample_count: u32) -> (r: Option<u32>)
    ensures
        r == resolve_target(sample_count),
{
    if sample_count > 1 {
        Some(1)
    } else {
        None
    }
}

/// What a frame is drawn into.
pub fn render_pass_attachments(sample_count: u32) -> (r: Vec<Attachment>)
    ensures
        r@ == attachments(sample_count),
{
    let mut list: Vec<Attachment> = Vec::new();
    if sample_count > 1 {
        list.push(
            Attachment {
                samples: sample_count,
                discard: true,
                clear: true,
                store: false,
                present: false,
            },
        );
        list.push(
            Attachment { samples: 1, discard: true, clear: false, store: true, present: true },
        );
    } else {
        list.push(
            Attachment { samples: 1, discard: false, clear: true, store: true, present: true },
        );
    }
    assert(list@ =~= attachments(sample_count));
    list
}

/// For each attachment, whether it has to be given a color to be cleared to.
pub fn clear_values(sample_count: u32) -> (r: Vec<bool>)
    ensures
        r@ == attachments(sample_count).map_values(|a: Attachment| a.clear),
{
    let mut list: Vec<bool> = Vec::new();
    list.push(true);
    if sample_count > 1 {
        list.push(false);
    }
    assert(list@ =~= attachments(sample_count).map_values(|a: Attachment| a.clear));
    list
}

/// How many images with several samples are needed for so many images to show.
pub fn msaa_image_count(sample_count: u32, image_count: usize) -> (r: usize)
    ensures
        resolve_target(sample_count) is Some ==> r == image_count,
        resolve_target(sample_count) is None ==> r == 0,
        r == (if sample_count > 1 {
            image_count
        } else {
            0
        }),
{
    if sample_count > 1 {
        image_count
    } else {
        0
    }
}

/// Which images a framebuffer is made of.
#[derive(Debug, Clone, Copy, PartialEq, Eq, Structural)]
pub struct FramebufferImages {
    /// Index of the image with several samples.
    pub msaa: Option<usize>,
    /// Index of the image to show.
    pub image: usize,
}

/// The list has a framebuffer for each image to show, with an image with several samples of its own
/// if a pixel has several, as far as there are such.
pub open spec fn framebuffers(
    sample_count: u32,
    msaa_images: usize,
    images: usize,
    list: Seq<FramebufferImages>,
) -> bool {
    &&& list.len() == (if sample_count > 1 && msaa_images < images {
        msaa_images
    } else {
        images
    })
    &&& forall|i: int|
        0 <= i < list.len() ==> (#[trigger] list[i]).image == i && list[i].msaa == (if sample_count
            > 1 {
            Some(i as usize)
        } else {
            None
        })
}

/// With as many images with several samples as are needed, each image to show has one framebuffer and
/// no two share an image of either kind; there are as many images in a framebuffer as a frame is
/// drawn into.
pub proof fn law_framebuffers(
    sample_count: u32,
    msaa_images: usize,
    images: usize,
    list: Seq<FramebufferImages>,
    i: int,
    j: int,
)
    requires
        framebuffers(sample_count, msaa_images, images, list),
        sample_count > 1 ==> msaa_images == images,
        0 <= i < list.len(),
        0 <= j < list.len(),
    ensures
        list.len() == images,
        list[i].image < images,
        list[i].msaa is Some <==> attachments(sample_count).len() == 2,
        list[i].msaa matches Some(k) ==> k < msaa_images,
        i != j ==> list[i].image != list[j].image,
        i != j && sample_count > 1 ==> list[i].msaa != list[j].msaa,
        list[i].image == i,
{
}

/// The framebuffers: one per image to show, in order, each with an image with several samples of
/// its own if a pixel has several.
pub fn framebuffer_images(sample_count: u32, msaa_images: usize, images: usize) -> (r: Vec<
    FramebufferImages,
>)
    ensures
        if sample_count > 1 {
            r@ == Seq::new(
                (if msaa_images < images {
                    msaa_images
                } else {
                    images
                }) as nat,
                |i: int| FramebufferImages { msaa: Some(i as usize), image: i as usize },
            )
        } else {
            r@ == Seq::new(
                images as nat,
                |i: int| FramebufferImages { msaa: None, image: i as usize },
            )
        },
        framebuffers(sample_count, msaa_images, images, r@),
{
    let multi = sample_count > 1;
    let count: usize = if multi && msaa_images < images {
        msaa_images
    } else {
        images
    };
    let mut list: Vec<FramebufferImages> = Vec::new();
    let mut i: usize = 0;
    while i < count
        invariant
            i <= count,
            list@.len() == i,
            forall|k: int|
                0 <= k < i ==> #[trigger] list@[k] == (FramebufferImages {
                    msaa: if multi {
                        Some(k as usize)
                    } else {
                        None
                    },
                    image: k as usize,
                }),
        decreases count - i,
    {
        list.push(
            FramebufferImages {
                msaa: if multi {
                    Some(i)
                } else {
                    None
                },
                image: i,
            },
        );
        i = i + 1;
    }
    proof {
        assert(framebuffers(sample_count, msaa_images, images, list@));
        if multi {
            assert(list@ =~= Seq::new(
                count as nat,
                |i: int| FramebufferImages { msaa: Some(i as usize), image: i as usize },
            ));
        } else {
            assert(list@ =~= Seq::new(
                count as nat,
                |i: int| FramebufferImages { msaa: None, image: i as usize },
            ));
        }
    }
    list
}

/// Exactly one attachment is shown; it has one sample per pixel and is kept. What is drawn into
/// starts out clear; it is shown itself, or else resolved into what is shown.
pub proof fn law_one_attachment_shown(sample_count: u32)
    ensures
        attachments(sample_count).last().present,
        attachments(sample_count).last().store,
        attachments(sample_count).last().samples == 1,
        attachments(sample_count)[DRAW_ATTACHMENT as int].clear,
        match resolve_target(sample_count) {
            Some(i) => {
                &&& i < attachments(sample_count).len()
                &&& attachments(sample_count)[i as int].present
                &&& i != DRAW_ATTACHMENT
                &&& attachments(sample_count)[DRAW_ATTACHMENT as int].samples > 1
            },
            None => attachments(sample_count)[DRAW_ATTACHMENT as int].present,
        },
        forall|i: int|
            0 <= i < attachments(sample_count).len() ==> (#[trigger] attachments(
                sample_count,
            )[i]).present == (i == attachments(sample_count).len() - 1),
{
}

/// What came of asking for the next image to draw into.
#[derive(Debug, Clone, Copy, PartialEq, Eq, Structural)]
pub enum AcquireOutcome {
    /// There is one. It may fit the window badly.
    Acquired { suboptimal: bool },
    /// The images no longer fit the window.
    OutOfDate,
    /// Something else went wrong.
    Failed,
}

/// What to do about it.
#[derive(Debug, Clone, Copy, PartialEq, Eq, Structural)]
pub enum FrameStep {
    Draw,
    Skip,
    Abort,
}

/// What came of handing over an image to be shown.
#[derive(Debug, Clone, Copy, PartialEq, Eq, Structural)]
pub enum PresentOutcome {
    Shown,
    OutOfDate,
    Failed,
}

/// Whether the images have to be made anew.
#[derive(Debug, Clone, Copy, PartialEq, Eq, Structural)]
pub struct SwapchainState {
    pub recreate_swapchain: bool,
}

/// Something that happens to the images.
pub enum SwapchainEvent {
    Resized,
    Recreated,
    Acquired(AcquireOutcome),
    DrawingInto { suboptimal: bool },
    Presented(PresentOutcome),
}

/// The images no longer fit the window, or fit it badly.
pub open spec fn misfit(event: SwapchainEvent) -> bool {
    match event {
        SwapchainEvent::Resized => true,
        SwapchainEvent::Recreated => false,
        SwapchainEvent::Acquired(outcome) => outcome is OutOfDate,
        SwapchainEvent::DrawingInto { suboptimal } => suboptimal,
        SwapchainEvent::Presented(outcome) => outcome is OutOfDate,
    }
}

/// Whether the images have to be made anew after something happened to them.
pub open spec fn recreate_after(recreate: bool, event: SwapchainEvent) -> bool {
    !(event is Recreated) && (recreate || misfit(event))
}

/// Whether the images have to be made anew after several things happened to them.
pub open spec fn recreate_after_all(recreate: bool, events: Seq<SwapchainEvent>) -> bool
    decreases events.len(),
{
    if events.len() == 0 {
        recreate
    } else {
        recreate_after(recreate_after_all(recreate, events.drop_last()), events.last())
    }
}

/// The images are made anew if and only if the window was resized, an image was out of date when it
/// was acquired or presented, or fitted badly, since they were last made.
pub proof fn law_recreate_when_needed(recreate: bool, events: Seq<SwapchainEvent>)
    requires
        forall|i: int| 0 <= i < events.len() ==> !(#[trigger] events[i] is Recreated),
    ensures
        recreate_after_all(recreate, events) <==> recreate || exists|i: int|
            0 <= i < events.len() && {
                ||| #[trigger] events[i] is Resized
                ||| events[i] == SwapchainEvent::Acquired(AcquireOutcome::OutOfDate)
                ||| events[i] == (SwapchainEvent::DrawingInto { suboptimal: true })
                ||| events[i] == SwapchainEvent::Presented(PresentOutcome::OutOfDate)
            },
        !recreate_after_all(recreate, events.push(SwapchainEvent::Recreated)),
    decreases events.len(),
{
    assert(events.push(SwapchainEvent::Recreated).last() is Recreated);
    if events.len() > 0 {
        let front = events.drop_last();
        assert forall|i: int| 0 <= i < front.len() implies !(#[trigger] front[i] is Recreated) by {
            assert(front[i] == events[i]);
        }
        law_recreate_when_needed(recreate, front);
        assert forall|i: int| 0 <= i < front.len() implies front[i] == #[trigger] events[i] by {}
        let last = events.len() - 1;
        assert(events.last() == events[last]);
        if recreate_after_all(recreate, front) && !recreate {
            let i = choose|i: int|
                0 <= i < front.len() && {
                    ||| #[trigger] front[i] is Resized
                    ||| front[i] == SwapchainEvent::Acquired(AcquireOutcome::OutOfDate)
                    ||| front[i] == (SwapchainEvent::DrawingInto { suboptimal: true })
                    ||| front[i] == SwapchainEvent::Presented(PresentOutcome::OutOfDate)
                };
            assert(events[i] == front[i]);
        }
        if exists|i: int|
            0 <= i < events.len() && {
                ||| #[trigger] events[i] is Resized
                ||| events[i] == SwapchainEvent::Acquired(AcquireOutcome::OutOfDate)
                ||| events[i] == (SwapchainEvent::DrawingInto { suboptimal: true })
                ||| events[i] == SwapchainEvent::Presented(PresentOutcome::OutOfDate)
            } {
            let i = choose|i: int|
                0 <= i < events.len() && {
                    ||| #[trigger] events[i] is Resized
                    ||| events[i] == SwapchainEvent::Acquired(AcquireOutcome::OutOfDate)
                    ||| events[i] == (SwapchainEvent::DrawingInto { suboptimal: true })
                    ||| events[i] == SwapchainEvent::Presented(PresentOutcome::OutOfDate)
                };
            if i < last {
                assert(front[i] == events[i]);
            }
        }
    }
}

impl SwapchainState {
    pub fn new() -> (r: Self)
        ensures
            !r.recreate_swapchain,
    {
        SwapchainState { recreate_swapchain: false }
    }

    /// Should the images be made anew now? Not for a window without area.
    pub fn recreate_now(&self, width: u32, height: u32) -> (r: bool)
        ensures
            r == (self.recreate_swapchain && width != 0 && height != 0),
            r <==> self.recreate_swapchain && width * height > 0,
    {
        proof {
            lemma_area(width, height);
        }
        if !self.recreate_swapchain {
            return false;
        }
        has_area(width, height)
    }

    /// The images have been made anew.
    pub fn recreated(&mut self)
        ensures
            final(self).recreate_swapchain == recreate_after(
                old(self).recreate_swapchain,
                SwapchainEvent::Recreated,
            ),
            !final(self).recreate_swapchain,
    {
        self.recreate_swapchain = false;
    }

    /// The window changed its size.
    pub fn resized(&mut self)
        ensures
            final(self).recreate_swapchain == recreate_after(
                old(self).recreate_swapchain,
                SwapchainEvent::Resized,
            ),
            final(self).recreate_swapchain,
    {
        self.recreate_swapchain = true;
    }

    /// Takes note of what came of asking for the next image.
    pub fn acquired(&mut self, outcome: AcquireOutcome) -> (r: FrameStep)
        ensures
            final(self).recreate_swapchain == recreate_after(
                old(self).recreate_swapchain,
                SwapchainEvent::Acquired(outcome),
            ),
            r == (match outcome {
                AcquireOutcome::Acquired { .. } => FrameStep::Draw,
                AcquireOutcome::OutOfDate => FrameStep::Skip,
                AcquireOutcome::Failed => FrameStep::Abort,
            }),
            r is Draw <==> outcome is Acquired,
            r is Skip <==> outcome is OutOfDate,
            final(self).recreate_swapchain == (old(self).recreate_swapchain || outcome is OutOfDate),
    {
        match outcome {
            AcquireOutcome::Acquired { .. } => FrameStep::Draw,
            AcquireOutcome::OutOfDate => {
                self.recreate_swapchain = true;
                FrameStep::Skip
            },
            AcquireOutcome::Failed => FrameStep::Abort,
        }
    }

    /// Takes note of whether the image about to be drawn into fits the window badly.
    pub fn drawing_into(&mut self, suboptimal: bool)
        ensures
            final(self).recreate_swapchain == recreate_after(
                old(self).recreate_swapchain,
                (SwapchainEvent::DrawingInto { suboptimal }),
            ),
            final(self).recreate_swapchain == (old(self).recreate_swapchain || suboptimal),
    {
        if suboptimal {
            self.recreate_swapchain = true;
        }
    }

    /// Takes note of what came of handing over an image, and tells whether the next frame has to
    /// wait for this one.
    pub fn presented(&mut self, outcome: PresentOutcome) -> (r: bool)
        ensures
            final(self).recreate_swapchain == recreate_after(
                old(self).recreate_swapchain,
                SwapchainEvent::Presented(outcome),
            ),
            r == (outcome is Shown),
            final(self).recreate_swapchain == (old(self).recreate_swapchain || outcome is OutOfDate),
    {
        match outcome {
            PresentOutcome::Shown => true,
            PresentOutcome::OutOfDate => {
                self.recreate_swapchain = true;
                false
            },
            PresentOutcome::Failed => false,
        }
    }
}

/// The sample count is one of the set, and the set has none that is larger; it is one if the set has
/// no other.
pub proof fn law_largest_count(counts: u32, v: u32)
    requires
        v == 2 || v == 4 || v == 8 || v == 16 || v == 32 || v == 64,
    ensures
        largest_count(counts) == 1 || counts & largest_count(counts) != 0,
        1 <= largest_count(counts) <= 64,
        counts & v != 0 ==> largest_count(counts) >= v,
{
}

/// With several samples per pixel there are two attachments, and else one. The one that is drawn into
/// has as many samples as a pixel has, and is the only one that has to be cleared; the one that is
/// shown has one sample and is the only one that is kept. What one attachment held before is lost
/// just if there are two.
pub proof fn law_attachments(sample_count: u32, i: int)
    requires
        sample_count >= 1,
        0 <= i < attachments(sample_count).len(),
    ensures
        attachments(sample_count).len() == (if sample_count == 1 {
            1int
        } else {
            2
        }),
        attachments(sample_count)[DRAW_ATTACHMENT as int].samples == sample_count,
        attachments(sample_count)[i].clear <==> i == DRAW_ATTACHMENT,
        attachments(sample_count)[i].store == attachments(sample_count)[i].present,
        attachments(sample_count)[i].present <==> i == attachments(sample_count).len() - 1,
        attachments(sample_count)[i].present ==> attachments(sample_count)[i].samples == 1,
        attachments(sample_count)[i].discard <==> sample_count > 1,
        resolve_target(sample_count) is Some <==> sample_count > 1,
{
}

} // verus!
