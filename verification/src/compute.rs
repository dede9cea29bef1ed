//! Computing a tile on the device: what to record, how to submit it, and what to read back.

use crate::coord::{TileCoord, GRID_LEVEL, ROOT_BOTTOM, ROOT_EXTENT, ROOT_LEFT, TILE_SIZE};
use crate::laws::law_side_by_side;
use crate::memory::{
    allowed, first_choice, first_usable, is_first, usable, MemoryType, MemoryUse, MAX_MEMORY_TYPES,
};
use vstd::arithmetic::power2::pow2;
use vstd::prelude::*;

verus! {

/// The memory type for what the host reads back: the first allowed one that the host can read
/// fast, or else the first allowed one that it can read.
pub fn find_memory_type(types: &Vec<MemoryType>, memory_type_bits: u32) -> (r: Option<u32>)
    requires
        types@.len() <= MAX_MEMORY_TYPES,
    ensures
        if exists|j: int|
            0 <= j < types@.len() && #[trigger] usable(
                types@,
                memory_type_bits,
                MemoryUse::HostReadCached,
            )(j) {
            is_first(
                usable(types@, memory_type_bits, MemoryUse::HostReadCached),
                types@.len() as int,
                r,
            )
        } else {
            is_first(usable(types@, memory_type_bits, MemoryUse::HostRead), types@.len() as int, r)
        },
        first_choice(types@, memory_type_bits, MemoryUse::HostReadCached, MemoryUse::HostRead, r),
{
    match first_usable(types, memory_type_bits, MemoryUse::HostReadCached) {
        Some(i) => Some(i),
        None => first_usable(types, memory_type_bits, MemoryUse::HostRead),
    }
}

/// A stage of the device's pipeline.
#[derive(Debug, Clone, Copy, PartialEq, Eq, Structural)]
pub enum Stage {
    TopOfPipe,
    ComputeShader,
    FragmentShader,
    BottomOfPipe,
    Host,
}

/// A way to access an image.
#[derive(Debug, Clone, Copy, PartialEq, Eq, Structural)]
pub enum Access {
    Nothing,
    ShaderRead,
    ShaderWrite,
    HostRead,
}

/// How an image lies in memory.
#[derive(Debug, Clone, Copy, PartialEq, Eq, Structural)]
pub enum Layout {
    Undefined,
    General,
}

/// The tile that is computed, or the map of its blocked quarters.
#[derive(Debug, Clone, Copy, PartialEq, Eq, Structural)]
pub enum Target {
    Tile,
    BlockMap,
}

/// The queue families that an image passes between.
#[derive(Debug, Clone, Copy, PartialEq, Eq, Structural)]
pub struct Transfer {
    pub src: u32,
    pub dst: u32,
}

/// What comes before is done with the image before what comes after starts on it.
#[derive(Debug, Clone, Copy, PartialEq, Eq, Structural)]
pub struct Barrier {
    pub target: Target,
    pub src_stage: Stage,
    pub dst_stage: Stage,
    pub src_access: Access,
    pub dst_access: Access,
    pub old_layout: Layout,
    pub new_layout: Layout,
    /// The image passes from one queue family to another.
    pub transfer: Option<Transfer>,
}

/// A command to record.
#[derive(Debug, Clone, Copy, PartialEq, Eq, Structural)]
pub enum Command {
    /// Switch to the shader that writes this image, with the images it uses and its constants.
    Bind(Target),
    /// A barrier.
    Barrier(Barrier),
    /// Two barriers that take effect together.
    Barriers(Barrier, Barrier),
    /// Run the shader in so many groups along each axis.
    Dispatch(u32, u32, u32),
}

/// How many pixels along each axis a group of the tile shader computes.
pub const TILE_GROUP: u32 = 16;

/// How the recorded commands are submitted.
#[derive(Debug, Clone, Copy, PartialEq, Eq, Structural)]
pub struct Submission {
    /// Wait for the semaphore first.
    pub wait: bool,
    /// Signal the semaphore at the end.
    pub signal: bool,
    /// Signal the fence at the end.
    pub fence: bool,
}

/// What the tile shader is told: the lower left corner and the edge of the tile in grid units, into
/// how many steps between pixels the edge is cut, and how many iterations to go at most.
#[derive(Debug, Clone, Copy, PartialEq, Eq, Structural)]
pub struct TileConstants {
    pub left: i64,
    pub bottom: i64,
    pub extent: u64,
    pub steps: u32,
    pub max_iterations: u32,
}

/// What it takes to compute one tile.
pub struct TileWork {
    /// For the shader that writes the tile.
    pub tile_constants: TileConstants,
    /// For the shader that writes the map.
    pub map_cell_size: i32,
    /// For the compute queue.
    pub commands: Vec<Command>,
    pub submission: Submission,
    /// For the graphics queue, if it is of another family: takes over the tile.
    pub takeover: Option<(Barrier, Submission)>,
}

/// A barrier on an image that is written and read in place.
pub open spec fn general_barrier(
    target: Target,
    src_stage: Stage,
    src_access: Access,
    dst_stage: Stage,
    dst_access: Access,
    transfer: Option<Transfer>,
) -> Barrier {
    Barrier {
        target,
        src_stage,
        dst_stage,
        src_access,
        dst_access,
        old_layout: Layout::General,
        new_layout: Layout::General,
        transfer,
    }
}

/// A barrier on an image whose contents do not matter until it is written.
pub open spec fn discard_barrier(target: Target, src_stage: Stage, src_access: Access) -> Barrier {
    Barrier {
        target,
        src_stage,
        dst_stage: Stage::ComputeShader,
        src_access,
        dst_access: Access::ShaderWrite,
        old_layout: Layout::Undefined,
        new_layout: Layout::General,
        transfer: None,
    }
}

/// The commands that compute a tile on a queue of family `qfi` for a graphics queue of family
/// `gqfi`. `map_read` tells that the map has been read before.
pub open spec fn tile_commands(qfi: u32, gqfi: u32, map_read: bool) -> Seq<Command> {
    seq![
        Command::Bind(Target::Tile),
        Command::Barrier(discard_barrier(Target::Tile, Stage::TopOfPipe, Access::Nothing)),
        Command::Dispatch(TILE_SIZE / TILE_GROUP, TILE_SIZE / TILE_GROUP, 1),
        Command::Barriers(
            general_barrier(
                Target::Tile,
                Stage::ComputeShader,
                Access::ShaderWrite,
                Stage::ComputeShader,
                Access::ShaderRead,
                None,
            ),
            if map_read {
                discard_barrier(Target::BlockMap, Stage::Host, Access::HostRead)
            } else {
                discard_barrier(Target::BlockMap, Stage::TopOfPipe, Access::Nothing)
            },
        ),
        Command::Bind(Target::BlockMap),
        Command::Dispatch(1, 1, 1),
        Command::Barrier(
            general_barrier(
                Target::Tile,
                Stage::ComputeShader,
                Access::ShaderWrite,
                Stage::Host,
                Access::HostRead,
                None,
            ),
        ),
        Command::Barrier(
            if qfi != gqfi {
                general_barrier(
                    Target::Tile,
                    Stage::ComputeShader,
                    Access::ShaderRead,
                    Stage::BottomOfPipe,
                    Access::Nothing,
                    Some(Transfer { src: qfi, dst: gqfi }),
                )
            } else {
                general_barrier(
                    Target::Tile,
                    Stage::ComputeShader,
                    Access::ShaderWrite,
                    Stage::FragmentShader,
                    Access::ShaderRead,
                    None,
                )
            },
        ),
    ]
}

/// How the graphics queue takes over the tile from another family.
pub open spec fn tile_takeover(qfi: u32, gqfi: u32) -> Option<(Barrier, Submission)> {
    if qfi != gqfi {
        Some(
            (
                general_barrier(
                    Target::Tile,
                    Stage::TopOfPipe,
                    Access::Nothing,
                    Stage::FragmentShader,
                    Access::ShaderRead,
                    Some(Transfer { src: qfi, dst: gqfi }),
                ),
                Submission { wait: true, signal: false, fence: true },
            ),
        )
    } else {
        None
    }
}

/// The constants are those of the tile: its first pixel lies in its lower left corner, its last in
/// the upper right one, and the shader goes as many iterations as the engine is set to.
pub open spec fn constants_for(k: TileConstants, coord: TileCoord, max_iterations: u32) -> bool {
    &&& k.left == coord.left()
    &&& k.bottom == coord.bottom()
    &&& k.extent == coord.extent()
    &&& k.steps == TILE_SIZE - 1
    &&& k.max_iterations == max_iterations
}

/// What the tile shader is told for a tile.
pub fn tile_constants(coord: &TileCoord, max_iterations: u32) -> (r: TileConstants)
    requires
        coord.on_grid(),
    ensures
        constants_for(r, *coord, max_iterations),
{
    let (left, bottom) = coord.origin();
    TileConstants {
        left,
        bottom,
        extent: coord.tile_extent(),
        steps: TILE_SIZE - 1,
        max_iterations,
    }
}

/// How the commands that compute the tile are submitted.
pub open spec fn tile_submission(qfi: u32, gqfi: u32) -> Submission {
    Submission { wait: false, signal: qfi != gqfi, fence: qfi == gqfi }
}

/// The fence is signaled once, after everything; what signals the semaphore is what the takeover
/// waits for; and the tile is released and taken over between the same two families.
pub proof fn law_submissions_pair(qfi: u32, gqfi: u32, map_read: bool)
    ensures
        match tile_takeover(qfi, gqfi) {
            None => {
                &&& tile_submission(qfi, gqfi).fence
                &&& !tile_submission(qfi, gqfi).signal
            },
            Some((barrier, submission)) => {
                &&& !tile_submission(qfi, gqfi).fence
                &&& submission.fence
                &&& tile_submission(qfi, gqfi).signal
                &&& submission.wait
                &&& barrier.transfer == Some((Transfer { src: qfi, dst: gqfi }))
                &&& tile_commands(qfi, gqfi, map_read).last() matches Command::Barrier(release)
                    && release.transfer == barrier.transfer && release.target == barrier.target
            },
        },
        !tile_submission(qfi, gqfi).wait,
{
}

/// Along each axis the dispatch of the tile shader reaches each pixel of the tile, each in one way
/// only, and none beyond.
pub proof fn law_dispatch_covers_tile(pixel: u32, group: u32, lane: u32)
    requires
        lane < TILE_GROUP,
    ensures
        pixel < TILE_SIZE && pixel == group * TILE_GROUP + lane <==> group < TILE_SIZE / TILE_GROUP
            && group == pixel / TILE_GROUP && lane == pixel % TILE_GROUP,
{
}

/// A queue on which tiles are computed.
#[derive(Debug, Clone, Copy, PartialEq, Eq, Structural)]
pub struct ComputeEngine {
    pub max_iterations: u32,
    /// The family of the queue.
    pub qfi: u32,
    /// The family of the queue that draws.
    pub gqfi: u32,
    /// The map of blocked quarters has been read before.
    pub map_read: bool,
}

impl ComputeEngine {
    /// An engine on a queue of family `qfi`, for a graphics queue of family `gqfi`.
    pub fn new(qfi: u32, gqfi: u32, max_iterations: u32) -> (r: Self)
        ensures
            r == (ComputeEngine { max_iterations, qfi, gqfi, map_read: false }),
    {
        ComputeEngine { max_iterations, qfi, gqfi, map_read: false }
    }

    /// Are semaphores needed between the two queues?
    pub fn needs_semaphores(&self) -> (r: bool)
        ensures
            r == (self.qfi != self.gqfi),
            r == (tile_takeover(self.qfi, self.gqfi) is Some),
    {
        self.qfi != self.gqfi
    }

    fn general(
        target: Target,
        src_stage: Stage,
        src_access: Access,
        dst_stage: Stage,
        dst_access: Access,
        transfer: Option<Transfer>,
    ) -> (r: Barrier)
        ensures
            r == general_barrier(target, src_stage, src_access, dst_stage, dst_access, transfer),
    {
        Barrier {
            target,
            src_stage,
            dst_stage,
            src_access,
            dst_access,
            old_layout: Layout::General,
            new_layout: Layout::General,
            transfer,
        }
    }

    fn discard(target: Target, src_stage: Stage, src_access: Access) -> (r: Barrier)
        ensures
            r == discard_barrier(target, src_stage, src_access),
    {
        Barrier {
            target,
            src_stage,
            dst_stage: Stage::ComputeShader,
            src_access,
            dst_access: Access::ShaderWrite,
            old_layout: Layout::Undefined,
            new_layout: Layout::General,
            transfer: None,
        }
    }

    /// What it takes to compute a tile. Afterwards the map is to be read.
    pub fn compute_tile(&mut self, coord: TileCoord) -> (r: TileWork)
        requires
            coord.on_grid(),
        ensures
            constants_for(r.tile_constants, coord, old(self).max_iterations),
            r.map_cell_size * 2 == TILE_SIZE,
            r.commands@ == tile_commands(old(self).qfi, old(self).gqfi, old(self).map_read),
            r.submission == tile_submission(old(self).qfi, old(self).gqfi),
            r.takeover == tile_takeover(old(self).qfi, old(self).gqfi),
            *final(self) == (ComputeEngine { map_read: true, ..*old(self) }),
    {
        let qfi: u32 = self.qfi;
        let gqfi: u32 = self.gqfi;
        let shared = qfi == gqfi;
        let groups: u32 = TILE_SIZE / TILE_GROUP;
        let map_in = if self.map_read {
            Self::discard(Target::BlockMap, Stage::Host, Access::HostRead)
        } else {
            Self::discard(Target::BlockMap, Stage::TopOfPipe, Access::Nothing)
        };
        let tile_out = if !shared {
            Self::general(
                Target::Tile,
                Stage::ComputeShader,
                Access::ShaderRead,
                Stage::BottomOfPipe,
                Access::Nothing,
                Some(Transfer { src: qfi, dst: gqfi }),
            )
        } else {
            Self::general(
                Target::Tile,
                Stage::ComputeShader,
                Access::ShaderWrite,
                Stage::FragmentShader,
                Access::ShaderRead,
                None,
            )
        };
        let mut commands: Vec<Command> = Vec::new();
        commands.push(Command::Bind(Target::Tile));
        commands.push(
            Command::Barrier(Self::discard(Target::Tile, Stage::TopOfPipe, Access::Nothing)),
        );
        commands.push(Command::Dispatch(groups, groups, 1));
        commands.push(
            Command::Barriers(
                Self::general(
                    Target::Tile,
                    Stage::ComputeShader,
                    Access::ShaderWrite,
                    Stage::ComputeShader,
                    Access::ShaderRead,
                    None,
                ),
                map_in,
            ),
        );
        commands.push(Command::Bind(Target::BlockMap));
        commands.push(Command::Dispatch(1, 1, 1));
        commands.push(
            Command::Barrier(
                Self::general(
                    Target::Tile,
                    Stage::ComputeShader,
                    Access::ShaderWrite,
                    Stage::Host,
                    Access::HostRead,
                    None,
                ),
            ),
        );
        commands.push(Command::Barrier(tile_out));
        assert(commands@ =~= tile_commands(qfi, gqfi, self.map_read));
        let takeover = if shared {
            None
        } else {
            Some(
                (
                    Self::general(
                        Target::Tile,
                        Stage::TopOfPipe,
                        Access::Nothing,
                        Stage::FragmentShader,
                        Access::ShaderRead,
                        Some(Transfer { src: qfi, dst: gqfi }),
                    ),
                    Submission { wait: true, signal: false, fence: true },
                ),
            )
        };
        self.map_read = true;
        TileWork {
            tile_constants: tile_constants(&coord, self.max_iterations),
            map_cell_size: map_cell_size(),
            commands,
            submission: Submission { wait: false, signal: !shared, fence: shared },
            takeover,
        }
    }
}

/// The edge of the part of a tile, in pixels, that one cell of the map stands for.
pub fn map_cell_size() -> (r: i32)
    ensures
        r * 2 == TILE_SIZE,
{
    (TILE_SIZE / 2) as i32
}

/// How many bytes of the map to make readable.
pub open spec fn span_bytes(row_pitch: u64) -> int {
    row_pitch + 8
}

/// How many bytes of the map to make readable: its two rows of two words, of which the second
/// starts at the row pitch.
pub fn map_span(row_pitch: u64) -> (r: u64)
    requires
        row_pitch + 8 <= u64::MAX,
    ensures
        r == row_pitch + 8,
        r == span_bytes(row_pitch),
{
    row_pitch + 8
}

/// Which words of the map to read: the two of the first row, then the two of the second.
pub open spec fn word_places(row_pitch: u64) -> Seq<u64> {
    seq![0, 1, row_pitch / 4, (row_pitch / 4 + 1) as u64]
}

/// Which words of the map to read: the two of the first row, then the two of the second.
pub fn map_words(row_pitch: u64) -> (r: [u64; 4])
    ensures
        r@ == word_places(row_pitch),
{
    let r: [u64; 4] = [0, 1, row_pitch / 4, row_pitch / 4 + 1];
    assert(r@ =~= word_places(row_pitch));
    r
}

/// The words of the map that are read lie within the bytes that are made readable.
pub proof fn law_map_words_in_span(row_pitch: u64, i: int)
    requires
        0 <= i < 4,
    ensures
        4 * word_places(row_pitch)[i] + 4 <= row_pitch + 8,
        4 * word_places(row_pitch)[i] + 4 <= span_bytes(row_pitch),
        row_pitch % 4 == 0 ==> 4 * word_places(row_pitch)[3] + 4 == span_bytes(row_pitch),
{
}

/// Which quarters of a tile are blocked, from the two rows of the map.
pub fn blocks_from_map(row1: [u32; 2], row2: [u32; 2]) -> (r: [bool; 4])
    ensures
        r@ == seq![row1@[0] > 0, row1@[1] > 0, row2@[0] > 0, row2@[1] > 0],
        r@ == blocked_quarters(row1@, row2@),
{
    let r = [row1[0] > 0, row1[1] > 0, row2[0] > 0, row2[1] > 0];
    assert(r@ =~= blocked_quarters(row1@, row2@));
    r
}

/// The memory type for what the host reads back is one that is allowed and that the host can read;
/// the first such that is cached, or, only if none is, the first such. There is none only if no
/// allowed memory type will do.
pub proof fn law_read_back_memory(types: Seq<MemoryType>, bits: u32, r: Option<u32>, j: int)
    requires
        types.len() <= MAX_MEMORY_TYPES,
        first_choice(types, bits, MemoryUse::HostReadCached, MemoryUse::HostRead, r),
        0 <= j < types.len(),
        allowed(bits, j),
        types[j].host_visible,
        types[j].host_coherent,
    ensures
        r matches Some(i) && {
            &&& i < types.len()
            &&& allowed(bits, i as int)
            &&& types[i as int].host_visible
            &&& types[i as int].host_coherent
            &&& types[j].host_cached ==> types[i as int].host_cached && i <= j
            &&& !types[i as int].host_cached ==> i <= j
        },
{
    assert(usable(types, bits, MemoryUse::HostRead)(j));
    assert(usable(types, bits, MemoryUse::HostReadCached)(j) == types[j].host_cached);
}

/// No memory type is chosen for reading back that is not allowed or that the host cannot read.
pub proof fn law_read_back_memory_sound(types: Seq<MemoryType>, bits: u32, i: u32)
    requires
        types.len() <= MAX_MEMORY_TYPES,
        first_choice(types, bits, MemoryUse::HostReadCached, MemoryUse::HostRead, Some(i)),
    ensures
        i < types.len(),
        allowed(bits, i as int),
        types[i as int].host_visible,
        types[i as int].host_coherent,
{
}

/// Which quarters of a tile are blocked, from the two rows of the map.
pub open spec fn blocked_quarters(row1: Seq<u32>, row2: Seq<u32>) -> Seq<bool> {
    seq![row1[0] > 0, row1[1] > 0, row2[0] > 0, row2[1] > 0]
}

/// A quarter of a tile is blocked just if the map says so in the row and column in which the quarter
/// lies. Rows and columns are those of the quarters' coordinates.
pub proof fn law_blocked_quarters(row1: Seq<u32>, row2: Seq<u32>, c: TileCoord, q: int)
    requires
        row1.len() == 2,
        row2.len() == 2,
        c.computable(),
        0 <= q < 4,
    ensures
        blocked_quarters(row1, row2).len() == 4,
        blocked_quarters(row1, row2)[q] <==> (if c.child_at(q).y == 2 * c.y {
            row1
        } else {
            row2
        })[c.child_at(q).x - 2 * c.x] != 0,
{
    c.lemma_child(q);
}

/// The shader that is bound when the command at an index runs: that of the last binding before it.
pub open spec fn bound_at(commands: Seq<Command>, i: int) -> Option<Target>
    decreases i,
{
    if i <= 0 {
        None
    } else {
        match commands[i - 1] {
            Command::Bind(target) => Some(target),
            _ => bound_at(commands, i - 1),
        }
    }
}

/// The command holds the barrier, alone or with another.
pub open spec fn holds(command: Command, b: Barrier) -> bool {
    match command {
        Command::Barrier(a) => a == b,
        Command::Barriers(a, c) => a == b || c == b,
        _ => false,
    }
}

/// The shader of each image runs once, the one that writes the map after the one that writes the
/// tile. The tile shader runs in 16 by 16 groups, the other in one.
pub proof fn law_each_shader_runs_once(qfi: u32, gqfi: u32, map_read: bool, i: int)
    requires
        0 <= i < tile_commands(qfi, gqfi, map_read).len(),
    ensures
        exists|t: int, m: int|
            #![trigger bound_at(tile_commands(qfi, gqfi, map_read), t), bound_at(
                tile_commands(qfi, gqfi, map_read),
                m,
            )]
            {
                let commands = tile_commands(qfi, gqfi, map_read);
                &&& 0 <= t < m < commands.len()
                &&& commands[t] == Command::Dispatch(16, 16, 1)
                &&& bound_at(commands, t) == Some(Target::Tile)
                &&& commands[m] == Command::Dispatch(1, 1, 1)
                &&& bound_at(commands, m) == Some(Target::BlockMap)
                &&& commands[i] is Dispatch ==> i == t || i == m
                &&& commands[i] is Bind ==> i < t || t < i < m
            },
{
    reveal_with_fuel(bound_at, 6);
    let commands = tile_commands(qfi, gqfi, map_read);
    assert(bound_at(commands, 2) == Some(Target::Tile));
    assert(bound_at(commands, 5) == Some(Target::BlockMap));
}

/// Where a shader runs that writes an image, the image has been made ready for writing since it was
/// last used; where the one runs that reads the tile, what was written to the tile can be read; and
/// after both, the host can read and the graphics queue can draw with what was written.
pub proof fn law_barriers_between_shaders(qfi: u32, gqfi: u32, map_read: bool, t: int, m: int)
    requires
        0 <= t < tile_commands(qfi, gqfi, map_read).len(),
        0 <= m < tile_commands(qfi, gqfi, map_read).len(),
        tile_commands(qfi, gqfi, map_read)[t] is Dispatch,
        bound_at(tile_commands(qfi, gqfi, map_read), t) == Some(Target::Tile),
        tile_commands(qfi, gqfi, map_read)[m] is Dispatch,
        bound_at(tile_commands(qfi, gqfi, map_read), m) == Some(Target::BlockMap),
    ensures
        ({
            let commands = tile_commands(qfi, gqfi, map_read);
            // The tile is made ready for writing before it is written, whatever it held.
            &&& exists|i: int|
                0 <= i < t && holds(
                    #[trigger] commands[i],
                    Barrier {
                        target: Target::Tile,
                        src_stage: Stage::TopOfPipe,
                        dst_stage: Stage::ComputeShader,
                        src_access: Access::Nothing,
                        dst_access: Access::ShaderWrite,
                        old_layout: Layout::Undefined,
                        new_layout: Layout::General,
                        transfer: None,
                    },
                )
            // What was written to the tile can be read when the map is written.
            &&& exists|i: int|
                t < i < m && holds(
                    #[trigger] commands[i],
                    Barrier {
                        target: Target::Tile,
                        src_stage: Stage::ComputeShader,
                        dst_stage: Stage::ComputeShader,
                        src_access: Access::ShaderWrite,
                        dst_access: Access::ShaderRead,
                        old_layout: Layout::General,
                        new_layout: Layout::General,
                        transfer: None,
                    },
                )
            // The map is made ready for writing, once the host is done with it.
            &&& map_read ==> exists|i: int|
                t < i < m && holds(
                    #[trigger] commands[i],
                    Barrier {
                        target: Target::BlockMap,
                        src_stage: Stage::Host,
                        dst_stage: Stage::ComputeShader,
                        src_access: Access::HostRead,
                        dst_access: Access::ShaderWrite,
                        old_layout: Layout::Undefined,
                        new_layout: Layout::General,
                        transfer: None,
                    },
                )
            // If the host has not read it yet, there is nothing to wait for.
            &&& !map_read ==> exists|i: int|
                t < i < m && holds(
                    #[trigger] commands[i],
                    Barrier {
                        target: Target::BlockMap,
                        src_stage: Stage::TopOfPipe,
                        dst_stage: Stage::ComputeShader,
                        src_access: Access::Nothing,
                        dst_access: Access::ShaderWrite,
                        old_layout: Layout::Undefined,
                        new_layout: Layout::General,
                        transfer: None,
                    },
                )
            // The host waits for the shaders.
            &&& exists|i: int|
                m < i < commands.len() && holds(
                    #[trigger] commands[i],
                    Barrier {
                        target: Target::Tile,
                        src_stage: Stage::ComputeShader,
                        dst_stage: Stage::Host,
                        src_access: Access::ShaderWrite,
                        dst_access: Access::HostRead,
                        old_layout: Layout::General,
                        new_layout: Layout::General,
                        transfer: None,
                    },
                )
            // Drawing waits for the shaders.
            &&& qfi == gqfi ==> exists|i: int|
                m < i < commands.len() && holds(
                    #[trigger] commands[i],
                    Barrier {
                        target: Target::Tile,
                        src_stage: Stage::ComputeShader,
                        dst_stage: Stage::FragmentShader,
                        src_access: Access::ShaderWrite,
                        dst_access: Access::ShaderRead,
                        old_layout: Layout::General,
                        new_layout: Layout::General,
                        transfer: None,
                    },
                )
            // The tile leaves for the family that draws.
            &&& qfi != gqfi ==> exists|i: int|
                m < i < commands.len() && holds(
                    #[trigger] commands[i],
                    Barrier {
                        target: Target::Tile,
                        src_stage: Stage::ComputeShader,
                        dst_stage: Stage::BottomOfPipe,
                        src_access: Access::ShaderRead,
                        dst_access: Access::Nothing,
                        old_layout: Layout::General,
                        new_layout: Layout::General,
                        transfer: Some(Transfer { src: qfi, dst: gqfi }),
                    },
                )
        }),
{
    reveal_with_fuel(bound_at, 6);
    let commands = tile_commands(qfi, gqfi, map_read);
    assert(commands.len() == 8);
    assert(bound_at(commands, 2) == Some(Target::Tile));
    assert(bound_at(commands, 5) == Some(Target::BlockMap));
    assert(t == 2 && m == 5);
    assert(commands[1] is Barrier && commands[3] is Barriers);
    assert(commands[6] is Barrier && commands[7] is Barrier);
}

/// A queue of another family hands the tile over, and the graphics queue takes it over for drawing
/// after that; a queue of the same family does not. Whoever comes last, and nobody else, signals the
/// fence.
pub proof fn law_takeover(qfi: u32, gqfi: u32)
    ensures
        tile_takeover(qfi, gqfi) is Some <==> qfi != gqfi,
        tile_takeover(qfi, gqfi) matches Some((b, s)) ==> {
            &&& b.target == Target::Tile
            &&& b.transfer == Some(Transfer { src: qfi, dst: gqfi })
            &&& b.src_stage == Stage::TopOfPipe
            &&& b.src_access == Access::Nothing
            &&& b.old_layout == Layout::General
            &&& b.new_layout == Layout::General
            &&& b.dst_stage == Stage::FragmentShader
            &&& b.dst_access == Access::ShaderRead
            &&& s.wait && s.fence && !s.signal
        },
        tile_submission(qfi, gqfi).signal == tile_takeover(qfi, gqfi) is Some,
        tile_submission(qfi, gqfi).fence == tile_takeover(qfi, gqfi) is None,
        !tile_submission(qfi, gqfi).wait,
{
}

/// What the shader is told is the square of the tile: it starts where its left and lower neighbours
/// end, in the corner of the root if it has none, and is as wide as the tile. The pixels, of which
/// there are one more than steps between them, are those that the dispatch computes.
pub proof fn law_constants(
    c: TileCoord,
    right: TileCoord,
    up: TileCoord,
    k: TileConstants,
    kr: TileConstants,
    ku: TileConstants,
    n: u32,
)
    requires
        c.level <= GRID_LEVEL,
        right.level == c.level,
        right.x == c.x + 1,
        up.level == c.level,
        up.y == c.y + 1,
        constants_for(k, c, n),
        constants_for(kr, right, n),
        constants_for(ku, up, n),
    ensures
        kr.left == k.left + k.extent,
        ku.bottom == k.bottom + k.extent,
        c.x == 0 ==> k.left == ROOT_LEFT,
        c.y == 0 ==> k.bottom == ROOT_BOTTOM,
        k.extent * pow2(c.level as nat) == ROOT_EXTENT,
        k.steps + 1 == 16 * 16,
        k.max_iterations == n,
{
    law_side_by_side(c, right, up);
}

/// The words of the map that are read: two that follow one another at its start, and two that follow
/// one another a row further on, at the last word that starts no later than the row.
pub proof fn law_map_words(row_pitch: u64)
    ensures
        word_places(row_pitch).len() == 4,
        word_places(row_pitch)[0] == 0,
        word_places(row_pitch)[1] == word_places(row_pitch)[0] + 1,
        4 * word_places(row_pitch)[2] <= row_pitch < 4 * word_places(row_pitch)[2] + 4,
        word_places(row_pitch)[3] == word_places(row_pitch)[2] + 1,
{
}

} // verus!
