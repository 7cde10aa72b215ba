//! What unpacking the blocks of a file comes to.
use crate::bytes;
use crate::error::{ExtractError, Fault, Stop};
use crate::index::IndexView;
use crate::layout;
use crate::layout::Block;
use crate::lookup;
use crate::names::{CDHD, DIGI, ENCD, EXCD, LECF, LFLF, LSC2, SCRP, TALK, TLKE, VERB};
use crate::output::{FileView, OutputView, Scope, ScriptView};
use crate::text;
use vstd::prelude::*;
use vstd::utf8::*;

verus! {

/// What stays the same while a file is unpacked.
pub struct Game {
    pub index: IndexView,
    pub disk: u8,
    pub publish: bool,
}

/// What is known of a container while its blocks are unpacked.
pub struct ContainerView {
    /// The directory that the container's files go to.
    pub path: Seq<char>,
    /// The room that the blocks belong to.
    pub room: i32,
    /// The object that the blocks belong to.
    pub object: u16,
    /// How many blocks of each kind were counted so far.
    pub counts: Map<u32, i32>,
    /// The names of the blocks so far, a line for each.
    pub map: Seq<char>,
}

/// What was put out, how it came to its end, and where that leaves the container. If the end came
/// early the container is of no further use.
pub struct Run {
    pub outs: Seq<OutputView>,
    pub end: Result<(), Stop>,
    pub container: ContainerView,
}

/// A run that stops before anything is put out.
pub open spec fn stopped(stop: Stop, c: ContainerView) -> Run {
    Run { outs: Seq::empty(), end: Err(stop), container: c }
}

/// The key under which blocks of a kind are counted.
pub open spec fn id_key(id: Seq<u8>) -> u32 {
    (0x100_0000 * id[0] + 0x1_0000 * id[1] + 0x100 * id[2] + id[3]) as u32
}

/// How many blocks of the kind were counted so far.
pub open spec fn counted(c: ContainerView, id: Seq<u8>) -> int {
    if c.counts.contains_key(id_key(id)) {
        c.counts[id_key(id)] as int
    } else {
        0
    }
}

/// Numbers a block by counting the blocks of its kind in the container.
pub open spec fn count_block(c: ContainerView, id: Seq<u8>) -> Result<(i32, ContainerView), Stop> {
    if counted(c, id) == i32::MAX {
        Err(Stop::Fault(Fault::TooManyBlocks))
    } else {
        let number = (counted(c, id) + 1) as i32;
        Ok((number, ContainerView { counts: c.counts.insert(id_key(id), number), ..c }))
    }
}

/// The number that a lookup came up with; `missing` if there is none.
pub open spec fn found(r: Result<Option<int>, Stop>, missing: ExtractError) -> Result<i32, Stop> {
    match r {
        Err(stop) => Err(stop),
        Ok(None) => Err(Stop::Error(missing)),
        Ok(Some(n)) => Ok(n as i32),
    }
}

/// A number that leaves the container as it is.
pub open spec fn numbered(r: Result<i32, Stop>, c: ContainerView) -> Result<
    (i32, ContainerView),
    Stop,
> {
    match r {
        Err(stop) => Err(stop),
        Ok(n) => Ok((n, c)),
    }
}

/// The number of a block that holds blocks. The disk has its own number, rooms and sounds have
/// theirs from the index, and all others are counted.
pub open spec fn number_nested(g: Game, c: ContainerView, id: Seq<u8>, offset: int) -> Result<
    (i32, ContainerView),
    Stop,
> {
    if id == LECF@ {
        Ok((g.disk as i32, c))
    } else if id == LFLF@ {
        match found(
            lookup::lfl_number(g.index, g.disk, offset),
            ExtractError::LflNotInIndex,
        ) {
            Err(stop) => Err(stop),
            Ok(room) => Ok((room, ContainerView { room, ..c })),
        }
    } else if id == DIGI@ || id == TALK@ {
        numbered(
            found(
                lookup::object_number(g.index, g.index.sounds, g.disk, offset - 8),
                ExtractError::SoundNotInIndex,
            ),
            c,
        )
    } else if id == TLKE@ {
        numbered(
            found(
                lookup::object_number(g.index, g.index.talkies, g.disk, offset - 8),
                ExtractError::TalkieNotInIndex,
            ),
            c,
        )
    } else {
        count_block(c, id)
    }
}

/// The number of a block with raw content. Global scripts have theirs from the index, local scripts
/// and object headers from their content, and all others are counted.
pub open spec fn number_flat(
    g: Game,
    c: ContainerView,
    id: Seq<u8>,
    offset: int,
    content: Seq<u8>,
) -> Result<(i32, ContainerView), Stop> {
    if id == SCRP@ {
        numbered(
            found(
                lookup::object_number(g.index, g.index.scripts, g.disk, offset - 8),
                ExtractError::ScriptNotInIndex,
            ),
            c,
        )
    } else if id == LSC2@ {
        if content.len() < 4 {
            Err(Stop::Error(ExtractError::LocalScriptHeader))
        } else {
            Ok((bytes::le_i32(content, 0) as i32, c))
        }
    } else if id == CDHD@ {
        if content.len() < 2 {
            Err(Stop::Error(ExtractError::ObjectHeader))
        } else {
            let object = bytes::le_u16(content, 0) as u16;
            Ok((object as i32, ContainerView { object, ..c }))
        }
    } else {
        count_block(c, id)
    }
}

/// The container once a block of that name is listed.
pub open spec fn listed(c: ContainerView, name: Seq<char>) -> ContainerView {
    ContainerView { map: c.map + name + "\n"@, ..c }
}

/// The path of what is called `name` in the container.
pub open spec fn path_in(c: ContainerView, name: Seq<char>) -> Seq<char> {
    c.path + "/"@ + name
}

/// A script that is filed under `id` and `number`.
pub open spec fn script(
    g: Game,
    c: ContainerView,
    id: Seq<u8>,
    number: i32,
    scope: Scope,
    code: Seq<u8>,
) -> OutputView {
    OutputView::Script(
        ScriptView {
            stem: path_in(c, text::id_num(id, number as int)),
            code,
            scope,
            number,
            publish: g.publish,
        },
    )
}

/// The entry of a verb table that stands at `pos`: the verb's number and the offset of its code,
/// which is counted from the start of the block's header. The table ends at a zero or where the
/// content does.
pub open spec fn verb_at(content: Seq<u8>, pos: int) -> Option<(u8, int)> {
    if pos >= content.len() || content[pos] == 0 || pos + 3 > content.len() {
        None
    } else {
        Some((content[pos], bytes::le_u16(content, pos + 1)))
    }
}

/// Where the code ends of the verb whose entry stands at `pos`: where that of the next verb starts.
pub open spec fn verb_end(content: Seq<u8>, pos: int) -> int {
    match verb_at(content, pos + 3) {
        Some((_, next)) => next - 8,
        None => content.len() as int,
    }
}

/// What the verbs from `pos` on come to.
pub open spec fn verbs(g: Game, c: ContainerView, content: Seq<u8>, pos: int) -> Run
    decreases content.len() - pos,
{
    match verb_at(content, pos) {
        None => Run { outs: Seq::empty(), end: Ok(()), container: c },
        Some((number, offset)) => {
            let start = offset - 8;
            let end = verb_end(content, pos);
            if 0 <= start <= end <= content.len() {
                let scope = Scope::Verb(c.room, c.object);
                let out = script(g, c, VERB@, number as i32, scope, content.subrange(start, end));
                let rest = verbs(g, c, content, pos + 3);
                Run { outs: seq![out] + rest.outs, end: rest.end, container: c }
            } else {
                stopped(Stop::Fault(Fault::VerbRange), c)
            }
        },
    }
}

/// What the scripts in a block come to. Objects have one block of verbs each; any further one is
/// treated like the first.
pub open spec fn scripts(
    g: Game,
    c: ContainerView,
    id: Seq<u8>,
    number: i32,
    content: Seq<u8>,
) -> Run {
    if id == SCRP@ {
        let out = script(g, c, id, number, Scope::Global(number), content);
        Run { outs: seq![out], end: Ok(()), container: c }
    } else if id == LSC2@ {
        let out = script(
            g,
            c,
            id,
            number,
            Scope::RoomLocal(c.room, number),
            content.subrange(4, content.len() as int),
        );
        Run { outs: seq![out], end: Ok(()), container: c }
    } else if id == ENCD@ {
        let out = script(g, c, id, number, Scope::RoomEnter(c.room), content);
        Run { outs: seq![out], end: Ok(()), container: c }
    } else if id == EXCD@ {
        let out = script(g, c, id, number, Scope::RoomExit(c.room), content);
        Run { outs: seq![out], end: Ok(()), container: c }
    } else if id == VERB@ {
        verbs(g, c, content, 0)
    } else {
        Run { outs: Seq::empty(), end: Ok(()), container: c }
    }
}

/// What a block with raw content comes to: it is listed, its content is filed, and its scripts
/// follow.
pub open spec fn walk_flat(
    g: Game,
    c: ContainerView,
    id: Seq<u8>,
    offset: int,
    content: Seq<u8>,
) -> Run {
    match number_flat(g, c, id, offset, content) {
        Err(stop) => stopped(stop, c),
        Ok((number, c1)) => if !valid_utf8(id) {
            stopped(Stop::Fault(Fault::BlockIdNotText), c)
        } else {
            let name = text::id_num(id, number as int);
            let c2 = listed(c1, name);
            let file = OutputView::Block(
                FileView { path: path_in(c2, name) + ".bin"@, data: content },
            );
            let rest = scripts(g, c2, id, number, content);
            Run { outs: seq![file] + rest.outs, end: rest.end, container: rest.container }
        },
    }
}

/// The list of what a container holds.
pub open spec fn listing(c: ContainerView) -> OutputView {
    OutputView::Listing(FileView { path: c.path + "/.map"@, data: encode_utf8(c.map) })
}

/// The container that a block called `name` is, before its own blocks are unpacked.
pub open spec fn opened(c: ContainerView, name: Seq<char>) -> ContainerView {
    ContainerView {
        path: path_in(c, name),
        counts: Map::empty(),
        map: Seq::empty(),
        ..c
    }
}

/// What a block comes to. One that holds blocks is listed, its own blocks are unpacked into a
/// directory of their own, and the list of them follows.
pub open spec fn walk_block(g: Game, block: Block, c: ContainerView) -> Run
    decreases block,
{
    match block {
        Block::Flat { id, offset, content } => walk_flat(g, c, id, offset, content),
        Block::Nested { id, offset, blocks, end } => match number_nested(g, c, id, offset) {
            Err(stop) => stopped(stop, c),
            Ok((number, c1)) => if !valid_utf8(id) {
                stopped(Stop::Fault(Fault::BlockIdNotText), c)
            } else {
                let name = text::id_num(id, number as int);
                let c2 = listed(c1, name);
                let inner = walk(g, blocks, end, opened(c2, name));
                if inner.end is Err {
                    inner
                } else {
                    Run {
                        outs: inner.outs.push(listing(inner.container)),
                        end: Ok(()),
                        container: ContainerView {
                            path: text::parent(inner.container.path),
                            ..c2
                        },
                    }
                }
            },
        },
    }
}

/// What blocks that stand one behind the other come to. The first one that stops ends them all;
/// if none does, they end as reading them does.
pub open spec fn walk(
    g: Game,
    blocks: Seq<Block>,
    end: Result<(), Stop>,
    c: ContainerView,
) -> Run
    decreases blocks,
{
    if blocks.len() == 0 {
        Run { outs: Seq::empty(), end, container: c }
    } else {
        let first = walk_block(g, blocks[0], c);
        if first.end is Err {
            first
        } else {
            let rest = walk(g, blocks.drop_first(), end, first.container);
            Run { outs: first.outs + rest.outs, end: rest.end, container: rest.container }
        }
    }
}

/// The container that a file is.
pub open spec fn root() -> ContainerView {
    ContainerView {
        path: "."@,
        room: 0,
        object: 0,
        counts: Map::empty(),
        map: Seq::empty(),
    }
}

/// What the blocks of a file come to.
pub open spec fn walk_file(g: Game, file: Seq<u8>) -> Run {
    let d = bytes::masked(file, bytes::NICE);
    let f = layout::forest(d, 0, d.len() as int);
    walk(g, f.blocks, f.end, root())
}

/// What unpacking a file puts out: what its blocks do, and the list of them.
pub open spec fn extraction(g: Game, file: Seq<u8>) -> (Seq<OutputView>, Result<(), Stop>) {
    let run = walk_file(g, file);
    if run.end is Err {
        (run.outs, run.end)
    } else {
        (run.outs.push(listing(run.container)), run.end)
    }
}

/// A path that goes on behind a slash has a parent, which goes on from what stands before the slash.
pub proof fn lemma_parent_goes_on(path: Seq<char>, name: Seq<char>, longer: Seq<char>)
    requires
        (path + "/"@ + name).is_prefix_of(longer),
    ensures
        longer.contains('/'),
        path.is_prefix_of(text::parent(longer)),
{
    reveal_strlit("/");
    let n = path.len() as int;
    let child = path + "/"@ + name;
    assert(child[n] == '/');
    assert(longer.subrange(0, child.len() as int)[n] == longer[n]);
    text::lemma_last_slash(longer);
    assert(text::last_slash(longer) >= n);
    assert(path =~= child.subrange(0, n));
    assert forall|i: int| 0 <= i < n implies path[i] == longer[i] by {
        assert(longer.subrange(0, child.len() as int)[i] == longer[i]);
        assert(child[i] == path[i]);
    }
    assert(path =~= text::parent(longer).subrange(0, n));
}

/// Unpacking blocks never makes the path of their container shorter.
pub proof fn law_paths_go_on(g: Game, blocks: Seq<Block>, end: Result<(), Stop>, c: ContainerView)
    ensures
        walk(g, blocks, end, c).end is Ok ==> c.path.is_prefix_of(
            walk(g, blocks, end, c).container.path,
        ),
    decreases blocks,
{
    if blocks.len() == 0 {
        assert(c.path =~= c.path.subrange(0, c.path.len() as int));
    } else {
        let first = walk_block(g, blocks[0], c);
        lemma_block_path_goes_on(g, blocks[0], c);
        if first.end is Ok {
            law_paths_go_on(g, blocks.drop_first(), end, first.container);
            let last = walk(g, blocks, end, c).container.path;
            if walk(g, blocks, end, c).end is Ok {
                let mid = first.container.path;
                assert forall|i: int| 0 <= i < c.path.len() implies c.path[i] == last[i] by {
                    assert(mid.subrange(0, c.path.len() as int)[i] == mid[i]);
                    assert(last.subrange(0, mid.len() as int)[i] == last[i]);
                }
                assert(c.path =~= last.subrange(0, c.path.len() as int));
            }
        }
    }
}

proof fn lemma_block_path_goes_on(g: Game, block: Block, c: ContainerView)
    ensures
        walk_block(g, block, c).end is Ok ==> c.path.is_prefix_of(
            walk_block(g, block, c).container.path,
        ),
    decreases block,
{
    assert(c.path =~= c.path.subrange(0, c.path.len() as int));
    match block {
        Block::Flat { id, offset, content } => {},
        Block::Nested { id, offset, blocks, end } => {
            if let Ok((number, c1)) = number_nested(g, c, id, offset) {
                let name = text::id_num(id, number as int);
                let start = opened(listed(c1, name), name);
                law_paths_go_on(g, blocks, end, start);
                let inner = walk(g, blocks, end, start);
                if inner.end is Ok {
                    lemma_parent_goes_on(c.path, name, inner.container.path);
                }
            }
        },
    }
}

/// What a run of blocks comes to is what its first block does, and then what the rest does.
pub proof fn lemma_walk_in_front(g: Game, block: Block, rest: layout::Forest, c: ContainerView)
    ensures
        walk(g, layout::in_front(block, rest).blocks, rest.end, c) == ({
            let first = walk_block(g, block, c);
            if first.end is Err {
                first
            } else {
                let tail = walk(g, rest.blocks, rest.end, first.container);
                Run { outs: first.outs + tail.outs, end: tail.end, container: tail.container }
            }
        }),
{
    let blocks = layout::in_front(block, rest).blocks;
    assert(blocks[0] == block);
    assert(blocks.drop_first() =~= rest.blocks);
}

/// Blocks that come to a good end were read to a good end.
pub proof fn lemma_walk_ends(g: Game, blocks: Seq<Block>, end: Result<(), Stop>, c: ContainerView)
    ensures
        walk(g, blocks, end, c).end is Ok ==> end is Ok,
    decreases blocks.len(),
{
    if blocks.len() > 0 {
        let first = walk_block(g, blocks[0], c);
        if first.end is Ok {
            lemma_walk_ends(g, blocks.drop_first(), end, first.container);
        }
    }
}

} // verus!
