//! What holds of unpacking as a whole.
use crate::bytes;
use crate::error::Stop;
use crate::layout;
use crate::layout::Block;
use crate::names::{CDHD, DIGI, LECF, LFLF, LSC2, SCRP, TALK, TLKE};
use crate::output::{FileView, OutputView, ScriptView};
use crate::text;
use crate::walk;
use crate::walk::{ContainerView, Game, Run};
use vstd::prelude::*;
use vstd::utf8::*;

verus! {

/// The contents of the blocks among the outputs, in order.
pub open spec fn filed(outs: Seq<OutputView>) -> Seq<Seq<u8>>
    decreases outs.len(),
{
    if outs.len() == 0 {
        Seq::empty()
    } else {
        match outs.last() {
            OutputView::Block(file) => filed(outs.drop_last()).push(file.data),
            _ => filed(outs.drop_last()),
        }
    }
}

/// The raw contents in a block, in order.
pub open spec fn leaves(block: Block) -> Seq<Seq<u8>>
    decreases block,
{
    match block {
        Block::Flat { id, offset, content } => seq![content],
        Block::Nested { id, offset, blocks, end } => all_leaves(blocks),
    }
}

/// The raw contents in blocks that stand one behind the other, in order.
pub open spec fn all_leaves(blocks: Seq<Block>) -> Seq<Seq<u8>>
    decreases blocks,
{
    if blocks.len() == 0 {
        Seq::empty()
    } else {
        leaves(blocks[0]) + all_leaves(blocks.drop_first())
    }
}

proof fn lemma_filed_add(a: Seq<OutputView>, b: Seq<OutputView>)
    ensures
        filed(a + b) == filed(a) + filed(b),
    decreases b.len(),
{
    if b.len() == 0 {
        assert(a + b =~= a);
        assert(filed(a) + filed(b) =~= filed(a));
    } else {
        lemma_filed_add(a, b.drop_last());
        assert((a + b).drop_last() =~= a + b.drop_last());
        assert((a + b).last() == b.last());
        assert(filed(a + b) =~= filed(a) + filed(b));
    }
}

/// Whether there are scripts only.
spec fn only_scripts(outs: Seq<OutputView>) -> bool {
    forall|i: int| 0 <= i < outs.len() ==> (#[trigger] outs[i]) is Script
}

proof fn lemma_filed_scripts(outs: Seq<OutputView>)
    requires
        only_scripts(outs),
    ensures
        filed(outs) == Seq::<Seq<u8>>::empty(),
    decreases outs.len(),
{
    if outs.len() > 0 {
        assert(outs.last() is Script);
        lemma_filed_scripts(outs.drop_last());
    }
}

proof fn lemma_verbs_are_scripts(g: Game, c: ContainerView, content: Seq<u8>, pos: int)
    ensures
        only_scripts(walk::verbs(g, c, content, pos).outs),
        walk::verbs(g, c, content, pos).container == c,
    decreases content.len() - pos,
{
    if walk::verb_at(content, pos) is Some {
        lemma_verbs_are_scripts(g, c, content, pos + 3);
    }
}

/// When blocks are unpacked to a good end, every raw content among them is filed once, unchanged
/// and in order, and nothing else is filed as a block.
pub proof fn law_contents_are_filed(
    g: Game,
    blocks: Seq<Block>,
    end: Result<(), Stop>,
    c: ContainerView,
)
    requires
        walk::walk(g, blocks, end, c).end is Ok,
    ensures
        filed(walk::walk(g, blocks, end, c).outs) == all_leaves(blocks),
    decreases blocks,
{
    if blocks.len() > 0 {
        let first = walk::walk_block(g, blocks[0], c);
        lemma_block_is_filed(g, blocks[0], c);
        let rest = walk::walk(g, blocks.drop_first(), end, first.container);
        law_contents_are_filed(g, blocks.drop_first(), end, first.container);
        lemma_filed_add(first.outs, rest.outs);
    }
}

proof fn lemma_block_is_filed(g: Game, block: Block, c: ContainerView)
    requires
        walk::walk_block(g, block, c).end is Ok,
    ensures
        filed(walk::walk_block(g, block, c).outs) == leaves(block),
    decreases block,
{
    let run = walk::walk_block(g, block, c);
    match block {
        Block::Flat { id, offset, content } => {
            let (number, c1) = walk::number_flat(g, c, id, offset, content)->Ok_0;
            let c2 = walk::listed(c1, text::id_num(id, number as int));
            let rest = walk::scripts(g, c2, id, number, content).outs;
            lemma_verbs_are_scripts(g, c2, content, 0);
            lemma_filed_scripts(rest);
            let file = seq![run.outs[0]];
            assert(run.outs =~= file + rest);
            lemma_filed_add(file, rest);
            assert(file.drop_last() =~= Seq::<OutputView>::empty());
            assert(filed(file.drop_last()) =~= Seq::<Seq<u8>>::empty());
            assert(filed(file) =~= seq![content]);
            assert(filed(run.outs) =~= leaves(block));
        },
        Block::Nested { id, offset, blocks, end } => {
            let (number, c1) = walk::number_nested(g, c, id, offset)->Ok_0;
            let name = text::id_num(id, number as int);
            let start = walk::opened(walk::listed(c1, name), name);
            law_contents_are_filed(g, blocks, end, start);
            assert(run.outs.drop_last() =~= walk::walk(g, blocks, end, start).outs);
        },
    }
}

/// What two runs of blocks come to, one behind the other, is what the first does, and then, unless
/// that stops early, what the second does. So what was put out before a stop does not depend on
/// what stands behind it.
pub proof fn law_runs_follow_each_other(
    g: Game,
    front: Seq<Block>,
    back: Seq<Block>,
    end: Result<(), Stop>,
    c: ContainerView,
)
    ensures
        walk::walk(g, front + back, end, c) == ({
            let first = walk::walk(g, front, Ok(()), c);
            if first.end is Err {
                first
            } else {
                let rest = walk::walk(g, back, end, first.container);
                Run { outs: first.outs + rest.outs, end: rest.end, container: rest.container }
            }
        }),
    decreases front.len(),
{
    if front.len() == 0 {
        assert(front + back =~= back);
        let rest = walk::walk(g, back, end, c);
        assert(Seq::<OutputView>::empty() + rest.outs =~= rest.outs);
    } else {
        let head = walk::walk_block(g, front[0], c);
        assert((front + back)[0] == front[0]);
        assert((front + back).drop_first() =~= front.drop_first() + back);
        if head.end is Ok {
            law_runs_follow_each_other(g, front.drop_first(), back, end, head.container);
            let mid = walk::walk(g, front.drop_first(), Ok(()), head.container);
            if mid.end is Ok {
                let rest = walk::walk(g, back, end, mid.container);
                assert(head.outs + (mid.outs + rest.outs) =~= (head.outs + mid.outs) + rest.outs);
            }
        }
    }
}

/// An output with the mark that it is to be published set to `publish`, if it is a script.
pub open spec fn marked(out: OutputView, publish: bool) -> OutputView {
    match out {
        OutputView::Script(script) => OutputView::Script(ScriptView { publish, ..script }),
        other => other,
    }
}

/// What was put out, with the marks of the scripts set to `publish`.
pub open spec fn all_marked(outs: Seq<OutputView>, publish: bool) -> Seq<OutputView> {
    outs.map_values(|out: OutputView| marked(out, publish))
}

/// A run with the marks of the scripts set to `publish`.
pub open spec fn marked_run(run: Run, publish: bool) -> Run {
    Run { outs: all_marked(run.outs, publish), ..run }
}

proof fn lemma_marked_add(a: Seq<OutputView>, b: Seq<OutputView>, publish: bool)
    ensures
        all_marked(a + b, publish) == all_marked(a, publish) + all_marked(b, publish),
{
    assert(all_marked(a + b, publish) =~= all_marked(a, publish) + all_marked(b, publish));
}

proof fn lemma_verbs_publish(
    g: Game,
    publish: bool,
    c: ContainerView,
    content: Seq<u8>,
    pos: int,
)
    ensures
        walk::verbs(Game { publish, ..g }, c, content, pos) == marked_run(
            walk::verbs(g, c, content, pos),
            publish,
        ),
    decreases content.len() - pos,
{
    if walk::verb_at(content, pos) is Some {
        lemma_verbs_publish(g, publish, c, content, pos + 3);
    }
    assert(walk::verbs(Game { publish, ..g }, c, content, pos).outs =~= all_marked(
        walk::verbs(g, c, content, pos).outs,
        publish,
    ));
}

/// Publishing scripts changes nothing but the marks of the scripts: neither what else is put out,
/// nor the order, nor how unpacking comes to its end.
pub proof fn law_publishing_only_marks(
    g: Game,
    publish: bool,
    blocks: Seq<Block>,
    end: Result<(), Stop>,
    c: ContainerView,
)
    ensures
        walk::walk(Game { publish, ..g }, blocks, end, c) == marked_run(
            walk::walk(g, blocks, end, c),
            publish,
        ),
    decreases blocks,
{
    let p = Game { publish, ..g };
    if blocks.len() == 0 {
        assert(walk::walk(p, blocks, end, c).outs =~= all_marked(
            walk::walk(g, blocks, end, c).outs,
            publish,
        ));
    } else {
        lemma_block_publish(g, publish, blocks[0], c);
        let first = walk::walk_block(g, blocks[0], c);
        if first.end is Ok {
            law_publishing_only_marks(g, publish, blocks.drop_first(), end, first.container);
            let rest = walk::walk(g, blocks.drop_first(), end, first.container);
            lemma_marked_add(first.outs, rest.outs, publish);
        }
    }
}

proof fn lemma_block_publish(g: Game, publish: bool, block: Block, c: ContainerView)
    ensures
        walk::walk_block(Game { publish, ..g }, block, c) == marked_run(
            walk::walk_block(g, block, c),
            publish,
        ),
    decreases block,
{
    let p = Game { publish, ..g };
    match block {
        Block::Flat { id, offset, content } => {
            if let Ok((number, c1)) = walk::number_flat(g, c, id, offset, content) {
                let c2 = walk::listed(c1, text::id_num(id, number as int));
                lemma_verbs_publish(g, publish, c2, content, 0);
                assert(walk::scripts(p, c2, id, number, content).outs =~= all_marked(
                    walk::scripts(g, c2, id, number, content).outs,
                    publish,
                ));
            }
        },
        Block::Nested { id, offset, blocks, end } => {
            if let Ok((number, c1)) = walk::number_nested(g, c, id, offset) {
                let name = text::id_num(id, number as int);
                let start = walk::opened(walk::listed(c1, name), name);
                law_publishing_only_marks(g, publish, blocks, end, start);
            }
        },
    }
    assert(walk::walk_block(p, block, c).outs =~= all_marked(
        walk::walk_block(g, block, c).outs,
        publish,
    ));
}

/// Different kinds of blocks are counted under different keys.
proof fn lemma_keys_differ(a: Seq<u8>, b: Seq<u8>)
    requires
        a.len() == 4,
        b.len() == 4,
        walk::id_key(a) == walk::id_key(b),
    ensures
        a == b,
{
    bytes::lemma_number_parts(a[0] as int, a[1] as int, a[2] as int, a[3] as int);
    bytes::lemma_number_parts(b[0] as int, b[1] as int, b[2] as int, b[3] as int);
    assert(a =~= b);
}

/// Counting a block gives it the number after the last one of its kind, and touches no other kind.
pub proof fn law_blocks_are_counted(c: ContainerView, id: Seq<u8>, other: Seq<u8>)
    requires
        id.len() == 4,
        other.len() == 4,
        walk::count_block(c, id) is Ok,
    ensures
        ({
            let (number, after) = walk::count_block(c, id)->Ok_0;
            &&& number == walk::counted(c, id) + 1
            &&& walk::counted(after, id) == number
            &&& other != id ==> walk::counted(after, other) == walk::counted(c, other)
        }),
{
    if other != id && walk::id_key(other) == walk::id_key(id) {
        lemma_keys_differ(id, other);
    }
}

/// The kind of a block.
pub open spec fn block_id(block: Block) -> Seq<u8> {
    match block {
        Block::Flat { id, .. } => id,
        Block::Nested { id, .. } => id,
    }
}

/// The number of a block, and what becomes of the container when the block is numbered.
pub open spec fn block_number(g: Game, c: ContainerView, block: Block) -> Result<
    (i32, ContainerView),
    Stop,
> {
    match block {
        Block::Flat { id, offset, content } => walk::number_flat(g, c, id, offset, content),
        Block::Nested { id, offset, .. } => walk::number_nested(g, c, id, offset),
    }
}

/// Whether blocks like this are numbered by counting them.
pub open spec fn is_counted(block: Block) -> bool {
    match block {
        Block::Flat { id, .. } => id != SCRP@ && id != LSC2@ && id != CDHD@,
        Block::Nested { id, .. } => id != LECF@ && id != LFLF@ && id != DIGI@ && id != TALK@ && id
            != TLKE@,
    }
}

/// Numbering leaves the counts as they are or counts one block, and leaves path and list alone.
pub proof fn lemma_numbering(g: Game, c: ContainerView, block: Block)
    requires
        block_number(g, c, block) is Ok,
    ensures
        ({
            let (number, c1) = block_number(g, c, block)->Ok_0;
            &&& c1.path == c.path
            &&& c1.map == c.map
            &&& is_counted(block) ==> walk::count_block(c, block_id(block)) == Ok::<
                (i32, ContainerView),
                Stop,
            >((number, c1))
            &&& !is_counted(block) ==> c1.counts == c.counts
        }),
{
}

/// A block that is unpacked to a good end is listed under its name; if it has raw content, that is
/// filed under the same name. The counts are those that numbering the block leaves.
pub proof fn law_blocks_are_listed(g: Game, block: Block, c: ContainerView)
    requires
        walk::walk_block(g, block, c).end is Ok,
    ensures
        block_number(g, c, block) is Ok,
        ({
            let run = walk::walk_block(g, block, c);
            let (number, c1) = block_number(g, c, block)->Ok_0;
            let name = text::id_num(block_id(block), number as int);
            &&& run.container.map == c.map + name + "\n"@
            &&& run.container.counts == c1.counts
            &&& block matches Block::Flat { content, .. } ==> run.outs.len() > 0 && run.outs[0]
                == OutputView::Block(
                (FileView { path: c.path + "/"@ + name + ".bin"@, data: content }),
            )
        }),
{
    lemma_numbering(g, c, block);
    if let Block::Flat { id, offset, content } = block {
        let (number, c1) = walk::number_flat(g, c, id, offset, content)->Ok_0;
        let c2 = walk::listed(c1, text::id_num(id, number as int));
        lemma_verbs_are_scripts(g, c2, content, 0);
    }
}

/// Whether every block has a name of four bytes.
pub open spec fn four_byte_names(blocks: Seq<Block>) -> bool {
    forall|i: int| 0 <= i < blocks.len() ==> block_id(#[trigger] blocks[i]).len() == 4
}

/// Blocks that are read from a file have names of four bytes.
pub proof fn law_names_have_four_bytes(d: Seq<u8>, pos: int, end: int)
    requires
        0 <= pos,
    ensures
        four_byte_names(layout::forest(d, pos, end).blocks),
    decreases d.len() - pos,
{
    if pos < end {
        if let Ok(h) = layout::header(d, pos) {
            if pos + h.len <= d.len() {
                law_names_have_four_bytes(d, pos + h.len, end);
            }
        }
    }
}

/// While the blocks of a container are unpacked no count ever falls.
pub proof fn law_counts_never_fall(
    g: Game,
    blocks: Seq<Block>,
    end: Result<(), Stop>,
    c: ContainerView,
    id: Seq<u8>,
)
    requires
        four_byte_names(blocks),
        id.len() == 4,
        walk::walk(g, blocks, end, c).end is Ok,
    ensures
        walk::counted(walk::walk(g, blocks, end, c).container, id) >= walk::counted(c, id),
    decreases blocks.len(),
{
    if blocks.len() > 0 {
        let first = walk::walk_block(g, blocks[0], c);
        law_blocks_are_listed(g, blocks[0], c);
        lemma_numbering(g, c, blocks[0]);
        if is_counted(blocks[0]) {
            law_blocks_are_counted(c, block_id(blocks[0]), id);
        }
        assert forall|i: int| 0 <= i < blocks.drop_first().len() implies block_id(
            #[trigger] blocks.drop_first()[i],
        ).len() == 4 by {
            assert(blocks.drop_first()[i] == blocks[i + 1]);
        }
        law_counts_never_fall(g, blocks.drop_first(), end, first.container, id);
    }
}

/// The number that block `i` of a container gets.
pub open spec fn number_of(g: Game, blocks: Seq<Block>, c: ContainerView, i: int) -> i32 {
    let before = walk::walk(g, blocks.take(i), Ok(()), c).container;
    (block_number(g, before, blocks[i])->Ok_0).0
}

/// Of two counted blocks of one kind in a container, the later has the greater number. So no two of
/// them are filed under the same name.
pub proof fn law_numbers_rise(
    g: Game,
    blocks: Seq<Block>,
    end: Result<(), Stop>,
    c: ContainerView,
    i: int,
    j: int,
)
    requires
        four_byte_names(blocks),
        walk::walk(g, blocks, end, c).end is Ok,
        0 <= i < j < blocks.len(),
        block_id(blocks[i]) == block_id(blocks[j]),
        is_counted(blocks[i]),
        is_counted(blocks[j]),
    ensures
        number_of(g, blocks, c, i) < number_of(g, blocks, c, j),
        text::id_num(block_id(blocks[i]), number_of(g, blocks, c, i) as int) != text::id_num(
            block_id(blocks[j]),
            number_of(g, blocks, c, j) as int,
        ),
{
    let id = block_id(blocks[i]);
    let front = blocks.take(i);
    let mid = blocks.subrange(i + 1, j);
    let ci = lemma_walk_reaches(g, blocks, end, c, i);
    let cj = lemma_walk_reaches(g, blocks, end, c, j);
    let one = seq![blocks[i]];
    // up to block i, block i itself, and what stands between the two
    assert(blocks.take(j) =~= front + (one + mid));
    law_runs_follow_each_other(g, front, one + mid, Ok(()), c);
    law_runs_follow_each_other(g, one, mid, Ok(()), ci);
    let step = walk::walk_block(g, blocks[i], ci);
    let none = walk::walk(g, one.drop_first(), Ok(()), step.container);
    assert(none.container == step.container);
    assert(walk::walk(g, one, Ok(()), ci).container == step.container);
    law_blocks_are_listed(g, blocks[i], ci);
    lemma_numbering(g, ci, blocks[i]);
    law_blocks_are_counted(ci, id, id);
    assert forall|k: int| 0 <= k < mid.len() implies block_id(#[trigger] mid[k]).len() == 4 by {
        assert(mid[k] == blocks[i + 1 + k]);
    }
    law_counts_never_fall(g, mid, Ok(()), step.container, id);
    law_blocks_are_listed(g, blocks[j], cj);
    lemma_numbering(g, cj, blocks[j]);
    law_blocks_are_counted(cj, id, id);
    let a = number_of(g, blocks, c, i) as int;
    let b = number_of(g, blocks, c, j) as int;
    if text::id_num(id, a) == text::id_num(id, b) {
        let k = (text::id_text(id) + "_"@).len() as int;
        assert(text::id_num(id, a).skip(k) =~= text::decimal(a, 2));
        assert(text::id_num(id, b).skip(k) =~= text::decimal(b, 2));
        text::law_decimals_differ(a, b, 2);
    }
}

/// Unpacking to a good end reaches every block, and gets over it.
pub proof fn lemma_walk_reaches(
    g: Game,
    blocks: Seq<Block>,
    end: Result<(), Stop>,
    c: ContainerView,
    i: int,
) -> (at: ContainerView)
    requires
        walk::walk(g, blocks, end, c).end is Ok,
        0 <= i < blocks.len(),
    ensures
        walk::walk(g, blocks.take(i), Ok(()), c).end is Ok,
        at == walk::walk(g, blocks.take(i), Ok(()), c).container,
        walk::walk_block(g, blocks[i], at).end is Ok,
{
    let front = blocks.take(i);
    let back = blocks.skip(i);
    assert(blocks =~= front + back);
    law_runs_follow_each_other(g, front, back, end, c);
    assert(back[0] == blocks[i]);
    walk::walk(g, front, Ok(()), c).container
}

/// Whether no container in the block has a slash in its name.
pub open spec fn plain(block: Block) -> bool
    decreases block,
{
    match block {
        Block::Flat { .. } => true,
        Block::Nested { id, offset, blocks, end } => !text::id_text(id).contains('/') && all_plain(
            blocks,
        ),
    }
}

/// Whether no container in the blocks has a slash in its name.
pub open spec fn all_plain(blocks: Seq<Block>) -> bool
    decreases blocks,
{
    blocks.len() > 0 ==> plain(blocks[0]) && all_plain(blocks.drop_first())
}

/// When the containers among the blocks have no slash in their names, unpacking the blocks leaves
/// the path as it was.
pub proof fn law_paths_come_back(
    g: Game,
    blocks: Seq<Block>,
    end: Result<(), Stop>,
    c: ContainerView,
)
    requires
        all_plain(blocks),
        walk::walk(g, blocks, end, c).end is Ok,
    ensures
        walk::walk(g, blocks, end, c).container.path == c.path,
    decreases blocks,
{
    if blocks.len() > 0 {
        let first = walk::walk_block(g, blocks[0], c);
        law_block_leaves_the_path(g, blocks[0], c);
        law_paths_come_back(g, blocks.drop_first(), end, first.container);
    }
}

/// A block in which no container has a slash in its name leaves the path as it was. If it is a
/// container, the list of its blocks is filed in the directory of its name, and comes last.
pub proof fn law_block_leaves_the_path(g: Game, block: Block, c: ContainerView)
    requires
        plain(block),
        walk::walk_block(g, block, c).end is Ok,
    ensures
        ({
            let run = walk::walk_block(g, block, c);
            let number = (block_number(g, c, block)->Ok_0).0;
            let name = text::id_num(block_id(block), number as int);
            &&& run.container.path == c.path
            &&& block is Nested ==> run.outs.len() > 0 && (run.outs.last() matches
                OutputView::Listing(file) && file.path == c.path + "/"@ + name + "/.map"@)
        }),
    decreases block,
{
    match block {
        Block::Flat { id, offset, content } => {
            let (number, c1) = walk::number_flat(g, c, id, offset, content)->Ok_0;
            let c2 = walk::listed(c1, text::id_num(id, number as int));
            lemma_verbs_are_scripts(g, c2, content, 0);
        },
        Block::Nested { id, offset, blocks, end } => {
            let (number, c1) = walk::number_nested(g, c, id, offset)->Ok_0;
            let name = text::id_num(id, number as int);
            let start = walk::opened(walk::listed(c1, name), name);
            law_paths_come_back(g, blocks, end, start);
            text::lemma_decimal(number as int, 2);
            reveal_strlit("_");
            assert(!name.contains('/')) by {
                if name.contains('/') {
                    let k = choose|k: int| 0 <= k < name.len() && name[k] == '/';
                    let n = text::id_text(id).len();
                    if k < n {
                        assert(text::id_text(id)[k] == '/');
                    } else if k > n {
                        assert(text::decimal(number as int, 2)[k - n - 1] == '/');
                    }
                }
            }
            text::lemma_parent_of_child(c.path, name);
        },
    }
}

/// What is found inside a container concerns the container alone: behind it the object is the one
/// from before, and so is the room, unless the container is itself a room.
pub proof fn law_containers_keep_to_themselves(g: Game, block: Block, c: ContainerView)
    requires
        block is Nested,
        walk::walk_block(g, block, c).end is Ok,
    ensures
        ({
            let after = walk::walk_block(g, block, c).container;
            let number = (block_number(g, c, block)->Ok_0).0;
            &&& after.object == c.object
            &&& after.room == if block_id(block) == LFLF@ {
                number
            } else {
                c.room
            }
        }),
{
}

/// A block with raw content leaves the path and the room as they were, and the object too unless it
/// is an object header. If it is counted, its kind has one more than before and no other kind
/// changes; if not, no count does.
pub proof fn law_raw_content_keeps_to_itself(
    g: Game,
    c: ContainerView,
    id: Seq<u8>,
    offset: int,
    content: Seq<u8>,
)
    requires
        walk::walk_flat(g, c, id, offset, content).end is Ok,
    ensures
        ({
            let after = walk::walk_flat(g, c, id, offset, content).container;
            &&& after.path == c.path
            &&& after.room == c.room
            &&& after.object == if id == CDHD@ {
                bytes::le_u16(content, 0)
            } else {
                c.object as int
            }
            &&& if id == SCRP@ || id == LSC2@ || id == CDHD@ {
                after.counts == c.counts
            } else {
                &&& after.counts == c.counts.insert(
                    walk::id_key(id),
                    (walk::counted(c, id) + 1) as i32,
                )
                &&& walk::counted(after, id) == walk::counted(c, id) + 1
                &&& id.len() == 4 ==> forall|other: Seq<u8>|
                    other.len() == 4 && other != id ==> #[trigger] walk::counted(after, other)
                        == walk::counted(c, other)
            }
        }),
{
    let (number, c1) = walk::number_flat(g, c, id, offset, content)->Ok_0;
    let c2 = walk::listed(c1, text::id_num(id, number as int));
    lemma_verbs_are_scripts(g, c2, content, 0);
    if id != SCRP@ && id != LSC2@ && id != CDHD@ && id.len() == 4 {
        let after = walk::walk_flat(g, c, id, offset, content).container;
        assert forall|other: Seq<u8>| other.len() == 4 && other != id implies #[trigger]
            walk::counted(after, other) == walk::counted(c, other) by {
            law_blocks_are_counted(c, id, other);
        }
    }
}

/// Putting out the scripts of a block leaves the container as it was, whether they come to a good end
/// or not.
pub proof fn law_scripts_leave_the_container(
    g: Game,
    c: ContainerView,
    id: Seq<u8>,
    number: i32,
    content: Seq<u8>,
)
    ensures
        walk::scripts(g, c, id, number, content).container == c,
{
    lemma_verbs_are_scripts(g, c, content, 0);
}

/// Publishing scripts changes nothing but the marks of the scripts in what a file comes to.
pub proof fn law_publishing_only_marks_in_files(g: Game, publish: bool, file: Seq<u8>)
    ensures
        walk::extraction(Game { publish, ..g }, file).0 == all_marked(
            walk::extraction(g, file).0,
            publish,
        ),
        walk::extraction(Game { publish, ..g }, file).1 == walk::extraction(g, file).1,
{
    let d = bytes::masked(file, bytes::NICE);
    let f = layout::forest(d, 0, d.len() as int);
    law_publishing_only_marks(g, publish, f.blocks, f.end, walk::root());
    assert(walk::extraction(Game { publish, ..g }, file).0 =~= all_marked(
        walk::extraction(g, file).0,
        publish,
    ));
}

/// The names of the blocks in a container, in order.
pub open spec fn block_names(g: Game, blocks: Seq<Block>, c: ContainerView) -> Seq<Seq<char>> {
    Seq::new(
        blocks.len(),
        |i: int| text::id_num(block_id(blocks[i]), number_of(g, blocks, c, i) as int),
    )
}

/// A line for each of the names.
pub open spec fn lines(names: Seq<Seq<char>>) -> Seq<char>
    decreases names.len(),
{
    if names.len() == 0 {
        Seq::empty()
    } else {
        lines(names.drop_last()) + names.last() + "\n"@
    }
}

/// The list of a container that is unpacked to a good end has a line for each of its blocks, in
/// order.
pub proof fn law_every_block_has_its_line(
    g: Game,
    blocks: Seq<Block>,
    end: Result<(), Stop>,
    c: ContainerView,
)
    requires
        walk::walk(g, blocks, end, c).end is Ok,
    ensures
        walk::walk(g, blocks, end, c).container.map == c.map + lines(block_names(g, blocks, c)),
    decreases blocks.len(),
{
    let names = block_names(g, blocks, c);
    if blocks.len() == 0 {
        assert(c.map + lines(names) =~= c.map);
    } else {
        let last = blocks.len() - 1;
        let front = blocks.drop_last();
        let one = seq![blocks.last()];
        let at = lemma_walk_reaches(g, blocks, end, c, last);
        assert(blocks.take(last) =~= front);
        law_every_block_has_its_line(g, front, Ok(()), c);
        assert(blocks =~= front + one);
        law_runs_follow_each_other(g, front, one, end, c);
        let step = walk::walk_block(g, blocks.last(), at);
        let none = walk::walk(g, one.drop_first(), end, step.container);
        assert(none.container == step.container);
        assert(walk::walk(g, one, end, at).container == step.container);
        law_blocks_are_listed(g, blocks.last(), at);
        assert forall|i: int| 0 <= i < last implies #[trigger] names[i] == block_names(
            g,
            front,
            c,
        )[i] by {
            assert(blocks.take(i) =~= front.take(i));
        }
        assert(names.drop_last() =~= block_names(g, front, c));
        assert(walk::walk(g, blocks, end, c).container.map =~= c.map + lines(names));
    }
}

/// When a file is unpacked to a good end, the list of its outermost blocks comes last.
pub proof fn law_file_is_listed(g: Game, file: Seq<u8>)
    requires
        walk::extraction(g, file).1 is Ok,
    ensures
        ({
            let d = bytes::masked(file, bytes::NICE);
            let blocks = layout::forest(d, 0, d.len() as int).blocks;
            let outs = walk::extraction(g, file).0;
            &&& outs.len() > 0
            &&& outs.last() matches OutputView::Listing(list) && list.data == encode_utf8(
                lines(block_names(g, blocks, walk::root())),
            )
        }),
{
    let d = bytes::masked(file, bytes::NICE);
    let f = layout::forest(d, 0, d.len() as int);
    law_every_block_has_its_line(g, f.blocks, f.end, walk::root());
    let names = block_names(g, f.blocks, walk::root());
    assert(Seq::<char>::empty() + lines(names) =~= lines(names));
}

/// The code of the scripts among the outputs, one behind the other.
pub open spec fn codes(outs: Seq<OutputView>) -> Seq<u8>
    decreases outs.len(),
{
    if outs.len() == 0 {
        Seq::empty()
    } else {
        (match outs[0] {
            OutputView::Script(script) => script.code,
            _ => Seq::empty(),
        }) + codes(outs.drop_first())
    }
}

/// The verbs of an object share out its code: from where the first one starts, every byte belongs
/// to one verb, up to the end of the block.
pub proof fn law_verbs_share_out_the_code(
    g: Game,
    c: ContainerView,
    content: Seq<u8>,
    pos: int,
)
    requires
        walk::verb_at(content, pos) is Some,
        walk::verbs(g, c, content, pos).end is Ok,
    ensures
        ({
            let start = (walk::verb_at(content, pos)->0).1 - 8;
            &&& 0 <= start <= content.len()
            &&& codes(walk::verbs(g, c, content, pos).outs) == content.subrange(
                start,
                content.len() as int,
            )
        }),
    decreases content.len() - pos,
{
    let start = (walk::verb_at(content, pos)->0).1 - 8;
    let stop = walk::verb_end(content, pos);
    let outs = walk::verbs(g, c, content, pos).outs;
    let rest = walk::verbs(g, c, content, pos + 3);
    assert(outs.drop_first() =~= rest.outs);
    if walk::verb_at(content, pos + 3) is Some {
        law_verbs_share_out_the_code(g, c, content, pos + 3);
    } else {
        assert(codes(rest.outs) =~= Seq::<u8>::empty());
    }
    assert(codes(outs) =~= content.subrange(start, content.len() as int));
}

/// Whether anything is filed as a block does not depend on a list that follows.
proof fn lemma_listing_is_no_block(outs: Seq<OutputView>, c: ContainerView)
    ensures
        filed(outs.push(walk::listing(c))) == filed(outs),
{
    assert(outs.push(walk::listing(c)).drop_last() =~= outs);
}

/// When a file is unpacked to a good end nothing of it is lost: the file is made of blocks, byte for
/// byte, and the raw contents of these blocks are what is filed, unchanged and in order.
pub proof fn law_nothing_is_lost(g: Game, file: Seq<u8>)
    requires
        walk::extraction(g, file).1 is Ok,
    ensures
        ({
            let d = bytes::masked(file, bytes::NICE);
            let blocks = layout::forest(d, 0, d.len() as int).blocks;
            &&& file == bytes::masked(layout::encoded_all(blocks), bytes::NICE)
            &&& filed(walk::extraction(g, file).0) == all_leaves(blocks)
        }),
{
    let d = bytes::masked(file, bytes::NICE);
    let f = layout::forest(d, 0, d.len() as int);
    let run = walk::walk_file(g, file);
    walk::lemma_walk_ends(g, f.blocks, f.end, walk::root());
    layout::law_blocks_cover_the_data(d, 0, d.len() as int);
    assert(d.subrange(0, d.len() as int) =~= d);
    bytes::law_mask_is_its_own_inverse(file, bytes::NICE);
    law_contents_are_filed(g, f.blocks, f.end, walk::root());
    lemma_listing_is_no_block(run.outs, run.container);
}

/// A file that is made of blocks that read as what they are comes to what these blocks do.
pub proof fn law_written_blocks_are_unpacked(g: Game, blocks: Seq<Block>)
    requires
        layout::all_readable(blocks, 0),
    ensures
        walk::walk_file(g, bytes::masked(layout::encoded_all(blocks), bytes::NICE)) == walk::walk(
            g,
            blocks,
            Ok(()),
            walk::root(),
        ),
{
    let d = layout::encoded_all(blocks);
    bytes::law_mask_is_its_own_inverse(d, bytes::NICE);
    assert(d.subrange(0, d.len() as int) =~= d);
    layout::law_blocks_read_back(d, 0, d.len() as int, blocks);
}

} // verus!
