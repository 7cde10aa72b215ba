//! What unpacking puts out at each step.
use crate::bytes;
use crate::error::{Fault, Stop};
use crate::laws;
use crate::layout;
use crate::layout::Block;
use crate::names::{CDHD, ENCD, EXCD, LFLF, LSC2, SCRP, VERB};
use crate::output::{FileView, OutputView, Scope, ScriptView};
use crate::text;
use crate::walk;
use crate::walk::{ContainerView, Game, Run};
use vstd::prelude::*;
use vstd::utf8::*;

verus! {

/// What verb `i` of a table from `pos` on comes to, if it is put out: the entry gives its number and,
/// in two bytes, the least significant first, where its code starts; the code ends where that of the
/// next entry starts, or where the content does. Behind the last one that is put out the table ends,
/// or an entry gives code that does not lie inside the content.
proof fn lemma_verb(g: Game, c: ContainerView, content: Seq<u8>, pos: int, i: int)
    requires
        0 <= pos,
        0 <= i <= walk::verbs(g, c, content, pos).outs.len(),
    ensures
        ({
            let run = walk::verbs(g, c, content, pos);
            let p = pos + 3 * i;
            let entry = p + 3 <= content.len() && content[p] != 0;
            let start = content[p + 1] + 256 * content[p + 2] - 8;
            let end = if p + 6 <= content.len() && content[p + 3] != 0 {
                content[p + 4] + 256 * content[p + 5] - 8
            } else {
                content.len() as int
            };
            &&& i < run.outs.len() ==> {
                &&& entry
                &&& 0 <= start <= end <= content.len()
                &&& run.outs[i] == OutputView::Script(
                    ScriptView {
                        stem: c.path + "/"@ + text::id_num(VERB@, content[p] as int),
                        code: content.subrange(start, end),
                        scope: Scope::Verb(c.room, c.object),
                        number: content[p] as i32,
                        publish: g.publish,
                    },
                )
            }
            &&& i == run.outs.len() && run.end is Ok ==> !entry
            &&& i == run.outs.len() && run.end is Err ==> entry && !(0 <= start <= end
                <= content.len()) && run.end == Err::<(), Stop>(Stop::Fault(Fault::VerbRange))
        }),
    decreases content.len() - pos, i,
{
    let run = walk::verbs(g, c, content, pos);
    bytes::law_numbers_are_made_of_bytes(content, pos + 1);
    bytes::law_numbers_are_made_of_bytes(content, pos + 4);
    if i > 0 {
        let rest = walk::verbs(g, c, content, pos + 3);
        assert(run.outs.drop_first() =~= rest.outs);
        assert(run.end == rest.end);
        lemma_verb(g, c, content, pos + 3, i - 1);
        assert(pos + 3 + 3 * (i - 1) == pos + 3 * i);
        if i < run.outs.len() {
            assert(run.outs[i] == rest.outs[i - 1]);
        }
    }
}

/// The verbs of an object follow the file of their block, one for each entry of the table at the
/// front of the content. Entry `i` stands at `3 * i`. Its first byte is the number of the verb; the
/// next two, the least significant first, are where the code of the verb starts, counted from the
/// header of the block. The code ends where that of the next entry starts, or where the content
/// does. The table ends at a zero or with the content.
pub proof fn law_verbs_are_cut_by_their_table(
    g: Game,
    c: ContainerView,
    offset: int,
    content: Seq<u8>,
    i: int,
)
    requires
        walk::count_block(c, seq![0x56u8, 0x45, 0x52, 0x42]) is Ok,
        0 <= i < walk::walk_flat(g, c, seq![0x56u8, 0x45, 0x52, 0x42], offset, content).outs.len(),
    ensures
        ({
            let run = walk::walk_flat(g, c, seq![0x56u8, 0x45, 0x52, 0x42], offset, content);
            let p = 3 * i;
            let entry = p + 3 <= content.len() && content[p] != 0;
            let start = content[p + 1] + 256 * content[p + 2] - 8;
            let end = if p + 6 <= content.len() && content[p + 3] != 0 {
                content[p + 4] + 256 * content[p + 5] - 8
            } else {
                content.len() as int
            };
            &&& i + 1 < run.outs.len() ==> {
                &&& entry
                &&& 0 <= start <= end <= content.len()
                &&& run.outs[i + 1] == OutputView::Script(
                    ScriptView {
                        stem: c.path + "/VERB_"@ + text::decimal(content[p] as int, 2),
                        code: content.subrange(start, end),
                        scope: Scope::Verb(c.room, c.object),
                        number: content[p] as i32,
                        publish: g.publish,
                    },
                )
            }
            &&& i + 1 == run.outs.len() && run.end is Ok ==> !entry
            &&& i + 1 == run.outs.len() && run.end is Err ==> entry && !(0 <= start <= end
                <= content.len()) && run.end == Err::<(), Stop>(Stop::Fault(Fault::VerbRange))
        }),
{
    let id = seq![0x56u8, 0x45, 0x52, 0x42];
    assert(VERB@ =~= id);
    assert(SCRP@[0] != VERB@[0] && LSC2@[0] != VERB@[0] && CDHD@[0] != VERB@[0] && ENCD@[0]
        != VERB@[0] && EXCD@[0] != VERB@[0]);
    let (number, c1) = walk::count_block(c, id)->Ok_0;
    let c2 = walk::listed(c1, text::id_num(id, number as int));
    let run = walk::walk_flat(g, c, id, offset, content);
    let verbs = walk::verbs(g, c2, content, 0);
    lemma_verb_is_spelled(content[3 * i] as int);
    assert(c.path + "/"@ + text::id_num(VERB@, content[3 * i] as int) =~= c.path + "/VERB_"@
        + text::decimal(content[3 * i] as int, 2)) by {
        reveal_strlit("/");
        reveal_strlit("/VERB_");
        reveal_strlit("VERB");
        assert("/VERB_"@ =~= "/"@ + "VERB"@ + seq!['_']);
    }
    assert(run.outs.drop_first() =~= verbs.outs);
    lemma_verb(g, c2, content, 0, i);
    if i + 1 < run.outs.len() {
        assert(run.outs[i + 1] == verbs.outs[i]);
    }
}

/// The name of verb blocks is text.
proof fn lemma_verb_is_spelled(number: int)
    ensures
        valid_utf8(VERB@),
        text::id_num(VERB@, number) == "VERB"@ + seq!['_'] + text::decimal(number, 2),
{
    reveal_strlit("VERB");
    is_ascii_chars_encode_utf8("VERB"@);
    assert(encode_utf8("VERB"@) =~= VERB@);
    encode_utf8_valid_utf8("VERB"@);
    encode_utf8_decode_utf8("VERB"@);
    text::law_block_is_called(VERB@, number);
}

/// The content of a block is the first thing that is put out of it, unchanged, in the directory of
/// the container and under the name of the block, whatever comes of its scripts.
pub proof fn law_raw_content_comes_first(
    g: Game,
    c: ContainerView,
    id: Seq<u8>,
    offset: int,
    content: Seq<u8>,
)
    requires
        walk::number_flat(g, c, id, offset, content) is Ok,
        valid_utf8(id),
    ensures
        ({
            let run = walk::walk_flat(g, c, id, offset, content);
            let number = (walk::number_flat(g, c, id, offset, content)->Ok_0).0;
            &&& run.outs.len() > 0
            &&& run.outs[0] == OutputView::Block(
                FileView {
                    path: c.path + "/"@ + text::id_num(id, number as int) + ".bin"@,
                    data: content,
                },
            )
            &&& forall|i: int| 1 <= i < run.outs.len() ==> (#[trigger] run.outs[i]) is Script
        }),
{
    let (number, c1) = walk::number_flat(g, c, id, offset, content)->Ok_0;
    let c2 = walk::listed(c1, text::id_num(id, number as int));
    let run = walk::walk_flat(g, c, id, offset, content);
    let rest = walk::scripts(g, c2, id, number, content);
    assert(run.outs.drop_first() =~= rest.outs);
    assert forall|i: int| 1 <= i < run.outs.len() implies (#[trigger] run.outs[i]) is Script by {
        assert(run.outs[i] == rest.outs[i - 1]);
        if id == VERB@ {
            assert(SCRP@[0] != VERB@[0] && LSC2@[0] != VERB@[0] && ENCD@[0] != VERB@[0] && EXCD@[0]
                != VERB@[0]);
            lemma_verb(g, c2, content, 0, i - 1);
        }
    }
}

/// A script that is a block of its own follows the file of the block, in whose directory it is filed
/// under the same name. Its code is the whole content, but for a local script, whose number stands in
/// front. It belongs to the game if it is global, and otherwise to the room. Blocks of other kinds
/// put out nothing but their file.
pub proof fn law_script_blocks(
    g: Game,
    c: ContainerView,
    id: Seq<u8>,
    offset: int,
    content: Seq<u8>,
)
    requires
        walk::number_flat(g, c, id, offset, content) is Ok,
        valid_utf8(id),
        id != VERB@,
    ensures
        walk::walk_flat(g, c, id, offset, content).end is Ok,
        ({
            let run = walk::walk_flat(g, c, id, offset, content);
            let number = (walk::number_flat(g, c, id, offset, content)->Ok_0).0;
            let stem = c.path + "/"@ + text::id_num(id, number as int);
            let script = |scope: Scope, code: Seq<u8>|
                OutputView::Script(
                    ScriptView { stem, code, scope, number, publish: g.publish },
                );
            let file = OutputView::Block(FileView { path: stem + ".bin"@, data: content });
            &&& id == seq![0x53u8, 0x43, 0x52, 0x50] ==> run.outs == seq![
                file,
                script(Scope::Global(number), content),
            ]
            &&& id == seq![0x4cu8, 0x53, 0x43, 0x32] ==> run.outs == seq![
                file,
                script(Scope::RoomLocal(c.room, number), content.skip(4)),
            ]
            &&& id == seq![0x45u8, 0x4e, 0x43, 0x44] ==> run.outs == seq![
                file,
                script(Scope::RoomEnter(c.room), content),
            ]
            &&& id == seq![0x45u8, 0x58, 0x43, 0x44] ==> run.outs == seq![
                file,
                script(Scope::RoomExit(c.room), content),
            ]
            &&& id != seq![0x53u8, 0x43, 0x52, 0x50] && id != seq![0x4cu8, 0x53, 0x43, 0x32] && id
                != seq![0x45u8, 0x4e, 0x43, 0x44] && id != seq![0x45u8, 0x58, 0x43, 0x44]
                ==> run.outs == seq![file]
        }),
{
    assert(SCRP@ =~= seq![0x53u8, 0x43, 0x52, 0x50]);
    assert(LSC2@ =~= seq![0x4cu8, 0x53, 0x43, 0x32]);
    assert(ENCD@ =~= seq![0x45u8, 0x4e, 0x43, 0x44]);
    assert(EXCD@ =~= seq![0x45u8, 0x58, 0x43, 0x44]);
    assert(SCRP@[0] != LSC2@[0] && SCRP@[0] != ENCD@[0] && LSC2@[0] != ENCD@[0] && ENCD@[1]
        != EXCD@[1] && SCRP@[0] != EXCD@[0] && LSC2@[0] != EXCD@[0] && CDHD@[0] != LSC2@[0]);
    let (number, c1) = walk::number_flat(g, c, id, offset, content)->Ok_0;
    let name = text::id_num(id, number as int);
    let run = walk::walk_flat(g, c, id, offset, content);
    let stem = c.path + "/"@ + name;
    let file = OutputView::Block(FileView { path: stem + ".bin"@, data: content });
    let rest = walk::scripts(g, walk::listed(c1, name), id, number, content);
    assert(run.outs == seq![file] + rest.outs);
    if id == LSC2@ {
        assert(content.subrange(4, content.len() as int) =~= content.skip(4));
    }
    if rest.outs.len() == 1 {
        assert(run.outs =~= seq![file, rest.outs[0]]);
    } else {
        assert(run.outs =~= seq![file]);
    }
}

/// A block whose name is no text is a fault, whatever it holds, once it has a number; without one it
/// ends as the number does. Either way nothing is put out.
pub proof fn law_blocks_need_a_name_and_a_number(g: Game, c: ContainerView, block: Block)
    ensures
        ({
            let run = walk::walk_block(g, block, c);
            let number = laws::block_number(g, c, block);
            &&& number matches Err(stop) ==> run.outs.len() == 0 && run.end == Err::<(), Stop>(stop)
            &&& number is Ok && !valid_utf8(laws::block_id(block)) ==> run.outs.len() == 0
                && run.end == Err::<(), Stop>(Stop::Fault(Fault::BlockIdNotText))
            &&& number is Ok && valid_utf8(laws::block_id(block)) && block is Flat ==> run.outs.len()
                > 0
        }),
{
}

/// The blocks of a container are unpacked into the directory of its name, with counts and a list of
/// their own. They belong to the object that the container does, and to its room, which is the
/// container itself if it is a room. If they come to a good end the list follows, behind them all;
/// if not, nothing does.
pub proof fn law_containers_are_opened(
    g: Game,
    c: ContainerView,
    id: Seq<u8>,
    offset: int,
    blocks: Seq<Block>,
    end: Result<(), Stop>,
)
    requires
        walk::number_nested(g, c, id, offset) is Ok,
        valid_utf8(id),
    ensures
        ({
            let run = walk::walk_block(g, Block::Nested { id, offset, blocks, end }, c);
            let number = (walk::number_nested(g, c, id, offset)->Ok_0).0;
            let inside = ContainerView {
                path: c.path + "/"@ + text::id_num(id, number as int),
                room: if id == seq![0x4cu8, 0x46, 0x4c, 0x46] {
                    number
                } else {
                    c.room
                },
                object: c.object,
                counts: Map::empty(),
                map: Seq::empty(),
            };
            let inner = walk::walk(g, blocks, end, inside);
            &&& inner.end is Ok ==> run.end is Ok
            &&& inner.end is Err ==> run.end == inner.end && run.outs == inner.outs
            &&& inner.end is Ok ==> run.outs == inner.outs + seq![
                OutputView::Listing(
                    FileView {
                        path: inner.container.path + "/.map"@,
                        data: encode_utf8(inner.container.map),
                    },
                ),
            ]
            &&& inner.end is Ok ==> run.container.path == text::parent(inner.container.path)
        }),
{
    assert(LFLF@ =~= seq![0x4cu8, 0x46, 0x4c, 0x46]);
    let run = walk::walk_block(g, Block::Nested { id, offset, blocks, end }, c);
    let (number, c1) = walk::number_nested(g, c, id, offset)->Ok_0;
    let name = text::id_num(id, number as int);
    let inside = ContainerView {
        path: c.path + "/"@ + name,
        room: c1.room,
        object: c.object,
        counts: Map::empty(),
        map: Seq::empty(),
    };
    assert(walk::opened(walk::listed(c1, name), name) == inside);
    let inner = walk::walk(g, blocks, end, inside);
    if inner.end is Ok {
        let list = walk::listing(inner.container);
        assert(inner.outs.push(list) =~= inner.outs + seq![list]);
    }
}

/// No blocks put out nothing, and leave things as they are. One block comes to what it does, and then
/// to the end that reading has.
pub proof fn law_blocks_come_one_by_one(
    g: Game,
    block: Block,
    end: Result<(), Stop>,
    c: ContainerView,
)
    ensures
        walk::walk(g, Seq::empty(), end, c) == (Run { outs: Seq::empty(), end, container: c }),
        walk::walk(g, seq![block], end, c) == ({
            let one = walk::walk_block(g, block, c);
            if one.end is Err {
                one
            } else {
                Run { end, ..one }
            }
        }),
{
    let one = walk::walk_block(g, block, c);
    assert(seq![block].drop_first() =~= Seq::<Block>::empty());
    let none = walk::walk(g, Seq::empty(), end, one.container);
    assert(one.outs + none.outs =~= one.outs);
}

/// A disk is unpacked from what its file is once 0x69 is taken off every byte. It starts in the
/// directory `.`, in no room and with no object. If its blocks come to a good end, the list of them
/// is the last thing that is put out; if not, nothing follows what was put out before.
pub proof fn law_disk_is_unmasked_and_unpacked(g: Game, file: Seq<u8>, data: Seq<u8>)
    requires
        file.len() == data.len(),
        forall|i: int| 0 <= i < data.len() ==> #[trigger] file[i] == data[i] ^ 0x69u8,
    ensures
        ({
            let f = layout::forest(data, 0, data.len() as int);
            let outermost = ContainerView {
                path: seq!['.'],
                room: 0,
                object: 0,
                counts: Map::empty(),
                map: Seq::empty(),
            };
            let run = walk::walk(g, f.blocks, f.end, outermost);
            &&& walk::extraction(g, file).1 == run.end
            &&& run.end is Err ==> walk::extraction(g, file).0 == run.outs
            &&& run.end is Ok ==> walk::extraction(g, file).0 == run.outs + seq![
                OutputView::Listing(
                    FileView {
                        path: run.container.path + "/.map"@,
                        data: encode_utf8(run.container.map),
                    },
                ),
            ]
        }),
{
    let d = bytes::masked(file, bytes::NICE);
    assert forall|i: int| 0 <= i < data.len() implies d[i] == data[i] by {
        assert(file[i] == data[i] ^ 0x69u8);
        let b = data[i];
        assert((b ^ 0x69u8) ^ 0x69u8 == b) by (bit_vector);
    }
    assert(d =~= data);
    reveal_strlit(".");
    assert("."@ =~= seq!['.']);
    let run = walk::walk_file(g, file);
    if run.end is Ok {
        let list = walk::listing(run.container);
        assert(run.outs.push(list) =~= run.outs + seq![list]);
    }
}

} // verus!
